//! Collecting the edges of a web graph and handing them out in order.
//!
//! Edges are kept in memory, sorted, until there are too many of them. They are then handed out
//! to be stored in a file, and kept in memory afresh. In the end the edges in memory and those
//! that were stored are merged.

use crate::store_laws::law_output_without_files;
use std::cmp::Ordering;
use std::collections::{BTreeMap, VecDeque};
use vstd::prelude::*;
use vstd::std_specs::cmp::OrdSpec;
use vstd::std_specs::iter::IteratorSpec;

verus! {

broadcast use {vstd::std_specs::btree::group_btree_axioms, vstd::laws_cmp::group_laws_cmp};

/// The number of edges in memory at which they are handed out to be stored.
pub const MAX_BATCH_SIZE: usize = 3_000_000;

/// The identifier of a node.
#[derive(Clone, Copy, Debug, PartialEq, Eq, Hash, PartialOrd, Ord, Structural)]
pub struct NodeID(pub u128);

/// An end of an edge.
#[derive(Clone, Copy, Debug, PartialEq, Eq, Structural)]
pub struct EdgeEnd {
    pub id: NodeID,
}

/// An edge with its label.
#[derive(Debug)]
pub struct InnerEdge<L> {
    pub from: EdgeEnd,
    pub to: EdgeEnd,
    pub label: L,
}

/// What edges are sorted by.
pub type EdgeKey = (u128, u128);

/// An edge with what it is sorted by.
#[derive(Debug)]
pub struct SortableEdge<L> {
    pub sort_node: NodeID,
    pub secondary_node: NodeID,
    pub edge: InnerEdge<L>,
}

impl<L> SortableEdge<L> {
    /// What the edge is sorted by.
    pub open spec fn key(self) -> EdgeKey {
        (self.sort_node.0, self.secondary_node.0)
    }
}

/// The first key stands before the second.
pub open spec fn key_before(a: EdgeKey, b: EdgeKey) -> bool {
    a.0 < b.0 || (a.0 == b.0 && a.1 < b.1)
}

impl<L> PartialEq for SortableEdge<L> {
    fn eq(&self, other: &Self) -> (equal: bool) {
        self.sort_node == other.sort_node && self.secondary_node == other.secondary_node
    }
}

impl<L> vstd::std_specs::cmp::PartialEqSpecImpl for SortableEdge<L> {
    open spec fn obeys_eq_spec() -> bool {
        true
    }

    open spec fn eq_spec(&self, other: &Self) -> bool {
        self.key() == other.key()
    }
}

impl<L> PartialOrd for SortableEdge<L> {
    fn partial_cmp(&self, other: &Self) -> (ordering: Option<Ordering>) {
        if self.sort_node.0 < other.sort_node.0 {
            Some(Ordering::Less)
        } else if self.sort_node.0 > other.sort_node.0 {
            Some(Ordering::Greater)
        } else if self.secondary_node.0 < other.secondary_node.0 {
            Some(Ordering::Less)
        } else if self.secondary_node.0 > other.secondary_node.0 {
            Some(Ordering::Greater)
        } else {
            Some(Ordering::Equal)
        }
    }
}

impl<L> vstd::std_specs::cmp::PartialOrdSpecImpl for SortableEdge<L> {
    open spec fn obeys_partial_cmp_spec() -> bool {
        true
    }

    open spec fn partial_cmp_spec(&self, other: &Self) -> Option<Ordering> {
        if key_before(self.key(), other.key()) {
            Some(Ordering::Less)
        } else if key_before(other.key(), self.key()) {
            Some(Ordering::Greater)
        } else {
            Some(Ordering::Equal)
        }
    }
}

/// What an edge is sorted by: the node it leaves and the node it leads to, or the other way
/// round.
pub open spec fn key_of<L>(edge: InnerEdge<L>, reversed: bool) -> EdgeKey {
    if reversed {
        (edge.to.id.0, edge.from.id.0)
    } else {
        (edge.from.id.0, edge.to.id.0)
    }
}

/// The edges stand in strictly rising order of their keys.
pub open spec fn strictly_sorted<L>(edges: Seq<SortableEdge<L>>) -> bool {
    forall|i: int, j: int|
        0 <= i < j < edges.len() ==> key_before(
            (#[trigger] edges[i]).key(),
            (#[trigger] edges[j]).key(),
        )
}

/// The edges stand in rising order of the node that they are sorted by.
pub open spec fn node_sorted<L>(edges: Seq<SortableEdge<L>>) -> bool {
    forall|i: int, j: int|
        0 <= i <= j < edges.len() ==> (#[trigger] edges[i]).sort_node.0 <= (
        #[trigger] edges[j]).sort_node.0
}

/// The key at `i` of the list is the given one.
pub open spec fn key_at<L>(list: Seq<SortableEdge<L>>, i: int, key: EdgeKey) -> bool {
    0 <= i < list.len() && list[i].key() == key
}

/// The key is one of those of the list.
pub open spec fn has_key<L>(list: Seq<SortableEdge<L>>, key: EdgeKey) -> bool {
    exists|i: int| key_at(list, i, key)
}

/// `list` holds the edges of the map, sorted by their keys.
pub open spec fn lists_edges<L>(
    list: Seq<SortableEdge<L>>,
    edges: Map<EdgeKey, InnerEdge<L>>,
) -> bool {
    &&& strictly_sorted(list)
    &&& forall|i: int|
        0 <= i < list.len() ==> edges.contains_key((#[trigger] list[i]).key())
            && edges[list[i].key()] == list[i].edge
    &&& forall|key: EdgeKey| #[trigger] edges.contains_key(key) ==> has_key(list, key)
}

/// The edges of the map, sorted by their keys.
pub open spec fn sorted_list<L>(edges: Map<EdgeKey, InnerEdge<L>>) -> Seq<SortableEdge<L>> {
    choose|list: Seq<SortableEdge<L>>| lists_edges(list, edges)
}

/// There is one way only to list the edges of a map in order.
pub proof fn law_listing_is_unique<L>(
    a: Seq<SortableEdge<L>>,
    b: Seq<SortableEdge<L>>,
    edges: Map<EdgeKey, InnerEdge<L>>,
)
    requires
        lists_edges(a, edges),
        lists_edges(b, edges),
    ensures
        a == b,
    decreases a.len(),
{
    if a.len() == 0 {
        if b.len() > 0 {
            assert(edges.contains_key(b[0].key()));
            let i = choose|i: int| key_at(a, i, b[0].key());
        }
        assert(a =~= b);
    } else {
        let last = a.len() - 1;
        assert(edges.contains_key(a[last].key()));
        let j = choose|j: int| key_at(b, j, a[last].key());
        let end = b.len() - 1;
        assert(edges.contains_key(b[end].key()));
        let i = choose|i: int| key_at(a, i, b[end].key());
        if j < end {
            assert(key_before(b[j].key(), b[end].key()));
            if i < last {
                assert(key_before(a[i].key(), a[last].key()));
            }
        }
        assert(j == end);
        assert(a[last] == b[end]);
        let rest = edges.remove(a[last].key());
        lemma_listing_without_last(a, edges);
        lemma_listing_without_last(b, edges);
        law_listing_is_unique(a.drop_last(), b.drop_last(), rest);
        assert(a =~= a.drop_last().push(a[last]));
        assert(b =~= b.drop_last().push(b[end]));
    }
}

/// Without its last edge, a list holds the rest of the edges.
proof fn lemma_listing_without_last<L>(
    list: Seq<SortableEdge<L>>,
    edges: Map<EdgeKey, InnerEdge<L>>,
)
    requires
        lists_edges(list, edges),
        list.len() > 0,
    ensures
        lists_edges(list.drop_last(), edges.remove(list.last().key())),
{
    let front = list.drop_last();
    let last = list.len() - 1;
    let rest = edges.remove(list.last().key());
    assert forall|i: int| 0 <= i < front.len() implies rest.contains_key((#[trigger] front[i]).key())
        && rest[front[i].key()] == front[i].edge by {
        assert(front[i] == list[i]);
        assert(key_before(list[i].key(), list[last].key()));
    }
    assert forall|key: EdgeKey| #[trigger] rest.contains_key(key) implies has_key(front, key) by {
        let i = choose|i: int| key_at(list, i, key);
        assert(key_at(front, i, key));
    }
}

/// A list holds each edge of a map once.
pub proof fn lemma_listing_len<L>(
    list: Seq<SortableEdge<L>>,
    edges: Map<EdgeKey, InnerEdge<L>>,
)
    requires
        lists_edges(list, edges),
    ensures
        edges.dom().finite(),
        list.len() == edges.len(),
    decreases list.len(),
{
    if list.len() == 0 {
        assert forall|key: EdgeKey| !#[trigger] edges.contains_key(key) by {
            if edges.contains_key(key) {
                let i = choose|i: int| key_at(list, i, key);
            }
        }
        assert(edges.dom() =~= Set::empty());
    } else {
        let key = list.last().key();
        assert(edges.contains_key(list[list.len() - 1].key()));
        lemma_listing_without_last(list, edges);
        lemma_listing_len(list.drop_last(), edges.remove(key));
        assert(edges.remove(key).dom() =~= edges.dom().remove(key));
        assert(edges.dom() =~= edges.dom().remove(key).insert(key));
    }
}

/// The edges of a list.
pub open spec fn plain_edges<L>(list: Seq<SortableEdge<L>>) -> Seq<InnerEdge<L>> {
    list.map_values(|edge: SortableEdge<L>| edge.edge)
}

/// Two lists merged: at each step the edge in memory comes next if its node is lower than that
/// of the stored edge, and the stored edge otherwise.
pub open spec fn merged<L>(mem: Seq<SortableEdge<L>>, file: Seq<SortableEdge<L>>) -> Seq<
    SortableEdge<L>,
>
    decreases mem.len() + file.len(),
{
    if mem.len() == 0 {
        file
    } else if file.len() == 0 {
        mem
    } else if mem[0].sort_node.0 < file[0].sort_node.0 {
        seq![mem[0]] + merged(mem.drop_first(), file)
    } else {
        seq![file[0]] + merged(mem, file.drop_first())
    }
}

/// The list without the edges that have the same key as the edge before them.
pub open spec fn deduped<L>(list: Seq<SortableEdge<L>>) -> Seq<SortableEdge<L>>
    decreases list.len(),
{
    if list.len() == 0 {
        Seq::empty()
    } else {
        let front = deduped(list.drop_last());
        if list.len() > 1 && list[list.len() - 2].key() == list.last().key() {
            front
        } else {
            front.push(list.last())
        }
    }
}

/// The edges in memory and the stored ones, as they are being merged.
pub struct SortedEdgeIterator {
    mem: VecDeque<SortableEdge<String>>,
    file_reader: VecDeque<SortableEdge<String>>,
}

impl SortedEdgeIterator {
    /// What is still to come.
    pub closed spec fn rest(&self) -> Seq<SortableEdge<String>> {
        merged(self.mem@, self.file_reader@)
    }

    /// Both lists, from their beginning.
    pub fn new(
        mem: VecDeque<SortableEdge<String>>,
        file_reader: VecDeque<SortableEdge<String>>,
    ) -> (edges: SortedEdgeIterator)
        ensures
            edges.rest() == merged(mem@, file_reader@),
    {
        SortedEdgeIterator { mem, file_reader }
    }

    /// The next edge.
    pub fn next(&mut self) -> (edge: Option<SortableEdge<String>>)
        ensures
            edge is None <==> old(self).rest().len() == 0,
            edge matches Some(next) ==> next == old(self).rest()[0] && final(self).rest() == old(
                self,
            ).rest().drop_first(),
            edge is None ==> final(self).rest() == old(self).rest(),
    {
        let ghost mem = self.mem@;
        let ghost file = self.file_reader@;
        if self.mem.len() > 0 && (self.file_reader.len() == 0 || self.mem[0].sort_node.0
            < self.file_reader[0].sort_node.0) {
            let edge = self.mem.pop_front();
            proof {
                assert(self.mem@ =~= mem.drop_first());
                if file.len() == 0 {
                    assert(merged(self.mem@, file) =~= mem.drop_first());
                } else {
                    assert(merged(mem, file).drop_first() =~= merged(mem.drop_first(), file));
                }
            }
            edge
        } else {
            let edge = self.file_reader.pop_front();
            proof {
                if file.len() > 0 {
                    assert(self.file_reader@ =~= file.drop_first());
                    if mem.len() > 0 {
                        assert(merged(mem, file).drop_first() =~= merged(mem, file.drop_first()));
                    }
                } else {
                    assert(merged(mem, file).len() == 0);
                }
            }
            edge
        }
    }
}

/// Edges that are due to be stored, and the name of the file that is meant to hold them.
pub struct StoredBatch {
    pub file_name: String,
    pub edges: VecDeque<SortableEdge<String>>,
}

/// The digits of a number.
pub open spec fn decimal(number: nat) -> Seq<char>
    decreases number,
{
    if number < 10 {
        seq![digit(number)]
    } else {
        decimal(number / 10).push(digit(number % 10))
    }
}

/// The digit that stands for a number below ten.
pub open spec fn digit(number: nat) -> char {
    ('0' as nat + number) as char
}

/// The name of the file that holds the batch with the given number.
pub open spec fn store_name(number: nat) -> Seq<char> {
    decimal(number) + ".store"@
}

fn digit_text(number: usize) -> (text: &'static str)
    requires
        number < 10,
    ensures
        text@ == seq![digit(number as nat)],
{
    proof {
        reveal_strlit("0");
        reveal_strlit("1");
        reveal_strlit("2");
        reveal_strlit("3");
        reveal_strlit("4");
        reveal_strlit("5");
        reveal_strlit("6");
        reveal_strlit("7");
        reveal_strlit("8");
        reveal_strlit("9");
    }
    let text = match number {
        0 => "0",
        1 => "1",
        2 => "2",
        3 => "3",
        4 => "4",
        5 => "5",
        6 => "6",
        7 => "7",
        8 => "8",
        _ => "9",
    };
    assert(text@ =~= seq![digit(number as nat)]);
    text
}

fn decimal_text(number: usize) -> (text: String)
    ensures
        text@ == decimal(number as nat),
    decreases number,
{
    if number < 10 {
        digit_text(number).to_owned()
    } else {
        let mut text = decimal_text(number / 10);
        text.append(digit_text(number % 10));
        assert(text@ =~= decimal(number as nat));
        text
    }
}

/// The name of the file that holds the batch with the given number.
pub fn store_file_name(number: usize) -> (name: String)
    ensures
        name@ == store_name(number as nat),
{
    let mut name = decimal_text(number);
    name.append(".store");
    name
}

/// The keys of the map, sorted.
fn edge_keys(edges: &BTreeMap<EdgeKey, InnerEdge<String>>) -> (keys: Vec<EdgeKey>)
    ensures
        forall|i: int, j: int|
            0 <= i < j < keys@.len() ==> key_before(#[trigger] keys@[i], #[trigger] keys@[j]),
        forall|key: EdgeKey| #[trigger] edges@.contains_key(key) <==> keys@.contains(key),
{
    let mut keys: Vec<EdgeKey> = Vec::new();
    let entries = edges.iter();
    let ghost listed = entries.remaining();
    let ghost rising = listed.map_values(|entry: (&EdgeKey, &InnerEdge<String>)| *entry.0);
    for entry in it: entries
        invariant
            it.seq() == listed,
            keys@.len() == it.index(),
            forall|i: int| 0 <= i < keys@.len() ==> keys@[i] == *listed[i].0,
    {
        keys.push(*entry.0);
    }
    proof {
        assert(keys@ =~= rising);
        assert forall|i: int, j: int| 0 <= i < j < keys@.len() implies key_before(
            #[trigger] keys@[i],
            #[trigger] keys@[j],
        ) by {
            assert(rising[i].cmp_spec(&rising[j]) is Less);
        }
        assert forall|key: EdgeKey| #[trigger] edges@.contains_key(key) implies keys@.contains(
            key,
        ) by {
            let i = listed.index_of((&key, &edges@[key]));
            assert(keys@[i] == key);
        }
        assert forall|key: EdgeKey| keys@.contains(key) implies #[trigger] edges@.contains_key(
            key,
        ) by {
            let i = keys@.index_of(key);
            assert(edges@.contains_key(*listed[i].0));
        }
    }
    keys
}

/// Takes all edges out of the map, sorted.
fn take_sorted(edges: &mut BTreeMap<EdgeKey, InnerEdge<String>>) -> (list: VecDeque<
    SortableEdge<String>,
>)
    ensures
        list@ == sorted_list(old(edges)@),
        lists_edges(list@, old(edges)@),
        final(edges)@ == Map::<EdgeKey, InnerEdge<String>>::empty(),
{
    let keys = edge_keys(edges);
    let mut list: VecDeque<SortableEdge<String>> = VecDeque::new();
    let mut k: usize = 0;
    while k < keys.len()
        invariant
            k <= keys@.len(),
            forall|i: int, j: int|
                0 <= i < j < keys@.len() ==> key_before(#[trigger] keys@[i], #[trigger] keys@[j]),
            forall|key: EdgeKey| #[trigger] old(edges)@.contains_key(key) <==> keys@.contains(key),
            forall|i: int|
                k <= i < keys@.len() ==> edges@.contains_key(#[trigger] keys@[i]) && edges@[keys@[i]]
                    == old(edges)@[keys@[i]],
            list@.len() == k,
            forall|i: int|
                0 <= i < k ==> (#[trigger] list@[i]).key() == keys@[i] && list@[i].edge == old(
                    edges,
                )@[keys@[i]],
        decreases keys@.len() - k,
    {
        let key: EdgeKey = keys[k];
        proof {
            assert(edges@.contains_key(keys@[k as int]));
        }
        match edges.remove(&key) {
            Some(edge) => {
                list.push_back(
                    SortableEdge {
                        sort_node: NodeID(key.0),
                        secondary_node: NodeID(key.1),
                        edge,
                    },
                );
            },
            None => {
                assert(false);
            },
        }
        proof {
            assert forall|i: int| k + 1 <= i < keys@.len() implies edges@.contains_key(
                #[trigger] keys@[i],
            ) && edges@[keys@[i]] == old(edges)@[keys@[i]] by {
                assert(key_before(keys@[k as int], keys@[i]));
            }
        }
        k = k + 1;
    }
    edges.clear();
    proof {
        assert forall|i: int| 0 <= i < list@.len() implies old(edges)@.contains_key(
            (#[trigger] list@[i]).key(),
        ) && old(edges)@[list@[i].key()] == list@[i].edge by {
            assert(keys@.contains(keys@[i]));
        }
        assert forall|key: EdgeKey| #[trigger] old(edges)@.contains_key(key) implies has_key(
            list@,
            key,
        ) by {
            let i = keys@.index_of(key);
            assert(key_at(list@, i, key));
        }
        assert(lists_edges(list@, old(edges)@));
        law_listing_is_unique(list@, sorted_list(old(edges)@), old(edges)@);
    }
    list
}

/// Collects edges. What is due to be stored is handed out; the owner of the files stores it and
/// reads it back in the end.
pub struct EdgeStoreWriter {
    reversed: bool,
    edges: BTreeMap<EdgeKey, InnerEdge<String>>,
    stored_writers: usize,
}

/// What a writer holds.
#[verifier::ext_equal]
pub struct WriterView {
    /// Whether edges are sorted by the node that they lead to.
    pub reversed: bool,
    /// The edges in memory.
    pub edges: Map<EdgeKey, InnerEdge<String>>,
    /// How many batches were handed out to be stored.
    pub stored: nat,
}

impl WriterView {
    /// The edge joins those in memory, unless there is one with its key.
    pub open spec fn added(self, edge: InnerEdge<String>) -> WriterView {
        let key = key_of(edge, self.reversed);
        if self.edges.contains_key(key) {
            self
        } else {
            WriterView { edges: self.edges.insert(key, edge), ..self }
        }
    }

    /// The edges in memory are handed out.
    pub open spec fn flushed(self) -> WriterView {
        WriterView { edges: Map::empty(), stored: self.stored + 1, ..self }
    }

    /// There are as many edges in memory as there may be.
    pub open spec fn full(self) -> bool {
        self.edges.len() >= MAX_BATCH_SIZE
    }

    /// An edge is put.
    pub open spec fn put(self, edge: InnerEdge<String>) -> WriterView {
        if self.added(edge).full() {
            self.added(edge).flushed()
        } else {
            self.added(edge)
        }
    }
}

/// The batch holds what the writer had in memory.
pub open spec fn is_batch_of(batch: StoredBatch, writer: WriterView) -> bool {
    &&& batch.file_name@ == store_name(writer.stored)
    &&& batch.edges@ == sorted_list(writer.edges)
    &&& lists_edges(batch.edges@, writer.edges)
}

impl View for EdgeStoreWriter {
    type V = WriterView;

    closed spec fn view(&self) -> WriterView {
        WriterView {
            reversed: self.reversed,
            edges: self.edges@,
            stored: self.stored_writers as nat,
        }
    }
}

impl EdgeStoreWriter {
    /// There are finitely many edges in memory.
    pub proof fn lemma_finite(&self)
        ensures
            self@.edges.dom().finite(),
    {
    }

    /// A writer without edges.
    pub fn new(reversed: bool) -> (writer: EdgeStoreWriter)
        ensures
            writer@ == (WriterView { reversed, edges: Map::empty(), stored: 0 }),
    {
        EdgeStoreWriter { reversed, edges: BTreeMap::new(), stored_writers: 0 }
    }

    /// Hands out the edges in memory, to be stored.
    fn flush_to_file(&mut self) -> (batch: StoredBatch)
        requires
            old(self)@.stored < usize::MAX,
        ensures
            final(self)@ == old(self)@.flushed(),
            is_batch_of(batch, old(self)@),
    {
        let file_name = store_file_name(self.stored_writers);
        let edges = take_sorted(&mut self.edges);
        self.stored_writers = self.stored_writers + 1;
        StoredBatch { file_name, edges }
    }

    /// Puts an edge. An edge with the key of one in memory is left out. If there are then as many
    /// edges in memory as there may be, hands them out, to be stored.
    pub fn put(&mut self, edge: InnerEdge<String>) -> (batch: Option<StoredBatch>)
        requires
            old(self)@.stored < usize::MAX,
        ensures
            final(self)@ == old(self)@.put(edge),
            batch is Some <==> old(self)@.added(edge).full(),
            batch matches Some(due) ==> is_batch_of(due, old(self)@.added(edge)),
            ({
                let key = if old(self)@.reversed {
                    (edge.to.id.0, edge.from.id.0)
                } else {
                    (edge.from.id.0, edge.to.id.0)
                };
                let kept = if old(self)@.edges.contains_key(key) {
                    old(self)@.edges
                } else {
                    old(self)@.edges.insert(key, edge)
                };
                &&& final(self)@.reversed == old(self)@.reversed
                &&& batch is Some <==> kept.len() >= 3_000_000
                &&& match batch {
                    Some(due) => {
                        &&& final(self)@.edges == Map::<EdgeKey, InnerEdge<String>>::empty()
                        &&& final(self)@.stored == old(self)@.stored + 1
                        &&& due.file_name@ == store_name(old(self)@.stored)
                        &&& due.edges@.len() == kept.len()
                    },
                    None => final(self)@.edges == kept && final(self)@.stored == old(self)@.stored,
                }
            }),
    {
        let key: EdgeKey = if self.reversed {
            (edge.to.id.0, edge.from.id.0)
        } else {
            (edge.from.id.0, edge.to.id.0)
        };
        if !self.edges.contains_key(&key) {
            self.edges.insert(key, edge);
        }
        if self.edges.len() >= MAX_BATCH_SIZE {
            let batch = self.flush_to_file();
            proof {
                lemma_listing_len(batch.edges@, old(self)@.added(edge).edges);
            }
            Some(batch)
        } else {
            None
        }
    }

    /// The edges in memory merged with the stored ones.
    fn sorted_edges(self, file_edges: VecDeque<SortableEdge<String>>) -> (edges: SortedEdgeIterator)
        ensures
            edges.rest() == merged(sorted_list(self@.edges), file_edges@),
            lists_edges(sorted_list(self@.edges), self@.edges),
    {
        let EdgeStoreWriter { reversed: _, mut edges, stored_writers: _ } = self;
        let mem = take_sorted(&mut edges);
        SortedEdgeIterator::new(mem, file_edges)
    }

    /// Hands out all edges: those in memory merged with the stored ones, without those that have
    /// the same key as the edge before them. `file_edges` is what was stored, in order.
    pub fn finalize(self, file_edges: VecDeque<SortableEdge<String>>) -> (edges: Vec<
        InnerEdge<String>,
    >)
        ensures
            edges@ == plain_edges(deduped(merged(sorted_list(self@.edges), file_edges@))),
            lists_edges(sorted_list(self@.edges), self@.edges),
            file_edges@.len() == 0 ==> {
                &&& edges@.len() == self@.edges.len()
                &&& forall|key: EdgeKey| #[trigger]
                    self@.edges.contains_key(key) ==> edges@.contains(self@.edges[key])
            },
    {
        let ghost stored = file_edges@;
        let ghost all = merged(sorted_list(self@.edges), file_edges@);
        let mut sorted = self.sorted_edges(file_edges);
        let mut edges: Vec<InnerEdge<String>> = Vec::new();
        let mut last: Option<EdgeKey> = None;
        let ghost mut taken: Seq<SortableEdge<String>> = Seq::empty();
        let mut more = true;
        proof {
            assert(edges@ =~= plain_edges(deduped(taken)));
            assert(taken + sorted.rest() =~= all);
        }
        while more
            invariant
                taken + sorted.rest() == all,
                !more ==> sorted.rest().len() == 0,
                edges@ == plain_edges(deduped(taken)),
                last is None <==> taken.len() == 0,
                last matches Some(key) ==> taken.last().key() == key,
            decreases sorted.rest().len() + if more { 1int } else { 0int },
        {
            let ghost before = taken;
            let ghost rest = sorted.rest();
            match sorted.next() {
                Some(sortable) => {
                    let ghost edge = sortable;
                    let key: EdgeKey = (sortable.sort_node.0, sortable.secondary_node.0);
                    let repeated = match last {
                        Some(last_key) => last_key.0 == key.0 && last_key.1 == key.1,
                        None => false,
                    };
                    proof {
                        taken = before.push(edge);
                        assert(taken.drop_last() =~= before);
                        assert(taken + sorted.rest() =~= before + rest);
                    }
                    if !repeated {
                        edges.push(sortable.edge);
                        proof {
                            assert(plain_edges(deduped(taken)) =~= plain_edges(
                                deduped(before),
                            ).push(edge.edge));
                        }
                    }
                    last = Some(key);
                },
                None => {
                    more = false;
                },
            }
        }
        proof {
            assert(taken =~= all);
            if stored.len() == 0 {
                lemma_all_edges_come_out(self@.edges, stored, edges@);
            }
        }
        edges
    }
}

/// Without stored edges, the edges in memory come out, each of them once.
proof fn lemma_all_edges_come_out(
    edges: Map<EdgeKey, InnerEdge<String>>,
    stored: Seq<SortableEdge<String>>,
    output: Seq<InnerEdge<String>>,
)
    requires
        stored.len() == 0,
        lists_edges(sorted_list(edges), edges),
        output == plain_edges(deduped(merged(sorted_list(edges), stored))),
    ensures
        output.len() == edges.len(),
        forall|key: EdgeKey| #[trigger]
            edges.contains_key(key) ==> output.contains(edges[key]),
{
    let list = sorted_list(edges);
    lemma_listing_len(list, edges);
    law_output_without_files(edges);
    assert(stored =~= Seq::empty());
    assert forall|key: EdgeKey| #[trigger] edges.contains_key(key) implies output.contains(
        edges[key],
    ) by {
        let i = choose|i: int| key_at(list, i, key);
        assert(edges[list[i].key()] == list[i].edge);
        assert(output[i] == edges[key]);
    }
}

} // verus!
