//! What holds of collected edges as a whole.

use crate::store_writer::{
    decimal, deduped, digit, has_key, key_at, key_before, key_of, lists_edges, merged, node_sorted,
    sorted_list, store_name, strictly_sorted, EdgeKey, InnerEdge, NodeID, SortableEdge, WriterView,
};
use vstd::prelude::*;

verus! {

/// The first edge that is put with a key stays: a further edge with that key changes nothing, as
/// long as the first one is in memory.
pub proof fn law_first_put_stays(
    writer: WriterView,
    first: InnerEdge<String>,
    second: InnerEdge<String>,
)
    requires
        !writer.added(first).full(),
        key_of(second, writer.reversed) == key_of(first, writer.reversed),
    ensures
        writer.put(first).put(second) == writer.put(first),
        writer.put(first).edges.contains_key(key_of(first, writer.reversed)),
        !writer.edges.contains_key(key_of(first, writer.reversed)) ==> writer.put(
            first,
        ).edges[key_of(first, writer.reversed)] == first,
{
}

/// What was put with another key stays in memory, or is handed out with the rest.
pub proof fn law_put_keeps_the_rest(writer: WriterView, edge: InnerEdge<String>, key: EdgeKey)
    requires
        writer.edges.contains_key(key),
    ensures
        writer.added(edge).edges.contains_key(key),
        writer.added(edge).edges[key] == writer.edges[key],
        writer.put(edge) == writer.added(edge) || writer.put(edge) == writer.added(edge).flushed(),
{
}

/// Merging keeps all edges and adds none.
pub proof fn law_merge_keeps_edges<L>(mem: Seq<SortableEdge<L>>, file: Seq<SortableEdge<L>>)
    ensures
        merged(mem, file).to_multiset() == mem.to_multiset().add(file.to_multiset()),
        merged(mem, file).len() == mem.len() + file.len(),
    decreases mem.len() + file.len(),
{
    broadcast use vstd::multiset::group_multiset_axioms;
    broadcast use vstd::seq_lib::group_to_multiset_ensures;

    if mem.len() == 0 {
        assert(mem =~= Seq::empty());
        assert(merged(mem, file).to_multiset() =~= mem.to_multiset().add(file.to_multiset()));
    } else if file.len() == 0 {
        assert(file =~= Seq::empty());
        assert(merged(mem, file).to_multiset() =~= mem.to_multiset().add(file.to_multiset()));
    } else if mem[0].sort_node.0 < file[0].sort_node.0 {
        law_merge_keeps_edges(mem.drop_first(), file);
        lemma_first_and_rest(mem[0], mem.drop_first());
        lemma_first_and_rest(mem[0], merged(mem.drop_first(), file));
        assert(mem =~= seq![mem[0]] + mem.drop_first());
        assert(merged(mem, file).to_multiset() =~= mem.to_multiset().add(file.to_multiset()));
    } else {
        law_merge_keeps_edges(mem, file.drop_first());
        lemma_first_and_rest(file[0], file.drop_first());
        lemma_first_and_rest(file[0], merged(mem, file.drop_first()));
        assert(file =~= seq![file[0]] + file.drop_first());
        assert(merged(mem, file).to_multiset() =~= mem.to_multiset().add(file.to_multiset()));
    }
}

proof fn lemma_first_and_rest<A>(first: A, rest: Seq<A>)
    ensures
        (seq![first] + rest).to_multiset() == rest.to_multiset().insert(first),
{
    broadcast use vstd::multiset::group_multiset_axioms;
    broadcast use vstd::seq_lib::group_to_multiset_ensures;

    vstd::seq_lib::lemma_multiset_commutative(seq![first], rest);
    assert(seq![first] =~= Seq::empty().push(first));
    assert((seq![first] + rest).to_multiset() =~= rest.to_multiset().insert(first));
}

/// Merging keeps all keys and adds none.
pub proof fn law_merge_keeps_keys<L>(
    mem: Seq<SortableEdge<L>>,
    file: Seq<SortableEdge<L>>,
    key: EdgeKey,
)
    ensures
        has_key(merged(mem, file), key) <==> has_key(mem, key) || has_key(file, key),
    decreases mem.len() + file.len(),
{
    if mem.len() > 0 && file.len() > 0 {
        if mem[0].sort_node.0 < file[0].sort_node.0 {
            law_merge_keeps_keys(mem.drop_first(), file, key);
            lemma_keys_of_first_and_rest(mem[0], mem.drop_first(), key);
            lemma_keys_of_first_and_rest(mem[0], merged(mem.drop_first(), file), key);
            assert(mem =~= seq![mem[0]] + mem.drop_first());
        } else {
            law_merge_keeps_keys(mem, file.drop_first(), key);
            lemma_keys_of_first_and_rest(file[0], file.drop_first(), key);
            lemma_keys_of_first_and_rest(file[0], merged(mem, file.drop_first()), key);
            assert(file =~= seq![file[0]] + file.drop_first());
        }
    }
}

proof fn lemma_keys_of_first_and_rest<L>(
    first: SortableEdge<L>,
    rest: Seq<SortableEdge<L>>,
    key: EdgeKey,
)
    ensures
        has_key(seq![first] + rest, key) <==> first.key() == key || has_key(rest, key),
{
    let all = seq![first] + rest;
    if first.key() == key {
        assert(key_at(all, 0, key));
    }
    if has_key(rest, key) {
        let i = choose|i: int| key_at(rest, i, key);
        assert(key_at(all, i + 1, key));
    }
    if has_key(all, key) {
        let i = choose|i: int| key_at(all, i, key);
        if i > 0 {
            assert(key_at(rest, i - 1, key));
        }
    }
}

/// If both lists stand in the order of their nodes, so does what they are merged to.
pub proof fn law_merge_is_sorted<L>(mem: Seq<SortableEdge<L>>, file: Seq<SortableEdge<L>>)
    requires
        node_sorted(mem),
        node_sorted(file),
    ensures
        node_sorted(merged(mem, file)),
    decreases mem.len() + file.len(),
{
    if mem.len() > 0 && file.len() > 0 {
        if mem[0].sort_node.0 < file[0].sort_node.0 {
            law_merge_is_sorted(mem.drop_first(), file);
            lemma_no_node_below(mem.drop_first(), file, mem[0].sort_node.0);
        } else {
            law_merge_is_sorted(mem, file.drop_first());
            lemma_no_node_below(mem, file.drop_first(), file[0].sort_node.0);
        }
    }
}

proof fn lemma_no_node_below<L>(
    mem: Seq<SortableEdge<L>>,
    file: Seq<SortableEdge<L>>,
    node: u128,
)
    requires
        forall|i: int| 0 <= i < mem.len() ==> node <= (#[trigger] mem[i]).sort_node.0,
        forall|i: int| 0 <= i < file.len() ==> node <= (#[trigger] file[i]).sort_node.0,
    ensures
        forall|i: int|
            0 <= i < merged(mem, file).len() ==> node <= (#[trigger] merged(
                mem,
                file,
            )[i]).sort_node.0,
{
    assert forall|i: int| 0 <= i < merged(mem, file).len() implies node <= (#[trigger] merged(
        mem,
        file,
    )[i]).sort_node.0 by {
        let key = merged(mem, file)[i].key();
        assert(key_at(merged(mem, file), i, key));
        law_merge_keeps_keys(mem, file, key);
        if has_key(mem, key) {
            let j = choose|j: int| key_at(mem, j, key);
            assert(node <= mem[j].sort_node.0);
        } else {
            let j = choose|j: int| key_at(file, j, key);
            assert(node <= file[j].sort_node.0);
        }
    }
}

/// Leaving out repeated edges keeps all keys and adds none.
pub proof fn law_dedup_keeps_keys<L>(list: Seq<SortableEdge<L>>, key: EdgeKey)
    ensures
        has_key(deduped(list), key) <==> has_key(list, key),
    decreases list.len(),
{
    if list.len() > 0 {
        let front = list.drop_last();
        law_dedup_keeps_keys(front, key);
        let kept = deduped(front);
        let now = deduped(list);
        if has_key(list, key) {
            let i = choose|i: int| key_at(list, i, key);
            if i < front.len() || now.len() == kept.len() {
                assert(key_at(front, if i < front.len() { i } else { front.len() - 1 }, key));
                let j = choose|j: int| key_at(kept, j, key);
                assert(key_at(now, j, key));
            } else {
                assert(key_at(now, kept.len() as int, key));
            }
        }
        if has_key(now, key) {
            let j = choose|j: int| key_at(now, j, key);
            if j < kept.len() {
                assert(key_at(kept, j, key));
                let i = choose|i: int| key_at(front, i, key);
                assert(key_at(list, i, key));
            } else {
                assert(key_at(list, list.len() - 1, key));
            }
        }
    }
}

/// Leaving out repeated edges leaves no two neighbours with one key. The first edge of a run
/// stays.
pub proof fn law_dedup_leaves_no_repetition<L>(list: Seq<SortableEdge<L>>)
    ensures
        forall|i: int, j: int|
            0 <= i && j == i + 1 && j < deduped(list).len() ==> (#[trigger] deduped(list)[i]).key()
                != (#[trigger] deduped(list)[j]).key(),
        list.len() > 0 ==> deduped(list).len() > 0 && deduped(list)[0] == list[0]
            && deduped(list).last().key() == list.last().key(),
    decreases list.len(),
{
    if list.len() > 0 {
        let front = list.drop_last();
        let kept = deduped(front);
        let now = deduped(list);
        law_dedup_leaves_no_repetition(front);
        if front.len() > 0 {
            assert(front.last() == list[list.len() - 2]);
            assert(front[0] == list[0]);
            assert(now[0] == kept[0]);
        } else {
            assert(kept.len() == 0);
            assert(now == kept.push(list.last()));
        }
        assert forall|i: int, j: int| 0 <= i && j == i + 1 && j < now.len() implies (
        #[trigger] now[i]).key() != (#[trigger] now[j]).key() by {
            if j < kept.len() {
                assert(now[i] == kept[i] && now[j] == kept[j]);
            } else {
                assert(now[i] == kept.last());
            }
        }
    }
}

/// Leaving out repeated edges keeps the order.
pub proof fn law_dedup_keeps_order<L>(list: Seq<SortableEdge<L>>)
    requires
        node_sorted(list),
    ensures
        node_sorted(deduped(list)),
    decreases list.len(),
{
    if list.len() > 0 {
        let front = list.drop_last();
        let kept = deduped(front);
        assert forall|i: int, j: int| 0 <= i <= j < front.len() implies (
        #[trigger] front[i]).sort_node.0 <= (#[trigger] front[j]).sort_node.0 by {
            assert(list[i].sort_node.0 <= list[j].sort_node.0);
        }
        law_dedup_keeps_order(front);
        law_dedup_leaves_no_repetition(front);
        if kept.len() > 0 {
            assert(kept.last().key() == front.last().key());
            assert(list[list.len() - 2].sort_node.0 <= list[list.len() - 1].sort_node.0);
            assert forall|i: int| 0 <= i < kept.len() implies (#[trigger] kept[i]).sort_node.0
                <= list.last().sort_node.0 by {
                assert(kept[i].sort_node.0 <= kept[kept.len() - 1].sort_node.0);
            }
        }
    }
}

/// The list with one more edge, which stands before the first edge with a higher key.
spec fn with_edge<L>(list: Seq<SortableEdge<L>>, edge: SortableEdge<L>) -> Seq<SortableEdge<L>>
    decreases list.len(),
{
    if list.len() == 0 || key_before(list.last().key(), edge.key()) {
        list.push(edge)
    } else {
        with_edge(list.drop_last(), edge).push(list.last())
    }
}

proof fn lemma_with_edge<L>(list: Seq<SortableEdge<L>>, edge: SortableEdge<L>)
    requires
        strictly_sorted(list),
        forall|i: int| 0 <= i < list.len() ==> (#[trigger] list[i]).key() != edge.key(),
    ensures
        strictly_sorted(with_edge(list, edge)),
        forall|e: SortableEdge<L>| #[trigger]
            with_edge(list, edge).contains(e) <==> list.contains(e) || e == edge,
    decreases list.len(),
{
    let now = with_edge(list, edge);
    if list.len() == 0 || key_before(list.last().key(), edge.key()) {
        assert forall|i: int, j: int| 0 <= i < j < now.len() implies key_before(
            (#[trigger] now[i]).key(),
            (#[trigger] now[j]).key(),
        ) by {
            if j == list.len() && i < list.len() - 1 {
                assert(key_before(list[i].key(), list[list.len() - 1].key()));
            }
        }
        assert forall|e: SortableEdge<L>| #[trigger] now.contains(e) <==> list.contains(e) || e
            == edge by {
            if list.contains(e) {
                let i = list.index_of(e);
                assert(now[i] == e);
            }
            assert(now[list.len() as int] == edge);
        }
    } else {
        let front = list.drop_last();
        let earlier = with_edge(front, edge);
        let last = list.last();
        assert forall|i: int, j: int| 0 <= i < j < front.len() implies key_before(
            (#[trigger] front[i]).key(),
            (#[trigger] front[j]).key(),
        ) by {
            assert(key_before(list[i].key(), list[j].key()));
        }
        lemma_with_edge(front, edge);
        assert(list[list.len() - 1].key() != edge.key());
        assert forall|i: int| 0 <= i < earlier.len() implies key_before(
            (#[trigger] earlier[i]).key(),
            last.key(),
        ) by {
            assert(earlier.contains(earlier[i]));
            if front.contains(earlier[i]) {
                let k = front.index_of(earlier[i]);
                assert(key_before(list[k].key(), list[list.len() - 1].key()));
            }
        }
        assert forall|e: SortableEdge<L>| #[trigger] now.contains(e) <==> list.contains(e) || e
            == edge by {
            assert(earlier.contains(e) <==> front.contains(e) || e == edge);
            if earlier.contains(e) {
                let i = earlier.index_of(e);
                assert(now[i] == e);
            }
            assert(now[earlier.len() as int] == last);
            if list.contains(e) {
                let i = list.index_of(e);
                if i < front.len() {
                    assert(front[i] == e);
                }
            }
            if front.contains(e) {
                let i = front.index_of(e);
                assert(list[i] == e);
            }
            assert(list[list.len() - 1] == last);
            if now.contains(e) {
                let i = now.index_of(e);
                if i < earlier.len() {
                    assert(earlier[i] == e);
                }
            }
        }
    }
}

/// The edges of a finite map can be listed in order.
pub proof fn law_edges_can_be_listed<L>(edges: Map<EdgeKey, InnerEdge<L>>)
    requires
        edges.dom().finite(),
    ensures
        lists_edges(sorted_list(edges), edges),
    decreases edges.dom().len(),
{
    if edges.dom().is_empty() {
        let list = Seq::<SortableEdge<L>>::empty();
        assert forall|key: EdgeKey| #[trigger] edges.contains_key(key) implies has_key(
            list,
            key,
        ) by {
            assert(edges.dom().contains(key));
        }
        assert(lists_edges(list, edges));
    } else {
        let key = edges.dom().choose();
        let rest = edges.remove(key);
        assert(rest.dom() =~= edges.dom().remove(key));
        law_edges_can_be_listed(rest);
        let list = sorted_list(rest);
        let edge = SortableEdge {
            sort_node: NodeID(key.0),
            secondary_node: NodeID(key.1),
            edge: edges[key],
        };
        assert forall|i: int| 0 <= i < list.len() implies (#[trigger] list[i]).key()
            != edge.key() by {
            assert(rest.contains_key(list[i].key()));
        }
        lemma_with_edge(list, edge);
        let now = with_edge(list, edge);
        assert forall|i: int| 0 <= i < now.len() implies edges.contains_key(
            (#[trigger] now[i]).key(),
        ) && edges[now[i].key()] == now[i].edge by {
            assert(now.contains(now[i]));
            if list.contains(now[i]) {
                let j = list.index_of(now[i]);
                assert(rest.contains_key(list[j].key()));
            }
        }
        assert forall|k: EdgeKey| #[trigger] edges.contains_key(k) implies has_key(now, k) by {
            if k == key {
                assert(now.contains(edge));
                let i = now.index_of(edge);
                assert(key_at(now, i, k));
            } else {
                assert(rest.contains_key(k));
                let j = choose|j: int| key_at(list, j, k);
                assert(list.contains(list[j]));
                assert(now.contains(list[j]));
                let i = now.index_of(list[j]);
                assert(key_at(now, i, k));
            }
        }
        assert(lists_edges(now, edges));
    }
}

/// What comes out in the end has the keys of the edges in memory and of the stored edges and no
/// others, no two neighbours with one key, and stands in the order of the nodes if the stored
/// edges do.
pub proof fn law_output<L>(edges: Map<EdgeKey, InnerEdge<L>>, file: Seq<SortableEdge<L>>)
    requires
        edges.dom().finite(),
    ensures
        ({
            let output = deduped(merged(sorted_list(edges), file));
            &&& forall|key: EdgeKey| #[trigger]
                has_key(output, key) <==> edges.contains_key(key) || has_key(file, key)
            &&& forall|i: int, j: int|
                0 <= i && j == i + 1 && j < output.len() ==> (#[trigger] output[i]).key() != (
                #[trigger] output[j]).key()
            &&& node_sorted(file) ==> node_sorted(output)
        }),
{
    let mem = sorted_list(edges);
    law_edges_can_be_listed(edges);
    law_dedup_leaves_no_repetition(merged(mem, file));
    assert forall|key: EdgeKey| #[trigger]
        has_key(deduped(merged(mem, file)), key) <==> edges.contains_key(key) || has_key(
            file,
            key,
        ) by {
        law_merge_keeps_keys(mem, file, key);
        law_dedup_keeps_keys(merged(mem, file), key);
        if has_key(mem, key) {
            let i = choose|i: int| key_at(mem, i, key);
            assert(edges.contains_key(mem[i].key()));
        }
    }
    if node_sorted(file) {
        lemma_strictly_sorted_is_node_sorted(mem);
        law_merge_is_sorted(mem, file);
        law_dedup_keeps_order(merged(mem, file));
    }
}

proof fn lemma_strictly_sorted_is_node_sorted<L>(list: Seq<SortableEdge<L>>)
    requires
        strictly_sorted(list),
    ensures
        node_sorted(list),
{
    assert forall|i: int, j: int| 0 <= i <= j < list.len() implies (#[trigger] list[i]).sort_node.0
        <= (#[trigger] list[j]).sort_node.0 by {
        if i < j {
            assert(key_before(list[i].key(), list[j].key()));
        }
    }
}

/// Without stored edges, those in memory come out as they are, in strictly rising order.
pub proof fn law_output_without_files<L>(edges: Map<EdgeKey, InnerEdge<L>>)
    requires
        edges.dom().finite(),
    ensures
        deduped(merged(sorted_list(edges), Seq::empty())) == sorted_list(edges),
        strictly_sorted(sorted_list(edges)),
{
    let mem = sorted_list(edges);
    law_edges_can_be_listed(edges);
    if mem.len() == 0 {
        assert(merged(mem, Seq::empty()) =~= mem);
    }
    lemma_nothing_repeated(mem);
}

proof fn lemma_nothing_repeated<L>(list: Seq<SortableEdge<L>>)
    requires
        strictly_sorted(list),
    ensures
        deduped(list) == list,
    decreases list.len(),
{
    if list.len() > 0 {
        let front = list.drop_last();
        assert(strictly_sorted(front)) by {
            assert forall|i: int, j: int| 0 <= i < j < front.len() implies key_before(
                (#[trigger] front[i]).key(),
                (#[trigger] front[j]).key(),
            ) by {
                assert(key_before(list[i].key(), list[j].key()));
            }
        }
        lemma_nothing_repeated(front);
        if list.len() > 1 {
            assert(key_before(list[list.len() - 2].key(), list[list.len() - 1].key()));
        }
        assert(front.push(list.last()) =~= list);
    } else {
        assert(deduped(list) =~= list);
    }
}

/// The edges stand in rising order of their keys; equal keys may follow each other.
pub open spec fn key_sorted<L>(edges: Seq<SortableEdge<L>>) -> bool {
    forall|i: int, j: int|
        0 <= i < j < edges.len() ==> !key_before(
            (#[trigger] edges[j]).key(),
            (#[trigger] edges[i]).key(),
        )
}

/// A key that is both in memory and stored is the last of its node among the stored ones and the
/// first of its node in memory.
pub open spec fn meets_only_at_ends<L>(
    mem: Seq<SortableEdge<L>>,
    file: Seq<SortableEdge<L>>,
) -> bool {
    forall|i: int, j: int|
        0 <= i < mem.len() && 0 <= j < file.len() && (#[trigger] mem[i]).key() == (
        #[trigger] file[j]).key() ==> {
            &&& forall|k: int|
                0 <= k < file.len() && key_before(file[j].key(), (#[trigger] file[k]).key())
                    ==> file[k].sort_node != file[j].sort_node
            &&& forall|k: int|
                0 <= k < mem.len() && key_before((#[trigger] mem[k]).key(), mem[i].key())
                    ==> mem[k].sort_node != mem[i].sort_node
        }
}

/// Edges with one key follow each other.
pub open spec fn runs<L>(list: Seq<SortableEdge<L>>) -> bool {
    forall|i: int, j: int, k: int|
        0 <= i <= j <= k < list.len() && (#[trigger] list[i]).key() == (#[trigger] list[k]).key()
            ==> (#[trigger] list[j]).key() == list[i].key()
}

/// No key comes out twice, provided that a key that is both in memory and stored is the last of
/// its node among the stored ones and the first of its node in memory. Edges are compared by
/// their node only when they are merged, so other common keys can come out apart from each
/// other, and then twice.
pub proof fn law_no_key_comes_out_twice<L>(
    mem: Seq<SortableEdge<L>>,
    file: Seq<SortableEdge<L>>,
    i: int,
    j: int,
)
    requires
        strictly_sorted(mem),
        key_sorted(file),
        meets_only_at_ends(mem, file),
        0 <= i < j < deduped(merged(mem, file)).len(),
    ensures
        deduped(merged(mem, file))[i].key() != deduped(merged(mem, file))[j].key(),
{
    lemma_merged_runs(mem, file);
    lemma_runs_dedup(merged(mem, file), i, j);
}

proof fn lemma_merged_runs<L>(mem: Seq<SortableEdge<L>>, file: Seq<SortableEdge<L>>)
    requires
        strictly_sorted(mem),
        key_sorted(file),
        meets_only_at_ends(mem, file),
    ensures
        runs(merged(mem, file)),
    decreases mem.len() + file.len(),
{
    if mem.len() == 0 {
        assert forall|i: int, j: int, k: int|
            0 <= i <= j <= k < file.len() && (#[trigger] file[i]).key() == (
            #[trigger] file[k]).key() implies (#[trigger] file[j]).key() == file[i].key() by {
            if i < j && j < k {
                assert(!key_before(file[j].key(), file[i].key()));
                assert(!key_before(file[k].key(), file[j].key()));
            }
        }
    } else if file.len() == 0 {
        assert forall|i: int, j: int, k: int|
            0 <= i <= j <= k < mem.len() && (#[trigger] mem[i]).key() == (#[trigger] mem[k]).key()
            implies (#[trigger] mem[j]).key() == mem[i].key() by {
            if i < k {
                assert(key_before(mem[i].key(), mem[k].key()));
            }
        }
    } else if mem[0].sort_node.0 < file[0].sort_node.0 {
        let first = mem[0];
        let mem_rest = mem.drop_first();
        let rest = merged(mem_rest, file);
        assert forall|i: int, j: int| 0 <= i < j < mem_rest.len() implies key_before(
            (#[trigger] mem_rest[i]).key(),
            (#[trigger] mem_rest[j]).key(),
        ) by {
            assert(key_before(mem[i + 1].key(), mem[j + 1].key()));
        }
        assert(meets_only_at_ends(mem_rest, file)) by {
            lemma_meets_without_first_in_memory(mem, file);
        }
        lemma_merged_runs(mem_rest, file);
        law_merge_keeps_keys(mem_rest, file, first.key());
        if has_key(mem_rest, first.key()) {
            let i = choose|i: int| key_at(mem_rest, i, first.key());
            assert(key_before(mem[0].key(), mem[i + 1].key()));
        }
        if has_key(file, first.key()) {
            let i = choose|i: int| key_at(file, i, first.key());
            assert(i > 0 ==> !key_before(file[i].key(), file[0].key()));
        }
        lemma_first_joins_runs(first, rest);
    } else {
        let first = file[0];
        let file_rest = file.drop_first();
        let rest = merged(mem, file_rest);
        assert forall|i: int, j: int| 0 <= i < j < file_rest.len() implies !key_before(
            (#[trigger] file_rest[j]).key(),
            (#[trigger] file_rest[i]).key(),
        ) by {
            assert(!key_before(file[j + 1].key(), file[i + 1].key()));
        }
        lemma_meets_without_first_stored(mem, file);
        lemma_merged_runs(mem, file_rest);
        law_merge_keeps_keys(mem, file_rest, first.key());
        if has_key(file_rest, first.key()) {
            let i = choose|i: int| key_at(file_rest, i, first.key());
            assert(file[i + 1].key() == first.key());
            assert(!key_before(file[1].key(), file[0].key()));
            if i > 0 {
                assert(!key_before(file[i + 1].key(), file[1].key()));
            }
            assert(file_rest[0].key() == first.key());
            assert(rest[0] == file_rest[0]);
        } else if has_key(mem, first.key()) {
            let i = choose|i: int| key_at(mem, i, first.key());
            assert(mem[i].key() == file[0].key());
            if i > 0 {
                assert(key_before(mem[0].key(), mem[i].key()));
                assert(mem[0].sort_node != mem[i].sort_node);
            }
            assert(mem[0].key() == first.key());
            if file_rest.len() > 0 {
                assert(!key_before(file[1].key(), file[0].key()));
                if file[1].key() == first.key() {
                    assert(key_at(file_rest, 0, first.key()));
                }
                assert(key_before(file[0].key(), file[1].key()));
                assert(file[1].sort_node != file[0].sort_node);
            }
            assert(rest[0] == mem[0]);
        }
        lemma_first_joins_runs(first, rest);
    }
}

proof fn lemma_meets_without_first_in_memory<L>(
    mem: Seq<SortableEdge<L>>,
    file: Seq<SortableEdge<L>>,
)
    requires
        mem.len() > 0,
        meets_only_at_ends(mem, file),
    ensures
        meets_only_at_ends(mem.drop_first(), file),
{
    let rest = mem.drop_first();
    assert forall|i: int, j: int|
        0 <= i < rest.len() && 0 <= j < file.len() && (#[trigger] rest[i]).key() == (
        #[trigger] file[j]).key() implies {
        &&& forall|k: int|
            0 <= k < file.len() && key_before(file[j].key(), (#[trigger] file[k]).key())
                ==> file[k].sort_node != file[j].sort_node
        &&& forall|k: int|
            0 <= k < rest.len() && key_before((#[trigger] rest[k]).key(), rest[i].key())
                ==> rest[k].sort_node != rest[i].sort_node
    } by {
        assert(mem[i + 1].key() == file[j].key());
        assert forall|k: int|
            0 <= k < rest.len() && key_before(
                (#[trigger] rest[k]).key(),
                rest[i].key(),
            ) implies rest[k].sort_node != rest[i].sort_node by {
            assert(mem[k + 1] == rest[k]);
        }
    }
}

proof fn lemma_meets_without_first_stored<L>(
    mem: Seq<SortableEdge<L>>,
    file: Seq<SortableEdge<L>>,
)
    requires
        file.len() > 0,
        meets_only_at_ends(mem, file),
    ensures
        meets_only_at_ends(mem, file.drop_first()),
{
    let rest = file.drop_first();
    assert forall|i: int, j: int|
        0 <= i < mem.len() && 0 <= j < rest.len() && (#[trigger] mem[i]).key() == (
        #[trigger] rest[j]).key() implies {
        &&& forall|k: int|
            0 <= k < rest.len() && key_before(rest[j].key(), (#[trigger] rest[k]).key())
                ==> rest[k].sort_node != rest[j].sort_node
        &&& forall|k: int|
            0 <= k < mem.len() && key_before((#[trigger] mem[k]).key(), mem[i].key())
                ==> mem[k].sort_node != mem[i].sort_node
    } by {
        assert(mem[i].key() == file[j + 1].key());
        assert forall|k: int|
            0 <= k < rest.len() && key_before(
                rest[j].key(),
                (#[trigger] rest[k]).key(),
            ) implies rest[k].sort_node != rest[j].sort_node by {
            assert(file[k + 1] == rest[k]);
        }
    }
}

proof fn lemma_first_joins_runs<L>(first: SortableEdge<L>, rest: Seq<SortableEdge<L>>)
    requires
        runs(rest),
        has_key(rest, first.key()) ==> rest[0].key() == first.key(),
    ensures
        runs(seq![first] + rest),
{
    let all = seq![first] + rest;
    assert forall|i: int, j: int, k: int|
        0 <= i <= j <= k < all.len() && (#[trigger] all[i]).key() == (#[trigger] all[k]).key()
        implies (#[trigger] all[j]).key() == all[i].key() by {
        if k > 0 {
            assert(all[k] == rest[k - 1]);
            if i == 0 {
                assert(key_at(rest, k - 1, first.key()));
                if j > 0 {
                    assert(all[j] == rest[j - 1]);
                    assert(rest[0].key() == rest[k - 1].key());
                }
            } else {
                assert(all[i] == rest[i - 1]);
                assert(all[j] == rest[j - 1]);
            }
        }
    }
}

proof fn lemma_runs_dedup<L>(list: Seq<SortableEdge<L>>, i: int, j: int)
    requires
        runs(list),
        0 <= i < j < deduped(list).len(),
    ensures
        deduped(list)[i].key() != deduped(list)[j].key(),
    decreases list.len(),
{
    let front = list.drop_last();
    let kept = deduped(front);
    assert(runs(front)) by {
        assert forall|a: int, b: int, c: int|
            0 <= a <= b <= c < front.len() && (#[trigger] front[a]).key() == (
            #[trigger] front[c]).key() implies (#[trigger] front[b]).key() == front[a].key() by {
            assert(list[a].key() == list[c].key());
            assert(list[b] == front[b]);
        }
    }
    if j < kept.len() {
        lemma_runs_dedup(front, i, j);
    } else {
        let key = kept[i].key();
        law_dedup_keeps_keys(front, key);
        assert(key_at(kept, i, key));
        assert(has_key(kept, key));
        let a = choose|a: int| key_at(front, a, key);
        if key == list.last().key() {
            assert(list[a].key() == list[list.len() - 1].key());
            assert(list[list.len() - 2].key() == list[a].key());
        }
    }
}

/// What a writer holds after a list of edges is put.
pub open spec fn after_puts(reversed: bool, puts: Seq<InnerEdge<String>>) -> WriterView
    decreases puts.len(),
{
    if puts.len() == 0 {
        WriterView { reversed, edges: Map::empty(), stored: 0 }
    } else {
        after_puts(reversed, puts.drop_last()).put(puts.last())
    }
}

/// The edges of all batches that are handed out while a list of edges is put.
pub open spec fn handed_out_by(reversed: bool, puts: Seq<InnerEdge<String>>) -> Seq<
    SortableEdge<String>,
>
    decreases puts.len(),
{
    if puts.len() == 0 {
        Seq::empty()
    } else {
        let earlier = handed_out_by(reversed, puts.drop_last());
        let writer = after_puts(reversed, puts.drop_last()).added(puts.last());
        if writer.full() {
            earlier + sorted_list(writer.edges)
        } else {
            earlier
        }
    }
}

/// The edge at `j` of those that were put is the given one, with the given key.
pub open spec fn put_at(
    puts: Seq<InnerEdge<String>>,
    reversed: bool,
    j: int,
    key: EdgeKey,
    edge: InnerEdge<String>,
) -> bool {
    0 <= j < puts.len() && puts[j] == edge && key_of(edge, reversed) == key
}

/// The edge was put, with the given key.
pub open spec fn was_put(
    puts: Seq<InnerEdge<String>>,
    reversed: bool,
    key: EdgeKey,
    edge: InnerEdge<String>,
) -> bool {
    exists|j: int| put_at(puts, reversed, j, key, edge)
}

/// An edge with the given key was put.
pub open spec fn key_was_put(
    puts: Seq<InnerEdge<String>>,
    reversed: bool,
    key: EdgeKey,
) -> bool {
    exists|j: int| 0 <= j < puts.len() && key_of(#[trigger] puts[j], reversed) == key
}

/// What was put stays put when more is.
proof fn lemma_was_put_before(
    puts: Seq<InnerEdge<String>>,
    reversed: bool,
    key: EdgeKey,
    edge: InnerEdge<String>,
)
    requires
        puts.len() > 0,
        was_put(puts.drop_last(), reversed, key, edge),
    ensures
        was_put(puts, reversed, key, edge),
{
    let j = choose|j: int| put_at(puts.drop_last(), reversed, j, key, edge);
    assert(put_at(puts, reversed, j, key, edge));
}

/// What is in memory and what was handed out was put, and the keys of all that was put are in
/// memory or were handed out.
pub proof fn lemma_puts_are_kept(reversed: bool, puts: Seq<InnerEdge<String>>)
    ensures
        ({
            let writer = after_puts(reversed, puts);
            let handed = handed_out_by(reversed, puts);
            &&& writer.reversed == reversed
            &&& writer.edges.dom().finite()
            &&& forall|key: EdgeKey| #[trigger]
                writer.edges.contains_key(key) ==> was_put(puts, reversed, key, writer.edges[key])
            &&& forall|i: int|
                0 <= i < handed.len() ==> was_put(
                    puts,
                    reversed,
                    (#[trigger] handed[i]).key(),
                    handed[i].edge,
                )
            &&& forall|j: int|
                0 <= j < puts.len() ==> writer.edges.contains_key(
                    key_of(#[trigger] puts[j], reversed),
                ) || has_key(handed, key_of(puts[j], reversed))
        }),
    decreases puts.len(),
{
    if puts.len() > 0 {
        let front = puts.drop_last();
        let last = puts.last();
        let end = puts.len() - 1;
        lemma_puts_are_kept(reversed, front);
        let before = after_puts(reversed, front);
        let earlier = handed_out_by(reversed, front);
        let writer = before.added(last);
        let handed = handed_out_by(reversed, puts);
        assert(writer.edges.dom().finite()) by {
            assert(before.edges.insert(key_of(last, reversed), last).dom()
                =~= before.edges.dom().insert(key_of(last, reversed)));
        }
        assert(writer.edges.contains_key(key_of(last, reversed)));
        assert forall|key: EdgeKey| #[trigger] writer.edges.contains_key(key) implies was_put(
            puts,
            reversed,
            key,
            writer.edges[key],
        ) by {
            if before.edges.contains_key(key) {
                lemma_was_put_before(puts, reversed, key, before.edges[key]);
            } else {
                assert(put_at(puts, reversed, end, key, last));
            }
        }
        law_edges_can_be_listed(writer.edges);
        let listed = sorted_list(writer.edges);
        assert forall|i: int| 0 <= i < handed.len() implies was_put(
            puts,
            reversed,
            (#[trigger] handed[i]).key(),
            handed[i].edge,
        ) by {
            if i < earlier.len() {
                assert(handed[i] == earlier[i]);
                lemma_was_put_before(puts, reversed, earlier[i].key(), earlier[i].edge);
            } else {
                assert(handed[i] == listed[i - earlier.len()]);
                assert(writer.edges.contains_key(listed[i - earlier.len()].key()));
            }
        }
        let after = after_puts(reversed, puts);
        assert forall|j: int| 0 <= j < puts.len() implies after.edges.contains_key(
            key_of(#[trigger] puts[j], reversed),
        ) || has_key(handed, key_of(puts[j], reversed)) by {
            let key = key_of(puts[j], reversed);
            if j < end {
                assert(front[j] == puts[j]);
            }
            if has_key(earlier, key) {
                let i = choose|i: int| key_at(earlier, i, key);
                assert(key_at(handed, i, key));
            } else {
                assert(writer.edges.contains_key(key));
                if writer.full() {
                    let i = choose|i: int| key_at(listed, i, key);
                    assert(key_at(handed, earlier.len() + i, key));
                }
            }
        }
    }
}

/// Every edge of a merged list is one of either list.
proof fn lemma_merged_is_part<L>(
    mem: Seq<SortableEdge<L>>,
    file: Seq<SortableEdge<L>>,
    edge: SortableEdge<L>,
)
    requires
        merged(mem, file).contains(edge),
    ensures
        mem.contains(edge) || file.contains(edge),
{
    broadcast use vstd::multiset::group_multiset_axioms;

    law_merge_keeps_edges(mem, file);
    vstd::seq_lib::to_multiset_contains(merged(mem, file), edge);
    vstd::seq_lib::to_multiset_contains(mem, edge);
    vstd::seq_lib::to_multiset_contains(file, edge);
}

/// Every edge that is not left out is one of the list.
proof fn lemma_deduped_is_part<L>(list: Seq<SortableEdge<L>>, i: int)
    requires
        0 <= i < deduped(list).len(),
    ensures
        list.contains(deduped(list)[i]),
    decreases list.len(),
{
    if list.len() > 0 {
        let front = list.drop_last();
        if i < deduped(front).len() {
            lemma_deduped_is_part(front, i);
            let k = front.index_of(deduped(front)[i]);
            assert(list[k] == deduped(list)[i]);
        } else {
            assert(list[list.len() - 1] == deduped(list)[i]);
        }
    }
}

/// What comes out in the end is what was put: if the stored edges are those that were handed out
/// and stand in the order of their nodes, then the keys that come out are those of the edges that
/// were put, every edge that comes out was put, and the edges stand in the order of their nodes.
pub proof fn law_output_is_what_was_put(
    reversed: bool,
    puts: Seq<InnerEdge<String>>,
    file: Seq<SortableEdge<String>>,
)
    requires
        file.to_multiset() == handed_out_by(reversed, puts).to_multiset(),
        node_sorted(file),
    ensures
        ({
            let output = deduped(merged(sorted_list(after_puts(reversed, puts).edges), file));
            &&& forall|key: EdgeKey| #[trigger]
                has_key(output, key) <==> key_was_put(puts, reversed, key)
            &&& forall|i: int|
                0 <= i < output.len() ==> was_put(
                    puts,
                    reversed,
                    (#[trigger] output[i]).key(),
                    output[i].edge,
                )
            &&& node_sorted(output)
        }),
{
    let edges = after_puts(reversed, puts).edges;
    let handed = handed_out_by(reversed, puts);
    let mem = sorted_list(edges);
    let list = merged(mem, file);
    let output = deduped(list);
    lemma_puts_are_kept(reversed, puts);
    law_edges_can_be_listed(edges);
    law_output(edges, file);
    assert forall|edge: SortableEdge<String>| #[trigger]
        file.contains(edge) <==> handed.contains(edge) by {
        vstd::seq_lib::to_multiset_contains(file, edge);
        vstd::seq_lib::to_multiset_contains(handed, edge);
    }
    assert forall|i: int| 0 <= i < output.len() implies was_put(
        puts,
        reversed,
        (#[trigger] output[i]).key(),
        output[i].edge,
    ) by {
        lemma_deduped_is_part(list, i);
        lemma_merged_is_part(mem, file, output[i]);
        if mem.contains(output[i]) {
            let k = mem.index_of(output[i]);
            assert(edges.contains_key(mem[k].key()));
        } else {
            let k = handed.index_of(output[i]);
            assert(was_put(puts, reversed, handed[k].key(), handed[k].edge));
        }
    }
    assert forall|key: EdgeKey| #[trigger] has_key(output, key) <==> key_was_put(
        puts,
        reversed,
        key,
    ) by {
        if has_key(output, key) {
            let i = choose|i: int| key_at(output, i, key);
            assert(was_put(puts, reversed, output[i].key(), output[i].edge));
            let j = choose|j: int| put_at(puts, reversed, j, key, output[i].edge);
            assert(key_of(puts[j], reversed) == key);
        }
        if key_was_put(puts, reversed, key) {
            let j = choose|j: int|
                0 <= j < puts.len() && key_of(#[trigger] puts[j], reversed) == key;
            if !edges.contains_key(key) {
                let i = choose|i: int| key_at(handed, i, key);
                assert(handed.contains(handed[i]));
                assert(file.contains(handed[i]));
                let k = file.index_of(handed[i]);
                assert(key_at(file, k, key));
            }
        }
    }
}

/// The name of a batch is its number in decimal digits, without leading zeros, and an ending: the
/// digits, read one after the other, give the number.
pub proof fn law_batch_name_reads_as_its_number(number: nat) -> (digits: Seq<char>)
    ensures
        store_name(number) == digits + ".store"@,
        digits.len() > 0,
        digits[0] == '0' ==> digits.len() == 1,
        forall|i: int| 0 <= i < digits.len() ==> '0' <= #[trigger] digits[i] <= '9',
        digits.fold_left(0int, |value: int, c: char| 10 * value + (c as int - '0' as int))
            == number,
{
    lemma_digits(number);
    decimal(number)
}

/// The first digit of a number is zero only if it is the only one.
proof fn lemma_digits(number: nat)
    ensures
        decimal(number).len() > 0,
        decimal(number)[0] == '0' <==> number == 0,
        number == 0 ==> decimal(number).len() == 1,
        forall|i: int|
            0 <= i < decimal(number).len() ==> '0' <= #[trigger] decimal(number)[i] <= '9',
        decimal(number).fold_left(
            0int,
            |value: int, c: char| 10 * value + (c as int - '0' as int),
        ) == number,
    decreases number,
{
    let read = |value: int, c: char| 10 * value + (c as int - '0' as int);
    reveal_with_fuel(Seq::fold_left, 2);
    if number < 10 {
        assert(decimal(number).drop_last() =~= Seq::empty());
    } else {
        lemma_digits(number / 10);
        let front = decimal(number / 10);
        assert(decimal(number).drop_last() =~= front);
        assert(decimal(number)[0] == front[0]);
        assert(decimal(number).fold_left(0int, read) == read(
            front.fold_left(0int, read),
            digit(number % 10),
        ));
    }
}

/// Two batches have two names.
pub proof fn law_batch_names_differ(a: nat, b: nat)
    requires
        a != b,
    ensures
        store_name(a) != store_name(b),
{
    lemma_digits(a);
    lemma_digits(b);
    if store_name(a) == store_name(b) {
        let ending = ".store"@;
        assert(store_name(a).len() - ending.len() == decimal(a).len());
        assert(store_name(a).take(decimal(a).len() as int) =~= decimal(a));
        assert(store_name(b).take(decimal(b).len() as int) =~= decimal(b));
    }
}

} // verus!
