//! What becomes of the edges that are put, told by their nodes.

use crate::store_laws::{
    after_puts, handed_out_by, key_was_put, law_dedup_leaves_no_repetition, law_edges_can_be_listed,
    law_output_is_what_was_put, law_output_without_files, lemma_puts_are_kept, put_at, was_put,
};
use crate::store_writer::{
    deduped, has_key, is_batch_of, key_at, key_before, key_of, merged, node_sorted, plain_edges,
    sorted_list, store_name, InnerEdge, SortableEdge, StoredBatch, WriterView,
};
use std::cmp::Ordering;
use vstd::prelude::*;
use vstd::std_specs::cmp::{PartialEqSpec, PartialOrdSpec};

verus! {

/// Every edge comes out: for each edge that is put, an edge that leaves the same node and leads
/// to the same node comes out, so two edges that differ in a node are both kept. The stored edges
/// are those that were handed out, in the order of their nodes.
pub proof fn law_every_edge_comes_out(
    reversed: bool,
    puts: Seq<InnerEdge<String>>,
    file: Seq<SortableEdge<String>>,
    output: Seq<InnerEdge<String>>,
    j: int,
) -> (i: int)
    requires
        file.to_multiset() == handed_out_by(reversed, puts).to_multiset(),
        forall|k: int, l: int|
            0 <= k <= l < file.len() ==> (#[trigger] file[k]).sort_node.0 <= (
            #[trigger] file[l]).sort_node.0,
        output == plain_edges(
            deduped(merged(sorted_list(after_puts(reversed, puts).edges), file)),
        ),
        0 <= j < puts.len(),
    ensures
        0 <= i < output.len(),
        output[i].from.id == puts[j].from.id,
        output[i].to.id == puts[j].to.id,
{
    law_output_is_what_was_put(reversed, puts, file);
    let sorted = deduped(merged(sorted_list(after_puts(reversed, puts).edges), file));
    let key = key_of(puts[j], reversed);
    assert(key_was_put(puts, reversed, key));
    assert(has_key(sorted, key));
    let i = choose|i: int| key_at(sorted, i, key);
    let at = lemma_output_was_put(reversed, puts, file, output, i);
    i
}

proof fn lemma_output_was_put(
    reversed: bool,
    puts: Seq<InnerEdge<String>>,
    file: Seq<SortableEdge<String>>,
    output: Seq<InnerEdge<String>>,
    i: int,
) -> (j: int)
    requires
        file.to_multiset() == handed_out_by(reversed, puts).to_multiset(),
        node_sorted(file),
        output == plain_edges(
            deduped(merged(sorted_list(after_puts(reversed, puts).edges), file)),
        ),
        0 <= i < output.len(),
    ensures
        0 <= j < puts.len(),
        puts[j] == output[i],
        ({
            let sorted = deduped(merged(sorted_list(after_puts(reversed, puts).edges), file));
            &&& sorted.len() == output.len()
            &&& sorted[i].edge == output[i]
            &&& sorted[i].key() == (if reversed {
                (output[i].to.id.0, output[i].from.id.0)
            } else {
                (output[i].from.id.0, output[i].to.id.0)
            })
        }),
{
    law_output_is_what_was_put(reversed, puts, file);
    let sorted = deduped(merged(sorted_list(after_puts(reversed, puts).edges), file));
    assert(was_put(puts, reversed, sorted[i].key(), sorted[i].edge));
    choose|j: int| put_at(puts, reversed, j, sorted[i].key(), sorted[i].edge)
}

/// Only edges that were put come out. They come out in the order of the nodes that they leave, or
/// of those that they lead to if they are reversed, and no two neighbours have the same two
/// nodes. The stored edges are those that were handed out, in the order of their nodes.
pub proof fn law_only_put_edges_come_out(
    reversed: bool,
    puts: Seq<InnerEdge<String>>,
    file: Seq<SortableEdge<String>>,
    output: Seq<InnerEdge<String>>,
)
    requires
        file.to_multiset() == handed_out_by(reversed, puts).to_multiset(),
        forall|i: int, j: int|
            0 <= i <= j < file.len() ==> (#[trigger] file[i]).sort_node.0 <= (
            #[trigger] file[j]).sort_node.0,
        output == plain_edges(
            deduped(merged(sorted_list(after_puts(reversed, puts).edges), file)),
        ),
    ensures
        forall|i: int| 0 <= i < output.len() ==> puts.contains(#[trigger] output[i]),
        forall|i: int, j: int|
            0 <= i < j < output.len() ==> if reversed {
                (#[trigger] output[i]).to.id.0 <= (#[trigger] output[j]).to.id.0
            } else {
                output[i].from.id.0 <= output[j].from.id.0
            },
        forall|i: int, j: int|
            0 <= i && j == i + 1 && j < output.len() ==> (#[trigger] output[i]).from.id != (
            #[trigger] output[j]).from.id || output[i].to.id != output[j].to.id,
{
    law_output_is_what_was_put(reversed, puts, file);
    let all = merged(sorted_list(after_puts(reversed, puts).edges), file);
    let sorted = deduped(all);
    law_dedup_leaves_no_repetition(all);
    assert forall|i: int| 0 <= i < output.len() implies puts.contains(#[trigger] output[i]) by {
        let j = lemma_output_was_put(reversed, puts, file, output, i);
        assert(puts[j] == output[i]);
    }
    assert forall|i: int, j: int| 0 <= i < j < output.len() implies if reversed {
        (#[trigger] output[i]).to.id.0 <= (#[trigger] output[j]).to.id.0
    } else {
        output[i].from.id.0 <= output[j].from.id.0
    } by {
        let a = lemma_output_was_put(reversed, puts, file, output, i);
        let b = lemma_output_was_put(reversed, puts, file, output, j);
        assert(sorted[i].sort_node.0 <= sorted[j].sort_node.0);
    }
    assert forall|i: int, j: int| 0 <= i && j == i + 1 && j < output.len() implies (
    #[trigger] output[i]).from.id != (#[trigger] output[j]).from.id || output[i].to.id
        != output[j].to.id by {
        let a = lemma_output_was_put(reversed, puts, file, output, i);
        let b = lemma_output_was_put(reversed, puts, file, output, j);
        assert(sorted[i].key() != sorted[j].key());
    }
}

/// Without stored edges, the edges come out in strictly rising order of their nodes: first of
/// the node that they leave and then of the node that they lead to, or the other way round if
/// they are reversed.
pub proof fn law_output_rises_in_both_nodes(
    reversed: bool,
    puts: Seq<InnerEdge<String>>,
    output: Seq<InnerEdge<String>>,
)
    requires
        output == plain_edges(
            deduped(merged(sorted_list(after_puts(reversed, puts).edges), Seq::empty())),
        ),
    ensures
        forall|i: int, j: int|
            0 <= i < j < output.len() ==> if reversed {
                (#[trigger] output[i]).to.id.0 < (#[trigger] output[j]).to.id.0 || (
                output[i].to.id.0 == output[j].to.id.0 && output[i].from.id.0
                    < output[j].from.id.0)
            } else {
                output[i].from.id.0 < output[j].from.id.0 || (output[i].from.id.0
                    == output[j].from.id.0 && output[i].to.id.0 < output[j].to.id.0)
            },
{
    let edges = after_puts(reversed, puts).edges;
    lemma_puts_are_kept(reversed, puts);
    law_edges_can_be_listed(edges);
    law_output_without_files(edges);
    let sorted = sorted_list(edges);
    assert forall|i: int| 0 <= i < sorted.len() implies sorted[i].edge == #[trigger] output[i]
        && sorted[i].key() == (if reversed {
        (output[i].to.id.0, output[i].from.id.0)
    } else {
        (output[i].from.id.0, output[i].to.id.0)
    }) by {
        assert(edges.contains_key(sorted[i].key()));
        assert(was_put(puts, reversed, sorted[i].key(), edges[sorted[i].key()]));
        let j = choose|j: int| put_at(puts, reversed, j, sorted[i].key(), sorted[i].edge);
        assert(put_at(puts, reversed, j, sorted[i].key(), sorted[i].edge));
    }
    assert forall|i: int, j: int| 0 <= i < j < output.len() implies if reversed {
        (#[trigger] output[i]).to.id.0 < (#[trigger] output[j]).to.id.0 || (output[i].to.id.0
            == output[j].to.id.0 && output[i].from.id.0 < output[j].from.id.0)
    } else {
        output[i].from.id.0 < output[j].from.id.0 || (output[i].from.id.0 == output[j].from.id.0
            && output[i].to.id.0 < output[j].to.id.0)
    } by {
        assert(key_before(sorted[i].key(), sorted[j].key()));
    }
}

/// Of several edges between the same two nodes the first one that is put comes out, as long as
/// fewer than three million edges are put. Nothing is handed out to be stored before there are
/// that many, and every edge that is put comes out, or the first one with its nodes does.
pub proof fn law_first_edge_comes_out(
    reversed: bool,
    puts: Seq<InnerEdge<String>>,
    output: Seq<InnerEdge<String>>,
)
    requires
        puts.len() < 3_000_000,
        output == plain_edges(
            deduped(merged(sorted_list(after_puts(reversed, puts).edges), Seq::empty())),
        ),
    ensures
        after_puts(reversed, puts).stored == 0,
        handed_out_by(reversed, puts).len() == 0,
        forall|j: int|
            0 <= j < puts.len() && (forall|k: int|
                0 <= k < j ==> (#[trigger] puts[k]).from.id != puts[j].from.id || puts[k].to.id
                    != puts[j].to.id) ==> output.contains(#[trigger] puts[j]),
        forall|i: int|
            0 <= i < output.len() ==> exists|j: int|
                {
                    &&& 0 <= j < puts.len()
                    &&& #[trigger] puts[j] == #[trigger] output[i]
                    &&& forall|k: int|
                        0 <= k < j ==> (#[trigger] puts[k]).from.id != puts[j].from.id
                            || puts[k].to.id != puts[j].to.id
                },
{
    let edges = after_puts(reversed, puts).edges;
    lemma_puts_are_kept(reversed, puts);
    law_edges_can_be_listed(edges);
    law_output_without_files(edges);
    lemma_few_puts(reversed, puts);
    let sorted = sorted_list(edges);
    assert forall|j: int|
        0 <= j < puts.len() && (forall|k: int|
            0 <= k < j ==> (#[trigger] puts[k]).from.id != puts[j].from.id || puts[k].to.id
                != puts[j].to.id) implies output.contains(#[trigger] puts[j]) by {
        let key = key_of(puts[j], reversed);
        assert(edges.contains_key(key));
        let first = choose|first: int| is_first_put(puts, reversed, first, key);
        assert(is_first_put(puts, reversed, first, key));
        if first < j {
            assert(puts[first].from.id != puts[j].from.id || puts[first].to.id != puts[j].to.id);
        }
        assert(first == j);
        assert(has_key(sorted, key));
        let i = choose|i: int| key_at(sorted, i, key);
        assert(edges[sorted[i].key()] == sorted[i].edge);
        assert(output[i] == puts[j]);
    }
    assert forall|i: int| 0 <= i < output.len() implies exists|j: int|
        {
            &&& 0 <= j < puts.len()
            &&& #[trigger] puts[j] == #[trigger] output[i]
            &&& forall|k: int|
                0 <= k < j ==> (#[trigger] puts[k]).from.id != puts[j].from.id || puts[k].to.id
                    != puts[j].to.id
        } by {
        let key = sorted[i].key();
        assert(edges.contains_key(key) && edges[key] == sorted[i].edge);
        let j = choose|j: int| is_first_put(puts, reversed, j, key);
        assert(is_first_put(puts, reversed, j, key));
        assert(puts[j] == output[i]);
        assert forall|k: int| 0 <= k < j implies (#[trigger] puts[k]).from.id != puts[j].from.id
            || puts[k].to.id != puts[j].to.id by {
            assert(key_of(puts[k], reversed) != key);
        }
    }
}

/// The edge at `j` is the first one that is put with the given key.
spec fn is_first_put(
    puts: Seq<InnerEdge<String>>,
    reversed: bool,
    j: int,
    key: (u128, u128),
) -> bool {
    &&& 0 <= j < puts.len()
    &&& key_of(puts[j], reversed) == key
    &&& forall|k: int| 0 <= k < j ==> key_of(#[trigger] puts[k], reversed) != key
}

/// Few edges stay in memory, each key with the first edge that was put with it.
proof fn lemma_few_puts(reversed: bool, puts: Seq<InnerEdge<String>>)
    requires
        puts.len() < 3_000_000,
    ensures
        after_puts(reversed, puts).reversed == reversed,
        after_puts(reversed, puts).stored == 0,
        handed_out_by(reversed, puts).len() == 0,
        after_puts(reversed, puts).edges.dom().finite(),
        after_puts(reversed, puts).edges.len() <= puts.len(),
        forall|j: int|
            0 <= j < puts.len() ==> after_puts(reversed, puts).edges.contains_key(
                key_of(#[trigger] puts[j], reversed),
            ),
        forall|key: (u128, u128)| #[trigger]
            after_puts(reversed, puts).edges.contains_key(key) ==> exists|j: int|
                is_first_put(puts, reversed, j, key) && puts[j] == after_puts(
                    reversed,
                    puts,
                ).edges[key],
    decreases puts.len(),
{
    if puts.len() > 0 {
        let front = puts.drop_last();
        let last = puts.last();
        lemma_few_puts(reversed, front);
        let before = after_puts(reversed, front);
        let key = key_of(last, reversed);
        let writer = before.added(last);
        assert(before.edges.insert(key, last).dom() =~= before.edges.dom().insert(key));
        assert(writer.edges.len() <= puts.len());
        assert(!writer.full());
        assert(after_puts(reversed, puts) == writer);
        assert forall|j: int| 0 <= j < puts.len() implies writer.edges.contains_key(
            key_of(#[trigger] puts[j], reversed),
        ) by {
            if j < front.len() {
                assert(front[j] == puts[j]);
            }
        }
        assert forall|k: (u128, u128)| #[trigger] writer.edges.contains_key(k) implies exists|
            j: int,
        | is_first_put(puts, reversed, j, k) && puts[j] == writer.edges[k] by {
            if before.edges.contains_key(k) {
                let j = choose|j: int|
                    is_first_put(front, reversed, j, k) && front[j] == before.edges[k];
                assert forall|i: int| 0 <= i < j implies key_of(#[trigger] puts[i], reversed)
                    != k by {
                    assert(front[i] == puts[i]);
                }
                assert(is_first_put(puts, reversed, j, k));
            } else {
                assert forall|i: int| 0 <= i < front.len() implies key_of(
                    #[trigger] puts[i],
                    reversed,
                ) != k by {
                    assert(front[i] == puts[i]);
                }
                assert(is_first_put(puts, reversed, puts.len() - 1, k));
            }
        }
    }
}

/// Leaving out repetitions: an edge stays exactly if it is the first of the list or differs in
/// one of its nodes from the edge before it, and the edges that stay keep their order.
pub proof fn law_repetitions_are_left_out<L>(list: Seq<SortableEdge<L>>) -> (places: Seq<int>)
    ensures
        places.len() == deduped(list).len(),
        forall|i: int, j: int|
            0 <= i < j < places.len() ==> #[trigger] places[i] < #[trigger] places[j],
        forall|i: int|
            0 <= i < places.len() ==> 0 <= #[trigger] places[i] < list.len() && deduped(list)[i]
                == list[places[i]],
        list.len() > 0 ==> places.contains(0),
        forall|j: int, k: int|
            0 <= j && k == j + 1 && k < list.len() ==> (places.contains(k) <==> (
            #[trigger] list[k]).sort_node != (#[trigger] list[j]).sort_node
                || list[k].secondary_node != list[j].secondary_node),
    decreases list.len(),
{
    if list.len() == 0 {
        Seq::empty()
    } else {
        let front = list.drop_last();
        let last = list.len() - 1;
        let fewer = law_repetitions_are_left_out(front);
        let repeated = last > 0 && list[last].sort_node == list[last - 1].sort_node
            && list[last].secondary_node == list[last - 1].secondary_node;
        let places = if repeated {
            fewer
        } else {
            fewer.push(last)
        };
        assert(repeated <==> last > 0 && list[last - 1].key() == list[last].key());
        assert forall|k: int| 0 <= k < last implies #[trigger] places.contains(k)
            == fewer.contains(k) by {
            if fewer.contains(k) {
                let i = fewer.index_of(k);
                assert(places[i] == k);
            }
            if places.contains(k) {
                let i = places.index_of(k);
                assert(fewer[i] == k);
            }
        }
        assert(places.contains(last) == !repeated) by {
            if repeated {
                if fewer.contains(last) {
                    let i = fewer.index_of(last);
                    assert(fewer[i] < front.len());
                }
            } else {
                assert(places[fewer.len() as int] == last);
            }
        }
        assert forall|j: int, k: int| 0 <= j && k == j + 1 && k < list.len() implies (
        places.contains(k) <==> (#[trigger] list[k]).sort_node != (#[trigger] list[j]).sort_node
            || list[k].secondary_node != list[j].secondary_node) by {
            if k < last {
                assert(front[k] == list[k]);
                assert(front[j] == list[j]);
            }
        }
        assert(places.contains(0)) by {
            if last > 0 {
                assert(fewer.contains(0));
            }
        }
        places
    }
}

/// Merging lists that stand in the order of their nodes: the edges of each list keep their order,
/// and an edge in memory comes before a stored one exactly if its node is lower.
pub proof fn law_merge_order<L>(mem: Seq<SortableEdge<L>>, file: Seq<SortableEdge<L>>) -> (places: (
    Seq<int>,
    Seq<int>,
))
    requires
        forall|i: int, j: int|
            0 <= i <= j < mem.len() ==> (#[trigger] mem[i]).sort_node.0 <= (
            #[trigger] mem[j]).sort_node.0,
        forall|i: int, j: int|
            0 <= i <= j < file.len() ==> (#[trigger] file[i]).sort_node.0 <= (
            #[trigger] file[j]).sort_node.0,
    ensures
        merged(mem, file).len() == mem.len() + file.len(),
        places.0.len() == mem.len(),
        places.1.len() == file.len(),
        forall|i: int|
            0 <= i < mem.len() ==> 0 <= #[trigger] places.0[i] < merged(mem, file).len() && merged(
                mem,
                file,
            )[places.0[i]] == mem[i],
        forall|j: int|
            0 <= j < file.len() ==> 0 <= #[trigger] places.1[j] < merged(mem, file).len() && merged(
                mem,
                file,
            )[places.1[j]] == file[j],
        forall|i: int, j: int|
            0 <= i < j < mem.len() ==> #[trigger] places.0[i] < #[trigger] places.0[j],
        forall|i: int, j: int|
            0 <= i < j < file.len() ==> #[trigger] places.1[i] < #[trigger] places.1[j],
        forall|i: int, j: int|
            0 <= i < mem.len() && 0 <= j < file.len() ==> {
                &&& #[trigger] places.0[i] != #[trigger] places.1[j]
                &&& places.0[i] < places.1[j] <==> mem[i].sort_node.0 < file[j].sort_node.0
            },
    decreases mem.len() + file.len(),
{
    if mem.len() == 0 || file.len() == 0 {
        (Seq::new(mem.len(), |i: int| i), Seq::new(file.len(), |i: int| i))
    } else if mem[0].sort_node.0 < file[0].sort_node.0 {
        let rest = mem.drop_first();
        assert forall|i: int, j: int| 0 <= i <= j < rest.len() implies (
        #[trigger] rest[i]).sort_node.0 <= (#[trigger] rest[j]).sort_node.0 by {
            assert(mem[i + 1].sort_node.0 <= mem[j + 1].sort_node.0);
        }
        let later = law_merge_order(rest, file);
        let a = Seq::new(mem.len(), |i: int| if i == 0 { 0 } else { later.0[i - 1] + 1 });
        let b = Seq::new(file.len(), |j: int| later.1[j] + 1);
        assert forall|i: int, j: int| 0 <= i < mem.len() && 0 <= j < file.len() implies {
            &&& #[trigger] a[i] != #[trigger] b[j]
            &&& a[i] < b[j] <==> mem[i].sort_node.0 < file[j].sort_node.0
        } by {
            assert(file[0].sort_node.0 <= file[j].sort_node.0);
            assert(0 <= later.1[j]);
            if i > 0 {
                assert(rest[i - 1] == mem[i]);
                assert(later.0[i - 1] != later.1[j]);
            }
        }
        assert forall|i: int| 0 <= i < mem.len() implies 0 <= #[trigger] a[i] < merged(
            mem,
            file,
        ).len() && merged(mem, file)[a[i]] == mem[i] by {
            if i > 0 {
                assert(rest[i - 1] == mem[i]);
                assert(0 <= later.0[i - 1]);
            }
        }
        assert forall|j: int| 0 <= j < file.len() implies 0 <= #[trigger] b[j] < merged(
            mem,
            file,
        ).len() && merged(mem, file)[b[j]] == file[j] by {
            assert(0 <= later.1[j]);
        }
        assert forall|i: int, j: int| 0 <= i < j < mem.len() implies #[trigger] a[i]
            < #[trigger] a[j] by {
            assert(0 <= later.0[j - 1]);
            if i > 0 {
                assert(later.0[i - 1] < later.0[j - 1]);
            }
        }
        assert forall|i: int, j: int| 0 <= i < j < file.len() implies #[trigger] b[i]
            < #[trigger] b[j] by {
            assert(later.1[i] < later.1[j]);
        }
        (a, b)
    } else {
        let rest = file.drop_first();
        assert forall|i: int, j: int| 0 <= i <= j < rest.len() implies (
        #[trigger] rest[i]).sort_node.0 <= (#[trigger] rest[j]).sort_node.0 by {
            assert(file[i + 1].sort_node.0 <= file[j + 1].sort_node.0);
        }
        let later = law_merge_order(mem, rest);
        let a = Seq::new(mem.len(), |i: int| later.0[i] + 1);
        let b = Seq::new(file.len(), |j: int| if j == 0 { 0 } else { later.1[j - 1] + 1 });
        assert forall|i: int, j: int| 0 <= i < mem.len() && 0 <= j < file.len() implies {
            &&& #[trigger] a[i] != #[trigger] b[j]
            &&& a[i] < b[j] <==> mem[i].sort_node.0 < file[j].sort_node.0
        } by {
            assert(mem[0].sort_node.0 <= mem[i].sort_node.0);
            assert(0 <= later.0[i]);
            if j > 0 {
                assert(rest[j - 1] == file[j]);
                assert(later.0[i] != later.1[j - 1]);
            }
        }
        assert forall|j: int| 0 <= j < file.len() implies 0 <= #[trigger] b[j] < merged(
            mem,
            file,
        ).len() && merged(mem, file)[b[j]] == file[j] by {
            if j > 0 {
                assert(rest[j - 1] == file[j]);
                assert(0 <= later.1[j - 1]);
            }
        }
        assert forall|i: int| 0 <= i < mem.len() implies 0 <= #[trigger] a[i] < merged(
            mem,
            file,
        ).len() && merged(mem, file)[a[i]] == mem[i] by {
            assert(0 <= later.0[i]);
        }
        assert forall|i: int, j: int| 0 <= i < j < file.len() implies #[trigger] b[i]
            < #[trigger] b[j] by {
            assert(0 <= later.1[j - 1]);
            if i > 0 {
                assert(later.1[i - 1] < later.1[j - 1]);
            }
        }
        assert forall|i: int, j: int| 0 <= i < j < mem.len() implies #[trigger] a[i]
            < #[trigger] a[j] by {
            assert(later.0[i] < later.0[j]);
        }
        (a, b)
    }
}

/// Two edges are equal if both of their nodes are. Otherwise they are ordered by the node that
/// they are sorted by and, where that is the same, by their other node.
pub proof fn law_edges_compare_by_their_nodes<L>(a: SortableEdge<L>, b: SortableEdge<L>)
    ensures
        a.eq_spec(&b) <==> a.sort_node.0 == b.sort_node.0 && a.secondary_node.0
            == b.secondary_node.0,
        a.partial_cmp_spec(&b) == Some(Ordering::Less) <==> a.sort_node.0 < b.sort_node.0 || (
        a.sort_node.0 == b.sort_node.0 && a.secondary_node.0 < b.secondary_node.0),
        a.partial_cmp_spec(&b) == Some(Ordering::Greater) <==> a.sort_node.0 > b.sort_node.0 || (
        a.sort_node.0 == b.sort_node.0 && a.secondary_node.0 > b.secondary_node.0),
        a.partial_cmp_spec(&b) == Some(Ordering::Equal) <==> a.sort_node.0 == b.sort_node.0
            && a.secondary_node.0 == b.secondary_node.0,
{
}

/// Every edge of a batch stands with its own nodes, and the batch rises in them. It is named by
/// the number of batches before it.
pub proof fn law_batch_rises_in_both_nodes(
    reversed: bool,
    puts: Seq<InnerEdge<String>>,
    last: InnerEdge<String>,
    batch: StoredBatch,
)
    requires
        is_batch_of(batch, after_puts(reversed, puts).added(last)),
    ensures
        batch.file_name@ == store_name(after_puts(reversed, puts).stored),
        forall|i: int|
            0 <= i < batch.edges@.len() ==> if reversed {
                (#[trigger] batch.edges@[i]).sort_node == batch.edges@[i].edge.to.id
                    && batch.edges@[i].secondary_node == batch.edges@[i].edge.from.id
            } else {
                batch.edges@[i].sort_node == batch.edges@[i].edge.from.id
                    && batch.edges@[i].secondary_node == batch.edges@[i].edge.to.id
            },
        forall|i: int, j: int|
            0 <= i < j < batch.edges@.len() ==> (#[trigger] batch.edges@[i]).sort_node.0 < (
            #[trigger] batch.edges@[j]).sort_node.0 || (batch.edges@[i].sort_node.0
                == batch.edges@[j].sort_node.0 && batch.edges@[i].secondary_node.0
                < batch.edges@[j].secondary_node.0),
        forall|i: int|
            0 <= i < batch.edges@.len() ==> puts.push(last).contains(
                (#[trigger] batch.edges@[i]).edge,
            ),
{
    let writer = after_puts(reversed, puts).added(last);
    let list = batch.edges@;
    lemma_puts_are_kept(reversed, puts);
    assert forall|i: int| 0 <= i < list.len() implies key_of((#[trigger] list[i]).edge, reversed)
        == list[i].key() && puts.push(last).contains(list[i].edge) by {
        let key = list[i].key();
        assert(writer.edges.contains_key(key));
        if after_puts(reversed, puts).edges.contains_key(key) {
            assert(was_put(puts, reversed, key, list[i].edge));
            let j = choose|j: int| put_at(puts, reversed, j, key, list[i].edge);
            assert(puts.push(last)[j] == list[i].edge);
        } else {
            assert(puts.push(last)[puts.len() as int] == list[i].edge);
        }
    }
    assert forall|i: int, j: int| 0 <= i < j < list.len() implies (#[trigger] list[i]).sort_node.0
        < (#[trigger] list[j]).sort_node.0 || (list[i].sort_node.0 == list[j].sort_node.0
        && list[i].secondary_node.0 < list[j].secondary_node.0) by {
        assert(key_before(list[i].key(), list[j].key()));
    }
}

/// Edges are handed out to be stored as soon as there are three million of them in memory, with
/// the edge that was put last, and not before; none is then left in memory. Otherwise those in
/// memory stay, with the new edge unless there is one with its nodes.
pub proof fn law_edges_are_handed_out_by_the_million(
    writer: WriterView,
    edge: InnerEdge<String>,
)
    ensures
        ({
            let nodes = if writer.reversed {
                (edge.to.id.0, edge.from.id.0)
            } else {
                (edge.from.id.0, edge.to.id.0)
            };
            let kept = if writer.edges.contains_key(nodes) {
                writer.edges
            } else {
                writer.edges.insert(nodes, edge)
            };
            &&& writer.added(edge).edges == kept
            &&& kept.len() < 3_000_000 ==> writer.put(edge).edges == kept && writer.put(edge).stored
                == writer.stored
            &&& kept.len() >= 3_000_000 ==> writer.put(edge).edges.dom() == Set::<
                (u128, u128),
            >::empty() && writer.put(edge).stored == writer.stored + 1
            &&& writer.put(edge).reversed == writer.reversed
        }),
{
    assert(writer.added(edge).flushed().edges.dom() =~= Set::<(u128, u128)>::empty());
}

} // verus!
