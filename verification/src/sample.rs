//! Weighted random samples.
//!
//! Every item draws a priority that depends on its weight and on chance; the sample holds the
//! items with the lowest priorities. A priority is a number by which items are ordered: the bits
//! of a double-precision number that is not negative, read as a whole number.

use vstd::prelude::*;
use vstd::seq_lib::{to_multiset_build, to_multiset_contains, to_multiset_len, to_multiset_update};

verus! {

/// An item of a sample: its place in the list it is taken from, and the priority it drew.
#[derive(Clone, Copy, Debug, PartialEq, Eq, Structural)]
pub struct SampledItem {
    pub index: usize,
    pub priority: u64,
}

/// No item has a priority above that of its parent.
pub open spec fn heap_ordered(slots: Seq<SampledItem>) -> bool {
    forall|i: int| 1 <= i < slots.len() ==> (#[trigger] slots[i]).priority <= slots[(i - 1) / 2].priority
}

/// The heap order may fail between `hole` and its parent and nowhere else.
spec fn ordered_but_up(slots: Seq<SampledItem>, hole: int) -> bool {
    &&& forall|i: int|
        1 <= i < slots.len() && i != hole ==> (#[trigger] slots[i]).priority <= slots[(i - 1)
            / 2].priority
    &&& forall|i: int|
        1 <= i < slots.len() && hole >= 1 && (i - 1) / 2 == hole ==> (#[trigger] slots[i]).priority
            <= slots[(hole - 1) / 2].priority
}

/// The heap order may fail between `hole` and its children and nowhere else.
spec fn ordered_but_down(slots: Seq<SampledItem>, hole: int) -> bool {
    &&& forall|i: int|
        1 <= i < slots.len() && (i - 1) / 2 != hole ==> (#[trigger] slots[i]).priority <= slots[(i
            - 1) / 2].priority
    &&& forall|i: int|
        1 <= i < slots.len() && hole >= 1 && (i - 1) / 2 == hole ==> (#[trigger] slots[i]).priority
            <= slots[(hole - 1) / 2].priority
}

proof fn lemma_root_is_highest(slots: Seq<SampledItem>, i: int)
    requires
        heap_ordered(slots),
        0 <= i < slots.len(),
    ensures
        slots[i].priority <= slots[0].priority,
    decreases i,
{
    if i > 0 {
        lemma_root_is_highest(slots, (i - 1) / 2);
    }
}

proof fn lemma_swap_keeps_items(slots: Seq<SampledItem>, i: int, j: int)
    requires
        0 <= i < slots.len(),
        0 <= j < slots.len(),
    ensures
        slots.update(i, slots[j]).update(j, slots[i]).to_multiset() == slots.to_multiset(),
{
    broadcast use vstd::multiset::group_multiset_axioms;

    let once = slots.update(i, slots[j]);
    to_multiset_update(slots, i, slots[j]);
    to_multiset_update(once, j, slots[i]);
    to_multiset_contains(slots, slots[i]);
    to_multiset_contains(slots, slots[j]);
    assert(slots.contains(slots[i]));
    assert(slots.contains(slots[j]));
    assert(once.update(j, slots[i]).to_multiset() =~= slots.to_multiset());
}

/// A binary heap with the highest priority on top.
pub struct SampleHeap {
    slots: Vec<SampledItem>,
}

impl SampleHeap {
    /// The items of the heap, in the order in which it stores them.
    pub closed spec fn items(&self) -> Seq<SampledItem> {
        self.slots@
    }

    /// The heap order holds.
    pub open spec fn wf(&self) -> bool {
        heap_ordered(self.items())
    }

    /// An empty heap.
    pub fn new() -> (heap: SampleHeap)
        ensures
            heap.wf(),
            heap.items() == Seq::<SampledItem>::empty(),
    {
        SampleHeap { slots: Vec::new() }
    }

    /// The number of items.
    pub fn len(&self) -> (len: usize)
        ensures
            len == self.items().len(),
    {
        self.slots.len()
    }

    /// An item of the highest priority.
    pub fn peek(&self) -> (top: Option<SampledItem>)
        requires
            self.wf(),
        ensures
            top is None <==> self.items().len() == 0,
            top matches Some(item) ==> item == self.items()[0] && forall|i: int|
                0 <= i < self.items().len() ==> (#[trigger] self.items()[i]).priority
                    <= item.priority,
    {
        if self.slots.len() == 0 {
            None
        } else {
            proof {
                assert forall|i: int| 0 <= i < self.items().len() implies (
                #[trigger] self.items()[i]).priority <= self.items()[0].priority by {
                    lemma_root_is_highest(self.items(), i);
                }
            }
            Some(self.slots[0])
        }
    }

    /// Adds an item.
    pub fn push(&mut self, item: SampledItem)
        requires
            old(self).wf(),
        ensures
            final(self).wf(),
            final(self).items().to_multiset() == old(self).items().to_multiset().insert(item),
    {
        self.slots.push(item);
        let mut hole: usize = self.slots.len() - 1;
        proof {
            to_multiset_build(old(self).slots@, item);
        }
        while hole > 0
            invariant
                hole < self.slots@.len(),
                ordered_but_up(self.slots@, hole as int),
                self.slots@.to_multiset() == old(self).slots@.to_multiset().insert(item),
            decreases hole,
        {
            let parent: usize = (hole - 1) / 2;
            let below = self.slots[hole];
            let above = self.slots[parent];
            if below.priority <= above.priority {
                return ;
            }
            let ghost before = self.slots@;
            self.slots.set(hole, above);
            self.slots.set(parent, below);
            proof {
                lemma_swap_keeps_items(before, hole as int, parent as int);
            }
            hole = parent;
        }
    }

    /// Puts an item in the place of the one on top.
    pub fn replace_top(&mut self, item: SampledItem)
        requires
            old(self).wf(),
            old(self).items().len() > 0,
        ensures
            final(self).wf(),
            final(self).items().to_multiset() == old(self).items().to_multiset().insert(item).remove(
                old(self).items()[0],
            ),
    {
        self.slots.set(0, item);
        let len = self.slots.len();
        let mut hole: usize = 0;
        proof {
            to_multiset_update(old(self).slots@, 0, item);
        }
        while hole < len / 2
            invariant
                len == self.slots@.len(),
                hole < len,
                ordered_but_down(self.slots@, hole as int),
                self.slots@.to_multiset() == old(self).slots@.to_multiset().insert(item).remove(
                    old(self).slots@[0],
                ),
            decreases len - hole,
        {
            let left: usize = 2 * hole + 1;
            let mut child: usize = left;
            if left + 1 < len && self.slots[left + 1].priority > self.slots[left].priority {
                child = left + 1;
            }
            let above = self.slots[hole];
            let below = self.slots[child];
            if below.priority <= above.priority {
                proof {
                    assert forall|i: int| 1 <= i < self.slots@.len() implies (
                    #[trigger] self.slots@[i]).priority <= self.slots@[(i - 1) / 2].priority by {
                        if (i - 1) / 2 == hole {
                            assert(i == left || i == left + 1);
                        }
                    }
                }
                return ;
            }
            let ghost before = self.slots@;
            self.slots.set(hole, below);
            self.slots.set(child, above);
            proof {
                lemma_swap_keeps_items(before, hole as int, child as int);
                assert((child - 1) / 2 == hole as int);
                assert forall|i: int|
                    1 <= i < self.slots@.len() && (i - 1) / 2 != child implies (
                #[trigger] self.slots@[i]).priority <= self.slots@[(i - 1) / 2].priority by {
                    if (i - 1) / 2 == hole {
                        assert(i == left || i == left + 1);
                    } else {
                        assert(before[i].priority <= before[(i - 1) / 2].priority);
                    }
                }
                assert forall|i: int| 1 <= i < self.slots@.len() && (i - 1) / 2 == child implies (
                #[trigger] self.slots@[i]).priority <= self.slots@[(child - 1) / 2].priority by {
                    assert(before[i].priority <= before[(i - 1) / 2].priority);
                }
            }
            hole = child;
        }
        proof {
            assert forall|i: int| 1 <= i < self.slots@.len() implies (
            #[trigger] self.slots@[i]).priority <= self.slots@[(i - 1) / 2].priority by {
                if (i - 1) / 2 == hole {
                    assert(i >= 2 * hole + 1);
                }
            }
        }
    }
}

/// The size of a sample: as many items as are wanted, or all if there are fewer.
pub open spec fn sample_size(available: nat, wanted: nat) -> nat {
    if available < wanted {
        available
    } else {
        wanted
    }
}

/// `picks` are places of as many items as are wanted, or of all items if there are fewer. No
/// place occurs twice, and nothing that is left out has a lower priority than something picked.
pub open spec fn is_lowest_sample(picks: Seq<usize>, priorities: Seq<u64>, wanted: nat) -> bool {
    &&& picks.no_duplicates()
    &&& picks.len() == sample_size(priorities.len(), wanted)
    &&& forall|i: int| 0 <= i < picks.len() ==> (#[trigger] picks[i]) < priorities.len()
    &&& forall|i: int, left_out: usize|
        0 <= i < picks.len() && left_out < priorities.len() && !(#[trigger] picks.contains(left_out))
            ==> priorities[(#[trigger] picks[i]) as int] <= priorities[left_out as int]
}

/// The slots hold the sample of the first `seen` items.
spec fn holds_sample(
    slots: Seq<SampledItem>,
    priorities: Seq<u64>,
    seen: int,
    wanted: nat,
) -> bool {
    &&& slots.no_duplicates()
    &&& slots.len() == sample_size(seen as nat, wanted)
    &&& forall|i: int|
        0 <= i < slots.len() ==> (#[trigger] slots[i]).index < seen && slots[i].priority
            == priorities[slots[i].index as int]
    &&& forall|i: int, left_out: int|
        0 <= i < slots.len() && 0 <= left_out < seen && !slots.contains(
            SampledItem { index: left_out as usize, priority: #[trigger] priorities[left_out] },
        ) ==> (#[trigger] slots[i]).priority <= priorities[left_out]
}

proof fn lemma_same_items(a: Seq<SampledItem>, b: Seq<SampledItem>)
    requires
        a.to_multiset() == b.to_multiset(),
        a.no_duplicates(),
    ensures
        b.no_duplicates(),
        a.len() == b.len(),
        forall|e: SampledItem| a.contains(e) <==> #[trigger] b.contains(e),
{
    broadcast use vstd::multiset::group_multiset_axioms;

    a.lemma_multiset_has_no_duplicates();
    b.lemma_multiset_has_no_duplicates_conv();
    to_multiset_len(a);
    to_multiset_len(b);
    assert forall|e: SampledItem| a.contains(e) <==> #[trigger] b.contains(e) by {
        to_multiset_contains(a, e);
        to_multiset_contains(b, e);
    }
}

/// Whatever the order of the slots, they hold the same sample.
proof fn lemma_sample_in_any_order(
    a: Seq<SampledItem>,
    b: Seq<SampledItem>,
    priorities: Seq<u64>,
    seen: int,
    wanted: nat,
)
    requires
        a.to_multiset() == b.to_multiset(),
        holds_sample(a, priorities, seen, wanted),
    ensures
        holds_sample(b, priorities, seen, wanted),
{
    lemma_same_items(a, b);
    assert forall|i: int| 0 <= i < b.len() implies (#[trigger] b[i]).index < seen && b[i].priority
        == priorities[b[i].index as int] by {
        assert(b.contains(b[i]));
        let j = a.index_of(b[i]);
        assert(a[j] == b[i]);
    }
    assert forall|i: int, left_out: int|
        0 <= i < b.len() && 0 <= left_out < seen && !b.contains(
            SampledItem { index: left_out as usize, priority: #[trigger] priorities[left_out] },
        ) implies (#[trigger] b[i]).priority <= priorities[left_out] by {
        assert(b.contains(b[i]));
        let j = a.index_of(b[i]);
        assert(a[j] == b[i]);
    }
}

/// While there is room, the next item joins the sample.
proof fn lemma_sample_grows(
    slots: Seq<SampledItem>,
    priorities: Seq<u64>,
    seen: int,
    wanted: nat,
    item: SampledItem,
)
    requires
        0 <= seen < priorities.len() <= usize::MAX,
        holds_sample(slots, priorities, seen, wanted),
        slots.len() < wanted,
        item.index == seen,
        item.priority == priorities[seen],
    ensures
        holds_sample(slots.push(item), priorities, seen + 1, wanted),
{
    let pushed = slots.push(item);
    lemma_all_held(slots, priorities, seen);
    assert forall|i: int, left_out: int|
        0 <= i < pushed.len() && 0 <= left_out < seen + 1 && !pushed.contains(
            SampledItem { index: left_out as usize, priority: #[trigger] priorities[left_out] },
        ) implies (#[trigger] pushed[i]).priority <= priorities[left_out] by {
        let e = SampledItem { index: left_out as usize, priority: priorities[left_out] };
        assert(pushed[pushed.len() - 1] == item);
        if left_out == seen {
            assert(e == item);
        } else {
            assert(slots.contains(e));
            assert(pushed[slots.index_of(e)] == e);
        }
    }
}

/// In a full sample, an item of a lower priority takes the place of one of the highest.
proof fn lemma_sample_improves(
    slots: Seq<SampledItem>,
    priorities: Seq<u64>,
    seen: int,
    wanted: nat,
    item: SampledItem,
)
    requires
        0 <= seen < priorities.len() <= usize::MAX,
        holds_sample(slots, priorities, seen, wanted),
        slots.len() == wanted,
        slots.len() > 0,
        forall|i: int|
            0 <= i < slots.len() ==> (#[trigger] slots[i]).priority <= slots[0].priority,
        item.index == seen,
        item.priority == priorities[seen],
        item.priority < slots[0].priority,
    ensures
        holds_sample(slots.update(0, item), priorities, seen + 1, wanted),
{
    let top = slots[0];
    let replaced = slots.update(0, item);
    assert forall|a: int, b: int|
        0 <= a < replaced.len() && 0 <= b < replaced.len() && a != b implies replaced[a]
        != replaced[b] by {
        assert(slots[a] != slots[b]);
        assert(slots[a].index < seen);
        assert(slots[b].index < seen);
    }
    assert forall|i: int, left_out: int|
        0 <= i < replaced.len() && 0 <= left_out < seen + 1 && !replaced.contains(
            SampledItem { index: left_out as usize, priority: #[trigger] priorities[left_out] },
        ) implies (#[trigger] replaced[i]).priority <= priorities[left_out] by {
        let e = SampledItem { index: left_out as usize, priority: priorities[left_out] };
        assert(replaced[0] == item);
        assert(slots[i].priority <= top.priority);
        if e != item {
            if slots.contains(e) {
                let j = slots.index_of(e);
                if j != 0 {
                    assert(replaced[j] == e);
                }
            } else {
                assert(slots[0].priority <= priorities[left_out]);
                assert(slots[i].priority <= priorities[left_out]);
            }
        }
    }
}

/// In a full sample, an item of no lower priority is left out.
proof fn lemma_sample_stays(slots: Seq<SampledItem>, priorities: Seq<u64>, seen: int, wanted: nat)
    requires
        0 <= seen < priorities.len() <= usize::MAX,
        holds_sample(slots, priorities, seen, wanted),
        slots.len() == wanted,
        forall|i: int|
            0 <= i < slots.len() ==> (#[trigger] slots[i]).priority <= priorities[seen],
    ensures
        holds_sample(slots, priorities, seen + 1, wanted),
{
}

/// The places of the items with the lowest priorities: as many as are wanted, or all of them if
/// there are fewer.
pub fn lowest_sample(priorities: &Vec<u64>, wanted: usize) -> (picks: Vec<usize>)
    ensures
        is_lowest_sample(picks@, priorities@, wanted as nat),
        picks@.len() <= wanted,
        picks@.len() < wanted ==> picks@.len() == priorities@.len(),
        forall|i: int, j: int|
            0 <= i < j < picks@.len() ==> #[trigger] picks@[i] != #[trigger] picks@[j],
        forall|i: int, other: usize|
            0 <= i < picks@.len() && other < priorities@.len() && !(#[trigger] picks@.contains(
                other,
            )) ==> priorities@[(#[trigger] picks@[i]) as int] <= priorities@[other as int],
{
    let len = priorities.len();
    let mut heap = SampleHeap::new();
    let mut seen: usize = 0;
    while seen < len
        invariant
            seen <= len,
            len == priorities@.len(),
            heap.wf(),
            holds_sample(heap.items(), priorities@, seen as int, wanted as nat),
        decreases len - seen,
    {
        let item = SampledItem { index: seen, priority: priorities[seen] };
        let ghost before = heap.items();
        if heap.len() < wanted {
            heap.push(item);
            proof {
                lemma_sample_grows(before, priorities@, seen as int, wanted as nat, item);
                to_multiset_build(before, item);
                lemma_sample_in_any_order(
                    before.push(item),
                    heap.items(),
                    priorities@,
                    seen + 1,
                    wanted as nat,
                );
            }
        } else if let Some(top) = heap.peek() {
            if item.priority < top.priority {
                heap.replace_top(item);
                proof {
                    lemma_sample_improves(before, priorities@, seen as int, wanted as nat, item);
                    to_multiset_update(before, 0, item);
                    lemma_sample_in_any_order(
                        before.update(0, item),
                        heap.items(),
                        priorities@,
                        seen + 1,
                        wanted as nat,
                    );
                }
            } else {
                proof {
                    lemma_sample_stays(before, priorities@, seen as int, wanted as nat);
                }
            }
        } else {
            proof {
                lemma_sample_stays(before, priorities@, seen as int, wanted as nat);
            }
        }
        seen = seen + 1;
    }
    let mut picks: Vec<usize> = Vec::new();
    let mut i: usize = 0;
    while i < heap.slots.len()
        invariant
            i <= heap.slots@.len(),
            picks@.len() == i,
            forall|j: int| 0 <= j < i ==> #[trigger] picks@[j] == heap.slots@[j].index,
        decreases heap.slots@.len() - i,
    {
        picks.push(heap.slots[i].index);
        i = i + 1;
    }
    proof {
        lemma_places_of_sample(heap.items(), priorities@, wanted as nat, picks@);
    }
    picks
}

/// The places of the items in the slots make up the sample.
proof fn lemma_places_of_sample(
    slots: Seq<SampledItem>,
    priorities: Seq<u64>,
    wanted: nat,
    picks: Seq<usize>,
)
    requires
        priorities.len() <= usize::MAX,
        holds_sample(slots, priorities, priorities.len() as int, wanted),
        picks.len() == slots.len(),
        forall|j: int| 0 <= j < picks.len() ==> #[trigger] picks[j] == slots[j].index,
    ensures
        is_lowest_sample(picks, priorities, wanted),
{
    assert forall|a: int, b: int|
        0 <= a < picks.len() && 0 <= b < picks.len() && a != b implies picks[a] != picks[b] by {
        assert(slots[a] != slots[b]);
    }
    assert forall|a: int, left_out: usize|
        0 <= a < picks.len() && left_out < priorities.len() && !(#[trigger] picks.contains(
            left_out,
        )) implies priorities[(#[trigger] picks[a]) as int] <= priorities[left_out as int] by {
        let e = SampledItem { index: left_out, priority: priorities[left_out as int] };
        if slots.contains(e) {
            let j = slots.index_of(e);
            assert(picks[j] == left_out);
        }
        assert(slots[a].priority <= priorities[left_out as int]);
    }
}

/// While there is room for everything, nothing has been left out.
proof fn lemma_all_held(slots: Seq<SampledItem>, priorities: Seq<u64>, seen: int)
    requires
        0 <= seen <= priorities.len() <= usize::MAX,
        slots.no_duplicates(),
        slots.len() == seen,
        forall|i: int|
            0 <= i < slots.len() ==> (#[trigger] slots[i]).index < seen && slots[i].priority
                == priorities[slots[i].index as int],
    ensures
        forall|k: int|
            0 <= k < seen ==> slots.contains(
                SampledItem { index: k as usize, priority: #[trigger] priorities[k] },
            ),
{
    let places = slots.map_values(|s: SampledItem| s.index as int);
    assert(places.no_duplicates()) by {
        assert forall|a: int, b: int|
            0 <= a < places.len() && 0 <= b < places.len() && a != b implies places[a] != places[b] by {
            assert(slots[a] != slots[b]);
        }
    }
    places.unique_seq_to_set();
    let range = vstd::set_lib::set_int_range(0, seen);
    vstd::set_lib::lemma_int_range(0, seen);
    assert(places.to_set().subset_of(range)) by {
        assert forall|p: int| places.to_set().contains(p) implies range.contains(p) by {
            let i = places.index_of(p);
            assert(slots[i].index < seen);
        }
    }
    vstd::set_lib::lemma_subset_equality(places.to_set(), range);
    assert forall|k: int| 0 <= k < seen implies slots.contains(
        SampledItem { index: k as usize, priority: #[trigger] priorities[k] },
    ) by {
        assert(range.contains(k));
        assert(places.to_set().contains(k));
        let i = places.index_of(k);
        assert(slots[i] == SampledItem { index: k as usize, priority: priorities[k] });
    }
}

/// Each weight drew the priority that stands in its place.
pub open spec fn drawn<F: Fn(u64) -> u64>(
    draw: F,
    weights: Seq<u64>,
    priorities: Seq<u64>,
) -> bool {
    &&& priorities.len() == weights.len()
    &&& forall|i: int|
        0 <= i < weights.len() ==> call_ensures(draw, (weights[i],), #[trigger] priorities[i])
}

/// The weights of a list of weighted items.
pub open spec fn weights_of<T>(items: Seq<(T, u64)>) -> Seq<u64> {
    items.map_values(|item: (T, u64)| item.1)
}

/// `sampled` is what a sample of `wanted` of the items can be: every item draws a priority by
/// its weight, and those with the lowest priorities are taken.
pub open spec fn is_weighted_sample<T, F: Fn(u64) -> u64>(
    items: Seq<(T, u64)>,
    wanted: nat,
    draw: F,
    sampled: Seq<T>,
) -> bool {
    &&& items.len() <= usize::MAX
    &&& exists|priorities: Seq<u64>, picks: Seq<usize>|
        {
            &&& #[trigger] drawn(draw, weights_of(items), priorities)
            &&& #[trigger] is_lowest_sample(picks, priorities, wanted)
            &&& sampled == picks.map_values(|pick: usize| items[pick as int].0)
        }
}

/// A random sample of as many items as are wanted, or of all items if there are fewer. `draw`
/// gives the priority of an item from its weight; it is called once for each item, in order.
pub fn weighted_sample<T: Copy, F: Fn(u64) -> u64>(
    items: &Vec<(T, u64)>,
    wanted: usize,
    draw: &F,
) -> (sampled: Vec<T>)
    requires
        forall|weight: u64| call_requires(*draw, (weight,)),
    ensures
        sampled@.len() == sample_size(items@.len(), wanted as nat),
        sampled@.len() <= wanted,
        sampled@.len() < wanted ==> sampled@.len() == items@.len(),
        is_weighted_sample(items@, wanted as nat, *draw, sampled@),
{
    let mut priorities: Vec<u64> = Vec::new();
    let mut i: usize = 0;
    while i < items.len()
        invariant
            i <= items@.len(),
            priorities@.len() == i,
            forall|weight: u64| call_requires(*draw, (weight,)),
            forall|j: int|
                0 <= j < i ==> call_ensures(*draw, (items@[j].1,), #[trigger] priorities@[j]),
        decreases items@.len() - i,
    {
        let weight: u64 = items[i].1;
        priorities.push((*draw)(weight));
        i = i + 1;
    }
    let picks = lowest_sample(&priorities, wanted);
    let mut sampled: Vec<T> = Vec::new();
    let mut j: usize = 0;
    while j < picks.len()
        invariant
            j <= picks@.len(),
            sampled@.len() == j,
            priorities@.len() == items@.len(),
            is_lowest_sample(picks@, priorities@, wanted as nat),
            forall|k: int| 0 <= k < j ==> #[trigger] sampled@[k] == items@[picks@[k] as int].0,
        decreases picks@.len() - j,
    {
        sampled.push(items[picks[j]].0);
        j = j + 1;
    }
    proof {
        assert(drawn(*draw, weights_of(items@), priorities@));
        assert(sampled@ =~= picks@.map_values(|pick: usize| items@[pick as int].0));
    }
    sampled
}

/// What a lowest sample is: the places in it differ and are places of the list; there are as many
/// as are wanted, or all if there are fewer; and what is left out has no lower priority than what
/// is in it.
pub proof fn law_lowest_sample(picks: Seq<usize>, priorities: Seq<u64>, wanted: nat)
    requires
        is_lowest_sample(picks, priorities, wanted),
        priorities.len() <= usize::MAX,
    ensures
        picks.len() <= wanted,
        picks.len() <= priorities.len(),
        picks.len() == wanted || picks.len() == priorities.len(),
        forall|i: int| 0 <= i < picks.len() ==> 0 <= (#[trigger] picks[i]) < priorities.len(),
        forall|i: int, j: int|
            0 <= i < picks.len() && 0 <= j < picks.len() && #[trigger] picks[i]
                == #[trigger] picks[j] ==> i == j,
        forall|i: int, other: int|
            0 <= i < picks.len() && 0 <= other < priorities.len() && #[trigger] priorities[other]
                < priorities[#[trigger] picks[i] as int] ==> exists|j: int|
                0 <= j < picks.len() && #[trigger] picks[j] == other,
        picks.len() == priorities.len() ==> forall|other: usize|
            other < priorities.len() ==> #[trigger] picks.contains(other),
{
    assert forall|i: int, other: int|
        0 <= i < picks.len() && 0 <= other < priorities.len() && #[trigger] priorities[other]
            < priorities[#[trigger] picks[i] as int] implies exists|j: int|
        0 <= j < picks.len() && #[trigger] picks[j] == other by {
        let place = other as usize;
        if !picks.contains(place) {
            assert(priorities[picks[i] as int] <= priorities[place as int]);
        }
        let j = picks.index_of(place);
        assert(picks[j] == other);
    }
    if picks.len() == priorities.len() {
        lemma_pigeons(picks, priorities.len());
    }
}

/// As many places as there are, all of them different, are all places.
proof fn lemma_pigeons(picks: Seq<usize>, len: nat)
    requires
        picks.no_duplicates(),
        forall|i: int| 0 <= i < picks.len() ==> (#[trigger] picks[i]) < len,
    ensures
        picks.len() == len ==> forall|other: usize| other < len ==> #[trigger] picks.contains(other),
{
    if picks.len() == len {
        let places = picks.map_values(|pick: usize| pick as int);
        assert(places.no_duplicates()) by {
            assert forall|i: int, j: int| 0 <= i < j < places.len() implies places[i]
                != places[j] by {
                assert(picks[i] != picks[j]);
            }
        }
        places.unique_seq_to_set();
        vstd::seq_lib::seq_to_set_is_finite(places);
        vstd::set_lib::lemma_int_range(0, len as int);
        let range = vstd::set_lib::set_int_range(0, len as int);
        assert(places.to_set().subset_of(range)) by {
            assert forall|p: int| places.to_set().contains(p) implies range.contains(p) by {
                let i = places.index_of(p);
                assert(picks[i] < len);
            }
        }
        vstd::set_lib::lemma_subset_equality(places.to_set(), range);
        assert forall|other: usize| other < len implies #[trigger] picks.contains(other) by {
            assert(places.to_set().contains(other as int));
            let i = places.index_of(other as int);
            assert(picks[i] == other);
        }
    }
}

} // verus!
