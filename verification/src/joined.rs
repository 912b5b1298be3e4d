//! Lists that are put together, one after the other.

use vstd::prelude::*;

verus! {

/// The lists one after the other.
pub open spec fn joined<A>(lists: Seq<Seq<A>>) -> Seq<A>
    decreases lists.len(),
{
    if lists.len() == 0 {
        Seq::empty()
    } else {
        joined(lists.drop_last()) + lists.last()
    }
}

/// Where the item at `i` of the list at `r` comes to stand.
pub open spec fn place_of<A>(lists: Seq<Seq<A>>, r: int, i: int) -> int {
    joined(lists.take(r)).len() + i
}

/// An item keeps what it is.
pub proof fn lemma_item_is_kept<A>(lists: Seq<Seq<A>>, r: int, i: int)
    requires
        0 <= r < lists.len(),
        0 <= i < lists[r].len(),
    ensures
        0 <= place_of(lists, r, i) < joined(lists).len(),
        joined(lists)[place_of(lists, r, i)] == lists[r][i],
    decreases lists.len(),
{
    let front = lists.drop_last();
    if r == lists.len() - 1 {
        assert(lists.take(r) =~= front);
    } else {
        assert(front[r] == lists[r]);
        lemma_item_is_kept(front, r, i);
        assert(front.take(r) =~= lists.take(r));
    }
}

/// Every item of the joined list comes from one of the lists.
pub proof fn lemma_item_has_origin<A>(lists: Seq<Seq<A>>, k: int) -> (origin: (int, int))
    requires
        0 <= k < joined(lists).len(),
    ensures
        0 <= origin.0 < lists.len(),
        0 <= origin.1 < lists[origin.0].len(),
        place_of(lists, origin.0, origin.1) == k,
        joined(lists)[k] == lists[origin.0][origin.1],
    decreases lists.len(),
{
    let front = lists.drop_last();
    let last = lists.len() - 1;
    if k < joined(front).len() {
        let origin = lemma_item_has_origin(front, k);
        assert(front.take(origin.0) =~= lists.take(origin.0));
        assert(front[origin.0] == lists[origin.0]);
        origin
    } else {
        assert(lists.take(last) =~= front);
        (last, k - joined(front).len())
    }
}

/// Items stand in the order of their lists, and of one list in its own order.
pub proof fn lemma_order_is_kept<A>(lists: Seq<Seq<A>>, r: int, i: int, s: int, j: int)
    requires
        0 <= r < lists.len(),
        0 <= i < lists[r].len(),
        0 <= s < lists.len(),
        0 <= j < lists[s].len(),
    ensures
        place_of(lists, r, i) < place_of(lists, s, j) <==> r < s || (r == s && i < j),
        place_of(lists, r, i) == place_of(lists, s, j) <==> r == s && i == j,
{
    if r < s {
        lemma_earlier_list(lists, r, s);
    } else if s < r {
        lemma_earlier_list(lists, s, r);
    }
}

/// What comes before a later list holds all of an earlier one.
proof fn lemma_earlier_list<A>(lists: Seq<Seq<A>>, r: int, s: int)
    requires
        0 <= r < s <= lists.len(),
    ensures
        joined(lists.take(r)).len() + lists[r].len() <= joined(lists.take(s)).len(),
    decreases s - r,
{
    assert(lists.take(s).drop_last() =~= lists.take(s - 1));
    assert(lists.take(s).last() == lists[s - 1]);
    if r < s - 1 {
        lemma_earlier_list(lists, r, s - 1);
    }
}

/// There are as many items at given places as there are origins of them.
pub proof fn lemma_as_many_origins<A>(
    lists: Seq<Seq<A>>,
    places: Set<int>,
    origins: Set<(int, int)>,
)
    requires
        forall|k: int| #[trigger] places.contains(k) ==> 0 <= k < joined(lists).len(),
        forall|at: (int, int)| #[trigger]
            origins.contains(at) <==> 0 <= at.0 < lists.len() && 0 <= at.1 < lists[at.0].len()
                && places.contains(place_of(lists, at.0, at.1)),
    ensures
        places.finite(),
        origins.finite(),
        places.len() == origins.len(),
{
    let all = vstd::set_lib::set_int_range(0, joined(lists).len() as int);
    vstd::set_lib::lemma_int_range(0, joined(lists).len() as int);
    assert(places.subset_of(all));
    vstd::set_lib::lemma_len_subset(places, all);
    let origin = |k: int|
        choose|at: (int, int)|
            0 <= at.0 < lists.len() && 0 <= at.1 < lists[at.0].len() && #[trigger] place_of(
                lists,
                at.0,
                at.1,
            ) == k;
    assert forall|k: int| #[trigger] places.contains(k) implies origins.contains(origin(k))
        && place_of(lists, origin(k).0, origin(k).1) == k by {
        let at = lemma_item_has_origin(lists, k);
        assert(place_of(lists, at.0, at.1) == k);
    }
    assert forall|k: int, l: int|
        places.contains(k) && places.contains(l) && #[trigger] origin(k) == #[trigger] origin(
            l,
        ) implies k == l by {}
    assert forall|at: (int, int)| #[trigger] origins.contains(at) implies exists|k: int|
        places.contains(k) && at == #[trigger] origin(k) by {
        let k = place_of(lists, at.0, at.1);
        assert(places.contains(k));
        let back = origin(k);
        lemma_order_is_kept(lists, at.0, at.1, back.0, back.1);
        assert(at == origin(k));
    }
    assert(places.map(origin) =~= origins);
    vstd::set_lib::lemma_map_size(places, origins, origin);
}

} // verus!
