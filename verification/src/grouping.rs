//! Sorting a list of items by the domain they belong to.
//!
//! A group is the list of places of its items, in order. Groups stand in the order in which
//! their domains first occur.

use crate::digest::{text_id, Id};
use crate::id_table::id_pairs;
use crate::web_url::{AsId, Domain};
use std::collections::BTreeMap;
use vstd::prelude::*;

verus! {

broadcast use {vstd::std_specs::btree::group_btree_axioms, vstd::laws_cmp::group_laws_cmp};

/// The group at `g` is that of the domain `name`.
pub open spec fn group_of(
    groups: Seq<Seq<usize>>,
    names: Seq<Seq<char>>,
    name: Seq<char>,
    g: int,
) -> bool {
    0 <= g < groups.len() && names[groups[g][0] as int] == name
}

/// The groups after the item at `place` joins the group of its domain, or opens one.
pub open spec fn joined(
    groups: Seq<Seq<usize>>,
    names: Seq<Seq<char>>,
    place: usize,
) -> Seq<Seq<usize>> {
    if exists|g: int| group_of(groups, names, names[place as int], g) {
        let g = choose|g: int| group_of(groups, names, names[place as int], g);
        groups.update(g, groups[g].push(place))
    } else {
        groups.push(seq![place])
    }
}

/// The groups of the first `seen` items.
pub open spec fn groups_of_first(names: Seq<Seq<char>>, seen: nat) -> Seq<Seq<usize>>
    decreases seen,
{
    if seen == 0 {
        Seq::empty()
    } else {
        joined(groups_of_first(names, (seen - 1) as nat), names, (seen - 1) as usize)
    }
}

/// The groups of a list of items, whose domains have the given names.
pub open spec fn groups_of(names: Seq<Seq<char>>) -> Seq<Seq<usize>> {
    groups_of_first(names, names.len())
}

/// The place stands in the group at `g`.
pub open spec fn in_group(groups: Seq<Seq<usize>>, place: usize, g: int) -> bool {
    0 <= g < groups.len() && groups[g].contains(place)
}

/// The place stands in a group.
pub open spec fn in_a_group(groups: Seq<Seq<usize>>, place: usize) -> bool {
    exists|g: int| in_group(groups, place, g)
}

/// What the groups of the first `seen` items are: none is empty, the items of a group share a
/// domain and stand in order, two groups have two domains, and every item is in a group.
pub open spec fn well_grouped(groups: Seq<Seq<usize>>, names: Seq<Seq<char>>, seen: int) -> bool {
    &&& forall|g: int| 0 <= g < groups.len() ==> (#[trigger] groups[g]).len() > 0
    &&& forall|g: int, k: int|
        0 <= g < groups.len() && 0 <= k < groups[g].len() ==> (#[trigger] groups[g][k]) < seen
            && names[groups[g][k] as int] == names[groups[g][0] as int]
    &&& forall|g: int, k: int, l: int|
        0 <= g < groups.len() && 0 <= k < l < groups[g].len() ==> (#[trigger] groups[g][k])
            < #[trigger] groups[g][l]
    &&& forall|g: int, h: int|
        0 <= g < groups.len() && 0 <= h < groups.len() && names[(#[trigger] groups[g])[0] as int]
            == names[(#[trigger] groups[h])[0] as int] ==> g == h
    &&& forall|place: usize| place < seen ==> #[trigger] in_a_group(groups, place)
}

/// Joining a group keeps the groups well-formed.
pub proof fn lemma_joined(groups: Seq<Seq<usize>>, names: Seq<Seq<char>>, place: usize)
    requires
        well_grouped(groups, names, place as int),
        place < names.len(),
    ensures
        well_grouped(joined(groups, names, place), names, place + 1),
{
    let name = names[place as int];
    let after = joined(groups, names, place);
    if exists|g: int| group_of(groups, names, name, g) {
        let g = choose|g: int| group_of(groups, names, name, g);
        assert(group_of(groups, names, name, g));
        assert(after[g] == groups[g].push(place));
        assert(after[g][0] == groups[g][0]);
        assert forall|h: int, k: int| 0 <= h < after.len() && 0 <= k < after[h].len() implies (
        #[trigger] after[h][k]) < place + 1 && names[after[h][k] as int] == names[after[h][0] as int] by {
            if h != g {
                assert(after[h] == groups[h]);
            } else if k < groups[g].len() {
                assert(after[g][k] == groups[g][k]);
            }
        }
        assert forall|h: int, k: int, l: int|
            0 <= h < after.len() && 0 <= k < l < after[h].len() implies (#[trigger] after[h][k])
            < #[trigger] after[h][l] by {
            if h != g {
                assert(after[h] == groups[h]);
            } else {
                assert(after[g][k] == groups[g][k]);
                if l < groups[g].len() {
                    assert(after[g][l] == groups[g][l]);
                }
            }
        }
        assert forall|h: int, i: int|
            0 <= h < after.len() && 0 <= i < after.len() && names[(#[trigger] after[h])[0] as int]
                == names[(#[trigger] after[i])[0] as int] implies h == i by {
            assert(after[h][0] == groups[h][0]);
            assert(after[i][0] == groups[i][0]);
        }
        assert forall|p: usize| p < place + 1 implies #[trigger] in_a_group(after, p) by {
            if p == place {
                assert(after[g][groups[g].len() as int] == place);
                assert(in_group(after, p, g));
            } else {
                assert(in_a_group(groups, p));
                let h = choose|h: int| in_group(groups, p, h);
                if h == g {
                    let k = groups[g].index_of(p);
                    assert(after[g][k] == p);
                }
                assert(in_group(after, p, h));
            }
        }
    } else {
        let last = groups.len() as int;
        assert(after[last] == seq![place]);
        assert forall|h: int| 0 <= h < last implies names[(#[trigger] after[h])[0] as int] != name by {
            assert(!group_of(groups, names, name, h));
        }
        assert forall|h: int, k: int| 0 <= h < after.len() && 0 <= k < after[h].len() implies (
        #[trigger] after[h][k]) < place + 1 && names[after[h][k] as int] == names[after[h][0] as int] by {
            if h < last {
                assert(after[h] == groups[h]);
            }
        }
        assert forall|h: int, k: int, l: int|
            0 <= h < after.len() && 0 <= k < l < after[h].len() implies (#[trigger] after[h][k])
            < #[trigger] after[h][l] by {
            if h < last {
                assert(after[h] == groups[h]);
            }
        }
        assert forall|p: usize| p < place + 1 implies #[trigger] in_a_group(after, p) by {
            if p == place {
                assert(after[last][0] == place);
                assert(in_group(after, p, last));
            } else {
                assert(in_a_group(groups, p));
                let h = choose|h: int| in_group(groups, p, h);
                assert(in_group(after, p, h));
            }
        }
    }
}

/// The places of all items, group by group.
pub open spec fn order_of(groups: Seq<Seq<usize>>) -> Seq<usize>
    decreases groups.len(),
{
    if groups.len() == 0 {
        Seq::empty()
    } else {
        order_of(groups.drop_last()) + groups.last()
    }
}

/// Every item has its place in the order, and nothing else has.
pub proof fn lemma_order_of(groups: Seq<Seq<usize>>, place: usize)
    ensures
        order_of(groups).contains(place) <==> in_a_group(groups, place),
    decreases groups.len(),
{
    if groups.len() > 0 {
        let front = groups.drop_last();
        lemma_order_of(front, place);
        let last = groups.len() - 1;
        if in_a_group(groups, place) {
            let g = choose|g: int| in_group(groups, place, g);
            if g == last {
                let k = groups.last().index_of(place);
                assert(order_of(groups)[order_of(front).len() + k] == place);
            } else {
                assert(in_group(front, place, g));
                let k = order_of(front).index_of(place);
                assert(order_of(groups)[k] == place);
            }
        }
        if order_of(groups).contains(place) {
            let k = order_of(groups).index_of(place);
            if k < order_of(front).len() {
                assert(order_of(front)[k] == place);
                let g = choose|g: int| in_group(front, place, g);
                assert(in_group(groups, place, g));
            } else {
                assert(groups.last()[k - order_of(front).len()] == place);
                assert(in_group(groups, place, last));
            }
        }
    }
}

/// The groups of a list of items are well-formed.
pub proof fn lemma_groups_of(names: Seq<Seq<char>>)
    requires
        names.len() <= usize::MAX,
    ensures
        well_grouped(groups_of(names), names, names.len() as int),
{
    lemma_groups_of_first(names, names.len());
}

proof fn lemma_groups_of_first(names: Seq<Seq<char>>, seen: nat)
    requires
        seen <= names.len() <= usize::MAX,
    ensures
        well_grouped(groups_of_first(names, seen), names, seen as int),
    decreases seen,
{
    if seen > 0 {
        let before = (seen - 1) as nat;
        lemma_groups_of_first(names, before);
        lemma_joined(groups_of_first(names, before), names, before as usize);
    }
}

/// The order holds every place of the list, and no other.
pub proof fn lemma_order_is_complete(names: Seq<Seq<char>>)
    requires
        names.len() <= usize::MAX,
    ensures
        forall|k: int|
            0 <= k < order_of(groups_of(names)).len() ==> (#[trigger] order_of(groups_of(names))[k])
                < names.len(),
        forall|place: usize|
            place < names.len() ==> #[trigger] order_of(groups_of(names)).contains(place),
{
    let groups = groups_of(names);
    let order = order_of(groups);
    lemma_groups_of(names);
    assert forall|k: int| 0 <= k < order.len() implies (#[trigger] order[k]) < names.len() by {
        let place = order[k];
        lemma_order_of(groups, place);
        assert(order.contains(place));
        let g = choose|g: int| in_group(groups, place, g);
        let l = groups[g].index_of(place);
        assert(groups[g][l] < names.len());
    }
    assert forall|place: usize| place < names.len() implies #[trigger] order.contains(place) by {
        lemma_order_of(groups, place);
        assert(in_a_group(groups, place));
    }
}

/// The last of the values that stand at the places of a list, if any does.
pub open spec fn last_of<T>(order: Seq<usize>, value: spec_fn(usize) -> Option<T>) -> Option<T>
    decreases order.len(),
{
    if order.len() == 0 {
        None
    } else {
        match value(order.last()) {
            Some(last) => Some(last),
            None => last_of(order.drop_last(), value),
        }
    }
}

/// The last value of two lists is that of the second, or else that of the first.
proof fn lemma_last_of_both<T>(
    a: Seq<usize>,
    b: Seq<usize>,
    value: spec_fn(usize) -> Option<T>,
)
    ensures
        last_of(a + b, value) == (match last_of(b, value) {
            Some(last) => Some(last),
            None => last_of(a, value),
        }),
    decreases b.len(),
{
    if b.len() == 0 {
        assert(a + b =~= a);
    } else {
        assert((a + b).drop_last() =~= a + b.drop_last());
        assert((a + b).last() == b.last());
        lemma_last_of_both(a, b.drop_last(), value);
    }
}

/// Without a value at any place there is no last one.
proof fn lemma_no_last<T>(order: Seq<usize>, value: spec_fn(usize) -> Option<T>)
    requires
        forall|k: int| 0 <= k < order.len() ==> value(#[trigger] order[k]) is None,
    ensures
        last_of(order, value) is None,
    decreases order.len(),
{
    if order.len() > 0 {
        let front = order.drop_last();
        assert(value(order[order.len() - 1]) is None);
        assert forall|k: int| 0 <= k < front.len() implies value(#[trigger] front[k]) is None by {
            assert(front[k] == order[k]);
        }
        lemma_no_last(front, value);
    }
}

/// In a rising list, the highest place with a value gives the last one.
proof fn lemma_last_is_highest<T>(
    order: Seq<usize>,
    value: spec_fn(usize) -> Option<T>,
    place: usize,
)
    requires
        forall|k: int, l: int|
            0 <= k < l < order.len() ==> (#[trigger] order[k]) < #[trigger] order[l],
        order.contains(place),
        value(place) is Some,
        forall|k: int|
            0 <= k < order.len() && value(#[trigger] order[k]) is Some ==> order[k] <= place,
    ensures
        last_of(order, value) == value(place),
    decreases order.len(),
{
    let front = order.drop_last();
    let last = order.len() - 1;
    let k = order.index_of(place);
    if k < last {
        assert(order[k] < order[last]);
        assert(value(order[last]) is None);
        assert(front[k] == place);
        assert forall|i: int, j: int| 0 <= i < j < front.len() implies (#[trigger] front[i])
            < #[trigger] front[j] by {
            assert(order[i] < order[j]);
        }
        assert forall|i: int|
            0 <= i < front.len() && value(#[trigger] front[i]) is Some implies front[i]
            <= place by {
            assert(front[i] == order[i]);
        }
        lemma_last_is_highest(front, value, place);
    }
}

/// Where values stand at places of one domain only, going through the items group by group meets
/// the one at the highest place last.
pub proof fn lemma_last_of_groups<T>(
    names: Seq<Seq<char>>,
    name: Seq<char>,
    value: spec_fn(usize) -> Option<T>,
)
    requires
        names.len() <= usize::MAX,
        forall|place: usize|
            place < names.len() && (#[trigger] value(place)) is Some ==> names[place as int] == name,
    ensures
        (forall|place: usize| place < names.len() ==> (#[trigger] value(place)) is None)
            ==> last_of(order_of(groups_of(names)), value) is None,
        forall|place: usize|
            place < names.len() && (#[trigger] value(place)) is Some && (forall|later: usize|
                place < later < names.len() ==> (#[trigger] value(later)) is None) ==> last_of(
                order_of(groups_of(names)),
                value,
            ) == value(place),
{
    let groups = groups_of(names);
    lemma_groups_of(names);
    if forall|place: usize| place < names.len() ==> (#[trigger] value(place)) is None {
        assert forall|k: int| 0 <= k < order_of(groups).len() implies value(
            #[trigger] order_of(groups)[k],
        ) is None by {
            let place = order_of(groups)[k];
            lemma_order_of(groups, place);
            assert(order_of(groups).contains(place));
            let g = choose|g: int| in_group(groups, place, g);
            let l = groups[g].index_of(place);
            assert(groups[g][l] < names.len());
        }
        lemma_no_last(order_of(groups), value);
    }
    assert forall|place: usize|
        place < names.len() && (#[trigger] value(place)) is Some && (forall|later: usize|
            place < later < names.len() ==> (#[trigger] value(later)) is None) implies last_of(
        order_of(groups),
        value,
    ) == value(place) by {
        assert(in_a_group(groups, place));
        let g = choose|g: int| in_group(groups, place, g);
        let group = groups[g];
        let l = group.index_of(place);
        assert(names[groups[g][l] as int] == names[groups[g][0] as int]);
        assert forall|k: int|
            0 <= k < group.len() && value(#[trigger] group[k]) is Some implies group[k] <= place by {
            assert(groups[g][k] < names.len());
        }
        assert forall|k: int, m: int| 0 <= k < m < group.len() implies (#[trigger] group[k])
            < #[trigger] group[m] by {
            assert(groups[g][k] < groups[g][m]);
        }
        lemma_last_is_highest(group, value, place);
        assert forall|h: int, k: int|
            0 <= h < groups.len() && h != g && 0 <= k < groups[h].len() implies value(
            #[trigger] groups[h][k],
        ) is None by {
            assert(groups[h][k] < names.len());
            assert(names[groups[h][k] as int] == names[groups[h][0] as int]);
            assert(names[groups[h][0] as int] != names[groups[g][0] as int]);
        }
        lemma_last_in_one_group(groups, value, g);
    }
}

/// Where values stand in one group only, that group gives the last one.
proof fn lemma_last_in_one_group<T>(
    groups: Seq<Seq<usize>>,
    value: spec_fn(usize) -> Option<T>,
    g: int,
)
    requires
        forall|h: int, k: int|
            0 <= h < groups.len() && h != g && 0 <= k < groups[h].len() ==> value(
                #[trigger] groups[h][k],
            ) is None,
    ensures
        last_of(order_of(groups), value) == (if 0 <= g < groups.len() {
            last_of(groups[g], value)
        } else {
            None
        }),
    decreases groups.len(),
{
    if groups.len() > 0 {
        let front = groups.drop_last();
        let end = groups.len() - 1;
        assert forall|h: int, k: int|
            0 <= h < front.len() && h != g && 0 <= k < front[h].len() implies value(
            #[trigger] front[h][k],
        ) is None by {
            assert(front[h] == groups[h]);
            assert(value(groups[h][k]) is None);
        }
        lemma_last_in_one_group(front, value, g);
        lemma_last_of_both(order_of(front), groups.last(), value);
        if g != end {
            assert forall|k: int| 0 <= k < groups.last().len() implies value(
                #[trigger] groups.last()[k],
            ) is None by {
                assert(value(groups[end][k]) is None);
            }
            lemma_no_last(groups.last(), value);
        }
    }
}

/// The place stands in one of the first groups, or among the first items of the next one.
pub open spec fn reached(groups: Seq<Seq<usize>>, g: int, k: int, place: int) -> bool {
    ||| exists|h: int, l: int| 0 <= h < g && 0 <= l < groups[h].len() && #[trigger] groups[h][l] == place
    ||| exists|l: int| 0 <= l < k && #[trigger] groups[g][l] == place
}

/// Going through the groups, no item of the next group has been reached before.
pub proof fn lemma_group_is_new(
    groups: Seq<Seq<usize>>,
    names: Seq<Seq<char>>,
    seen: int,
    g: int,
)
    requires
        well_grouped(groups, names, seen),
        0 <= g < groups.len(),
    ensures
        forall|k: int|
            0 <= k < groups[g].len() ==> !reached(groups, g, 0, #[trigger] groups[g][k] as int),
{
    assert forall|k: int| 0 <= k < groups[g].len() implies !reached(
        groups,
        g,
        0,
        #[trigger] groups[g][k] as int,
    ) by {
        if reached(groups, g, 0, groups[g][k] as int) {
            let (h, l) = choose|h: int, l: int|
                0 <= h < g && 0 <= l < groups[h].len() && #[trigger] groups[h][l] == groups[g][k];
            assert(names[groups[h][l] as int] == names[groups[h][0] as int]);
            assert(h == g);
        }
    }
}

/// Having gone through a group is standing at the start of the next one.
pub proof fn lemma_group_reached(groups: Seq<Seq<usize>>, g: int)
    requires
        0 <= g < groups.len(),
    ensures
        forall|place: int|
            #![trigger reached(groups, g + 1, 0, place)]
            reached(groups, g + 1, 0, place) <==> reached(
                groups,
                g,
                groups[g].len() as int,
                place,
            ),
{
    assert forall|place: int|
        #![trigger reached(groups, g + 1, 0, place)]
        reached(groups, g + 1, 0, place) <==> reached(groups, g, groups[g].len() as int, place) by {
        if reached(groups, g + 1, 0, place) {
            let (h, l) = choose|h: int, l: int|
                0 <= h < g + 1 && 0 <= l < groups[h].len() && #[trigger] groups[h][l] == place;
            assert(groups[h][l] == place);
        }
        if exists|l: int| 0 <= l < groups[g].len() && #[trigger] groups[g][l] == place {
            let l = choose|l: int| 0 <= l < groups[g].len() && #[trigger] groups[g][l] == place;
            assert(groups[g][l] == place);
        }
    }
}

/// Having gone through all groups is having reached all items.
pub proof fn lemma_all_reached(groups: Seq<Seq<usize>>, names: Seq<Seq<char>>, seen: int)
    requires
        well_grouped(groups, names, seen),
        seen <= usize::MAX,
    ensures
        forall|place: int|
            #![trigger reached(groups, groups.len() as int, 0, place)]
            reached(groups, groups.len() as int, 0, place) <==> 0 <= place < seen,
{
    let all = groups.len() as int;
    assert forall|place: int|
        #![trigger reached(groups, all, 0, place)]
        reached(groups, all, 0, place) <==> 0 <= place < seen by {
        if 0 <= place < seen {
            let at = place as usize;
            assert(in_a_group(groups, at));
            let h = choose|h: int| in_group(groups, at, h);
            let l = groups[h].index_of(at);
            assert(groups[h][l] == place);
        }
    }
}

/// The names of the domains of the groups, with their identifiers.
pub open spec fn domain_pairs(names: Seq<Seq<char>>, groups: Seq<Seq<usize>>) -> Seq<
    (Seq<char>, Id),
> {
    groups.map_values(
        |group: Seq<usize>| (names[group[0] as int], text_id(names[group[0] as int])),
    )
}

/// The domain of every item is among those of the groups.
pub proof fn lemma_domain_is_listed(
    groups: Seq<Seq<usize>>,
    names: Seq<Seq<char>>,
    seen: int,
    place: usize,
)
    requires
        well_grouped(groups, names, seen),
        place < seen,
    ensures
        domain_pairs(names, groups).contains((names[place as int], text_id(names[place as int]))),
{
    assert(in_a_group(groups, place));
    let g = choose|g: int| in_group(groups, place, g);
    let k = groups[g].index_of(place);
    assert(names[groups[g][k] as int] == names[groups[g][0] as int]);
    assert(domain_pairs(names, groups)[g] == (names[place as int], text_id(names[place as int])));
}

/// The groups as plain lists.
pub open spec fn groups_view(groups: Seq<Vec<usize>>) -> Seq<Seq<usize>> {
    groups.map_values(|group: Vec<usize>| group@)
}

/// The names of a list of domains.
pub open spec fn names_of(domains: Seq<Domain>) -> Seq<Seq<char>> {
    domains.map_values(|domain: Domain| domain@)
}

/// The place of the group of `domain`, if it has one.
fn find_group(groups: &Vec<Vec<usize>>, domains: &Vec<Domain>, domain: &Domain) -> (place: Option<
    usize,
>)
    requires
        forall|g: int| 0 <= g < groups@.len() ==> (#[trigger] groups@[g])@.len() > 0,
        forall|g: int| 0 <= g < groups@.len() ==> (#[trigger] groups@[g])@[0] < domains@.len(),
    ensures
        place matches Some(g) ==> group_of(groups_view(groups@), names_of(domains@), domain@, g as int),
        place is None ==> forall|g: int|
            !group_of(groups_view(groups@), names_of(domains@), domain@, g),
{
    let mut g: usize = 0;
    while g < groups.len()
        invariant
            g <= groups@.len(),
            forall|h: int| 0 <= h < groups@.len() ==> (#[trigger] groups@[h])@.len() > 0,
            forall|h: int| 0 <= h < groups@.len() ==> (#[trigger] groups@[h])@[0] < domains@.len(),
            forall|h: int| 0 <= h < g ==> !group_of(
                groups_view(groups@),
                names_of(domains@),
                domain@,
                h,
            ),
        decreases groups@.len() - g,
    {
        let group = &groups[g];
        if domains[group[0]] == *domain {
            return Some(g);
        }
        g = g + 1;
    }
    None
}

/// Sorts the items of a list by their domains. `ids` are the identifiers of the domains.
pub(crate) fn group_by_domain(domains: &Vec<Domain>, ids: &Vec<Id>) -> (groups: Vec<Vec<usize>>)
    requires
        ids@.len() == domains@.len(),
        forall|i: int| 0 <= i < ids@.len() ==> #[trigger] ids@[i] == text_id(domains@[i]@),
    ensures
        groups_view(groups@) == groups_of(names_of(domains@)),
        well_grouped(groups_view(groups@), names_of(domains@), domains@.len() as int),
{
    let ghost names = names_of(domains@);
    let mut groups: Vec<Vec<usize>> = Vec::new();
    // The first group that was opened for an identifier.
    let mut opened: BTreeMap<u128, usize> = BTreeMap::new();
    let mut place: usize = 0;
    proof {
        assert(groups_view(groups@) =~= Seq::empty());
    }
    while place < domains.len()
        invariant
            place <= domains@.len(),
            names == names_of(domains@),
            ids@.len() == domains@.len(),
            forall|i: int| 0 <= i < ids@.len() ==> #[trigger] ids@[i] == text_id(domains@[i]@),
            groups_view(groups@) == groups_of_first(names, place as nat),
            well_grouped(groups_view(groups@), names, place as int),
            forall|id: u128| #[trigger] opened@.contains_key(id) ==> opened@[id] < groups@.len(),
            forall|g: int|
                0 <= g < groups@.len() ==> opened@.contains_key(
                    text_id(names[(#[trigger] groups_view(groups@)[g])[0] as int]),
                ),
        decreases domains@.len() - place,
    {
        let ghost before = groups_view(groups@);
        let id: Id = ids[place];
        let domain = &domains[place];
        proof {
            assert(names[place as int] == domain@);
            assert forall|g: int| 0 <= g < groups@.len() implies (#[trigger] groups@[g])@.len() > 0
                && groups@[g]@[0] < domains@.len() by {
                assert(before[g] == groups@[g]@);
                assert(before[g][0] < place);
            }
            lemma_joined(before, names, place);
        }
        let first: Option<usize> = match opened.get(&id) {
            Some(g) => Some(*g),
            None => None,
        };
        let found: Option<usize> = match first {
            None => {
                proof {
                    assert forall|g: int| !group_of(before, names, domain@, g) by {
                        if group_of(before, names, domain@, g) {
                            assert(opened@.contains_key(text_id(names[before[g][0] as int])));
                        }
                    }
                }
                None
            },
            Some(g) => {
                let group = &groups[g];
                if domains[group[0]] == *domain {
                    Some(g)
                } else {
                    find_group(&groups, domains, domain)
                }
            },
        };
        match found {
            Some(g) => {
                proof {
                    assert(before[g as int] == groups@[g as int]@);
                    assert(group_of(before, names, domain@, g as int));
                    let chosen = choose|h: int| group_of(before, names, domain@, h);
                    assert(group_of(before, names, domain@, chosen));
                    assert(names[before[chosen][0] as int] == names[before[g as int][0] as int]);
                    assert(chosen == g);
                }
                let mut group: Vec<usize> = Vec::new();
                core::mem::swap(&mut group, &mut groups[g]);
                group.push(place);
                groups.set(g, group);
                proof {
                    assert(groups_view(groups@) =~= joined(before, names, place));
                    assert forall|h: int| 0 <= h < groups@.len() implies opened@.contains_key(
                        text_id(names[(#[trigger] groups_view(groups@)[h])[0] as int]),
                    ) by {
                        assert(groups_view(groups@)[h][0] == before[h][0]);
                        assert(opened@.contains_key(text_id(names[before[h][0] as int])));
                    }
                }
            },
            None => {
                let mut group: Vec<usize> = Vec::new();
                group.push(place);
                assert(group@ =~= seq![place]);
                groups.push(group);
                if first.is_none() {
                    opened.insert(id, groups.len() - 1);
                }
                proof {
                    assert(groups_view(groups@) =~= joined(before, names, place));
                    assert forall|h: int| 0 <= h < groups@.len() implies opened@.contains_key(
                        text_id(names[(#[trigger] groups_view(groups@)[h])[0] as int]),
                    ) by {
                        if h < before.len() {
                            assert(groups_view(groups@)[h] == before[h]);
                        }
                    }
                }
            },
        }
        place = place + 1;
    }
    groups
}

/// The domains of the groups, with their identifiers.
pub(crate) fn domains_of_groups(
    domains: &Vec<Domain>,
    ids: &Vec<Id>,
    groups: &Vec<Vec<usize>>,
) -> (items: Vec<(Domain, Id)>)
    requires
        ids@.len() == domains@.len(),
        forall|i: int| 0 <= i < ids@.len() ==> #[trigger] ids@[i] == text_id(domains@[i]@),
        well_grouped(groups_view(groups@), names_of(domains@), domains@.len() as int),
    ensures
        id_pairs(items@) == domain_pairs(names_of(domains@), groups_view(groups@)),
{
    let ghost names = names_of(domains@);
    let mut items: Vec<(Domain, Id)> = Vec::new();
    let mut g: usize = 0;
    while g < groups.len()
        invariant
            g <= groups@.len(),
            names == names_of(domains@),
            ids@.len() == domains@.len(),
            forall|i: int| 0 <= i < ids@.len() ==> #[trigger] ids@[i] == text_id(domains@[i]@),
            well_grouped(groups_view(groups@), names, domains@.len() as int),
            items@.len() == g,
            forall|h: int|
                0 <= h < g ==> (#[trigger] items@[h]).0@ == names[groups@[h]@[0] as int]
                    && items@[h].1 == text_id(names[groups@[h]@[0] as int]),
        decreases groups@.len() - g,
    {
        proof {
            assert(groups_view(groups@)[g as int] == groups@[g as int]@);
            assert(groups_view(groups@)[g as int][0] < domains@.len());
        }
        let group = &groups[g];
        let place: usize = group[0];
        items.push((domains[place].clone(), ids[place]));
        g = g + 1;
    }
    assert(id_pairs(items@) =~= domain_pairs(names, groups_view(groups@)));
    items
}

} // verus!
