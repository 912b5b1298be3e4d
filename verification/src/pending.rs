//! What waits to be crawled, and samples of it.

use crate::digest::Id;
use crate::keys::{lists_keys, sorted_keys};
use crate::sample::{drawn, is_lowest_sample, is_weighted_sample, sample_size, weights_of};
use crate::url_state::{DomainState, DomainStatus, UrlState, UrlStates, UrlStatus};
use crate::url_state_db::StateMap;
use std::collections::BTreeMap;
use vstd::prelude::*;

verus! {

broadcast use {vstd::std_specs::btree::group_btree_axioms, vstd::laws_cmp::group_laws_cmp};

/// What can wait to be crawled.
pub trait Waiting: Sized {
    /// Whether it waits.
    spec fn waits(self) -> bool;

    /// How much it weighs.
    spec fn weighs(self) -> u64;

    /// How much it weighs, if it waits.
    fn waiting_weight(&self) -> (weight: Option<u64>)
        ensures
            weight == (if self.waits() {
                Some(self.weighs())
            } else {
                None
            }),
    ;
}

impl Waiting for UrlState {
    open spec fn waits(self) -> bool {
        self.status == UrlStatus::Pending
    }

    open spec fn weighs(self) -> u64 {
        self.weight
    }

    fn waiting_weight(&self) -> Option<u64> {
        if self.status == UrlStatus::Pending {
            Some(self.weight)
        } else {
            None
        }
    }
}

impl Waiting for DomainState {
    open spec fn waits(self) -> bool {
        self.status == DomainStatus::Pending
    }

    open spec fn weighs(self) -> u64 {
        self.weight
    }

    fn waiting_weight(&self) -> Option<u64> {
        if self.status == DomainStatus::Pending {
            Some(self.weight)
        } else {
            None
        }
    }
}

/// The weights of what waits.
pub open spec fn waiting_weights<S: Waiting>(states: Map<Id, S>) -> Map<Id, u64> {
    Map::new(
        |id: Id| states.contains_key(id) && states[id].waits(),
        |id: Id| states[id].weighs(),
    )
}

/// The weights of the URLs that are pending.
pub open spec fn pending_urls(states: StateMap) -> Map<Id, u64> {
    waiting_weights(states)
}

/// The weights of the domains that are pending.
pub open spec fn pending_domains(states: Map<Id, DomainState>) -> Map<Id, u64> {
    waiting_weights(states)
}

/// The item at `i` has the given identifier.
pub open spec fn item_is(items: Seq<(Id, u64)>, i: int, id: Id) -> bool {
    0 <= i < items.len() && items[i].0 == id
}

/// `items` lists identifiers and their weights in rising order.
pub open spec fn lists_weights(items: Seq<(Id, u64)>, weights: Map<Id, u64>) -> bool {
    &&& forall|i: int, j: int|
        0 <= i < j < items.len() ==> (#[trigger] items[i]).0 < (#[trigger] items[j]).0
    &&& forall|i: int|
        0 <= i < items.len() ==> weights.contains_key((#[trigger] items[i]).0)
            && weights[items[i].0] == items[i].1
    &&& forall|id: Id| #[trigger] weights.contains_key(id) ==> exists|i: int| item_is(items, i, id)
}

/// `sampled` is what a sample of `wanted` of the weighted identifiers can be.
pub open spec fn is_sample_of<F: Fn(u64) -> u64>(
    weights: Map<Id, u64>,
    wanted: nat,
    draw: F,
    sampled: Seq<Id>,
) -> bool {
    exists|items: Seq<(Id, u64)>| #[trigger]
        lists_weights(items, weights) && is_weighted_sample(items, wanted, draw, sampled)
}

/// A sample holds as many identifiers as are wanted, or all if there are fewer; no identifier
/// occurs twice, and each of them is one of those to sample from.
pub proof fn law_sample_is_part<F: Fn(u64) -> u64>(
    weights: Map<Id, u64>,
    wanted: nat,
    draw: F,
    sampled: Seq<Id>,
)
    requires
        is_sample_of(weights, wanted, draw, sampled),
    ensures
        weights.dom().finite(),
        sampled.len() == sample_size(weights.len(), wanted),
        sampled.no_duplicates(),
        forall|i: int| 0 <= i < sampled.len() ==> weights.contains_key(#[trigger] sampled[i]),
{
    let items = choose|items: Seq<(Id, u64)>| #[trigger]
        lists_weights(items, weights) && is_weighted_sample(items, wanted, draw, sampled);
    let (priorities, picks) = choose|priorities: Seq<u64>, picks: Seq<usize>|
        {
            &&& #[trigger] drawn(draw, weights_of(items), priorities)
            &&& #[trigger] is_lowest_sample(picks, priorities, wanted)
            &&& sampled == picks.map_values(|pick: usize| items[pick as int].0)
        };
    let ids = items.map_values(|item: (Id, u64)| item.0);
    assert(ids.no_duplicates()) by {
        assert forall|i: int, j: int| 0 <= i < j < ids.len() implies ids[i] != ids[j] by {
            assert(items[i].0 < items[j].0);
        }
    }
    assert(ids.to_set() =~= weights.dom()) by {
        assert forall|id: Id| ids.to_set().contains(id) <==> weights.dom().contains(id) by {
            if ids.contains(id) {
                let i = ids.index_of(id);
                assert(weights.contains_key(items[i].0));
            }
            if weights.contains_key(id) {
                let i = choose|i: int| item_is(items, i, id);
                assert(ids[i] == id);
            }
        }
    }
    ids.unique_seq_to_set();
    vstd::seq_lib::seq_to_set_is_finite(ids);
    assert forall|i: int| 0 <= i < sampled.len() implies weights.contains_key(
        #[trigger] sampled[i],
    ) by {
        assert(picks[i] < priorities.len());
        assert(weights.contains_key(items[picks[i] as int].0));
    }
    assert forall|i: int, j: int| 0 <= i < j < sampled.len() implies sampled[i] != sampled[j] by {
        assert(picks[i] != picks[j]);
        assert(picks[i] < priorities.len() && picks[j] < priorities.len());
        assert(ids[picks[i] as int] != ids[picks[j] as int]);
    }
}

/// Lists what waits, with its weight.
pub(crate) fn list_waiting<S: Waiting>(states: &BTreeMap<u128, S>) -> (items: Vec<(Id, u64)>)
    ensures
        lists_weights(items@, waiting_weights(states@)),
{
    let keys = sorted_keys(states);
    let ghost weights = waiting_weights(states@);
    let mut items: Vec<(Id, u64)> = Vec::new();
    let mut k: usize = 0;
    while k < keys.len()
        invariant
            k <= keys@.len(),
            lists_keys(keys@, states@),
            weights == waiting_weights(states@),
            forall|i: int, j: int|
                0 <= i < j < items@.len() ==> (#[trigger] items@[i]).0 < (#[trigger] items@[j]).0,
            forall|i: int|
                0 <= i < items@.len() ==> weights.contains_key((#[trigger] items@[i]).0)
                    && weights[items@[i].0] == items@[i].1,
            forall|i: int, l: int|
                0 <= i < items@.len() && k <= l < keys@.len() ==> (#[trigger] items@[i]).0
                    < #[trigger] keys@[l],
            forall|l: int|
                0 <= l < k && weights.contains_key(#[trigger] keys@[l]) ==> exists|i: int|
                    item_is(items@, i, keys@[l]),
        decreases keys@.len() - k,
    {
        let id: Id = keys[k];
        let ghost before = items@;
        proof {
            assert(keys@.contains(keys@[k as int]));
        }
        if let Some(state) = states.get(&id) {
            if let Some(weight) = state.waiting_weight() {
                items.push((id, weight));
            }
        }
        proof {
            assert forall|l: int|
                0 <= l < k + 1 && weights.contains_key(#[trigger] keys@[l]) implies exists|i: int|
                item_is(items@, i, keys@[l]) by {
                if l < k {
                    let i = choose|i: int| item_is(before, i, keys@[l]);
                    assert(item_is(items@, i, keys@[l]));
                } else {
                    assert(item_is(items@, before.len() as int, keys@[l]));
                }
            }
        }
        k = k + 1;
    }
    proof {
        assert forall|id: Id| #[trigger] weights.contains_key(id) implies exists|i: int|
            item_is(items@, i, id) by {
            assert(states@.contains_key(id));
            let l = keys@.index_of(id);
            assert(weights.contains_key(keys@[l]));
        }
    }
    items
}

/// `weight` is the largest of the weights, or nothing if there are none.
pub open spec fn is_heaviest(weights: Map<Id, u64>, weight: u64) -> bool {
    &&& forall|id: Id| #[trigger] weights.contains_key(id) ==> weights[id] <= weight
    &&& weight == 0 || exists|id: Id| #[trigger] weights.contains_key(id) && weights[id] == weight
}

/// The weight of the heaviest URL that is pending, or nothing if there is none.
pub fn heaviest_pending(states: &UrlStates) -> (weight: u64)
    ensures
        is_heaviest(pending_urls(states@), weight),
        forall|url: Id|
            states@.contains_key(url) && (#[trigger] states@[url]).status == UrlStatus::Pending
                ==> states@[url].weight <= weight,
        weight == 0 || exists|url: Id|
            {
                &&& states@.contains_key(url)
                &&& (#[trigger] states@[url]).status == UrlStatus::Pending
                &&& states@[url].weight == weight
            },
{
    let items = list_waiting(states);
    let ghost weights = pending_urls(states@);
    let mut weight: u64 = 0;
    let mut k: usize = 0;
    while k < items.len()
        invariant
            k <= items@.len(),
            lists_weights(items@, weights),
            forall|i: int| 0 <= i < k ==> (#[trigger] items@[i]).1 <= weight,
            weight == 0 || exists|id: Id| #[trigger]
                weights.contains_key(id) && weights[id] == weight,
        decreases items@.len() - k,
    {
        if items[k].1 > weight {
            weight = items[k].1;
            proof {
                assert(weights.contains_key(items@[k as int].0));
            }
        }
        k = k + 1;
    }
    proof {
        assert forall|id: Id| #[trigger] weights.contains_key(id) implies weights[id] <= weight by {
            let i = choose|i: int| item_is(items@, i, id);
            assert(weights[items@[i].0] == items@[i].1);
        }
        assert forall|url: Id|
            states@.contains_key(url) && (#[trigger] states@[url]).status
                == UrlStatus::Pending implies states@[url].weight <= weight by {
            assert(weights.contains_key(url));
        }
        if weight != 0 {
            let url = choose|url: Id| #[trigger]
                weights.contains_key(url) && weights[url] == weight;
            assert(states@[url].weight == weight);
        }
    }
    weight
}

/// The states after each of the listed URLs has begun to be crawled.
pub open spec fn crawling(states: StateMap, sampled: Seq<Id>) -> StateMap {
    Map::new(
        |url: Id| states.contains_key(url),
        |url: Id|
            if sampled.contains(url) {
                UrlState { status: UrlStatus::Crawling, ..states[url] }
            } else {
                states[url]
            },
    )
}

/// Marks each of the listed URLs as being crawled.
pub fn start_crawling(states: &mut UrlStates, sampled: &Vec<Id>)
    ensures
        final(states)@ == crawling(old(states)@, sampled@),
        final(states)@.dom() == old(states)@.dom(),
        forall|url: Id| #[trigger]
            old(states)@.contains_key(url) ==> {
                &&& final(states)@[url].weight == old(states)@[url].weight
                &&& final(states)@[url].status == (if sampled@.contains(url) {
                    UrlStatus::Crawling
                } else {
                    old(states)@[url].status
                })
            },
{
    let mut k: usize = 0;
    proof {
        assert(sampled@.take(0) =~= Seq::<Id>::empty());
        assert(states@ =~= crawling(old(states)@, sampled@.take(0)));
    }
    while k < sampled.len()
        invariant
            k <= sampled@.len(),
            states@ == crawling(old(states)@, sampled@.take(k as int)),
        decreases sampled@.len() - k,
    {
        let id: Id = sampled[k];
        let ghost earlier = sampled@.take(k as int);
        let ghost now = sampled@.take(k + 1);
        proof {
            assert(now =~= earlier.push(id));
            assert forall|url: Id| now.contains(url) <==> earlier.contains(url) || url == id by {
                if earlier.contains(url) {
                    let i = earlier.index_of(url);
                    assert(now[i] == url);
                }
                assert(now[k as int] == id);
            }
        }
        let known: Option<UrlState> = match states.get(&id) {
            Some(state) => Some(*state),
            None => None,
        };
        if let Some(state) = known {
            states.insert(id, UrlState { weight: state.weight, status: UrlStatus::Crawling });
        }
        proof {
            assert(states@ =~= crawling(old(states)@, now));
        }
        k = k + 1;
    }
    proof {
        assert(sampled@.take(k as int) =~= sampled@);
        assert(states@.dom() =~= old(states)@.dom());
    }
}

/// What a sample of weighted identifiers is: as many as are wanted, or all if there are fewer, no
/// two the same, each of them one of those to sample from, and those whose priorities are lowest,
/// where every identifier draws its priority by its own weight.
pub proof fn law_sample_takes_the_lowest<F: Fn(u64) -> u64>(
    weights: Map<Id, u64>,
    wanted: nat,
    draw: F,
    sampled: Seq<Id>,
)
    requires
        is_sample_of(weights, wanted, draw, sampled),
    ensures
        weights.dom().finite(),
        sampled.len() == (if weights.dom().len() < wanted {
            weights.dom().len()
        } else {
            wanted
        }),
        forall|i: int, j: int|
            0 <= i < sampled.len() && 0 <= j < sampled.len() && #[trigger] sampled[i]
                == #[trigger] sampled[j] ==> i == j,
        forall|i: int| 0 <= i < sampled.len() ==> weights.contains_key(#[trigger] sampled[i]),
        weights.dom().len() <= wanted ==> forall|id: Id| #[trigger]
            weights.contains_key(id) ==> sampled.contains(id),
        exists|priorities: Map<Id, u64>|
            {
                &&& #[trigger] priorities.dom() == weights.dom()
                &&& forall|id: Id| #[trigger]
                    weights.contains_key(id) ==> call_ensures(
                        draw,
                        (weights[id],),
                        priorities[id],
                    )
                &&& forall|i: int, other: Id|
                    0 <= i < sampled.len() && #[trigger] weights.contains_key(other)
                        && !sampled.contains(other) ==> priorities[#[trigger] sampled[i]]
                        <= priorities[other]
            },
{
    law_sample_is_part(weights, wanted, draw, sampled);
    let items = choose|items: Seq<(Id, u64)>| #[trigger]
        lists_weights(items, weights) && is_weighted_sample(items, wanted, draw, sampled);
    let (drawn_list, picks) = choose|drawn_list: Seq<u64>, picks: Seq<usize>|
        {
            &&& #[trigger] drawn(draw, weights_of(items), drawn_list)
            &&& #[trigger] is_lowest_sample(picks, drawn_list, wanted)
            &&& sampled == picks.map_values(|pick: usize| items[pick as int].0)
        };
    let priorities = Map::new(
        |id: Id| weights.contains_key(id),
        |id: Id| drawn_list[choose|i: int| item_is(items, i, id)],
    );
    assert forall|i: int| 0 <= i < items.len() implies priorities[(#[trigger] items[i]).0]
        == drawn_list[i] by {
        assert(item_is(items, i, items[i].0));
        let k = choose|k: int| item_is(items, k, items[i].0);
        if k < i {
            assert(items[k].0 < items[i].0);
        } else if i < k {
            assert(items[i].0 < items[k].0);
        }
    }
    assert forall|id: Id| #[trigger] weights.contains_key(id) implies call_ensures(
        draw,
        (weights[id],),
        priorities[id],
    ) by {
        let i = choose|i: int| item_is(items, i, id);
        assert(weights[items[i].0] == items[i].1);
        assert(weights_of(items)[i] == items[i].1);
        assert(call_ensures(draw, (weights_of(items)[i],), drawn_list[i]));
    }
    assert(priorities.dom() =~= weights.dom());
    assert forall|i: int, other: Id|
        0 <= i < sampled.len() && #[trigger] weights.contains_key(other) && !sampled.contains(
            other,
        ) implies priorities[#[trigger] sampled[i]] <= priorities[other] by {
        let k = choose|k: int| item_is(items, k, other);
        let p = picks[i];
        assert(p < drawn_list.len());
        assert(sampled[i] == items[p as int].0);
        lemma_not_picked(items, picks, sampled, k, drawn_list, wanted, i);
    }
    if weights.dom().len() <= wanted {
        sampled.unique_seq_to_set();
        vstd::seq_lib::seq_to_set_is_finite(sampled);
        assert(sampled.to_set().subset_of(weights.dom())) by {
            assert forall|id: Id| sampled.to_set().contains(id) implies weights.dom().contains(
                id,
            ) by {
                let i = sampled.index_of(id);
                assert(weights.contains_key(sampled[i]));
            }
        }
        vstd::set_lib::lemma_subset_equality(sampled.to_set(), weights.dom());
        assert forall|id: Id| #[trigger] weights.contains_key(id) implies sampled.contains(id) by {
            assert(sampled.to_set().contains(id));
        }
    }
}

/// An item whose identifier was not sampled was not picked.
proof fn lemma_not_picked(
    items: Seq<(Id, u64)>,
    picks: Seq<usize>,
    sampled: Seq<Id>,
    k: int,
    priorities: Seq<u64>,
    wanted: nat,
    i: int,
)
    requires
        0 <= k < items.len(),
        priorities.len() == items.len(),
        is_lowest_sample(picks, priorities, wanted),
        sampled == picks.map_values(|pick: usize| items[pick as int].0),
        !sampled.contains(items[k].0),
        0 <= i < picks.len(),
        items.len() <= usize::MAX,
    ensures
        priorities[picks[i] as int] <= priorities[k],
{
    let place = k as usize;
    if picks.contains(place) {
        let j = picks.index_of(place);
        assert(sampled[j] == items[k].0);
    }
}

} // verus!
