//! What the outcome of visits to URLs changes.

use crate::digest::{text_id, Id};
use crate::discovery::known_url;
use crate::grouping::{
    groups_of, groups_view, last_of, lemma_last_of_groups, names_of, order_of, well_grouped,
};
use crate::id_table::{id_pairs, own_ids, IdPair};
use crate::job::{JobResponse, UrlResponse};
use crate::redirect_db::{latest, Redirect};
use crate::url_state::{UrlState, UrlStates, UrlStatus};
use crate::url_state_db::StateMap;
use crate::web_url::{domain_of, AsId, Domain, Url};
use vstd::prelude::*;

verus! {

broadcast use {vstd::std_specs::btree::group_btree_axioms, vstd::laws_cmp::group_laws_cmp};

/// What became of a visit.
pub enum Outcome {
    Done,
    Failed { status_code: Option<u16> },
    Redirected { to: Seq<char> },
}

/// A visit to a URL.
pub struct Visit {
    pub url: Seq<char>,
    pub outcome: Outcome,
}

/// The visit that a response tells of.
pub open spec fn visit_of(response: UrlResponse) -> Visit {
    match response {
        UrlResponse::Success { url } => Visit {
            url: url@,
            outcome: Outcome::Done,
        },
        UrlResponse::Failed { url, status_code } => Visit {
            url: url@,
            outcome: Outcome::Failed { status_code },
        },
        UrlResponse::Redirected { url, new_url } => Visit {
            url: url@,
            outcome: Outcome::Redirected { to: new_url@ },
        },
    }
}

/// The visits that one job made.
pub open spec fn visits_of(response: JobResponse) -> Seq<Visit> {
    response.url_responses@.map_values(|response: UrlResponse| visit_of(response))
}

/// The visits that a list of jobs made.
pub open spec fn visits(responses: Seq<JobResponse>) -> Seq<Visit>
    decreases responses.len(),
{
    if responses.len() == 0 {
        Seq::empty()
    } else {
        visits(responses.drop_last()) + visits_of(responses.last())
    }
}

/// The names of the domains of visited URLs.
pub open spec fn visited_domains(made: Seq<Visit>) -> Seq<Seq<char>> {
    made.map_values(|visit: Visit| domain_of(visit.url))
}

/// The URLs that a visit tells of, with their identifiers.
pub open spec fn visit_pairs(visit: Visit) -> Seq<IdPair> {
    match visit.outcome {
        Outcome::Redirected { to } => seq![(visit.url, text_id(visit.url)), (to, text_id(to))],
        _ => seq![(visit.url, text_id(visit.url))],
    }
}

/// The URLs that visits tell of, with their identifiers, in the given order of visits.
pub open spec fn visited_pairs(made: Seq<Visit>, order: Seq<usize>) -> Seq<IdPair>
    decreases order.len(),
{
    if order.len() == 0 {
        Seq::empty()
    } else {
        visited_pairs(made, order.drop_last()) + visit_pairs(made[order.last() as int])
    }
}

/// The redirects that visits met, in the given order of visits.
pub open spec fn redirects_met(made: Seq<Visit>, order: Seq<usize>) -> Seq<Redirect>
    decreases order.len(),
{
    if order.len() == 0 {
        Seq::empty()
    } else {
        let visit = made[order.last() as int];
        let earlier = redirects_met(made, order.drop_last());
        match visit.outcome {
            Outcome::Redirected { to } => earlier.push((visit.url, to)),
            _ => earlier,
        }
    }
}

/// The status that a visit leaves its URL with. A redirect leaves it as it is.
pub open spec fn new_status(outcome: Outcome) -> Option<UrlStatus> {
    match outcome {
        Outcome::Done => Some(UrlStatus::Done),
        Outcome::Failed { status_code } => Some(UrlStatus::Failed { status_code }),
        Outcome::Redirected { to } => None,
    }
}

/// The status that a visit leaves the given URL with, if it settles that URL.
pub open spec fn settled(visit: Visit, domain: Id, url: Id) -> Option<UrlStatus> {
    if text_id(domain_of(visit.url)) == domain && text_id(visit.url) == url {
        new_status(visit.outcome)
    } else {
        None
    }
}

/// The status that the last of the visits to settle the given URL leaves it with.
pub open spec fn last_settled(
    made: Seq<Visit>,
    order: Seq<usize>,
    domain: Id,
    url: Id,
) -> Option<UrlStatus>
    decreases order.len(),
{
    if order.len() == 0 {
        None
    } else {
        match settled(made[order.last() as int], domain, url) {
            Some(status) => Some(status),
            None => last_settled(made, order.drop_last(), domain, url),
        }
    }
}

/// How visits change the states of the URLs of a domain: a URL that is settled is known from then
/// on and has the status that it was last settled with.
pub open spec fn states_after_visits(
    made: Seq<Visit>,
    order: Seq<usize>,
    domain: Id,
    before: StateMap,
    after: StateMap,
) -> bool {
    &&& forall|url: Id| #[trigger]
        after.contains_key(url) <==> before.contains_key(url) || last_settled(
            made,
            order,
            domain,
            url,
        ) is Some
    &&& forall|url: Id| #[trigger]
        after.contains_key(url) ==> after[url] == (UrlState {
            weight: known_url(before, url).weight,
            status: match last_settled(made, order, domain, url) {
                Some(status) => status,
                None => before[url].status,
            },
        })
}

/// One of the visits, in the given order, was to a URL of the domain.
pub open spec fn visited(made: Seq<Visit>, order: Seq<usize>, domain: Id) -> bool {
    exists|k: int|
        0 <= k < order.len() && text_id(domain_of(made[#[trigger] order[k] as int].url)) == domain
}

/// Responses seen as visits.
pub open spec fn visits_view(responses: Seq<&UrlResponse>) -> Seq<Visit> {
    responses.map_values(|response: &UrlResponse| visit_of(*response))
}

/// Lists what a list of jobs visited: the responses, the domains of their URLs, and the
/// identifiers of those.
pub(crate) fn list_visits<'a>(job_responses: &'a Vec<JobResponse>) -> (lists: (
    Vec<&'a UrlResponse>,
    Vec<Domain>,
    Vec<Id>,
))
    ensures
        lists.0@.len() == lists.1@.len(),
        lists.1@.len() == lists.2@.len(),
        visits_view(lists.0@) == visits(job_responses@),
        names_of(lists.1@) == visited_domains(visits(job_responses@)),
        forall|i: int| 0 <= i < lists.2@.len() ==> #[trigger] lists.2@[i] == text_id(lists.1@[i]@),
{
    let mut responses: Vec<&'a UrlResponse> = Vec::new();
    let mut domains: Vec<Domain> = Vec::new();
    let mut ids: Vec<Id> = Vec::new();
    let mut r: usize = 0;
    proof {
        assert(job_responses@.take(0) =~= Seq::empty());
        assert(visits_view(responses@) =~= Seq::empty());
    }
    while r < job_responses.len()
        invariant
            r <= job_responses@.len(),
            responses@.len() == domains@.len(),
            domains@.len() == ids@.len(),
            visits_view(responses@) == visits(job_responses@.take(r as int)),
            forall|i: int|
                0 <= i < domains@.len() ==> (#[trigger] domains@[i])@ == domain_of(
                    visit_of(*responses@[i]).url,
                ),
            forall|i: int| 0 <= i < ids@.len() ==> #[trigger] ids@[i] == text_id(domains@[i]@),
        decreases job_responses@.len() - r,
    {
        let job_response = &job_responses[r];
        let ghost earlier = visits(job_responses@.take(r as int));
        let ghost own = visits_of(*job_response);
        let mut u: usize = 0;
        proof {
            assert(earlier + own.take(0) =~= earlier);
        }
        while u < job_response.url_responses.len()
            invariant
                u <= job_response.url_responses@.len(),
                own == visits_of(*job_response),
                responses@.len() == domains@.len(),
                domains@.len() == ids@.len(),
                visits_view(responses@) == earlier + own.take(u as int),
                forall|i: int|
                    0 <= i < domains@.len() ==> (#[trigger] domains@[i])@ == domain_of(
                        visit_of(*responses@[i]).url,
                    ),
                forall|i: int| 0 <= i < ids@.len() ==> #[trigger] ids@[i] == text_id(domains@[i]@),
            decreases job_response.url_responses@.len() - u,
        {
            let response = &job_response.url_responses[u];
            let domain = Domain::of(response.url());
            let ghost before = responses@;
            ids.push(domain.as_id());
            responses.push(response);
            domains.push(domain);
            proof {
                assert(own[u as int] == visit_of(*response));
                assert(visits_view(responses@) =~= visits_view(before).push(own[u as int]));
                assert(earlier + own.take(u + 1) =~= (earlier + own.take(u as int)).push(
                    own[u as int],
                ));
            }
            u = u + 1;
        }
        proof {
            assert(own.take(u as int) =~= own);
            assert(job_responses@.take(r + 1).drop_last() =~= job_responses@.take(r as int));
            assert(job_responses@.take(r + 1).last() == *job_response);
        }
        r = r + 1;
    }
    proof {
        assert(job_responses@.take(r as int) =~= job_responses@);
        assert(visits_view(responses@).len() == responses@.len());
        assert(names_of(domains@) =~= visited_domains(visits_view(responses@)));
    }
    (responses, domains, ids)
}

/// The URLs that the responses tell of, with their identifiers, group by group.
pub(crate) fn urls_of_visits(
    responses: &Vec<&UrlResponse>,
    domains: &Vec<Domain>,
    groups: &Vec<Vec<usize>>,
) -> (items: Vec<(Url, Id)>)
    requires
        responses@.len() == domains@.len(),
        well_grouped(groups_view(groups@), names_of(domains@), domains@.len() as int),
    ensures
        id_pairs(items@) == visited_pairs(
            visits_view(responses@),
            order_of(groups_view(groups@)),
        ),
{
    let ghost made = visits_view(responses@);
    let ghost all = groups_view(groups@);
    let mut items: Vec<(Url, Id)> = Vec::new();
    let mut g: usize = 0;
    proof {
        assert(all.take(0) =~= Seq::empty());
        assert(id_pairs(items@) =~= visited_pairs(made, order_of(all.take(0))));
    }
    while g < groups.len()
        invariant
            g <= groups@.len(),
            responses@.len() == domains@.len(),
            made == visits_view(responses@),
            all == groups_view(groups@),
            well_grouped(all, names_of(domains@), domains@.len() as int),
            id_pairs(items@) == visited_pairs(made, order_of(all.take(g as int))),
        decreases groups@.len() - g,
    {
        let group = &groups[g];
        let ghost earlier = order_of(all.take(g as int));
        let mut k: usize = 0;
        proof {
            assert(all[g as int] == group@);
            assert(earlier + group@.take(0) =~= earlier);
        }
        while k < group.len()
            invariant
                k <= group@.len(),
                g < all.len(),
                group@ == all[g as int],
                responses@.len() == domains@.len(),
                made == visits_view(responses@),
                well_grouped(all, names_of(domains@), domains@.len() as int),
                id_pairs(items@) == visited_pairs(made, earlier + group@.take(k as int)),
            decreases group@.len() - k,
        {
            proof {
                assert(all[g as int][k as int] < domains@.len());
            }
            let place: usize = group[k];
            let ghost before = items@;
            let response = responses[place];
            let ghost next = (earlier + group@.take(k as int)).push(place);
            proof {
                assert(earlier + group@.take(k + 1) =~= next);
                assert(next.drop_last() =~= earlier + group@.take(k as int));
                assert(made[place as int] == visit_of(*response));
            }
            let url = response.url();
            items.push((url.clone(), url.as_id()));
            if let UrlResponse::Redirected { url: _, new_url } = response {
                items.push((new_url.clone(), new_url.as_id()));
            }
            proof {
                assert(id_pairs(items@) =~= id_pairs(before) + visit_pairs(made[place as int]));
            }
            k = k + 1;
        }
        proof {
            assert(group@.take(k as int) =~= group@);
            assert(all.take(g + 1).drop_last() =~= all.take(g as int));
            assert(all.take(g + 1).last() == group@);
        }
        g = g + 1;
    }
    proof {
        assert(all.take(g as int) =~= all);
    }
    items
}

/// Settles a URL with a status. A URL that was not known has no weight.
pub fn settle(url_states: &mut UrlStates, url_id: Id, status: UrlStatus)
    ensures
        final(url_states)@ == old(url_states)@.insert(
            url_id,
            UrlState { weight: known_url(old(url_states)@, url_id).weight, status },
        ),
        final(url_states)@.contains_key(url_id),
        final(url_states)@[url_id].status == status,
        final(url_states)@[url_id].weight == (if old(url_states)@.contains_key(url_id) {
            old(url_states)@[url_id].weight
        } else {
            0
        }),
{
    let weight: u64 = match url_states.get(&url_id) {
        Some(state) => state.weight,
        None => 0,
    };
    url_states.insert(url_id, UrlState { weight, status });
}

/// Visits to URLs of other domains settle nothing in a domain.
pub proof fn lemma_settled_elsewhere(
    made: Seq<Visit>,
    order: Seq<usize>,
    more: Seq<usize>,
    domain: Id,
    url: Id,
)
    requires
        forall|k: int|
            0 <= k < more.len() ==> text_id(domain_of(made[#[trigger] more[k] as int].url))
                != domain,
    ensures
        last_settled(made, order + more, domain, url) == last_settled(made, order, domain, url),
    decreases more.len(),
{
    if more.len() == 0 {
        assert(order + more =~= order);
    } else {
        let fewer = more.drop_last();
        assert forall|k: int| 0 <= k < fewer.len() implies text_id(
            domain_of(made[#[trigger] fewer[k] as int].url),
        ) != domain by {
            assert(fewer[k] == more[k]);
        }
        lemma_settled_elsewhere(made, order, fewer, domain, url);
        assert((order + more).drop_last() =~= order + fewer);
        assert((order + more).last() == more[more.len() - 1]);
    }
}

/// A URL is settled only by a visit to it.
pub proof fn lemma_settled_was_visited(made: Seq<Visit>, order: Seq<usize>, domain: Id, url: Id)
    requires
        last_settled(made, order, domain, url) is Some,
    ensures
        exists|k: int|
            0 <= k < order.len() && text_id(made[#[trigger] order[k] as int].url) == url,
    decreases order.len(),
{
    let last = order.len() - 1;
    if settled(made[order.last() as int], domain, url) is Some {
        assert(text_id(made[order[last] as int].url) == url);
    } else {
        let front = order.drop_last();
        lemma_settled_was_visited(made, front, domain, url);
        let k = choose|k: int|
            0 <= k < front.len() && text_id(made[#[trigger] front[k] as int].url) == url;
        assert(order[k] == front[k]);
    }
}

/// One more visit settles a URL, or leaves the states as they are.
pub proof fn lemma_visit_noted(
    made: Seq<Visit>,
    order: Seq<usize>,
    place: usize,
    domain: Id,
    start: StateMap,
    before: StateMap,
    after: StateMap,
)
    requires
        states_after_visits(made, order, domain, start, before),
        text_id(domain_of(made[place as int].url)) == domain,
        match new_status(made[place as int].outcome) {
            Some(status) => {
                let url = text_id(made[place as int].url);
                after == before.insert(
                    url,
                    UrlState { weight: known_url(before, url).weight, status },
                )
            },
            None => after == before,
        },
    ensures
        states_after_visits(made, order.push(place), domain, start, after),
{
    let next = order.push(place);
    assert(next.drop_last() =~= order);
    assert forall|url: Id| #[trigger]
        last_settled(made, next, domain, url) == match settled(made[place as int], domain, url) {
            Some(status) => Some(status),
            None => last_settled(made, order, domain, url),
        } by {}
    assert forall|url: Id| #[trigger] after.contains_key(url) implies after[url] == (UrlState {
        weight: known_url(start, url).weight,
        status: match last_settled(made, next, domain, url) {
            Some(status) => status,
            None => start[url].status,
        },
    }) by {
        if before.contains_key(url) {
            assert(before[url].weight == known_url(start, url).weight);
        }
    }
}

/// All pairs that visits tell of are of a URL and its own identifier, and the URL of each visit
/// is among them.
pub proof fn lemma_visited_pairs(made: Seq<Visit>, order: Seq<usize>)
    ensures
        own_ids(visited_pairs(made, order)),
        forall|k: int|
            0 <= k < order.len() ==> visited_pairs(made, order).contains(
                (
                    made[#[trigger] order[k] as int].url,
                    text_id(made[order[k] as int].url),
                ),
            ),
    decreases order.len(),
{
    if order.len() > 0 {
        let front = order.drop_last();
        lemma_visited_pairs(made, front);
        let visit = made[order.last() as int];
        let earlier = visited_pairs(made, front);
        let all = visited_pairs(made, order);
        assert forall|k: int| 0 <= k < order.len() implies all.contains(
            (made[#[trigger] order[k] as int].url, text_id(made[order[k] as int].url)),
        ) by {
            let pair = (made[order[k] as int].url, text_id(made[order[k] as int].url));
            if k < front.len() {
                assert(front[k] == order[k]);
                let i = earlier.index_of(pair);
                assert(all[i] == pair);
            } else {
                assert(all[earlier.len() as int] == pair);
            }
        }
        assert forall|i: int| 0 <= i < all.len() implies (#[trigger] all[i]).1 == text_id(
            all[i].0,
        ) by {
            if i < earlier.len() {
                assert(all[i] == earlier[i]);
            } else {
                assert(all[i] == visit_pairs(visit)[i - earlier.len()]);
            }
        }
    }
}

/// The visit at `i` is to the given URL and settles it.
pub open spec fn settles(made: Seq<Visit>, i: int, url: Seq<char>) -> bool {
    0 <= i < made.len() && made[i].url == url && new_status(made[i].outcome) is Some
}

/// The visit at `i` is the last one to settle the given URL.
pub open spec fn settles_last(made: Seq<Visit>, i: int, url: Seq<char>) -> bool {
    settles(made, i, url) && forall|j: int| i < j ==> !#[trigger] settles(made, j, url)
}

/// The visit at `i` is to the given URL and is redirected.
pub open spec fn redirects(made: Seq<Visit>, i: int, url: Seq<char>) -> bool {
    0 <= i < made.len() && made[i].url == url && made[i].outcome is Redirected
}

/// The visit at `i` is the last one to the given URL that is redirected.
pub open spec fn redirects_last(made: Seq<Visit>, i: int, url: Seq<char>) -> bool {
    redirects(made, i, url) && forall|j: int| i < j ==> !#[trigger] redirects(made, j, url)
}

/// The order in which visits are noted: domain by domain.
pub open spec fn noting_order(made: Seq<Visit>) -> Seq<usize> {
    order_of(groups_of(visited_domains(made)))
}

/// The last visit wins: a URL is left with the status that the last of the visits to settle it
/// gives it, in the order in which the visits were made. A URL that no visit settles is left as
/// it is. This holds of a URL whose identifier no other visited URL has.
pub proof fn law_last_visit_wins(made: Seq<Visit>, url: Seq<char>)
    requires
        made.len() <= usize::MAX,
        forall|i: int|
            0 <= i < made.len() && text_id((#[trigger] made[i]).url) == text_id(url)
                ==> made[i].url == url,
    ensures
        forall|i: int| #[trigger]
            settles_last(made, i, url) ==> last_settled(
                made,
                noting_order(made),
                text_id(domain_of(url)),
                text_id(url),
            ) == new_status(made[i].outcome),
        (forall|i: int| !#[trigger] settles(made, i, url)) ==> last_settled(
            made,
            noting_order(made),
            text_id(domain_of(url)),
            text_id(url),
        ) is None,
{
    let domain = text_id(domain_of(url));
    let id = text_id(url);
    let names = visited_domains(made);
    let value = |place: usize| settled(made[place as int], domain, id);
    lemma_last_settled_is_last(made, noting_order(made), domain, id, value);
    assert forall|place: usize| place < made.len() implies #[trigger] value(place) == (if settles(
        made,
        place as int,
        url,
    ) {
        new_status(made[place as int].outcome)
    } else {
        None
    }) by {
        assert(text_id(made[place as int].url) == id ==> made[place as int].url == url);
    }
    lemma_last_of_groups(names, domain_of(url), value);
    assert forall|i: int| #[trigger] settles_last(made, i, url) implies last_settled(
        made,
        noting_order(made),
        domain,
        id,
    ) == new_status(made[i].outcome) by {
        let place = i as usize;
        assert(value(place) is Some);
        assert forall|later: usize| place < later < names.len() implies (#[trigger] value(
            later,
        )) is None by {
            assert(!settles(made, later as int, url));
        }
    }
    if forall|i: int| !#[trigger] settles(made, i, url) {
        assert forall|place: usize| place < names.len() implies (#[trigger] value(
            place,
        )) is None by {
            assert(!settles(made, place as int, url));
        }
    }
}

proof fn lemma_last_settled_is_last(
    made: Seq<Visit>,
    order: Seq<usize>,
    domain: Id,
    url: Id,
    value: spec_fn(usize) -> Option<UrlStatus>,
)
    requires
        value == (|place: usize| settled(made[place as int], domain, url)),
    ensures
        last_settled(made, order, domain, url) == last_of(order, value),
    decreases order.len(),
{
    if order.len() > 0 {
        lemma_last_settled_is_last(made, order.drop_last(), domain, url, value);
    }
}

/// The last redirect wins: a URL leads where the last of the visits to it that was redirected
/// led, in the order in which the visits were made. Of a URL from which no visit was redirected
/// nothing is noted.
pub proof fn law_last_redirect_wins(made: Seq<Visit>, url: Seq<char>)
    requires
        made.len() <= usize::MAX,
    ensures
        forall|i: int| #[trigger]
            redirects_last(made, i, url) ==> latest(redirects_met(made, noting_order(made)), url)
                == Some(made[i].outcome->to),
        (forall|i: int| !#[trigger] redirects(made, i, url)) ==> latest(
            redirects_met(made, noting_order(made)),
            url,
        ) is None,
{
    let names = visited_domains(made);
    let value = |place: usize| led_to(made[place as int], url);
    lemma_latest_is_last(made, noting_order(made), url, value);
    lemma_last_of_groups(names, domain_of(url), value);
    assert forall|i: int| #[trigger] redirects_last(made, i, url) implies latest(
        redirects_met(made, noting_order(made)),
        url,
    ) == Some(made[i].outcome->to) by {
        let place = i as usize;
        assert(value(place) is Some);
        assert forall|later: usize| place < later < names.len() implies (#[trigger] value(
            later,
        )) is None by {
            assert(!redirects(made, later as int, url));
        }
    }
    if forall|i: int| !#[trigger] redirects(made, i, url) {
        assert forall|place: usize| place < names.len() implies (#[trigger] value(
            place,
        )) is None by {
            assert(!redirects(made, place as int, url));
        }
    }
}

/// Where a visit to the given URL led instead.
pub open spec fn led_to(visit: Visit, url: Seq<char>) -> Option<Seq<char>> {
    match visit.outcome {
        Outcome::Redirected { to } => if visit.url == url {
            Some(to)
        } else {
            None
        },
        _ => None,
    }
}

proof fn lemma_latest_is_last(
    made: Seq<Visit>,
    order: Seq<usize>,
    url: Seq<char>,
    value: spec_fn(usize) -> Option<Seq<char>>,
)
    requires
        value == (|place: usize| led_to(made[place as int], url)),
    ensures
        latest(redirects_met(made, order), url) == last_of(order, value),
    decreases order.len(),
{
    if order.len() > 0 {
        let earlier = redirects_met(made, order.drop_last());
        lemma_latest_is_last(made, order.drop_last(), url, value);
        if let Outcome::Redirected { to } = made[order.last() as int].outcome {
            let next = (made[order.last() as int].url, to);
            assert(earlier.push(next).drop_last() =~= earlier);
        }
    }
}

} // verus!
