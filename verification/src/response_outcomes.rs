//! What seeds and the responses of crawlers come to, told by the responses themselves and by the
//! states before and after.

use crate::crawl_db::{
    discovered_since, known_domain, seed_is, seeded, seeded_domain, seeded_since, touched,
    visited_since, CrawlDb,
};
use crate::crawl_laws::law_last_response_counts;
use crate::digest::{text_id, Id};
use crate::discovery::{
    concerns, discovered, discoveries, discoveries_of, discovery, everywhere, from_elsewhere,
    states_after_discovery, weight_after_discovery, Discovery,
};
use crate::grouping::lemma_order_is_complete;
use crate::job::{JobResponse, UrlResponse};
use crate::joined::{
    joined, lemma_as_many_origins, lemma_item_has_origin, lemma_item_is_kept, lemma_order_is_kept,
    place_of,
};
use crate::redirect_db::{law_last_redirect_is_latest, Redirect};
use crate::url_state::{DomainStatus, UrlStatus};
use crate::visits::{
    last_settled, law_last_visit_wins, noting_order, redirects, redirects_last, redirects_met,
    settled, settles, settles_last, states_after_visits, visit_of, visited, visited_domains,
    visits, visits_of, Visit,
};
use crate::web_url::domain_of;
use vstd::prelude::*;

verus! {

/// What each of the jobs discovered.
pub open spec fn discovery_lists(responses: Seq<JobResponse>) -> Seq<Seq<Discovery>> {
    responses.map_values(|response: JobResponse| discoveries_of(response))
}

proof fn lemma_discoveries_are_joined(responses: Seq<JobResponse>)
    ensures
        discoveries(responses) == joined(discovery_lists(responses)),
    decreases responses.len(),
{
    if responses.len() > 0 {
        lemma_discoveries_are_joined(responses.drop_last());
        assert(discovery_lists(responses).drop_last() =~= discovery_lists(responses.drop_last()));
    } else {
        assert(discovery_lists(responses) =~= Seq::empty());
    }
}

/// The item at `i` that the job at `r` discovered comes to stand at a place of its own.
pub proof fn lemma_discovery_at(responses: Seq<JobResponse>, r: int, i: int) -> (k: int)
    requires
        0 <= r < responses.len(),
        0 <= i < responses[r].discovered_urls@.len(),
    ensures
        k == place_of(discovery_lists(responses), r, i),
        0 <= k < discoveries(responses).len(),
        everywhere(discoveries(responses).len()).contains(k),
        discoveries(responses)[k] == discovery(
            responses[r].domain@,
            responses[r].discovered_urls@[i]@,
        ),
{
    lemma_discoveries_are_joined(responses);
    let lists = discovery_lists(responses);
    assert(lists[r] == discoveries_of(responses[r]));
    lemma_item_is_kept(lists, r, i);
    place_of(lists, r, i)
}

pub proof fn lemma_discovery_origin(responses: Seq<JobResponse>, k: int) -> (at: (int, int))
    requires
        0 <= k < discoveries(responses).len(),
    ensures
        0 <= at.0 < responses.len(),
        0 <= at.1 < responses[at.0].discovered_urls@.len(),
        place_of(discovery_lists(responses), at.0, at.1) == k,
        discoveries(responses)[k] == discovery(
            responses[at.0].domain@,
            responses[at.0].discovered_urls@[at.1]@,
        ),
{
    lemma_discoveries_are_joined(responses);
    let lists = discovery_lists(responses);
    let at = lemma_item_has_origin(lists, k);
    assert(lists[at.0] == discoveries_of(responses[at.0]));
    at
}

/// Discoveries and a URL: it is known afterwards if it was known before or if one of the
/// discovered URLs is that URL. Being discovered never changes the status of a known URL, and one
/// that was not known is pending. Its weight, which is nothing for a URL that was not known,
/// grows by one for every time that it is discovered by a job of another domain, up to the
/// largest weight.
pub proof fn law_discoveries_and_a_url(
    before: CrawlDb,
    after: CrawlDb,
    responses: Seq<JobResponse>,
    domain: Id,
    url: Id,
)
    requires
        discovered_since(
            before,
            after,
            discoveries(responses),
            everywhere(discoveries(responses).len()),
        ),
    ensures
        after.urls@.states(domain).contains_key(url) <==> before.urls@.states(domain).contains_key(
            url,
        ) || exists|r: int, i: int|
            {
                &&& 0 <= r < responses.len()
                &&& 0 <= i < responses[r].discovered_urls@.len()
                &&& text_id((#[trigger] responses[r].discovered_urls@[i])@) == url
                &&& text_id(domain_of(responses[r].discovered_urls@[i]@)) == domain
            },
        before.urls@.states(domain).contains_key(url) ==> after.urls@.states(domain)[url].status
            == before.urls@.states(domain)[url].status,
        after.urls@.states(domain).contains_key(url) && !before.urls@.states(domain).contains_key(
            url,
        ) ==> after.urls@.states(domain)[url].status == UrlStatus::Pending,
        after.urls@.states(domain).contains_key(url) ==> {
            let links = Set::new(
                |at: (int, int)|
                    {
                        &&& 0 <= at.0 < responses.len()
                        &&& 0 <= at.1 < responses[at.0].discovered_urls@.len()
                        &&& text_id(responses[at.0].discovered_urls@[at.1]@) == url
                        &&& text_id(domain_of(responses[at.0].discovered_urls@[at.1]@)) == domain
                        &&& responses[at.0].domain@ != domain_of(
                            responses[at.0].discovered_urls@[at.1]@,
                        )
                    },
            );
            let weight: int = if before.urls@.states(domain).contains_key(url) {
                before.urls@.states(domain)[url].weight as int
            } else {
                0
            };
            &&& links.finite()
            &&& after.urls@.states(domain)[url].weight == if weight >= 9_007_199_254_740_992 {
                weight
            } else if weight + links.len() >= 9_007_199_254_740_992 {
                9_007_199_254_740_992
            } else {
                weight + links.len()
            }
        },
{
    let found = discoveries(responses);
    let within = everywhere(found.len());
    let old_states = before.urls@.states(domain);
    let new_states = after.urls@.states(domain);
    assert(states_after_discovery(found, within, domain, old_states, new_states));
    assert(old_states.contains_key(url) ==> new_states.contains_key(url));
    if discovered(found, within, domain, url) {
        let k = choose|k: int|
            0 <= k < found.len() && within.contains(k) && concerns(#[trigger] found[k], domain, url);
        let at = lemma_discovery_origin(responses, k);
        assert(text_id(responses[at.0].discovered_urls@[at.1]@) == url);
    }
    if exists|r: int, i: int|
        {
            &&& 0 <= r < responses.len()
            &&& 0 <= i < responses[r].discovered_urls@.len()
            &&& text_id((#[trigger] responses[r].discovered_urls@[i])@) == url
            &&& text_id(domain_of(responses[r].discovered_urls@[i]@)) == domain
        } {
        let (r, i) = choose|r: int, i: int|
            {
                &&& 0 <= r < responses.len()
                &&& 0 <= i < responses[r].discovered_urls@.len()
                &&& text_id((#[trigger] responses[r].discovered_urls@[i])@) == url
                &&& text_id(domain_of(responses[r].discovered_urls@[i]@)) == domain
            };
        let k = lemma_discovery_at(responses, r, i);
        assert(concerns(found[k], domain, url));
        assert(discovered(found, within, domain, url));
    }
    let links = Set::new(
        |at: (int, int)|
            {
                &&& 0 <= at.0 < responses.len()
                &&& 0 <= at.1 < responses[at.0].discovered_urls@.len()
                &&& text_id(responses[at.0].discovered_urls@[at.1]@) == url
                &&& text_id(domain_of(responses[at.0].discovered_urls@[at.1]@)) == domain
                &&& responses[at.0].domain@ != domain_of(responses[at.0].discovered_urls@[at.1]@)
            },
    );
    let places = from_elsewhere(found, within, domain, url);
    lemma_discoveries_are_joined(responses);
    let lists = discovery_lists(responses);
    assert forall|at: (int, int)| #[trigger]
        links.contains(at) <==> 0 <= at.0 < lists.len() && 0 <= at.1 < lists[at.0].len()
            && places.contains(place_of(lists, at.0, at.1)) by {
        if 0 <= at.0 < responses.len() {
            assert(lists[at.0] == discoveries_of(responses[at.0]));
            if 0 <= at.1 < responses[at.0].discovered_urls@.len() {
                let k = lemma_discovery_at(responses, at.0, at.1);
            }
        }
    }
    lemma_as_many_origins(lists, places, links);
}

/// Discoveries and a domain: it is known afterwards if it was known before or if one of the
/// discovered URLs belongs to it. Its status stays, and is pending if it was not known. It
/// becomes as heavy as the heaviest of its discovered URLs, unless it was at least as heavy.
pub proof fn law_discoveries_and_a_domain(
    before: CrawlDb,
    after: CrawlDb,
    responses: Seq<JobResponse>,
    domain: Id,
)
    requires
        discovered_since(
            before,
            after,
            discoveries(responses),
            everywhere(discoveries(responses).len()),
        ),
    ensures
        after.domain_state@.contains_key(domain) <==> before.domain_state@.contains_key(domain)
            || exists|r: int, i: int|
            {
                &&& 0 <= r < responses.len()
                &&& 0 <= i < responses[r].discovered_urls@.len()
                &&& text_id(domain_of((#[trigger] responses[r].discovered_urls@[i])@)) == domain
            },
        before.domain_state@.contains_key(domain) ==> {
            &&& after.domain_state@[domain].status == before.domain_state@[domain].status
            &&& after.domain_state@[domain].weight >= before.domain_state@[domain].weight
        },
        after.domain_state@.contains_key(domain) && !before.domain_state@.contains_key(domain)
            ==> after.domain_state@[domain].status == DomainStatus::Pending,
        forall|r: int, i: int|
            {
                &&& 0 <= r < responses.len()
                &&& 0 <= i < responses[r].discovered_urls@.len()
                &&& text_id(domain_of((#[trigger] responses[r].discovered_urls@[i])@)) == domain
            } ==> after.urls@.states(domain)[text_id(
                responses[r].discovered_urls@[i]@,
            )].weight <= after.domain_state@[domain].weight,
        after.domain_state@.contains_key(domain) && after.domain_state@[domain].weight != (
        if before.domain_state@.contains_key(domain) {
            before.domain_state@[domain].weight
        } else {
            0
        }) ==> exists|r: int, i: int|
            {
                &&& 0 <= r < responses.len()
                &&& 0 <= i < responses[r].discovered_urls@.len()
                &&& text_id(domain_of((#[trigger] responses[r].discovered_urls@[i])@)) == domain
                &&& after.urls@.states(domain)[text_id(
                    responses[r].discovered_urls@[i]@,
                )].weight == after.domain_state@[domain].weight
            },
{
    let found = discoveries(responses);
    let within = everywhere(found.len());
    if touched(found, within, domain) {
        let k = choose|k: int|
            0 <= k < found.len() && within.contains(k) && text_id((#[trigger] found[k]).domain)
                == domain;
        let at = lemma_discovery_origin(responses, k);
        assert(text_id(domain_of(responses[at.0].discovered_urls@[at.1]@)) == domain);
    }
    assert forall|r: int, i: int|
        {
            &&& 0 <= r < responses.len()
            &&& 0 <= i < responses[r].discovered_urls@.len()
            &&& text_id(domain_of((#[trigger] responses[r].discovered_urls@[i])@)) == domain
        } implies after.domain_state@.contains_key(domain) && after.urls@.states(domain)[text_id(
        responses[r].discovered_urls@[i]@,
    )].weight <= after.domain_state@[domain].weight by {
        let k = lemma_discovery_at(responses, r, i);
        let url = text_id(responses[r].discovered_urls@[i]@);
        assert(text_id(found[k].domain) == domain);
        assert(touched(found, within, domain));
        assert(concerns(found[k], domain, url));
        assert(discovered(found, within, domain, url));
        assert(after.domain_state@.contains_key(domain));
    }
    if after.domain_state@.contains_key(domain) {
        let start = known_domain(before.domain_state@, domain).weight;
        let end = after.domain_state@[domain].weight;
        assert(weight_after_discovery(
            found,
            within,
            domain,
            after.urls@.states(domain),
            start,
            end,
        ));
        if end != start {
            let url = choose|url: Id| #[trigger]
                discovered(found, within, domain, url) && after.urls@.states(domain)[url].weight
                    == end;
            let k = choose|k: int|
                0 <= k < found.len() && within.contains(k) && concerns(
                    #[trigger] found[k],
                    domain,
                    url,
                );
            let at = lemma_discovery_origin(responses, k);
            assert(text_id(domain_of(responses[at.0].discovered_urls@[at.1]@)) == domain);
        }
    }
}

/// What each of the jobs visited.
pub open spec fn visit_lists(responses: Seq<JobResponse>) -> Seq<Seq<Visit>> {
    responses.map_values(|response: JobResponse| visits_of(response))
}

proof fn lemma_visits_are_joined(responses: Seq<JobResponse>)
    ensures
        visits(responses) == joined(visit_lists(responses)),
    decreases responses.len(),
{
    if responses.len() > 0 {
        lemma_visits_are_joined(responses.drop_last());
        assert(visit_lists(responses).drop_last() =~= visit_lists(responses.drop_last()));
    } else {
        assert(visit_lists(responses) =~= Seq::empty());
    }
}

/// The response at `i` of the job at `r` comes to stand at a place of its own.
pub proof fn lemma_visit_at(responses: Seq<JobResponse>, r: int, i: int) -> (k: int)
    requires
        0 <= r < responses.len(),
        0 <= i < responses[r].url_responses@.len(),
    ensures
        k == place_of(visit_lists(responses), r, i),
        0 <= k < visits(responses).len(),
        visits(responses)[k] == visit_of(responses[r].url_responses@[i]),
{
    lemma_visits_are_joined(responses);
    let lists = visit_lists(responses);
    assert(lists[r] == visits_of(responses[r]));
    lemma_item_is_kept(lists, r, i);
    place_of(lists, r, i)
}

pub proof fn lemma_visit_origin(responses: Seq<JobResponse>, k: int) -> (at: (int, int))
    requires
        0 <= k < visits(responses).len(),
    ensures
        0 <= at.0 < responses.len(),
        0 <= at.1 < responses[at.0].url_responses@.len(),
        place_of(visit_lists(responses), at.0, at.1) == k,
        visits(responses)[k] == visit_of(responses[at.0].url_responses@[at.1]),
        forall|r: int, i: int|
            {
                &&& 0 <= r < responses.len()
                &&& 0 <= i < responses[r].url_responses@.len()
            } ==> (#[trigger] place_of(visit_lists(responses), r, i) < k <==> r < at.0 || (r
                == at.0 && i < at.1)),
{
    lemma_visits_are_joined(responses);
    let lists = visit_lists(responses);
    let at = lemma_item_has_origin(lists, k);
    assert(lists[at.0] == visits_of(responses[at.0]));
    assert forall|r: int, i: int|
        {
            &&& 0 <= r < responses.len()
            &&& 0 <= i < responses[r].url_responses@.len()
        } implies (#[trigger] place_of(lists, r, i) < k <==> r < at.0 || (r == at.0 && i
        < at.1)) by {
        assert(lists[r] == visits_of(responses[r]));
        lemma_order_is_kept(lists, r, i, at.0, at.1);
    }
    at
}

/// The last response counts: if the last of the responses that tell of a URL without a redirect
/// says that the crawl succeeded, the URL is done; if it says that the crawl failed, the URL has
/// failed with the status code of that response. The URL is known from then on; its weight stays,
/// and is nothing if it was not known. This holds of a URL whose identifier no other URL has that
/// a response tells of.
pub proof fn law_last_response_settles(
    before: CrawlDb,
    after: CrawlDb,
    responses: Seq<JobResponse>,
    url: Seq<char>,
    r: int,
    i: int,
)
    requires
        visits(responses).len() <= usize::MAX,
        visited_since(before, after, visits(responses), noting_order(visits(responses))),
        forall|s: int, j: int|
            {
                &&& 0 <= s < responses.len()
                &&& 0 <= j < responses[s].url_responses@.len()
            } ==> match #[trigger] responses[s].url_responses@[j] {
                UrlResponse::Success { url: other } => text_id(other@) == text_id(url) ==> other@
                    == url,
                UrlResponse::Failed { url: other, status_code } => text_id(other@) == text_id(url)
                    ==> other@ == url,
                UrlResponse::Redirected { url: other, new_url } => text_id(other@) == text_id(url)
                    ==> other@ == url,
            },
        0 <= r < responses.len(),
        0 <= i < responses[r].url_responses@.len(),
        match responses[r].url_responses@[i] {
            UrlResponse::Success { url: own } => own@ == url,
            UrlResponse::Failed { url: own, status_code } => own@ == url,
            UrlResponse::Redirected { url: own, new_url } => false,
        },
        forall|s: int, j: int|
            {
                &&& 0 <= s < responses.len()
                &&& 0 <= j < responses[s].url_responses@.len()
                &&& r < s || (r == s && i < j)
            } ==> match #[trigger] responses[s].url_responses@[j] {
                UrlResponse::Success { url: other } => other@ != url,
                UrlResponse::Failed { url: other, status_code } => other@ != url,
                UrlResponse::Redirected { url: other, new_url } => true,
            },
    ensures
        ({
            let known = before.urls@.states(text_id(domain_of(url)));
            let now = after.urls@.states(text_id(domain_of(url)));
            &&& now.contains_key(text_id(url))
            &&& match responses[r].url_responses@[i] {
                UrlResponse::Success { url: own } => now[text_id(url)].status == UrlStatus::Done,
                UrlResponse::Failed { url: own, status_code } => now[text_id(url)].status == (
                UrlStatus::Failed { status_code }),
                UrlResponse::Redirected { url: own, new_url } => true,
            }
            &&& known.contains_key(text_id(url)) ==> now[text_id(url)].weight == known[text_id(
                url,
            )].weight
            &&& !known.contains_key(text_id(url)) ==> now[text_id(url)].weight == 0
        }),
{
    let made = visits(responses);
    assert forall|k: int| 0 <= k < made.len() && text_id((#[trigger] made[k]).url) == text_id(
        url,
    ) implies made[k].url == url by {
        let at = lemma_visit_origin(responses, k);
        assert(visit_of(responses[at.0].url_responses@[at.1]) == made[k]);
    }
    law_last_visit_wins(made, url);
    let k = lemma_visit_at(responses, r, i);
    assert forall|l: int| k < l implies !#[trigger] settles(made, l, url) by {
        if settles(made, l, url) {
            let at = lemma_visit_origin(responses, l);
            assert(place_of(visit_lists(responses), r, i) < l);
            assert(visit_of(responses[at.0].url_responses@[at.1]) == made[l]);
        }
    }
    assert(settles_last(made, k, url));
    let domain = text_id(domain_of(url));
    assert(states_after_visits(
        made,
        noting_order(made),
        domain,
        before.urls@.states(domain),
        after.urls@.states(domain),
    ));
    assert(after.urls@.states(domain).contains_key(text_id(url)));
}

/// A URL stays as it is, known or not, unless a response tells of its success or failure.
/// Redirects do not settle it.
pub proof fn law_other_urls_stay(
    before: CrawlDb,
    after: CrawlDb,
    responses: Seq<JobResponse>,
    domain: Id,
    url: Id,
)
    requires
        visited_since(before, after, visits(responses), noting_order(visits(responses))),
        visits(responses).len() <= usize::MAX,
        forall|s: int, j: int|
            {
                &&& 0 <= s < responses.len()
                &&& 0 <= j < responses[s].url_responses@.len()
            } ==> match #[trigger] responses[s].url_responses@[j] {
                UrlResponse::Success { url: other } => text_id(other@) != url || text_id(
                    domain_of(other@),
                ) != domain,
                UrlResponse::Failed { url: other, status_code } => text_id(other@) != url
                    || text_id(domain_of(other@)) != domain,
                UrlResponse::Redirected { url: other, new_url } => true,
            },
    ensures
        after.urls@.states(domain).contains_key(url) == before.urls@.states(domain).contains_key(
            url,
        ),
        before.urls@.states(domain).contains_key(url) ==> after.urls@.states(domain)[url]
            == before.urls@.states(domain)[url],
{
    let made = visits(responses);
    let order = noting_order(made);
    lemma_order_is_complete(visited_domains(made));
    assert forall|k: int| 0 <= k < order.len() implies settled(
        made[#[trigger] order[k] as int],
        domain,
        url,
    ) is None by {
        let at = lemma_visit_origin(responses, order[k] as int);
        assert(visit_of(responses[at.0].url_responses@[at.1]) == made[order[k] as int]);
    }
    lemma_nothing_settled(made, order, domain, url);
    assert(states_after_visits(
        made,
        order,
        domain,
        before.urls@.states(domain),
        after.urls@.states(domain),
    ));
    assert(after.urls@.states(domain).contains_key(url) <==> before.urls@.states(
        domain,
    ).contains_key(url));
}

proof fn lemma_nothing_settled(made: Seq<Visit>, order: Seq<usize>, domain: Id, url: Id)
    requires
        forall|k: int|
            0 <= k < order.len() ==> settled(
                made[#[trigger] order[k] as int],
                domain,
                url,
            ) is None,
    ensures
        last_settled(made, order, domain, url) is None,
    decreases order.len(),
{
    if order.len() > 0 {
        let front = order.drop_last();
        assert forall|k: int| 0 <= k < front.len() implies settled(
            made[#[trigger] front[k] as int],
            domain,
            url,
        ) is None by {
            assert(front[k] == order[k]);
        }
        lemma_nothing_settled(made, front, domain, url);
        assert(settled(made[order[order.len() - 1] as int], domain, url) is None);
    }
}

/// Responses and a domain: it is known afterwards if it was known before or if a response tells
/// of one of its URLs. What is known of it stays; one that was not known weighs nothing and is
/// pending.
pub proof fn law_responses_and_a_domain(
    before: CrawlDb,
    after: CrawlDb,
    responses: Seq<JobResponse>,
    domain: Id,
)
    requires
        visits(responses).len() <= usize::MAX,
        visited_since(before, after, visits(responses), noting_order(visits(responses))),
    ensures
        after.domain_state@.contains_key(domain) <==> before.domain_state@.contains_key(domain)
            || exists|r: int, i: int|
            {
                &&& 0 <= r < responses.len()
                &&& 0 <= i < responses[r].url_responses@.len()
                &&& match #[trigger] responses[r].url_responses@[i] {
                    UrlResponse::Success { url } => text_id(domain_of(url@)) == domain,
                    UrlResponse::Failed { url, status_code } => text_id(domain_of(url@)) == domain,
                    UrlResponse::Redirected { url, new_url } => text_id(domain_of(url@)) == domain,
                }
            },
        before.domain_state@.contains_key(domain) ==> after.domain_state@[domain]
            == before.domain_state@[domain],
        after.domain_state@.contains_key(domain) && !before.domain_state@.contains_key(domain) ==> {
            &&& after.domain_state@[domain].status == DomainStatus::Pending
            &&& after.domain_state@[domain].weight == 0
        },
{
    let made = visits(responses);
    let order = noting_order(made);
    lemma_order_is_complete(visited_domains(made));
    if visited(made, order, domain) {
        let k = choose|k: int|
            0 <= k < order.len() && text_id(domain_of(made[#[trigger] order[k] as int].url))
                == domain;
        let at = lemma_visit_origin(responses, order[k] as int);
        assert(visit_of(responses[at.0].url_responses@[at.1]) == made[order[k] as int]);
    }
    if exists|r: int, i: int|
        {
            &&& 0 <= r < responses.len()
            &&& 0 <= i < responses[r].url_responses@.len()
            &&& match #[trigger] responses[r].url_responses@[i] {
                UrlResponse::Success { url } => text_id(domain_of(url@)) == domain,
                UrlResponse::Failed { url, status_code } => text_id(domain_of(url@)) == domain,
                UrlResponse::Redirected { url, new_url } => text_id(domain_of(url@)) == domain,
            }
        } {
        let (r, i) = choose|r: int, i: int|
            {
                &&& 0 <= r < responses.len()
                &&& 0 <= i < responses[r].url_responses@.len()
                &&& match #[trigger] responses[r].url_responses@[i] {
                    UrlResponse::Success { url } => text_id(domain_of(url@)) == domain,
                    UrlResponse::Failed { url, status_code } => text_id(domain_of(url@)) == domain,
                    UrlResponse::Redirected { url, new_url } => text_id(domain_of(url@)) == domain,
                }
            };
        let place = lemma_visit_at(responses, r, i);
        assert(order.contains(place as usize));
        let k = order.index_of(place as usize);
        assert(text_id(domain_of(made[order[k] as int].url)) == domain);
        assert(visited(made, order, domain));
    }
    assert(before.domain_state@.contains_key(domain) ==> after.domain_state@.contains_key(domain));
}

/// One of the responses tells of the given redirect.
pub open spec fn told_of_redirect(responses: Seq<JobResponse>, redirect: Redirect) -> bool {
    exists|r: int, i: int|
        {
            &&& 0 <= r < responses.len()
            &&& 0 <= i < responses[r].url_responses@.len()
            &&& match #[trigger] responses[r].url_responses@[i] {
                UrlResponse::Redirected { url, new_url } => redirect == (url@, new_url@),
                UrlResponse::Success { url } => false,
                UrlResponse::Failed { url, status_code } => false,
            }
        }
}

/// Every redirect that a response tells of is noted, behind those that were noted before, and no
/// other is.
pub proof fn law_redirects_are_noted(
    before: CrawlDb,
    after: CrawlDb,
    responses: Seq<JobResponse>,
)
    requires
        visits(responses).len() <= usize::MAX,
        visited_since(before, after, visits(responses), noting_order(visits(responses))),
    ensures
        before.redirects@.len() <= after.redirects@.len(),
        forall|k: int|
            0 <= k < before.redirects@.len() ==> #[trigger] after.redirects@[k]
                == before.redirects@[k],
        forall|k: int|
            before.redirects@.len() <= k < after.redirects@.len() ==> told_of_redirect(
                responses,
                #[trigger] after.redirects@[k],
            ),
        forall|redirect: Redirect| #[trigger]
            told_of_redirect(responses, redirect) ==> exists|k: int|
                before.redirects@.len() <= k < after.redirects@.len()
                    && #[trigger] after.redirects@[k] == redirect,
{
    let made = visits(responses);
    let order = noting_order(made);
    let met = redirects_met(made, order);
    let start = before.redirects@.len() as int;
    lemma_order_is_complete(visited_domains(made));
    assert forall|k: int| start <= k < after.redirects@.len() implies told_of_redirect(
        responses,
        #[trigger] after.redirects@[k],
    ) by {
        let n = lemma_redirect_was_met(made, order, k - start);
        let at = lemma_visit_origin(responses, order[n] as int);
        assert(visit_of(responses[at.0].url_responses@[at.1]) == made[order[n] as int]);
    }
    assert forall|redirect: Redirect| #[trigger]
        told_of_redirect(responses, redirect) implies exists|k: int|
        start <= k < after.redirects@.len() && #[trigger] after.redirects@[k] == redirect by {
        let (r, i) = choose|r: int, i: int|
            {
                &&& 0 <= r < responses.len()
                &&& 0 <= i < responses[r].url_responses@.len()
                &&& match #[trigger] responses[r].url_responses@[i] {
                    UrlResponse::Redirected { url, new_url } => redirect == (url@, new_url@),
                    UrlResponse::Success { url } => false,
                    UrlResponse::Failed { url, status_code } => false,
                }
            };
        let place = lemma_visit_at(responses, r, i);
        assert(order.contains(place as usize));
        let n = order.index_of(place as usize);
        let k = lemma_redirect_is_met(made, order, n);
        assert(after.redirects@[start + k] == redirect);
    }
}

proof fn lemma_redirect_was_met(made: Seq<Visit>, order: Seq<usize>, k: int) -> (n: int)
    requires
        0 <= k < redirects_met(made, order).len(),
    ensures
        0 <= n < order.len(),
        made[order[n] as int].outcome is Redirected,
        redirects_met(made, order)[k] == (
            made[order[n] as int].url,
            made[order[n] as int].outcome->to,
        ),
    decreases order.len(),
{
    let front = order.drop_last();
    if k < redirects_met(made, front).len() {
        lemma_redirect_was_met(made, front, k)
    } else {
        order.len() - 1
    }
}

proof fn lemma_redirect_is_met(made: Seq<Visit>, order: Seq<usize>, n: int) -> (k: int)
    requires
        0 <= n < order.len(),
        made[order[n] as int].outcome is Redirected,
    ensures
        0 <= k < redirects_met(made, order).len(),
        redirects_met(made, order)[k] == (
            made[order[n] as int].url,
            made[order[n] as int].outcome->to,
        ),
    decreases order.len(),
{
    let front = order.drop_last();
    if n < front.len() {
        lemma_redirect_is_met(made, front, n)
    } else {
        redirects_met(made, front).len() as int
    }
}

/// A URL leads where the last response leads that tells of a redirect from it: of the redirects
/// that are noted from the URL, the last one leads there.
pub proof fn law_last_redirect_leads(
    before: CrawlDb,
    after: CrawlDb,
    responses: Seq<JobResponse>,
    r: int,
    i: int,
    from: Seq<char>,
    to: Seq<char>,
)
    requires
        visits(responses).len() <= usize::MAX,
        visited_since(before, after, visits(responses), noting_order(visits(responses))),
        0 <= r < responses.len(),
        0 <= i < responses[r].url_responses@.len(),
        responses[r].url_responses@[i] matches UrlResponse::Redirected { url, new_url } && url@
            == from && new_url@ == to,
        forall|s: int, j: int|
            {
                &&& 0 <= s < responses.len()
                &&& 0 <= j < responses[s].url_responses@.len()
                &&& r < s || (r == s && i < j)
            } ==> match #[trigger] responses[s].url_responses@[j] {
                UrlResponse::Redirected { url, new_url } => url@ != from,
                UrlResponse::Success { url } => true,
                UrlResponse::Failed { url, status_code } => true,
            },
    ensures
        exists|k: int|
            {
                &&& 0 <= k < after.redirects@.len()
                &&& #[trigger] after.redirects@[k] == (from, to)
                &&& forall|l: int|
                    k < l < after.redirects@.len() ==> (#[trigger] after.redirects@[l]).0 != from
            },
{
    let made = visits(responses);
    let place = lemma_visit_at(responses, r, i);
    assert forall|l: int| place < l implies !#[trigger] redirects(made, l, from) by {
        if redirects(made, l, from) {
            let at = lemma_visit_origin(responses, l);
            assert(place_of(visit_lists(responses), r, i) < l);
            assert(visit_of(responses[at.0].url_responses@[at.1]) == made[l]);
        }
    }
    assert(redirects_last(made, place, from));
    law_last_response_counts(before, after, made, from);
    law_last_redirect_is_latest(after.redirects@, from);
}

/// Seeds: each of them is known afterwards, pending and without weight, whatever was known of it,
/// and its domain is known. A domain that was known stays as it was; one that was not is pending
/// and weighs nothing. Every other URL and every other domain is as it was.
pub proof fn law_seeds_are_fresh(
    before: CrawlDb,
    after: CrawlDb,
    seeds: Seq<Seq<char>>,
    domain: Id,
    url: Id,
)
    requires
        before.consistent(),
        seeded_since(before, after, seeds),
    ensures
        forall|i: int|
            0 <= i < seeds.len() ==> {
                let d = text_id(domain_of(#[trigger] seeds[i]));
                let u = text_id(seeds[i]);
                &&& after.urls@.states(d).contains_key(u)
                &&& after.urls@.states(d)[u].status == UrlStatus::Pending
                &&& after.urls@.states(d)[u].weight == 0
                &&& after.domain_state@.contains_key(d)
            },
        (forall|i: int|
            0 <= i < seeds.len() ==> text_id(#[trigger] seeds[i]) != url || text_id(
                domain_of(seeds[i]),
            ) != domain) ==> {
            &&& after.urls@.states(domain).contains_key(url) == before.urls@.states(
                domain,
            ).contains_key(url)
            &&& before.urls@.states(domain).contains_key(url) ==> after.urls@.states(domain)[url]
                == before.urls@.states(domain)[url]
        },
        before.domain_state@.contains_key(domain) ==> after.domain_state@.contains_key(domain)
            && after.domain_state@[domain] == before.domain_state@[domain],
        after.domain_state@.contains_key(domain) && !before.domain_state@.contains_key(domain) ==> {
            &&& after.domain_state@[domain].status == DomainStatus::Pending
            &&& after.domain_state@[domain].weight == 0
            &&& exists|i: int|
                0 <= i < seeds.len() && text_id(domain_of(#[trigger] seeds[i])) == domain
        },
{
    assert forall|text: Seq<char>|
        before.domain_ids.id_for(text) == text_id(text) && before.url_ids.id_for(text) == text_id(
            text,
        ) by {
        assert(before.domain_ids.id_for(text) == text_id(text));
        assert(before.url_ids.id_for(text) == text_id(text));
    }
    assert forall|i: int| 0 <= i < seeds.len() implies {
        let d = text_id(domain_of(#[trigger] seeds[i]));
        let u = text_id(seeds[i]);
        &&& after.urls@.states(d).contains_key(u)
        &&& after.urls@.states(d)[u].status == UrlStatus::Pending
        &&& after.urls@.states(d)[u].weight == 0
        &&& after.domain_state@.contains_key(d)
    } by {
        let d = text_id(domain_of(seeds[i]));
        let u = text_id(seeds[i]);
        assert(seed_is(before, seeds[i], d, u));
        assert(seeded(before, seeds, d, u));
        assert(before.domain_ids.id_for(domain_of(seeds[i])) == d);
        assert(seeded_domain(before, seeds, d));
        assert(after.urls@.states(d).contains_key(u));
        assert(after.domain_state@.contains_key(d));
    }
    if seeded(before, seeds, domain, url) {
        let i = choose|i: int|
            0 <= i < seeds.len() && seed_is(before, #[trigger] seeds[i], domain, url);
        assert(before.domain_ids.id_for(domain_of(seeds[i])) == text_id(domain_of(seeds[i])));
        assert(before.url_ids.id_for(seeds[i]) == text_id(seeds[i]));
    }
    assert(after.urls@.states(domain).contains_key(url) <==> before.urls@.states(
        domain,
    ).contains_key(url) || seeded(before, seeds, domain, url));
    if seeded_domain(before, seeds, domain) {
        let i = choose|i: int|
            0 <= i < seeds.len() && before.domain_ids.id_for(domain_of(#[trigger] seeds[i]))
                == domain;
        assert(before.domain_ids.id_for(domain_of(seeds[i])) == text_id(domain_of(seeds[i])));
    }
    assert(after.domain_state@.contains_key(domain) <==> before.domain_state@.contains_key(domain)
        || seeded_domain(before, seeds, domain));
}

/// What discoveries do to any URL: no known URL is lost, changes its status or becomes lighter;
/// every discovered URL is known; and a URL that was not known is pending.
pub proof fn law_discoveries_lose_nothing(
    before: CrawlDb,
    after: CrawlDb,
    responses: Seq<JobResponse>,
)
    requires
        discovered_since(
            before,
            after,
            discoveries(responses),
            everywhere(discoveries(responses).len()),
        ),
    ensures
        forall|domain: Id, url: Id| #[trigger]
            before.urls@.states(domain).contains_key(url) ==> {
                &&& after.urls@.states(domain).contains_key(url)
                &&& after.urls@.states(domain)[url].status == before.urls@.states(
                    domain,
                )[url].status
                &&& after.urls@.states(domain)[url].weight >= before.urls@.states(
                    domain,
                )[url].weight
            },
        forall|domain: Id, url: Id| #[trigger]
            after.urls@.states(domain).contains_key(url) && !before.urls@.states(
                domain,
            ).contains_key(url) ==> after.urls@.states(domain)[url].status == UrlStatus::Pending,
        forall|r: int, i: int|
            {
                &&& 0 <= r < responses.len()
                &&& 0 <= i < responses[r].discovered_urls@.len()
            } ==> {
                let url = (#[trigger] responses[r].discovered_urls@[i])@;
                after.urls@.states(text_id(domain_of(url))).contains_key(text_id(url))
            },
{
    assert forall|domain: Id, url: Id| #[trigger]
        before.urls@.states(domain).contains_key(url) implies {
        &&& after.urls@.states(domain).contains_key(url)
        &&& after.urls@.states(domain)[url].status == before.urls@.states(domain)[url].status
        &&& after.urls@.states(domain)[url].weight >= before.urls@.states(domain)[url].weight
    } by {
        law_discoveries_and_a_url(before, after, responses, domain, url);
    }
    assert forall|domain: Id, url: Id| #[trigger]
        after.urls@.states(domain).contains_key(url) && !before.urls@.states(domain).contains_key(
            url,
        ) implies after.urls@.states(domain)[url].status == UrlStatus::Pending by {
        law_discoveries_and_a_url(before, after, responses, domain, url);
    }
    assert forall|r: int, i: int|
        {
            &&& 0 <= r < responses.len()
            &&& 0 <= i < responses[r].discovered_urls@.len()
        } implies {
        let url = (#[trigger] responses[r].discovered_urls@[i])@;
        after.urls@.states(text_id(domain_of(url))).contains_key(text_id(url))
    } by {
        let url = responses[r].discovered_urls@[i]@;
        law_discoveries_and_a_url(
            before,
            after,
            responses,
            text_id(domain_of(url)),
            text_id(url),
        );
    }
}

/// The response at `i` of the job at `r` has the last word on its URL: it tells of success or
/// failure, no later one tells of either for the same URL, and no response is about another URL
/// with the same identifier.
pub open spec fn last_word(responses: Seq<JobResponse>, r: int, i: int) -> bool {
    &&& 0 <= r < responses.len()
    &&& 0 <= i < responses[r].url_responses@.len()
    &&& match responses[r].url_responses@[i] {
        UrlResponse::Success { url } => last_word_on(responses, r, i, url@),
        UrlResponse::Failed { url, status_code } => last_word_on(responses, r, i, url@),
        UrlResponse::Redirected { url, new_url } => false,
    }
}

/// No later response tells of the success or failure of the URL, and no response is about another
/// URL with the same identifier.
pub open spec fn last_word_on(
    responses: Seq<JobResponse>,
    r: int,
    i: int,
    url: Seq<char>,
) -> bool {
    &&& forall|s: int, j: int|
        {
            &&& 0 <= s < responses.len()
            &&& 0 <= j < responses[s].url_responses@.len()
            &&& r < s || (r == s && i < j)
        } ==> match #[trigger] responses[s].url_responses@[j] {
            UrlResponse::Success { url: other } => other@ != url,
            UrlResponse::Failed { url: other, status_code } => other@ != url,
            UrlResponse::Redirected { url: other, new_url } => true,
        }
    &&& forall|s: int, j: int|
        {
            &&& 0 <= s < responses.len()
            &&& 0 <= j < responses[s].url_responses@.len()
        } ==> match #[trigger] responses[s].url_responses@[j] {
            UrlResponse::Success { url: other } => text_id(other@) == text_id(url) ==> other@
                == url,
            UrlResponse::Failed { url: other, status_code } => text_id(other@) == text_id(url)
                ==> other@ == url,
            UrlResponse::Redirected { url: other, new_url } => text_id(other@) == text_id(url)
                ==> other@ == url,
        }
}

/// What responses do to any URL: one on which a response has the last word is done if that tells
/// of success, and has failed with its status code if it tells of failure; no known URL is lost,
/// and none changes its weight.
pub proof fn law_responses_settle_urls(
    before: CrawlDb,
    after: CrawlDb,
    responses: Seq<JobResponse>,
)
    requires
        visits(responses).len() <= usize::MAX,
        visited_since(before, after, visits(responses), noting_order(visits(responses))),
    ensures
        forall|r: int, i: int| #[trigger]
            last_word(responses, r, i) ==> match responses[r].url_responses@[i] {
                UrlResponse::Success { url } => {
                    let now = after.urls@.states(text_id(domain_of(url@)));
                    now.contains_key(text_id(url@)) && now[text_id(url@)].status == UrlStatus::Done
                },
                UrlResponse::Failed { url, status_code } => {
                    let now = after.urls@.states(text_id(domain_of(url@)));
                    now.contains_key(text_id(url@)) && now[text_id(url@)].status == (
                    UrlStatus::Failed { status_code })
                },
                UrlResponse::Redirected { url, new_url } => false,
            },
        forall|domain: Id, url: Id| #[trigger]
            before.urls@.states(domain).contains_key(url) ==> {
                &&& after.urls@.states(domain).contains_key(url)
                &&& after.urls@.states(domain)[url].weight == before.urls@.states(
                    domain,
                )[url].weight
            },
{
    assert forall|r: int, i: int| #[trigger]
        last_word(responses, r, i) implies match responses[r].url_responses@[i] {
        UrlResponse::Success { url } => {
            let now = after.urls@.states(text_id(domain_of(url@)));
            now.contains_key(text_id(url@)) && now[text_id(url@)].status == UrlStatus::Done
        },
        UrlResponse::Failed { url, status_code } => {
            let now = after.urls@.states(text_id(domain_of(url@)));
            now.contains_key(text_id(url@)) && now[text_id(url@)].status == (UrlStatus::Failed {
                status_code,
            })
        },
        UrlResponse::Redirected { url, new_url } => false,
    } by {
        match responses[r].url_responses@[i] {
            UrlResponse::Success { url } => {
                law_last_response_settles(before, after, responses, url@, r, i);
            },
            UrlResponse::Failed { url, status_code } => {
                law_last_response_settles(before, after, responses, url@, r, i);
            },
            UrlResponse::Redirected { url, new_url } => {},
        }
    }
    assert forall|domain: Id, url: Id| #[trigger]
        before.urls@.states(domain).contains_key(url) implies {
        &&& after.urls@.states(domain).contains_key(url)
        &&& after.urls@.states(domain)[url].weight == before.urls@.states(domain)[url].weight
    } by {
        assert(states_after_visits(
            visits(responses),
            noting_order(visits(responses)),
            domain,
            before.urls@.states(domain),
            after.urls@.states(domain),
        ));
        assert(after.urls@.states(domain).contains_key(url));
    }
}

} // verus!
