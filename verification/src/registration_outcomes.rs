//! Which texts are registered once seeds and responses are noted.

use crate::cache::entry_at;
use crate::codec::text_bytes;
use crate::crawl_db::{registered_partly, seeds_stopped, CrawlDb};
use crate::digest::{text_id, Id};
use crate::discovery::{discovered_domains, discovered_pairs, discoveries};
use crate::grouping::{
    domain_pairs, groups_of, lemma_domain_is_listed, lemma_groups_of, lemma_order_is_complete,
    order_of,
};
use crate::id_table::{enroll_all, law_register_all, register_all, IdPair};
use crate::job::{JobResponse, UrlResponse};
use crate::memmap_db::DbView;
use crate::response_outcomes::{
    law_seeds_are_fresh, lemma_discovery_at, lemma_discovery_origin, lemma_visit_at,
    lemma_visit_origin,
};
use crate::url_state::UrlStatus;
use crate::visits::{
    noting_order, visit_of, visit_pairs, visited_domains, visited_pairs, visits, Visit,
};
use crate::web_url::domain_of;
use vstd::prelude::*;

verus! {

/// The text is that of a discovered URL.
pub open spec fn discovered_text(responses: Seq<JobResponse>, text: Seq<char>) -> bool {
    exists|r: int, i: int|
        {
            &&& 0 <= r < responses.len()
            &&& 0 <= i < responses[r].discovered_urls@.len()
            &&& (#[trigger] responses[r].discovered_urls@[i])@ == text
        }
}

/// The text is the name of the domain of a discovered URL.
pub open spec fn discovered_domain_text(responses: Seq<JobResponse>, text: Seq<char>) -> bool {
    exists|r: int, i: int|
        {
            &&& 0 <= r < responses.len()
            &&& 0 <= i < responses[r].discovered_urls@.len()
            &&& domain_of((#[trigger] responses[r].discovered_urls@[i])@) == text
        }
}

/// The text is that of a URL that a response is about, or to which one leads.
pub open spec fn visited_text(responses: Seq<JobResponse>, text: Seq<char>) -> bool {
    exists|r: int, i: int|
        {
            &&& 0 <= r < responses.len()
            &&& 0 <= i < responses[r].url_responses@.len()
            &&& match #[trigger] responses[r].url_responses@[i] {
                UrlResponse::Success { url } => url@ == text,
                UrlResponse::Failed { url, status_code } => url@ == text,
                UrlResponse::Redirected { url, new_url } => url@ == text || new_url@ == text,
            }
        }
}

/// The text is the name of the domain of a URL that a response is about.
pub open spec fn visited_domain_text(responses: Seq<JobResponse>, text: Seq<char>) -> bool {
    exists|r: int, i: int|
        {
            &&& 0 <= r < responses.len()
            &&& 0 <= i < responses[r].url_responses@.len()
            &&& match #[trigger] responses[r].url_responses@[i] {
                UrlResponse::Success { url } => domain_of(url@) == text,
                UrlResponse::Failed { url, status_code } => domain_of(url@) == text,
                UrlResponse::Redirected { url, new_url } => domain_of(url@) == text,
            }
        }
}

/// Once discoveries are noted, every discovered URL is registered under its own identifier, or
/// another text was before. What was registered stays, and nothing but discovered URLs is added.
pub proof fn law_discovered_urls_are_registered(
    before: DbView,
    after: DbView,
    responses: Seq<JobResponse>,
)
    requires
        discoveries(responses).len() <= usize::MAX,
        register_all(
            before,
            discovered_pairs(
                discoveries(responses),
                order_of(groups_of(discovered_domains(discoveries(responses)))),
            ),
        ) matches Some(store) && after == store.commit(),
    ensures
        forall|text: Seq<char>| #[trigger]
            discovered_text(responses, text) ==> after.entries.contains_key(text_id(text)),
        forall|id: Id| #[trigger]
            before.entries.contains_key(id) ==> after.entries.contains_key(id)
                && after.entries[id] == before.entries[id],
        forall|id: Id| #[trigger]
            after.entries.contains_key(id) && !before.entries.contains_key(id) ==> discovered_text(
                responses,
                after.entries[id].text,
            ) && text_id(after.entries[id].text) == id,
        after.saved == before.saved,
        after.batch.len() == 0,
{
    let found = discoveries(responses);
    let names = discovered_domains(found);
    let order = order_of(groups_of(names));
    let pairs = discovered_pairs(found, order);
    law_register_all(before, pairs);
    lemma_order_is_complete(names);
    assert forall|text: Seq<char>| #[trigger]
        discovered_text(responses, text) implies after.entries.contains_key(text_id(text)) by {
        let (r, i) = choose|r: int, i: int|
            {
                &&& 0 <= r < responses.len()
                &&& 0 <= i < responses[r].discovered_urls@.len()
                &&& (#[trigger] responses[r].discovered_urls@[i])@ == text
            };
        let place = lemma_discovery_at(responses, r, i);
        assert(order.contains(place as usize));
        let k = order.index_of(place as usize);
        assert(pairs[k].1 == text_id(text));
    }
    assert forall|id: Id| #[trigger]
        after.entries.contains_key(id) && !before.entries.contains_key(id) implies discovered_text(
        responses,
        after.entries[id].text,
    ) && text_id(after.entries[id].text) == id by {
        let k = pairs.index_of((after.entries[id].text, id));
        assert(pairs[k] == (after.entries[id].text, id));
        let at = lemma_discovery_origin(responses, order[k] as int);
        assert(responses[at.0].discovered_urls@[at.1]@ == after.entries[id].text);
    }
}

/// Once discoveries are noted, the domain of every discovered URL is registered under its own
/// identifier, or another text was before. What was registered stays, and nothing but such
/// domains is added.
pub proof fn law_discovered_domains_are_registered(
    before: DbView,
    after: DbView,
    responses: Seq<JobResponse>,
)
    requires
        discoveries(responses).len() <= usize::MAX,
        register_all(
            before,
            domain_pairs(
                discovered_domains(discoveries(responses)),
                groups_of(discovered_domains(discoveries(responses))),
            ),
        ) matches Some(store) && after == store.commit(),
    ensures
        forall|text: Seq<char>| #[trigger]
            discovered_domain_text(responses, text) ==> after.entries.contains_key(text_id(text)),
        forall|id: Id| #[trigger]
            before.entries.contains_key(id) ==> after.entries.contains_key(id)
                && after.entries[id] == before.entries[id],
        forall|id: Id| #[trigger]
            after.entries.contains_key(id) && !before.entries.contains_key(id)
                ==> discovered_domain_text(responses, after.entries[id].text) && text_id(
                after.entries[id].text,
            ) == id,
        after.saved == before.saved,
        after.batch.len() == 0,
{
    let found = discoveries(responses);
    let names = discovered_domains(found);
    let groups = groups_of(names);
    let pairs = domain_pairs(names, groups);
    law_register_all(before, pairs);
    lemma_groups_of(names);
    assert forall|text: Seq<char>| #[trigger]
        discovered_domain_text(responses, text) implies after.entries.contains_key(
        text_id(text),
    ) by {
        let (r, i) = choose|r: int, i: int|
            {
                &&& 0 <= r < responses.len()
                &&& 0 <= i < responses[r].discovered_urls@.len()
                &&& domain_of((#[trigger] responses[r].discovered_urls@[i])@) == text
            };
        let place = lemma_discovery_at(responses, r, i);
        lemma_domain_is_listed(groups, names, names.len() as int, place as usize);
        let k = pairs.index_of((text, text_id(text)));
        assert(pairs[k].1 == text_id(text));
    }
    assert forall|id: Id| #[trigger]
        after.entries.contains_key(id) && !before.entries.contains_key(
            id,
        ) implies discovered_domain_text(responses, after.entries[id].text) && text_id(
        after.entries[id].text,
    ) == id by {
        let k = pairs.index_of((after.entries[id].text, id));
        assert(pairs[k] == (after.entries[id].text, id));
        assert(groups[k][0] < names.len());
        let at = lemma_discovery_origin(responses, groups[k][0] as int);
        assert(domain_of(responses[at.0].discovered_urls@[at.1]@) == after.entries[id].text);
    }
}

/// Once responses are noted, every URL that one is about, and every URL to which one leads, is
/// registered under its own identifier, or another text was before. What was registered stays,
/// and nothing but such URLs is added.
pub proof fn law_visited_urls_are_registered(
    before: DbView,
    after: DbView,
    responses: Seq<JobResponse>,
)
    requires
        visits(responses).len() <= usize::MAX,
        register_all(
            before,
            visited_pairs(visits(responses), noting_order(visits(responses))),
        ) matches Some(store) && after == store.commit(),
    ensures
        forall|text: Seq<char>| #[trigger]
            visited_text(responses, text) ==> after.entries.contains_key(text_id(text)),
        forall|id: Id| #[trigger]
            before.entries.contains_key(id) ==> after.entries.contains_key(id)
                && after.entries[id] == before.entries[id],
        forall|id: Id| #[trigger]
            after.entries.contains_key(id) && !before.entries.contains_key(id) ==> visited_text(
                responses,
                after.entries[id].text,
            ) && text_id(after.entries[id].text) == id,
        after.saved == before.saved,
        after.batch.len() == 0,
{
    let made = visits(responses);
    let order = noting_order(made);
    let pairs = visited_pairs(made, order);
    law_register_all(before, pairs);
    lemma_order_is_complete(visited_domains(made));
    assert forall|text: Seq<char>| #[trigger]
        visited_text(responses, text) implies after.entries.contains_key(text_id(text)) by {
        let (r, i) = choose|r: int, i: int|
            {
                &&& 0 <= r < responses.len()
                &&& 0 <= i < responses[r].url_responses@.len()
                &&& match #[trigger] responses[r].url_responses@[i] {
                    UrlResponse::Success { url } => url@ == text,
                    UrlResponse::Failed { url, status_code } => url@ == text,
                    UrlResponse::Redirected { url, new_url } => url@ == text || new_url@ == text,
                }
            };
        let place = lemma_visit_at(responses, r, i);
        assert(order.contains(place as usize));
        let k = order.index_of(place as usize);
        let m = lemma_told_is_paired(made, order, k, text);
        assert(pairs[m].1 == text_id(text));
    }
    assert forall|id: Id| #[trigger]
        after.entries.contains_key(id) && !before.entries.contains_key(id) implies visited_text(
        responses,
        after.entries[id].text,
    ) && text_id(after.entries[id].text) == id by {
        let m = pairs.index_of((after.entries[id].text, id));
        assert(pairs[m] == (after.entries[id].text, id));
        let k = lemma_paired_was_told(made, order, m);
        let at = lemma_visit_origin(responses, order[k] as int);
        assert(visit_of(responses[at.0].url_responses@[at.1]) == made[order[k] as int]);
    }
}

/// The URL of a visit, and where it led, are among the pairs.
proof fn lemma_told_is_paired(made: Seq<Visit>, order: Seq<usize>, k: int, text: Seq<char>) -> (m:
    int)
    requires
        0 <= k < order.len(),
        made[order[k] as int].url == text || (made[order[k] as int].outcome is Redirected
            && made[order[k] as int].outcome->to == text),
    ensures
        0 <= m < visited_pairs(made, order).len(),
        visited_pairs(made, order)[m] == (text, text_id(text)),
    decreases order.len(),
{
    let front = order.drop_last();
    let earlier = visited_pairs(made, front);
    if k < front.len() {
        lemma_told_is_paired(made, front, k, text)
    } else {
        let own = visit_pairs(made[order.last() as int]);
        if made[order[k] as int].url == text {
            assert(own[0] == (text, text_id(text)));
            earlier.len() as int
        } else {
            assert(own[1] == (text, text_id(text)));
            earlier.len() as int + 1
        }
    }
}

/// Every pair is of the URL of a visit, or of where it led.
proof fn lemma_paired_was_told(made: Seq<Visit>, order: Seq<usize>, m: int) -> (k: int)
    requires
        0 <= m < visited_pairs(made, order).len(),
    ensures
        0 <= k < order.len(),
        ({
            let text = visited_pairs(made, order)[m].0;
            &&& visited_pairs(made, order)[m].1 == text_id(text)
            &&& made[order[k] as int].url == text || (made[order[k] as int].outcome is Redirected
                && made[order[k] as int].outcome->to == text)
        }),
    decreases order.len(),
{
    let front = order.drop_last();
    let earlier = visited_pairs(made, front);
    if m < earlier.len() {
        lemma_paired_was_told(made, front, m)
    } else {
        let own = visit_pairs(made[order.last() as int]);
        assert(visited_pairs(made, order)[m] == own[m - earlier.len()]);
        order.len() - 1
    }
}

/// Once responses are noted, the domain of every URL that one is about is registered under its
/// own identifier, or another text was before. What was registered stays, and nothing but such
/// domains is added.
pub proof fn law_visited_domains_are_registered(
    before: DbView,
    after: DbView,
    responses: Seq<JobResponse>,
)
    requires
        visits(responses).len() <= usize::MAX,
        register_all(
            before,
            domain_pairs(
                visited_domains(visits(responses)),
                groups_of(visited_domains(visits(responses))),
            ),
        ) matches Some(store) && after == store.commit(),
    ensures
        forall|text: Seq<char>| #[trigger]
            visited_domain_text(responses, text) ==> after.entries.contains_key(text_id(text)),
        forall|id: Id| #[trigger]
            before.entries.contains_key(id) ==> after.entries.contains_key(id)
                && after.entries[id] == before.entries[id],
        forall|id: Id| #[trigger]
            after.entries.contains_key(id) && !before.entries.contains_key(id)
                ==> visited_domain_text(responses, after.entries[id].text) && text_id(
                after.entries[id].text,
            ) == id,
        after.saved == before.saved,
        after.batch.len() == 0,
{
    let made = visits(responses);
    let names = visited_domains(made);
    let groups = groups_of(names);
    let pairs = domain_pairs(names, groups);
    law_register_all(before, pairs);
    lemma_groups_of(names);
    assert forall|text: Seq<char>| #[trigger]
        visited_domain_text(responses, text) implies after.entries.contains_key(text_id(text)) by {
        let (r, i) = choose|r: int, i: int|
            {
                &&& 0 <= r < responses.len()
                &&& 0 <= i < responses[r].url_responses@.len()
                &&& match #[trigger] responses[r].url_responses@[i] {
                    UrlResponse::Success { url } => domain_of(url@) == text,
                    UrlResponse::Failed { url, status_code } => domain_of(url@) == text,
                    UrlResponse::Redirected { url, new_url } => domain_of(url@) == text,
                }
            };
        let place = lemma_visit_at(responses, r, i);
        lemma_domain_is_listed(groups, names, names.len() as int, place as usize);
        let k = pairs.index_of((text, text_id(text)));
        assert(pairs[k].1 == text_id(text));
    }
    assert forall|id: Id| #[trigger]
        after.entries.contains_key(id) && !before.entries.contains_key(
            id,
        ) implies visited_domain_text(responses, after.entries[id].text) && text_id(
        after.entries[id].text,
    ) == id by {
        let k = pairs.index_of((after.entries[id].text, id));
        assert(pairs[k] == (after.entries[id].text, id));
        assert(groups[k][0] < names.len());
        let at = lemma_visit_origin(responses, groups[k][0] as int);
        assert(visit_of(responses[at.0].url_responses@[at.1]) == made[groups[k][0] as int]);
    }
}

/// Registering fails only for want of room: up to some text everything was registered, that text
/// was not, and its bytes behind all others could no longer be addressed.
pub proof fn law_registering_fails_when_full(before: DbView, pairs: Seq<IdPair>) -> (full: (
    int,
    DbView,
))
    requires
        register_all(before, pairs) is None,
    ensures
        0 <= full.0 < pairs.len(),
        register_all(before, pairs.take(full.0)) == Some(full.1),
        !full.1.entries.contains_key(pairs[full.0].1),
        full.1.saved.len() + full.1.unsaved.len() + full.1.batch.len() + text_bytes(
            pairs[full.0].0,
        ).len() > usize::MAX,
    decreases pairs.len(),
{
    let front = pairs.drop_last();
    match register_all(before, front) {
        None => {
            let full = law_registering_fails_when_full(before, front);
            assert(front.take(full.0) =~= pairs.take(full.0));
            full
        },
        Some(store) => {
            assert(pairs.take(pairs.len() - 1) =~= front);
            (pairs.len() - 1, store)
        },
    }
}

/// Asking for the identifiers of texts fails only for want of room: up to some text everything was
/// registered, that text was neither at hand nor registered, and its bytes behind all others could
/// no longer be addressed.
pub proof fn law_enrolling_fails_when_full(
    before: DbView,
    cached: Seq<IdPair>,
    texts: Seq<Seq<char>>,
) -> (full: (int, DbView))
    requires
        enroll_all(before, cached, texts) is None,
    ensures
        0 <= full.0 < texts.len(),
        enroll_all(before, cached, texts.take(full.0)) == Some(full.1),
        forall|i: int| 0 <= i < cached.len() ==> (#[trigger] cached[i]).0 != texts[full.0],
        !full.1.entries.contains_key(text_id(texts[full.0])),
        full.1.saved.len() + full.1.unsaved.len() + full.1.batch.len() + text_bytes(
            texts[full.0],
        ).len() > usize::MAX,
    decreases texts.len(),
{
    let front = texts.drop_last();
    match enroll_all(before, cached, front) {
        None => {
            let full = law_enrolling_fails_when_full(before, cached, front);
            assert(front.take(full.0) =~= texts.take(full.0));
            full
        },
        Some(store) => {
            let last = texts.len() - 1;
            assert(texts.take(last) =~= front);
            assert forall|i: int| 0 <= i < cached.len() implies (#[trigger] cached[i]).0
                != texts[last] by {
                if cached[i].0 == texts[last] {
                    assert(entry_at(cached, texts[last], i));
                }
            }
            (last, store)
        },
    }
}

/// Registering that fails stops at the first text that no longer fits: all texts before it are
/// registered and nothing else is added; it is not, and its bytes behind all others could no
/// longer be addressed. What was registered before stays.
pub proof fn law_registering_stops_when_full(before: DbView, after: DbView, pairs: Seq<IdPair>) -> (k:
    int)
    requires
        registered_partly(before, after, pairs),
    ensures
        0 <= k < pairs.len(),
        forall|i: int| 0 <= i < k ==> after.entries.contains_key((#[trigger] pairs[i]).1),
        !after.entries.contains_key(pairs[k].1),
        after.saved.len() + after.unsaved.len() + after.batch.len() + text_bytes(
            pairs[k].0,
        ).len() > usize::MAX,
        forall|id: Id| #[trigger]
            before.entries.contains_key(id) ==> after.entries.contains_key(id)
                && after.entries[id] == before.entries[id],
        forall|id: Id| #[trigger]
            after.entries.contains_key(id) && !before.entries.contains_key(id) ==> exists|i: int|
                0 <= i < k && #[trigger] pairs[i] == (after.entries[id].text, id),
{
    let k = choose|k: int|
        {
            &&& 0 <= k < pairs.len()
            &&& register_all(before, #[trigger] pairs.take(k)) == Some(after)
            &&& register_all(before, pairs.take(k + 1)) is None
        };
    let first = pairs.take(k);
    law_register_all(before, first);
    assert(pairs.take(k + 1).drop_last() =~= first);
    assert(pairs.take(k + 1).last() == pairs[k]);
    assert forall|i: int| 0 <= i < k implies after.entries.contains_key((#[trigger] pairs[i]).1) by {
        assert(first[i] == pairs[i]);
    }
    assert forall|id: Id| #[trigger]
        after.entries.contains_key(id) && !before.entries.contains_key(id) implies exists|i: int|
        0 <= i < k && #[trigger] pairs[i] == (after.entries[id].text, id) by {
        let i = first.index_of((after.entries[id].text, id));
        assert(pairs[i] == first[i]);
    }
    k
}

/// Where seeds no longer fit, those before the first that does not are known, pending and without
/// weight, and their domains are known. All other URLs are as they were.
pub proof fn law_seeding_stops_when_full(
    before: CrawlDb,
    after: CrawlDb,
    seeds: Seq<Seq<char>>,
    k: int,
    domain: Id,
    url: Id,
)
    requires
        before.consistent(),
        seeds_stopped(before, after, seeds, k),
    ensures
        0 <= k < seeds.len(),
        forall|i: int|
            0 <= i < k ==> {
                let d = text_id(domain_of(#[trigger] seeds[i]));
                let u = text_id(seeds[i]);
                &&& after.urls@.states(d).contains_key(u)
                &&& after.urls@.states(d)[u].status == UrlStatus::Pending
                &&& after.urls@.states(d)[u].weight == 0
                &&& after.domain_state@.contains_key(d)
            },
        (forall|i: int|
            0 <= i < k ==> text_id(#[trigger] seeds[i]) != url || text_id(domain_of(seeds[i]))
                != domain) ==> {
            &&& after.urls@.states(domain).contains_key(url) == before.urls@.states(
                domain,
            ).contains_key(url)
            &&& before.urls@.states(domain).contains_key(url) ==> after.urls@.states(domain)[url]
                == before.urls@.states(domain)[url]
        },
        before.domain_state@.contains_key(domain) ==> after.domain_state@.contains_key(domain)
            && after.domain_state@[domain] == before.domain_state@[domain],
{
    let first = seeds.take(k);
    law_seeds_are_fresh(before, after, first, domain, url);
    assert forall|i: int| 0 <= i < k implies {
        let d = text_id(domain_of(#[trigger] seeds[i]));
        let u = text_id(seeds[i]);
        &&& after.urls@.states(d).contains_key(u)
        &&& after.urls@.states(d)[u].status == UrlStatus::Pending
        &&& after.urls@.states(d)[u].weight == 0
        &&& after.domain_state@.contains_key(d)
    } by {
        assert(first[i] == seeds[i]);
    }
    if forall|i: int|
        0 <= i < k ==> text_id(#[trigger] seeds[i]) != url || text_id(domain_of(seeds[i]))
            != domain {
        assert forall|i: int| 0 <= i < first.len() implies text_id(#[trigger] first[i]) != url
            || text_id(domain_of(first[i])) != domain by {
            assert(first[i] == seeds[i]);
        }
    }
}

} // verus!
