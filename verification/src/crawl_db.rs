//! The state of a crawl.

use crate::cache::found;
use crate::codec::text_bytes;
use crate::crawl_error::Error;
use crate::crawl_outcomes::{law_domains_are_handed_out, law_short_job_leaves_nothing};
use crate::digest::{text_id, Id};
use crate::discovery::{
    concerns, discovered, discovered_domains, discovered_pairs, discoveries, everywhere,
    from_elsewhere, lemma_discovered_elsewhere, lemma_discovery_noted, list_discoveries,
    note_discovery, states_after_discovery, urls_of_groups, weight_after_discovery, Discovery,
    UrlToInsert,
};
use crate::grouping::{
    domain_pairs, domains_of_groups, group_by_domain, groups_of, groups_view, in_a_group, in_group,
    lemma_all_reached, lemma_domain_is_listed, lemma_group_is_new, lemma_group_reached,
    lemma_order_of, names_of, order_of, reached, well_grouped,
};
use crate::id_table::{
    enroll, enroll_all, law_register_all, law_registered_ids_are_own, lemma_enroll_all_prefix,
    own_ids, register_all, IdPair, IdTable,
};
use crate::job::{Job, JobResponse, UrlResponse};
use crate::memmap_db::DbView;
use crate::pending::{
    crawling, heaviest_pending, is_heaviest, is_sample_of, law_sample_is_part, list_waiting,
    pending_domains, pending_urls, start_crawling,
};
use crate::redirect_db::{Redirect, RedirectDb};
use crate::response_outcomes::{
    last_word, law_discoveries_lose_nothing, law_responses_settle_urls, law_seeds_are_fresh,
};
use crate::sample::weighted_sample;
use crate::url_state::{
    fresh_domain, fresh_url, DomainState, DomainStatus, UrlState, UrlStates, UrlStatus,
};
use crate::url_state_db::{
    law_get_keeps_states, law_put_is_read_back, lemma_rewritten_next, rewritten,
    rewritten_in_turn, StateMap, UrlStateDb, UrlStateDbView,
};
use crate::visits::{
    last_settled, lemma_settled_elsewhere, lemma_settled_was_visited, lemma_visit_noted,
    lemma_visited_pairs, list_visits, redirects_met, settle, states_after_visits, urls_of_visits,
    visit_of, visited, visited_domains, visited_pairs, visits, visits_view, Visit,
};
use crate::web_url::{domain_of, url_serialization, AsId, Domain, Url};
use std::collections::{BTreeMap, VecDeque};
use vstd::prelude::*;

verus! {

broadcast use {vstd::std_specs::btree::group_btree_axioms, vstd::laws_cmp::group_laws_cmp};

/// The number of domains whose URL states are cached before half of them is written out.
pub const URL_STATE_CACHE_SIZE: usize = 10_000;

/// The states of the known domains, by identifier.
pub type DomainStates = Map<u128, DomainState>;

/// The state of a domain, which is that of a fresh one if nothing is known of it.
pub open spec fn known_domain(states: DomainStates, domain: Id) -> DomainState {
    if states.contains_key(domain) {
        states[domain]
    } else {
        fresh_domain()
    }
}

/// The store holds the first of the listed texts, up to one that no longer fits.
pub open spec fn registered_partly(before: DbView, after: DbView, pairs: Seq<IdPair>) -> bool {
    exists|k: int|
        {
            &&& 0 <= k < pairs.len()
            &&& register_all(before, #[trigger] pairs.take(k)) == Some(after)
            &&& register_all(before, pairs.take(k + 1)) is None
        }
}

/// One of the discoveries at the places `within` is in the given domain.
pub open spec fn touched(found: Seq<Discovery>, within: Set<int>, domain: Id) -> bool {
    exists|i: int|
        0 <= i < found.len() && within.contains(i) && text_id((#[trigger] found[i]).domain) == domain
}

/// What the discoveries at the places `within` change of the domains and of their URLs: a domain
/// of which a URL is discovered is known from then on.
pub open spec fn discovered_since(
    before: CrawlDb,
    after: CrawlDb,
    found: Seq<Discovery>,
    within: Set<int>,
) -> bool {
    &&& forall|domain: Id|
        states_after_discovery(
            found,
            within,
            domain,
            before.urls@.states(domain),
            #[trigger] after.urls@.states(domain),
        )
    &&& forall|domain: Id| #[trigger]
        after.domain_state@.contains_key(domain) <==> before.domain_state@.contains_key(domain)
            || touched(found, within, domain)
    &&& forall|domain: Id| #[trigger]
        after.domain_state@.contains_key(domain) ==> after.domain_state@[domain].status
            == known_domain(before.domain_state@, domain).status && weight_after_discovery(
            found,
            within,
            domain,
            after.urls@.states(domain),
            known_domain(before.domain_state@, domain).weight,
            after.domain_state@[domain].weight,
        )
    &&& after.urls@.pages == before.urls@.pages
    &&& forall|domain: Id| #[trigger]
        after.urls@.at_hand(domain) <==> before.urls@.at_hand(domain) || touched(
            found,
            within,
            domain,
        )
}

/// What visits, in the given order, change of the domains, of their URLs and of the redirects: a
/// domain of which a URL was visited is known from then on.
pub open spec fn visited_since(
    before: CrawlDb,
    after: CrawlDb,
    made: Seq<Visit>,
    order: Seq<usize>,
) -> bool {
    &&& forall|domain: Id|
        states_after_visits(
            made,
            order,
            domain,
            before.urls@.states(domain),
            #[trigger] after.urls@.states(domain),
        )
    &&& forall|domain: Id| #[trigger]
        after.domain_state@.contains_key(domain) <==> before.domain_state@.contains_key(domain)
            || visited(made, order, domain)
    &&& forall|domain: Id| #[trigger]
        after.domain_state@.contains_key(domain) ==> after.domain_state@[domain] == known_domain(
            before.domain_state@,
            domain,
        )
    &&& after.redirects@ == before.redirects@ + redirects_met(made, order)
    &&& after.urls@.pages == before.urls@.pages
    &&& forall|domain: Id| #[trigger]
        after.urls@.at_hand(domain) <==> before.urls@.at_hand(domain) || visited(
            made,
            order,
            domain,
        )
}

/// What holds after one more group of visits, all of them to one domain, is noted.
proof fn lemma_group_settled(
    start: CrawlDb,
    before: CrawlDb,
    after: CrawlDb,
    made: Seq<Visit>,
    order: Seq<usize>,
    more: Seq<usize>,
    domain: Id,
)
    requires
        visited_since(start, before, made, order),
        more.len() > 0,
        forall|k: int|
            0 <= k < more.len() ==> text_id(domain_of(made[#[trigger] more[k] as int].url))
                == domain,
        after.domain_state@ == before.domain_state@.insert(
            domain,
            known_domain(before.domain_state@, domain),
        ),
        forall|other: Id|
            other != domain ==> #[trigger] after.urls@.states(other) == before.urls@.states(other),
        states_after_visits(
            made,
            order + more,
            domain,
            start.urls@.states(domain),
            after.urls@.states(domain),
        ),
        after.redirects@ == start.redirects@ + redirects_met(made, order + more),
        after.urls@.pages == before.urls@.pages,
        forall|other: Id| #[trigger]
            after.urls@.at_hand(other) <==> before.urls@.at_hand(other) || other == domain,
    ensures
        visited_since(start, after, made, order + more),
{
    let longer = order + more;
    assert forall|other: Id| visited(made, longer, other) == (visited(made, order, other) || other
        == domain) by {
        if visited(made, order, other) {
            let k = choose|k: int|
                0 <= k < order.len() && text_id(domain_of(made[#[trigger] order[k] as int].url))
                    == other;
            assert(longer[k] == order[k]);
        }
        assert(longer[order.len() as int] == more[0]);
        if visited(made, longer, other) {
            let k = choose|k: int|
                0 <= k < longer.len() && text_id(domain_of(made[#[trigger] longer[k] as int].url))
                    == other;
            if k < order.len() {
                assert(longer[k] == order[k]);
            } else {
                assert(longer[k] == more[k - order.len()]);
            }
        }
    }
    assert forall|other: Id|
        states_after_visits(
            made,
            longer,
            other,
            start.urls@.states(other),
            #[trigger] after.urls@.states(other),
        ) by {
        if other != domain {
            assert forall|url: Id| #[trigger]
                last_settled(made, longer, other, url) == last_settled(made, order, other, url) by {
                lemma_settled_elsewhere(made, order, more, other, url);
            }
            assert(after.urls@.states(other) == before.urls@.states(other));
        }
    }
    assert forall|other: Id| #[trigger] after.domain_state@.contains_key(other) implies
        after.domain_state@[other] == known_domain(start.domain_state@, other) by {
        assert(before.domain_state@.contains_key(other) || other == domain);
        if !before.domain_state@.contains_key(other) {
            assert(!start.domain_state@.contains_key(other));
        }
    }
}

/// The identifiers of a list of texts.
pub open spec fn pair_ids(pairs: Seq<IdPair>) -> Seq<Id> {
    pairs.map_values(|pair: IdPair| pair.1)
}

/// The names of the domains of a list of URLs.
pub open spec fn domains_of(urls: Seq<Seq<char>>) -> Seq<Seq<char>> {
    urls.map_values(|url: Seq<char>| domain_of(url))
}

/// The seed has the given identifiers, of its domain and of its own.
pub open spec fn seed_is(db: CrawlDb, seed: Seq<char>, domain: Id, url: Id) -> bool {
    db.domain_ids.id_for(domain_of(seed)) == domain && db.url_ids.id_for(seed) == url
}

/// The identifiers of the domains of a list of seeds.
pub open spec fn seed_domain_ids(db: CrawlDb, seeds: Seq<Seq<char>>) -> Seq<Id> {
    seeds.map_values(|seed: Seq<char>| db.domain_ids.id_for(domain_of(seed)))
}

/// One of the seeds has the given identifiers.
pub open spec fn seeded(db: CrawlDb, seeds: Seq<Seq<char>>, domain: Id, url: Id) -> bool {
    exists|i: int| 0 <= i < seeds.len() && seed_is(db, #[trigger] seeds[i], domain, url)
}

/// One of the seeds is in the given domain.
pub open spec fn seeded_domain(db: CrawlDb, seeds: Seq<Seq<char>>, domain: Id) -> bool {
    exists|i: int|
        0 <= i < seeds.len() && db.domain_ids.id_for(domain_of(#[trigger] seeds[i])) == domain
}

/// What seeds change of the domains and of their URLs: the domain of a seed is known from then
/// on, and the seed is as fresh as if nothing were known of it.
pub open spec fn seeded_since(before: CrawlDb, after: CrawlDb, seeds: Seq<Seq<char>>) -> bool {
    &&& forall|domain: Id, url: Id| #[trigger]
        after.urls@.states(domain).contains_key(url) <==> before.urls@.states(domain).contains_key(
            url,
        ) || seeded(before, seeds, domain, url)
    &&& forall|domain: Id, url: Id| #[trigger]
        after.urls@.states(domain).contains_key(url) ==> after.urls@.states(domain)[url] == (
        if seeded(before, seeds, domain, url) {
            fresh_url()
        } else {
            before.urls@.states(domain)[url]
        })
    &&& forall|domain: Id| #[trigger]
        after.domain_state@.contains_key(domain) <==> before.domain_state@.contains_key(domain)
            || seeded_domain(before, seeds, domain)
    &&& forall|domain: Id| #[trigger]
        after.domain_state@.contains_key(domain) ==> after.domain_state@[domain] == known_domain(
            before.domain_state@,
            domain,
        )
    &&& after.urls@.pages == before.urls@.pages
    &&& forall|domain: Id| #[trigger]
        after.urls@.at_hand(domain) <==> before.urls@.at_hand(domain) || seeded_domain(
            before,
            seeds,
            domain,
        )
}

/// The seeds up to the one at `k` are noted; the identifier of that one, or of its domain, could
/// not be registered.
pub open spec fn seeds_stopped(
    before: CrawlDb,
    after: CrawlDb,
    seeds: Seq<Seq<char>>,
    k: int,
) -> bool {
    let domains = before.domain_ids;
    let urls = before.url_ids;
    let names = domains_of(seeds);
    &&& 0 <= k < seeds.len()
    &&& seeded_since(before, after, seeds.take(k))
    &&& rewritten_in_turn(before.urls@, after.urls@, seed_domain_ids(before, seeds.take(k)))
    &&& enroll_all(urls.store(), urls.cached_ids(), seeds.take(k)) == Some(after.url_ids.store())
    &&& match enroll_all(domains.store(), domains.cached_ids(), names.take(k + 1)) {
        None => enroll_all(domains.store(), domains.cached_ids(), names.take(k)) == Some(
            after.domain_ids.store(),
        ),
        Some(store) => after.domain_ids.store() == store && enroll_all(
            urls.store(),
            urls.cached_ids(),
            seeds.take(k + 1),
        ) is None,
    }
}

/// What holds after one more seed is noted.
proof fn lemma_seed_noted(
    start: CrawlDb,
    before: CrawlDb,
    after: CrawlDb,
    seeds: Seq<Seq<char>>,
    seed: Seq<char>,
    domain: Id,
    url: Id,
)
    requires
        seeded_since(start, before, seeds),
        seed_is(start, seed, domain, url),
        after.domain_state@ == before.domain_state@.insert(
            domain,
            known_domain(before.domain_state@, domain),
        ),
        after.urls@.states(domain) == before.urls@.states(domain).insert(url, fresh_url()),
        forall|other: Id|
            other != domain ==> #[trigger] after.urls@.states(other) == before.urls@.states(other),
        after.urls@.pages == before.urls@.pages,
        forall|other: Id| #[trigger]
            after.urls@.at_hand(other) <==> before.urls@.at_hand(other) || other == domain,
    ensures
        seeded_since(start, after, seeds.push(seed)),
{
    let more = seeds.push(seed);
    assert(more[seeds.len() as int] == seed);
    assert forall|d: Id, u: Id| #[trigger]
        seeded(start, more, d, u) <==> seeded(start, seeds, d, u) || (d == domain && u == url) by {
        if seeded(start, seeds, d, u) {
            let i = choose|i: int|
                0 <= i < seeds.len() && seed_is(start, #[trigger] seeds[i], d, u);
            assert(more[i] == seeds[i]);
        }
        if seeded(start, more, d, u) {
            let i = choose|i: int| 0 <= i < more.len() && seed_is(start, #[trigger] more[i], d, u);
            if i < seeds.len() {
                assert(more[i] == seeds[i]);
            }
        }
    }
    assert forall|d: Id| #[trigger]
        seeded_domain(start, more, d) <==> seeded_domain(start, seeds, d) || d == domain by {
        if seeded_domain(start, seeds, d) {
            let i = choose|i: int|
                0 <= i < seeds.len() && start.domain_ids.id_for(domain_of(#[trigger] seeds[i]))
                    == d;
            assert(more[i] == seeds[i]);
        }
        if seeded_domain(start, more, d) {
            let i = choose|i: int|
                0 <= i < more.len() && start.domain_ids.id_for(domain_of(#[trigger] more[i])) == d;
            if i < seeds.len() {
                assert(more[i] == seeds[i]);
            }
        }
    }
    assert forall|d: Id, u: Id| #[trigger]
        after.urls@.states(d).contains_key(u) <==> start.urls@.states(d).contains_key(u) || seeded(
            start,
            more,
            d,
            u,
        ) by {
        assert(before.urls@.states(d).contains_key(u) <==> start.urls@.states(d).contains_key(u)
            || seeded(start, seeds, d, u));
    }
    assert forall|d: Id, u: Id| #[trigger] after.urls@.states(d).contains_key(u) implies
        after.urls@.states(d)[u] == (if seeded(start, more, d, u) {
        fresh_url()
    } else {
        start.urls@.states(d)[u]
    }) by {
        assert(d == domain && u == url || before.urls@.states(d).contains_key(u));
    }
    assert forall|d: Id| #[trigger] after.domain_state@.contains_key(d) implies
        after.domain_state@[d] == known_domain(start.domain_state@, d) by {
        assert(before.domain_state@.contains_key(d) || d == domain);
        if !before.domain_state@.contains_key(d) {
            assert(!start.domain_state@.contains_key(d));
        }
    }
}

/// The identifier of a domain.
#[derive(Clone, Copy, Debug, PartialEq, Eq, Hash, PartialOrd, Ord, Structural)]
pub struct DomainId(pub u128);

impl From<u128> for DomainId {
    fn from(id: u128) -> (domain_id: DomainId) {
        DomainId(id)
    }
}

impl vstd::std_specs::convert::FromSpecImpl<u128> for DomainId {
    open spec fn obeys_from_spec() -> bool {
        true
    }

    open spec fn from_spec(id: u128) -> DomainId {
        DomainId(id)
    }
}

/// The plain identifiers of a list of domains.
pub open spec fn plain_ids(domains: Seq<DomainId>) -> Seq<Id> {
    domains.map_values(|domain: DomainId| domain.0)
}

/// The states of the domains after the listed ones are handed out to be crawled.
pub open spec fn handed_out(states: DomainStates, domains: Seq<Id>) -> DomainStates {
    Map::new(
        |domain: Id| states.contains_key(domain),
        |domain: Id|
            if domains.contains(domain) {
                DomainState { status: DomainStatus::CrawlInProgress, ..states[domain] }
            } else {
                states[domain]
            },
    )
}

/// The texts of a list of URLs.
pub open spec fn url_texts(urls: Seq<Url>) -> Seq<Seq<char>> {
    urls.map_values(|url: Url| url@)
}

/// The domain is known and its text is saved.
pub open spec fn domain_is_saved(db: CrawlDb, domain: Id) -> bool {
    db.domain_state@.contains_key(domain) && db.domain_ids.store().readable(domain)
}

/// What the stored text of a URL is read as: it has to be saved, and to be a URL.
pub open spec fn url_read(db: CrawlDb, url: Id) -> Result<Seq<char>, Error> {
    if !db.url_ids.store().readable(url) {
        Err(Error::TextNotSaved)
    } else {
        match url_serialization(db.url_ids.store().entries[url].text) {
            Some(text) => Ok(text),
            None => Err(Error::InvalidUrl),
        }
    }
}

/// The stored texts of the listed URLs can be read.
pub open spec fn urls_are_read(db: CrawlDb, urls: Seq<Id>) -> bool {
    forall|i: int| 0 <= i < urls.len() ==> url_read(db, #[trigger] urls[i]) is Ok
}

/// The first of the listed URLs that cannot be read gives the error.
pub open spec fn first_unread(db: CrawlDb, urls: Seq<Id>, error: Error) -> bool {
    exists|k: int|
        {
            &&& 0 <= k < urls.len()
            &&& url_read(db, #[trigger] urls[k]) == Err::<Seq<char>, Error>(error)
            &&& forall|i: int| 0 <= i < k ==> url_read(db, #[trigger] urls[i]) is Ok
        }
}

/// The texts of all URLs of the domain that are pending are saved.
pub open spec fn pending_are_saved(db: CrawlDb, domain: Id) -> bool {
    forall|url: Id| #[trigger]
        pending_urls(db.urls@.states(domain)).contains_key(url) ==> db.url_ids.store().readable(url)
}

/// The stored texts of all URLs of the domain that are pending can be read.
pub open spec fn pending_are_read(db: CrawlDb, domain: Id) -> bool {
    forall|url: Id| #[trigger]
        pending_urls(db.urls@.states(domain)).contains_key(url) ==> url_read(db, url) is Ok
}

/// What becomes of the crawl when a job with the given URLs of a domain is started, and what the
/// job is: the URLs are being crawled from then on; the domain then weighs as much as the
/// heaviest URL that is left pending.
pub open spec fn job_started(
    before: CrawlDb,
    after: CrawlDb,
    domain: Id,
    sampled: Seq<Id>,
    job: Job,
) -> bool {
    &&& urls_are_read(before, sampled)
    &&& url_texts(job.urls@) == sampled.map_values(|url: Id| url_read(before, url)->Ok_0)
    &&& job.domain@ == before.domain_ids.store().entries[domain].text
    &&& !job.fetch_sitemap
    &&& rewritten(before.urls@, after.urls@, domain)
    &&& after.urls@.pages == before.urls@.pages
    &&& forall|other: Id| #[trigger]
        after.urls@.at_hand(other) <==> before.urls@.at_hand(other) || other == domain
    &&& after.urls@.states(domain) == crawling(before.urls@.states(domain), sampled)
    &&& forall|other: Id|
        other != domain ==> #[trigger] after.urls@.states(other) == before.urls@.states(other)
    &&& before.domain_state@.contains_key(domain)
    &&& after.domain_state@.contains_key(domain)
    &&& is_heaviest(
        pending_urls(after.urls@.states(domain)),
        after.domain_state@[domain].weight,
    )
    &&& after.domain_state@ == before.domain_state@.insert(
        domain,
        DomainState { weight: after.domain_state@[domain].weight, ..before.domain_state@[domain] },
    )
    &&& same_texts(before, after)
}

/// What becomes of the crawl when a job for one domain is prepared, and what the job is: it holds
/// a sample of the pending URLs of the domain.
pub open spec fn job_prepared<F: Fn(u64) -> u64>(
    before: CrawlDb,
    after: CrawlDb,
    domain: Id,
    wanted: nat,
    draw: F,
    job: Job,
) -> bool {
    exists|sampled: Seq<Id>|
        {
            &&& #[trigger] is_sample_of(
                pending_urls(before.urls@.states(domain)),
                wanted,
                draw,
                sampled,
            )
            &&& job_started(before, after, domain, sampled, job)
        }
}

/// The URLs that were sampled for a job of the domain cannot all be read.
pub open spec fn sample_not_read<F: Fn(u64) -> u64>(
    db: CrawlDb,
    domain: Id,
    wanted: nat,
    draw: F,
    error: Error,
) -> bool {
    exists|sampled: Seq<Id>| #[trigger]
        is_sample_of(pending_urls(db.urls@.states(domain)), wanted, draw, sampled) && first_unread(
            db,
            sampled,
            error,
        )
}

/// The two differ at most in how the states of domains are cached.
pub open spec fn same_crawl(before: CrawlDb, after: CrawlDb) -> bool {
    &&& same_texts(before, after)
    &&& after.urls@.pages == before.urls@.pages
    &&& forall|domain: Id| #[trigger]
        after.urls@.at_hand(domain) == before.urls@.at_hand(domain)
    &&& after.domain_state@ == before.domain_state@
    &&& forall|domain: Id| #[trigger] after.urls@.states(domain) == before.urls@.states(domain)
}

/// Jobs for the first `k` of the domains were prepared; the URLs that were sampled for the next
/// one cannot all be read.
pub open spec fn jobs_stopped<F: Fn(u64) -> u64>(
    before: CrawlDb,
    last: CrawlDb,
    after: CrawlDb,
    domains: Seq<Id>,
    wanted: nat,
    draw: F,
    jobs: Seq<Job>,
    k: int,
    error: Error,
) -> bool {
    &&& 0 <= k < domains.len()
    &&& jobs_prepared(before, last, domains.take(k), wanted, draw, jobs)
    &&& sample_not_read(last, domains[k], wanted, draw, error)
    &&& same_crawl(last, after)
    &&& after.urls@ == last.urls@.get(domains[k])
}

/// The preparation of jobs stopped at a domain whose sampled URLs cannot all be read.
pub open spec fn preparation_stopped<F: Fn(u64) -> u64>(
    before: CrawlDb,
    after: CrawlDb,
    domains: Seq<Id>,
    wanted: nat,
    draw: F,
    error: Error,
) -> bool {
    exists|last: CrawlDb, jobs: Seq<Job>, k: int|
        jobs_stopped(before, last, after, domains, wanted, draw, jobs, k, error)
}

/// The tables of identifiers hold the same texts and give the same identifiers, and the redirects
/// are the same.
pub open spec fn same_texts(before: CrawlDb, after: CrawlDb) -> bool {
    &&& after.redirects == before.redirects
    &&& after.url_ids.store() == before.url_ids.store()
    &&& after.url_ids.cached_ids() == before.url_ids.cached_ids()
    &&& after.domain_ids.store() == before.domain_ids.store()
    &&& after.domain_ids.cached_ids() == before.domain_ids.cached_ids()
}

/// The stages that the crawl goes through while one job after the other is prepared.
pub open spec fn jobs_prepared_by<F: Fn(u64) -> u64>(
    before: CrawlDb,
    after: CrawlDb,
    stages: Seq<CrawlDb>,
    domains: Seq<Id>,
    wanted: nat,
    draw: F,
    jobs: Seq<Job>,
) -> bool {
    &&& stages.len() == domains.len() + 1
    &&& stages[0] == before
    &&& stages[domains.len() as int] == after
    &&& jobs.len() == domains.len()
    &&& forall|i: int|
        0 <= i < jobs.len() ==> job_prepared(
            stages[i],
            stages[i + 1],
            domains[i],
            wanted,
            draw,
            #[trigger] jobs[i],
        )
}

/// What becomes of the crawl when a job for each of the domains is prepared, one after the other,
/// and what the jobs are.
pub open spec fn jobs_prepared<F: Fn(u64) -> u64>(
    before: CrawlDb,
    after: CrawlDb,
    domains: Seq<Id>,
    wanted: nat,
    draw: F,
    jobs: Seq<Job>,
) -> bool {
    exists|stages: Seq<CrawlDb>|
        jobs_prepared_by(before, after, stages, domains, wanted, draw, jobs)
}

/// Without a discovery nothing changes.
proof fn lemma_nothing_discovered(found: Seq<Discovery>, domain: Id)
    ensures
        forall|url: Id| !#[trigger] discovered(found, Set::empty(), domain, url),
        forall|url: Id| #[trigger]
            from_elsewhere(found, Set::empty(), domain, url) == Set::<int>::empty(),
        !touched(found, Set::empty(), domain),
{
    assert forall|url: Id| #[trigger]
        from_elsewhere(found, Set::empty(), domain, url) == Set::<int>::empty() by {
        assert(from_elsewhere(found, Set::empty(), domain, url) =~= Set::<int>::empty());
    }
}

/// A domain that is still unknown weighs nothing, before and after.
proof fn lemma_untouched_weight(
    before: CrawlDb,
    after: CrawlDb,
    found: Seq<Discovery>,
    within: Set<int>,
    domain: Id,
)
    requires
        discovered_since(before, after, found, within),
    ensures
        weight_after_discovery(
            found,
            within,
            domain,
            after.urls@.states(domain),
            known_domain(before.domain_state@, domain).weight,
            known_domain(after.domain_state@, domain).weight,
        ),
{
    if !after.domain_state@.contains_key(domain) {
        assert forall|url: Id| !#[trigger] discovered(found, within, domain, url) by {
            if discovered(found, within, domain, url) {
                let i = choose|i: int|
                    0 <= i < found.len() && within.contains(i) && concerns(
                        #[trigger] found[i],
                        domain,
                        url,
                    );
                assert(text_id(found[i].domain) == domain);
            }
        }
    }
}

/// What holds after one more group of discoveries, all of them in one domain, is noted.
proof fn lemma_group_inserted(
    start: CrawlDb,
    before: CrawlDb,
    after: CrawlDb,
    found: Seq<Discovery>,
    within: Set<int>,
    more: Set<int>,
    domain: Id,
)
    requires
        discovered_since(start, before, found, within),
        within.subset_of(more),
        forall|i: int|
            0 <= i < found.len() && more.contains(i) && !within.contains(i) ==> text_id(
                (#[trigger] found[i]).domain,
            ) == domain,
        touched(found, more, domain),
        after.domain_state@.contains_key(domain),
        after.domain_state@ == before.domain_state@.insert(domain, after.domain_state@[domain]),
        after.domain_state@[domain].status == known_domain(before.domain_state@, domain).status,
        forall|other: Id|
            other != domain ==> #[trigger] after.urls@.states(other) == before.urls@.states(other),
        states_after_discovery(
            found,
            more,
            domain,
            start.urls@.states(domain),
            after.urls@.states(domain),
        ),
        weight_after_discovery(
            found,
            more,
            domain,
            after.urls@.states(domain),
            known_domain(start.domain_state@, domain).weight,
            after.domain_state@[domain].weight,
        ),
        after.urls@.pages == before.urls@.pages,
        forall|other: Id| #[trigger]
            after.urls@.at_hand(other) <==> before.urls@.at_hand(other) || other == domain,
    ensures
        discovered_since(start, after, found, more),
{
    assert forall|other: Id| other != domain implies touched(found, more, other) == touched(
        found,
        within,
        other,
    ) by {
        if touched(found, more, other) {
            let i = choose|i: int|
                0 <= i < found.len() && more.contains(i) && text_id((#[trigger] found[i]).domain)
                    == other;
            assert(within.contains(i));
        }
    }
    assert forall|other: Id|
        states_after_discovery(
            found,
            more,
            other,
            start.urls@.states(other),
            #[trigger] after.urls@.states(other),
        ) by {
        if other != domain {
            lemma_discovered_elsewhere(found, within, more, other);
            assert(after.urls@.states(other) == before.urls@.states(other));
        }
    }
    assert(before.domain_state@.contains_key(domain) ==> known_domain(
        before.domain_state@,
        domain,
    ).status == known_domain(start.domain_state@, domain).status);
    assert forall|other: Id| #[trigger] after.domain_state@.contains_key(other) implies
        after.domain_state@[other].status == known_domain(start.domain_state@, other).status
        && weight_after_discovery(
        found,
        more,
        other,
        after.urls@.states(other),
        known_domain(start.domain_state@, other).weight,
        after.domain_state@[other].weight,
    ) by {
        if other != domain {
            lemma_discovered_elsewhere(found, within, more, other);
            assert(before.domain_state@.contains_key(other));
            assert(after.urls@.states(other) == before.urls@.states(other));
        }
    }
}

/// Discoveries whose identifiers are registered leave all known identifiers registered.
proof fn lemma_discovered_registered(
    before: CrawlDb,
    after: CrawlDb,
    found: Seq<Discovery>,
    within: Set<int>,
)
    requires
        before.registered(),
        discovered_since(before, after, found, within),
        after.domain_ids.store() == before.domain_ids.store(),
        after.url_ids.store() == before.url_ids.store(),
        forall|i: int|
            0 <= i < found.len() ==> before.domain_ids.store().entries.contains_key(
                text_id((#[trigger] found[i]).domain),
            ) && before.url_ids.store().entries.contains_key(text_id(found[i].url)),
    ensures
        after.registered(),
{
    assert forall|domain: Id, url: Id| #[trigger]
        after.urls@.states(domain).contains_key(
            url,
        ) implies after.url_ids.store().entries.contains_key(url) by {
        assert(states_after_discovery(
            found,
            within,
            domain,
            before.urls@.states(domain),
            after.urls@.states(domain),
        ));
        if !before.urls@.states(domain).contains_key(url) {
            let i = choose|i: int|
                0 <= i < found.len() && within.contains(i) && concerns(
                    #[trigger] found[i],
                    domain,
                    url,
                );
            assert(text_id(found[i].url) == url);
        }
    }
    assert forall|domain: Id| #[trigger]
        after.domain_state@.contains_key(
            domain,
        ) implies after.domain_ids.store().entries.contains_key(domain) by {
        if !before.domain_state@.contains_key(domain) {
            let i = choose|i: int|
                0 <= i < found.len() && within.contains(i) && text_id((#[trigger] found[i]).domain)
                    == domain;
            assert(text_id(found[i].domain) == domain);
        }
    }
}

/// Visits whose identifiers are registered leave all known identifiers registered.
proof fn lemma_visited_registered(
    before: CrawlDb,
    after: CrawlDb,
    made: Seq<Visit>,
    order: Seq<usize>,
)
    requires
        before.registered(),
        visited_since(before, after, made, order),
        after.domain_ids.store() == before.domain_ids.store(),
        after.url_ids.store() == before.url_ids.store(),
        forall|k: int|
            0 <= k < order.len() ==> before.domain_ids.store().entries.contains_key(
                text_id(domain_of(made[#[trigger] order[k] as int].url)),
            ) && before.url_ids.store().entries.contains_key(
                text_id(made[order[k] as int].url),
            ),
    ensures
        after.registered(),
{
    assert forall|domain: Id, url: Id| #[trigger]
        after.urls@.states(domain).contains_key(
            url,
        ) implies after.url_ids.store().entries.contains_key(url) by {
        assert(states_after_visits(
            made,
            order,
            domain,
            before.urls@.states(domain),
            after.urls@.states(domain),
        ));
        if !before.urls@.states(domain).contains_key(url) {
            lemma_settled_was_visited(made, order, domain, url);
            let k = choose|k: int|
                0 <= k < order.len() && text_id(made[#[trigger] order[k] as int].url) == url;
            assert(text_id(made[order[k] as int].url) == url);
        }
    }
    assert forall|domain: Id| #[trigger]
        after.domain_state@.contains_key(
            domain,
        ) implies after.domain_ids.store().entries.contains_key(domain) by {
        if !before.domain_state@.contains_key(domain) {
            let k = choose|k: int|
                0 <= k < order.len() && text_id(domain_of(made[#[trigger] order[k] as int].url))
                    == domain;
            assert(text_id(domain_of(made[order[k] as int].url)) == domain);
        }
    }
}

/// The state of a crawl.
pub struct CrawlDb {
    pub url_ids: IdTable,
    pub domain_ids: IdTable,
    pub redirects: RedirectDb,
    pub domain_state: BTreeMap<u128, DomainState>,
    pub urls: UrlStateDb,
}

impl CrawlDb {
    /// The parts are well-formed.
    pub open spec fn wf(&self) -> bool {
        &&& self.url_ids.wf()
        &&& self.domain_ids.wf()
        &&& self.urls.wf()
        &&& self.urls@.cache_size == URL_STATE_CACHE_SIZE
    }

    /// The states of the URLs of a domain.
    pub open spec fn states(&self, domain: Id) -> StateMap {
        self.urls@.states(domain)
    }

    /// Every URL and every domain has its own identifier.
    pub open spec fn consistent(&self) -> bool {
        self.url_ids.consistent() && self.domain_ids.consistent()
    }

    /// The texts of all known domains and URLs are registered.
    pub open spec fn registered(&self) -> bool {
        &&& forall|domain: Id| #[trigger]
            self.domain_state@.contains_key(domain)
                ==> self.domain_ids.store().entries.contains_key(domain)
        &&& forall|domain: Id, url: Id| #[trigger]
            self.urls@.states(domain).contains_key(url)
                ==> self.url_ids.store().entries.contains_key(url)
    }

    /// An empty state.
    pub fn open() -> (db: CrawlDb)
        ensures
            db.wf(),
            db.urls@.cache_size == 10_000,
            db.consistent(),
            db.registered(),
            db.url_ids.store() == DbView::empty(),
            db.domain_ids.store() == DbView::empty(),
            db.redirects@ == Seq::<Redirect>::empty(),
            db.domain_state@ == DomainStates::empty(),
            db.urls@ == (UrlStateDbView {
                entries: Seq::empty(),
                cache_size: URL_STATE_CACHE_SIZE as nat,
                batch: Map::empty(),
                pages: Map::empty(),
            }),
            forall|domain: Id| #[trigger] db.states(domain) == StateMap::empty(),
    {
        CrawlDb {
            url_ids: IdTable::open(),
            domain_ids: IdTable::open(),
            redirects: RedirectDb::open(),
            domain_state: BTreeMap::new(),
            urls: UrlStateDb::open(URL_STATE_CACHE_SIZE),
        }
    }

    /// Makes URLs known to start a crawl from. Where a table of identifiers is full, the URLs
    /// before the one that no longer fits are noted.
    pub fn insert_seed_urls(&mut self, urls: &Vec<Url>) -> (result: Result<(), Error>)
        requires
            old(self).wf(),
        ensures
            final(self).wf(),
            old(self).urls@.leads_to(final(self).urls@),
            final(self).redirects == old(self).redirects,
            forall|text: Seq<char>| #[trigger]
                final(self).domain_ids.id_for(text) == old(self).domain_ids.id_for(text),
            forall|text: Seq<char>| #[trigger]
                final(self).url_ids.id_for(text) == old(self).url_ids.id_for(text),
            old(self).consistent() ==> final(self).consistent(),
            old(self).registered() ==> final(self).registered(),
            ({
                let seeds = url_texts(urls@);
                let new_domains = enroll_all(
                    old(self).domain_ids.store(),
                    old(self).domain_ids.cached_ids(),
                    domains_of(seeds),
                );
                let new_urls = enroll_all(
                    old(self).url_ids.store(),
                    old(self).url_ids.cached_ids(),
                    seeds,
                );
                match result {
                    Ok(_) => {
                        &&& new_domains == Some(final(self).domain_ids.store())
                        &&& new_urls == Some(final(self).url_ids.store())
                        &&& seeded_since(*old(self), *final(self), seeds)
                        &&& rewritten_in_turn(
                            old(self).urls@,
                            final(self).urls@,
                            seed_domain_ids(*old(self), seeds),
                        )
                        &&& old(self).consistent() ==> forall|i: int|
                            0 <= i < urls@.len() ==> {
                                let domain = text_id(domain_of((#[trigger] urls@[i])@));
                                let url = text_id(urls@[i]@);
                                &&& final(self).domain_state@.contains_key(domain)
                                &&& final(self).urls@.states(domain).contains_key(url)
                                &&& final(self).urls@.states(domain)[url].status
                                    == UrlStatus::Pending
                                &&& final(self).urls@.states(domain)[url].weight == 0
                            }
                    },
                    Err(error) => {
                        &&& error == Error::StoreFull
                        &&& new_domains is None || new_urls is None
                        &&& exists|k: int| seeds_stopped(*old(self), *final(self), seeds, k)
                    },
                }
            }),
    {
        let ghost seeds = url_texts(urls@);
        let ghost names = domains_of(seeds);
        let mut k: usize = 0;
        proof {
            assert(seeds.take(0) =~= Seq::empty());
            assert(names.take(0) =~= Seq::empty());
            assert(seed_domain_ids(*old(self), seeds.take(0)) =~= Seq::empty());
        }
        while k < urls.len()
            invariant
                k <= urls@.len(),
                seeds == url_texts(urls@),
                names == domains_of(seeds),
                self.wf(),
                self.redirects == old(self).redirects,
                forall|text: Seq<char>| #[trigger]
                    self.domain_ids.id_for(text) == old(self).domain_ids.id_for(text),
                forall|text: Seq<char>| #[trigger]
                    self.url_ids.id_for(text) == old(self).url_ids.id_for(text),
                forall|text: Seq<char>| #[trigger]
                    found(self.domain_ids.cached_ids(), text) == found(
                        old(self).domain_ids.cached_ids(),
                        text,
                    ),
                forall|text: Seq<char>| #[trigger]
                    found(self.url_ids.cached_ids(), text) == found(
                        old(self).url_ids.cached_ids(),
                        text,
                    ),
                enroll_all(
                    old(self).domain_ids.store(),
                    old(self).domain_ids.cached_ids(),
                    names.take(k as int),
                ) == Some(self.domain_ids.store()),
                enroll_all(
                    old(self).url_ids.store(),
                    old(self).url_ids.cached_ids(),
                    seeds.take(k as int),
                ) == Some(self.url_ids.store()),
                seeded_since(*old(self), *self, seeds.take(k as int)),
                rewritten_in_turn(
                    old(self).urls@,
                    self.urls@,
                    seed_domain_ids(*old(self), seeds.take(k as int)),
                ),
                old(self).consistent() ==> self.consistent(),
                old(self).registered() ==> self.registered(),
            decreases urls@.len() - k,
        {
            let url = &urls[k];
            proof {
                assert(names.take(k + 1).drop_last() =~= names.take(k as int));
                assert(names.take(k + 1).last() == domain_of(url@));
                assert(seeds.take(k + 1).drop_last() =~= seeds.take(k as int));
                assert(seeds.take(k + 1).last() == url@);
                assert(seeds.take(k + 1) =~= seeds.take(k as int).push(url@));
            }
            let domain_id: Id = match self.domain_ids.id(&Domain::of(url)) {
                Ok(id) => id,
                Err(error) => {
                    proof {
                        lemma_enroll_all_prefix(
                            old(self).domain_ids.store(),
                            old(self).domain_ids.cached_ids(),
                            names,
                            k + 1,
                        );
                        assert(seeds_stopped(*old(self), *self, seeds, k as int));
                    }
                    return Err(error);
                },
            };
            let url_id: Id = match self.url_ids.id(url) {
                Ok(id) => id,
                Err(error) => {
                    proof {
                        lemma_enroll_all_prefix(
                            old(self).url_ids.store(),
                            old(self).url_ids.cached_ids(),
                            seeds,
                            k + 1,
                        );
                        assert(seeds_stopped(*old(self), *self, seeds, k as int));
                    }
                    return Err(error);
                },
            };
            let ghost before = *self;
            if !self.domain_state.contains_key(&domain_id) {
                self.domain_state.insert(
                    domain_id,
                    DomainState { weight: 0, status: DomainStatus::Pending },
                );
            }
            proof {
                assert(self.domain_state@ =~= before.domain_state@.insert(
                    domain_id,
                    known_domain(before.domain_state@, domain_id),
                ));
                self.urls.lemma_wf();
                law_get_keeps_states(self.urls@, domain_id);
            }
            let mut url_states: UrlStates = self.urls.get(domain_id);
            url_states.insert(url_id, UrlState { weight: 0, status: UrlStatus::Pending });
            proof {
                self.urls.lemma_wf();
                law_put_is_read_back(self.urls@, domain_id, url_states@);
            }
            self.urls.put(domain_id, url_states);
            proof {
                let ids = seed_domain_ids(*old(self), seeds.take(k as int));
                lemma_rewritten_next(
                    old(self).urls@,
                    before.urls@,
                    self.urls@,
                    ids,
                    domain_id,
                );
                assert(seed_domain_ids(*old(self), seeds.take(k + 1)) =~= ids.push(domain_id));
                lemma_seed_noted(
                    *old(self),
                    before,
                    *self,
                    seeds.take(k as int),
                    url@,
                    domain_id,
                    url_id,
                );
            }
            k = k + 1;
        }
        proof {
            assert(seeds.take(k as int) =~= seeds);
            assert(names.take(k as int) =~= names);
            if old(self).consistent() {
                law_seeds_are_fresh(*old(self), *self, seeds, 0, 0);
                assert forall|i: int| 0 <= i < urls@.len() implies {
                    let domain = text_id(domain_of((#[trigger] urls@[i])@));
                    let url = text_id(urls@[i]@);
                    &&& self.domain_state@.contains_key(domain)
                    &&& self.urls@.states(domain).contains_key(url)
                    &&& self.urls@.states(domain)[url].status == UrlStatus::Pending
                    &&& self.urls@.states(domain)[url].weight == 0
                } by {
                    assert(seeds[i] == urls@[i]@);
                }
            }
        }
        Ok(())
    }

    /// Notes the discoveries of one domain.
    fn insert_group(
        &mut self,
        domain_id: Id,
        urls: &Vec<UrlToInsert>,
        group: &Vec<usize>,
        Ghost(found): Ghost<Seq<Discovery>>,
        Ghost(within): Ghost<Set<int>>,
        Ghost(start): Ghost<StateMap>,
        Ghost(start_weight): Ghost<u64>,
    ) -> (now: Ghost<Set<int>>)
        requires
            old(self).wf(),
            found.len() == urls@.len(),
            forall|i: int|
                0 <= i < found.len() ==> (#[trigger] found[i]).url == urls@[i].url@
                    && found[i].different_domain == urls@[i].different_domain,
            within.finite(),
            forall|k: int|
                0 <= k < group@.len() ==> (#[trigger] group@[k]) < found.len() && !within.contains(
                    group@[k] as int,
                ) && text_id(found[group@[k] as int].domain) == domain_id,
            forall|k: int, l: int|
                0 <= k < l < group@.len() ==> (#[trigger] group@[k]) < (#[trigger] group@[l]),
            forall|i: int|
                0 <= i < found.len() ==> old(self).url_ids.id_for((#[trigger] found[i]).url)
                    == text_id(found[i].url) && old(self).url_ids.store().entries.contains_key(
                    text_id(found[i].url),
                ),
            states_after_discovery(found, within, domain_id, start, old(self).states(domain_id)),
            weight_after_discovery(
                found,
                within,
                domain_id,
                old(self).states(domain_id),
                start_weight,
                known_domain(old(self).domain_state@, domain_id).weight,
            ),
        ensures
            final(self).wf(),
            rewritten(old(self).urls@, final(self).urls@, domain_id),
            final(self).urls@.pages == old(self).urls@.pages,
            forall|other: Id| #[trigger]
                final(self).urls@.at_hand(other) <==> old(self).urls@.at_hand(other) || other
                    == domain_id,
            final(self).domain_ids == old(self).domain_ids,
            final(self).redirects == old(self).redirects,
            final(self).url_ids.store() == old(self).url_ids.store(),
            forall|text: Seq<char>| #[trigger]
                final(self).url_ids.id_for(text) == old(self).url_ids.id_for(text),
            forall|other: Id|
                other != domain_id ==> #[trigger] final(self).urls@.states(other) == old(
                    self,
                ).urls@.states(other),
            final(self).domain_state@.contains_key(domain_id),
            final(self).domain_state@ == old(self).domain_state@.insert(
                domain_id,
                final(self).domain_state@[domain_id],
            ),
            final(self).domain_state@[domain_id].status == known_domain(
                old(self).domain_state@,
                domain_id,
            ).status,
            now@.finite(),
            forall|i: int| #[trigger]
                now@.contains(i) <==> within.contains(i) || exists|k: int|
                    0 <= k < group@.len() && #[trigger] group@[k] == i,
            states_after_discovery(found, now@, domain_id, start, final(self).states(domain_id)),
            weight_after_discovery(
                found,
                now@,
                domain_id,
                final(self).states(domain_id),
                start_weight,
                final(self).domain_state@[domain_id].weight,
            ),
    {
        let mut domain_state: DomainState = match self.domain_state.get(&domain_id) {
            Some(state) => *state,
            None => DomainState { weight: 0, status: DomainStatus::Pending },
        };
        proof {
            self.urls.lemma_wf();
            law_get_keeps_states(self.urls@, domain_id);
        }
        let mut url_states: UrlStates = self.urls.get(domain_id);
        let ghost mut now = within;
        let mut k: usize = 0;
        while k < group.len()
            invariant
                k <= group@.len(),
                self.wf(),
                self.urls@ == old(self).urls@.get(domain_id),
                self.urls@.pages == old(self).urls@.pages,
                forall|other: Id| #[trigger]
                    self.urls@.at_hand(other) == old(self).urls@.at_hand(other),
                self.domain_ids == old(self).domain_ids,
                self.redirects == old(self).redirects,
                self.domain_state == old(self).domain_state,
                self.url_ids.store() == old(self).url_ids.store(),
                forall|text: Seq<char>| #[trigger]
                    self.url_ids.id_for(text) == old(self).url_ids.id_for(text),
                forall|other: Id| #[trigger]
                    self.urls@.states(other) == old(self).urls@.states(other),
                found.len() == urls@.len(),
                forall|i: int|
                    0 <= i < found.len() ==> (#[trigger] found[i]).url == urls@[i].url@
                        && found[i].different_domain == urls@[i].different_domain,
                forall|j: int|
                    0 <= j < group@.len() ==> (#[trigger] group@[j]) < found.len()
                        && !within.contains(group@[j] as int) && text_id(
                        found[group@[j] as int].domain,
                    ) == domain_id,
                forall|j: int, l: int|
                    0 <= j < l < group@.len() ==> (#[trigger] group@[j]) < (#[trigger] group@[l]),
                forall|i: int|
                    0 <= i < found.len() ==> old(self).url_ids.id_for((#[trigger] found[i]).url)
                        == text_id(found[i].url) && old(self).url_ids.store().entries.contains_key(
                        text_id(found[i].url),
                    ),
                now.finite(),
                forall|i: int| #[trigger]
                    now.contains(i) <==> within.contains(i) || exists|j: int|
                        0 <= j < k && #[trigger] group@[j] == i,
                states_after_discovery(found, now, domain_id, start, url_states@),
                weight_after_discovery(
                    found,
                    now,
                    domain_id,
                    url_states@,
                    start_weight,
                    domain_state.weight,
                ),
                domain_state.status == known_domain(old(self).domain_state@, domain_id).status,
            decreases group@.len() - k,
        {
            let place: usize = group[k];
            let url = &urls[place];
            match self.url_ids.id(url.url) {
                Ok(url_id) => {
                    let ghost states_before = url_states@;
                    let ghost weight_before = domain_state.weight;
                    domain_state = note_discovery(
                        &mut url_states,
                        domain_state,
                        url_id,
                        url.different_domain,
                    );
                    proof {
                        assert(!now.contains(place as int));
                        lemma_discovery_noted(
                            found,
                            now,
                            place as int,
                            domain_id,
                            start,
                            states_before,
                            url_states@,
                            start_weight,
                            weight_before,
                            domain_state.weight,
                        );
                        now = now.insert(place as int);
                    }
                },
                Err(_) => {
                    assert(false);
                },
            }
            k = k + 1;
        }
        proof {
            self.urls.lemma_wf();
            law_put_is_read_back(self.urls@, domain_id, url_states@);
        }
        self.urls.put(domain_id, url_states);
        self.domain_state.insert(domain_id, domain_state);
        Ghost(now)
    }

    /// Notes the URLs that were discovered. Where a table of identifiers is full, neither URLs
    /// nor domains change.
    pub fn insert_urls(&mut self, responses: &Vec<JobResponse>) -> (result: Result<(), Error>)
        requires
            old(self).wf(),
        ensures
            final(self).wf(),
            old(self).urls@.leads_to(final(self).urls@),
            final(self).redirects == old(self).redirects,
            old(self).consistent() ==> final(self).consistent(),
            old(self).registered() ==> final(self).registered(),
            discoveries(responses@).len() <= usize::MAX,
            ({
                let found = discoveries(responses@);
                let groups = groups_of(discovered_domains(found));
                let domains = domain_pairs(discovered_domains(found), groups);
                let urls = discovered_pairs(found, order_of(groups));
                let new_domains = register_all(old(self).domain_ids.store(), domains);
                let new_urls = register_all(old(self).url_ids.store(), urls);
                match result {
                    Ok(_) => {
                        &&& new_domains matches Some(store) && final(self).domain_ids.store()
                            == store.commit()
                        &&& new_urls matches Some(store) && final(self).url_ids.store()
                            == store.commit()
                        &&& discovered_since(
                            *old(self),
                            *final(self),
                            found,
                            everywhere(found.len()),
                        )
                        &&& rewritten_in_turn(
                            old(self).urls@,
                            final(self).urls@,
                            pair_ids(domains),
                        )
                        &&& forall|domain: Id, url: Id| #[trigger]
                            old(self).urls@.states(domain).contains_key(url) ==> {
                                &&& final(self).urls@.states(domain).contains_key(url)
                                &&& final(self).urls@.states(domain)[url].status == old(
                                    self,
                                ).urls@.states(domain)[url].status
                            }
                        &&& forall|domain: Id, url: Id| #[trigger]
                            final(self).urls@.states(domain).contains_key(url) && !old(
                                self,
                            ).urls@.states(domain).contains_key(url)
                                ==> final(self).urls@.states(domain)[url].status
                                == UrlStatus::Pending
                        &&& forall|r: int, i: int|
                            {
                                &&& 0 <= r < responses@.len()
                                &&& 0 <= i < responses@[r].discovered_urls@.len()
                            } ==> {
                                let url = (#[trigger] responses@[r].discovered_urls@[i])@;
                                final(self).urls@.states(
                                    text_id(domain_of(url)),
                                ).contains_key(text_id(url))
                            }
                    },
                    Err(error) => {
                        &&& error == Error::StoreFull
                        &&& final(self).urls == old(self).urls
                        &&& final(self).domain_state == old(self).domain_state
                        &&& match new_domains {
                            None => registered_partly(
                                old(self).domain_ids.store(),
                                final(self).domain_ids.store(),
                                domains,
                            ) && final(self).url_ids == old(self).url_ids,
                            Some(store) => new_urls is None && final(self).domain_ids.store()
                                == store.commit() && registered_partly(
                                old(self).url_ids.store(),
                                final(self).url_ids.store(),
                                urls,
                            ),
                        }
                    },
                }
            }),
    {
        let (urls, domains, ids) = list_discoveries(responses);
        let groups = group_by_domain(&domains, &ids);
        let ghost found = discoveries(responses@);
        let ghost names = discovered_domains(found);
        let ghost all = groups_view(groups@);
        let domain_items = domains_of_groups(&domains, &ids, &groups);
        let ghost domain_list = domain_pairs(names, all);
        proof {
            assert(own_ids(domain_list));
        }
        match self.domain_ids.bulk_insert_ids(&domain_items) {
            Ok(()) => {},
            Err(error) => {
                return Err(error);
            },
        }
        let url_items = urls_of_groups(&urls, &domains, &groups);
        let ghost url_list = discovered_pairs(found, order_of(all));
        proof {
            assert(own_ids(url_list));
        }
        match self.url_ids.bulk_insert_ids(&url_items) {
            Ok(()) => {},
            Err(error) => {
                return Err(error);
            },
        }
        proof {
            assert forall|i: int| 0 <= i < found.len() implies self.url_ids.id_for(
                (#[trigger] found[i]).url,
            ) == text_id(found[i].url) && self.url_ids.store().entries.contains_key(
                text_id(found[i].url),
            ) by {
                let at = i as usize;
                lemma_order_of(all, at);
                let k = order_of(all).index_of(at);
                assert(url_list[k] == (found[i].url, text_id(found[i].url)));
                law_registered_ids_are_own(&old(self).url_ids, &self.url_ids, url_list, k);
            }
            let domain_entries = self.domain_ids.store().entries;
            assert forall|i: int| 0 <= i < found.len() implies domain_entries.contains_key(
                text_id((#[trigger] found[i]).domain),
            ) by {
                let at = i as usize;
                lemma_domain_is_listed(all, names, found.len() as int, at);
                let g = domain_list.index_of((names[i], text_id(names[i])));
                law_register_all(old(self).domain_ids.store(), domain_list);
                assert(domain_list[g].1 == text_id(names[i]));
            }
        }
        let ghost start = *self;
        proof {
            assert(pair_ids(domain_list.take(0)) =~= Seq::empty());
        }
        let ghost mut within = Set::<int>::empty();
        let mut g: usize = 0;
        proof {
            assert forall|domain: Id|
                states_after_discovery(
                    found,
                    within,
                    domain,
                    start.urls@.states(domain),
                    #[trigger] self.urls@.states(domain),
                ) by {
                lemma_nothing_discovered(found, domain);
            }
            assert forall|domain: Id|
                weight_after_discovery(
                    found,
                    within,
                    domain,
                    self.urls@.states(domain),
                    #[trigger] known_domain(start.domain_state@, domain).weight,
                    known_domain(start.domain_state@, domain).weight,
                ) by {
                lemma_nothing_discovered(found, domain);
            }
        }
        while g < groups.len()
            invariant
                g <= groups@.len(),
                all == groups_view(groups@),
                found.len() == urls@.len(),
                found.len() == ids@.len(),
                names == discovered_domains(found),
                well_grouped(all, names, found.len() as int),
                forall|i: int|
                    0 <= i < found.len() ==> (#[trigger] found[i]).url == urls@[i].url@
                        && found[i].different_domain == urls@[i].different_domain,
                forall|i: int|
                    0 <= i < found.len() ==> text_id((#[trigger] found[i]).domain) == ids@[i],
                forall|i: int|
                    0 <= i < found.len() ==> self.url_ids.id_for((#[trigger] found[i]).url)
                        == text_id(found[i].url) && self.url_ids.store().entries.contains_key(
                        text_id(found[i].url),
                    ),
                self.wf(),
                self.domain_ids == start.domain_ids,
                self.redirects == start.redirects,
                self.url_ids.store() == start.url_ids.store(),
                forall|text: Seq<char>| #[trigger]
                    self.url_ids.id_for(text) == start.url_ids.id_for(text),
                within.finite(),
                forall|place: int| #[trigger]
                    within.contains(place) <==> reached(all, g as int, 0, place),
                discovered_since(start, *self, found, within),
                domain_list == domain_pairs(names, all),
                rewritten_in_turn(
                    start.urls@,
                    self.urls@,
                    pair_ids(domain_list.take(g as int)),
                ),
            decreases groups@.len() - g,
        {
            let group = &groups[g];
            proof {
                assert(all[g as int] == group@);
                assert(all[g as int][0] < found.len());
            }
            let domain_id: Id = ids[group[0]];
            let ghost before = *self;
            let ghost within_before = within;
            proof {
                lemma_group_is_new(all, names, found.len() as int, g as int);
                assert forall|k: int| 0 <= k < group@.len() implies (#[trigger] group@[k])
                    < found.len() && !within.contains(group@[k] as int) && text_id(
                    found[group@[k] as int].domain,
                ) == domain_id by {
                    assert(all[g as int][k] == group@[k]);
                    assert(names[group@[k] as int] == names[group@[0] as int]);
                }
                assert forall|k: int, l: int| 0 <= k < l < group@.len() implies (
                #[trigger] group@[k]) < (#[trigger] group@[l]) by {
                    assert(all[g as int][k] < all[g as int][l]);
                }
                lemma_untouched_weight(start, *self, found, within, domain_id);
            }
            let Ghost(now) = self.insert_group(
                domain_id,
                &urls,
                group,
                Ghost(found),
                Ghost(within),
                Ghost(start.urls@.states(domain_id)),
                Ghost(known_domain(start.domain_state@, domain_id).weight),
            );
            proof {
                lemma_group_reached(all, g as int);
                within = now;
                lemma_rewritten_next(
                    start.urls@,
                    before.urls@,
                    self.urls@,
                    pair_ids(domain_list.take(g as int)),
                    domain_id,
                );
                assert(domain_list[g as int].1 == domain_id);
                assert(pair_ids(domain_list.take(g + 1)) =~= pair_ids(
                    domain_list.take(g as int),
                ).push(domain_id));
                lemma_group_inserted(start, before, *self, found, within_before, within, domain_id);
            }
            g = g + 1;
        }
        proof {
            assert(urls.len() == found.len());
            lemma_all_reached(all, names, found.len() as int);
            assert(domain_list.take(g as int) =~= domain_list);
            assert(within =~= everywhere(found.len()));
            if old(self).registered() {
                assert(start.registered());
                lemma_discovered_registered(start, *self, found, within);
            }
            law_discoveries_lose_nothing(*old(self), *self, responses@);
        }
        Ok(())
    }

    /// Notes the visits to one domain.
    fn settle_group(
        &mut self,
        domain_id: Id,
        responses: &Vec<&UrlResponse>,
        group: &Vec<usize>,
        Ghost(made): Ghost<Seq<Visit>>,
        Ghost(order): Ghost<Seq<usize>>,
        Ghost(start): Ghost<StateMap>,
        Ghost(redirects): Ghost<Seq<Redirect>>,
    )
        requires
            old(self).wf(),
            made == visits_view(responses@),
            forall|k: int|
                0 <= k < group@.len() ==> (#[trigger] group@[k]) < made.len() && text_id(
                    domain_of(made[group@[k] as int].url),
                ) == domain_id,
            forall|i: int|
                0 <= i < made.len() ==> old(self).url_ids.id_for((#[trigger] made[i]).url)
                    == text_id(made[i].url) && old(self).url_ids.store().entries.contains_key(
                    text_id(made[i].url),
                ),
            states_after_visits(made, order, domain_id, start, old(self).urls@.states(domain_id)),
            old(self).redirects@ == redirects + redirects_met(made, order),
        ensures
            final(self).wf(),
            rewritten(old(self).urls@, final(self).urls@, domain_id),
            final(self).urls@.pages == old(self).urls@.pages,
            forall|other: Id| #[trigger]
                final(self).urls@.at_hand(other) <==> old(self).urls@.at_hand(other) || other
                    == domain_id,
            final(self).domain_ids == old(self).domain_ids,
            final(self).url_ids.store() == old(self).url_ids.store(),
            forall|text: Seq<char>| #[trigger]
                final(self).url_ids.id_for(text) == old(self).url_ids.id_for(text),
            forall|other: Id|
                other != domain_id ==> #[trigger] final(self).urls@.states(other) == old(
                    self,
                ).urls@.states(other),
            final(self).domain_state@ == old(self).domain_state@.insert(
                domain_id,
                known_domain(old(self).domain_state@, domain_id),
            ),
            states_after_visits(
                made,
                order + group@,
                domain_id,
                start,
                final(self).urls@.states(domain_id),
            ),
            final(self).redirects@ == redirects + redirects_met(made, order + group@),
    {
        if !self.domain_state.contains_key(&domain_id) {
            self.domain_state.insert(
                domain_id,
                DomainState { weight: 0, status: DomainStatus::Pending },
            );
        }
        proof {
            assert(self.domain_state@ =~= old(self).domain_state@.insert(
                domain_id,
                known_domain(old(self).domain_state@, domain_id),
            ));
            self.urls.lemma_wf();
            law_get_keeps_states(self.urls@, domain_id);
            assert(order + group@.take(0) =~= order);
        }
        let mut url_states: UrlStates = self.urls.get(domain_id);
        let ghost domain_state = self.domain_state;
        let mut k: usize = 0;
        while k < group.len()
            invariant
                k <= group@.len(),
                self.wf(),
                self.urls@ == old(self).urls@.get(domain_id),
                self.urls@.pages == old(self).urls@.pages,
                forall|other: Id| #[trigger]
                    self.urls@.at_hand(other) == old(self).urls@.at_hand(other),
                self.domain_ids == old(self).domain_ids,
                self.domain_state == domain_state,
                self.url_ids.store() == old(self).url_ids.store(),
                forall|text: Seq<char>| #[trigger]
                    self.url_ids.id_for(text) == old(self).url_ids.id_for(text),
                forall|other: Id| #[trigger]
                    self.urls@.states(other) == old(self).urls@.states(other),
                made == visits_view(responses@),
                forall|j: int|
                    0 <= j < group@.len() ==> (#[trigger] group@[j]) < made.len() && text_id(
                        domain_of(made[group@[j] as int].url),
                    ) == domain_id,
                forall|i: int|
                    0 <= i < made.len() ==> old(self).url_ids.id_for((#[trigger] made[i]).url)
                        == text_id(made[i].url) && old(self).url_ids.store().entries.contains_key(
                        text_id(made[i].url),
                    ),
                states_after_visits(
                    made,
                    order + group@.take(k as int),
                    domain_id,
                    start,
                    url_states@,
                ),
                self.redirects@ == redirects + redirects_met(made, order + group@.take(k as int)),
            decreases group@.len() - k,
        {
            let place: usize = group[k];
            let ghost so_far = order + group@.take(k as int);
            let ghost states_before = url_states@;
            proof {
                assert(order + group@.take(k + 1) =~= so_far.push(place));
                assert(so_far.push(place).drop_last() =~= so_far);
                assert(made[place as int] == visit_of(*responses@[place as int]));
            }
            match responses[place] {
                UrlResponse::Success { url } => {
                    match self.url_ids.id(url) {
                        Ok(url_id) => {
                            settle(&mut url_states, url_id, UrlStatus::Done);
                        },
                        Err(_) => {
                            assert(false);
                        },
                    }
                },
                UrlResponse::Failed { url, status_code } => {
                    match self.url_ids.id(url) {
                        Ok(url_id) => {
                            settle(
                                &mut url_states,
                                url_id,
                                UrlStatus::Failed { status_code: *status_code },
                            );
                        },
                        Err(_) => {
                            assert(false);
                        },
                    }
                },
                UrlResponse::Redirected { url, new_url } => {
                    self.redirects.put(url, new_url);
                },
            }
            proof {
                lemma_visit_noted(
                    made,
                    so_far,
                    place,
                    domain_id,
                    start,
                    states_before,
                    url_states@,
                );
                assert(self.redirects@ =~= redirects + redirects_met(made, so_far.push(place)));
            }
            k = k + 1;
        }
        proof {
            assert(group@.take(k as int) =~= group@);
            self.urls.lemma_wf();
            law_put_is_read_back(self.urls@, domain_id, url_states@);
        }
        self.urls.put(domain_id, url_states);
    }

    /// Notes what became of visited URLs. Where a table of identifiers is full, neither URLs nor
    /// domains nor redirects change.
    pub fn update_url_status(&mut self, job_responses: &Vec<JobResponse>) -> (result: Result<
        (),
        Error,
    >)
        requires
            old(self).wf(),
        ensures
            final(self).wf(),
            old(self).urls@.leads_to(final(self).urls@),
            old(self).consistent() ==> final(self).consistent(),
            old(self).registered() ==> final(self).registered(),
            visits(job_responses@).len() <= usize::MAX,
            ({
                let made = visits(job_responses@);
                let groups = groups_of(visited_domains(made));
                let urls = visited_pairs(made, order_of(groups));
                let domains = domain_pairs(visited_domains(made), groups);
                let new_urls = register_all(old(self).url_ids.store(), urls);
                let new_domains = register_all(old(self).domain_ids.store(), domains);
                match result {
                    Ok(_) => {
                        &&& new_urls matches Some(store) && final(self).url_ids.store()
                            == store.commit()
                        &&& new_domains matches Some(store) && final(self).domain_ids.store()
                            == store.commit()
                        &&& visited_since(*old(self), *final(self), made, order_of(groups))
                        &&& rewritten_in_turn(
                            old(self).urls@,
                            final(self).urls@,
                            pair_ids(domains),
                        )
                        &&& forall|r: int, i: int| #[trigger]
                            last_word(job_responses@, r, i)
                                ==> match job_responses@[r].url_responses@[i] {
                                UrlResponse::Success { url } => {
                                    let now = final(self).urls@.states(text_id(domain_of(url@)));
                                    &&& now.contains_key(text_id(url@))
                                    &&& now[text_id(url@)].status == UrlStatus::Done
                                },
                                UrlResponse::Failed { url, status_code } => {
                                    let now = final(self).urls@.states(text_id(domain_of(url@)));
                                    &&& now.contains_key(text_id(url@))
                                    &&& now[text_id(url@)].status == (UrlStatus::Failed {
                                        status_code,
                                    })
                                },
                                UrlResponse::Redirected { url, new_url } => false,
                            }
                        &&& forall|domain: Id, url: Id| #[trigger]
                            old(self).urls@.states(domain).contains_key(url) ==> {
                                &&& final(self).urls@.states(domain).contains_key(url)
                                &&& final(self).urls@.states(domain)[url].weight == old(
                                    self,
                                ).urls@.states(domain)[url].weight
                            }
                    },
                    Err(error) => {
                        &&& error == Error::StoreFull
                        &&& final(self).urls == old(self).urls
                        &&& final(self).domain_state == old(self).domain_state
                        &&& final(self).redirects == old(self).redirects
                        &&& match new_urls {
                            None => registered_partly(
                                old(self).url_ids.store(),
                                final(self).url_ids.store(),
                                urls,
                            ) && final(self).domain_ids == old(self).domain_ids,
                            Some(store) => new_domains is None && final(self).url_ids.store()
                                == store.commit() && registered_partly(
                                old(self).domain_ids.store(),
                                final(self).domain_ids.store(),
                                domains,
                            ),
                        }
                    },
                }
            }),
    {
        let (responses, domains, ids) = list_visits(job_responses);
        let groups = group_by_domain(&domains, &ids);
        let ghost made = visits(job_responses@);
        let ghost names = visited_domains(made);
        let ghost all = groups_view(groups@);
        let url_items = urls_of_visits(&responses, &domains, &groups);
        let ghost url_list = visited_pairs(made, order_of(all));
        proof {
            lemma_visited_pairs(made, order_of(all));
        }
        match self.url_ids.bulk_insert_ids(&url_items) {
            Ok(()) => {},
            Err(error) => {
                return Err(error);
            },
        }
        let domain_items = domains_of_groups(&domains, &ids, &groups);
        let ghost domain_list = domain_pairs(names, all);
        proof {
            assert(own_ids(domain_list));
        }
        match self.domain_ids.bulk_insert_ids(&domain_items) {
            Ok(()) => {},
            Err(error) => {
                return Err(error);
            },
        }
        proof {
            assert forall|i: int| 0 <= i < made.len() implies self.url_ids.id_for(
                (#[trigger] made[i]).url,
            ) == text_id(made[i].url) && self.url_ids.store().entries.contains_key(
                text_id(made[i].url),
            ) by {
                let at = i as usize;
                assert(responses.len() == visits_view(responses@).len());
                lemma_order_of(all, at);
                assert(in_a_group(all, at));
                let k = order_of(all).index_of(at);
                let j = url_list.index_of(
                    (made[order_of(all)[k] as int].url, text_id(made[i].url)),
                );
                law_registered_ids_are_own(&old(self).url_ids, &self.url_ids, url_list, j);
            }
            assert forall|g: int| 0 <= g < all.len() implies self.domain_ids.id_for(
                names[(#[trigger] all[g])[0] as int],
            ) == text_id(names[all[g][0] as int]) && self.domain_ids.store().entries.contains_key(
                text_id(names[all[g][0] as int]),
            ) by {
                assert(domain_list[g] == (
                    names[all[g][0] as int],
                    text_id(names[all[g][0] as int]),
                ));
                law_registered_ids_are_own(&old(self).domain_ids, &self.domain_ids, domain_list, g);
            }
            assert(all.take(0) =~= Seq::empty());
            assert(self.redirects@ =~= self.redirects@ + redirects_met(made, Seq::empty()));
        }
        let ghost start = *self;
        proof {
            assert(pair_ids(domain_list.take(0)) =~= Seq::empty());
        }
        let mut g: usize = 0;
        while g < groups.len()
            invariant
                g <= groups@.len(),
                all == groups_view(groups@),
                made == visits_view(responses@),
                made.len() == domains@.len(),
                names == names_of(domains@),
                names == visited_domains(made),
                well_grouped(all, names, made.len() as int),
                forall|i: int|
                    0 <= i < made.len() ==> self.url_ids.id_for((#[trigger] made[i]).url)
                        == text_id(made[i].url) && self.url_ids.store().entries.contains_key(
                        text_id(made[i].url),
                    ),
                forall|h: int|
                    0 <= h < all.len() ==> self.domain_ids.id_for(
                        names[(#[trigger] all[h])[0] as int],
                    ) == text_id(names[all[h][0] as int])
                        && self.domain_ids.store().entries.contains_key(
                        text_id(names[all[h][0] as int]),
                    ),
                self.wf(),
                self.url_ids.store() == start.url_ids.store(),
                self.domain_ids.store() == start.domain_ids.store(),
                forall|text: Seq<char>| #[trigger]
                    self.url_ids.id_for(text) == start.url_ids.id_for(text),
                forall|text: Seq<char>| #[trigger]
                    self.domain_ids.id_for(text) == start.domain_ids.id_for(text),
                visited_since(start, *self, made, order_of(all.take(g as int))),
                domain_list == domain_pairs(names, all),
                rewritten_in_turn(
                    start.urls@,
                    self.urls@,
                    pair_ids(domain_list.take(g as int)),
                ),
            decreases groups@.len() - g,
        {
            let group = &groups[g];
            let ghost order = order_of(all.take(g as int));
            proof {
                assert(all[g as int] == group@);
                assert(all[g as int][0] < made.len());
                assert(all.take(g + 1).drop_last() =~= all.take(g as int));
                assert(all.take(g + 1).last() == group@);
            }
            match self.domain_ids.id(&domains[group[0]]) {
                Ok(domain_id) => {
                    let ghost before = *self;
                    proof {
                        assert forall|k: int| 0 <= k < group@.len() implies (#[trigger] group@[k])
                            < made.len() && text_id(domain_of(made[group@[k] as int].url))
                            == domain_id by {
                            assert(all[g as int][k] == group@[k]);
                            assert(names[group@[k] as int] == names[group@[0] as int]);
                        }
                    }
                    self.settle_group(
                        domain_id,
                        &responses,
                        group,
                        Ghost(made),
                        Ghost(order),
                        Ghost(start.urls@.states(domain_id)),
                        Ghost(start.redirects@),
                    );
                    proof {
                        lemma_rewritten_next(
                            start.urls@,
                            before.urls@,
                            self.urls@,
                            pair_ids(domain_list.take(g as int)),
                            domain_id,
                        );
                        assert(domain_list[g as int].1 == domain_id);
                        assert(pair_ids(domain_list.take(g + 1)) =~= pair_ids(
                            domain_list.take(g as int),
                        ).push(domain_id));
                        lemma_group_settled(start, before, *self, made, order, group@, domain_id);
                    }
                },
                Err(_) => {
                    assert(false);
                },
            }
            g = g + 1;
        }
        proof {
            assert(all.take(g as int) =~= all);
            assert(domain_list.take(g as int) =~= domain_list);
            if old(self).registered() {
                assert(start.registered());
                let domain_entries = start.domain_ids.store().entries;
                assert forall|k: int|
                    0 <= k < order_of(all).len() implies domain_entries.contains_key(
                    text_id(domain_of(made[#[trigger] order_of(all)[k] as int].url)),
                ) && start.url_ids.store().entries.contains_key(
                    text_id(made[order_of(all)[k] as int].url),
                ) by {
                    let at = order_of(all)[k];
                    lemma_order_of(all, at);
                    assert(order_of(all).contains(at));
                    let h = choose|h: int| in_group(all, at, h);
                    let l = all[h].index_of(at);
                    assert(all[h][l] < made.len());
                    lemma_domain_is_listed(all, names, made.len() as int, at);
                    let j = domain_list.index_of((names[at as int], text_id(names[at as int])));
                    law_register_all(old(self).domain_ids.store(), domain_list);
                    assert(domain_list[j].1 == text_id(names[at as int]));
                    assert(names[at as int] == domain_of(made[at as int].url));
                }
                lemma_visited_registered(start, *self, made, order_of(all));
            }
            law_responses_settle_urls(*old(self), *self, job_responses@);
        }
        Ok(())
    }

    /// Sets the status of a domain. A domain that was not known has no weight.
    pub fn set_domain_status(&mut self, domain: &Domain, status: DomainStatus) -> (result: Result<
        (),
        Error,
    >)
        requires
            old(self).wf(),
        ensures
            final(self).wf(),
            final(self).url_ids == old(self).url_ids,
            final(self).redirects == old(self).redirects,
            final(self).urls == old(self).urls,
            forall|text: Seq<char>| #[trigger]
                final(self).domain_ids.id_for(text) == old(self).domain_ids.id_for(text),
            old(self).consistent() ==> final(self).consistent(),
            old(self).registered() ==> final(self).registered(),
            ({
                let enrolled = enroll(
                    old(self).domain_ids.store(),
                    old(self).domain_ids.cached_ids(),
                    domain@,
                );
                let id = old(self).domain_ids.id_for(domain@);
                match result {
                    Ok(_) => {
                        &&& enrolled == Some(final(self).domain_ids.store())
                        &&& final(self).domain_state@ == old(self).domain_state@.insert(
                            id,
                            DomainState {
                                weight: known_domain(old(self).domain_state@, id).weight,
                                status,
                            },
                        )
                        &&& final(self).domain_state@[id].status == status
                        &&& final(self).domain_state@[id].weight == (
                        if old(self).domain_state@.contains_key(id) {
                            old(self).domain_state@[id].weight
                        } else {
                            0
                        })
                    },
                    Err(error) => {
                        &&& error == Error::StoreFull
                        &&& enrolled is None
                        &&& final(self).domain_ids.store() == old(self).domain_ids.store()
                        &&& final(self).domain_state == old(self).domain_state
                    },
                }
            }),
    {
        match self.domain_ids.id(domain) {
            Ok(domain_id) => {
                let weight: u64 = match self.domain_state.get(&domain_id) {
                    Some(state) => state.weight,
                    None => 0,
                };
                self.domain_state.insert(domain_id, DomainState { weight, status });
                Ok(())
            },
            Err(error) => Err(error),
        }
    }

    /// Hands out domains to be crawled: a random sample of those that are pending. `draw` gives
    /// the priority of a domain from its weight.
    pub fn sample_domains<F: Fn(u64) -> u64>(&mut self, num_jobs: usize, draw: &F) -> (result:
        Result<Vec<DomainId>, Error>)
        requires
            old(self).wf(),
            forall|weight: u64| call_requires(*draw, (weight,)),
        ensures
            final(self).wf(),
            final(self).url_ids == old(self).url_ids,
            final(self).domain_ids == old(self).domain_ids,
            final(self).redirects == old(self).redirects,
            final(self).urls == old(self).urls,
            old(self).registered() ==> final(self).registered(),
            result is Ok,
            result matches Ok(sampled) ==> {
                &&& is_sample_of(
                    pending_domains(old(self).domain_state@),
                    num_jobs as nat,
                    *draw,
                    plain_ids(sampled@),
                )
                &&& final(self).domain_state@ == handed_out(
                    old(self).domain_state@,
                    plain_ids(sampled@),
                )
                &&& sampled@.len() <= num_jobs
                &&& sampled@.len() < num_jobs ==> forall|domain: Id|
                    old(self).domain_state@.contains_key(domain) && (
                    #[trigger] old(self).domain_state@[domain]).status == DomainStatus::Pending
                        ==> sampled@.contains(DomainId(domain))
                &&& forall|i: int, j: int|
                    0 <= i < j < sampled@.len() ==> #[trigger] sampled@[i] != #[trigger] sampled@[j]
                &&& forall|i: int|
                    0 <= i < sampled@.len() ==> {
                        let domain = (#[trigger] sampled@[i]).0;
                        &&& old(self).domain_state@.contains_key(domain)
                        &&& old(self).domain_state@[domain].status == DomainStatus::Pending
                        &&& final(self).domain_state@[domain].status
                            == DomainStatus::CrawlInProgress
                        &&& final(self).domain_state@[domain].weight
                            == old(self).domain_state@[domain].weight
                    }
            },
    {
        let available = list_waiting(&self.domain_state);
        let ids: Vec<Id> = weighted_sample(&available, num_jobs, draw);
        let mut sampled: Vec<DomainId> = Vec::new();
        let mut k: usize = 0;
        proof {
            assert(ids@.take(0) =~= Seq::<Id>::empty());
            assert(plain_ids(sampled@) =~= ids@.take(0));
            assert(self.domain_state@ =~= handed_out(old(self).domain_state@, ids@.take(0)));
        }
        while k < ids.len()
            invariant
                k <= ids@.len(),
                self.url_ids == old(self).url_ids,
                self.domain_ids == old(self).domain_ids,
                self.redirects == old(self).redirects,
                self.urls == old(self).urls,
                plain_ids(sampled@) == ids@.take(k as int),
                self.domain_state@ == handed_out(old(self).domain_state@, ids@.take(k as int)),
            decreases ids@.len() - k,
        {
            let id: Id = ids[k];
            let ghost before = sampled@;
            let ghost earlier = ids@.take(k as int);
            let ghost now = ids@.take(k + 1);
            proof {
                assert(now =~= earlier.push(id));
                assert forall|domain: Id| now.contains(domain) <==> earlier.contains(domain)
                    || domain == id by {
                    if earlier.contains(domain) {
                        let i = earlier.index_of(domain);
                        assert(now[i] == domain);
                    }
                    assert(now[k as int] == id);
                }
            }
            let known: Option<DomainState> = match self.domain_state.get(&id) {
                Some(state) => Some(*state),
                None => None,
            };
            if let Some(state) = known {
                self.domain_state.insert(
                    id,
                    DomainState { weight: state.weight, status: DomainStatus::CrawlInProgress },
                );
            }
            sampled.push(DomainId::from(id));
            proof {
                assert(plain_ids(sampled@) =~= plain_ids(before).push(id));
                assert(self.domain_state@ =~= handed_out(old(self).domain_state@, now));
            }
            k = k + 1;
        }
        proof {
            assert(ids@.take(k as int) =~= ids@);
            law_domains_are_handed_out(
                old(self).domain_state@,
                self.domain_state@,
                num_jobs as nat,
                *draw,
                sampled@,
            );
        }
        Ok(sampled)
    }

    /// Whether the domain is known and its text is saved, so that jobs can be prepared for it.
    /// `domain_bytes` is what the file of the table of domains reads as.
    pub fn is_domain_saved(&self, domain: DomainId, domain_bytes: &[u8]) -> (saved: bool)
        requires
            self.wf(),
            domain_bytes@ == self.domain_ids.store().saved,
        ensures
            saved == domain_is_saved(*self, domain.0),
            saved <==> {
                &&& self.domain_state@.contains_key(domain.0)
                &&& self.domain_ids.store().entries.contains_key(domain.0)
                &&& self.domain_ids.store().entries[domain.0].start + text_bytes(
                    self.domain_ids.store().entries[domain.0].text,
                ).len() <= domain_bytes@.len()
            },
    {
        self.domain_state.contains_key(&domain.0) && self.domain_ids.is_saved(
            domain.0,
            domain_bytes,
        )
    }

    /// Reads the stored texts of the listed URLs.
    fn read_urls(&mut self, ids: &Vec<Id>, url_bytes: &[u8]) -> (result: Result<
        VecDeque<Url>,
        Error,
    >)
        requires
            old(self).wf(),
            url_bytes@ == old(self).url_ids.store().saved,
        ensures
            final(self).wf(),
            final(self).urls == old(self).urls,
            final(self).domain_state == old(self).domain_state,
            same_texts(*old(self), *final(self)),
            match result {
                Ok(urls) => urls_are_read(*old(self), ids@) && url_texts(urls@) == ids@.map_values(
                    |url: Id| url_read(*old(self), url)->Ok_0,
                ),
                Err(error) => first_unread(*old(self), ids@, error),
            },
    {
        let mut urls: VecDeque<Url> = VecDeque::new();
        let mut k: usize = 0;
        while k < ids.len()
            invariant
                k <= ids@.len(),
                self.wf(),
                self.urls == old(self).urls,
                self.domain_state == old(self).domain_state,
                same_texts(*old(self), *self),
                url_bytes@ == self.url_ids.store().saved,
                urls@.len() == k,
                forall|i: int|
                    0 <= i < k ==> url_read(*old(self), #[trigger] ids@[i]) == Ok::<
                        Seq<char>,
                        Error,
                    >(urls@[i]@),
            decreases ids@.len() - k,
        {
            let id: Id = ids[k];
            match self.url_ids.value::<Url>(id, url_bytes) {
                Some(url) => {
                    urls.push_back(url);
                },
                None => {
                    if self.url_ids.is_saved(id, url_bytes) {
                        assert(url_read(*old(self), ids@[k as int]) == Err::<Seq<char>, Error>(
                            Error::InvalidUrl,
                        ));
                        return Err(Error::InvalidUrl);
                    }
                    assert(url_read(*old(self), ids@[k as int]) == Err::<Seq<char>, Error>(
                        Error::TextNotSaved,
                    ));
                    return Err(Error::TextNotSaved);
                },
            }
            k = k + 1;
        }
        assert(url_texts(urls@) =~= ids@.map_values(|url: Id| url_read(*old(self), url)->Ok_0));
        Ok(urls)
    }

    /// Starts a job with the given URLs of a domain, whose states have just been read.
    fn start_job_with(
        &mut self,
        domain: DomainId,
        read_states: UrlStates,
        sampled: &Vec<Id>,
        domain_bytes: &[u8],
        url_bytes: &[u8],
    ) -> (result: Result<Job, Error>)
        requires
            old(self).wf(),
            domain_bytes@ == old(self).domain_ids.store().saved,
            url_bytes@ == old(self).url_ids.store().saved,
            domain_is_saved(*old(self), domain.0),
            read_states@ == old(self).urls@.states(domain.0),
        ensures
            final(self).wf(),
            same_texts(*old(self), *final(self)),
            match result {
                Ok(job) => {
                    let states = crawling(read_states@, sampled@);
                    &&& urls_are_read(*old(self), sampled@)
                    &&& url_texts(job.urls@) == sampled@.map_values(
                        |url: Id| url_read(*old(self), url)->Ok_0,
                    )
                    &&& job.domain@ == old(self).domain_ids.store().entries[domain.0].text
                    &&& !job.fetch_sitemap
                    &&& final(self).urls@ == old(self).urls@.put(domain.0, states)
                    &&& final(self).domain_state@.contains_key(domain.0)
                    &&& is_heaviest(
                        pending_urls(states),
                        final(self).domain_state@[domain.0].weight,
                    )
                    &&& final(self).domain_state@ == old(self).domain_state@.insert(
                        domain.0,
                        DomainState {
                            weight: final(self).domain_state@[domain.0].weight,
                            ..old(self).domain_state@[domain.0]
                        },
                    )
                },
                Err(error) => {
                    &&& first_unread(*old(self), sampled@, error)
                    &&& final(self).urls@ == old(self).urls@
                    &&& final(self).domain_state == old(self).domain_state
                },
            },
    {
        let urls: VecDeque<Url> = match self.read_urls(sampled, url_bytes) {
            Ok(urls) => urls,
            Err(error) => {
                return Err(error);
            },
        };
        let domain_id: Id = domain.0;
        let mut url_states: UrlStates = read_states;
        start_crawling(&mut url_states, sampled);
        let weight: u64 = heaviest_pending(&url_states);
        let known: Option<DomainState> = match self.domain_state.get(&domain_id) {
            Some(state) => Some(*state),
            None => None,
        };
        if let Some(state) = known {
            self.domain_state.insert(domain_id, DomainState { weight, status: state.status });
        }
        let name: Domain = match self.domain_ids.value(domain_id, domain_bytes) {
            Some(name) => name,
            None => {
                assert(false);
                Domain::from_text(String::new())
            },
        };
        self.urls.put(domain_id, url_states);
        Ok(Job { domain: name, fetch_sitemap: false, urls })
    }

    /// Starts a job with the given URLs of a domain. Fails, and changes nothing of the crawl, if
    /// their stored texts cannot all be read.
    pub fn start_job(
        &mut self,
        domain: DomainId,
        sampled: &Vec<Id>,
        domain_bytes: &[u8],
        url_bytes: &[u8],
    ) -> (result: Result<Job, Error>)
        requires
            old(self).wf(),
            domain_bytes@ == old(self).domain_ids.store().saved,
            url_bytes@ == old(self).url_ids.store().saved,
            domain_is_saved(*old(self), domain.0),
        ensures
            final(self).wf(),
            final(self).redirects@ == old(self).redirects@,
            final(self).url_ids.store() == old(self).url_ids.store(),
            final(self).domain_ids.store() == old(self).domain_ids.store(),
            final(self).domain_state@.dom() == old(self).domain_state@.dom(),
            result is Err ==> {
                &&& final(self).domain_state@ == old(self).domain_state@
                &&& forall|domain: Id| #[trigger]
                    final(self).urls@.states(domain) == old(self).urls@.states(domain)
            },
            match result {
                Ok(job) => job_started(*old(self), *final(self), domain.0, sampled@, job),
                Err(error) => first_unread(*old(self), sampled@, error) && same_crawl(
                    *old(self),
                    *final(self),
                ) && final(self).urls@ == old(self).urls@.get(domain.0),
            },
    {
        proof {
            self.urls.lemma_wf();
            law_get_keeps_states(self.urls@, domain.0);
        }
        let url_states: UrlStates = self.urls.get(domain.0);
        let ghost before = *self;
        let result = self.start_job_with(domain, url_states, sampled, domain_bytes, url_bytes);
        proof {
            before.urls.lemma_wf();
            lemma_job_started(*old(self), before, *self, domain.0, sampled@, result);
        }
        result
    }

    /// Prepares a job for one domain.
    fn prepare_job<F: Fn(u64) -> u64>(
        &mut self,
        domain: DomainId,
        urls_per_job: usize,
        draw: &F,
        domain_bytes: &[u8],
        url_bytes: &[u8],
    ) -> (result: Result<Job, Error>)
        requires
            old(self).wf(),
            forall|weight: u64| call_requires(*draw, (weight,)),
            domain_bytes@ == old(self).domain_ids.store().saved,
            url_bytes@ == old(self).url_ids.store().saved,
            domain_is_saved(*old(self), domain.0),
        ensures
            final(self).wf(),
            match result {
                Ok(job) => job_prepared(
                    *old(self),
                    *final(self),
                    domain.0,
                    urls_per_job as nat,
                    *draw,
                    job,
                ),
                Err(error) => sample_not_read(
                    *old(self),
                    domain.0,
                    urls_per_job as nat,
                    *draw,
                    error,
                ) && same_crawl(*old(self), *final(self)) && final(self).urls@ == old(
                    self,
                ).urls@.get(domain.0),
            },
    {
        proof {
            self.urls.lemma_wf();
            law_get_keeps_states(self.urls@, domain.0);
        }
        let url_states: UrlStates = self.urls.get(domain.0);
        let pending = list_waiting(&url_states);
        let sampled: Vec<Id> = weighted_sample(&pending, urls_per_job, draw);
        let ghost before = *self;
        proof {
            assert(is_sample_of(
                pending_urls(old(self).urls@.states(domain.0)),
                urls_per_job as nat,
                *draw,
                sampled@,
            ));
        }
        let result = self.start_job_with(domain, url_states, &sampled, domain_bytes, url_bytes);
        proof {
            before.urls.lemma_wf();
            lemma_job_started(*old(self), before, *self, domain.0, sampled@, result);
        }
        result
    }

    /// Prepares a job for each of the domains, in order. `draw` gives the priority of a URL from
    /// its weight; `domain_bytes` and `url_bytes` are what the files of the two tables of
    /// identifiers read as. Stops at a domain for which a URL was sampled whose stored text
    /// cannot be read.
    pub fn prepare_jobs<F: Fn(u64) -> u64>(
        &mut self,
        domains: &Vec<DomainId>,
        urls_per_job: usize,
        draw: &F,
        domain_bytes: &[u8],
        url_bytes: &[u8],
    ) -> (result: Result<Vec<Job>, Error>)
        requires
            old(self).wf(),
            forall|weight: u64| call_requires(*draw, (weight,)),
            domain_bytes@ == old(self).domain_ids.store().saved,
            url_bytes@ == old(self).url_ids.store().saved,
            forall|i: int|
                0 <= i < domains@.len() ==> domain_is_saved(
                    *old(self),
                    (#[trigger] domains@[i]).0,
                ),
        ensures
            final(self).wf(),
            old(self).urls@.leads_to(final(self).urls@),
            forall|domain: Id| #[trigger]
                final(self).urls@.at_hand(domain) ==> old(self).urls@.at_hand(domain)
                    || plain_ids(domains@).contains(domain),
            old(self).consistent() ==> final(self).consistent(),
            old(self).registered() ==> final(self).registered(),
            (forall|i: int|
                0 <= i < domains@.len() ==> pending_are_read(
                    *old(self),
                    (#[trigger] domains@[i]).0,
                )) ==> result is Ok,
            urls_per_job == 0 ==> result is Ok,
            final(self).redirects@ == old(self).redirects@,
            final(self).url_ids.store() == old(self).url_ids.store(),
            final(self).domain_ids.store() == old(self).domain_ids.store(),
            final(self).domain_state@.dom() == old(self).domain_state@.dom(),
            result matches Ok(jobs) ==> {
                &&& jobs@.len() == domains@.len()
                &&& forall|i: int|
                    0 <= i < jobs@.len() ==> (#[trigger] jobs@[i]).urls@.len() <= urls_per_job
                &&& forall|i: int, url: Id|
                    {
                        &&& 0 <= i < jobs@.len()
                        &&& (#[trigger] jobs@[i]).urls@.len() < urls_per_job
                        &&& #[trigger] final(self).urls@.states(domains@[i].0).contains_key(url)
                    } ==> final(self).urls@.states(domains@[i].0)[url].status != UrlStatus::Pending
            },
            match result {
                Ok(jobs) => jobs_prepared(
                    *old(self),
                    *final(self),
                    plain_ids(domains@),
                    urls_per_job as nat,
                    *draw,
                    jobs@,
                ),
                Err(error) => preparation_stopped(
                    *old(self),
                    *final(self),
                    plain_ids(domains@),
                    urls_per_job as nat,
                    *draw,
                    error,
                ),
            },
    {
        let mut jobs: Vec<Job> = Vec::new();
        let ghost mut stages = seq![*self];
        let ghost ids = plain_ids(domains@);
        let ghost all_read = forall|i: int|
            0 <= i < domains@.len() ==> pending_are_read(*old(self), (#[trigger] domains@[i]).0);
        let mut k: usize = 0;
        while k < domains.len()
            invariant
                k <= domains@.len(),
                ids == plain_ids(domains@),
                self.wf(),
                forall|weight: u64| call_requires(*draw, (weight,)),
                domain_bytes@ == self.domain_ids.store().saved,
                url_bytes@ == self.url_ids.store().saved,
                forall|i: int|
                    0 <= i < domains@.len() ==> domain_is_saved(*self, (#[trigger] domains@[i]).0),
                all_read == (forall|i: int|
                    0 <= i < domains@.len() ==> pending_are_read(
                        *old(self),
                        (#[trigger] domains@[i]).0,
                    )),
                all_read ==> forall|i: int|
                    0 <= i < domains@.len() ==> pending_are_read(*self, (#[trigger] domains@[i]).0),
                old(self).urls@.leads_to(self.urls@),
                forall|domain: Id| #[trigger]
                    self.urls@.at_hand(domain) ==> old(self).urls@.at_hand(domain) || ids.contains(
                        domain,
                    ),
                old(self).registered() ==> self.registered(),
                old(self).consistent() ==> self.consistent(),
                self.redirects@ == old(self).redirects@,
                self.url_ids.store() == old(self).url_ids.store(),
                self.domain_ids.store() == old(self).domain_ids.store(),
                self.domain_state@.dom() =~= old(self).domain_state@.dom(),
                jobs@.len() == k,
                stages.len() == k + 1,
                stages[0] == *old(self),
                stages.last() == *self,
                forall|i: int|
                    0 <= i < k ==> job_prepared(
                        stages[i],
                        stages[i + 1],
                        ids[i],
                        urls_per_job as nat,
                        *draw,
                        #[trigger] jobs@[i],
                    ),
            decreases domains@.len() - k,
        {
            let domain: DomainId = domains[k];
            let ghost before = *self;
            proof {
                assert(ids[k as int] == domain.0);
            }
            match self.prepare_job(domain, urls_per_job, draw, domain_bytes, url_bytes) {
                Ok(job) => {
                    jobs.push(job);
                    proof {
                        stages = stages.push(*self);
                        lemma_job_keeps_what_is_read(
                            before,
                            *self,
                            domain.0,
                            urls_per_job as nat,
                            *draw,
                            job,
                        );
                    }
                },
                Err(error) => {
                    proof {
                        assert(jobs_prepared_by(
                            *old(self),
                            before,
                            stages,
                            ids.take(k as int),
                            urls_per_job as nat,
                            *draw,
                            jobs@,
                        ));
                        assert(jobs_stopped(
                            *old(self),
                            before,
                            *self,
                            ids,
                            urls_per_job as nat,
                            *draw,
                            jobs@,
                            k as int,
                            error,
                        ));
                        let sampled = choose|sampled: Seq<Id>| #[trigger]
                            is_sample_of(
                                pending_urls(before.urls@.states(domain.0)),
                                urls_per_job as nat,
                                *draw,
                                sampled,
                            ) && first_unread(before, sampled, error);
                        law_sample_is_part(
                            pending_urls(before.urls@.states(domain.0)),
                            urls_per_job as nat,
                            *draw,
                            sampled,
                        );
                        lemma_same_texts(before, *self);
                        if all_read {
                            assert(pending_are_read(before, domains@[k as int].0));
                        }
                    }
                    return Err(error);
                },
            }
            k = k + 1;
        }
        proof {
            assert(jobs_prepared_by(
                *old(self),
                *self,
                stages,
                ids,
                urls_per_job as nat,
                *draw,
                jobs@,
            ));
            assert forall|i: int| 0 <= i < jobs@.len() implies {
                &&& (#[trigger] jobs@[i]).urls@.len() <= urls_per_job
                &&& jobs@[i].urls@.len() < urls_per_job ==> forall|url: Id|
                    self.urls@.states(domains@[i].0).contains_key(url) ==> (
                    #[trigger] self.urls@.states(domains@[i].0)[url]).status != UrlStatus::Pending
            } by {
                assert(ids[i] == domains@[i].0);
                law_short_job_leaves_nothing(
                    *old(self),
                    *self,
                    ids,
                    urls_per_job as nat,
                    *draw,
                    jobs@,
                    i,
                );
            }
        }
        Ok(jobs)
    }
}

/// Preparing a job keeps what is known, what is saved and what can be read.
proof fn lemma_job_keeps_what_is_read<F: Fn(u64) -> u64>(
    before: CrawlDb,
    after: CrawlDb,
    domain: Id,
    wanted: nat,
    draw: F,
    job: Job,
)
    requires
        job_prepared(before, after, domain, wanted, draw, job),
    ensures
        forall|other: Id|
            domain_is_saved(before, other) ==> #[trigger] domain_is_saved(after, other),
        forall|other: Id|
            pending_are_read(before, other) ==> #[trigger] pending_are_read(after, other),
        before.registered() ==> after.registered(),
        before.consistent() ==> after.consistent(),
{
    assert forall|other: Id|
        pending_are_read(before, other) implies #[trigger] pending_are_read(after, other) by {
        assert forall|url: Id| #[trigger]
            pending_urls(after.urls@.states(other)).contains_key(
                url,
            ) implies url_read(after, url) is Ok by {
            if other != domain {
                assert(after.urls@.states(other) == before.urls@.states(other));
            }
            assert(pending_urls(before.urls@.states(other)).contains_key(url));
        }
    }
    if before.registered() {
        assert forall|other: Id, url: Id| #[trigger]
            after.urls@.states(other).contains_key(
                url,
            ) implies after.url_ids.store().entries.contains_key(url) by {
            if other != domain {
                assert(after.urls@.states(other) == before.urls@.states(other));
            }
            assert(before.urls@.states(other).contains_key(url));
        }
    }
    lemma_same_texts(before, after);
}

/// Tables that hold the same texts give the same identifiers.
proof fn lemma_same_texts(before: CrawlDb, after: CrawlDb)
    requires
        same_texts(before, after),
    ensures
        before.consistent() ==> after.consistent(),
{
    if before.consistent() {
        assert forall|text: Seq<char>| #[trigger] after.url_ids.id_for(text) == text_id(text) by {
            assert(before.url_ids.id_for(text) == text_id(text));
        }
        assert forall|text: Seq<char>| #[trigger]
            after.domain_ids.id_for(text) == text_id(text) by {
            assert(before.domain_ids.id_for(text) == text_id(text));
        }
    }
}

/// A job was started once the states of its domain were read: what that makes of the crawl.
proof fn lemma_job_started(
    before: CrawlDb,
    middle: CrawlDb,
    after: CrawlDb,
    domain: Id,
    sampled: Seq<Id>,
    result: Result<Job, Error>,
)
    requires
        before.urls@.wf(),
        before.urls@.cache_size == URL_STATE_CACHE_SIZE,
        domain_is_saved(before, domain),
        middle.urls@ == before.urls@.get(domain),
        middle.domain_state == before.domain_state,
        middle.url_ids == before.url_ids,
        middle.domain_ids == before.domain_ids,
        middle.redirects == before.redirects,
        same_texts(middle, after),
        match result {
            Ok(job) => {
                let states = crawling(before.urls@.states(domain), sampled);
                &&& urls_are_read(middle, sampled)
                &&& url_texts(job.urls@) == sampled.map_values(
                    |url: Id| url_read(middle, url)->Ok_0,
                )
                &&& job.domain@ == middle.domain_ids.store().entries[domain].text
                &&& !job.fetch_sitemap
                &&& after.urls@ == middle.urls@.put(domain, states)
                &&& after.domain_state@.contains_key(domain)
                &&& is_heaviest(pending_urls(states), after.domain_state@[domain].weight)
                &&& after.domain_state@ == middle.domain_state@.insert(
                    domain,
                    DomainState {
                        weight: after.domain_state@[domain].weight,
                        ..middle.domain_state@[domain]
                    },
                )
            },
            Err(error) => {
                &&& first_unread(middle, sampled, error)
                &&& after.urls@ == middle.urls@
                &&& after.domain_state == middle.domain_state
            },
        },
    ensures
        match result {
            Ok(job) => job_started(before, after, domain, sampled, job),
            Err(error) => first_unread(before, sampled, error) && same_crawl(before, after),
        },
{
    law_get_keeps_states(before.urls@, domain);
    match result {
        Ok(job) => {
            let states = crawling(before.urls@.states(domain), sampled);
            law_put_is_read_back(middle.urls@, domain, states);
            assert(sampled.map_values(|url: Id| url_read(middle, url)->Ok_0)
                =~= sampled.map_values(|url: Id| url_read(before, url)->Ok_0));
            assert forall|i: int| 0 <= i < sampled.len() implies url_read(
                before,
                #[trigger] sampled[i],
            ) is Ok by {
                assert(url_read(middle, sampled[i]) is Ok);
            }
            assert forall|other: Id| other != domain implies #[trigger] after.urls@.states(other)
                == before.urls@.states(other) by {
                assert(after.urls@.states(other) == middle.urls@.states(other));
            }
            assert forall|other: Id| #[trigger]
                after.urls@.at_hand(other) <==> before.urls@.at_hand(other) || other == domain by {
                assert(middle.urls@.at_hand(other) == before.urls@.at_hand(other));
            }
        },
        Err(error) => {
            let k = choose|k: int|
                {
                    &&& 0 <= k < sampled.len()
                    &&& url_read(middle, #[trigger] sampled[k]) == Err::<Seq<char>, Error>(error)
                    &&& forall|i: int| 0 <= i < k ==> url_read(middle, #[trigger] sampled[i]) is Ok
                };
            assert(url_read(before, sampled[k]) == Err::<Seq<char>, Error>(error));
            assert forall|i: int| 0 <= i < k implies url_read(
                before,
                #[trigger] sampled[i],
            ) is Ok by {
                assert(url_read(middle, sampled[i]) is Ok);
            }
        },
    }
}

} // verus!
