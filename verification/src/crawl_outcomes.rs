//! What each operation on a crawl comes to, told by what is handed in and by the states before
//! and after.

use crate::codec::text_bytes;
use crate::crawl_db::{
    first_unread, handed_out, job_prepared, job_started, jobs_prepared, jobs_prepared_by,
    jobs_stopped, pending_are_read, plain_ids, preparation_stopped, url_read, url_texts, CrawlDb,
    DomainId, DomainStates,
};
use crate::crawl_error::Error;
use crate::digest::{text_id, Id};
use crate::job::Job;
use crate::pending::{is_sample_of, law_sample_takes_the_lowest, pending_domains, pending_urls};
use crate::url_state::{DomainStatus, UrlStatus};
use crate::web_url::url_serialization;
use vstd::prelude::*;

verus! {

/// Handing out domains: those that are handed out were known and pending, no two are the same,
/// and there are as many as are wanted, or all that are pending if there are fewer. They are in
/// progress afterwards, with their weight, and nothing else changes. Every pending domain draws a
/// priority by its weight; none that is left out has a lower one than one that is handed out.
pub proof fn law_domains_are_handed_out<F: Fn(u64) -> u64>(
    before: DomainStates,
    after: DomainStates,
    wanted: nat,
    draw: F,
    sampled: Seq<DomainId>,
)
    requires
        is_sample_of(pending_domains(before), wanted, draw, plain_ids(sampled)),
        after == handed_out(before, plain_ids(sampled)),
    ensures
        ({
            let pending = Set::new(
                |d: Id| before.contains_key(d) && before[d].status == DomainStatus::Pending,
            );
            &&& pending.finite()
            &&& sampled.len() == (if pending.len() < wanted {
                pending.len()
            } else {
                wanted
            })
            &&& pending.len() <= wanted ==> forall|d: Id|
                before.contains_key(d) && (#[trigger] before[d]).status == DomainStatus::Pending
                    ==> sampled.contains(DomainId(d))
        }),
        forall|i: int, j: int|
            0 <= i < sampled.len() && 0 <= j < sampled.len() && (#[trigger] sampled[i]).0 == (
            #[trigger] sampled[j]).0 ==> i == j,
        forall|i: int|
            0 <= i < sampled.len() ==> {
                let d = (#[trigger] sampled[i]).0;
                &&& before.contains_key(d)
                &&& before[d].status == DomainStatus::Pending
                &&& after[d].status == DomainStatus::CrawlInProgress
                &&& after[d].weight == before[d].weight
            },
        forall|d: Id| #[trigger] after.contains_key(d) == before.contains_key(d),
        forall|d: Id| #[trigger]
            before.contains_key(d) && !sampled.contains(DomainId(d)) ==> after[d] == before[d],
        exists|priorities: Map<Id, u64>|
            {
                &&& #[trigger] priorities.dom() == before.dom()
                &&& forall|d: Id|
                    before.contains_key(d) && (#[trigger] before[d]).status
                        == DomainStatus::Pending ==> call_ensures(
                        draw,
                        (before[d].weight,),
                        priorities[d],
                    )
                &&& forall|i: int, d: Id|
                    0 <= i < sampled.len() && before.contains_key(d) && (
                    #[trigger] before[d]).status == DomainStatus::Pending && !sampled.contains(
                        DomainId(d),
                    ) ==> priorities[(#[trigger] sampled[i]).0] <= priorities[d]
            },
{
    let ids = plain_ids(sampled);
    let weights = pending_domains(before);
    law_sample_takes_the_lowest(weights, wanted, draw, ids);
    let pending = Set::new(
        |d: Id| before.contains_key(d) && before[d].status == DomainStatus::Pending,
    );
    assert(weights.dom() =~= pending);
    assert forall|d: Id| ids.contains(d) <==> sampled.contains(DomainId(d)) by {
        if ids.contains(d) {
            let i = ids.index_of(d);
            assert(sampled[i] == DomainId(d));
        }
        if sampled.contains(DomainId(d)) {
            let i = sampled.index_of(DomainId(d));
            assert(ids[i] == d);
        }
    }
    assert forall|i: int| 0 <= i < sampled.len() implies {
        let d = (#[trigger] sampled[i]).0;
        &&& before.contains_key(d)
        &&& before[d].status == DomainStatus::Pending
        &&& after[d].status == DomainStatus::CrawlInProgress
        &&& after[d].weight == before[d].weight
    } by {
        assert(weights.contains_key(ids[i]));
        assert(ids.contains(ids[i]));
    }
    assert forall|i: int, j: int|
        0 <= i < sampled.len() && 0 <= j < sampled.len() && (#[trigger] sampled[i]).0 == (
        #[trigger] sampled[j]).0 implies i == j by {
        assert(ids[i] == ids[j]);
    }
    if pending.len() <= wanted {
        assert forall|d: Id|
            before.contains_key(d) && (#[trigger] before[d]).status
                == DomainStatus::Pending implies sampled.contains(DomainId(d)) by {
            assert(weights.contains_key(d));
        }
    }
    let drawn = choose|drawn: Map<Id, u64>|
        {
            &&& #[trigger] drawn.dom() == weights.dom()
            &&& forall|id: Id| #[trigger]
                weights.contains_key(id) ==> call_ensures(draw, (weights[id],), drawn[id])
            &&& forall|i: int, other: Id|
                0 <= i < ids.len() && #[trigger] weights.contains_key(other) && !ids.contains(other)
                    ==> drawn[#[trigger] ids[i]] <= drawn[other]
        };
    let priorities = Map::new(|d: Id| before.contains_key(d), |d: Id| drawn[d]);
    assert(priorities.dom() =~= before.dom());
    assert forall|d: Id|
        before.contains_key(d) && (#[trigger] before[d]).status
            == DomainStatus::Pending implies call_ensures(
        draw,
        (before[d].weight,),
        priorities[d],
    ) by {
        assert(weights.contains_key(d));
    }
    assert forall|i: int, d: Id|
        0 <= i < sampled.len() && before.contains_key(d) && (#[trigger] before[d]).status
            == DomainStatus::Pending && !sampled.contains(DomainId(d)) implies priorities[(
    #[trigger] sampled[i]).0] <= priorities[d] by {
        assert(weights.contains_key(d));
        assert(weights.contains_key(ids[i]));
        assert(drawn[ids[i]] <= drawn[d]);
    }
}

/// A job: its URLs are the texts, read from the store, of distinct URLs of the domain that were
/// known and pending. There are as many as are wanted, or all that are pending if there are
/// fewer. Each of them is being crawled afterwards, with its weight; every other URL, of this or
/// of another domain, is as it was. The domain keeps its status and weighs as much as the
/// heaviest URL that is left pending, or nothing if none is; the other domains are as they were.
/// Every pending URL draws a priority by its weight; none that is left out has a lower one than
/// one that is in the job.
pub proof fn law_job_takes_pending_urls<F: Fn(u64) -> u64>(
    before: CrawlDb,
    after: CrawlDb,
    domain: Id,
    wanted: nat,
    draw: F,
    job: Job,
) -> (sampled: Seq<Id>)
    requires
        job_prepared(before, after, domain, wanted, draw, job),
    ensures
        ({
            let states = before.urls@.states(domain);
            let pending = Set::new(
                |u: Id| states.contains_key(u) && states[u].status == UrlStatus::Pending,
            );
            &&& pending.finite()
            &&& job.urls@.len() == (if pending.len() < wanted {
                pending.len()
            } else {
                wanted
            })
            &&& pending.len() <= wanted ==> forall|u: Id|
                states.contains_key(u) && (#[trigger] states[u]).status == UrlStatus::Pending
                    ==> sampled.contains(u)
        }),
        sampled.len() == job.urls@.len(),
        forall|i: int, j: int|
            0 <= i < j < sampled.len() ==> #[trigger] sampled[i] != #[trigger] sampled[j],
        forall|i: int|
            0 <= i < sampled.len() ==> {
                let u = #[trigger] sampled[i];
                &&& before.urls@.states(domain).contains_key(u)
                &&& before.urls@.states(domain)[u].status == UrlStatus::Pending
                &&& after.urls@.states(domain)[u].status == UrlStatus::Crawling
                &&& after.urls@.states(domain)[u].weight == before.urls@.states(domain)[u].weight
                &&& before.url_ids.store().entries.contains_key(u)
                &&& url_serialization(before.url_ids.store().entries[u].text) == Some(
                    job.urls@[i]@,
                )
            },
        before.domain_ids.store().entries[domain].text == job.domain@,
        !job.fetch_sitemap,
        forall|u: Id| #[trigger]
            after.urls@.states(domain).contains_key(u) == before.urls@.states(
                domain,
            ).contains_key(u),
        forall|u: Id| #[trigger]
            before.urls@.states(domain).contains_key(u) && !sampled.contains(u)
                ==> after.urls@.states(domain)[u] == before.urls@.states(domain)[u],
        forall|other: Id|
            other != domain ==> #[trigger] after.urls@.states(other) == before.urls@.states(other),
        forall|other: Id| #[trigger]
            after.domain_state@.contains_key(other) == before.domain_state@.contains_key(other),
        forall|other: Id| #[trigger]
            before.domain_state@.contains_key(other) && other != domain
                ==> after.domain_state@[other] == before.domain_state@[other],
        after.domain_state@[domain].status == before.domain_state@[domain].status,
        after.redirects@ == before.redirects@,
        after.url_ids.store() == before.url_ids.store(),
        after.domain_ids.store() == before.domain_ids.store(),
        after.urls@.pages == before.urls@.pages,
        forall|u: Id|
            after.urls@.states(domain).contains_key(u) && (#[trigger] after.urls@.states(
                domain,
            )[u]).status == UrlStatus::Pending ==> after.urls@.states(domain)[u].weight
                <= after.domain_state@[domain].weight,
        after.domain_state@[domain].weight == 0 || exists|u: Id|
            {
                &&& after.urls@.states(domain).contains_key(u)
                &&& (#[trigger] after.urls@.states(domain)[u]).status == UrlStatus::Pending
                &&& after.urls@.states(domain)[u].weight == after.domain_state@[domain].weight
            },
        exists|priorities: Map<Id, u64>|
            {
                let states = before.urls@.states(domain);
                &&& #[trigger] priorities.dom() == states.dom()
                &&& forall|u: Id|
                    states.contains_key(u) && (#[trigger] states[u]).status
                        == UrlStatus::Pending ==> call_ensures(
                        draw,
                        (states[u].weight,),
                        priorities[u],
                    )
                &&& forall|i: int, u: Id|
                    0 <= i < sampled.len() && states.contains_key(u) && (
                    #[trigger] states[u]).status == UrlStatus::Pending && !sampled.contains(u)
                        ==> priorities[#[trigger] sampled[i]] <= priorities[u]
            },
{
    let states = before.urls@.states(domain);
    let left = after.urls@.states(domain);
    let weights = pending_urls(states);
    let sampled = choose|sampled: Seq<Id>|
        #[trigger] is_sample_of(weights, wanted, draw, sampled) && job_started(
            before,
            after,
            domain,
            sampled,
            job,
        );
    law_sample_takes_the_lowest(weights, wanted, draw, sampled);
    let pending = Set::new(
        |u: Id| states.contains_key(u) && states[u].status == UrlStatus::Pending,
    );
    assert(weights.dom() =~= pending);
    assert(url_texts(job.urls@).len() == sampled.len());
    if pending.len() <= wanted {
        assert forall|u: Id|
            states.contains_key(u) && (#[trigger] states[u]).status
                == UrlStatus::Pending implies sampled.contains(u) by {
            assert(weights.contains_key(u));
        }
    }
    assert forall|i: int| 0 <= i < sampled.len() implies {
        let u = #[trigger] sampled[i];
        &&& states.contains_key(u)
        &&& states[u].status == UrlStatus::Pending
        &&& left[u].status == UrlStatus::Crawling
        &&& left[u].weight == states[u].weight
        &&& before.url_ids.store().entries.contains_key(u)
        &&& url_serialization(before.url_ids.store().entries[u].text) == Some(job.urls@[i]@)
    } by {
        assert(weights.contains_key(sampled[i]));
        assert(sampled.contains(sampled[i]));
        assert(url_read(before, sampled[i]) is Ok);
        assert(url_texts(job.urls@)[i] == job.urls@[i]@);
    }
    let waiting = pending_urls(left);
    assert forall|u: Id|
        left.contains_key(u) && (#[trigger] left[u]).status
            == UrlStatus::Pending implies left[u].weight <= after.domain_state@[domain].weight by {
        assert(waiting.contains_key(u));
    }
    if after.domain_state@[domain].weight != 0 {
        let u = choose|u: Id| #[trigger]
            waiting.contains_key(u) && waiting[u] == after.domain_state@[domain].weight;
        assert(left[u].status == UrlStatus::Pending);
    }
    let drawn = choose|drawn: Map<Id, u64>|
        {
            &&& #[trigger] drawn.dom() == weights.dom()
            &&& forall|id: Id| #[trigger]
                weights.contains_key(id) ==> call_ensures(draw, (weights[id],), drawn[id])
            &&& forall|i: int, other: Id|
                0 <= i < sampled.len() && #[trigger] weights.contains_key(other)
                    && !sampled.contains(other) ==> drawn[#[trigger] sampled[i]] <= drawn[other]
        };
    let priorities = Map::new(|u: Id| states.contains_key(u), |u: Id| drawn[u]);
    assert(priorities.dom() =~= states.dom());
    assert forall|u: Id|
        states.contains_key(u) && (#[trigger] states[u]).status
            == UrlStatus::Pending implies call_ensures(draw, (states[u].weight,), priorities[u]) by {
        assert(weights.contains_key(u));
    }
    assert forall|i: int, u: Id|
        0 <= i < sampled.len() && states.contains_key(u) && (#[trigger] states[u]).status
            == UrlStatus::Pending && !sampled.contains(u) implies priorities[
        #[trigger] sampled[i]] <= priorities[u] by {
        assert(weights.contains_key(u));
        assert(weights.contains_key(sampled[i]));
    }
    sampled
}

/// Jobs for several domains: there is one for each of the domains, in their order, and each is
/// made of what the ones before it left. The URLs of a domain that no earlier job was for are
/// those from before the first job.
pub proof fn law_jobs_are_made_in_turn<F: Fn(u64) -> u64>(
    before: CrawlDb,
    after: CrawlDb,
    domains: Seq<Id>,
    wanted: nat,
    draw: F,
    jobs: Seq<Job>,
) -> (stages: Seq<CrawlDb>)
    requires
        jobs_prepared(before, after, domains, wanted, draw, jobs),
    ensures
        jobs.len() == domains.len(),
        stages.len() == domains.len() + 1,
        stages[0] == before,
        stages[domains.len() as int] == after,
        forall|i: int|
            0 <= i < jobs.len() ==> job_prepared(
                stages[i],
                stages[i + 1],
                domains[i],
                wanted,
                draw,
                #[trigger] jobs[i],
            ),
        forall|i: int|
            0 <= i < jobs.len() && (forall|j: int| 0 <= j < i ==> domains[j] != domains[i])
                ==> #[trigger] stages[i].urls@.states(domains[i]) == before.urls@.states(
                domains[i],
            ),
{
    let stages = choose|stages: Seq<CrawlDb>|
        jobs_prepared_by(before, after, stages, domains, wanted, draw, jobs);
    assert forall|i: int|
        0 <= i < jobs.len() && (forall|j: int| 0 <= j < i ==> domains[j] != domains[i]) implies
        #[trigger] stages[i].urls@.states(domains[i]) == before.urls@.states(domains[i]) by {
        lemma_not_yet_reached(before, after, stages, domains, wanted, draw, jobs, domains[i], i);
    }
    stages
}

/// Every job is as large as it can be: it holds as many URLs as are wanted, or all that were
/// pending just before it, if those are fewer. For the first job of a domain these are the URLs
/// that were pending before any job.
pub proof fn law_jobs_are_as_large_as_wanted<F: Fn(u64) -> u64>(
    before: CrawlDb,
    after: CrawlDb,
    domains: Seq<Id>,
    wanted: nat,
    draw: F,
    jobs: Seq<Job>,
    i: int,
) -> (just_before: CrawlDb)
    requires
        jobs_prepared(before, after, domains, wanted, draw, jobs),
        0 <= i < domains.len(),
    ensures
        i < jobs.len(),
        i == 0 ==> just_before == before,
        (forall|j: int| 0 <= j < i ==> domains[j] != domains[i]) ==> just_before.urls@.states(
            domains[i],
        ) == before.urls@.states(domains[i]),
        ({
            let states = just_before.urls@.states(domains[i]);
            let pending = Set::new(
                |u: Id| states.contains_key(u) && states[u].status == UrlStatus::Pending,
            );
            &&& pending.finite()
            &&& jobs[i].urls@.len() == (if pending.len() < wanted {
                pending.len()
            } else {
                wanted
            })
        }),
{
    let stages = law_jobs_are_made_in_turn(before, after, domains, wanted, draw, jobs);
    assert(job_prepared(stages[i], stages[i + 1], domains[i], wanted, draw, jobs[i]));
    let sampled = law_job_takes_pending_urls(
        stages[i],
        stages[i + 1],
        domains[i],
        wanted,
        draw,
        jobs[i],
    );
    if forall|j: int| 0 <= j < i ==> domains[j] != domains[i] {
        assert(stages[i].urls@.states(domains[i]) == before.urls@.states(domains[i]));
    }
    stages[i]
}

/// A domain that no job was for so far has the URLs it had at first.
proof fn lemma_not_yet_reached<F: Fn(u64) -> u64>(
    before: CrawlDb,
    after: CrawlDb,
    stages: Seq<CrawlDb>,
    domains: Seq<Id>,
    wanted: nat,
    draw: F,
    jobs: Seq<Job>,
    domain: Id,
    k: int,
)
    requires
        jobs_prepared_by(before, after, stages, domains, wanted, draw, jobs),
        0 <= k <= jobs.len(),
        forall|j: int| 0 <= j < k ==> domains[j] != domain,
    ensures
        stages[k].urls@.states(domain) == before.urls@.states(domain),
    decreases k,
{
    if k > 0 {
        lemma_not_yet_reached(before, after, stages, domains, wanted, draw, jobs, domain, k - 1);
        assert(domains[k - 1] != domain);
        let sampled = law_job_takes_pending_urls(
            stages[k - 1],
            stages[k],
            domains[k - 1],
            wanted,
            draw,
            jobs[k - 1],
        );
    }
}

/// A job that holds fewer URLs than are wanted leaves nothing to be crawled in its domain: no URL
/// of the domain is pending from then on. No job holds more than are wanted.
pub proof fn law_short_job_leaves_nothing<F: Fn(u64) -> u64>(
    before: CrawlDb,
    after: CrawlDb,
    domains: Seq<Id>,
    wanted: nat,
    draw: F,
    jobs: Seq<Job>,
    i: int,
)
    requires
        jobs_prepared(before, after, domains, wanted, draw, jobs),
        0 <= i < domains.len(),
    ensures
        jobs.len() == domains.len(),
        jobs[i].urls@.len() <= wanted,
        jobs[i].urls@.len() < wanted ==> forall|u: Id|
            after.urls@.states(domains[i]).contains_key(u) ==> (#[trigger] after.urls@.states(
                domains[i],
            )[u]).status != UrlStatus::Pending,
{
    let stages = law_jobs_are_made_in_turn(before, after, domains, wanted, draw, jobs);
    assert(job_prepared(stages[i], stages[i + 1], domains[i], wanted, draw, jobs[i]));
    let sampled = law_job_takes_pending_urls(
        stages[i],
        stages[i + 1],
        domains[i],
        wanted,
        draw,
        jobs[i],
    );
    if jobs[i].urls@.len() < wanted {
        let states = stages[i].urls@.states(domains[i]);
        let left = stages[i + 1].urls@.states(domains[i]);
        assert forall|u: Id| left.contains_key(u) implies (#[trigger] left[u]).status
            != UrlStatus::Pending by {
            assert(states.contains_key(u));
            if states[u].status == UrlStatus::Pending {
                assert(sampled.contains(u));
                let k = sampled.index_of(u);
                assert(left[sampled[k]].status == UrlStatus::Crawling);
            } else if sampled.contains(u) {
                let k = sampled.index_of(u);
                assert(states[sampled[k]].status == UrlStatus::Pending);
            }
        }
        lemma_nothing_becomes_pending(stages, domains, wanted, draw, jobs, domains[i], i + 1);
    }
}

/// Where no URL of a domain is pending, no later job makes one so.
proof fn lemma_nothing_becomes_pending<F: Fn(u64) -> u64>(
    stages: Seq<CrawlDb>,
    domains: Seq<Id>,
    wanted: nat,
    draw: F,
    jobs: Seq<Job>,
    domain: Id,
    k: int,
)
    requires
        jobs.len() == domains.len(),
        stages.len() == domains.len() + 1,
        forall|i: int|
            0 <= i < jobs.len() ==> job_prepared(
                stages[i],
                stages[i + 1],
                domains[i],
                wanted,
                draw,
                #[trigger] jobs[i],
            ),
        0 <= k <= jobs.len(),
        forall|u: Id|
            stages[k].urls@.states(domain).contains_key(u) ==> (#[trigger] stages[k].urls@.states(
                domain,
            )[u]).status != UrlStatus::Pending,
    ensures
        forall|u: Id|
            stages[jobs.len() as int].urls@.states(domain).contains_key(u) ==> (
            #[trigger] stages[jobs.len() as int].urls@.states(domain)[u]).status
                != UrlStatus::Pending,
    decreases jobs.len() - k,
{
    if k < jobs.len() {
        assert(job_prepared(stages[k], stages[k + 1], domains[k], wanted, draw, jobs[k]));
        let sampled = law_job_takes_pending_urls(
            stages[k],
            stages[k + 1],
            domains[k],
            wanted,
            draw,
            jobs[k],
        );
        let states = stages[k].urls@.states(domain);
        let left = stages[k + 1].urls@.states(domain);
        if domain != domains[k] {
            assert(left == states);
        } else {
            assert forall|u: Id| left.contains_key(u) implies (#[trigger] left[u]).status
                != UrlStatus::Pending by {
                assert(states.contains_key(u));
                assert(states[u].status != UrlStatus::Pending);
                if sampled.contains(u) {
                    let i = sampled.index_of(u);
                    assert(states[sampled[i]].status == UrlStatus::Pending);
                }
            }
        }
        lemma_nothing_becomes_pending(stages, domains, wanted, draw, jobs, domain, k + 1);
    }
}

/// A job that is started with given URLs holds their texts, read from the store, in that order.
/// Those of them that are known are being crawled afterwards, with their weights; nothing else of
/// the URLs changes. The domain keeps its status and weighs as much as the heaviest URL that is
/// left pending, or nothing if none is; the other domains are as they were.
pub proof fn law_started_job_holds_its_urls(
    before: CrawlDb,
    after: CrawlDb,
    domain: Id,
    sampled: Seq<Id>,
    job: Job,
)
    requires
        job_started(before, after, domain, sampled, job),
    ensures
        job.urls@.len() == sampled.len(),
        forall|i: int|
            0 <= i < sampled.len() ==> {
                let u = #[trigger] sampled[i];
                &&& before.url_ids.store().entries.contains_key(u)
                &&& url_serialization(before.url_ids.store().entries[u].text) == Some(
                    job.urls@[i]@,
                )
            },
        before.domain_ids.store().entries[domain].text == job.domain@,
        !job.fetch_sitemap,
        forall|u: Id| #[trigger]
            after.urls@.states(domain).contains_key(u) == before.urls@.states(
                domain,
            ).contains_key(u),
        forall|u: Id| #[trigger]
            before.urls@.states(domain).contains_key(u) ==> {
                &&& after.urls@.states(domain)[u].weight == before.urls@.states(domain)[u].weight
                &&& after.urls@.states(domain)[u].status == (if sampled.contains(u) {
                    UrlStatus::Crawling
                } else {
                    before.urls@.states(domain)[u].status
                })
            },
        forall|other: Id|
            other != domain ==> #[trigger] after.urls@.states(other) == before.urls@.states(other),
        forall|other: Id| #[trigger]
            after.domain_state@.contains_key(other) == before.domain_state@.contains_key(other),
        forall|other: Id| #[trigger]
            before.domain_state@.contains_key(other) && other != domain
                ==> after.domain_state@[other] == before.domain_state@[other],
        after.domain_state@[domain].status == before.domain_state@[domain].status,
        after.redirects@ == before.redirects@,
        after.url_ids.store() == before.url_ids.store(),
        after.domain_ids.store() == before.domain_ids.store(),
        after.urls@.pages == before.urls@.pages,
        forall|u: Id|
            after.urls@.states(domain).contains_key(u) && (#[trigger] after.urls@.states(
                domain,
            )[u]).status == UrlStatus::Pending ==> after.urls@.states(domain)[u].weight
                <= after.domain_state@[domain].weight,
        after.domain_state@[domain].weight == 0 || exists|u: Id|
            {
                &&& after.urls@.states(domain).contains_key(u)
                &&& (#[trigger] after.urls@.states(domain)[u]).status == UrlStatus::Pending
                &&& after.urls@.states(domain)[u].weight == after.domain_state@[domain].weight
            },
{
    let left = after.urls@.states(domain);
    assert(url_texts(job.urls@).len() == sampled.len());
    assert forall|i: int| 0 <= i < sampled.len() implies {
        let u = #[trigger] sampled[i];
        &&& before.url_ids.store().entries.contains_key(u)
        &&& url_serialization(before.url_ids.store().entries[u].text) == Some(job.urls@[i]@)
    } by {
        assert(url_read(before, sampled[i]) is Ok);
        assert(url_texts(job.urls@)[i] == job.urls@[i]@);
    }
    let waiting = pending_urls(left);
    assert forall|u: Id|
        left.contains_key(u) && (#[trigger] left[u]).status
            == UrlStatus::Pending implies left[u].weight <= after.domain_state@[domain].weight by {
        assert(waiting.contains_key(u));
    }
    if after.domain_state@[domain].weight != 0 {
        let u = choose|u: Id| #[trigger]
            waiting.contains_key(u) && waiting[u] == after.domain_state@[domain].weight;
        assert(left[u].status == UrlStatus::Pending);
    }
}

/// A job cannot be started only because of the first of its URLs whose text is not saved or is no
/// URL; the error tells which.
pub proof fn law_unread_url_is_told(db: CrawlDb, urls: Seq<Id>, error: Error) -> (k: int)
    requires
        first_unread(db, urls, error),
    ensures
        0 <= k < urls.len(),
        ({
            let store = db.url_ids.store();
            let saved = store.entries.contains_key(urls[k]) && store.entries[urls[k]].start
                + text_bytes(store.entries[urls[k]].text).len() <= store.saved.len();
            &&& !saved ==> error == Error::TextNotSaved
            &&& saved ==> error == Error::InvalidUrl && url_serialization(
                store.entries[urls[k]].text,
            ) is None
            &&& forall|i: int|
                0 <= i < k ==> store.entries.contains_key(#[trigger] urls[i])
                    && store.entries[urls[i]].start + text_bytes(store.entries[urls[i]].text).len()
                    <= store.saved.len() && url_serialization(store.entries[urls[i]].text) is Some
        }),
{
    let k = choose|k: int|
        {
            &&& 0 <= k < urls.len()
            &&& url_read(db, #[trigger] urls[k]) == Err::<Seq<char>, Error>(error)
            &&& forall|i: int| 0 <= i < k ==> url_read(db, #[trigger] urls[i]) is Ok
        };
    assert forall|i: int| 0 <= i < k implies {
        let store = db.url_ids.store();
        store.entries.contains_key(#[trigger] urls[i]) && store.entries[urls[i]].start + text_bytes(
            store.entries[urls[i]].text,
        ).len() <= store.saved.len() && url_serialization(store.entries[urls[i]].text) is Some
    } by {
        assert(url_read(db, urls[i]) is Ok);
    }
    k
}

/// What is saved can be read: if the text of every pending URL of a domain is saved and is a URL,
/// jobs for the domain do not fail.
pub proof fn law_saved_urls_can_be_read(db: CrawlDb, domain: Id)
    requires
        forall|u: Id|
            {
                &&& db.urls@.states(domain).contains_key(u)
                &&& (#[trigger] db.urls@.states(domain)[u]).status == UrlStatus::Pending
            } ==> {
                let store = db.url_ids.store();
                &&& store.entries.contains_key(u)
                &&& store.entries[u].start + text_bytes(store.entries[u].text).len()
                    <= store.saved.len()
                &&& url_serialization(store.entries[u].text) is Some
            },
    ensures
        pending_are_read(db, domain),
{
    let states = db.urls@.states(domain);
    assert forall|u: Id| #[trigger] pending_urls(states).contains_key(u) implies url_read(
        db,
        u,
    ) is Ok by {
        assert(states[u].status == UrlStatus::Pending);
    }
}

/// Where the preparation of jobs stops, a pending URL of the domain that is next cannot be read:
/// its text is not saved or is no URL. The URLs of that domain, unless an earlier job was for it,
/// and those of all later domains are as they were at first.
pub proof fn law_preparation_stops_at_an_unread_url<F: Fn(u64) -> u64>(
    before: CrawlDb,
    after: CrawlDb,
    domains: Seq<Id>,
    wanted: nat,
    draw: F,
    error: Error,
) -> (stop: (int, Id))
    requires
        preparation_stopped(before, after, domains, wanted, draw, error),
    ensures
        0 <= stop.0 < domains.len(),
        wanted > 0,
        after.urls@.states(domains[stop.0]).contains_key(stop.1),
        after.urls@.states(domains[stop.0])[stop.1].status == UrlStatus::Pending,
        ({
            let store = before.url_ids.store();
            let saved = store.entries.contains_key(stop.1) && store.entries[stop.1].start
                + text_bytes(store.entries[stop.1].text).len() <= store.saved.len();
            &&& !saved ==> error == Error::TextNotSaved
            &&& saved ==> error == Error::InvalidUrl && url_serialization(
                store.entries[stop.1].text,
            ) is None
        }),
        forall|domain: Id|
            (forall|j: int| 0 <= j < stop.0 ==> domains[j] != domain)
                ==> #[trigger] after.urls@.states(domain) == before.urls@.states(domain),
{
    let (last, jobs, k) = choose|last: CrawlDb, jobs: Seq<Job>, k: int|
        jobs_stopped(before, last, after, domains, wanted, draw, jobs, k, error);
    let earlier = domains.take(k);
    let sampled = choose|sampled: Seq<Id>| #[trigger]
        is_sample_of(pending_urls(last.urls@.states(domains[k])), wanted, draw, sampled)
            && first_unread(last, sampled, error);
    let weights = pending_urls(last.urls@.states(domains[k]));
    law_sample_takes_the_lowest(weights, wanted, draw, sampled);
    let i = law_unread_url_is_told(last, sampled, error);
    assert(weights.contains_key(sampled[i]));
    let stages = choose|stages: Seq<CrawlDb>|
        jobs_prepared_by(before, last, stages, earlier, wanted, draw, jobs);
    lemma_texts_stay(before, last, stages, earlier, wanted, draw, jobs, k);
    assert(after.urls@.states(domains[k]) == last.urls@.states(domains[k]));
    assert forall|domain: Id|
        (forall|j: int| 0 <= j < k ==> domains[j] != domain) implies #[trigger] after.urls@.states(
        domain,
    ) == before.urls@.states(domain) by {
        lemma_not_yet_reached(before, last, stages, earlier, wanted, draw, jobs, domain, k);
    }
    (k, sampled[i])
}

/// Jobs leave the texts as they are.
proof fn lemma_texts_stay<F: Fn(u64) -> u64>(
    before: CrawlDb,
    after: CrawlDb,
    stages: Seq<CrawlDb>,
    domains: Seq<Id>,
    wanted: nat,
    draw: F,
    jobs: Seq<Job>,
    k: int,
)
    requires
        jobs_prepared_by(before, after, stages, domains, wanted, draw, jobs),
        0 <= k <= jobs.len(),
    ensures
        stages[k].url_ids.store() == before.url_ids.store(),
        stages[k].domain_ids.store() == before.domain_ids.store(),
    decreases k,
{
    if k > 0 {
        lemma_texts_stay(before, after, stages, domains, wanted, draw, jobs, k - 1);
        assert(job_prepared(
            stages[k - 1],
            stages[k - 1 + 1],
            domains[k - 1],
            wanted,
            draw,
            jobs[k - 1],
        ));
    }
}

/// What it means that all that is known is registered, and that identifiers are consistent: every
/// known domain and every known URL has a text in its table, every text stands under its own
/// identifier, and the tables give every text its own.
pub proof fn law_tables_agree_with_what_is_known(db: CrawlDb)
    ensures
        db.registered() <==> {
            &&& forall|d: Id| #[trigger]
                db.domain_state@.contains_key(d) ==> db.domain_ids.store().entries.contains_key(d)
            &&& forall|d: Id, u: Id| #[trigger]
                db.urls@.states(d).contains_key(u) ==> db.url_ids.store().entries.contains_key(u)
        },
        db.consistent() <==> {
            &&& forall|text: Seq<char>| #[trigger] db.url_ids.id_for(text) == text_id(text)
            &&& forall|text: Seq<char>| #[trigger] db.domain_ids.id_for(text) == text_id(text)
            &&& forall|id: Id| #[trigger]
                db.url_ids.store().entries.contains_key(id) ==> text_id(
                    db.url_ids.store().entries[id].text,
                ) == id
            &&& forall|id: Id| #[trigger]
                db.domain_ids.store().entries.contains_key(id) ==> text_id(
                    db.domain_ids.store().entries[id].text,
                ) == id
        },
{
}

} // verus!
