//! What holds of a crawl as a whole.

use crate::crawl_db::{
    discovered_since, domain_is_saved, handed_out, job_prepared, jobs_prepared, jobs_prepared_by,
    known_domain, pending_are_saved, seed_is, seeded, seeded_domain, seeded_since, touched,
    visited_since, CrawlDb, DomainStates,
};
use crate::digest::{text_id, Id};
use crate::discovery::{
    concerns, discovered, everywhere, from_elsewhere, known_url, raised, states_after_discovery,
    weight_after_discovery, Discovery,
};
use crate::job::Job;
use crate::memmap_db::law_all_is_readable_once_saved;
use crate::pending::{crawling, is_sample_of, law_sample_is_part, pending_domains, pending_urls};
use crate::redirect_db::{latest, Redirect};
use crate::url_state::{DomainState, DomainStatus, UrlState, UrlStatus};
use crate::url_state_db::{
    known_in_all, law_unread_pages_stay_on_disk, law_writing_out_loses_nothing, pages_are_of, reread,
    written, StateMap,
};
use crate::visits::{
    last_settled, law_last_redirect_wins, law_last_visit_wins, new_status, noting_order,
    redirects_last, redirects_met, settles_last, states_after_visits, visited, Visit,
};
use crate::web_url::domain_of;
use vstd::multiset::Multiset;
use vstd::prelude::*;

verus! {

/// A domain that was handed out is not handed out again: whatever is sampled next, as long as
/// its status is left alone, the two samples share no domain.
pub proof fn law_politeness<F: Fn(u64) -> u64, G: Fn(u64) -> u64>(
    states: DomainStates,
    first_wanted: nat,
    first_draw: F,
    first: Seq<Id>,
    second_wanted: nat,
    second_draw: G,
    second: Seq<Id>,
)
    requires
        is_sample_of(pending_domains(states), first_wanted, first_draw, first),
        is_sample_of(
            pending_domains(handed_out(states, first)),
            second_wanted,
            second_draw,
            second,
        ),
    ensures
        forall|domain: Id| #[trigger] first.contains(domain) ==> handed_out(
            states,
            first,
        ).contains_key(domain) && handed_out(states, first)[domain].status
            == DomainStatus::CrawlInProgress,
        forall|domain: Id| !(#[trigger] first.contains(domain) && second.contains(domain)),
        first_wanted >= pending_domains(states).len() ==> second.len() == 0,
{
    let after = handed_out(states, first);
    law_sample_is_part(pending_domains(states), first_wanted, first_draw, first);
    law_sample_is_part(pending_domains(after), second_wanted, second_draw, second);
    assert forall|domain: Id| !(#[trigger] first.contains(domain) && second.contains(domain)) by {
        if first.contains(domain) && second.contains(domain) {
            let j = second.index_of(domain);
            assert(pending_domains(after).contains_key(second[j]));
        }
    }
    assert forall|domain: Id| #[trigger] first.contains(domain) implies after.contains_key(domain)
        && after[domain].status == DomainStatus::CrawlInProgress by {
        let i = first.index_of(domain);
        assert(pending_domains(states).contains_key(first[i]));
    }
    if first_wanted >= pending_domains(states).len() && second.len() > 0 {
        let domain = second[0];
        assert(second.contains(domain));
        assert(pending_domains(after).contains_key(domain));
        assert(pending_domains(states).contains_key(domain));
        first.unique_seq_to_set();
        vstd::seq_lib::seq_to_set_is_finite(first);
        assert(first.to_set().subset_of(pending_domains(states).dom())) by {
            assert forall|d: Id| first.to_set().contains(d) implies pending_domains(
                states,
            ).contains_key(d) by {
                let i = first.index_of(d);
                assert(pending_domains(states).contains_key(first[i]));
            }
        }
        vstd::set_lib::lemma_subset_equality(first.to_set(), pending_domains(states).dom());
        assert(first.to_set().contains(domain));
    }
}

/// No domain that is known loses its status: only handing it out and setting its status change
/// it.
pub open spec fn statuses_kept(before: CrawlDb, after: CrawlDb) -> bool {
    forall|domain: Id| #[trigger]
        before.domain_state@.contains_key(domain) ==> after.domain_state@.contains_key(domain)
            && after.domain_state@[domain].status == before.domain_state@[domain].status
}

/// Seeds, discoveries, visits and the preparation of jobs leave the status of every known domain
/// as it is, so that a domain that was handed out stays so.
pub proof fn law_statuses_are_kept<F: Fn(u64) -> u64>(
    before: CrawlDb,
    after: CrawlDb,
    seeds: Seq<Seq<char>>,
    found: Seq<Discovery>,
    made: Seq<Visit>,
    order: Seq<usize>,
    domains: Seq<Id>,
    wanted: nat,
    draw: F,
    jobs: Seq<Job>,
)
    requires
        seeded_since(before, after, seeds) || discovered_since(
            before,
            after,
            found,
            everywhere(found.len()),
        ) || visited_since(before, after, made, order) || jobs_prepared(
            before,
            after,
            domains,
            wanted,
            draw,
            jobs,
        ),
    ensures
        statuses_kept(before, after),
{
    if jobs_prepared(before, after, domains, wanted, draw, jobs) {
        let stages = choose|stages: Seq<CrawlDb>|
            jobs_prepared_by(before, after, stages, domains, wanted, draw, jobs);
        let all = jobs.len() as int;
        lemma_stages_keep_statuses(before, after, stages, domains, wanted, draw, jobs, all);
    }
}

proof fn lemma_stages_keep_statuses<F: Fn(u64) -> u64>(
    before: CrawlDb,
    after: CrawlDb,
    stages: Seq<CrawlDb>,
    domains: Seq<Id>,
    wanted: nat,
    draw: F,
    jobs: Seq<Job>,
    k: int,
)
    requires
        jobs_prepared_by(before, after, stages, domains, wanted, draw, jobs),
        0 <= k <= jobs.len(),
    ensures
        statuses_kept(before, stages[k]),
    decreases k,
{
    if k > 0 {
        lemma_stages_keep_statuses(before, after, stages, domains, wanted, draw, jobs, k - 1);
        assert(job_prepared(stages[k - 1], stages[k], domains[k - 1], wanted, draw, jobs[k - 1]));
        assert forall|domain: Id| #[trigger]
            before.domain_state@.contains_key(domain) implies stages[k].domain_state@.contains_key(
            domain,
        ) && stages[k].domain_state@[domain].status == before.domain_state@[domain].status by {
            assert(stages[k - 1].domain_state@.contains_key(domain));
        }
    }
}

/// A domain weighs at least as much as each of its pending URLs.
pub open spec fn weight_covers(db: CrawlDb, domain: Id) -> bool {
    forall|url: Id| #[trigger]
        pending_urls(db.urls@.states(domain)).contains_key(url) ==> {
            &&& db.domain_state@.contains_key(domain)
            &&& db.urls@.states(domain)[url].weight <= db.domain_state@[domain].weight
        }
}

/// Every domain weighs at least as much as each of its pending URLs.
pub open spec fn weights_cover(db: CrawlDb) -> bool {
    forall|domain: Id| #[trigger] weight_covers(db, domain)
}

/// Seeds leave every domain at least as heavy as its pending URLs.
pub proof fn law_seeds_keep_cover(before: CrawlDb, after: CrawlDb, seeds: Seq<Seq<char>>)
    requires
        weights_cover(before),
        seeded_since(before, after, seeds),
    ensures
        weights_cover(after),
{
    assert forall|domain: Id| #[trigger] weight_covers(after, domain) by {
        assert(weight_covers(before, domain));
        assert forall|url: Id| #[trigger]
            pending_urls(after.urls@.states(domain)).contains_key(url) implies {
            &&& after.domain_state@.contains_key(domain)
            &&& after.urls@.states(domain)[url].weight <= after.domain_state@[domain].weight
        } by {
            assert(after.urls@.states(domain).contains_key(url));
            if seeded(before, seeds, domain, url) {
                let i = choose|i: int|
                    0 <= i < seeds.len() && seed_is(before, #[trigger] seeds[i], domain, url);
                assert(before.domain_ids.id_for(domain_of(seeds[i])) == domain);
                assert(seeded_domain(before, seeds, domain));
            } else {
                assert(pending_urls(before.urls@.states(domain)).contains_key(url));
            }
        }
    }
}

/// Discoveries leave every domain at least as heavy as its pending URLs.
pub proof fn law_discoveries_keep_cover(
    before: CrawlDb,
    after: CrawlDb,
    found: Seq<Discovery>,
    within: Set<int>,
)
    requires
        weights_cover(before),
        discovered_since(before, after, found, within),
    ensures
        weights_cover(after),
{
    assert forall|domain: Id| #[trigger] weight_covers(after, domain) by {
        assert(weight_covers(before, domain));
        let old_states = before.urls@.states(domain);
        let states = after.urls@.states(domain);
        assert(states_after_discovery(found, within, domain, old_states, states));
        assert forall|url: Id| #[trigger] pending_urls(states).contains_key(url) implies {
            &&& after.domain_state@.contains_key(domain)
            &&& states[url].weight <= after.domain_state@[domain].weight
        } by {
            assert(states.contains_key(url));
            if discovered(found, within, domain, url) {
                let i = choose|i: int|
                    0 <= i < found.len() && within.contains(i) && concerns(
                        #[trigger] found[i],
                        domain,
                        url,
                    );
                assert(text_id(found[i].domain) == domain);
                assert(touched(found, within, domain));
            } else {
                assert(pending_urls(old_states).contains_key(url));
                assert(from_elsewhere(found, within, domain, url) =~= Set::<int>::empty()) by {
                    assert forall|i: int| !from_elsewhere(found, within, domain, url).contains(
                        i,
                    ) by {
                        if from_elsewhere(found, within, domain, url).contains(i) {
                            assert(concerns(found[i], domain, url));
                        }
                    }
                }
                assert(raised(old_states[url].weight, 0) == old_states[url].weight);
            }
        }
    }
}

/// A URL that a visit settled is not pending.
pub proof fn law_settled_is_not_pending(
    made: Seq<Visit>,
    order: Seq<usize>,
    domain: Id,
    url: Id,
)
    ensures
        last_settled(made, order, domain, url) != Some(UrlStatus::Pending),
        last_settled(made, order, domain, url) != Some(UrlStatus::Crawling),
    decreases order.len(),
{
    if order.len() > 0 {
        law_settled_is_not_pending(made, order.drop_last(), domain, url);
    }
}

/// Visits leave every domain at least as heavy as its pending URLs.
pub proof fn law_visits_keep_cover(
    before: CrawlDb,
    after: CrawlDb,
    made: Seq<Visit>,
    order: Seq<usize>,
)
    requires
        weights_cover(before),
        visited_since(before, after, made, order),
    ensures
        weights_cover(after),
{
    assert forall|domain: Id| #[trigger] weight_covers(after, domain) by {
        assert(weight_covers(before, domain));
        let states = after.urls@.states(domain);
        assert(states_after_visits(made, order, domain, before.urls@.states(domain), states));
        assert forall|url: Id| #[trigger] pending_urls(states).contains_key(url) implies {
            &&& after.domain_state@.contains_key(domain)
            &&& states[url].weight <= after.domain_state@[domain].weight
        } by {
            assert(states.contains_key(url));
            law_settled_is_not_pending(made, order, domain, url);
            assert(pending_urls(before.urls@.states(domain)).contains_key(url));
        }
    }
}

/// Handing out domains, and setting the status of one, leave every domain at least as heavy as
/// its pending URLs.
pub proof fn law_status_changes_keep_cover(
    before: CrawlDb,
    after: CrawlDb,
    sampled: Seq<Id>,
    changed: Id,
    status: DomainStatus,
)
    requires
        weights_cover(before),
        after.urls == before.urls,
        after.domain_state@ == handed_out(before.domain_state@, sampled) || after.domain_state@
            == before.domain_state@.insert(
            changed,
            DomainState { weight: known_domain(before.domain_state@, changed).weight, status },
        ),
    ensures
        weights_cover(after),
{
    assert forall|domain: Id| #[trigger] weight_covers(after, domain) by {
        assert(weight_covers(before, domain));
    }
}

/// The preparation of jobs leaves every domain at least as heavy as its pending URLs.
pub proof fn law_jobs_keep_cover<F: Fn(u64) -> u64>(
    before: CrawlDb,
    after: CrawlDb,
    domains: Seq<Id>,
    wanted: nat,
    draw: F,
    jobs: Seq<Job>,
)
    requires
        weights_cover(before),
        jobs_prepared(before, after, domains, wanted, draw, jobs),
    ensures
        weights_cover(after),
{
    let stages = choose|stages: Seq<CrawlDb>|
        jobs_prepared_by(before, after, stages, domains, wanted, draw, jobs);
    lemma_stages_keep_cover(before, after, stages, domains, wanted, draw, jobs, jobs.len() as int);
}

proof fn lemma_stages_keep_cover<F: Fn(u64) -> u64>(
    before: CrawlDb,
    after: CrawlDb,
    stages: Seq<CrawlDb>,
    domains: Seq<Id>,
    wanted: nat,
    draw: F,
    jobs: Seq<Job>,
    k: int,
)
    requires
        weights_cover(before),
        jobs_prepared_by(before, after, stages, domains, wanted, draw, jobs),
        0 <= k <= jobs.len(),
    ensures
        weights_cover(stages[k]),
    decreases k,
{
    if k > 0 {
        lemma_stages_keep_cover(before, after, stages, domains, wanted, draw, jobs, k - 1);
        let last = stages[k - 1];
        let now = stages[k];
        assert(job_prepared(last, now, domains[k - 1], wanted, draw, jobs[k - 1]));
        assert forall|domain: Id| #[trigger] weight_covers(now, domain) by {
            assert(weight_covers(last, domain));
            if domain != domains[k - 1] {
                assert(now.urls@.states(domain) == last.urls@.states(domain));
            } else {
                assert forall|url: Id| #[trigger]
                    pending_urls(now.urls@.states(domain)).contains_key(url) implies {
                    &&& now.domain_state@.contains_key(domain)
                    &&& now.urls@.states(domain)[url].weight <= now.domain_state@[domain].weight
                } by {
                    assert(pending_urls(now.urls@.states(domain))[url]
                        == now.urls@.states(domain)[url].weight);
                }
            }
        }
    }
}

/// A URL that was handed out in a job is not handed out again: whatever is sampled next from the
/// URLs of its domain, as long as its status is left alone, the two jobs share no URL.
pub proof fn law_urls_are_handed_out_once<F: Fn(u64) -> u64, G: Fn(u64) -> u64>(
    states: StateMap,
    first_wanted: nat,
    first_draw: F,
    first: Seq<Id>,
    second_wanted: nat,
    second_draw: G,
    second: Seq<Id>,
)
    requires
        is_sample_of(pending_urls(states), first_wanted, first_draw, first),
        is_sample_of(
            pending_urls(crawling(states, first)),
            second_wanted,
            second_draw,
            second,
        ),
    ensures
        forall|url: Id| #[trigger] first.contains(url) ==> crawling(states, first).contains_key(url)
            && crawling(states, first)[url].status == UrlStatus::Crawling,
        forall|url: Id| !(#[trigger] first.contains(url) && second.contains(url)),
{
    let after = crawling(states, first);
    law_sample_is_part(pending_urls(states), first_wanted, first_draw, first);
    law_sample_is_part(pending_urls(after), second_wanted, second_draw, second);
    assert forall|url: Id| !(#[trigger] first.contains(url) && second.contains(url)) by {
        if first.contains(url) && second.contains(url) {
            let j = second.index_of(url);
            assert(pending_urls(after).contains_key(second[j]));
        }
    }
    assert forall|url: Id| #[trigger] first.contains(url) implies after.contains_key(url)
        && after[url].status == UrlStatus::Crawling by {
        let i = first.index_of(url);
        assert(pending_urls(states).contains_key(first[i]));
    }
}

/// The last redirect that visits met from a URL is where it leads from then on; a URL from which
/// none was met leads where it did.
pub proof fn law_met_redirects_are_found(
    waiting: Seq<Redirect>,
    made: Seq<Visit>,
    order: Seq<usize>,
    from: Seq<char>,
)
    ensures
        latest(waiting + redirects_met(made, order), from) == (match latest(
            redirects_met(made, order),
            from,
        ) {
            Some(to) => Some(to),
            None => latest(waiting, from),
        }),
{
    lemma_latest_of_both(waiting, redirects_met(made, order), from);
}

proof fn lemma_latest_of_both(a: Seq<Redirect>, b: Seq<Redirect>, from: Seq<char>)
    ensures
        latest(a + b, from) == (match latest(b, from) {
            Some(to) => Some(to),
            None => latest(a, from),
        }),
    decreases b.len(),
{
    if b.len() == 0 {
        assert(a + b =~= a);
    } else {
        assert((a + b).drop_last() =~= a + b.drop_last());
        assert((a + b).last() == b.last());
        lemma_latest_of_both(a, b.drop_last(), from);
    }
}

/// Once everything is committed and saved, so are the texts that jobs for a known domain need.
pub proof fn law_saved_jobs_can_be_prepared(
    before: CrawlDb,
    after: CrawlDb,
    domain: Id,
)
    requires
        before.wf(),
        before.registered(),
        before.domain_state@.contains_key(domain),
        after.domain_state == before.domain_state,
        after.urls == before.urls,
        after.domain_ids.store() == before.domain_ids.store().commit().save(),
        after.url_ids.store() == before.url_ids.store().commit().save(),
    ensures
        domain_is_saved(after, domain),
        pending_are_saved(after, domain),
{
    before.domain_ids.lemma_wf();
    before.url_ids.lemma_wf();
    law_all_is_readable_once_saved(before.domain_ids.store(), domain);
    assert forall|url: Id| #[trigger]
        pending_urls(after.urls@.states(domain)).contains_key(
            url,
        ) implies after.url_ids.store().readable(url) by {
        assert(before.urls@.states(domain).contains_key(url));
        law_all_is_readable_once_saved(before.url_ids.store(), url);
    }
}

/// Once visits are noted, a URL that they settled has the status that the last of them to settle
/// it gave it, and it leads where the last of them that was redirected led. The status is that of
/// a URL whose identifier no other visited URL has.
pub proof fn law_last_response_counts(
    before: CrawlDb,
    after: CrawlDb,
    made: Seq<Visit>,
    url: Seq<char>,
)
    requires
        made.len() <= usize::MAX,
        visited_since(before, after, made, noting_order(made)),
    ensures
        forall|i: int| #[trigger]
            settles_last(made, i, url) && (forall|j: int|
                0 <= j < made.len() && text_id((#[trigger] made[j]).url) == text_id(url)
                    ==> made[j].url == url) ==> {
                let states = after.urls@.states(text_id(domain_of(url)));
                &&& states.contains_key(text_id(url))
                &&& Some(states[text_id(url)].status) == new_status(made[i].outcome)
            },
        forall|i: int| #[trigger]
            redirects_last(made, i, url) ==> latest(after.redirects@, url) == Some(
                made[i].outcome->to,
            ),
{
    let domain = text_id(domain_of(url));
    assert(states_after_visits(
        made,
        noting_order(made),
        domain,
        before.urls@.states(domain),
        after.urls@.states(domain),
    ));
    if forall|j: int|
        0 <= j < made.len() && text_id((#[trigger] made[j]).url) == text_id(url) ==> made[j].url
            == url {
        law_last_visit_wins(made, url);
        let states = after.urls@.states(domain);
        assert forall|i: int| #[trigger] settles_last(made, i, url) implies states.contains_key(
            text_id(url),
        ) && Some(states[text_id(url)].status) == new_status(made[i].outcome) by {
            assert(states.contains_key(text_id(url)));
        }
    }
    law_last_redirect_wins(made, url);
    law_met_redirects_are_found(before.redirects@, made, noting_order(made), url);
}

/// A discovery of the given URL, on a page of another domain.
spec fn weighing(domain: Id, url: Id) -> spec_fn(Discovery) -> bool {
    |item: Discovery| concerns(item, domain, url) && item.different_domain
}

/// How often a URL is discovered on pages of other domains does not depend on the order of the
/// discoveries.
proof fn lemma_count_from_elsewhere(found: Seq<Discovery>, domain: Id, url: Id)
    ensures
        from_elsewhere(found, everywhere(found.len()), domain, url).finite(),
        from_elsewhere(found, everywhere(found.len()), domain, url).len()
            == found.to_multiset().filter(weighing(domain, url)).len(),
    decreases found.len(),
{
    broadcast use vstd::multiset::group_multiset_axioms;
    broadcast use vstd::seq_lib::group_to_multiset_ensures;

    let places = from_elsewhere(found, everywhere(found.len()), domain, url);
    let weigh = weighing(domain, url);
    if found.len() == 0 {
        assert(places =~= Set::empty());
        assert(found =~= Seq::empty());
        assert(found.to_multiset().filter(weigh) =~= Multiset::empty());
    } else {
        let front = found.drop_last();
        let last = found.last();
        lemma_count_from_elsewhere(front, domain, url);
        let fewer = from_elsewhere(front, everywhere(front.len()), domain, url);
        assert(found =~= front.push(last));
        assert(found.to_multiset() =~= front.to_multiset().insert(last));
        if weigh(last) {
            assert(places =~= fewer.insert(found.len() - 1));
            assert(found.to_multiset().filter(weigh) =~= front.to_multiset().filter(weigh).insert(
                last,
            ));
        } else {
            assert(places =~= fewer);
            assert(found.to_multiset().filter(weigh) =~= front.to_multiset().filter(weigh));
        }
    }
}

/// The discoveries of `joined` are those of `first` and of `second`, in any order.
pub open spec fn joins(
    joined: Seq<Discovery>,
    first: Seq<Discovery>,
    second: Seq<Discovery>,
) -> bool {
    joined.to_multiset() == first.to_multiset().add(second.to_multiset())
}

proof fn lemma_joined_discoveries(
    joined: Seq<Discovery>,
    first: Seq<Discovery>,
    second: Seq<Discovery>,
    domain: Id,
    url: Id,
)
    requires
        joins(joined, first, second),
    ensures
        discovered(joined, everywhere(joined.len()), domain, url) <==> discovered(
            first,
            everywhere(first.len()),
            domain,
            url,
        ) || discovered(second, everywhere(second.len()), domain, url),
        touched(joined, everywhere(joined.len()), domain) <==> touched(
            first,
            everywhere(first.len()),
            domain,
        ) || touched(second, everywhere(second.len()), domain),
        from_elsewhere(joined, everywhere(joined.len()), domain, url).len() == from_elsewhere(
            first,
            everywhere(first.len()),
            domain,
            url,
        ).len() + from_elsewhere(second, everywhere(second.len()), domain, url).len(),
{
    broadcast use vstd::multiset::group_multiset_axioms;
    broadcast use vstd::seq_lib::group_to_multiset_ensures;

    lemma_count_from_elsewhere(joined, domain, url);
    lemma_count_from_elsewhere(first, domain, url);
    lemma_count_from_elsewhere(second, domain, url);
    let weigh = weighing(domain, url);
    assert(joined.to_multiset().filter(weigh) =~= first.to_multiset().filter(weigh).add(
        second.to_multiset().filter(weigh),
    ));
    assert forall|item: Discovery| #[trigger]
        joined.contains(item) <==> first.contains(item) || second.contains(item) by {
        assert(joined.to_multiset().count(item) == first.to_multiset().count(item)
            + second.to_multiset().count(item));
        vstd::seq_lib::to_multiset_contains(joined, item);
        vstd::seq_lib::to_multiset_contains(first, item);
        vstd::seq_lib::to_multiset_contains(second, item);
    }
    lemma_discovered_in_parts(joined, first, second, domain, url);
    lemma_discovered_in_parts(first, joined, joined, domain, url);
    lemma_discovered_in_parts(second, joined, joined, domain, url);
}

/// What is discovered by a list is discovered by one of two lists that hold all of it.
proof fn lemma_discovered_in_parts(
    found: Seq<Discovery>,
    a: Seq<Discovery>,
    b: Seq<Discovery>,
    domain: Id,
    url: Id,
)
    requires
        forall|item: Discovery| #[trigger]
            found.contains(item) ==> a.contains(item) || b.contains(item),
    ensures
        discovered(found, everywhere(found.len()), domain, url) ==> discovered(
            a,
            everywhere(a.len()),
            domain,
            url,
        ) || discovered(b, everywhere(b.len()), domain, url),
        touched(found, everywhere(found.len()), domain) ==> touched(a, everywhere(a.len()), domain)
            || touched(b, everywhere(b.len()), domain),
{
    let within = everywhere(found.len());
    if discovered(found, within, domain, url) {
        let i = choose|i: int|
            0 <= i < found.len() && within.contains(i) && concerns(#[trigger] found[i], domain, url);
        assert(found.contains(found[i]));
        if a.contains(found[i]) {
            let k = a.index_of(found[i]);
            assert(everywhere(a.len()).contains(k) && concerns(a[k], domain, url));
        } else {
            let k = b.index_of(found[i]);
            assert(everywhere(b.len()).contains(k) && concerns(b[k], domain, url));
        }
    }
    if touched(found, within, domain) {
        let i = choose|i: int|
            0 <= i < found.len() && within.contains(i) && text_id((#[trigger] found[i]).domain)
                == domain;
        assert(found.contains(found[i]));
        if a.contains(found[i]) {
            let k = a.index_of(found[i]);
            assert(everywhere(a.len()).contains(k) && text_id(a[k].domain) == domain);
        } else {
            let k = b.index_of(found[i]);
            assert(everywhere(b.len()).contains(k) && text_id(b[k].domain) == domain);
        }
    }
}

/// The discoveries of two lists, noted one after the other, change what the two lists joined
/// change, in whatever order they are joined.
pub proof fn law_discoveries_add_up(
    before: CrawlDb,
    middle: CrawlDb,
    after: CrawlDb,
    first: Seq<Discovery>,
    second: Seq<Discovery>,
    joined: Seq<Discovery>,
)
    requires
        discovered_since(before, middle, first, everywhere(first.len())),
        discovered_since(middle, after, second, everywhere(second.len())),
        joins(joined, first, second),
    ensures
        discovered_since(before, after, joined, everywhere(joined.len())),
{
    let all = everywhere(joined.len());
    assert forall|domain: Id|
        states_after_discovery(
            joined,
            all,
            domain,
            before.urls@.states(domain),
            #[trigger] after.urls@.states(domain),
        ) by {
        lemma_states_add_up(before, middle, after, first, second, joined, domain);
    }
    assert forall|domain: Id| #[trigger]
        after.domain_state@.contains_key(domain) <==> before.domain_state@.contains_key(domain)
            || touched(joined, all, domain) by {
        lemma_joined_discoveries(joined, first, second, domain, 0);
        assert(middle.domain_state@.contains_key(domain) <==> before.domain_state@.contains_key(
            domain,
        ) || touched(first, everywhere(first.len()), domain));
    }
    assert forall|domain: Id| #[trigger]
        after.urls@.at_hand(domain) <==> before.urls@.at_hand(domain) || touched(
            joined,
            all,
            domain,
        ) by {
        lemma_joined_discoveries(joined, first, second, domain, 0);
        assert(middle.urls@.at_hand(domain) <==> before.urls@.at_hand(domain) || touched(
            first,
            everywhere(first.len()),
            domain,
        ));
    }
    assert forall|domain: Id| #[trigger] after.domain_state@.contains_key(domain) implies
        after.domain_state@[domain].status == known_domain(before.domain_state@, domain).status
        && weight_after_discovery(
        joined,
        all,
        domain,
        after.urls@.states(domain),
        known_domain(before.domain_state@, domain).weight,
        after.domain_state@[domain].weight,
    ) by {
        lemma_weights_add_up(before, middle, after, first, second, joined, domain);
    }
}

proof fn lemma_states_add_up(
    before: CrawlDb,
    middle: CrawlDb,
    after: CrawlDb,
    first: Seq<Discovery>,
    second: Seq<Discovery>,
    joined: Seq<Discovery>,
    domain: Id,
)
    requires
        discovered_since(before, middle, first, everywhere(first.len())),
        discovered_since(middle, after, second, everywhere(second.len())),
        joins(joined, first, second),
    ensures
        states_after_discovery(
            joined,
            everywhere(joined.len()),
            domain,
            before.urls@.states(domain),
            after.urls@.states(domain),
        ),
{
    let old_states = before.urls@.states(domain);
    let between = middle.urls@.states(domain);
    let states = after.urls@.states(domain);
    let in_first = everywhere(first.len());
    let in_second = everywhere(second.len());
    assert(states_after_discovery(first, in_first, domain, old_states, between));
    assert(states_after_discovery(second, in_second, domain, between, states));
    assert forall|url: Id| #[trigger]
        states.contains_key(url) <==> old_states.contains_key(url) || discovered(
            joined,
            everywhere(joined.len()),
            domain,
            url,
        ) by {
        lemma_joined_discoveries(joined, first, second, domain, url);
        assert(between.contains_key(url) <==> old_states.contains_key(url) || discovered(
            first,
            in_first,
            domain,
            url,
        ));
    }
    assert forall|url: Id| #[trigger] states.contains_key(url) implies states[url] == (UrlState {
        weight: raised(
            known_url(old_states, url).weight,
            from_elsewhere(joined, everywhere(joined.len()), domain, url).len(),
        ),
        status: known_url(old_states, url).status,
    }) by {
        lemma_joined_discoveries(joined, first, second, domain, url);
        let a = from_elsewhere(first, in_first, domain, url).len();
        let b = from_elsewhere(second, in_second, domain, url).len();
        if between.contains_key(url) {
            assert(known_url(between, url).weight == raised(known_url(old_states, url).weight, a));
        } else {
            assert(!discovered(first, in_first, domain, url));
            lemma_undiscovered(first, domain, url);
        }
        assert(raised(raised(known_url(old_states, url).weight, a), b) == raised(
            known_url(old_states, url).weight,
            a + b,
        ));
    }
}

/// A URL that is not discovered is discovered nowhere.
proof fn lemma_undiscovered(found: Seq<Discovery>, domain: Id, url: Id)
    requires
        !discovered(found, everywhere(found.len()), domain, url),
    ensures
        from_elsewhere(found, everywhere(found.len()), domain, url) == Set::<int>::empty(),
{
    let places = from_elsewhere(found, everywhere(found.len()), domain, url);
    assert forall|i: int| !places.contains(i) by {
        if places.contains(i) {
            assert(concerns(found[i], domain, url));
        }
    }
    assert(places =~= Set::<int>::empty());
}

proof fn lemma_weights_add_up(
    before: CrawlDb,
    middle: CrawlDb,
    after: CrawlDb,
    first: Seq<Discovery>,
    second: Seq<Discovery>,
    joined: Seq<Discovery>,
    domain: Id,
)
    requires
        discovered_since(before, middle, first, everywhere(first.len())),
        discovered_since(middle, after, second, everywhere(second.len())),
        joins(joined, first, second),
        after.domain_state@.contains_key(domain),
    ensures
        after.domain_state@[domain].status == known_domain(before.domain_state@, domain).status,
        weight_after_discovery(
            joined,
            everywhere(joined.len()),
            domain,
            after.urls@.states(domain),
            known_domain(before.domain_state@, domain).weight,
            after.domain_state@[domain].weight,
        ),
{
    let all = everywhere(joined.len());
    let in_first = everywhere(first.len());
    let in_second = everywhere(second.len());
    let between = middle.urls@.states(domain);
    let states = after.urls@.states(domain);
    let start_weight = known_domain(before.domain_state@, domain).weight;
    let middle_weight = known_domain(middle.domain_state@, domain).weight;
    let weight = after.domain_state@[domain].weight;
    assert(states_after_discovery(first, in_first, domain, before.urls@.states(domain), between));
    assert(states_after_discovery(second, in_second, domain, between, states));
    assert(weight_after_discovery(second, in_second, domain, states, middle_weight, weight));
    assert(middle.domain_state@.contains_key(domain) <==> before.domain_state@.contains_key(domain)
        || touched(first, in_first, domain));
    assert(weight_after_discovery(first, in_first, domain, between, start_weight, middle_weight))
        by {
        if !middle.domain_state@.contains_key(domain) {
            assert forall|url: Id| !#[trigger] discovered(first, in_first, domain, url) by {
                if discovered(first, in_first, domain, url) {
                    let i = choose|i: int|
                        0 <= i < first.len() && in_first.contains(i) && concerns(
                            #[trigger] first[i],
                            domain,
                            url,
                        );
                    assert(text_id(first[i].domain) == domain);
                }
            }
        }
    }
    assert forall|url: Id| between.contains_key(url) implies #[trigger] states[url].weight
        >= between[url].weight && (!discovered(second, in_second, domain, url) ==> states[url].weight
        == between[url].weight) by {
        assert(states.contains_key(url));
        if !discovered(second, in_second, domain, url) {
            lemma_undiscovered(second, domain, url);
        }
    }
    assert forall|url: Id| #[trigger]
        discovered(joined, all, domain, url) implies states[url].weight <= weight by {
        lemma_joined_discoveries(joined, first, second, domain, url);
        if !discovered(second, in_second, domain, url) {
            assert(discovered(first, in_first, domain, url));
            assert(between.contains_key(url));
        }
    }
    if weight != start_weight {
        if weight != middle_weight {
            let url = choose|url: Id| #[trigger]
                discovered(second, in_second, domain, url) && states[url].weight == weight;
            lemma_joined_discoveries(joined, first, second, domain, url);
            assert(discovered(joined, all, domain, url));
        } else {
            let url = choose|url: Id| #[trigger]
                discovered(first, in_first, domain, url) && between[url].weight == middle_weight;
            lemma_joined_discoveries(joined, first, second, domain, url);
            assert(discovered(joined, all, domain, url));
            assert(between.contains_key(url));
            assert(states[url].weight >= between[url].weight);
        }
    }
}

/// What discoveries change of a crawl is determined by what it was before.
pub proof fn law_discoveries_determine_the_outcome(
    before: CrawlDb,
    one: CrawlDb,
    other: CrawlDb,
    found: Seq<Discovery>,
)
    requires
        discovered_since(before, one, found, everywhere(found.len())),
        discovered_since(before, other, found, everywhere(found.len())),
    ensures
        forall|domain: Id| #[trigger] one.urls@.states(domain) == other.urls@.states(domain),
        one.domain_state@ == other.domain_state@,
{
    let all = everywhere(found.len());
    assert forall|domain: Id| #[trigger]
        one.urls@.states(domain) == other.urls@.states(domain) by {
        let states = before.urls@.states(domain);
        assert(states_after_discovery(found, all, domain, states, one.urls@.states(domain)));
        assert(states_after_discovery(found, all, domain, states, other.urls@.states(domain)));
        assert forall|url: Id| #[trigger] one.urls@.states(domain).contains_key(
            url,
        ) == other.urls@.states(domain).contains_key(url) by {}
        assert forall|url: Id| #[trigger] one.urls@.states(domain).contains_key(
            url,
        ) implies one.urls@.states(domain)[url] == other.urls@.states(domain)[url] by {
            assert(other.urls@.states(domain).contains_key(url));
        }
        assert(one.urls@.states(domain) =~= other.urls@.states(domain));
    }
    assert forall|domain: Id| #[trigger] one.domain_state@.contains_key(domain) implies
        other.domain_state@.contains_key(domain) && one.domain_state@[domain]
        == other.domain_state@[domain] by {
        assert(other.domain_state@.contains_key(domain));
        assert(one.urls@.states(domain) == other.urls@.states(domain));
        let states = one.urls@.states(domain);
        let a = one.domain_state@[domain].weight;
        let b = other.domain_state@[domain].weight;
        let start = known_domain(before.domain_state@, domain).weight;
        assert(weight_after_discovery(found, all, domain, states, start, a));
        assert(weight_after_discovery(found, all, domain, states, start, b));
    }
    assert(one.domain_state@ =~= other.domain_state@) by {
        assert forall|domain: Id| #[trigger]
            one.domain_state@.contains_key(domain) == other.domain_state@.contains_key(domain) by {}
    }
}

/// The work does not concern the domain.
pub open spec fn passes_by<F: Fn(u64) -> u64>(before: CrawlDb, work: Work<F>, domain: Id) -> bool {
    match work {
        Work::Seeds { seeds } => !seeded_domain(before, seeds, domain),
        Work::Discoveries { found } => !touched(found, everywhere(found.len()), domain),
        Work::Visits { made, order } => !visited(made, order, domain),
        Work::Jobs { domains, wanted, draw, jobs } => !domains.contains(domain),
    }
}

/// What is done with a crawl.
pub enum Work<F> {
    Seeds { seeds: Seq<Seq<char>> },
    Discoveries { found: Seq<Discovery> },
    Visits { made: Seq<Visit>, order: Seq<usize> },
    Jobs { domains: Seq<Id>, wanted: nat, draw: F, jobs: Seq<Job> },
}

/// The work led from `before` to `after`.
pub open spec fn worked<F: Fn(u64) -> u64>(before: CrawlDb, after: CrawlDb, work: Work<F>) -> bool {
    match work {
        Work::Seeds { seeds } => seeded_since(before, after, seeds),
        Work::Discoveries { found } => discovered_since(
            before,
            after,
            found,
            everywhere(found.len()),
        ),
        Work::Visits { made, order } => visited_since(before, after, made, order),
        Work::Jobs { domains, wanted, draw, jobs } => jobs_prepared(
            before,
            after,
            domains,
            wanted,
            draw,
            jobs,
        ),
    }
}

/// Work leaves alone what counts as being on disk, keeps what is at hand, and brings no domain to
/// hand that it does not concern.
proof fn lemma_work_and_disk<F: Fn(u64) -> u64>(before: CrawlDb, after: CrawlDb, work: Work<F>)
    requires
        worked(before, after, work),
    ensures
        before.urls@.leads_to(after.urls@),
        forall|domain: Id| #[trigger]
            after.urls@.at_hand(domain) ==> before.urls@.at_hand(domain) || !passes_by(
                before,
                work,
                domain,
            ),
        forall|domain: Id, url: Id| #[trigger]
            before.urls@.states(domain).contains_key(url) ==> after.urls@.states(
                domain,
            ).contains_key(url),
{
    match work {
        Work::Jobs { domains, wanted, draw, jobs } => {
            let stages = choose|stages: Seq<CrawlDb>|
                jobs_prepared_by(before, after, stages, domains, wanted, draw, jobs);
            let all = jobs.len() as int;
            lemma_stages_and_disk(before, after, stages, domains, wanted, draw, jobs, all);
        },
        Work::Visits { made, order } => {
            assert forall|domain: Id, url: Id| #[trigger]
                before.urls@.states(domain).contains_key(url) implies after.urls@.states(
                domain,
            ).contains_key(url) by {
                assert(states_after_visits(
                    made,
                    order,
                    domain,
                    before.urls@.states(domain),
                    after.urls@.states(domain),
                ));
            }
        },
        Work::Discoveries { found } => {
            assert forall|domain: Id, url: Id| #[trigger]
                before.urls@.states(domain).contains_key(url) implies after.urls@.states(
                domain,
            ).contains_key(url) by {
                assert(states_after_discovery(
                    found,
                    everywhere(found.len()),
                    domain,
                    before.urls@.states(domain),
                    after.urls@.states(domain),
                ));
            }
        },
        Work::Seeds { seeds } => {},
    }
}

proof fn lemma_stages_and_disk<F: Fn(u64) -> u64>(
    before: CrawlDb,
    after: CrawlDb,
    stages: Seq<CrawlDb>,
    domains: Seq<Id>,
    wanted: nat,
    draw: F,
    jobs: Seq<Job>,
    k: int,
)
    requires
        jobs_prepared_by(before, after, stages, domains, wanted, draw, jobs),
        0 <= k <= jobs.len(),
    ensures
        before.urls@.leads_to(stages[k].urls@),
        forall|domain: Id| #[trigger]
            stages[k].urls@.at_hand(domain) ==> before.urls@.at_hand(domain) || domains.contains(
                domain,
            ),
        forall|domain: Id, url: Id| #[trigger]
            before.urls@.states(domain).contains_key(url) ==> stages[k].urls@.states(
                domain,
            ).contains_key(url),
    decreases k,
{
    if k > 0 {
        lemma_stages_and_disk(before, after, stages, domains, wanted, draw, jobs, k - 1);
        let last = stages[k - 1];
        let now = stages[k];
        assert(job_prepared(last, now, domains[k - 1], wanted, draw, jobs[k - 1]));
        assert(domains.contains(domains[k - 1]));
        assert forall|domain: Id, url: Id| #[trigger]
            before.urls@.states(domain).contains_key(url) implies now.urls@.states(
            domain,
        ).contains_key(url) by {
            assert(last.urls@.states(domain).contains_key(url));
            if domain != domains[k - 1] {
                assert(now.urls@.states(domain) == last.urls@.states(domain));
            }
        }
    }
}

/// Work forgets no URL of what is at hand.
pub proof fn law_urls_are_kept<F: Fn(u64) -> u64>(before: CrawlDb, after: CrawlDb, work: Work<F>)
    requires
        worked(before, after, work),
    ensures
        forall|domain: Id, url: Id| #[trigger]
            before.urls@.states(domain).contains_key(url) ==> after.urls@.states(
                domain,
            ).contains_key(url),
{
    lemma_work_and_disk(before, after, work);
}

/// What the disk holds of a domain that is not at hand stays as it is through work that does not
/// concern the domain: the domain is not at hand afterwards, so that the disk is still to be
/// asked; writing out leaves its page alone; and handing the page in gives what it held.
pub proof fn law_domains_left_on_disk_stay<F: Fn(u64) -> u64>(
    before: CrawlDb,
    after: CrawlDb,
    work: Work<F>,
    disk: Map<Id, StateMap>,
    domain: Id,
)
    requires
        worked(before, after, work),
        passes_by(before, work, domain),
        disk.contains_key(domain),
        !before.urls@.at_hand(domain),
    ensures
        !after.urls@.at_hand(domain),
        written(disk, after.urls@.batch).contains_key(domain),
        written(disk, after.urls@.batch)[domain] == disk[domain],
        reread(
            after.urls@.flushed(),
            written(disk, after.urls@.batch),
            domain,
        ).states(domain) == disk[domain],
{
    lemma_work_and_disk(before, after, work);
    law_unread_pages_stay_on_disk(after.urls@, disk, domain);
}

/// What is noted of a domain is read back after it is written out: once the batch is written and
/// the pages are forgotten, handing in what the disk then holds of the domain brings back the
/// states that the work left. The pages are what the disk held, and what it held of a domain that
/// the work concerns was at hand.
pub proof fn law_noted_states_are_read_back<F: Fn(u64) -> u64>(
    before: CrawlDb,
    after: CrawlDb,
    work: Work<F>,
    disk: Map<Id, StateMap>,
    domain: Id,
)
    requires
        worked(before, after, work),
        pages_are_of(before.urls@.pages, disk),
        disk.contains_key(domain) ==> before.urls@.at_hand(domain) || passes_by(
            before,
            work,
            domain,
        ),
    ensures
        reread(
            after.urls@.flushed(),
            written(disk, after.urls@.batch),
            domain,
        ).states(domain) == (if disk.contains_key(domain) && !before.urls@.at_hand(domain) {
            disk[domain]
        } else {
            after.urls@.states(domain)
        }),
        forall|url: Id| #[trigger]
            known_in_all(before.urls@, disk, domain).contains_key(url) ==> known_in_all(
                after.urls@.flushed(),
                written(disk, after.urls@.batch),
                domain,
            ).contains_key(url),
{
    lemma_work_and_disk(before, after, work);
    law_writing_out_loses_nothing(after.urls@, disk, domain);
}

} // verus!
