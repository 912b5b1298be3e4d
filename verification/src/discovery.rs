//! What the discovery of URLs changes.

use crate::digest::{text_id, Id};
use crate::grouping::{groups_view, names_of, order_of, well_grouped};
use crate::id_table::{id_pairs, IdPair};
use crate::job::JobResponse;
use crate::url_state::{fresh_url, DomainState, MAX_WEIGHT, UrlState, UrlStates, UrlStatus};
use crate::url_state_db::StateMap;
use crate::web_url::{domain_of, AsId, Domain, Url};
use vstd::prelude::*;

verus! {

broadcast use {vstd::std_specs::btree::group_btree_axioms, vstd::laws_cmp::group_laws_cmp};

/// A URL that was found on a page, with its domain, and whether the page belongs to another one.
pub struct Discovery {
    pub domain: Seq<char>,
    pub url: Seq<char>,
    pub different_domain: bool,
}

/// A URL that is found on a page of the domain `of`.
pub open spec fn discovery(of: Seq<char>, url: Seq<char>) -> Discovery {
    Discovery { domain: domain_of(url), url, different_domain: of != domain_of(url) }
}

/// What was discovered by one job.
pub open spec fn discoveries_of(response: JobResponse) -> Seq<Discovery> {
    response.discovered_urls@.map_values(|url: Url| discovery(response.domain@, url@))
}

/// What was discovered by a list of jobs.
pub open spec fn discoveries(responses: Seq<JobResponse>) -> Seq<Discovery>
    decreases responses.len(),
{
    if responses.len() == 0 {
        Seq::empty()
    } else {
        discoveries(responses.drop_last()) + discoveries_of(responses.last())
    }
}

/// The names of the domains of discovered URLs.
pub open spec fn discovered_domains(found: Seq<Discovery>) -> Seq<Seq<char>> {
    found.map_values(|item: Discovery| item.domain)
}

/// The discovered URLs and their identifiers, in the given order.
pub open spec fn discovered_pairs(found: Seq<Discovery>, order: Seq<usize>) -> Seq<IdPair> {
    order.map_values(
        |place: usize| (found[place as int].url, text_id(found[place as int].url)),
    )
}

/// The discovery is of the given URL in the given domain.
pub open spec fn concerns(item: Discovery, domain: Id, url: Id) -> bool {
    text_id(item.domain) == domain && text_id(item.url) == url
}

/// One of the discoveries at the places `within` is of the given URL.
pub open spec fn discovered(found: Seq<Discovery>, within: Set<int>, domain: Id, url: Id) -> bool {
    exists|i: int|
        0 <= i < found.len() && within.contains(i) && concerns(#[trigger] found[i], domain, url)
}

/// The places, of those in `within`, at which the URL is discovered on a page of another domain.
pub open spec fn from_elsewhere(
    found: Seq<Discovery>,
    within: Set<int>,
    domain: Id,
    url: Id,
) -> Set<int> {
    Set::new(
        |i: int|
            0 <= i < found.len() && within.contains(i) && concerns(found[i], domain, url)
                && found[i].different_domain,
    )
}

/// All places of a list.
pub open spec fn everywhere(len: nat) -> Set<int> {
    vstd::set_lib::set_int_range(0, len as int)
}

/// A weight after it is raised by one a number of times.
pub open spec fn raised(weight: u64, times: nat) -> u64 {
    if weight >= MAX_WEIGHT {
        weight
    } else if weight + times > MAX_WEIGHT {
        MAX_WEIGHT
    } else {
        (weight + times) as u64
    }
}

/// The state of a URL, which is that of a fresh one if nothing is known of it.
pub open spec fn known_url(states: StateMap, url: Id) -> UrlState {
    if states.contains_key(url) {
        states[url]
    } else {
        fresh_url()
    }
}

/// How discoveries change the states of the URLs of a domain: a URL that is discovered is known
/// from then on; every discovery on a page of another domain raises its weight by one.
pub open spec fn states_after_discovery(
    found: Seq<Discovery>,
    within: Set<int>,
    domain: Id,
    before: StateMap,
    after: StateMap,
) -> bool {
    &&& forall|url: Id| #[trigger]
        after.contains_key(url) <==> before.contains_key(url) || discovered(
            found,
            within,
            domain,
            url,
        )
    &&& forall|url: Id| #[trigger]
        after.contains_key(url) ==> after[url] == (UrlState {
            weight: raised(
                known_url(before, url).weight,
                from_elsewhere(found, within, domain, url).len(),
            ),
            status: known_url(before, url).status,
        })
}

/// How discoveries change the weight of a domain: it becomes the weight of the heaviest
/// discovered URL, if that is more than it was.
pub open spec fn weight_after_discovery(
    found: Seq<Discovery>,
    within: Set<int>,
    domain: Id,
    states: StateMap,
    before: u64,
    after: u64,
) -> bool {
    &&& before <= after
    &&& forall|url: Id| #[trigger]
        discovered(found, within, domain, url) ==> states[url].weight <= after
    &&& after == before || exists|url: Id| #[trigger]
        discovered(found, within, domain, url) && states[url].weight == after
}

/// A discovery that is due to be inserted.
pub struct UrlToInsert<'a> {
    pub url: &'a Url,
    pub different_domain: bool,
}

/// Discoveries with their domains.
pub open spec fn discoveries_view(urls: Seq<UrlToInsert>, domains: Seq<Domain>) -> Seq<Discovery> {
    Seq::new(
        urls.len(),
        |i: int|
            Discovery {
                domain: domains[i]@,
                url: urls[i].url@,
                different_domain: urls[i].different_domain,
            },
    )
}

/// Lists what a list of jobs discovered: the URLs, their domains, and the identifiers of those.
pub(crate) fn list_discoveries<'a>(responses: &'a Vec<JobResponse>) -> (lists: (
    Vec<UrlToInsert<'a>>,
    Vec<Domain>,
    Vec<Id>,
))
    ensures
        lists.0@.len() == lists.1@.len(),
        lists.1@.len() == lists.2@.len(),
        discoveries_view(lists.0@, lists.1@) == discoveries(responses@),
        names_of(lists.1@) == discovered_domains(discoveries(responses@)),
        forall|i: int| 0 <= i < lists.2@.len() ==> #[trigger] lists.2@[i] == text_id(lists.1@[i]@),
{
    let mut urls: Vec<UrlToInsert<'a>> = Vec::new();
    let mut domains: Vec<Domain> = Vec::new();
    let mut ids: Vec<Id> = Vec::new();
    let mut r: usize = 0;
    proof {
        assert(responses@.take(0) =~= Seq::empty());
        assert(discoveries_view(urls@, domains@) =~= Seq::empty());
    }
    while r < responses.len()
        invariant
            r <= responses@.len(),
            urls@.len() == domains@.len(),
            domains@.len() == ids@.len(),
            discoveries_view(urls@, domains@) == discoveries(responses@.take(r as int)),
            forall|i: int| 0 <= i < ids@.len() ==> #[trigger] ids@[i] == text_id(domains@[i]@),
        decreases responses@.len() - r,
    {
        let response = &responses[r];
        let ghost earlier = discoveries(responses@.take(r as int));
        let ghost own = discoveries_of(*response);
        let mut u: usize = 0;
        proof {
            assert(earlier + own.take(0) =~= earlier);
        }
        while u < response.discovered_urls.len()
            invariant
                u <= response.discovered_urls@.len(),
                own == discoveries_of(*response),
                urls@.len() == domains@.len(),
                domains@.len() == ids@.len(),
                discoveries_view(urls@, domains@) == earlier + own.take(u as int),
                forall|i: int| 0 <= i < ids@.len() ==> #[trigger] ids@[i] == text_id(domains@[i]@),
            decreases response.discovered_urls@.len() - u,
        {
            let url = &response.discovered_urls[u];
            let domain = Domain::of(url);
            let different_domain = response.domain != domain;
            let ghost before = discoveries_view(urls@, domains@);
            ids.push(domain.as_id());
            urls.push(UrlToInsert { url, different_domain });
            domains.push(domain);
            proof {
                assert(own[u as int] == discovery(response.domain@, url@));
                assert(discoveries_view(urls@, domains@) =~= before.push(own[u as int]));
                assert(earlier + own.take(u + 1) =~= (earlier + own.take(u as int)).push(
                    own[u as int],
                ));
            }
            u = u + 1;
        }
        proof {
            assert(own.take(u as int) =~= own);
            assert(responses@.take(r + 1).drop_last() =~= responses@.take(r as int));
            assert(responses@.take(r + 1).last() == *response);
        }
        r = r + 1;
    }
    proof {
        assert(responses@.take(r as int) =~= responses@);
        assert(names_of(domains@) =~= discovered_domains(discoveries(responses@))) by {
            assert(discoveries_view(urls@, domains@).len() == domains@.len());
            assert forall|i: int| 0 <= i < domains@.len() implies #[trigger] domains@[i]@
                == discoveries(responses@)[i].domain by {
                assert(discoveries_view(urls@, domains@)[i].domain == domains@[i]@);
            }
        }
    }
    (urls, domains, ids)
}

/// The URLs to insert with their identifiers, group by group.
pub(crate) fn urls_of_groups(
    urls: &Vec<UrlToInsert>,
    domains: &Vec<Domain>,
    groups: &Vec<Vec<usize>>,
) -> (items: Vec<(Url, Id)>)
    requires
        urls@.len() == domains@.len(),
        well_grouped(groups_view(groups@), names_of(domains@), domains@.len() as int),
    ensures
        id_pairs(items@) == discovered_pairs(
            discoveries_view(urls@, domains@),
            order_of(groups_view(groups@)),
        ),
{
    let ghost found = discoveries_view(urls@, domains@);
    let ghost all = groups_view(groups@);
    let mut items: Vec<(Url, Id)> = Vec::new();
    let mut g: usize = 0;
    proof {
        assert(all.take(0) =~= Seq::empty());
        assert(id_pairs(items@) =~= discovered_pairs(found, order_of(all.take(0))));
    }
    while g < groups.len()
        invariant
            g <= groups@.len(),
            urls@.len() == domains@.len(),
            found == discoveries_view(urls@, domains@),
            all == groups_view(groups@),
            well_grouped(all, names_of(domains@), domains@.len() as int),
            id_pairs(items@) == discovered_pairs(found, order_of(all.take(g as int))),
        decreases groups@.len() - g,
    {
        let group = &groups[g];
        let ghost earlier = order_of(all.take(g as int));
        let mut k: usize = 0;
        proof {
            assert(all[g as int] == group@);
            assert(earlier + group@.take(0) =~= earlier);
        }
        while k < group.len()
            invariant
                k <= group@.len(),
                g < all.len(),
                group@ == all[g as int],
                urls@.len() == domains@.len(),
                found == discoveries_view(urls@, domains@),
                well_grouped(all, names_of(domains@), domains@.len() as int),
                id_pairs(items@) == discovered_pairs(found, earlier + group@.take(k as int)),
            decreases group@.len() - k,
        {
            proof {
                assert(all[g as int][k as int] < domains@.len());
            }
            let place: usize = group[k];
            let ghost before = items@;
            let url = urls[place].url;
            items.push((url.clone(), url.as_id()));
            proof {
                assert(earlier + group@.take(k + 1) =~= (earlier + group@.take(k as int)).push(
                    place,
                ));
                assert(id_pairs(items@) =~= id_pairs(before).push(
                    (found[place as int].url, text_id(found[place as int].url)),
                ));
                assert(discovered_pairs(found, (earlier + group@.take(k as int)).push(place))
                    =~= discovered_pairs(found, earlier + group@.take(k as int)).push(
                    (found[place as int].url, text_id(found[place as int].url)),
                ));
            }
            k = k + 1;
        }
        proof {
            assert(group@.take(k as int) =~= group@);
            assert(all.take(g + 1).drop_last() =~= all.take(g as int));
            assert(all.take(g + 1).last() == group@);
        }
        g = g + 1;
    }
    proof {
        assert(all.take(g as int) =~= all);
    }
    items
}

/// Notes one discovery: the URL is known from then on, heavier by one if it was found on a page
/// of another domain, and its domain is at least as heavy.
pub fn note_discovery(
    url_states: &mut UrlStates,
    domain_state: DomainState,
    url_id: Id,
    different_domain: bool,
) -> (updated: DomainState)
    ensures
        final(url_states)@ == old(url_states)@.insert(
            url_id,
            UrlState {
                weight: raised(
                    known_url(old(url_states)@, url_id).weight,
                    if different_domain {
                        1
                    } else {
                        0
                    },
                ),
                status: known_url(old(url_states)@, url_id).status,
            },
        ),
        updated.status == domain_state.status,
        updated.weight == (if final(url_states)@[url_id].weight > domain_state.weight {
            final(url_states)@[url_id].weight
        } else {
            domain_state.weight
        }),
        final(url_states)@.dom() == old(url_states)@.dom().insert(url_id),
        forall|other: Id|
            other != url_id && old(url_states)@.contains_key(other)
                ==> #[trigger] final(url_states)@[other] == old(url_states)@[other],
        old(url_states)@.contains_key(url_id) ==> {
            &&& final(url_states)@[url_id].status == old(url_states)@[url_id].status
            &&& final(url_states)@[url_id].weight == old(url_states)@[url_id].weight + (
            if different_domain && old(url_states)@[url_id].weight < 9_007_199_254_740_992 {
                1int
            } else {
                0int
            })
        },
        !old(url_states)@.contains_key(url_id) ==> {
            &&& final(url_states)@[url_id].status == UrlStatus::Pending
            &&& final(url_states)@[url_id].weight == (if different_domain {
                1int
            } else {
                0int
            })
        },
        updated.weight >= domain_state.weight,
{
    let mut url_state: UrlState = match url_states.get(&url_id) {
        Some(state) => *state,
        None => UrlState { weight: 0, status: UrlStatus::Pending },
    };
    if different_domain && url_state.weight < MAX_WEIGHT {
        url_state.weight = url_state.weight + 1;
    }
    url_states.insert(url_id, url_state);
    let mut updated = domain_state;
    if url_state.weight > updated.weight {
        updated.weight = url_state.weight;
    }
    updated
}

/// Noting one more discovery is what the list of discoveries asks for.
pub proof fn lemma_discovery_noted(
    found: Seq<Discovery>,
    within: Set<int>,
    place: int,
    domain: Id,
    start: StateMap,
    before: StateMap,
    after: StateMap,
    start_weight: u64,
    weight_before: u64,
    weight_after: u64,
)
    requires
        within.finite(),
        0 <= place < found.len(),
        !within.contains(place),
        text_id(found[place].domain) == domain,
        states_after_discovery(found, within, domain, start, before),
        weight_after_discovery(found, within, domain, before, start_weight, weight_before),
        ({
            let url = text_id(found[place].url);
            after == before.insert(
                url,
                UrlState {
                    weight: raised(
                        known_url(before, url).weight,
                        if found[place].different_domain {
                            1
                        } else {
                            0
                        },
                    ),
                    status: known_url(before, url).status,
                },
            )
        }),
        weight_after == (if after[text_id(found[place].url)].weight > weight_before {
            after[text_id(found[place].url)].weight
        } else {
            weight_before
        }),
    ensures
        states_after_discovery(found, within.insert(place), domain, start, after),
        weight_after_discovery(
            found,
            within.insert(place),
            domain,
            after,
            start_weight,
            weight_after,
        ),
{
    let more = within.insert(place);
    let item = text_id(found[place].url);
    assert(concerns(found[place], domain, item));
    assert(discovered(found, more, domain, item));
    assert forall|url: Id| #[trigger]
        discovered(found, more, domain, url) <==> discovered(found, within, domain, url) || url
            == item by {
        if discovered(found, more, domain, url) {
            let i = choose|i: int|
                0 <= i < found.len() && more.contains(i) && concerns(#[trigger] found[i], domain, url);
            if i != place {
                assert(within.contains(i) && concerns(found[i], domain, url));
            }
        }
        if discovered(found, within, domain, url) {
            let i = choose|i: int|
                0 <= i < found.len() && within.contains(i) && concerns(
                    #[trigger] found[i],
                    domain,
                    url,
                );
            assert(more.contains(i) && concerns(found[i], domain, url));
        }
    }
    assert forall|url: Id| #[trigger]
        from_elsewhere(found, more, domain, url).len() == from_elsewhere(
            found,
            within,
            domain,
            url,
        ).len() + (if url == item && found[place].different_domain {
            1nat
        } else {
            0nat
        }) by {
        let fewer = from_elsewhere(found, within, domain, url);
        assert(fewer.subset_of(within));
        vstd::set_lib::lemma_len_subset(fewer, within);
        if url == item && found[place].different_domain {
            assert(from_elsewhere(found, more, domain, url) =~= fewer.insert(place));
        } else {
            assert(from_elsewhere(found, more, domain, url) =~= fewer);
        }
    }
    assert forall|url: Id| #[trigger] after.contains_key(url) implies after[url] == (UrlState {
        weight: raised(
            known_url(start, url).weight,
            from_elsewhere(found, more, domain, url).len(),
        ),
        status: known_url(start, url).status,
    }) by {
        let fewer = from_elsewhere(found, within, domain, url);
        if url == item {
            if !before.contains_key(url) {
                assert(!start.contains_key(url));
                assert(!discovered(found, within, domain, url));
                assert(fewer =~= Set::empty()) by {
                    assert forall|i: int| !fewer.contains(i) by {
                        if fewer.contains(i) {
                            assert(concerns(found[i], domain, url));
                        }
                    }
                }
            }
        } else {
            assert(before.contains_key(url));
        }
    }
    if weight_after != start_weight {
        if weight_after == after[item].weight {
            assert(discovered(found, more, domain, item));
        } else {
            let url = choose|url: Id| #[trigger]
                discovered(found, within, domain, url) && before[url].weight == weight_before;
            assert(discovered(found, more, domain, url));
            if url == item {
                assert(before.contains_key(item));
                assert(after[item].weight >= before[item].weight);
            }
        }
    }
    assert forall|url: Id| #[trigger] discovered(found, more, domain, url) implies after[url].weight
        <= weight_after by {
        if url != item {
            assert(discovered(found, within, domain, url));
        }
    }
}

/// Discoveries in other domains leave a domain as it is.
pub proof fn lemma_discovered_elsewhere(
    found: Seq<Discovery>,
    within: Set<int>,
    more: Set<int>,
    domain: Id,
)
    requires
        within.subset_of(more),
        forall|i: int|
            0 <= i < found.len() && more.contains(i) && !within.contains(i) ==> text_id(
                (#[trigger] found[i]).domain,
            ) != domain,
    ensures
        forall|url: Id|
            #![trigger discovered(found, more, domain, url)]
            #![trigger discovered(found, within, domain, url)]
            discovered(found, more, domain, url) == discovered(found, within, domain, url),
        forall|url: Id| #[trigger]
            from_elsewhere(found, more, domain, url) == from_elsewhere(found, within, domain, url),
{
    assert forall|url: Id|
        #![trigger discovered(found, more, domain, url)]
        #![trigger discovered(found, within, domain, url)]
        discovered(found, more, domain, url) == discovered(found, within, domain, url) by {
        if discovered(found, more, domain, url) {
            let i = choose|i: int|
                0 <= i < found.len() && more.contains(i) && concerns(#[trigger] found[i], domain, url);
            assert(within.contains(i) && concerns(found[i], domain, url));
        }
        if discovered(found, within, domain, url) {
            let i = choose|i: int|
                0 <= i < found.len() && within.contains(i) && concerns(
                    #[trigger] found[i],
                    domain,
                    url,
                );
            assert(more.contains(i) && concerns(found[i], domain, url));
        }
    }
    assert forall|url: Id| #[trigger]
        from_elsewhere(found, more, domain, url) == from_elsewhere(found, within, domain, url) by {
        assert(from_elsewhere(found, more, domain, url) =~= from_elsewhere(
            found,
            within,
            domain,
            url,
        ));
    }
}

} // verus!
