//! The URL states of every domain: a cache in front of a disk store.
//!
//! The disk is read and written by the owner of the disk store. What was read of it is handed in
//! as pages before an operation needs it; what is due to be written is collected in a batch,
//! which is taken out afterwards.

use crate::cache::{
    after_get, after_put, distinct_keys, entry_at, found, lemma_after_get, lemma_after_put, lemma_found_at,
    lemma_found_is_entry, max_capacity, states_cache_contains, states_cache_get, states_cache_len,
    states_cache_new, states_cache_pop_lru, states_cache_put, states_cap, states_entries,
};
use crate::codec::encode_id;
use crate::url_state::{UrlState, UrlStates};
use lru::LruCache;
use std::collections::BTreeMap;
use vstd::bytes::spec_u128_to_le_bytes;
use vstd::prelude::*;

verus! {

broadcast use {vstd::std_specs::btree::group_btree_axioms, vstd::laws_cmp::group_laws_cmp};

/// The states of the URLs of a domain, by URL identifier.
pub type StateMap = Map<u128, UrlState>;

/// Maps of URL states, each seen as what it holds.
pub open spec fn pages_view(pages: Map<u128, UrlStates>) -> Map<u128, StateMap> {
    pages.map_values(|states: UrlStates| states@)
}

/// Pages overlaid with entries.
pub open spec fn overlaid(
    pages: Map<u128, StateMap>,
    entries: Seq<(u128, StateMap)>,
) -> Map<u128, StateMap> {
    Map::new(
        |domain: u128| pages.contains_key(domain) || found(entries, domain) is Some,
        |domain: u128|
            match found(entries, domain) {
                Some(states) => states,
                None => pages[domain],
            },
    )
}

/// What a database of URL states holds.
#[verifier::ext_equal]
pub struct UrlStateDbView {
    /// The cached states, the most recently used ones first.
    pub entries: Seq<(u128, StateMap)>,
    /// The number of cached entries at which half of them is written out.
    pub cache_size: nat,
    /// The states that are due to be written.
    pub batch: Map<u128, StateMap>,
    /// What is known to be on disk.
    pub pages: Map<u128, StateMap>,
}

impl UrlStateDbView {
    /// The cache never overflows: a cache that is pruned at two entries or more has room for one
    /// more entry at any time.
    pub open spec fn wf(self) -> bool {
        &&& distinct_keys(self.entries)
        &&& self.entries.len() <= self.cache_size + 1
        &&& self.cache_size >= 2 ==> self.entries.len() <= self.cache_size
    }

    /// What the disk holds of a domain once the batch is written.
    pub open spec fn stored(self, domain: u128) -> Option<StateMap> {
        if self.batch.contains_key(domain) {
            Some(self.batch[domain])
        } else if self.pages.contains_key(domain) {
            Some(self.pages[domain])
        } else {
            None
        }
    }

    /// The states of the URLs of a domain; none, for a domain that is not known.
    pub open spec fn states(self, domain: u128) -> StateMap {
        match found(self.entries, domain) {
            Some(states) => states,
            None => match self.stored(domain) {
                Some(states) => states,
                None => Map::empty(),
            },
        }
    }

    /// The states of the domain are at hand: in the cache, or among what is due to be written or
    /// known to be on disk.
    pub open spec fn at_hand(self, domain: u128) -> bool {
        found(self.entries, domain) is Some || self.stored(domain) is Some
    }

    /// On the way from here to `after`, what counts as being on disk stays the same, so that all
    /// that is new is cached or due to be written, and what is at hand stays so.
    pub open spec fn leads_to(self, after: UrlStateDbView) -> bool {
        &&& after.pages == self.pages
        &&& forall|domain: u128| #[trigger] self.at_hand(domain) ==> after.at_hand(domain)
    }

    /// How many entries are due to leave the cache.
    pub open spec fn evicted(self) -> nat {
        if self.entries.len() >= self.cache_size {
            self.cache_size / 2
        } else {
            0
        }
    }

    /// A full cache moves the less recently used half of what it is meant to hold to the batch.
    pub open spec fn pruned(self) -> UrlStateDbView {
        let kept = self.entries.len() - self.evicted();
        UrlStateDbView {
            entries: self.entries.take(kept),
            batch: overlaid(self.batch, self.entries.skip(kept)),
            ..self
        }
    }

    /// The states of a domain are written to the cache.
    pub open spec fn put(self, domain: u128, states: StateMap) -> UrlStateDbView {
        UrlStateDbView {
            entries: after_put(self.entries, self.cache_size + 1, domain, states),
            ..self
        }.pruned()
    }

    /// The states of a domain are read: from the cache, or from the disk into the cache.
    pub open spec fn get(self, domain: u128) -> UrlStateDbView {
        if found(self.entries, domain) is Some {
            UrlStateDbView { entries: after_get(self.entries, domain), ..self }
        } else {
            match self.stored(domain) {
                Some(states) => self.put(domain, states),
                None => self,
            }
        }
    }

    /// A page of the disk becomes known.
    pub open spec fn stage(self, domain: u128, states: StateMap) -> UrlStateDbView {
        UrlStateDbView { pages: self.pages.insert(domain, states), ..self }
    }

    /// The batch is handed over to be written, and the pages are forgotten.
    pub open spec fn flushed(self) -> UrlStateDbView {
        UrlStateDbView { batch: Map::empty(), pages: Map::empty(), ..self }
    }
}

/// Writing part of the cache out does not change the states of any domain.
pub proof fn law_prune_keeps_states(db: UrlStateDbView, domain: u128)
    requires
        distinct_keys(db.entries),
    ensures
        db.pruned().states(domain) == db.states(domain),
        db.pruned().pages == db.pages,
        db.pruned().at_hand(domain) == db.at_hand(domain),
{
    let kept = db.entries.len() - db.evicted();
    let front = db.entries.take(kept);
    let back = db.entries.skip(kept);
    assert(distinct_keys(front));
    assert(distinct_keys(back)) by {
        assert forall|i: int, j: int|
            0 <= i < back.len() && 0 <= j < back.len() && #[trigger] back[i].0
                == #[trigger] back[j].0 implies i == j by {
            assert(db.entries[kept + i].0 == db.entries[kept + j].0);
        }
    }
    if found(db.entries, domain) is Some {
        let i = lemma_found_is_entry(db.entries, domain);
        if i < kept {
            assert(front[i] == db.entries[i]);
            lemma_found_at(front, i);
        } else {
            assert(back[i - kept] == db.entries[i]);
            lemma_found_at(back, i - kept);
            if found(front, domain) is Some {
                let j = lemma_found_is_entry(front, domain);
                assert(db.entries[j].0 == db.entries[i].0);
            }
        }
    } else {
        if found(front, domain) is Some {
            let j = lemma_found_is_entry(front, domain);
            lemma_found_at(db.entries, j);
        }
        if found(back, domain) is Some {
            let j = lemma_found_is_entry(back, domain);
            lemma_found_at(db.entries, kept + j);
        }
    }
}

/// The states of a domain are those that were used last: the cached ones, or else those that are
/// due to be written, or else those on disk; and there are none of a domain that is not known.
pub proof fn law_states_are_the_latest(db: UrlStateDbView, domain: u128)
    requires
        distinct_keys(db.entries),
    ensures
        forall|i: int|
            0 <= i < db.entries.len() && (#[trigger] db.entries[i]).0 == domain ==> db.states(
                domain,
            ) == db.entries[i].1,
        (forall|i: int| 0 <= i < db.entries.len() ==> (#[trigger] db.entries[i]).0 != domain) ==> {
            &&& db.batch.contains_key(domain) ==> db.states(domain) == db.batch[domain]
            &&& !db.batch.contains_key(domain) && db.pages.contains_key(domain) ==> db.states(
                domain,
            ) == db.pages[domain]
            &&& !db.batch.contains_key(domain) && !db.pages.contains_key(domain) ==> db.states(
                domain,
            ).dom() == Set::<u128>::empty()
        },
        db.at_hand(domain) <==> db.batch.contains_key(domain) || db.pages.contains_key(domain)
            || exists|i: int| 0 <= i < db.entries.len() && (#[trigger] db.entries[i]).0 == domain,
{
    if exists|i: int| 0 <= i < db.entries.len() && (#[trigger] db.entries[i]).0 == domain {
        let i = choose|i: int| 0 <= i < db.entries.len() && (#[trigger] db.entries[i]).0 == domain;
        lemma_found_at(db.entries, i);
        assert forall|j: int|
            0 <= j < db.entries.len() && (#[trigger] db.entries[j]).0 == domain implies j == i by {
            assert(db.entries[j].0 == db.entries[i].0);
        }
    } else if found(db.entries, domain) is Some {
        let i = lemma_found_is_entry(db.entries, domain);
    }
}

/// Half of a full cache is written out: what is put becomes the most recently used entry. Once
/// there are then as many cached entries as there may be, half that number leaves the cache, the
/// least recently used ones, and each of those joins the batch. The rest of the batch, and what
/// is on disk, stay.
pub proof fn law_half_of_a_full_cache_is_written_out(
    db: UrlStateDbView,
    domain: u128,
    states: StateMap,
)
    requires
        db.wf(),
        db.cache_size >= 2,
        forall|i: int| 0 <= i < db.entries.len() ==> (#[trigger] db.entries[i]).0 != domain,
    ensures
        ({
            let after = db.put(domain, states);
            let gone = if db.entries.len() + 1 >= db.cache_size {
                db.cache_size as int / 2
            } else {
                0
            };
            &&& after.entries.len() == db.entries.len() + 1 - gone
            &&& after.entries[0] == (domain, states)
            &&& forall|i: int|
                1 <= i < after.entries.len() ==> #[trigger] after.entries[i] == db.entries[i - 1]
            &&& forall|i: int|
                after.entries.len() <= i + 1 && 0 <= i < db.entries.len()
                    ==> after.batch.contains_key((#[trigger] db.entries[i]).0)
                    && after.batch[db.entries[i].0] == db.entries[i].1
            &&& forall|other: u128|
                (forall|i: int|
                    after.entries.len() <= i + 1 && 0 <= i < db.entries.len() ==> (
                    #[trigger] db.entries[i]).0 != other) ==> #[trigger] after.batch.contains_key(
                    other,
                ) == db.batch.contains_key(other) && (db.batch.contains_key(other)
                    ==> after.batch[other] == db.batch[other])
            &&& after.pages == db.pages
            &&& after.cache_size == db.cache_size
        }),
{
    if found(db.entries, domain) is Some {
        let i = lemma_found_is_entry(db.entries, domain);
    }
    let entries = after_put(db.entries, db.cache_size + 1, domain, states);
    assert(entries =~= seq![(domain, states)] + db.entries);
    let written = UrlStateDbView { entries, ..db };
    let after = db.put(domain, states);
    let kept = entries.len() - written.evicted();
    let back = entries.skip(kept);
    lemma_after_put(db.entries, db.cache_size + 1, domain, states);
    assert(distinct_keys(back)) by {
        assert forall|i: int, j: int|
            0 <= i < back.len() && 0 <= j < back.len() && #[trigger] back[i].0
                == #[trigger] back[j].0 implies i == j by {
            assert(entries[kept + i].0 == entries[kept + j].0);
        }
    }
    assert forall|i: int|
        after.entries.len() <= i + 1 && 0 <= i < db.entries.len() implies after.batch.contains_key(
        (#[trigger] db.entries[i]).0,
    ) && after.batch[db.entries[i].0] == db.entries[i].1 by {
        assert(back[i + 1 - kept] == db.entries[i]);
        lemma_found_at(back, i + 1 - kept);
    }
    assert forall|other: u128|
        (forall|i: int|
            after.entries.len() <= i + 1 && 0 <= i < db.entries.len() ==> (
            #[trigger] db.entries[i]).0 != other) implies #[trigger] after.batch.contains_key(other)
        == db.batch.contains_key(other) && (db.batch.contains_key(other) ==> after.batch[other]
        == db.batch[other]) by {
        if found(back, other) is Some {
            let j = lemma_found_is_entry(back, other);
            assert(back[j] == db.entries[kept + j - 1]);
        }
    }
}

/// What is used becomes the most recently used entry: a cached domain moves to the front when its
/// states are read or put, and the other entries keep their order.
pub proof fn law_used_entries_come_first(
    db: UrlStateDbView,
    domain: u128,
    states: StateMap,
    place: int,
)
    requires
        db.wf(),
        db.cache_size >= 2,
        0 <= place < db.entries.len(),
        db.entries[place].0 == domain,
    ensures
        ({
            let read = db.get(domain);
            &&& read.entries.len() == db.entries.len()
            &&& read.entries[0] == db.entries[place]
            &&& forall|i: int| 1 <= i <= place ==> #[trigger] read.entries[i] == db.entries[i - 1]
            &&& forall|i: int|
                place < i < read.entries.len() ==> #[trigger] read.entries[i] == db.entries[i]
            &&& read.batch == db.batch
            &&& read.pages == db.pages
        }),
        ({
            let after = db.put(domain, states);
            let gone = if db.entries.len() >= db.cache_size {
                db.cache_size as int / 2
            } else {
                0
            };
            &&& after.entries.len() == db.entries.len() - gone
            &&& after.entries[0] == (domain, states)
            &&& forall|i: int|
                1 <= i <= place && i < after.entries.len() ==> #[trigger] after.entries[i]
                    == db.entries[i - 1]
            &&& forall|i: int|
                place < i < after.entries.len() ==> #[trigger] after.entries[i] == db.entries[i]
        }),
{
    lemma_found_at(db.entries, place);
    let at = choose|i: int| entry_at(db.entries, domain, i);
    assert(entry_at(db.entries, domain, place));
    assert(db.entries[at].0 == db.entries[place].0);
    assert(at == place);
}

/// Pruning keeps the cache within its bounds.
pub proof fn lemma_pruned_wf(db: UrlStateDbView)
    requires
        distinct_keys(db.entries),
        db.entries.len() <= db.cache_size + 1,
    ensures
        db.pruned().wf(),
{
    let kept = db.entries.len() - db.evicted();
    assert(distinct_keys(db.entries.take(kept)));
}

/// What is put is what is there afterwards, and the states of the other domains stay as they
/// are. This holds of a database that is pruned at two cached domains or more: a smaller cache
/// drops entries without writing them out.
pub proof fn law_put_is_read_back(db: UrlStateDbView, domain: u128, states: StateMap)
    requires
        db.wf(),
        db.cache_size >= 2,
    ensures
        db.put(domain, states).wf(),
        db.put(domain, states).cache_size == db.cache_size,
        db.leads_to(db.put(domain, states)),
        forall|other: u128| #[trigger]
            db.put(domain, states).at_hand(other) == (db.at_hand(other) || other == domain),
        forall|other: u128| #[trigger]
            db.put(domain, states).states(other) == (if other == domain {
                states
            } else {
                db.states(other)
            }),
{
    let written = UrlStateDbView {
        entries: after_put(db.entries, db.cache_size + 1, domain, states),
        ..db
    };
    lemma_after_put(db.entries, db.cache_size + 1, domain, states);
    lemma_pruned_wf(written);
    assert forall|other: u128| #[trigger]
        db.put(domain, states).at_hand(other) == (db.at_hand(other) || other == domain) by {
        law_prune_keeps_states(written, other);
        if other != domain {
            assert(found(written.entries, other) == found(db.entries, other));
        }
    }
    assert forall|other: u128| #[trigger]
        db.put(domain, states).states(other) == (if other == domain {
            states
        } else {
            db.states(other)
        }) by {
        law_prune_keeps_states(written, other);
    }
}

/// Reading changes the states of no domain.
pub proof fn law_get_keeps_states(db: UrlStateDbView, domain: u128)
    requires
        db.wf(),
        db.cache_size >= 2,
    ensures
        db.get(domain).wf(),
        db.get(domain).cache_size == db.cache_size,
        db.leads_to(db.get(domain)),
        forall|other: u128| #[trigger] db.get(domain).at_hand(other) == db.at_hand(other),
        forall|other: u128| #[trigger] db.get(domain).states(other) == db.states(other),
{
    if found(db.entries, domain) is Some {
        lemma_after_get(db.entries, domain);
    } else if let Some(states) = db.stored(domain) {
        law_put_is_read_back(db, domain, states);
    }
}

/// The states of the domain are read and written back.
pub open spec fn rewritten(before: UrlStateDbView, after: UrlStateDbView, domain: u128) -> bool {
    after == before.get(domain).put(domain, after.states(domain))
}

/// The states of the listed domains are read and written back, one after the other.
pub open spec fn rewritten_in_turn(
    before: UrlStateDbView,
    after: UrlStateDbView,
    domains: Seq<u128>,
) -> bool
    decreases domains.len(),
{
    if domains.len() == 0 {
        after == before
    } else {
        exists|middle: UrlStateDbView|
            rewritten_in_turn(before, middle, domains.drop_last()) && #[trigger] rewritten(
                middle,
                after,
                domains.last(),
            )
    }
}

/// One more domain is read and written back.
pub proof fn lemma_rewritten_next(
    before: UrlStateDbView,
    middle: UrlStateDbView,
    after: UrlStateDbView,
    domains: Seq<u128>,
    domain: u128,
)
    requires
        rewritten_in_turn(before, middle, domains),
        rewritten(middle, after, domain),
    ensures
        rewritten_in_turn(before, after, domains.push(domain)),
{
    assert(domains.push(domain).drop_last() =~= domains);
    assert(rewritten(middle, after, domains.push(domain).last()));
}

/// What the disk holds once a batch is written to it.
pub open spec fn written(
    disk: Map<u128, StateMap>,
    batch: Map<u128, StateMap>,
) -> Map<u128, StateMap> {
    disk.union_prefer_right(batch)
}

/// The pages are what the disk holds.
pub open spec fn pages_are_of(pages: Map<u128, StateMap>, disk: Map<u128, StateMap>) -> bool {
    forall|domain: u128| #[trigger]
        pages.contains_key(domain) ==> disk.contains_key(domain) && disk[domain] == pages[domain]
}

/// What the disk holds of a domain, if anything, is handed in.
pub open spec fn reread(
    db: UrlStateDbView,
    disk: Map<u128, StateMap>,
    domain: u128,
) -> UrlStateDbView {
    if disk.contains_key(domain) {
        db.stage(domain, disk[domain])
    } else {
        db
    }
}

/// What is known of a domain in all: what is at hand of it, or else what the disk holds.
pub open spec fn known_in_all(
    db: UrlStateDbView,
    disk: Map<u128, StateMap>,
    domain: u128,
) -> StateMap {
    if db.at_hand(domain) {
        db.states(domain)
    } else if disk.contains_key(domain) {
        disk[domain]
    } else {
        Map::empty()
    }
}

/// Writing out loses nothing: once the batch is written and the pages are forgotten, as much is
/// known of every domain as before. Handing in what the disk then holds of the domain brings it
/// back.
pub proof fn law_writing_out_loses_nothing(
    db: UrlStateDbView,
    disk: Map<u128, StateMap>,
    domain: u128,
)
    requires
        pages_are_of(db.pages, disk),
    ensures
        known_in_all(db.flushed(), written(disk, db.batch), domain) == known_in_all(
            db,
            disk,
            domain,
        ),
        reread(db.flushed(), written(disk, db.batch), domain).states(domain) == known_in_all(
            db,
            disk,
            domain,
        ),
{
}

/// What is neither at hand nor in the batch is left alone on the disk.
pub proof fn law_unread_pages_stay_on_disk(
    db: UrlStateDbView,
    disk: Map<u128, StateMap>,
    domain: u128,
)
    requires
        disk.contains_key(domain),
        !db.at_hand(domain),
    ensures
        written(disk, db.batch).contains_key(domain),
        written(disk, db.batch)[domain] == disk[domain],
        reread(db.flushed(), written(disk, db.batch), domain).states(domain) == disk[domain],
{
}

/// Once the batch is written, what the disk then holds of a domain, handed in again, brings back
/// its states.
pub proof fn law_flushed_states_come_back(db: UrlStateDbView, domain: u128)
    ensures
        found(db.entries, domain) is Some ==> db.flushed().states(domain) == db.states(domain),
        db.stored(domain) matches Some(states) ==> db.flushed().stage(domain, states).states(domain)
            == db.states(domain),
        found(db.entries, domain) is None && db.stored(domain) is None ==> db.flushed().states(
            domain,
        ) == db.states(domain),
{
}

/// The URL states of every domain.
pub struct UrlStateDb {
    cache: LruCache<u128, UrlStates>,
    cache_size: usize,
    batch: BTreeMap<u128, UrlStates>,
    pages: BTreeMap<u128, UrlStates>,
}

impl View for UrlStateDb {
    type V = UrlStateDbView;

    closed spec fn view(&self) -> UrlStateDbView {
        UrlStateDbView {
            entries: states_entries(self.cache),
            cache_size: self.cache_size as nat,
            batch: pages_view(self.batch@),
            pages: pages_view(self.pages@),
        }
    }
}

impl UrlStateDb {
    /// The cache keeps within its bounds.
    pub closed spec fn wf(&self) -> bool {
        &&& self@.wf()
        &&& states_cap(self.cache) == self.cache_size + 1
    }

    /// A well-formed database is what its view says.
    pub proof fn lemma_wf(&self)
        requires
            self.wf(),
        ensures
            self@.wf(),
    {
    }

    /// A database of which nothing is cached and nothing of the disk is known.
    pub fn open(cache_size: usize) -> (db: UrlStateDb)
        requires
            cache_size < max_capacity(),
        ensures
            db.wf(),
            db@ == (UrlStateDbView {
                entries: Seq::empty(),
                cache_size: cache_size as nat,
                batch: Map::empty(),
                pages: Map::empty(),
            }),
    {
        let db = UrlStateDb {
            cache: states_cache_new(cache_size + 1),
            cache_size,
            batch: BTreeMap::new(),
            pages: BTreeMap::new(),
        };
        assert(db@.batch =~= Map::empty());
        assert(db@.pages =~= Map::empty());
        db
    }

    /// The key under which the disk holds the states of a domain.
    pub fn key(domain_id: u128) -> (key: Vec<u8>)
        ensures
            key@ == spec_u128_to_le_bytes(domain_id),
    {
        encode_id(domain_id)
    }

    /// Whether the disk has to be asked for the states of a domain.
    pub fn needs_page(&self, domain_id: u128) -> (needed: bool)
        ensures
            needed == !self@.at_hand(domain_id),
    {
        !states_cache_contains(&self.cache, domain_id) && !self.batch.contains_key(&domain_id)
            && !self.pages.contains_key(&domain_id)
    }

    /// Hands in what the disk holds of a domain.
    pub fn stage(&mut self, domain_id: u128, url_states: UrlStates)
        requires
            old(self).wf(),
        ensures
            final(self).wf(),
            final(self)@ == old(self)@.stage(domain_id, url_states@),
            final(self)@.pages == old(self)@.pages.insert(domain_id, url_states@),
            final(self)@.entries == old(self)@.entries,
            final(self)@.batch == old(self)@.batch,
            final(self)@.cache_size == old(self)@.cache_size,
    {
        self.pages.insert(domain_id, url_states);
        assert(self@.pages =~= old(self)@.pages.insert(domain_id, url_states@));
    }

    /// Takes the batch out, in order to write it to the disk, and forgets the pages.
    pub fn flush(&mut self) -> (batch: BTreeMap<u128, UrlStates>)
        requires
            old(self).wf(),
        ensures
            final(self).wf(),
            final(self)@ == old(self)@.flushed(),
            pages_view(batch@) == old(self)@.batch,
            forall|domain: u128| #[trigger]
                batch@.contains_key(domain) <==> old(self)@.batch.contains_key(domain),
            forall|domain: u128| #[trigger]
                batch@.contains_key(domain) ==> batch@[domain]@ == old(self)@.batch[domain],
            final(self)@.entries == old(self)@.entries,
            final(self)@.cache_size == old(self)@.cache_size,
            final(self)@.batch == Map::<u128, StateMap>::empty(),
            final(self)@.pages == Map::<u128, StateMap>::empty(),
    {
        let mut batch: BTreeMap<u128, UrlStates> = BTreeMap::new();
        core::mem::swap(&mut batch, &mut self.batch);
        self.pages.clear();
        assert(self@.batch =~= Map::empty());
        assert(self@.pages =~= Map::empty());
        batch
    }

    /// The states of the URLs of a domain; none, for a domain that is not known.
    pub fn get(&mut self, domain_id: u128) -> (url_states: UrlStates)
        requires
            old(self).wf(),
        ensures
            final(self).wf(),
            final(self)@ == old(self)@.get(domain_id),
            url_states@ == old(self)@.states(domain_id),
    {
        proof {
            lemma_after_get(self@.entries, domain_id);
        }
        let cached = states_cache_get(&mut self.cache, domain_id);
        if let Some(url_states) = cached {
            return url_states;
        }
        let stored: Option<UrlStates> = match self.batch.get(&domain_id) {
            Some(url_states) => Some(url_states.clone()),
            None => match self.pages.get(&domain_id) {
                Some(url_states) => Some(url_states.clone()),
                None => None,
            },
        };
        match stored {
            Some(url_states) => {
                self.put(domain_id, url_states.clone());
                url_states
            },
            None => BTreeMap::new(),
        }
    }

    /// If the cache is full, moves half of it to the batch.
    fn maybe_prune_cache(&mut self)
        requires
            distinct_keys(old(self)@.entries),
            old(self)@.entries.len() <= old(self)@.cache_size + 1,
            states_cap(old(self).cache) == old(self).cache_size + 1,
        ensures
            final(self).wf(),
            final(self)@ == old(self)@.pruned(),
    {
        let ghost entries = self@.entries;
        let ghost batch = self@.batch;
        if states_cache_len(&self.cache) >= self.cache_size {
            let evicted: usize = self.cache_size / 2;
            let mut i: usize = 0;
            proof {
                assert(entries.take(entries.len() - i) =~= entries);
                assert(overlaid(batch, entries.skip(entries.len() - i)) =~= batch) by {
                    assert(entries.skip(entries.len() as int) =~= Seq::empty());
                }
            }
            while i < evicted
                invariant
                    i <= evicted,
                    evicted <= entries.len(),
                    evicted == self.cache_size / 2,
                    distinct_keys(entries),
                    states_cap(self.cache) == self.cache_size + 1,
                    self.cache_size == old(self).cache_size,
                    self.pages == old(self).pages,
                    self@.entries == entries.take(entries.len() - i),
                    self@.batch == overlaid(batch, entries.skip(entries.len() - i)),
                decreases evicted - i,
            {
                match states_cache_pop_lru(&mut self.cache) {
                    Some(popped) => {
                        let ghost earlier = self@.batch;
                        self.batch.insert(popped.0, popped.1);
                        proof {
                            lemma_one_more_evicted(batch, entries, i as int);
                            assert(self@.batch =~= earlier.insert(popped.0, popped.1@));
                        }
                    },
                    None => {},
                }
                i = i + 1;
            }
            proof {
                assert(self@ =~= old(self)@.pruned());
            }
        } else {
            proof {
                assert(entries.take(entries.len() as int) =~= entries);
                assert(entries.skip(entries.len() as int) =~= Seq::empty());
                assert(overlaid(batch, entries.skip(entries.len() as int)) =~= batch);
                assert(self@ =~= old(self)@.pruned());
            }
        }
        proof {
            lemma_pruned_wf(old(self)@);
        }
    }

    /// Sets the states of the URLs of a domain.
    pub fn put(&mut self, domain_id: u128, url_states: UrlStates)
        requires
            old(self).wf(),
        ensures
            final(self).wf(),
            final(self)@ == old(self)@.put(domain_id, url_states@),
    {
        proof {
            lemma_after_put(self@.entries, self@.cache_size + 1, domain_id, url_states@);
        }
        states_cache_put(&mut self.cache, domain_id, url_states);
        self.maybe_prune_cache();
    }
}

/// The entry that leaves the cache next joins those that have left.
proof fn lemma_one_more_evicted(
    batch: Map<u128, StateMap>,
    entries: Seq<(u128, StateMap)>,
    i: int,
)
    requires
        0 <= i < entries.len(),
        distinct_keys(entries),
    ensures
        entries.take(entries.len() - i).last() == entries[entries.len() - i - 1],
        entries.take(entries.len() - i).drop_last() == entries.take(entries.len() - (i + 1)),
        overlaid(batch, entries.skip(entries.len() - (i + 1))) == overlaid(
            batch,
            entries.skip(entries.len() - i),
        ).insert(entries[entries.len() - i - 1].0, entries[entries.len() - i - 1].1),
{
    let at = entries.len() - i - 1;
    let shorter = entries.skip(at + 1);
    let longer = entries.skip(at);
    assert(entries.take(at + 1).drop_last() =~= entries.take(at));
    assert(distinct_keys(longer)) by {
        assert forall|a: int, b: int|
            0 <= a < longer.len() && 0 <= b < longer.len() && #[trigger] longer[a].0
                == #[trigger] longer[b].0 implies a == b by {
            assert(entries[at + a].0 == entries[at + b].0);
        }
    }
    assert(longer[0] == entries[at]);
    lemma_found_at(longer, 0);
    assert forall|domain: u128| domain != entries[at].0 implies #[trigger] found(longer, domain)
        == found(shorter, domain) by {
        assert forall|a: int, b: int|
            0 <= a < shorter.len() && 0 <= b < shorter.len() && #[trigger] shorter[a].0
                == #[trigger] shorter[b].0 implies a == b by {
            assert(longer[a + 1].0 == longer[b + 1].0);
        }
        if found(longer, domain) is Some {
            let a = lemma_found_is_entry(longer, domain);
            assert(shorter[a - 1] == longer[a]);
            lemma_found_at(shorter, a - 1);
        } else if found(shorter, domain) is Some {
            let a = lemma_found_is_entry(shorter, domain);
            assert(longer[a + 1] == shorter[a]);
            lemma_found_at(longer, a + 1);
        }
    }
    assert(overlaid(batch, longer) =~= overlaid(batch, shorter).insert(
        entries[at].0,
        entries[at].1,
    ));
}

} // verus!
