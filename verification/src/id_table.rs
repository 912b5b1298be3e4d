//! Tables that give texts identifiers and find the texts again.

use crate::cache::{
    after_get, after_put, distinct_keys, entry_at, found, id_cache_get, id_cache_new, id_cache_put,
    id_cap, id_entries, lemma_after_get, lemma_after_put, lemma_found_at, lemma_found_is_entry,
    text_cache_get, text_cache_new, text_cache_put, text_cap, text_entries,
};
use crate::codec::text_bytes;
use crate::crawl_error::Error;
use crate::digest::{text_id, Id};
use crate::memmap_db::{law_get_reads_back, DbView, MemmapDb};
use crate::web_url::AsId;
use lru::LruCache;
use vstd::prelude::*;

verus! {

/// How many texts, and how many identifiers, a table keeps at hand.
pub const CACHE_CAPACITY: usize = 50_000;

/// A text and the identifier it is given.
pub type IdPair = (Seq<char>, Id);

/// The texts and identifiers of a list of items.
pub open spec fn id_pairs<T: AsId>(items: Seq<(T, Id)>) -> Seq<IdPair> {
    items.map_values(|item: (T, Id)| (item.0@, item.1))
}

/// The store after the text is put under its identifier, where nothing stands there yet. There
/// is none if the text no longer fits.
pub open spec fn register(db: DbView, pair: IdPair) -> Option<DbView> {
    if db.entries.contains_key(pair.1) {
        Some(db)
    } else if db.fits(pair.0) {
        Some(db.put(pair.1, pair.0))
    } else {
        None
    }
}

/// The store after each text is registered in turn.
pub open spec fn register_all(db: DbView, pairs: Seq<IdPair>) -> Option<DbView>
    decreases pairs.len(),
{
    if pairs.len() == 0 {
        Some(db)
    } else {
        match register_all(db, pairs.drop_last()) {
            Some(before) => register(before, pairs.last()),
            None => None,
        }
    }
}

/// The store after the identifier of a text is asked for: a text whose identifier is not at hand
/// is registered under its own.
pub open spec fn enroll(db: DbView, cached: Seq<IdPair>, text: Seq<char>) -> Option<DbView> {
    if found(cached, text) is Some {
        Some(db)
    } else {
        register(db, (text, text_id(text)))
    }
}

/// The store after the identifiers of a list of texts are asked for in turn.
pub open spec fn enroll_all(
    db: DbView,
    cached: Seq<IdPair>,
    texts: Seq<Seq<char>>,
) -> Option<DbView>
    decreases texts.len(),
{
    if texts.len() == 0 {
        Some(db)
    } else {
        match enroll_all(db, cached, texts.drop_last()) {
            Some(before) => enroll(before, cached, texts.last()),
            None => None,
        }
    }
}

/// Once the identifiers of a list of texts are asked for, each of them is registered, under its
/// own identifier if that is what is at hand for it or if nothing is. What was registered stays,
/// and what is added is one of the texts under its own identifier.
pub proof fn law_enrolled_texts_are_registered(
    db: DbView,
    cached: Seq<IdPair>,
    texts: Seq<Seq<char>>,
)
    requires
        forall|text: Seq<char>|
            #![trigger found(cached, text)]
            found(cached, text) matches Some(id) ==> id == text_id(text) && db.entries.contains_key(
                id,
            ),
        enroll_all(db, cached, texts) is Some,
    ensures
        ({
            let after = enroll_all(db, cached, texts).unwrap();
            &&& forall|i: int|
                0 <= i < texts.len() ==> after.entries.contains_key(text_id(#[trigger] texts[i]))
            &&& forall|id: Id| #[trigger]
                db.entries.contains_key(id) ==> after.entries.contains_key(id) && after.entries[id]
                    == db.entries[id]
            &&& forall|id: Id| #[trigger]
                after.entries.contains_key(id) && !db.entries.contains_key(id) ==> texts.contains(
                    after.entries[id].text,
                ) && text_id(after.entries[id].text) == id
            &&& after.saved == db.saved
            &&& after.unsaved == db.unsaved
        }),
    decreases texts.len(),
{
    if texts.len() > 0 {
        let front = texts.drop_last();
        law_enrolled_texts_are_registered(db, cached, front);
        let before = enroll_all(db, cached, front).unwrap();
        let after = enroll_all(db, cached, texts).unwrap();
        if found(cached, texts.last()) is None {
            lemma_register(before, (texts.last(), text_id(texts.last())));
        }
        assert forall|i: int| 0 <= i < texts.len() implies after.entries.contains_key(
            text_id(#[trigger] texts[i]),
        ) by {
            if i < front.len() {
                assert(front[i] == texts[i]);
            }
        }
        assert forall|id: Id| #[trigger]
            after.entries.contains_key(id) && !db.entries.contains_key(id) implies texts.contains(
            after.entries[id].text,
        ) && text_id(after.entries[id].text) == id by {
            if before.entries.contains_key(id) {
                let i = front.index_of(before.entries[id].text);
                assert(texts[i] == before.entries[id].text);
            } else {
                assert(texts[texts.len() - 1] == after.entries[id].text);
            }
        }
    }
}

/// A longer list of texts fits only if a shorter one does.
pub proof fn lemma_enroll_all_prefix(
    db: DbView,
    cached: Seq<IdPair>,
    texts: Seq<Seq<char>>,
    k: int,
)
    requires
        0 <= k <= texts.len(),
        enroll_all(db, cached, texts.take(k)) is None,
    ensures
        enroll_all(db, cached, texts) is None,
    decreases texts.len() - k,
{
    if k < texts.len() {
        assert(texts.take(k + 1).drop_last() =~= texts.take(k));
        lemma_enroll_all_prefix(db, cached, texts, k + 1);
    } else {
        assert(texts.take(k) =~= texts);
    }
}

/// The entries of the identifier cache after each pair is written in turn.
pub open spec fn cache_all(entries: Seq<IdPair>, cap: nat, pairs: Seq<IdPair>) -> Seq<IdPair>
    decreases pairs.len(),
{
    if pairs.len() == 0 {
        entries
    } else {
        after_put(
            cache_all(entries, cap, pairs.drop_last()),
            cap,
            pairs.last().0,
            pairs.last().1,
        )
    }
}

/// Every text stands with its own identifier.
pub open spec fn own_ids(pairs: Seq<IdPair>) -> bool {
    forall|i: int| 0 <= i < pairs.len() ==> (#[trigger] pairs[i]).1 == text_id(pairs[i].0)
}

/// Every text of the store stands under its own identifier.
pub open spec fn own_texts(db: DbView) -> bool {
    forall|id: Id| #[trigger] db.entries.contains_key(id) ==> text_id(db.entries[id].text) == id
}

/// A text whose identifier is registered is found under it, provided that no other text has the
/// same identifier.
pub proof fn law_text_is_found_by_its_id(db: DbView, text: Seq<char>)
    requires
        own_texts(db),
        db.entries.contains_key(text_id(text)),
        forall|other: Seq<char>| #[trigger] text_id(other) == text_id(text) ==> other == text,
    ensures
        db.entries[text_id(text)].text == text,
{
}

/// Registering texts under their own identifiers keeps every text under its own.
pub proof fn law_registering_keeps_own_texts(db: DbView, pairs: Seq<IdPair>)
    requires
        own_texts(db),
        own_ids(pairs),
        register_all(db, pairs) is Some,
    ensures
        own_texts(register_all(db, pairs).unwrap()),
{
    law_register_all(db, pairs);
    let after = register_all(db, pairs).unwrap();
    assert forall|id: Id| #[trigger] after.entries.contains_key(id) implies text_id(
        after.entries[id].text,
    ) == id by {
        if !db.entries.contains_key(id) {
            let i = pairs.index_of((after.entries[id].text, id));
            assert(pairs[i].1 == text_id(pairs[i].0));
        }
    }
}

/// Registering a text keeps what is registered and adds nothing but that text.
pub proof fn lemma_register(db: DbView, pair: IdPair)
    requires
        register(db, pair) is Some,
    ensures
        register(db, pair).unwrap().entries.contains_key(pair.1),
        forall|id: Id|
            db.entries.contains_key(id) ==> #[trigger] register(
                db,
                pair,
            ).unwrap().entries.contains_key(id) && register(db, pair).unwrap().entries[id]
                == db.entries[id],
        forall|id: Id| #[trigger]
            register(db, pair).unwrap().entries.contains_key(id) && !db.entries.contains_key(id)
                ==> id == pair.1 && register(db, pair).unwrap().entries[id].text == pair.0,
        register(db, pair).unwrap().saved == db.saved,
        register(db, pair).unwrap().unsaved == db.unsaved,
{
}

/// After a list of texts is registered, each of their identifiers is taken; what was registered
/// before is as it was; and what was added is one of the listed texts under its identifier.
pub proof fn law_register_all(db: DbView, pairs: Seq<IdPair>)
    requires
        register_all(db, pairs) is Some,
    ensures
        forall|i: int|
            0 <= i < pairs.len() ==> register_all(db, pairs).unwrap().entries.contains_key(
                (#[trigger] pairs[i]).1,
            ),
        forall|id: Id| #[trigger]
            db.entries.contains_key(id) ==> register_all(db, pairs).unwrap().entries.contains_key(
                id,
            ) && register_all(db, pairs).unwrap().entries[id] == db.entries[id],
        forall|id: Id| #[trigger]
            register_all(db, pairs).unwrap().entries.contains_key(id) && !db.entries.contains_key(
                id,
            ) ==> pairs.contains((register_all(db, pairs).unwrap().entries[id].text, id)),
        register_all(db, pairs).unwrap().saved == db.saved,
        register_all(db, pairs).unwrap().unsaved == db.unsaved,
    decreases pairs.len(),
{
    if pairs.len() > 0 {
        let front = pairs.drop_last();
        law_register_all(db, front);
        let before = register_all(db, front).unwrap();
        lemma_register(before, pairs.last());
        let after = register_all(db, pairs).unwrap();
        assert forall|i: int| 0 <= i < pairs.len() implies after.entries.contains_key(
            (#[trigger] pairs[i]).1,
        ) by {
            if i < front.len() {
                assert(front[i] == pairs[i]);
            }
        }
        assert forall|id: Id| #[trigger]
            after.entries.contains_key(id) && !db.entries.contains_key(id) implies pairs.contains(
            (after.entries[id].text, id),
        ) by {
            if before.entries.contains_key(id) {
                let i = front.index_of((before.entries[id].text, id));
                assert(pairs[i] == (before.entries[id].text, id));
            } else {
                assert(pairs[pairs.len() - 1] == (after.entries[id].text, id));
            }
        }
    }
}

/// A longer list fits only if a shorter one does.
pub proof fn lemma_register_all_prefix(db: DbView, pairs: Seq<IdPair>, k: int)
    requires
        0 <= k <= pairs.len(),
        register_all(db, pairs.take(k)) is None,
    ensures
        register_all(db, pairs) is None,
    decreases pairs.len() - k,
{
    if k < pairs.len() {
        assert(pairs.take(k + 1).drop_last() =~= pairs.take(k));
        lemma_register_all_prefix(db, pairs, k + 1);
    } else {
        assert(pairs.take(k) =~= pairs);
    }
}

/// Writing pairs into the identifier cache: a listed text that stands with its own identifier is
/// cached with it or not at all, and any other text is cached as before or not at all.
pub proof fn lemma_cache_all(entries: Seq<IdPair>, cap: nat, pairs: Seq<IdPair>)
    requires
        distinct_keys(entries),
        0 < cap,
        entries.len() <= cap,
    ensures
        distinct_keys(cache_all(entries, cap, pairs)),
        cache_all(entries, cap, pairs).len() <= cap,
        forall|text: Seq<char>|
            {
                let now = #[trigger] found(cache_all(entries, cap, pairs), text);
                ||| now is None
                ||| now == found(entries, text) && !listed(pairs, text)
                ||| pairs.contains((text, now.unwrap()))
            },
    decreases pairs.len(),
{
    if pairs.len() > 0 {
        let front = pairs.drop_last();
        let last = pairs.last();
        lemma_cache_all(entries, cap, front);
        let before = cache_all(entries, cap, front);
        lemma_after_put(before, cap, last.0, last.1);
        let after = cache_all(entries, cap, pairs);
        assert(pairs[pairs.len() - 1] == last);
        assert forall|text: Seq<char>|
            {
                let now = #[trigger] found(after, text);
                ||| now is None
                ||| now == found(entries, text) && !listed(pairs, text)
                ||| pairs.contains((text, now.unwrap()))
            } by {
            let now = found(after, text);
            if text == last.0 {
                assert(pairs.contains(last));
            } else if now is Some {
                assert(now == found(before, text));
                if front.contains((text, now.unwrap())) {
                    let i = front.index_of((text, now.unwrap()));
                    assert(pairs[i] == (text, now.unwrap()));
                } else if listed(pairs, text) {
                    let i = choose|i: int| 0 <= i < pairs.len() && #[trigger] pairs[i].0 == text;
                    assert(front[i].0 == text);
                    assert(listed(front, text));
                }
            }
        }
    }
}

/// Identifiers that were registered last are at hand: of a list of no more than fifty thousand
/// texts, each one is, with its own identifier if they stand with their own.
pub proof fn law_registered_ids_are_at_hand(entries: Seq<IdPair>, pairs: Seq<IdPair>, i: int) -> (k:
    int)
    requires
        distinct_keys(entries),
        entries.len() <= CACHE_CAPACITY,
        pairs.len() <= 50_000,
        0 <= i < pairs.len(),
    ensures
        0 <= k < cache_all(entries, CACHE_CAPACITY as nat, pairs).len(),
        k < pairs.len() - i,
        cache_all(entries, CACHE_CAPACITY as nat, pairs)[k].0 == pairs[i].0,
        own_ids(pairs) ==> cache_all(entries, CACHE_CAPACITY as nat, pairs)[k].1 == text_id(
            pairs[i].0,
        ),
    decreases pairs.len(),
{
    let cap = CACHE_CAPACITY as nat;
    let front = pairs.drop_last();
    let last = pairs.last();
    lemma_cache_all(entries, cap, front);
    let before = cache_all(entries, cap, front);
    let after = cache_all(entries, cap, pairs);
    assert(after[0] == last);
    assert(pairs[pairs.len() - 1] == last);
    if own_ids(pairs) {
        assert forall|j: int| 0 <= j < front.len() implies (#[trigger] front[j]).1 == text_id(
            front[j].0,
        ) by {
            assert(front[j] == pairs[j]);
        }
    }
    if pairs[i].0 == last.0 {
        0
    } else {
        let j = law_registered_ids_are_at_hand(entries, front, i);
        if found(before, last.0) is Some {
            let gone = choose|gone: int| entry_at(before, last.0, gone);
            assert(entry_at(before, last.0, gone));
            if j < gone {
                assert(after[j + 1] == before[j]);
                j + 1
            } else {
                assert(after[j] == before[j]);
                j
            }
        } else {
            assert(after[j + 1] == before[j]);
            j + 1
        }
    }
}

/// The text is one of those in the list.
pub open spec fn listed(pairs: Seq<IdPair>, text: Seq<char>) -> bool {
    exists|i: int| 0 <= i < pairs.len() && #[trigger] pairs[i].0 == text
}

/// A table of texts and their identifiers.
pub struct IdTable {
    db: MemmapDb,
    value_cache: LruCache<u128, String>,
    id_cache: LruCache<String, u128>,
}

impl IdTable {
    /// The store behind the table.
    pub closed spec fn store(&self) -> DbView {
        self.db@
    }

    /// The identifiers at hand, the most recently used one first.
    pub closed spec fn cached_ids(&self) -> Seq<IdPair> {
        id_entries(self.id_cache)
    }

    /// The identifiers at hand are registered, and the texts at hand are those that the store
    /// holds and that can be read from the file.
    pub closed spec fn wf(&self) -> bool {
        &&& self.db.wf()
        &&& distinct_keys(text_entries(self.value_cache))
        &&& text_entries(self.value_cache).len() <= text_cap(self.value_cache)
        &&& text_cap(self.value_cache) == CACHE_CAPACITY
        &&& distinct_keys(id_entries(self.id_cache))
        &&& id_entries(self.id_cache).len() <= id_cap(self.id_cache)
        &&& id_cap(self.id_cache) == CACHE_CAPACITY
        &&& forall|text: Seq<char>|
            #![trigger found(self.cached_ids(), text)]
            found(self.cached_ids(), text) matches Some(id) ==> self.store().entries.contains_key(id)
        &&& forall|id: Id| #[trigger]
            found(text_entries(self.value_cache), id) is Some ==> self.store().readable(id) && found(
                text_entries(self.value_cache),
                id,
            ) == Some(self.store().entries[id].text)
    }

    /// The identifier that the table gives a text: the one at hand, or else the text's own.
    pub open spec fn id_for(&self, text: Seq<char>) -> Id {
        match found(self.cached_ids(), text) {
            Some(id) => id,
            None => text_id(text),
        }
    }

    /// The table gives every text its own identifier, and every text stands under its own.
    pub open spec fn consistent(&self) -> bool {
        &&& forall|text: Seq<char>| #[trigger] self.id_for(text) == text_id(text)
        &&& own_texts(self.store())
    }

    /// What a well-formed table holds.
    pub proof fn lemma_wf(&self)
        requires
            self.wf(),
        ensures
            self.store().wf(),
            distinct_keys(self.cached_ids()),
            self.cached_ids().len() <= CACHE_CAPACITY,
            forall|text: Seq<char>| #[trigger]
                found(self.cached_ids(), text) matches Some(id)
                    ==> self.store().entries.contains_key(id),
    {
        self.db.lemma_wf();
    }

    /// An empty table over an empty file.
    pub fn open() -> (table: IdTable)
        ensures
            table.wf(),
            table.store() == DbView::empty(),
            table.cached_ids() == Seq::<IdPair>::empty(),
            table.consistent(),
    {
        IdTable {
            db: MemmapDb::open(),
            value_cache: text_cache_new(CACHE_CAPACITY),
            id_cache: id_cache_new(CACHE_CAPACITY),
        }
    }

    /// Registers each item under the given identifier, unless that is taken, and commits. The
    /// identifiers are kept at hand. Where an item no longer fits, those before it are
    /// registered and nothing is committed.
    pub fn bulk_insert_ids<T: AsId>(&mut self, items: &Vec<(T, Id)>) -> (result: Result<(), Error>)
        requires
            old(self).wf(),
        ensures
            final(self).wf(),
            own_ids(id_pairs(items@)) && old(self).consistent() ==> final(self).consistent(),
            forall|id: Id| #[trigger]
                old(self).store().entries.contains_key(id)
                    ==> final(self).store().entries.contains_key(id)
                    && final(self).store().entries[id] == old(self).store().entries[id],
            result is Ok ==> forall|i: int|
                0 <= i < items@.len() ==> final(self).store().entries.contains_key(
                    (#[trigger] items@[i]).1,
                ),
            result is Ok <==> register_all(old(self).store(), id_pairs(items@)) is Some,
            result is Ok ==> {
                &&& final(self).store() == register_all(
                    old(self).store(),
                    id_pairs(items@),
                ).unwrap().commit()
                &&& final(self).cached_ids() == cache_all(
                    old(self).cached_ids(),
                    CACHE_CAPACITY as nat,
                    id_pairs(items@),
                )
            },
            result matches Err(error) ==> error == Error::StoreFull && exists|k: int|
                {
                    &&& 0 <= k < items@.len()
                    &&& register_all(old(self).store(), #[trigger] id_pairs(items@).take(k)) == Some(
                        final(self).store(),
                    )
                    &&& register_all(old(self).store(), id_pairs(items@).take(k + 1)) is None
                    &&& final(self).cached_ids() == cache_all(
                        old(self).cached_ids(),
                        CACHE_CAPACITY as nat,
                        id_pairs(items@).take(k),
                    )
                },
    {
        let ghost pairs = id_pairs(items@);
        let mut i: usize = 0;
        proof {
            self.db.lemma_wf();
            assert(pairs.take(0) =~= Seq::<IdPair>::empty());
        }
        while i < items.len()
            invariant
                i <= items@.len(),
                pairs == id_pairs(items@),
                old(self).wf(),
                self.wf(),
                register_all(old(self).store(), pairs.take(i as int)) == Some(self.store()),
                self.cached_ids() == cache_all(
                    old(self).cached_ids(),
                    CACHE_CAPACITY as nat,
                    pairs.take(i as int),
                ),
            decreases items@.len() - i,
        {
            let item = &items[i];
            let id: Id = item.1;
            proof {
                assert(pairs.take(i + 1).drop_last() =~= pairs.take(i as int));
                assert(pairs.take(i + 1).last() == (item.0@, id));
            }
            let ghost before = *self;
            if !self.db.contains(id) {
                match self.db.put(id, item.0.as_str()) {
                    Ok(()) => {},
                    Err(error) => {
                        proof {
                            lemma_register_all_prefix(old(self).store(), pairs, i + 1);
                            law_register_all(old(self).store(), pairs.take(i as int));
                            if own_ids(pairs) && old(self).consistent() {
                                assert(own_ids(pairs.take(i as int)));
                                law_consistency_is_kept(old(self), self, pairs.take(i as int));
                            }
                        }
                        return Err(error);
                    },
                }
            }
            proof {
                lemma_register(before.store(), (item.0@, id));
                lemma_after_put(
                    before.cached_ids(),
                    CACHE_CAPACITY as nat,
                    item.0@,
                    id,
                );
            }
            id_cache_put(&mut self.id_cache, item.0.as_str().to_owned(), id);
            i = i + 1;
        }
        proof {
            assert(pairs.take(i as int) =~= pairs);
            law_register_all(old(self).store(), pairs);
        }
        self.db.commit();
        proof {
            if own_ids(pairs) && old(self).consistent() {
                law_consistency_is_kept(old(self), self, pairs);
            }
            assert forall|j: int| 0 <= j < items@.len() implies self.store().entries.contains_key(
                (#[trigger] items@[j]).1,
            ) by {
                assert(pairs[j].1 == items@[j].1);
            }
        }
        Ok(())
    }

    /// The identifier of an item. One that is not at hand is the item's own, under which the
    /// item is registered unless that is taken.
    pub fn id<T: AsId>(&mut self, item: &T) -> (result: Result<Id, Error>)
        requires
            old(self).wf(),
        ensures
            final(self).wf(),
            old(self).consistent() ==> final(self).consistent(),
            final(self).cached_ids() == after_get(old(self).cached_ids(), item@),
            forall|text: Seq<char>| #[trigger]
                found(final(self).cached_ids(), text) == found(old(self).cached_ids(), text),
            forall|text: Seq<char>| #[trigger]
                final(self).id_for(text) == old(self).id_for(text),
            match result {
                Ok(id) => {
                    &&& id == old(self).id_for(item@)
                    &&& final(self).store().entries.contains_key(id)
                    &&& enroll(old(self).store(), old(self).cached_ids(), item@) == Some(
                        final(self).store(),
                    )
                },
                Err(error) => {
                    &&& error == Error::StoreFull
                    &&& enroll(old(self).store(), old(self).cached_ids(), item@) is None
                    &&& final(self).store() == old(self).store()
                    &&& !old(self).store().entries.contains_key(text_id(item@))
                    &&& old(self).store().saved.len() + old(self).store().unsaved.len() + old(
                        self,
                    ).store().batch.len() + text_bytes(item@).len() > usize::MAX
                },
            },
            old(self).consistent() && result is Ok ==> result->Ok_0 == text_id(item@),
            forall|i: int|
                0 <= i < old(self).cached_ids().len() && (#[trigger] old(self).cached_ids()[i]).0
                    == item@ ==> result == Ok::<Id, Error>(old(self).cached_ids()[i].1),
            (forall|i: int|
                0 <= i < old(self).cached_ids().len() ==> (#[trigger] old(self).cached_ids()[i]).0
                    != item@) && result is Ok ==> result->Ok_0 == text_id(item@),
            forall|id: Id| #[trigger]
                old(self).store().entries.contains_key(id)
                    ==> final(self).store().entries.contains_key(id)
                    && final(self).store().entries[id] == old(self).store().entries[id],
            forall|id: Id| #[trigger]
                final(self).store().entries.contains_key(id) && !old(
                    self,
                ).store().entries.contains_key(id) ==> id == text_id(item@)
                    && final(self).store().entries[id].text == item@,
    {
        proof {
            lemma_after_get(self.cached_ids(), item@);
            assert forall|i: int|
                0 <= i < self.cached_ids().len() && (#[trigger] self.cached_ids()[i]).0
                    == item@ implies found(self.cached_ids(), item@) == Some(
                self.cached_ids()[i].1,
            ) by {
                lemma_found_at(self.cached_ids(), i);
            }
            if found(self.cached_ids(), item@) is Some {
                let i = lemma_found_is_entry(self.cached_ids(), item@);
            }
        }
        let cached: Option<u128> = id_cache_get(&mut self.id_cache, item.as_str());
        if let Some(id) = cached {
            proof {
                lemma_stays_consistent(old(self), self);
                assert(id == old(self).id_for(item@));
            }
            return Ok(id);
        }
        let id: Id = item.as_id();
        if !self.db.contains(id) {
            match self.db.put(id, item.as_str()) {
                Ok(()) => {},
                Err(error) => {
                    proof {
                        lemma_stays_consistent(old(self), self);
                    }
                    return Err(error);
                },
            }
            proof {
                lemma_register(old(self).store(), (item@, id));
            }
        }
        proof {
            lemma_stays_consistent(old(self), self);
        }
        Ok(id)
    }

    /// The item with the given identifier, if its text is registered and saved and can be read as
    /// an item. `mapped` is what the file reads as.
    pub fn value<T: AsId>(&mut self, id: Id, mapped: &[u8]) -> (value: Option<T>)
        requires
            old(self).wf(),
            mapped@ == old(self).store().saved,
        ensures
            final(self).wf(),
            final(self).store() == old(self).store(),
            final(self).cached_ids() == old(self).cached_ids(),
            value is Some <==> old(self).store().readable(id) && T::read_as(
                old(self).store().entries[id].text,
            ) is Some,
            value matches Some(item) ==> T::read_as(old(self).store().entries[id].text) == Some(
                item@,
            ),
            value is Some ==> old(self).store().entries.contains_key(id),
            old(self).store().entries.contains_key(id) && T::read_as(
                old(self).store().entries[id].text,
            ) is Some ==> (value is Some <==> old(self).store().entries[id].start + text_bytes(
                old(self).store().entries[id].text,
            ).len() <= mapped@.len()),
    {
        match self.text(id, mapped) {
            Some(text) => T::read(text),
            None => None,
        }
    }

    /// The text with the given identifier, if it is registered and saved. `mapped` is what the
    /// file reads as.
    fn text(&mut self, id: Id, mapped: &[u8]) -> (value: Option<String>)
        requires
            old(self).wf(),
            mapped@ == old(self).store().saved,
        ensures
            final(self).wf(),
            final(self).store() == old(self).store(),
            final(self).cached_ids() == old(self).cached_ids(),
            value is Some <==> old(self).store().readable(id),
            value matches Some(text) ==> text@ == old(self).store().entries[id].text,
    {
        proof {
            lemma_after_get(text_entries(self.value_cache), id);
            self.db.lemma_wf();
            law_get_reads_back(self.store(), id, mapped@);
        }
        let cached = text_cache_get(&mut self.value_cache, id);
        if let Some(text) = cached {
            return Some(text);
        }
        let value = self.db.get(id, mapped);
        if let Some(text) = &value {
            proof {
                lemma_after_put(
                    text_entries(self.value_cache),
                    text_cap(self.value_cache),
                    id,
                    text@,
                );
            }
            text_cache_put(&mut self.value_cache, id, text.clone());
        }
        value
    }

    /// Whether the text with the given identifier is registered and saved. `mapped` is what the
    /// file reads as.
    pub fn is_saved(&self, id: Id, mapped: &[u8]) -> (saved: bool)
        requires
            self.wf(),
            mapped@ == self.store().saved,
        ensures
            saved == self.store().readable(id),
            saved <==> self.store().entries.contains_key(id) && self.store().entries[id].start
                + text_bytes(self.store().entries[id].text).len() <= mapped@.len(),
    {
        self.db.is_saved(id, mapped)
    }

    /// The committed bytes that are to be appended to the file.
    pub fn unsaved(&self) -> (bytes: &[u8])
        ensures
            bytes@ == self.store().unsaved,
    {
        self.db.unsaved()
    }

    /// Takes the committed bytes out, in order to append them to the file.
    pub fn take_unsaved(&mut self) -> (bytes: Vec<u8>)
        requires
            old(self).wf(),
        ensures
            final(self).wf(),
            final(self).store() == old(self).store().save(),
            final(self).cached_ids() == old(self).cached_ids(),
            bytes@ == old(self).store().unsaved,
            final(self).store().entries == old(self).store().entries,
            final(self).store().saved == old(self).store().saved + bytes@,
            final(self).store().unsaved.len() == 0,
            final(self).store().batch == old(self).store().batch,
    {
        self.db.take_unsaved()
    }
}

/// Once a list of items is registered under their own identifiers, the table gives each of them
/// its own identifier, which is taken, so that asking for it again registers nothing.
pub proof fn law_registered_ids_are_own(
    before: &IdTable,
    after: &IdTable,
    pairs: Seq<IdPair>,
    i: int,
)
    requires
        before.wf(),
        own_ids(pairs),
        0 <= i < pairs.len(),
        register_all(before.store(), pairs) is Some,
        after.store() == register_all(before.store(), pairs).unwrap().commit(),
        after.cached_ids() == cache_all(before.cached_ids(), CACHE_CAPACITY as nat, pairs),
    ensures
        after.id_for(pairs[i].0) == text_id(pairs[i].0),
        after.store().entries.contains_key(text_id(pairs[i].0)),
        register(after.store(), pairs[i]) == Some(after.store()),
{
    lemma_cache_all(before.cached_ids(), CACHE_CAPACITY as nat, pairs);
    law_register_all(before.store(), pairs);
    let text = pairs[i].0;
    assert(listed(pairs, text));
    let now = found(after.cached_ids(), text);
    if now is Some {
        let j = pairs.index_of((text, now.unwrap()));
        assert(pairs[j].1 == text_id(pairs[j].0));
    }
}

/// A table gives a text the identifier that is at hand for it, and its own if none is.
pub proof fn law_id_at_hand_is_given(table: &IdTable, text: Seq<char>)
    requires
        table.wf(),
    ensures
        forall|i: int|
            0 <= i < table.cached_ids().len() && (#[trigger] table.cached_ids()[i]).0 == text
                ==> table.id_for(text) == table.cached_ids()[i].1,
        (forall|i: int|
            0 <= i < table.cached_ids().len() ==> (#[trigger] table.cached_ids()[i]).0 != text)
            ==> table.id_for(text) == text_id(text),
{
    assert forall|i: int|
        0 <= i < table.cached_ids().len() && (#[trigger] table.cached_ids()[i]).0
            == text implies table.id_for(text) == table.cached_ids()[i].1 by {
        lemma_found_at(table.cached_ids(), i);
    }
    if found(table.cached_ids(), text) is Some {
        let i = lemma_found_is_entry(table.cached_ids(), text);
    }
}

/// A table that gives the same identifiers and keeps every text under its own stays consistent.
proof fn lemma_stays_consistent(before: &IdTable, after: &IdTable)
    requires
        forall|text: Seq<char>| #[trigger]
            found(after.cached_ids(), text) == found(before.cached_ids(), text),
        own_texts(before.store()) ==> own_texts(after.store()),
    ensures
        before.consistent() ==> after.consistent(),
{
    if before.consistent() {
        assert forall|text: Seq<char>| #[trigger] after.id_for(text) == text_id(text) by {
            assert(before.id_for(text) == text_id(text));
        }
    }
}

/// A consistent table stays so when items are registered under their own identifiers.
pub proof fn law_consistency_is_kept(
    before: &IdTable,
    after: &IdTable,
    pairs: Seq<IdPair>,
)
    requires
        before.wf(),
        before.consistent(),
        own_ids(pairs),
        register_all(before.store(), pairs) is Some,
        after.store().entries == register_all(before.store(), pairs).unwrap().entries,
        after.cached_ids() == cache_all(before.cached_ids(), CACHE_CAPACITY as nat, pairs),
    ensures
        after.consistent(),
{
    law_registering_keeps_own_texts(before.store(), pairs);
    lemma_cache_all(before.cached_ids(), CACHE_CAPACITY as nat, pairs);
    assert forall|text: Seq<char>| #[trigger] after.id_for(text) == text_id(text) by {
        let now = found(after.cached_ids(), text);
        assert(before.id_for(text) == text_id(text));
        if now is Some && pairs.contains((text, now.unwrap())) {
            let j = pairs.index_of((text, now.unwrap()));
            assert(pairs[j].1 == text_id(pairs[j].0));
        }
    }
}

} // verus!
