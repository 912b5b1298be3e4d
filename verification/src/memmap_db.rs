//! A key-value store over one file that only grows.
//!
//! The file is mapped into memory for reading. The keys are held in memory, in a map from the
//! key to the range of bytes that its value takes in the file, and are not saved: what was
//! stored is lost in a crash.
//!
//! A value that is put waits in a batch. A commit closes the batch: its bytes then wait to be
//! appended to the file, for which the owner of the file takes them out.

use crate::codec::{
    decode_text, encode_text, law_encoding_reads_back, lemma_text_bytes_len, text_bytes,
};
use crate::crawl_error::Error;
use std::collections::BTreeMap;
use vstd::prelude::*;

verus! {

broadcast use {vstd::std_specs::btree::group_btree_axioms, vstd::laws_cmp::group_laws_cmp};

/// Where a value lies in the file.
#[derive(Clone, Copy, Debug, PartialEq, Eq, Structural)]
pub struct ByteRange {
    pub start: usize,
    pub end: usize,
}

/// The value of a key: its text, and the offset in the file at which the text was laid down.
pub struct DbEntry {
    pub text: Seq<char>,
    pub start: nat,
}

impl DbEntry {
    /// The offset behind the text.
    pub open spec fn end(self) -> nat {
        self.start + text_bytes(self.text).len()
    }
}

/// What a store holds.
#[verifier::ext_equal]
pub struct DbView {
    pub entries: Map<u128, DbEntry>,
    /// The bytes that the file holds.
    pub saved: Seq<u8>,
    /// The bytes that are committed and not yet in the file.
    pub unsaved: Seq<u8>,
    /// The bytes that are put and not yet committed.
    pub batch: Seq<u8>,
}

impl DbView {
    pub open spec fn empty() -> DbView {
        DbView {
            entries: Map::empty(),
            saved: Seq::empty(),
            unsaved: Seq::empty(),
            batch: Seq::empty(),
        }
    }

    /// All bytes, in the order in which they were put.
    pub open spec fn log(self) -> Seq<u8> {
        self.saved + self.unsaved + self.batch
    }

    /// Every value lies in the log where its entry says.
    pub open spec fn wf(self) -> bool {
        &&& self.log().len() <= usize::MAX
        &&& forall|key: u128| #[trigger]
            self.entries.contains_key(key) ==> {
                &&& self.entries[key].end() <= self.log().len()
                &&& self.log().subrange(
                    self.entries[key].start as int,
                    self.entries[key].end() as int,
                ) == text_bytes(self.entries[key].text)
            }
    }

    /// The bytes of `text` can still be addressed.
    pub open spec fn fits(self, text: Seq<char>) -> bool {
        self.log().len() + text_bytes(text).len() <= usize::MAX
    }

    /// `text` stands under `key`, at the end of the batch.
    pub open spec fn put(self, key: u128, text: Seq<char>) -> DbView {
        DbView {
            entries: self.entries.insert(key, DbEntry { text, start: self.log().len() }),
            batch: self.batch + text_bytes(text),
            ..self
        }
    }

    /// The batch is closed.
    pub open spec fn commit(self) -> DbView {
        DbView { unsaved: self.unsaved + self.batch, batch: Seq::empty(), ..self }
    }

    /// What is committed stands in the file.
    pub open spec fn save(self) -> DbView {
        DbView { saved: self.saved + self.unsaved, unsaved: Seq::empty(), ..self }
    }

    /// The value of `key` has been saved and can be read.
    pub open spec fn readable(self, key: u128) -> bool {
        self.entries.contains_key(key) && self.entries[key].end() <= self.saved.len()
    }

    /// The text that a read of `key` gives when the file reads as `mapped`.
    pub open spec fn read(self, key: u128, mapped: Seq<u8>) -> Option<Seq<char>> {
        if self.entries.contains_key(key) && self.entries[key].end() <= mapped.len() {
            decoded(
                mapped.subrange(self.entries[key].start as int, self.entries[key].end() as int),
            )
        } else {
            None
        }
    }
}

/// The text whose encoding the bytes start with.
pub open spec fn decoded(bytes: Seq<u8>) -> Option<Seq<char>> {
    if exists|text: Seq<char>| (#[trigger] text_bytes(text)).is_prefix_of(bytes) {
        Some(choose|text: Seq<char>| (#[trigger] text_bytes(text)).is_prefix_of(bytes))
    } else {
        None
    }
}

/// A key-value store over one file that only grows.
pub struct MemmapDb {
    ranges: BTreeMap<u128, ByteRange>,
    len: usize,
    write_batch: Vec<u8>,
    unsaved: Vec<u8>,
    saved: Ghost<Seq<u8>>,
    texts: Ghost<Map<u128, Seq<char>>>,
}

impl View for MemmapDb {
    type V = DbView;

    closed spec fn view(&self) -> DbView {
        DbView {
            entries: Map::new(
                |key: u128| self.ranges@.contains_key(key),
                |key: u128| DbEntry { text: self.texts@[key], start: self.ranges@[key].start as nat },
            ),
            saved: self.saved@,
            unsaved: self.unsaved@,
            batch: self.write_batch@,
        }
    }
}

impl MemmapDb {
    /// The ranges agree with what the store holds.
    pub closed spec fn wf(&self) -> bool {
        &&& self@.wf()
        &&& self.len == self@.log().len()
        &&& forall|key: u128| #[trigger]
            self.ranges@.contains_key(key) ==> self.ranges@[key].end == self@.entries[key].end()
    }

    /// A well-formed store holds what its view says.
    pub proof fn lemma_wf(&self)
        requires
            self.wf(),
        ensures
            self@.wf(),
    {
    }

    /// An empty store over an empty file.
    pub fn open() -> (db: MemmapDb)
        ensures
            db.wf(),
            db@ == DbView::empty(),
            db@.entries == Map::<u128, DbEntry>::empty(),
            db@.saved.len() == 0,
            db@.unsaved.len() == 0,
            db@.batch.len() == 0,
    {
        let db = MemmapDb {
            ranges: BTreeMap::new(),
            len: 0,
            write_batch: Vec::new(),
            unsaved: Vec::new(),
            saved: Ghost(Seq::empty()),
            texts: Ghost(Map::empty()),
        };
        assert(db@.entries =~= Map::empty());
        db
    }

    /// The value of `key`, read from `mapped`, which is what the file reads as.
    pub fn get(&self, key: u128, mapped: &[u8]) -> (value: Option<String>)
        requires
            self.wf(),
        ensures
            value is Some <==> self@.read(key, mapped@) is Some,
            value matches Some(text) ==> self@.read(key, mapped@) == Some(text@),
            mapped@.is_prefix_of(self@.saved + self@.unsaved + self@.batch) ==> match value {
                Some(text) => {
                    &&& self@.entries.contains_key(key)
                    &&& self@.entries[key].text == text@
                    &&& self@.entries[key].start + text_bytes(text@).len() <= mapped@.len()
                },
                None => self@.entries.contains_key(key) ==> self@.entries[key].start + text_bytes(
                    self@.entries[key].text,
                ).len() > mapped@.len(),
            },
    {
        proof {
            if mapped@.is_prefix_of(self@.saved + self@.unsaved + self@.batch) {
                law_get_reads_back(self@, key, mapped@);
            }
        }
        match self.ranges.get(&key) {
            None => None,
            Some(range) => {
                proof {
                    lemma_text_bytes_len(self@.entries[key].text);
                }
                if range.start >= mapped.len() || range.end > mapped.len() {
                    return None;
                }
                let value_bytes = vstd::slice::slice_subrange(mapped, range.start, range.end);
                match decode_text(value_bytes) {
                    Ok(text) => {
                        proof {
                            let chosen = decoded(value_bytes@).unwrap();
                            law_encoding_reads_back(text@, chosen, value_bytes@);
                        }
                        Some(text)
                    },
                    Err(_) => None,
                }
            },
        }
    }

    /// Puts `value` under `key`. The value can be read once it is committed and saved.
    pub fn put(&mut self, key: u128, value: &str) -> (result: Result<(), Error>)
        requires
            old(self).wf(),
        ensures
            final(self).wf(),
            result is Ok <==> old(self)@.fits(value@),
            result is Ok ==> final(self)@ == old(self)@.put(key, value@),
            result matches Err(error) ==> error == Error::StoreFull && final(self)@ == old(self)@,
            result is Ok <==> old(self)@.saved.len() + old(self)@.unsaved.len() + old(
                self,
            )@.batch.len() + text_bytes(value@).len() <= usize::MAX,
            result is Ok ==> {
                &&& final(self)@.entries.contains_key(key)
                &&& final(self)@.entries[key].text == value@
                &&& final(self)@.entries == old(self)@.entries.insert(
                    key,
                    final(self)@.entries[key],
                )
                &&& final(self)@.saved == old(self)@.saved
                &&& final(self)@.unsaved == old(self)@.unsaved
                &&& final(self)@.batch == old(self)@.batch + text_bytes(value@)
            },
    {
        let mut value_bytes = encode_text(value);
        let added = value_bytes.len();
        if added > usize::MAX - self.len {
            return Err(Error::StoreFull);
        }
        let range = ByteRange { start: self.len, end: self.len + added };
        self.write_batch.append(&mut value_bytes);
        self.len = self.len + added;
        self.ranges.insert(key, range);
        self.texts = Ghost(self.texts@.insert(key, value@));
        proof {
            let before = old(self)@;
            assert(self@.entries =~= before.put(key, value@).entries);
            assert(self@ =~= before.put(key, value@));
            assert(self@.log() =~= before.log() + text_bytes(value@));
            assert forall|k: u128| #[trigger] self@.entries.contains_key(k) implies {
                &&& self@.entries[k].end() <= self@.log().len()
                &&& self@.log().subrange(self@.entries[k].start as int, self@.entries[k].end() as int)
                    == text_bytes(self@.entries[k].text)
            } by {
                if k == key {
                    assert(self@.log().subrange(before.log().len() as int, self@.log().len() as int)
                        =~= text_bytes(value@));
                } else {
                    assert(before.entries.contains_key(k));
                    assert(self@.log().subrange(
                        self@.entries[k].start as int,
                        self@.entries[k].end() as int,
                    ) =~= before.log().subrange(
                        before.entries[k].start as int,
                        before.entries[k].end() as int,
                    ));
                }
            }
        }
        Ok(())
    }

    /// Closes the batch: what was put now waits to be saved.
    pub fn commit(&mut self)
        requires
            old(self).wf(),
        ensures
            final(self).wf(),
            final(self)@ == old(self)@.commit(),
            final(self)@.entries == old(self)@.entries,
            final(self)@.saved == old(self)@.saved,
            final(self)@.unsaved == old(self)@.unsaved + old(self)@.batch,
            final(self)@.batch.len() == 0,
    {
        self.unsaved.append(&mut self.write_batch);
        proof {
            assert(self@.entries =~= old(self)@.entries);
            assert(self@ =~= old(self)@.commit());
            assert(self@.log() =~= old(self)@.log());
        }
    }

    /// The committed bytes that are to be appended to the file.
    pub fn unsaved(&self) -> (bytes: &[u8])
        ensures
            bytes@ == self@.unsaved,
    {
        self.unsaved.as_slice()
    }

    /// Takes the committed bytes out, in order to append them to the file.
    pub fn take_unsaved(&mut self) -> (bytes: Vec<u8>)
        requires
            old(self).wf(),
        ensures
            final(self).wf(),
            final(self)@ == old(self)@.save(),
            bytes@ == old(self)@.unsaved,
            final(self)@.entries == old(self)@.entries,
            final(self)@.saved == old(self)@.saved + bytes@,
            final(self)@.unsaved.len() == 0,
            final(self)@.batch == old(self)@.batch,
    {
        let mut bytes: Vec<u8> = Vec::new();
        bytes.append(&mut self.unsaved);
        self.saved = Ghost(self.saved@ + bytes@);
        proof {
            assert(self@.entries =~= old(self)@.entries);
            assert(self@ =~= old(self)@.save());
            assert(self@.log() =~= old(self)@.log());
        }
        bytes
    }

    /// Whether the value of `key` can be read from `mapped`, which is what the file reads as.
    pub fn is_saved(&self, key: u128, mapped: &[u8]) -> (saved: bool)
        requires
            self.wf(),
            mapped@ == self@.saved,
        ensures
            saved == self@.readable(key),
            saved <==> self@.entries.contains_key(key) && self@.entries[key].start + text_bytes(
                self@.entries[key].text,
            ).len() <= mapped@.len(),
    {
        match self.ranges.get(&key) {
            Some(range) => range.end <= mapped.len(),
            None => false,
        }
    }

    /// Whether a value stands under `key`, readable or not.
    pub fn contains(&self, key: u128) -> (found: bool)
        ensures
            found == self@.entries.contains_key(key),
    {
        self.ranges.contains_key(&key)
    }
}

/// What a store holds under a key can be read as soon as it is saved, and not before: with any
/// beginning of the log as the file, a read gives the text that was put last, if the file holds
/// all of it, and nothing otherwise.
pub proof fn law_get_reads_back(db: DbView, key: u128, mapped: Seq<u8>)
    requires
        db.wf(),
        mapped.is_prefix_of(db.log()),
    ensures
        db.read(key, mapped) == (if db.entries.contains_key(key) && db.entries[key].end()
            <= mapped.len() {
            Some(db.entries[key].text)
        } else {
            None
        }),
{
    if db.entries.contains_key(key) && db.entries[key].end() <= mapped.len() {
        let entry = db.entries[key];
        let bytes = mapped.subrange(entry.start as int, entry.end() as int);
        assert(bytes =~= db.log().subrange(entry.start as int, entry.end() as int));
        assert(text_bytes(entry.text).is_prefix_of(bytes));
        law_encoding_reads_back(entry.text, decoded(bytes).unwrap(), bytes);
    }
}

/// A value that was put, committed and saved is read back from the file, whatever the key held
/// before, and the keys beside it read as before.
pub proof fn law_put_commit_save_get(db: DbView, key: u128, text: Seq<char>, other: u128)
    requires
        db.wf(),
        db.fits(text),
        db.batch.len() == 0,
        db.unsaved.len() == 0,
        other != key,
    ensures
        db.put(key, text).read(key, db.saved) is None,
        db.put(key, text).commit().read(key, db.saved) is None,
        ({
            let after = db.put(key, text).commit().save();
            &&& after.read(key, after.saved) == Some(text)
            &&& after.read(other, after.saved) == db.read(other, db.saved)
        }),
{
    let put = db.put(key, text);
    let after = put.commit().save();
    lemma_text_bytes_len(text);
    assert(after.saved =~= db.log() + text_bytes(text));
    assert(after.saved =~= after.log());
    assert(db.saved =~= db.log());
    assert forall|k: u128| #[trigger] after.entries.contains_key(k) implies {
        &&& after.entries[k].end() <= after.log().len()
        &&& after.log().subrange(after.entries[k].start as int, after.entries[k].end() as int)
            == text_bytes(after.entries[k].text)
    } by {
        if k == key {
            assert(after.log().subrange(db.log().len() as int, after.log().len() as int)
                =~= text_bytes(text));
        } else {
            assert(after.log().subrange(
                after.entries[k].start as int,
                after.entries[k].end() as int,
            ) =~= db.log().subrange(db.entries[k].start as int, db.entries[k].end() as int));
        }
    }
    law_get_reads_back(after, key, after.saved);
    law_get_reads_back(after, other, after.saved);
    law_get_reads_back(db, other, db.saved);
}

/// Once everything that was put is committed and saved, everything can be read.
pub proof fn law_all_is_readable_once_saved(db: DbView, key: u128)
    requires
        db.wf(),
        db.entries.contains_key(key),
    ensures
        db.commit().save().readable(key),
        db.commit().save().entries == db.entries,
{
    assert(db.commit().save().saved =~= db.log());
}

} // verus!
