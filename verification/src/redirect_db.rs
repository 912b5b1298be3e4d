//! Where URLs redirect to: a disk store of encoded URLs.
//!
//! The disk is read and written by the owner of the disk store. Redirects that are put wait in
//! memory until they are taken out to be written.

use crate::codec::{decode_text, encode_text, law_encoding_reads_back, text_bytes};
use crate::crawl_error::Error;
use crate::memmap_db::decoded;
use crate::web_url::{url_serialization, AsId, Url};
use vstd::prelude::*;

verus! {

/// A redirect: the URL and where it leads.
pub type Redirect = (Seq<char>, Seq<char>);

/// Where `from` leads according to the last of the redirects that is about it.
pub open spec fn latest(redirects: Seq<Redirect>, from: Seq<char>) -> Option<Seq<char>>
    decreases redirects.len(),
{
    if redirects.len() == 0 {
        None
    } else if redirects.last().0 == from {
        Some(redirects.last().1)
    } else {
        latest(redirects.drop_last(), from)
    }
}

/// The URL that a stored text stands for.
pub open spec fn stored_url(text: Seq<char>) -> Result<Option<Seq<char>>, Error> {
    match url_serialization(text) {
        Some(url) => Ok(Some(url)),
        None => Err(Error::InvalidUrl),
    }
}

/// Where a URL leads, if the disk holds the bytes `stored` for it and `waiting` is still to be
/// written over them.
pub open spec fn redirect_of(
    waiting: Option<Seq<char>>,
    stored: Option<Seq<u8>>,
) -> Result<Option<Seq<char>>, Error> {
    match waiting {
        Some(text) => stored_url(text),
        None => match stored {
            Some(bytes) => match decoded(bytes) {
                Some(text) => stored_url(text),
                None => Err(Error::InvalidEncoding),
            },
            None => Ok(None),
        },
    }
}

/// The outcome of a lookup, with the URL seen as its text.
pub open spec fn outcome(result: Result<Option<Url>, Error>) -> Result<Option<Seq<char>>, Error> {
    match result {
        Ok(Some(url)) => Ok(Some(url@)),
        Ok(None) => Ok(None),
        Err(error) => Err(error),
    }
}

/// Where URLs redirect to.
pub struct RedirectDb {
    waiting: Vec<(Url, Url)>,
}

impl View for RedirectDb {
    type V = Seq<Redirect>;

    closed spec fn view(&self) -> Seq<Redirect> {
        self.waiting@.map_values(|redirect: (Url, Url)| (redirect.0@, redirect.1@))
    }
}

impl RedirectDb {
    /// A store to which nothing is waiting to be written.
    pub fn open() -> (db: RedirectDb)
        ensures
            db@ == Seq::<Redirect>::empty(),
    {
        let db = RedirectDb { waiting: Vec::new() };
        assert(db@ =~= Seq::empty());
        db
    }

    /// The key under which the disk holds where a URL leads.
    pub fn key(from: &Url) -> (key: Vec<u8>)
        ensures
            key@ == text_bytes(from@),
    {
        encode_text(from.as_str())
    }

    /// Notes that `from` leads to `to`.
    pub fn put(&mut self, from: &Url, to: &Url)
        ensures
            final(self)@ == old(self)@.push((from@, to@)),
    {
        self.waiting.push((from.clone(), to.clone()));
        assert(self@ =~= old(self)@.push((from@, to@)));
    }

    /// Where `from` leads. `stored` is what the disk holds under its key.
    pub fn get(&self, from: &Url, stored: Option<&[u8]>) -> (result: Result<Option<Url>, Error>)
        ensures
            outcome(result) == redirect_of(
                latest(self@, from@),
                match stored {
                    Some(bytes) => Some(bytes@),
                    None => None,
                },
            ),
            forall|k: int|
                {
                    &&& 0 <= k < self@.len()
                    &&& (#[trigger] self@[k]).0 == from@
                    &&& forall|l: int| k < l < self@.len() ==> (#[trigger] self@[l]).0 != from@
                } ==> match url_serialization(self@[k].1) {
                    Some(text) => result matches Ok(Some(url)) && url@ == text,
                    None => result matches Err(error) && error == Error::InvalidUrl,
                },
            (forall|k: int| 0 <= k < self@.len() ==> (#[trigger] self@[k]).0 != from@)
                ==> match stored {
                None => result matches Ok(None),
                Some(bytes) => {
                    &&& forall|text: Seq<char>|
                        (#[trigger] text_bytes(text)).is_prefix_of(bytes@)
                            ==> match url_serialization(text) {
                            Some(url_text) => result matches Ok(Some(url)) && url@ == url_text,
                            None => result matches Err(error) && error == Error::InvalidUrl,
                        }
                    &&& (forall|text: Seq<char>|
                        !(#[trigger] text_bytes(text)).is_prefix_of(bytes@)) ==> (result matches Err(
                        error,
                    ) && error == Error::InvalidEncoding)
                },
            },
    {
        proof {
            law_last_redirect_is_latest(self@, from@);
        }
        let mut i: usize = self.waiting.len();
        proof {
            assert(self@.take(i as int) =~= self@);
        }
        while i > 0
            invariant
                i <= self.waiting@.len(),
                latest(self@, from@) == latest(self@.take(i as int), from@),
            decreases i,
        {
            i = i - 1;
            proof {
                assert(self@.take(i + 1).drop_last() =~= self@.take(i as int));
                assert(self@.take(i + 1).last() == self@[i as int]);
            }
            if self.waiting[i].0 == *from {
                proof {
                    law_last_redirect_is_latest(self@, from@);
                }
                return match Url::parse(self.waiting[i].1.as_str()) {
                    Ok(url) => Ok(Some(url)),
                    Err(error) => Err(error),
                };
            }
        }
        match stored {
            None => Ok(None),
            Some(bytes) => match decode_text(bytes) {
                Err(_) => Err(Error::InvalidEncoding),
                Ok(text) => {
                    proof {
                        let len = bytes.len();
                        law_encoding_reads_back(text@, decoded(bytes@).unwrap(), bytes@);
                        assert forall|other: Seq<char>|
                            (#[trigger] text_bytes(other)).is_prefix_of(
                                bytes@,
                            ) implies other == text@ by {
                            law_encoding_reads_back(text@, other, bytes@);
                        }
                    }
                    match Url::parse(text.as_str()) {
                        Ok(url) => Ok(Some(url)),
                        Err(error) => Err(error),
                    }
                },
            },
        }
    }

    /// Takes the waiting redirects out, as keys and values, in order to write them to the disk
    /// one after the other.
    pub fn take_writes(&mut self) -> (writes: Vec<(Vec<u8>, Vec<u8>)>)
        ensures
            final(self)@ == Seq::<Redirect>::empty(),
            writes@.len() == old(self)@.len(),
            forall|i: int|
                0 <= i < writes@.len() ==> (#[trigger] writes@[i]).0@ == text_bytes(old(self)@[i].0)
                    && writes@[i].1@ == text_bytes(old(self)@[i].1),
    {
        let mut writes: Vec<(Vec<u8>, Vec<u8>)> = Vec::new();
        let mut i: usize = 0;
        while i < self.waiting.len()
            invariant
                i <= self.waiting@.len(),
                *self == *old(self),
                writes@.len() == i,
                forall|j: int|
                    0 <= j < i ==> (#[trigger] writes@[j]).0@ == text_bytes(self@[j].0)
                        && writes@[j].1@ == text_bytes(self@[j].1),
            decreases self.waiting@.len() - i,
        {
            let key = encode_text(self.waiting[i].0.as_str());
            let value = encode_text(self.waiting[i].1.as_str());
            writes.push((key, value));
            i = i + 1;
        }
        self.waiting.clear();
        assert(self@ =~= Seq::empty());
        writes
    }
}

/// A redirect that was noted is found, in place of any earlier one from the same URL, and those
/// from other URLs stay as they are: before it is written, whatever the disk holds, and from the
/// bytes that are written for it. A URL is stored as its text and read by parsing it, so it comes
/// back as it was noted exactly if its text is the serialization that parsing it gives. Not every
/// text that parsing gives is such a one: a file URL with a drive letter may not be.
pub proof fn law_redirect_is_read_back(
    redirects: Seq<Redirect>,
    from: Seq<char>,
    to: Seq<char>,
    stored: Option<Seq<u8>>,
)
    ensures
        latest(redirects.push((from, to)), from) == Some(to),
        forall|other: Seq<char>|
            other != from ==> #[trigger] latest(redirects.push((from, to)), other) == latest(
                redirects,
                other,
            ),
        redirect_of(latest(redirects.push((from, to)), from), stored) == stored_url(to),
        text_bytes(to).len() <= u64::MAX ==> redirect_of(None, Some(text_bytes(to))) == stored_url(
            to,
        ),
        stored_url(to) == Ok::<Option<Seq<char>>, Error>(Some(to)) <==> url_serialization(to)
            == Some(to),
{
    assert(redirects.push((from, to)).drop_last() =~= redirects);
    if text_bytes(to).len() <= u64::MAX {
        assert(text_bytes(to).is_prefix_of(text_bytes(to)));
        law_encoding_reads_back(to, decoded(text_bytes(to)).unwrap(), text_bytes(to));
    }
}

/// A URL leads where the last redirect from it leads, and nowhere if there is none.
pub proof fn law_last_redirect_is_latest(redirects: Seq<Redirect>, from: Seq<char>)
    ensures
        match latest(redirects, from) {
            Some(to) => exists|k: int|
                {
                    &&& 0 <= k < redirects.len()
                    &&& #[trigger] redirects[k] == (from, to)
                    &&& forall|l: int| k < l < redirects.len() ==> (#[trigger] redirects[l]).0
                        != from
                },
            None => forall|k: int| 0 <= k < redirects.len() ==> (#[trigger] redirects[k]).0 != from,
        },
    decreases redirects.len(),
{
    if redirects.len() > 0 {
        let last = redirects.len() - 1;
        if redirects.last().0 == from {
            assert(redirects[last] == (from, redirects.last().1));
        } else {
            let front = redirects.drop_last();
            law_last_redirect_is_latest(front, from);
            match latest(front, from) {
                Some(to) => {
                    let k = choose|k: int|
                        {
                            &&& 0 <= k < front.len()
                            &&& #[trigger] front[k] == (from, to)
                            &&& forall|l: int| k < l < front.len() ==> (#[trigger] front[l]).0
                                != from
                        };
                    assert(redirects[k] == (from, to));
                    assert forall|l: int| k < l < redirects.len() implies (#[trigger] redirects[l]).0
                        != from by {
                        if l < last {
                            assert(front[l] == redirects[l]);
                        }
                    }
                },
                None => {
                    assert forall|k: int| 0 <= k < redirects.len() implies (#[trigger] redirects[
                        k]).0 != from by {
                        if k < last {
                            assert(front[k] == redirects[k]);
                        }
                    }
                },
            }
        }
    }
}

} // verus!
