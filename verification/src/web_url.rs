//! URLs and the domains they belong to.

use crate::crawl_error::Error;
use crate::digest::{id_of_text, text_id, Id};
use vstd::prelude::*;
use vstd::std_specs::cmp::PartialEqSpec;

verus! {

#[verifier::external_type_specification]
#[verifier::external_body]
pub struct ExUrlParseError(url::ParseError);

/// The serialization of the URL that a text parses to, if it parses.
pub uninterp spec fn url_serialization(text: Seq<char>) -> Option<Seq<char>>;

/// The host of the URL that a text parses to, if it parses and has one.
pub uninterp spec fn url_host(text: Seq<char>) -> Option<Seq<char>>;

/// `url::Url::parse`, of which the serialization is kept. Trusted: the outcome depends on the
/// text alone.
#[verifier::external_body]
fn parse_url(text: &str) -> (parsed: Result<String, url::ParseError>)
    ensures
        parsed is Ok <==> url_serialization(text@) is Some,
        parsed matches Ok(serialization) ==> url_serialization(text@) == Some(serialization@),
{
    url::Url::parse(text).map(String::from)
}

/// `url::Url::host_str`, on the URL that the text parses to. Trusted: the outcome depends on the
/// text alone.
#[verifier::external_body]
fn host_str(text: &str) -> (host: Option<String>)
    ensures
        host is Some <==> url_host(text@) is Some,
        host matches Some(name) ==> url_host(text@) == Some(name@),
{
    match url::Url::parse(text) {
        Ok(url) => url.host_str().map(String::from),
        Err(_) => None,
    }
}

/// What can be stored in a table of identifiers: a text and the identifier that goes with it.
pub trait AsId: View<V = Seq<char>> + Sized {
    /// The text itself.
    fn as_str(&self) -> (text: &str)
        ensures
            text@ == self@,
    ;

    /// The identifier of the text.
    fn as_id(&self) -> (id: Id)
        ensures
            id == text_id(self@),
    ;

    /// The item with the given text.
    fn from_text(text: String) -> (item: Self)
        ensures
            item@ == text@,
    ;

    /// The text of the item that a stored text is read as.
    spec fn read_as(text: Seq<char>) -> Option<Seq<char>>;

    /// The item that a stored text is read as.
    fn read(text: String) -> (item: Option<Self>)
        ensures
            item is Some <==> Self::read_as(text@) is Some,
            item matches Some(read) ==> Self::read_as(text@) == Some(read@),
    ;
}

/// A URL, seen as its serialization.
#[derive(Debug)]
pub struct Url {
    text: String,
}

impl View for Url {
    type V = Seq<char>;

    closed spec fn view(&self) -> Seq<char> {
        self.text@
    }
}

impl AsId for Url {
    fn as_str(&self) -> &str {
        self.text.as_str()
    }

    fn as_id(&self) -> Id {
        id_of_text(self.text.as_str())
    }

    fn from_text(text: String) -> Url {
        Url { text }
    }

    /// A URL is read by parsing its text.
    open spec fn read_as(text: Seq<char>) -> Option<Seq<char>> {
        url_serialization(text)
    }

    fn read(text: String) -> Option<Url> {
        match Url::parse(text.as_str()) {
            Ok(url) => Some(url),
            Err(_) => None,
        }
    }
}

impl Clone for Url {
    fn clone(&self) -> (copy: Self)
        ensures
            copy@ == self@,
    {
        Url { text: self.text.clone() }
    }
}

impl PartialEq for Url {
    fn eq(&self, other: &Self) -> (equal: bool) {
        self.text == other.text
    }
}

impl vstd::std_specs::cmp::PartialEqSpecImpl for Url {
    open spec fn obeys_eq_spec() -> bool {
        true
    }

    open spec fn eq_spec(&self, other: &Self) -> bool {
        self@ == other@
    }
}

impl Url {
    /// Parses an absolute URL.
    pub fn parse(text: &str) -> (url: Result<Url, Error>)
        ensures
            url is Ok <==> url_serialization(text@) is Some,
            url matches Ok(parsed) ==> url_serialization(text@) == Some(parsed@),
            url matches Err(error) ==> error == Error::InvalidUrl,
    {
        match parse_url(text) {
            Ok(text) => Ok(Url { text }),
            Err(_) => Err(Error::InvalidUrl),
        }
    }
}

/// The name of the domain of a URL: its host, or nothing where it has none.
pub open spec fn domain_name(host: Option<Seq<char>>) -> Seq<char> {
    match host {
        Some(name) => name,
        None => Seq::empty(),
    }
}

/// The name of the domain that a URL belongs to.
pub open spec fn domain_of(url: Seq<char>) -> Seq<char> {
    domain_name(url_host(url))
}

/// A domain, seen as its name.
#[derive(Debug)]
pub struct Domain {
    name: String,
}

impl View for Domain {
    type V = Seq<char>;

    closed spec fn view(&self) -> Seq<char> {
        self.name@
    }
}

impl AsId for Domain {
    fn as_str(&self) -> &str {
        self.name.as_str()
    }

    fn as_id(&self) -> Id {
        id_of_text(self.name.as_str())
    }

    fn from_text(name: String) -> Domain {
        Domain { name }
    }

    /// The name of a domain is read as it stands.
    open spec fn read_as(text: Seq<char>) -> Option<Seq<char>> {
        Some(text)
    }

    fn read(name: String) -> Option<Domain> {
        Some(Domain { name })
    }
}

impl Clone for Domain {
    fn clone(&self) -> (copy: Self)
        ensures
            copy@ == self@,
    {
        Domain { name: self.name.clone() }
    }
}

impl PartialEq for Domain {
    fn eq(&self, other: &Self) -> (equal: bool) {
        self.name == other.name
    }
}

impl vstd::std_specs::cmp::PartialEqSpecImpl for Domain {
    open spec fn obeys_eq_spec() -> bool {
        true
    }

    open spec fn eq_spec(&self, other: &Self) -> bool {
        self@ == other@
    }
}

impl Domain {
    /// The domain with the given host, or the nameless one where there is no host.
    pub fn from_host(host: Option<String>) -> (domain: Domain)
        ensures
            domain@ == domain_name(match host {
                Some(name) => Some(name@),
                None => None,
            }),
            host matches Some(name) ==> domain@ == name@,
            host is None ==> domain@.len() == 0,
    {
        match host {
            Some(name) => Domain { name },
            None => Domain { name: String::new() },
        }
    }

    /// The domain that a URL belongs to.
    pub fn of(url: &Url) -> (domain: Domain)
        ensures
            domain@ == domain_of(url@),
            url_host(url@) matches Some(name) ==> domain@ == name,
            url_host(url@) is None ==> domain@.len() == 0,
    {
        let host = host_str(url.as_str());
        Domain::from_host(host)
    }
}

/// A URL is read by parsing its text, and a domain as its name stands. Two URLs, or two domains,
/// are equal exactly if their texts are.
pub proof fn law_texts_tell_items_apart(text: Seq<char>, a: Url, b: Url, c: Domain, d: Domain)
    ensures
        Url::read_as(text) == url_serialization(text),
        Domain::read_as(text) == Some(text),
        a.eq_spec(&b) <==> a@ == b@,
        c.eq_spec(&d) <==> c@ == d@,
{
}

} // verus!
