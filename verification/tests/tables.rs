use stract::crawl_error::Error;
use stract::digest::id_of_text;
use stract::id_table::{IdTable, CACHE_CAPACITY};
use stract::redirect_db::RedirectDb;
use stract::url_state::{UrlState, UrlStates, UrlStatus};
use stract::url_state_db::UrlStateDb;
use stract::web_url::{AsId, Domain, Url};

fn text_bytes(text: &str) -> Vec<u8> {
    let mut bytes = (text.len() as u64).to_le_bytes().to_vec();
    bytes.extend(text.as_bytes());
    bytes
}

fn states(url: u128) -> UrlStates {
    let mut states = UrlStates::new();
    states.insert(url, UrlState { weight: 1, status: UrlStatus::Pending });
    states
}

#[test]
fn identifiers_are_digests() {
    let alphabet = "abcdefghijklmnopqrstuvwxyz";
    assert_eq!(id_of_text(alphabet), 0xc3fcd3d76192e4007dfb496cca67e13b);
    assert_eq!(id_of_text(""), 0xd41d8cd98f00b204e9800998ecf8427e);
    assert_eq!(Domain::from_text(alphabet.to_string()).as_id(), id_of_text(alphabet));
    assert_eq!(Url::from_text(alphabet.to_string()).as_id(), id_of_text(alphabet));
}

#[test]
fn urls_are_normalised() {
    assert_eq!(Url::parse("HTTPS://Example.COM").unwrap().as_str(), "https://example.com/");
    assert_eq!(Url::parse("https://a.com/b/../c").unwrap().as_str(), "https://a.com/c");
    assert_eq!(Url::parse("no url").unwrap_err(), Error::InvalidUrl);
    assert_eq!(Url::parse("/relative").unwrap_err(), Error::InvalidUrl);
}

#[test]
fn domains_are_hosts() {
    let url = Url::parse("https://user@sub.Example.com:8080/path?x#y").unwrap();
    assert_eq!(Domain::of(&url).as_str(), "sub.example.com");
    assert_eq!(Domain::of(&Url::parse("mailto:a@b.com").unwrap()).as_str(), "");
    assert_eq!(Domain::from_host(Some("a.com".to_string())).as_str(), "a.com");
    assert_eq!(Domain::from_host(None).as_str(), "");
    assert!(Domain::of(&url) == Domain::from_text("sub.example.com".to_string()));
    assert!(Domain::of(&url) != Domain::from_text("example.com".to_string()));
}

#[test]
fn registered_texts_are_read_once_saved() {
    let mut table = IdTable::open();
    let mut file: Vec<u8> = vec![];
    let a = Domain::from_text("a.com".to_string());
    let b = Domain::from_text("b.com".to_string());
    let items = vec![(a.clone(), a.as_id()), (b.clone(), b.as_id())];
    table.bulk_insert_ids(&items).unwrap();
    assert!(table.value::<Domain>(a.as_id(), &file).is_none());
    assert_eq!(table.unsaved(), [text_bytes("a.com"), text_bytes("b.com")].concat());
    file.extend(table.take_unsaved());
    assert_eq!(file, [text_bytes("a.com"), text_bytes("b.com")].concat());
    assert_eq!(table.value::<Domain>(a.as_id(), &file).unwrap().as_str(), "a.com");
    assert_eq!(table.value::<Domain>(a.as_id(), &file).unwrap().as_str(), "a.com");
    assert_eq!(table.value::<Domain>(b.as_id(), &file).unwrap().as_str(), "b.com");
    assert!(table.value::<Domain>(7, &file).is_none());
    assert_eq!(table.id(&a).unwrap(), a.as_id());
    table.bulk_insert_ids(&items).unwrap();
    assert!(table.unsaved().is_empty());
    assert!(table.take_unsaved().is_empty());
}

#[test]
fn urls_are_read_by_parsing() {
    let mut table = IdTable::open();
    let drive = Url::parse("file:c:\n%2e%2e").unwrap();
    let broken = Url::from_text("no url".to_string());
    assert_eq!(drive.as_str(), "file:///c:/%2e%2e");
    table.bulk_insert_ids(&vec![(drive.clone(), 1), (broken, 2)]).unwrap();
    let file = table.take_unsaved();
    assert_eq!(table.value::<Url>(1, &file).unwrap().as_str(), "file:///c:/");
    assert_eq!(table.value::<Url>(1, &file).unwrap().as_str(), "file:///c:/");
    assert!(table.value::<Url>(2, &file).is_none());
    assert_eq!(table.value::<Domain>(2, &file).unwrap().as_str(), "no url");
}

#[test]
fn states_are_stored_under_the_bytes_of_the_domain() {
    let id: u128 = 0x0102030405060708090a0b0c0d0e0f10;
    assert_eq!(UrlStateDb::key(id), vec![16, 15, 14, 13, 12, 11, 10, 9, 8, 7, 6, 5, 4, 3, 2, 1]);
}

#[test]
fn an_identifier_keeps_its_first_text() {
    let mut table = IdTable::open();
    let a = Domain::from_text("a.com".to_string());
    let b = Domain::from_text("b.com".to_string());
    table.bulk_insert_ids(&vec![(a.clone(), 5), (b.clone(), 5)]).unwrap();
    let file = table.take_unsaved();
    assert_eq!(table.value::<Domain>(5, &file).unwrap().as_str(), "a.com");
    assert_eq!(table.id(&a).unwrap(), 5);
    assert_eq!(table.id(&b).unwrap(), 5);
}

#[test]
fn identifiers_leave_the_cache_in_order_of_use() {
    let mut table = IdTable::open();
    let name = |i: usize| Domain::from_text(format!("d{}", i));
    let items: Vec<(Domain, u128)> = (0..CACHE_CAPACITY).map(|i| (name(i), i as u128)).collect();
    table.bulk_insert_ids(&items).unwrap();
    assert_eq!(table.id(&name(0)).unwrap(), 0);
    table.bulk_insert_ids(&vec![(name(CACHE_CAPACITY), 77)]).unwrap();
    assert_eq!(table.id(&name(0)).unwrap(), 0);
    assert_eq!(table.id(&name(1)).unwrap(), name(1).as_id());
    assert_eq!(table.id(&name(2)).unwrap(), 2);
    assert_eq!(table.id(&name(CACHE_CAPACITY)).unwrap(), 77);
}

#[test]
fn asking_for_an_identifier_registers_the_text() {
    let mut table = IdTable::open();
    let a = Domain::from_text("a.com".to_string());
    assert_eq!(table.id(&a).unwrap(), a.as_id());
    assert!(table.take_unsaved().is_empty());
    let none: Vec<(Domain, u128)> = vec![];
    table.bulk_insert_ids(&none).unwrap();
    let file = table.take_unsaved();
    assert_eq!(file, text_bytes("a.com"));
    assert!(table.is_saved(a.as_id(), &file));
    assert_eq!(table.value::<Domain>(a.as_id(), &file).unwrap().as_str(), "a.com");
}

#[test]
fn redirects_are_read_back() {
    let mut db = RedirectDb::open();
    let from = Url::parse("https://a.com/from").unwrap();
    let to = Url::parse("https://b.com/to").unwrap();
    let later = Url::parse("https://c.com/later").unwrap();
    assert!(db.get(&from, None).unwrap().is_none());
    db.put(&from, &to);
    assert_eq!(db.get(&from, None).unwrap().unwrap().as_str(), "https://b.com/to");
    db.put(&from, &later);
    assert_eq!(db.get(&from, None).unwrap().unwrap().as_str(), "https://c.com/later");
    let writes = db.take_writes();
    assert_eq!(writes.len(), 2);
    assert_eq!(writes[0].0, RedirectDb::key(&from));
    assert_eq!(writes[0].0, text_bytes("https://a.com/from"));
    assert_eq!(writes[1].1, text_bytes("https://c.com/later"));
    assert!(db.get(&from, None).unwrap().is_none());
    let stored = db.get(&from, Some(&writes[1].1)).unwrap().unwrap();
    assert_eq!(stored.as_str(), "https://c.com/later");
    assert!(db.get(&to, None).unwrap().is_none());
}

#[test]
fn a_redirect_is_read_by_parsing_its_text() {
    let mut db = RedirectDb::open();
    let from = Url::parse("https://a.com/from").unwrap();
    let to = Url::parse("file:c:\n%2e%2e").unwrap();
    assert_eq!(to.as_str(), "file:///c:/%2e%2e");
    assert_eq!(Url::parse(to.as_str()).unwrap().as_str(), "file:///c:/");
    db.put(&from, &to);
    assert_eq!(db.get(&from, None).unwrap().unwrap().as_str(), "file:///c:/");
    let writes = db.take_writes();
    let stored = db.get(&from, Some(&writes[0].1)).unwrap().unwrap();
    assert_eq!(stored.as_str(), "file:///c:/");
}

#[test]
fn redirects_that_cannot_be_read_are_errors() {
    let db = RedirectDb::open();
    let from = Url::parse("https://a.com/from").unwrap();
    assert_eq!(db.get(&from, Some(&[1, 2, 3])).unwrap_err(), Error::InvalidEncoding);
    let mut bytes = text_bytes("xx");
    bytes[8] = 255;
    assert_eq!(db.get(&from, Some(&bytes)).unwrap_err(), Error::InvalidEncoding);
    assert_eq!(db.get(&from, Some(&text_bytes("no url"))).unwrap_err(), Error::InvalidUrl);
    let mut longer = text_bytes("https://b.com/");
    longer.push(9);
    assert_eq!(db.get(&from, Some(&longer)).unwrap().unwrap().as_str(), "https://b.com/");
}

#[test]
fn half_of_a_full_cache_is_written_out() {
    let mut db = UrlStateDb::open(4);
    for domain in 0..3u128 {
        db.put(domain, states(domain + 10));
    }
    assert!(db.flush().is_empty());
    assert!(!db.get(0).is_empty());
    db.put(3, states(13));
    let batch = db.flush();
    assert_eq!(batch.keys().copied().collect::<Vec<u128>>(), vec![1, 2]);
    assert_eq!(batch.get(&1).unwrap().get(&11).unwrap().weight, 1);
    assert!(!db.needs_page(0));
    assert!(db.needs_page(1));
    assert!(db.get(1).is_empty());
    db.stage(1, batch.get(&1).unwrap().clone());
    assert!(!db.needs_page(1));
    assert_eq!(db.get(1).get(&11).unwrap().weight, 1);
    assert!(db.flush().is_empty());
    assert!(!db.needs_page(1));
}

#[test]
fn what_is_put_last_is_read() {
    let mut db = UrlStateDb::open(2);
    db.put(1, states(1));
    db.put(2, states(2));
    db.put(1, states(3));
    assert!(db.get(1).contains_key(&3));
    assert!(!db.get(1).contains_key(&1));
    assert!(db.get(2).contains_key(&2));
    assert!(db.get(9).is_empty());
}

#[test]
fn a_tiny_cache_forgets() {
    let mut db = UrlStateDb::open(0);
    db.put(1, states(1));
    db.put(2, states(2));
    assert!(db.get(1).is_empty());
    assert!(db.get(2).contains_key(&2));
    assert!(db.flush().is_empty());
}
