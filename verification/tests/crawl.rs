use rand::Rng;
use std::collections::BTreeMap;
use stract::crawl_db::{CrawlDb, DomainId};
use stract::crawl_error::Error;
use stract::job::{JobResponse, UrlResponse};
use stract::memmap_db::MemmapDb;
use stract::sample::{lowest_sample, weighted_sample};
use stract::url_state::{DomainStatus, UrlState, UrlStatus};
use stract::web_url::{AsId, Domain, Url};

fn draw(weight: u64) -> u64 {
    let chance: f64 = rand::thread_rng().gen();
    let priority = -(chance.abs() + f64::EPSILON).ln() / (weight as f64 + 1.0);
    (priority + 0.0).to_bits()
}

fn heavy_first(weight: u64) -> u64 {
    u64::MAX - weight
}

fn url(text: &str) -> Url {
    Url::parse(text).unwrap()
}

fn domain(text: &str) -> Domain {
    Domain::of(&url(text))
}

fn domain_id(text: &str) -> u128 {
    domain(text).as_id()
}

fn discovery(of: &str, urls: &[&str]) -> JobResponse {
    JobResponse {
        domain: domain(of),
        url_responses: vec![],
        discovered_urls: urls.iter().map(|text| url(text)).collect(),
    }
}

fn visits(of: &str, url_responses: Vec<UrlResponse>) -> JobResponse {
    JobResponse { domain: domain(of), url_responses, discovered_urls: vec![] }
}

fn url_state(db: &mut CrawlDb, text: &str) -> Option<UrlState> {
    let states = db.urls.get(domain_id(text));
    states.get(&url(text).as_id()).copied()
}

struct Files {
    domains: Vec<u8>,
    urls: Vec<u8>,
}

impl Files {
    fn save(&mut self, db: &mut CrawlDb) {
        self.domains.extend(db.domain_ids.take_unsaved());
        self.urls.extend(db.url_ids.take_unsaved());
    }
}

fn no_files() -> Files {
    Files { domains: vec![], urls: vec![] }
}

#[test]
fn sampling() {
    let items: Vec<(usize, u64)> = vec![(0, 1), (1, 2), (2, 3), (3, 4)];
    let sampled = weighted_sample(&items, 10, &draw);
    assert_eq!(sampled.len(), items.len());

    let items: Vec<(usize, u64)> = vec![(0, 1), (1, 2), (2, 3), (3, 4)];
    let sampled = weighted_sample(&items, 1, &draw);
    assert_eq!(sampled.len(), 1);

    let items: Vec<(usize, u64)> = vec![(0, 1), (1, 2), (2, 3), (3, 4)];
    let sampled = weighted_sample(&items, 0, &draw);
    assert_eq!(sampled.len(), 0);

    let items: Vec<(usize, u64)> = vec![(0, 1000000000), (1, 2)];
    let sampled = weighted_sample(&items, 1, &draw);
    assert_eq!(sampled.len(), 1);
    assert_eq!(sampled[0], 0);
}

#[test]
fn memmap_db() {
    let mut db = MemmapDb::open();
    let mut file: Vec<u8> = vec![];

    assert!(!db.contains(123));
    assert!(db.get(123, &file).is_none());

    db.put(123, "hello").unwrap();
    db.commit();
    file.extend(db.take_unsaved());

    assert!(db.contains(123));
    assert_eq!(db.get(123, &file).unwrap(), "hello");

    db.put(321, "world").unwrap();

    assert!(db.contains(321));
    assert!(db.get(321, &file).is_none());

    db.commit();
    file.extend(db.take_unsaved());

    assert!(db.contains(321));
    assert_eq!(db.get(321, &file).unwrap(), "world");
}

#[test]
fn simple_politeness() {
    let mut db = CrawlDb::open();

    db.insert_seed_urls(&vec![Url::parse("https://example.com").unwrap()]).unwrap();

    let domain = Domain::of(&Url::parse("https://example.com").unwrap());
    let domain_id: DomainId = db.domain_ids.id(&domain).unwrap().into();
    let sample = db.sample_domains(128, &draw).unwrap();

    assert_eq!(sample.len(), 1);
    assert_eq!(&sample[0], &domain_id);
    assert_eq!(
        db.domain_state.get(&domain_id.0).unwrap().status,
        DomainStatus::CrawlInProgress
    );

    let new_sample = db.sample_domains(128, &draw).unwrap();
    assert_eq!(new_sample.len(), 0);
}

#[test]
fn a_sample_holds_the_lowest_priorities() {
    let mut picks = lowest_sample(&vec![7, 3, 9, 1, 5, 3], 3);
    picks.sort();
    assert_eq!(picks, vec![1, 3, 5]);
    assert_eq!(lowest_sample(&vec![], 3).len(), 0);
    assert_eq!(lowest_sample(&vec![4, 2], 1), vec![1]);
    assert_eq!(lowest_sample(&vec![2, 2], 1), vec![0]);
    let mut all = lowest_sample(&(0..100u64).rev().collect(), 40);
    all.sort();
    assert_eq!(all, (60..100).collect::<Vec<usize>>());
}

#[test]
fn heavier_items_come_first_where_priorities_say_so() {
    let items = vec![('a', 3), ('b', 9), ('c', 1), ('d', 5)];
    let mut sampled = weighted_sample(&items, 2, &heavy_first);
    sampled.sort();
    assert_eq!(sampled, vec!['b', 'd']);
}

#[test]
fn values_are_read_as_encoded() {
    let mut db = MemmapDb::open();
    db.put(1, "ab").unwrap();
    db.put(2, "").unwrap();
    db.put(1, "\u{e9}").unwrap();
    db.commit();
    let file = db.take_unsaved();
    let expected: Vec<u8> = vec![
        2, 0, 0, 0, 0, 0, 0, 0, 97, 98, 0, 0, 0, 0, 0, 0, 0, 0, 2, 0, 0, 0, 0, 0, 0, 0, 195, 169,
    ];
    assert_eq!(file, expected);
    assert_eq!(db.get(1, &file).unwrap(), "\u{e9}");
    assert_eq!(db.get(2, &file).unwrap(), "");
    assert!(db.get(1, &file[..27]).is_none());
    assert_eq!(db.get(2, &file[..18]).unwrap(), "");
    assert!(db.is_saved(2, &file));
    assert!(!db.is_saved(3, &file));
    assert!(db.take_unsaved().is_empty());
}

#[test]
fn seeds_are_fresh_and_known() {
    let mut db = CrawlDb::open();
    db.insert_urls(&vec![discovery("https://a.com", &["https://b.com/x", "https://b.com/x"])])
        .unwrap();
    assert_eq!(url_state(&mut db, "https://b.com/x").unwrap().weight, 2);
    db.insert_seed_urls(&vec![url("https://b.com/x"), url("https://c.com")]).unwrap();
    assert_eq!(
        url_state(&mut db, "https://b.com/x"),
        Some(UrlState { weight: 0, status: UrlStatus::Pending })
    );
    assert_eq!(
        url_state(&mut db, "https://c.com"),
        Some(UrlState { weight: 0, status: UrlStatus::Pending })
    );
    assert_eq!(db.domain_state.get(&domain_id("https://b.com")).unwrap().weight, 2);
    assert_eq!(db.domain_state.get(&domain_id("https://c.com")).unwrap().weight, 0);
    assert_eq!(db.domain_state.len(), 2);
}

#[test]
fn discoveries_from_other_domains_weigh() {
    let mut db = CrawlDb::open();
    db.insert_urls(&vec![
        discovery("https://a.com", &["https://b.com/1", "https://a.com/own", "https://b.com/2"]),
        discovery("https://c.com", &["https://b.com/1", "https://b.com/1"]),
        discovery("https://b.com", &["https://b.com/1", "https://b.com/3"]),
    ])
    .unwrap();
    assert_eq!(url_state(&mut db, "https://b.com/1").unwrap().weight, 3);
    assert_eq!(url_state(&mut db, "https://b.com/2").unwrap().weight, 1);
    assert_eq!(url_state(&mut db, "https://b.com/3").unwrap().weight, 0);
    assert_eq!(url_state(&mut db, "https://a.com/own").unwrap().weight, 0);
    assert_eq!(url_state(&mut db, "https://b.com/4"), None);
    assert_eq!(db.domain_state.get(&domain_id("https://b.com")).unwrap().weight, 3);
    assert_eq!(db.domain_state.get(&domain_id("https://a.com")).unwrap().weight, 0);
    assert!(db.domain_state.get(&domain_id("https://c.com")).is_none());

    db.insert_urls(&vec![discovery("https://a.com", &["https://b.com/2"])]).unwrap();
    assert_eq!(url_state(&mut db, "https://b.com/2").unwrap().weight, 2);
    assert_eq!(db.domain_state.get(&domain_id("https://b.com")).unwrap().weight, 3);
}

#[test]
fn discoveries_add_up_in_any_order() {
    let first = || discovery("https://x.com", &["https://a.com/1", "https://a.com/2"]);
    let second = || discovery("https://y.com", &["https://b.com/1", "https://a.com/1"]);
    let mut apart = CrawlDb::open();
    apart.insert_urls(&vec![first()]).unwrap();
    apart.insert_urls(&vec![second()]).unwrap();
    let mut joined = CrawlDb::open();
    joined.insert_urls(&vec![second(), first()]).unwrap();
    for text in ["https://a.com/1", "https://a.com/2", "https://b.com/1"] {
        assert_eq!(url_state(&mut apart, text), url_state(&mut joined, text));
    }
    assert_eq!(url_state(&mut joined, "https://a.com/1").unwrap().weight, 2);
    assert_eq!(apart.domain_state, joined.domain_state);
    assert_eq!(joined.domain_state.get(&domain_id("https://a.com")).unwrap().weight, 2);
}

#[test]
fn the_last_redirect_is_where_a_url_leads() {
    let mut db = CrawlDb::open();
    let redirect = |to: &str| UrlResponse::Redirected {
        url: url("https://a.com/r"),
        new_url: url(to),
    };
    db.update_url_status(&vec![
        visits("https://a.com", vec![redirect("https://b.com/1"), redirect("https://c.com/2")]),
        visits("https://b.com", vec![UrlResponse::Success { url: url("https://b.com/1") }]),
        visits("https://a.com", vec![redirect("https://d.com/3")]),
    ])
    .unwrap();
    let to = db.redirects.get(&url("https://a.com/r"), None).unwrap().unwrap();
    assert_eq!(to.as_str(), "https://d.com/3");
    assert_eq!(url_state(&mut db, "https://a.com/r"), None);
}

#[test]
fn visits_settle_urls() {
    let mut db = CrawlDb::open();
    db.insert_urls(&vec![discovery("https://a.com", &["https://b.com/1", "https://b.com/r"])])
        .unwrap();
    db.update_url_status(&vec![
        visits(
            "https://b.com",
            vec![
                UrlResponse::Failed { url: url("https://b.com/1"), status_code: Some(500) },
                UrlResponse::Success { url: url("https://b.com/1") },
                UrlResponse::Redirected {
                    url: url("https://b.com/r"),
                    new_url: url("https://c.com/to"),
                },
                UrlResponse::Success { url: url("https://b.com/2") },
            ],
        ),
        visits(
            "https://b.com",
            vec![UrlResponse::Failed { url: url("https://b.com/2"), status_code: None }],
        ),
    ])
    .unwrap();
    assert_eq!(
        url_state(&mut db, "https://b.com/1"),
        Some(UrlState { weight: 1, status: UrlStatus::Done })
    );
    assert_eq!(
        url_state(&mut db, "https://b.com/2"),
        Some(UrlState { weight: 0, status: UrlStatus::Failed { status_code: None } })
    );
    assert_eq!(
        url_state(&mut db, "https://b.com/r"),
        Some(UrlState { weight: 1, status: UrlStatus::Pending })
    );
    assert_eq!(url_state(&mut db, "https://c.com/to"), None);
    assert!(db.domain_state.get(&domain_id("https://c.com")).is_none());
    assert_eq!(db.domain_state.get(&domain_id("https://b.com")).unwrap().weight, 1);
    let to = db.redirects.get(&url("https://b.com/r"), None).unwrap();
    assert_eq!(to.unwrap().as_str(), "https://c.com/to");
    let mut files = no_files();
    files.save(&mut db);
    let to: Option<Url> = db.url_ids.value(url("https://c.com/to").as_id(), &files.urls);
    assert_eq!(to.unwrap().as_str(), "https://c.com/to");
}

#[test]
fn a_status_can_be_set() {
    let mut db = CrawlDb::open();
    db.set_domain_status(&domain("https://a.com"), DomainStatus::CrawlInProgress).unwrap();
    assert_eq!(db.sample_domains(5, &draw).unwrap().len(), 0);
    db.set_domain_status(&domain("https://a.com"), DomainStatus::Pending).unwrap();
    let sampled = db.sample_domains(5, &draw).unwrap();
    assert_eq!(sampled, vec![DomainId(domain_id("https://a.com"))]);
}

#[test]
fn heavy_domains_are_handed_out_first() {
    let mut db = CrawlDb::open();
    db.insert_urls(&vec![
        discovery("https://x.com", &["https://a.com", "https://b.com", "https://b.com"]),
        discovery("https://y.com", &["https://c.com"]),
        discovery("https://z.com", &["https://c.com", "https://c.com/2", "https://c.com"]),
    ])
    .unwrap();
    let first = db.sample_domains(1, &heavy_first).unwrap();
    assert_eq!(first, vec![DomainId(domain_id("https://c.com"))]);
    let second = db.sample_domains(1, &heavy_first).unwrap();
    assert_eq!(second, vec![DomainId(domain_id("https://b.com"))]);
    let third = db.sample_domains(9, &heavy_first).unwrap();
    assert_eq!(third, vec![DomainId(domain_id("https://a.com"))]);
}

#[test]
fn jobs_hold_pending_urls() {
    let mut db = CrawlDb::open();
    let mut files = no_files();
    db.insert_urls(&vec![
        discovery("https://x.com", &["https://a.com/1", "https://a.com/1", "https://a.com/2"]),
        discovery("https://a.com", &["https://a.com/3"]),
    ])
    .unwrap();
    let a = DomainId(domain_id("https://a.com"));
    assert!(!db.is_domain_saved(a, &files.domains));
    files.save(&mut db);
    assert!(db.is_domain_saved(a, &files.domains));
    assert!(!db.is_domain_saved(DomainId(1), &files.domains));

    let domains = db.sample_domains(1, &heavy_first).unwrap();
    assert_eq!(domains, vec![a]);
    let jobs = db.prepare_jobs(&domains, 2, &heavy_first, &files.domains, &files.urls).unwrap();
    assert_eq!(jobs.len(), 1);
    assert_eq!(jobs[0].domain.as_str(), "a.com");
    assert!(!jobs[0].fetch_sitemap);
    let mut texts: Vec<&str> = jobs[0].urls.iter().map(|url| url.as_str()).collect();
    texts.sort();
    assert_eq!(texts, vec!["https://a.com/1", "https://a.com/2"]);
    assert_eq!(url_state(&mut db, "https://a.com/1").unwrap().status, UrlStatus::Crawling);
    assert_eq!(url_state(&mut db, "https://a.com/1").unwrap().weight, 2);
    assert_eq!(url_state(&mut db, "https://a.com/3").unwrap().status, UrlStatus::Pending);
    assert_eq!(db.domain_state.get(&a.0).unwrap().weight, 0);
    assert_eq!(db.domain_state.get(&a.0).unwrap().status, DomainStatus::CrawlInProgress);

    let jobs = db
        .prepare_jobs(&vec![a, a], 5, &heavy_first, &files.domains, &files.urls)
        .unwrap();
    assert_eq!(jobs.len(), 2);
    assert_eq!(jobs[0].urls.len(), 1);
    assert_eq!(jobs[0].urls[0].as_str(), "https://a.com/3");
    assert_eq!(jobs[1].urls.len(), 0);
}

#[test]
fn the_weight_of_a_domain_follows_its_pending_urls() {
    let mut db = CrawlDb::open();
    let mut files = no_files();
    db.insert_urls(&vec![discovery(
        "https://x.com",
        &["https://a.com/1", "https://a.com/1", "https://a.com/1", "https://a.com/2"],
    )])
    .unwrap();
    files.save(&mut db);
    let a = DomainId(domain_id("https://a.com"));
    assert_eq!(db.domain_state.get(&a.0).unwrap().weight, 3);
    db.prepare_jobs(&vec![a], 1, &heavy_first, &files.domains, &files.urls).unwrap();
    assert_eq!(db.domain_state.get(&a.0).unwrap().weight, 1);
    db.prepare_jobs(&vec![a], 1, &heavy_first, &files.domains, &files.urls).unwrap();
    assert_eq!(db.domain_state.get(&a.0).unwrap().weight, 0);
}

#[test]
fn seeds_can_be_crawled_once_they_are_saved() {
    let mut db = CrawlDb::open();
    let mut files = no_files();
    db.insert_seed_urls(&vec![url("https://a.com/seed")]).unwrap();
    files.save(&mut db);
    let a = DomainId(domain_id("https://a.com"));
    assert!(!db.is_domain_saved(a, &files.domains));
    db.insert_urls(&vec![]).unwrap();
    files.save(&mut db);
    assert!(db.is_domain_saved(a, &files.domains));
    let jobs = db.prepare_jobs(&vec![a], 1, &draw, &files.domains, &files.urls).unwrap();
    assert_eq!(jobs[0].urls[0].as_str(), "https://a.com/seed");
}

#[test]
fn a_url_that_is_not_saved_stops_its_job() {
    let mut db = CrawlDb::open();
    let mut files = no_files();
    db.insert_urls(&vec![discovery("https://x.com", &["https://a.com/1"])]).unwrap();
    files.save(&mut db);
    db.insert_seed_urls(&vec![url("https://a.com/seed")]).unwrap();
    files.save(&mut db);
    let a = DomainId(domain_id("https://a.com"));
    assert_eq!(
        db.prepare_jobs(&vec![a], 2, &draw, &files.domains, &files.urls).unwrap_err(),
        Error::TextNotSaved
    );
    assert_eq!(url_state(&mut db, "https://a.com/1").unwrap().status, UrlStatus::Pending);
    assert_eq!(db.domain_state.get(&a.0).unwrap().weight, 1);
    let jobs = db.prepare_jobs(&vec![a], 0, &draw, &files.domains, &files.urls).unwrap();
    assert_eq!(jobs[0].urls.len(), 0);
    let jobs = db.prepare_jobs(&vec![a], 1, &heavy_first, &files.domains, &files.urls).unwrap();
    assert_eq!(jobs[0].urls[0].as_str(), "https://a.com/1");
}

#[test]
fn a_started_job_holds_the_given_urls() {
    let mut db = CrawlDb::open();
    let mut files = no_files();
    db.insert_urls(&vec![discovery(
        "https://x.com",
        &["https://a.com/1", "https://a.com/2", "https://a.com/2"],
    )])
    .unwrap();
    files.save(&mut db);
    let a = DomainId(domain_id("https://a.com"));
    let sampled = vec![url("https://a.com/2").as_id()];
    let job = db.start_job(a, &sampled, &files.domains, &files.urls).unwrap();
    assert_eq!(job.domain.as_str(), "a.com");
    assert_eq!(job.urls.len(), 1);
    assert_eq!(job.urls[0].as_str(), "https://a.com/2");
    assert_eq!(url_state(&mut db, "https://a.com/2").unwrap().status, UrlStatus::Crawling);
    assert_eq!(db.domain_state.get(&a.0).unwrap().weight, 1);
    assert_eq!(
        db.start_job(a, &vec![3], &files.domains, &files.urls).unwrap_err(),
        Error::TextNotSaved
    );
}

#[test]
fn the_urls_of_a_job_are_read_by_parsing() {
    let mut db = CrawlDb::open();
    let mut files = no_files();
    db.insert_urls(&vec![discovery("https://x.com", &["file:c:\n%2e%2e"])]).unwrap();
    db.url_ids.bulk_insert_ids(&vec![(Url::from_text("no url".to_string()), 5)]).unwrap();
    files.save(&mut db);
    let nameless = DomainId(domain_id("file:c:\n%2e%2e"));
    assert_eq!(
        db.start_job(nameless, &vec![5, 6], &files.domains, &files.urls).unwrap_err(),
        Error::InvalidUrl
    );
    assert_eq!(
        db.start_job(nameless, &vec![6, 5], &files.domains, &files.urls).unwrap_err(),
        Error::TextNotSaved
    );
    let jobs =
        db.prepare_jobs(&vec![nameless], 3, &draw, &files.domains, &files.urls).unwrap();
    assert_eq!(jobs[0].domain.as_str(), "");
    assert_eq!(jobs[0].urls.len(), 1);
    assert_eq!(jobs[0].urls[0].as_str(), "file:///c:/");
}

#[test]
fn domains_that_are_not_concerned_stay_on_disk() {
    let mut db = CrawlDb::open();
    let mut files = no_files();
    let untouched = domain_id("https://example.com");
    assert!(db.urls.needs_page(untouched));
    db.insert_seed_urls(&vec![url("https://a.com")]).unwrap();
    db.insert_urls(&vec![discovery("https://x.com", &["https://a.com/1"])]).unwrap();
    db.update_url_status(&vec![visits(
        "https://a.com",
        vec![UrlResponse::Success { url: url("https://a.com") }],
    )])
    .unwrap();
    files.save(&mut db);
    let a = DomainId(domain_id("https://a.com"));
    db.prepare_jobs(&vec![a], 1, &draw, &files.domains, &files.urls).unwrap();
    assert!(db.urls.needs_page(untouched));
    assert!(!db.urls.needs_page(a.0));
    assert!(!db.urls.flush().contains_key(&untouched));
}

#[test]
fn a_domain_that_is_crawled_stays_so() {
    let mut db = CrawlDb::open();
    db.insert_seed_urls(&vec![url("https://a.com")]).unwrap();
    assert_eq!(db.sample_domains(1, &draw).unwrap().len(), 1);
    db.insert_seed_urls(&vec![url("https://a.com/again")]).unwrap();
    db.insert_urls(&vec![discovery("https://b.com", &["https://a.com/more"])]).unwrap();
    db.update_url_status(&vec![visits(
        "https://a.com",
        vec![UrlResponse::Success { url: url("https://a.com") }],
    )])
    .unwrap();
    assert_eq!(db.sample_domains(9, &draw).unwrap().len(), 0);
    assert_eq!(url_state(&mut db, "https://a.com/again").unwrap().status, UrlStatus::Pending);
}

#[test]
fn pages_that_were_written_out_come_back() {
    let mut db = CrawlDb::open();
    let mut disk = BTreeMap::new();
    let urls: Vec<Url> = (0..10_001).map(|i| url(&format!("https://d{}.com/", i))).collect();
    db.insert_seed_urls(&urls).unwrap();
    disk.extend(db.urls.flush());
    assert_eq!(disk.len(), 5_000);
    let first = domain_id("https://d0.com");
    assert!(disk.contains_key(&first));
    assert!(db.urls.needs_page(first));
    assert!(!db.urls.needs_page(domain_id("https://d10000.com")));
    db.urls.stage(first, disk.get(&first).unwrap().clone());
    assert!(!db.urls.needs_page(first));
    assert_eq!(
        url_state(&mut db, "https://d0.com/"),
        Some(UrlState { weight: 0, status: UrlStatus::Pending })
    );
}

#[test]
fn what_is_noted_of_a_domain_on_disk_is_written_again() {
    let mut db = CrawlDb::open();
    let mut disk = BTreeMap::new();
    let urls: Vec<Url> = (0..10_001).map(|i| url(&format!("https://d{}.com/", i))).collect();
    db.insert_seed_urls(&urls).unwrap();
    disk.extend(db.urls.flush());
    let first = domain_id("https://d0.com");
    db.urls.stage(first, disk.get(&first).unwrap().clone());
    db.insert_urls(&vec![discovery("https://x.com", &["https://d0.com/", "https://d0.com/new"])])
        .unwrap();
    disk.extend(db.urls.flush());
    assert!(!db.urls.needs_page(first));
    let others: Vec<Url> = (0..10_001).map(|i| url(&format!("https://e{}.com/", i))).collect();
    db.insert_seed_urls(&others).unwrap();
    disk.extend(db.urls.flush());
    assert!(db.urls.needs_page(first));
    db.urls.stage(first, disk.get(&first).unwrap().clone());
    assert_eq!(url_state(&mut db, "https://d0.com/").unwrap().weight, 1);
    assert_eq!(url_state(&mut db, "https://d0.com/new").unwrap().weight, 1);
}
