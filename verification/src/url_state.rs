//! What is known of a URL and of a domain.

use std::collections::BTreeMap;
use vstd::prelude::*;

verus! {

/// The states of the URLs of one domain, by URL identifier.
pub type UrlStates = BTreeMap<u128, UrlState>;

/// How far a URL has come.
#[derive(Clone, Copy, Debug, PartialEq, Eq, Structural)]
pub enum UrlStatus {
    Pending,
    Crawling,
    Failed { status_code: Option<u16> },
    Done,
}

/// How far a domain has come.
#[derive(Clone, Copy, Debug, PartialEq, Eq, Structural)]
pub enum DomainStatus {
    Pending,
    CrawlInProgress,
}

/// The largest weight. Weights are whole numbers held as double-precision numbers on disk; from
/// here on adding one no longer changes such a number.
pub const MAX_WEIGHT: u64 = 9_007_199_254_740_992;

/// State of a URL.
#[derive(Clone, Copy, Debug, PartialEq, Eq, Structural)]
pub struct UrlState {
    pub weight: u64,
    pub status: UrlStatus,
}

/// State of a domain.
#[derive(Clone, Copy, Debug, PartialEq, Eq, Structural)]
pub struct DomainState {
    pub weight: u64,
    pub status: DomainStatus,
}

/// The state of a URL that has not been seen before.
pub open spec fn fresh_url() -> UrlState {
    UrlState { weight: 0, status: UrlStatus::Pending }
}

/// The state of a domain that has not been seen before.
pub open spec fn fresh_domain() -> DomainState {
    DomainState { weight: 0, status: DomainStatus::Pending }
}

} // verus!
