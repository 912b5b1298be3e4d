//! What is handed to crawlers and what comes back from them.

use crate::web_url::{Domain, Url};
use std::collections::VecDeque;
use vstd::prelude::*;

verus! {

/// URLs of one domain that are to be crawled.
#[derive(Debug)]
pub struct Job {
    pub domain: Domain,
    pub fetch_sitemap: bool,
    pub urls: VecDeque<Url>,
}

/// What became of a URL.
#[derive(Debug)]
pub enum UrlResponse {
    Success { url: Url },
    Failed { url: Url, status_code: Option<u16> },
    Redirected { url: Url, new_url: Url },
}

/// What came out of a job.
#[derive(Debug)]
pub struct JobResponse {
    pub domain: Domain,
    pub url_responses: Vec<UrlResponse>,
    pub discovered_urls: Vec<Url>,
}

impl UrlResponse {
    /// The URL that the response is about.
    pub open spec fn subject(&self) -> Url {
        match *self {
            UrlResponse::Success { url } => url,
            UrlResponse::Failed { url, status_code } => url,
            UrlResponse::Redirected { url, new_url } => url,
        }
    }

    /// The URL that the response is about.
    pub fn url(&self) -> (url: &Url)
        ensures
            *url == self.subject(),
            match *self {
                UrlResponse::Success { url: own } => *url == own,
                UrlResponse::Failed { url: own, status_code } => *url == own,
                UrlResponse::Redirected { url: own, new_url } => *url == own,
            },
    {
        match self {
            UrlResponse::Success { url } => url,
            UrlResponse::Failed { url, status_code: _ } => url,
            UrlResponse::Redirected { url, new_url: _ } => url,
        }
    }
}

} // verus!
