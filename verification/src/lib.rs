//! Storage core of a web search engine.
//!
//! * [`crawl_db`] keeps the state of a crawl: which domains and URLs are known, how much each
//!   of them matters, and which of them is handed out next.
//! * [`store_writer`] collects the edges of a web graph and hands them out in order.
//! * [`crawl_laws`] and [`store_laws`] say what holds across operations; [`crawl_outcomes`],
//!   [`response_outcomes`], [`registration_outcomes`] and [`edge_outcomes`] say what each
//!   operation comes to, told by what is handed in and what is there before and after.
//! * [`entity_image`] and [`index_files`] hold small rules of the frontend and of the index.

pub mod cache;
pub mod codec;
pub mod grouping;
pub mod joined;
pub mod keys;

pub mod crawl_db;
pub mod crawl_error;
pub mod crawl_laws;
pub mod crawl_outcomes;
pub mod digest;
pub mod discovery;
pub mod edge_outcomes;
pub mod entity_image;
pub mod id_table;
pub mod index_files;
pub mod memmap_db;
pub mod job;
pub mod pending;
pub mod redirect_db;
pub mod registration_outcomes;
pub mod response_outcomes;
pub mod sample;
pub mod store_laws;
pub mod store_writer;
pub mod url_state;
pub mod url_state_db;
pub mod visits;
pub mod web_url;
