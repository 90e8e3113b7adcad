//! Structured documentation crawling: configuration, page extraction into
//! search records, crawl frontier decisions and index upload planning.

pub mod config;
pub mod crawl;
pub mod digest;
pub mod dom;
pub mod extract;
pub mod model;
pub mod sink;
pub mod text;
pub mod web;
