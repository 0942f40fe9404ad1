//! A web crawler library: URL filtering and de-duplication, robots.txt
//! rules, HTML text and link extraction, and the scheduling decisions of a
//! crawl, each with a machine-checked contract.

pub mod bignum;
pub mod config;
pub mod crawler;
pub mod deduper;
pub mod fetcher;
pub mod filter;
pub mod models;
pub mod parser;
pub mod robots;
pub mod storage;
pub mod text;
pub mod urls;
