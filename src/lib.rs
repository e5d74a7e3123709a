//! Resumable, bounded-concurrency ingestion of intraday market data.
//!
//! The modules hold the decisions of the pipeline as verified code: the
//! checkpoint ledger and its persistence format, the dispatch scheduler with
//! its circuit breaker and cancellation, and the fetch policy (paging
//! windows, rate-limit retries). The program around them performs the
//! network, database and file work.
pub mod config;
pub mod dump_routines;
pub mod eodhd;
pub mod models;
