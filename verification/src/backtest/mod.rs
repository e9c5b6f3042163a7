//! The backtester: books, events, positions and exit policies, without its I/O.

pub mod auc;
pub mod book;
pub mod causal;
pub mod day;
pub mod dca;
pub mod entry_filter;
pub mod exits;
pub mod health;
pub mod kline;
pub mod merge;
pub mod metrics;
pub mod peak;
pub mod phase;
pub mod phase2;
pub mod position;
pub mod record;
pub mod replay;
pub mod trace;
pub mod trajectory;
pub mod variants;
