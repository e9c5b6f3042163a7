//! Trading-bot core: exit decisions, market-book replay and configuration rules
//! stated as contracts and proved.

pub mod b3_live;
pub mod b3_maker;
pub mod b3_startup;
pub mod backtest;
pub mod bbo_dump;
pub mod canary;
pub mod capa_b;
pub mod config;
pub mod dates;
pub mod decimal;
pub mod json;
pub mod laws;
pub mod numeral;
pub mod order;
pub mod strategy_replay;
pub mod text;
pub mod wide;
