//! What the library promises of its operations as a whole, in terms of what goes in
//! and what comes out.

pub mod books;
pub mod canary;
pub mod exits;
pub mod features;
pub mod filters;
pub mod judging;
pub mod live;
pub mod maker;
pub mod names;
pub mod numbers;
pub mod numerals;
pub mod peaks;
pub mod policies;
pub mod records;
pub mod replays;
pub mod settings;
pub mod startup;
pub mod tallies;
pub mod texts;
