//! A prediction-market exchange: participants declare belief ranges for
//! binary-outcome contracts, and the engine crosses those ranges into trades,
//! issuing conditional IOUs under a per-participant credit limit.

pub mod book;
pub mod declare;
pub mod exposure;
pub mod ledger;
pub mod market;
pub mod matching;
pub mod msgs;
pub mod names;
pub mod offers;
pub mod order;
pub mod replay;
pub mod report;
pub mod resolution;
pub mod session;
pub mod text;
pub mod types;
