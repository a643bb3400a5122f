//! Journal construction for cash-balance portfolios: FIFO cost-basis lots,
//! deterministic transaction ordering and balanced double-entry records.

pub mod categorize;
pub mod decimal;
pub mod hledger;
pub mod input;
pub mod inventory;
pub mod journal;
pub mod model;
pub mod sequencer;
