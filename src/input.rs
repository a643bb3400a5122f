//! The records that a journal is built from.
use vstd::prelude::*;

use crate::model::{Buy, CashBalancePortfolio, Commodity, Deposit, PortId, Sell, Withdraw};

verus! {

/// Why input could not be read.
#[derive(Clone, Debug)]
pub enum ImportError {
    /// The file could not be read; the text says why.
    FileIO(String),
    /// A record is malformed; the text says why.
    ParseError(String),
}

/// One input record.
#[derive(Clone, Debug)]
pub enum Resource {
    CashBalancePortfolio(Box<CashBalancePortfolio>),
    Commodity(Commodity),
    CommodityList(Vec<Commodity>),
    Deposit(PortfolioScopedResource<Deposit>),
    Withdraw(PortfolioScopedResource<Withdraw>),
    Buy(PortfolioScopedResource<Buy>),
    Sell(PortfolioScopedResource<Sell>),
}

/// A record that belongs to the portfolio `port_id`.
#[derive(Clone, Debug)]
pub struct PortfolioScopedResource<T> {
    pub port_id: PortId,
    pub detail: T,
}

impl Resource {
    /// Every quantity in it is in range.
    pub open spec fn wf(&self) -> bool {
        match self {
            Resource::Deposit(s) => s.detail.wf(),
            Resource::Withdraw(s) => s.detail.wf(),
            Resource::Buy(s) => s.detail.wf(),
            Resource::Sell(s) => s.detail.wf(),
            _ => true,
        }
    }
}

pub open spec fn resources_wf(rs: Seq<Resource>) -> bool {
    forall|i: int| 0 <= i < rs.len() ==> (#[trigger] rs[i]).wf()
}

} // verus!
