//! Identifiers, quantities, transactions and portfolio definitions.
use vstd::prelude::*;

use crate::decimal::Dec;

verus! {

/// A ledger account name.
#[derive(Clone, Debug, PartialEq, Eq, PartialOrd, Ord, Hash)]
pub struct Account(pub String);

/// A commodity or currency code.
#[derive(Clone, Debug, PartialEq, Eq, PartialOrd, Ord, Hash)]
pub struct Commodity(pub String);

/// An ISO-8601 date; dates order as their text does.
#[derive(Clone, Debug, PartialEq, Eq, PartialOrd, Ord, Hash)]
pub struct Date(pub String);

/// The identity of a portfolio.
#[derive(Clone, Debug, PartialEq, Eq, PartialOrd, Ord, Hash)]
pub struct PortId(pub String);

/// The price of one unit of a commodity.
#[derive(Clone, Copy, Debug, PartialEq, Eq, Hash, Structural)]
pub struct CommodityPrice(pub Dec);

/// An amount of money, or a volume of a commodity.
#[derive(Clone, Copy, Debug, PartialEq, Eq, Hash, Structural)]
pub struct CommodityAmount(pub Dec);

impl Account {
    pub fn duplicate(&self) -> (r: Account)
        ensures
            r.0@ == self.0@,
    {
        Account(self.0.clone())
    }
}

impl Commodity {
    pub fn duplicate(&self) -> (r: Commodity)
        ensures
            r.0@ == self.0@,
    {
        Commodity(self.0.clone())
    }
}

impl Date {
    pub fn duplicate(&self) -> (r: Date)
        ensures
            r.0@ == self.0@,
    {
        Date(self.0.clone())
    }
}

/// Missing fees count as zero.
pub open spec fn amount_or_zero(a: Option<CommodityAmount>) -> Dec {
    match a {
        Some(x) => x.0,
        None => Dec { mantissa: 0, scale: 0 },
    }
}

pub open spec fn opt_wf(a: Option<CommodityAmount>) -> bool {
    match a {
        Some(x) => x.0.wf(),
        None => true,
    }
}

pub fn fee_or_zero(a: &Option<CommodityAmount>) -> (r: Dec)
    requires
        opt_wf(*a),
    ensures
        r == amount_or_zero(*a),
        r.wf(),
{
    match a {
        Some(x) => x.0,
        None => Dec::zero(),
    }
}

/// Cash paid into the portfolio.
#[derive(Clone, Debug)]
pub struct Deposit {
    pub date: Date,
    pub amount: CommodityAmount,
    pub comment: Option<String>,
}

/// Cash taken out of the portfolio.
#[derive(Clone, Debug)]
pub struct Withdraw {
    pub date: Date,
    pub amount: CommodityAmount,
    pub comment: Option<String>,
}

/// A purchase of `volume` units of `commodity` at `price` each.
#[derive(Clone, Debug)]
pub struct Buy {
    pub date: Date,
    pub commodity: Commodity,
    pub price: CommodityPrice,
    pub volume: CommodityAmount,
    pub commission: Option<CommodityAmount>,
    pub vat: Option<CommodityAmount>,
    pub comment: Option<String>,
}

/// A sale of `volume` units of `commodity` at `price` each, settled in cash on
/// `settlement_date` (the trade date where it is absent).
#[derive(Clone, Debug)]
pub struct Sell {
    pub date: Date,
    pub settlement_date: Option<Date>,
    pub commodity: Commodity,
    pub price: CommodityPrice,
    pub volume: CommodityAmount,
    pub commission: Option<CommodityAmount>,
    pub vat: Option<CommodityAmount>,
    pub comment: Option<String>,
}

/// A transaction of a cash-balance portfolio.
#[derive(Clone, Debug)]
pub enum Transaction {
    Deposit(Deposit),
    Withdraw(Withdraw),
    Buy(Buy),
    Sell(Sell),
}

impl Deposit {
    pub open spec fn wf(&self) -> bool {
        self.amount.0.wf()
    }
}

impl Withdraw {
    pub open spec fn wf(&self) -> bool {
        self.amount.0.wf()
    }
}

impl Buy {
    pub open spec fn wf(&self) -> bool {
        &&& self.price.0.wf()
        &&& self.volume.0.wf()
        &&& opt_wf(self.commission)
        &&& opt_wf(self.vat)
    }
}

impl Sell {
    pub open spec fn wf(&self) -> bool {
        &&& self.price.0.wf()
        &&& self.volume.0.wf()
        &&& opt_wf(self.commission)
        &&& opt_wf(self.vat)
    }
}

impl Transaction {
    /// Every quantity in it is in range.
    pub open spec fn wf(&self) -> bool {
        match self {
            Transaction::Deposit(t) => t.wf(),
            Transaction::Withdraw(t) => t.wf(),
            Transaction::Buy(t) => t.wf(),
            Transaction::Sell(t) => t.wf(),
        }
    }

    pub open spec fn spec_date(&self) -> Seq<char> {
        match self {
            Transaction::Deposit(t) => t.date.0@,
            Transaction::Withdraw(t) => t.date.0@,
            Transaction::Buy(t) => t.date.0@,
            Transaction::Sell(t) => t.date.0@,
        }
    }
}

/// A transaction that happens on a date.
pub trait DatedTransaction {
    spec fn dated(&self) -> Seq<char>;

    fn date(&self) -> (r: &Date)
        ensures
            r.0@ == self.dated(),
    ;
}

impl DatedTransaction for Deposit {
    open spec fn dated(&self) -> Seq<char> {
        self.date.0@
    }

    fn date(&self) -> (r: &Date) {
        &self.date
    }
}

impl DatedTransaction for Withdraw {
    open spec fn dated(&self) -> Seq<char> {
        self.date.0@
    }

    fn date(&self) -> (r: &Date) {
        &self.date
    }
}

impl DatedTransaction for Buy {
    open spec fn dated(&self) -> Seq<char> {
        self.date.0@
    }

    fn date(&self) -> (r: &Date) {
        &self.date
    }
}

impl DatedTransaction for Sell {
    open spec fn dated(&self) -> Seq<char> {
        self.date.0@
    }

    fn date(&self) -> (r: &Date) {
        &self.date
    }
}

impl DatedTransaction for Transaction {
    open spec fn dated(&self) -> Seq<char> {
        self.spec_date()
    }

    fn date(&self) -> (r: &Date) {
        match self {
            Transaction::Deposit(t) => &t.date,
            Transaction::Withdraw(t) => &t.date,
            Transaction::Buy(t) => &t.date,
            Transaction::Sell(t) => &t.date,
        }
    }
}

/// The accounts that a cash-balance portfolio books to, one per role.
#[derive(Clone, Debug)]
pub struct CashBalancePortfolioAccounts {
    pub cash_account: Account,
    pub cash_ar_account: Account,
    pub position_account: Account,
    pub net_investment_account: Account,
    pub conversion_account: Account,
    pub commission_account: Account,
    pub vat_account: Account,
    pub protfit_loss_account: Account,
}

/// A portfolio that holds cash in one base currency and positions in commodities.
#[derive(Clone, Debug)]
pub struct CashBalancePortfolio {
    pub port_id: PortId,
    pub base_currency: Commodity,
    pub accounts: CashBalancePortfolioAccounts,
}

/// The accounts of a spot portfolio.
#[derive(Clone, Debug)]
pub struct SpotPortfolioBookkeepingConfig {
    pub position_acct: Account,
    pub net_investment_acct: Account,
    pub conversion_acct: Account,
    pub commission_acct: Account,
    pub vat_acct: Account,
    pub protfit_loss_acct: Account,
}

/// A spot portfolio definition.
#[derive(Clone, Debug)]
pub struct SpotPortfolio {
    pub name: String,
    pub description: Option<String>,
    pub default_commodity: Commodity,
    pub bookkeeping_config: SpotPortfolioBookkeepingConfig,
}

} // verus!
