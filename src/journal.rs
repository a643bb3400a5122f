//! Journal entries and the rules that turn the transactions of a cash-balance
//! portfolio into them.
use vstd::prelude::*;

use crate::decimal::{decimal_text, to_text, Dec};
use crate::inventory::{
    fifo_take, lemma_fifo_take_conserves, lots_from, lots_ok, lots_view, FifoInventory, Inventory, Lot, LotView, PopError, Take,
};
use crate::model::{
    amount_or_zero, PortId, fee_or_zero, Account, Buy, CashBalancePortfolio, Commodity, CommodityAmount,
    Date, Deposit, Sell, Transaction, Withdraw,
};
use crate::categorize::{
    categorize_resources, find_group, group_ids_view, last_definition, lemma_transactions_wf,
    port_ids_view, portfolio_ids, transaction_ids, transactions_for, CategorizedResources,
};
use crate::input::{resources_wf, Resource};
use crate::sequencer::{
    dates_of, is_processing_order, lemma_processing_order_unique, processing_order,
};

verus! {

/// One leg of an entry: an account and, except for a balancing leg, an amount.
#[derive(Clone, Debug)]
pub struct Posting {
    pub account: Account,
    pub amount: Option<(Commodity, CommodityAmount)>,
    pub comment: Option<String>,
}

pub struct PostingView {
    pub account: Seq<char>,
    pub amount: Option<(Seq<char>, Dec)>,
    pub comment: Option<Seq<char>>,
}

impl View for Posting {
    type V = PostingView;

    open spec fn view(&self) -> PostingView {
        PostingView {
            account: self.account.0@,
            amount: match self.amount {
                Some(a) => Some((a.0.0@, a.1.0)),
                None => None,
            },
            comment: match self.comment {
                Some(c) => Some(c@),
                None => None,
            },
        }
    }
}

impl Posting {
    /// A posting to `account` with no amount and no comment.
    pub fn new(account: Account) -> (r: Posting)
        ensures
            r@ == (PostingView { account: account.0@, amount: None, comment: None }),
    {
        Posting { account, amount: None, comment: None }
    }

    pub fn with_amount(self, amount: (Commodity, CommodityAmount)) -> (r: Posting)
        ensures
            r@ == (PostingView { amount: Some((amount.0.0@, amount.1.0)), ..self@ }),
    {
        Posting { account: self.account, amount: Some(amount), comment: self.comment }
    }

    pub fn with_comment(self, comment: String) -> (r: Posting)
        ensures
            r@ == (PostingView { comment: Some(comment@), ..self@ }),
    {
        Posting { account: self.account, amount: self.amount, comment: Some(comment) }
    }
}

/// A dated, described set of postings, with the lots held after it where it
/// changes a position.
#[derive(Clone, Debug)]
pub struct JournalEntry {
    pub date: Date,
    pub description: String,
    pub postings: Vec<Posting>,
    pub inventory: Option<Vec<Lot>>,
}

pub struct EntryView {
    pub date: Seq<char>,
    pub description: Seq<char>,
    pub postings: Seq<PostingView>,
    pub inventory: Option<Seq<LotView>>,
}

pub open spec fn postings_view(v: Seq<Posting>) -> Seq<PostingView> {
    v.map_values(|p: Posting| p@)
}

impl View for JournalEntry {
    type V = EntryView;

    open spec fn view(&self) -> EntryView {
        EntryView {
            date: self.date.0@,
            description: self.description@,
            postings: postings_view(self.postings@),
            inventory: match self.inventory {
                Some(v) => Some(lots_view(v@)),
                None => None,
            },
        }
    }
}

pub open spec fn entries_view(v: Seq<JournalEntry>) -> Seq<EntryView> {
    v.map_values(|e: JournalEntry| e@)
}

/// Why a journal could not be built.
#[derive(Clone, Debug)]
pub enum JournalError {
    /// A sale asks for more of `commodity` than the lots hold.
    InsufficientInventory {
        commodity: Commodity,
        requested: CommodityAmount,
        available: CommodityAmount,
    },
    /// An amount cannot be written exactly.
    OutOfRange,
    /// A purchase of a volume that is not above zero.
    InvalidVolume,
}

pub enum JournalFailure {
    InsufficientInventory { commodity: Seq<char>, requested: Dec, available: Dec },
    OutOfRange,
    InvalidVolume,
}

impl View for JournalError {
    type V = JournalFailure;

    open spec fn view(&self) -> JournalFailure {
        match self {
            JournalError::InsufficientInventory { commodity, requested, available } => {
                JournalFailure::InsufficientInventory {
                    commodity: commodity.0@,
                    requested: requested.0,
                    available: available.0,
                }
            },
            JournalError::OutOfRange => JournalFailure::OutOfRange,
            JournalError::InvalidVolume => JournalFailure::InvalidVolume,
        }
    }
}

pub open spec fn entry_result_view(r: Result<JournalEntry, JournalError>) -> Result<
    EntryView,
    JournalFailure,
> {
    match r {
        Ok(e) => Ok(e@),
        Err(e) => Err(e@),
    }
}

pub open spec fn entries_result_view(r: Result<Vec<JournalEntry>, JournalError>) -> Result<
    Seq<EntryView>,
    JournalFailure,
> {
    match r {
        Ok(v) => Ok(entries_view(v@)),
        Err(e) => Err(e@),
    }
}

pub open spec fn amount_posting(account: Account, commodity: Commodity, amount: Dec) -> PostingView {
    PostingView { account: account.0@, amount: Some((commodity.0@, amount)), comment: None }
}

/// A balancing leg: the ledger infers its amount.
pub open spec fn bare_posting(account: Account) -> PostingView {
    PostingView { account: account.0@, amount: None, comment: None }
}

/// `" (<comment>)"`, or nothing.
pub open spec fn comment_suffix(c: Option<String>) -> Seq<char> {
    match c {
        Some(x) => " ("@ + x@ + ")"@,
        None => Seq::empty(),
    }
}

pub open spec fn deposit_entry(port: CashBalancePortfolio, d: Deposit) -> EntryView {
    EntryView {
        date: d.date.0@,
        description: "Deposit"@ + comment_suffix(d.comment),
        postings: seq![
            amount_posting(port.accounts.cash_account, port.base_currency, d.amount.0),
            amount_posting(
                port.accounts.net_investment_account,
                port.base_currency,
                d.amount.0.spec_neg(),
            ),
        ],
        inventory: None,
    }
}

pub open spec fn withdraw_entry(port: CashBalancePortfolio, w: Withdraw) -> EntryView {
    EntryView {
        date: w.date.0@,
        description: "Withdraw"@ + comment_suffix(w.comment),
        postings: seq![
            amount_posting(port.accounts.cash_account, port.base_currency, w.amount.0.spec_neg()),
            amount_posting(port.accounts.net_investment_account, port.base_currency, w.amount.0),
        ],
        inventory: None,
    }
}

/// The lot that a purchase opens.
pub open spec fn buy_lot(b: Buy) -> LotView {
    LotView { date: b.date.0@, price: b.price.0, volume: b.volume.0 }
}

/// `-(price * volume) - commission - vat`.
pub open spec fn buy_cash_spent(b: Buy) -> Option<Dec> {
    match b.price.0.spec_mul(b.volume.0) {
        Some(gross) => match gross.spec_neg().spec_sub(amount_or_zero(b.commission)) {
            Some(x) => x.spec_sub(amount_or_zero(b.vat)),
            None => None,
        },
        None => None,
    }
}

pub open spec fn buy_description(b: Buy) -> Seq<char> {
    "Buy "@ + decimal_text(b.volume.0) + " "@ + b.commodity.0@ + " @"@ + decimal_text(b.price.0)
        + comment_suffix(b.comment)
}

pub open spec fn buy_entry(
    port: CashBalancePortfolio,
    b: Buy,
    cash_spent: Dec,
    lots: Seq<LotView>,
) -> EntryView {
    EntryView {
        date: b.date.0@,
        description: buy_description(b),
        postings: seq![
            amount_posting(port.accounts.position_account, b.commodity, b.volume.0),
            amount_posting(port.accounts.cash_account, port.base_currency, cash_spent),
            amount_posting(
                port.accounts.commission_account,
                port.base_currency,
                amount_or_zero(b.commission),
            ),
            amount_posting(port.accounts.vat_account, port.base_currency, amount_or_zero(b.vat)),
            bare_posting(port.accounts.conversion_account),
        ],
        inventory: Some(lots),
    }
}

/// A purchase opens a lot (before its cost is computed) and books the position,
/// the cash spent and the fees against the base currency.
pub open spec fn buy_outcome(port: CashBalancePortfolio, b: Buy, before: Seq<LotView>) -> Result<
    EntryView,
    JournalFailure,
> {
    if b.volume.0.units() <= 0 {
        Err(JournalFailure::InvalidVolume)
    } else {
        match buy_cash_spent(b) {
            Some(cash) => Ok(buy_entry(port, b, cash, before.push(buy_lot(b)))),
            None => Err(JournalFailure::OutOfRange),
        }
    }
}

/// `price * volume - commission - vat`.
pub open spec fn sell_cash_received(s: Sell) -> Option<Dec> {
    match s.price.0.spec_mul(s.volume.0) {
        Some(gross) => match gross.spec_sub(amount_or_zero(s.commission)) {
            Some(x) => x.spec_sub(amount_or_zero(s.vat)),
            None => None,
        },
        None => None,
    }
}

/// `(price - lot price) * lot volume` for one lot sold: above zero on a gain.
pub open spec fn lot_profit(price: Dec, l: LotView) -> Option<Dec> {
    match price.spec_sub(l.price) {
        Some(d) => d.spec_mul(l.volume),
        None => None,
    }
}

/// The sum, from zero, of [`lot_profit`] over the lots sold.
pub open spec fn profit_loss(price: Dec, lots: Seq<LotView>) -> Option<Dec>
    decreases lots.len(),
{
    if lots.len() == 0 {
        Some(Dec { mantissa: 0, scale: 0 })
    } else {
        match profit_loss(price, lots.drop_last()) {
            Some(acc) => match lot_profit(price, lots.last()) {
                Some(t) => acc.spec_add(t),
                None => None,
            },
            None => None,
        }
    }
}

pub open spec fn lot_text(l: LotView) -> Seq<char> {
    decimal_text(l.volume) + " @"@ + decimal_text(l.price)
}

/// The lots as `"<volume> @<price>"`, joined by `sep`.
pub open spec fn joined_lots(lots: Seq<LotView>, sep: Seq<char>) -> Seq<char>
    decreases lots.len(),
{
    if lots.len() == 0 {
        Seq::empty()
    } else if lots.len() == 1 {
        lot_text(lots[0])
    } else {
        joined_lots(lots.drop_last(), sep) + sep + lot_text(lots.last())
    }
}

/// The lots sold, as `"<volume> @<price>"` joined by `" / "`.
pub open spec fn lots_comment(lots: Seq<LotView>) -> Seq<char> {
    joined_lots(lots, " / "@)
}

pub open spec fn sell_description(s: Sell) -> Seq<char> {
    "Sell "@ + s.commodity.0@ + " "@ + decimal_text(s.volume.0) + " @"@ + decimal_text(s.price.0)
        + comment_suffix(s.comment)
}

pub open spec fn settle_description(s: Sell) -> Seq<char> {
    "Settle "@ + s.commodity.0@ + " "@ + decimal_text(s.volume.0) + " @"@ + decimal_text(
        s.price.0,
    )
}

pub open spec fn sell_entry(
    port: CashBalancePortfolio,
    s: Sell,
    cash: Dec,
    pl: Dec,
    taken: Seq<LotView>,
    rest: Seq<LotView>,
) -> EntryView {
    EntryView {
        date: s.date.0@,
        description: sell_description(s),
        postings: seq![
            amount_posting(port.accounts.position_account, s.commodity, s.volume.0.spec_neg()),
            amount_posting(port.accounts.cash_ar_account, port.base_currency, cash),
            amount_posting(
                port.accounts.commission_account,
                port.base_currency,
                amount_or_zero(s.commission),
            ),
            amount_posting(port.accounts.vat_account, port.base_currency, amount_or_zero(s.vat)),
            PostingView {
                comment: Some(lots_comment(taken)),
                ..amount_posting(port.accounts.protfit_loss_account, port.base_currency, pl)
            },
            bare_posting(port.accounts.conversion_account),
        ],
        inventory: Some(rest),
    }
}

/// The date that a sale settles on.
pub open spec fn settle_date(s: Sell) -> Seq<char> {
    match s.settlement_date {
        Some(d) => d.0@,
        None => s.date.0@,
    }
}

pub open spec fn settle_entry(port: CashBalancePortfolio, s: Sell, cash: Dec) -> EntryView {
    EntryView {
        date: settle_date(s),
        description: settle_description(s),
        postings: seq![
            amount_posting(port.accounts.cash_account, port.base_currency, cash),
            bare_posting(port.accounts.cash_ar_account),
        ],
        inventory: None,
    }
}

/// A sale takes its volume out of the lots first in, first out, books the cash
/// due, the fees and the realized profit or loss, then settles the cash.
pub open spec fn sell_outcome(port: CashBalancePortfolio, s: Sell, before: Seq<LotView>) -> Result<
    Seq<EntryView>,
    JournalFailure,
> {
    match fifo_take(before, s.volume.0) {
        Take::Done { taken, rest } => match sell_cash_received(s) {
            Some(cash) => match profit_loss(s.price.0, taken) {
                Some(pl) => Ok(
                    seq![sell_entry(port, s, cash, pl, taken, rest), settle_entry(port, s, cash)],
                ),
                None => Err(JournalFailure::OutOfRange),
            },
            None => Err(JournalFailure::OutOfRange),
        },
        Take::Short { remaining } => match s.volume.0.spec_sub(remaining) {
            Some(available) => Err(
                JournalFailure::InsufficientInventory {
                    commodity: s.commodity.0@,
                    requested: s.volume.0,
                    available,
                },
            ),
            None => Err(JournalFailure::OutOfRange),
        },
        Take::OutOfRange => Err(JournalFailure::OutOfRange),
    }
}

/// The lots after a sale: unchanged where nothing could be taken.
pub open spec fn lots_after_sell(s: Sell, before: Seq<LotView>) -> Seq<LotView> {
    match fifo_take(before, s.volume.0) {
        Take::Done { taken: _, rest } => rest,
        _ => before,
    }
}

fn append_comment(s: &mut String, c: &Option<String>)
    ensures
        final(s)@ == old(s)@ + comment_suffix(*c),
{
    match c {
        Some(x) => {
            s.append(" (");
            s.append(x.as_str());
            s.append(")");
        },
        None => {
            assert(old(s)@ + Seq::<char>::empty() =~= old(s)@);
        },
    }
}

/// The lots as `"<volume> @<price>"`, joined by `sep`.
pub fn join_lots(lots: &Vec<Lot>, sep: &str) -> (r: String)
    requires
        lots_ok(lots_view(lots@)),
    ensures
        r@ == joined_lots(lots_view(lots@), sep@),
{
    let ghost v = lots_view(lots@);
    let mut r = String::new();
    let mut i: usize = 0;
    while i < lots.len()
        invariant
            i <= lots.len(),
            v == lots_view(lots@),
            lots_ok(v),
            r@ == joined_lots(v.take(i as int), sep@),
        decreases lots.len() - i,
    {
        assert(v.take(i + 1).drop_last() =~= v.take(i as int));
        assert(lots@[i as int]@ == v[i as int]);
        assert(crate::inventory::lot_ok(v[i as int]));
        if i > 0 {
            r.append(sep);
        }
        let vol = to_text(&lots[i].volume.0);
        let price = to_text(&lots[i].price.0);
        r.append(vol.as_str());
        r.append(" @");
        r.append(price.as_str());
        i = i + 1;
    }
    assert(v.take(lots.len() as int) =~= v);
    r
}

/// The realized profit (above zero) or loss (below zero) over the lots sold.
fn lots_profit(price: &Dec, lots: &Vec<Lot>) -> (r: Option<Dec>)
    requires
        price.wf(),
        lots_ok(lots_view(lots@)),
    ensures
        r == profit_loss(*price, lots_view(lots@)),
        r is Some ==> r->0.wf(),
{
    let ghost v = lots_view(lots@);
    let mut acc = Dec::zero();
    let mut i: usize = 0;
    assert(v.take(0) =~= Seq::<LotView>::empty());
    while i < lots.len()
        invariant
            i <= lots.len(),
            v == lots_view(lots@),
            lots_ok(v),
            acc.wf(),
            price.wf(),
            profit_loss(*price, v.take(i as int)) == Some(acc),
        decreases lots.len() - i,
    {
        assert(v.take(i + 1).drop_last() =~= v.take(i as int));
        assert(lots@[i as int]@ == v[i as int]);
        assert(crate::inventory::lot_ok(v[i as int]));
        let l = &lots[i];
        let d = match price.sub(&l.price.0) {
            Some(d) => d,
            None => {
                proof {
                    lemma_profit_none_extends(*price, v, i as int);
                }
                return None;
            },
        };
        let m = match d.mul(&l.volume.0) {
            Some(m) => m,
            None => {
                proof {
                    lemma_profit_none_extends(*price, v, i as int);
                }
                return None;
            },
        };
        acc = match acc.add(&m) {
            Some(a) => a,
            None => {
                proof {
                    lemma_profit_none_extends(*price, v, i as int);
                }
                return None;
            },
        };
        i = i + 1;
    }
    assert(v.take(lots.len() as int) =~= v);
    Some(acc)
}

/// Once the running sum fails, the whole sum fails.
proof fn lemma_profit_none_extends(price: Dec, v: Seq<LotView>, i: int)
    requires
        0 <= i < v.len(),
        profit_loss(price, v.take(i + 1)) is None,
    ensures
        profit_loss(price, v) is None,
    decreases v.len() - i,
{
    if i + 1 < v.len() {
        assert(v.take(i + 2).drop_last() =~= v.take(i + 1));
        lemma_profit_none_extends(price, v, i + 1);
    } else {
        assert(v.take(i + 1) =~= v);
    }
}

/// The lots of a commodity; a commodity not seen yet has none.
pub open spec fn lots_in(state: Map<Seq<char>, Seq<LotView>>, c: Seq<char>) -> Seq<LotView> {
    if state.contains_key(c) {
        state[c]
    } else {
        Seq::empty()
    }
}

/// The entries of one transaction, and the lots of every commodity after it.
pub open spec fn step(
    port: CashBalancePortfolio,
    state: Map<Seq<char>, Seq<LotView>>,
    t: Transaction,
) -> Result<(Seq<EntryView>, Map<Seq<char>, Seq<LotView>>), JournalFailure> {
    match t {
        Transaction::Deposit(d) => Ok((seq![deposit_entry(port, d)], state)),
        Transaction::Withdraw(w) => Ok((seq![withdraw_entry(port, w)], state)),
        Transaction::Buy(b) => {
            let before = lots_in(state, b.commodity.0@);
            match buy_outcome(port, b, before) {
                Ok(e) => Ok((seq![e], state.insert(b.commodity.0@, before.push(buy_lot(b))))),
                Err(f) => Err(f),
            }
        },
        Transaction::Sell(s) => {
            let before = lots_in(state, s.commodity.0@);
            match sell_outcome(port, s, before) {
                Ok(es) => Ok((es, state.insert(s.commodity.0@, lots_after_sell(s, before)))),
                Err(f) => Err(f),
            }
        },
    }
}

pub open spec fn prefix_with(done: Seq<EntryView>, r: Result<Seq<EntryView>, JournalFailure>) -> Result<
    Seq<EntryView>,
    JournalFailure,
> {
    match r {
        Ok(more) => Ok(done + more),
        Err(f) => Err(f),
    }
}

/// The entries of a run of transactions taken in the order given, or the first failure.
pub open spec fn replay_journal(
    port: CashBalancePortfolio,
    state: Map<Seq<char>, Seq<LotView>>,
    txns: Seq<Transaction>,
) -> Result<Seq<EntryView>, JournalFailure>
    decreases txns.len(),
{
    if txns.len() == 0 {
        Ok(Seq::empty())
    } else {
        match step(port, state, txns[0]) {
            Ok((es, next)) => prefix_with(es, replay_journal(port, next, txns.drop_first())),
            Err(f) => Err(f),
        }
    }
}

pub open spec fn in_order(txns: Seq<Transaction>, order: Seq<usize>) -> Seq<Transaction> {
    order.map_values(|k: usize| txns[k as int])
}

/// The journal of a portfolio: its transactions replayed in processing order
/// against lots that start empty.
#[verifier::opaque]
pub open spec fn portfolio_journal(
    port: CashBalancePortfolio,
    txns: Seq<Transaction>,
    r: Result<Seq<EntryView>, JournalFailure>,
) -> bool {
    exists|order: Seq<usize>|
        is_processing_order(dates_of(txns), order) && r == replay_journal(
            port,
            Map::empty(),
            #[trigger] in_order(txns, order),
        )
}

pub open spec fn txns_wf(txns: Seq<Transaction>) -> bool {
    forall|i: int| 0 <= i < txns.len() ==> (#[trigger] txns[i]).wf()
}

/// One inventory per commodity, matching `state`.
pub open spec fn store_ok(
    store: Seq<(Commodity, FifoInventory)>,
    state: Map<Seq<char>, Seq<LotView>>,
) -> bool {
    &&& forall|i: int, j: int|
        0 <= i < j < store.len() ==> (#[trigger] store[i]).0.0@ != (#[trigger] store[j]).0.0@
    &&& forall|i: int|
        0 <= i < store.len() ==> lots_in(state, (#[trigger] store[i]).0.0@) == store[i].1.lots()
    &&& forall|c: Seq<char>|
        (forall|i: int| 0 <= i < store.len() ==> (#[trigger] store[i]).0.0@ != c) ==> lots_in(
            state,
            c,
        ) == Seq::<LotView>::empty()
    &&& forall|c: Seq<char>| lots_ok(#[trigger] lots_in(state, c))
}

proof fn lemma_prefix_twice(a: Seq<EntryView>, b: Seq<EntryView>, r: Result<Seq<EntryView>, JournalFailure>)
    ensures
        prefix_with(a, prefix_with(b, r)) == prefix_with(a + b, r),
{
    if let Ok(m) = r {
        assert(a + (b + m) =~= (a + b) + m);
    }
}

/// The position of the inventory of `c`, opened empty where there is none yet.
fn inventory_slot(
    store: &mut Vec<(Commodity, FifoInventory)>,
    c: &Commodity,
    Ghost(state): Ghost<Map<Seq<char>, Seq<LotView>>>,
) -> (idx: usize)
    requires
        store_ok(old(store)@, state),
    ensures
        idx < final(store).len(),
        final(store)@[idx as int].0.0@ == c.0@,
        store_ok(final(store)@, state),
{
    let mut i: usize = 0;
    while i < store.len()
        invariant
            i <= store.len(),
            store@ == old(store)@,
            store_ok(store@, state),
            forall|j: int| 0 <= j < i ==> (#[trigger] store@[j]).0.0@ != c.0@,
        decreases store.len() - i,
    {
        if store[i].0.0 == c.0 {
            return i;
        }
        i = i + 1;
    }
    let ghost before = store@;
    store.push((c.duplicate(), FifoInventory::new()));
    proof {
        assert forall|j: int| 0 <= j < before.len() implies #[trigger] store@[j] == before[j] by {}
        assert(lots_in(state, c.0@) == Seq::<LotView>::empty());
        assert forall|x: Seq<char>|
            (forall|j: int| 0 <= j < store@.len() ==> (#[trigger] store@[j]).0.0@ != x) implies lots_in(
            state,
            x,
        ) == Seq::<LotView>::empty() by {
            assert forall|j: int| 0 <= j < before.len() implies (#[trigger] before[j]).0.0@ != x by {
                assert(store@[j] == before[j]);
            }
        }
    }
    store.len() - 1
}

/// Replacing the inventory at `idx` keeps the store in step with the state that
/// records its new lots.
proof fn lemma_store_update(
    before: Seq<(Commodity, FifoInventory)>,
    state: Map<Seq<char>, Seq<LotView>>,
    idx: int,
    store: Seq<(Commodity, FifoInventory)>,
)
    requires
        store_ok(before, state),
        0 <= idx < before.len(),
        store.len() == before.len(),
        store[idx].0.0@ == before[idx].0.0@,
        forall|i: int| 0 <= i < store.len() && i != idx ==> store[i] == before[i],
        lots_ok(store[idx].1.lots()),
    ensures
        store_ok(store, state.insert(before[idx].0.0@, store[idx].1.lots())),
{
    let key = before[idx].0.0@;
    let next = state.insert(key, store[idx].1.lots());
    assert forall|i: int, j: int| 0 <= i < j < store.len() implies (#[trigger] store[i]).0.0@
        != (#[trigger] store[j]).0.0@ by {
        assert(before[i].0.0@ != before[j].0.0@);
    }
    assert forall|i: int| 0 <= i < store.len() implies lots_in(next, (#[trigger] store[i]).0.0@)
        == store[i].1.lots() by {
        if i != idx {
            assert(before[i].0.0@ != before[idx].0.0@);
        }
    }
    assert forall|c: Seq<char>|
        (forall|i: int| 0 <= i < store.len() ==> (#[trigger] store[i]).0.0@ != c) implies lots_in(
        next,
        c,
    ) == Seq::<LotView>::empty() by {
        assert(store[idx].0.0@ != c);
        assert forall|i: int| 0 <= i < before.len() implies (#[trigger] before[i]).0.0@ != c by {
            if i != idx {
                assert(store[i] == before[i]);
            }
        }
        assert(lots_in(state, c) == Seq::<LotView>::empty());
        assert(lots_in(next, c) == lots_in(state, c));
    }
    assert forall|c: Seq<char>| lots_ok(#[trigger] lots_in(next, c)) by {
        if c != key {
            assert(lots_in(next, c) == lots_in(state, c));
        }
    }
}

/// The parts one after another.
pub open spec fn concat_all(parts: Seq<Seq<EntryView>>) -> Seq<EntryView>
    decreases parts.len(),
{
    if parts.len() == 0 {
        Seq::empty()
    } else {
        concat_all(parts.drop_last()) + parts.last()
    }
}

/// The definition of the `k`-th portfolio of the records.
pub open spec fn defined(rs: Seq<Resource>, k: int) -> CashBalancePortfolio {
    last_definition(rs, portfolio_ids(rs)[k])->0
}

pub open spec fn portfolio_succeeds(port: CashBalancePortfolio, txns: Seq<Transaction>) -> bool {
    exists|es: Seq<EntryView>| portfolio_journal(port, txns, Ok(es))
}

/// The journal of the records: the journal of each defined portfolio, in order of
/// first definition, one after another; or the failure of the first portfolio that
/// fails. Transactions of a portfolio that is not defined are written by nobody.
pub open spec fn journal_built(rs: Seq<Resource>, r: Result<Seq<EntryView>, JournalFailure>) -> bool {
    let ids = portfolio_ids(rs);
    match r {
        Ok(es) => exists|parts: Seq<Seq<EntryView>>|
            {
                &&& parts.len() == ids.len()
                &&& es == concat_all(parts)
                &&& forall|k: int|
                    0 <= k < ids.len() ==> portfolio_journal(
                        defined(rs, k),
                        transactions_for(rs, ids[k]),
                        Ok(#[trigger] parts[k]),
                    )
            },
        Err(f) => exists|k: int|
            {
                &&& 0 <= k < ids.len()
                &&& portfolio_journal(defined(rs, k), transactions_for(rs, ids[k]), Err(f))
                &&& forall|j: int|
                    0 <= j < k ==> portfolio_succeeds(
                        #[trigger] defined(rs, j),
                        transactions_for(rs, ids[j]),
                    )
            },
    }
}

/// The journal of one portfolio, from the transaction lists of the records `rs`.
fn portfolio_entries(
    port: CashBalancePortfolio,
    groups: &Vec<(PortId, Vec<Transaction>)>,
    Ghost(rs): Ghost<Seq<Resource>>,
) -> (r: Result<Vec<JournalEntry>, JournalError>)
    requires
        resources_wf(rs),
        group_ids_view(groups@) == transaction_ids(rs),
        forall|g: int|
            0 <= g < groups@.len() ==> (#[trigger] groups@[g]).1@ == transactions_for(
                rs,
                groups@[g].0.0@,
            ),
        forall|id: Seq<char>|
            !transaction_ids(rs).contains(id) ==> #[trigger] transactions_for(rs, id)
                == Seq::<Transaction>::empty(),
    ensures
        portfolio_journal(port, transactions_for(rs, port.port_id.0@), entries_result_view(r)),
{
    proof {
        lemma_transactions_wf(rs, port.port_id.0@);
    }
    let found = find_group(groups, &port.port_id);
    let writer = CashBalanceJournalWriter { port };
    match found {
        Some(g) => writer.to_journal_entries(&groups[g].1),
        None => {
            proof {
                assert(!transaction_ids(rs).contains(writer.port.port_id.0@)) by {
                    assert forall|j: int| 0 <= j < transaction_ids(rs).len() implies transaction_ids(
                        rs,
                    )[j] != writer.port.port_id.0@ by {
                        assert(group_ids_view(groups@)[j] == groups@[j].0.0@);
                    }
                }
            }
            let none: Vec<Transaction> = Vec::new();
            assert(none@ =~= transactions_for(rs, writer.port.port_id.0@));
            writer.to_journal_entries(&none)
        },
    }
}

/// Builds the journal of every defined portfolio from an unordered batch of records.
pub fn build_journal(resources: Vec<Resource>) -> (r: Result<Vec<JournalEntry>, JournalError>)
    requires
        resources_wf(resources@),
    ensures
        journal_built(resources@, entries_result_view(r)),
{
    let ghost rs = resources@;
    let ghost ids = portfolio_ids(rs);
    let categorized = categorize_resources(resources);
    let CategorizedResources { portfolios, commodities: _, transactions } = categorized;
    let ghost ports0 = portfolios@;
    let mut ports = portfolios;
    let mut result: Vec<JournalEntry> = Vec::new();
    let ghost mut parts: Seq<Seq<EntryView>> = Seq::empty();
    let n = ports.len();
    let mut k: usize = 0;
    proof {
        assert(ports0.skip(0) =~= ports0);
        assert(entries_view(result@) =~= Seq::<EntryView>::empty());
        assert(port_ids_view(ports0).len() == ids.len());
    }
    while k < n
        invariant
            n == ports0.len() == ids.len(),
            k <= n,
            ports@ == ports0.skip(k as int),
            port_ids_view(ports0) == ids,
            ids == portfolio_ids(rs),
            rs == resources@,
            forall|j: int| 0 <= j < n ==> last_definition(rs, (#[trigger] ports0[j]).port_id.0@) == Some(ports0[j]),
            group_ids_view(transactions@) == transaction_ids(rs),
            forall|g: int|
                0 <= g < transactions@.len() ==> (#[trigger] transactions@[g]).1@ == transactions_for(rs, transactions@[g].0.0@),
            forall|id: Seq<char>|
                !transaction_ids(rs).contains(id) ==> #[trigger] transactions_for(rs, id)
                    == Seq::<Transaction>::empty(),
            resources_wf(rs),
            parts.len() == k,
            entries_view(result@) == concat_all(parts),
            forall|j: int|
                0 <= j < k ==> portfolio_journal(
                    defined(rs, j),
                    transactions_for(rs, ids[j]),
                    Ok(#[trigger] parts[j]),
                ),
        decreases n - k,
    {
        let port = ports.remove(0);
        proof {
            assert(ports@ =~= ports0.skip(k + 1));
            assert(port == ports0[k as int]);
            assert(port_ids_view(ports0)[k as int] == port.port_id.0@);
            assert(defined(rs, k as int) == port);
        }
        let ghost this_port = port;
        let out = portfolio_entries(port, &transactions, Ghost(rs));
        match out {
            Ok(mut es) => {
                let ghost es_view = entries_view(es@);
                let ghost done = entries_view(result@);
                result.append(&mut es);
                assert(entries_view(result@) =~= done + es_view);
                proof {
                    let next = parts.push(es_view);
                    assert(next.drop_last() =~= parts);
                    assert forall|j: int| 0 <= j < k + 1 implies portfolio_journal(
                        defined(rs, j),
                        transactions_for(rs, ids[j]),
                        Ok(#[trigger] next[j]),
                    ) by {
                        if j < k {
                            assert(next[j] == parts[j]);
                        }
                    }
                    parts = next;
                }
            },
            Err(e) => {
                proof {
                    assert forall|j: int| 0 <= j < k implies portfolio_succeeds(
                        #[trigger] defined(rs, j),
                        transactions_for(rs, ids[j]),
                    ) by {
                        assert(portfolio_journal(
                            defined(rs, j),
                            transactions_for(rs, ids[j]),
                            Ok(parts[j]),
                        ));
                    }
                    assert(this_port.port_id.0@ == ids[k as int]);
                    assert(portfolio_journal(
                        defined(rs, k as int),
                        transactions_for(rs, ids[k as int]),
                        Err(e@),
                    ));
                    assert(journal_built(rs, Err(e@)));
                }
                return Err(e);
            },
        }
        k = k + 1;
    }
    Ok(result)
}

proof fn lemma_journal_witness(
    port: CashBalancePortfolio,
    txns: Seq<Transaction>,
    order: Seq<usize>,
    r: Result<Seq<EntryView>, JournalFailure>,
)
    requires
        is_processing_order(dates_of(txns), order),
        r == replay_journal(port, Map::empty(), in_order(txns, order)),
    ensures
        portfolio_journal(port, txns, r),
{
    reveal(portfolio_journal);
}

/// An entry with a leg whose amount the ledger infers.
pub open spec fn has_bare_posting(e: EntryView) -> bool {
    exists|i: int| 0 <= i < e.postings.len() && (#[trigger] e.postings[i]).amount is None
}

/// The signed sum, in units of `10^-28`, of the amounts in commodity `c`.
pub open spec fn commodity_sum(ps: Seq<PostingView>, c: Seq<char>) -> int
    decreases ps.len(),
{
    if ps.len() == 0 {
        0
    } else {
        (match ps.last().amount {
            Some((k, a)) => if k == c {
                a.units()
            } else {
                0
            },
            None => 0,
        }) + commodity_sum(ps.drop_last(), c)
    }
}

/// The amounts of every commodity sum to zero.
pub open spec fn balanced(e: EntryView) -> bool {
    forall|c: Seq<char>| #[trigger] commodity_sum(e.postings, c) == 0
}

proof fn lemma_pair_balanced(ps: Seq<PostingView>, k: Seq<char>, x: Dec)
    requires
        x.wf(),
        ps.len() == 2,
        ps[0].amount == Some((k, x)),
        ps[1].amount == Some((k, x.spec_neg())),
    ensures
        forall|c: Seq<char>| #[trigger] commodity_sum(ps, c) == 0,
{
    crate::decimal::lemma_neg_units(x);
    let first = ps.drop_last();
    assert(first.drop_last() =~= Seq::<PostingView>::empty());
    assert forall|c: Seq<char>| #[trigger] commodity_sum(ps, c) == 0 by {
        assert(commodity_sum(Seq::<PostingView>::empty(), c) == 0);
        assert(commodity_sum(first, c) == (if k == c {
            x.units()
        } else {
            0
        }));
    }
}

/// The entries of one transaction that have no leg left to the ledger balance.
proof fn lemma_step_balanced(port: CashBalancePortfolio, state: Map<Seq<char>, Seq<LotView>>, t: Transaction)
    requires
        t.wf(),
    ensures
        match step(port, state, t) {
            Ok((es, _)) => forall|i: int|
                0 <= i < es.len() && !has_bare_posting(#[trigger] es[i]) ==> balanced(es[i]),
            Err(_) => true,
        },
{
    match t {
        Transaction::Deposit(d) => {
            let e = deposit_entry(port, d);
            lemma_pair_balanced(e.postings, port.base_currency.0@, d.amount.0);
            assert(balanced(e));
        },
        Transaction::Withdraw(w) => {
            let e = withdraw_entry(port, w);
            crate::decimal::lemma_neg_units(w.amount.0);
            let x = w.amount.0.spec_neg();
            assert(x.spec_neg() == w.amount.0);
            lemma_pair_balanced(e.postings, port.base_currency.0@, x);
            assert(balanced(e));
        },
        Transaction::Buy(b) => {
            if let Ok((es, _)) = step(port, state, t) {
                assert(es[0].postings[4].amount is None);
            }
        },
        Transaction::Sell(s) => {
            if let Ok((es, _)) = step(port, state, t) {
                assert(es[0].postings[5].amount is None);
                assert(es[1].postings[1].amount is None);
            }
        },
    }
}

/// Every entry of a replayed run that leaves no leg to the ledger is balanced: the
/// amounts of each commodity in it sum to zero.
pub proof fn lemma_replay_balanced(
    port: CashBalancePortfolio,
    state: Map<Seq<char>, Seq<LotView>>,
    txns: Seq<Transaction>,
)
    requires
        txns_wf(txns),
    ensures
        match replay_journal(port, state, txns) {
            Ok(es) => forall|i: int|
                0 <= i < es.len() && !has_bare_posting(#[trigger] es[i]) ==> balanced(es[i]),
            Err(_) => true,
        },
    decreases txns.len(),
{
    if txns.len() > 0 {
        assert(txns[0].wf());
        lemma_step_balanced(port, state, txns[0]);
        if let Ok((es, next)) = step(port, state, txns[0]) {
            assert(txns_wf(txns.drop_first())) by {
                assert forall|i: int| 0 <= i < txns.drop_first().len() implies (
                #[trigger] txns.drop_first()[i]).wf() by {
                    assert(txns.drop_first()[i] == txns[i + 1]);
                }
            }
            lemma_replay_balanced(port, next, txns.drop_first());
            if let Ok(more) = replay_journal(port, next, txns.drop_first()) {
                let all = es + more;
                assert forall|i: int|
                    0 <= i < all.len() && !has_bare_posting(#[trigger] all[i]) implies balanced(
                    all[i],
                ) by {
                    if i >= es.len() {
                        assert(all[i] == more[i - es.len()]);
                    }
                }
            }
        }
    }
}

/// Every entry of a portfolio's journal that leaves no leg to the ledger is
/// balanced in every commodity.
pub proof fn lemma_portfolio_journal_balanced(
    port: CashBalancePortfolio,
    txns: Seq<Transaction>,
    es: Seq<EntryView>,
)
    requires
        txns_wf(txns),
        portfolio_journal(port, txns, Ok(es)),
    ensures
        forall|i: int| 0 <= i < es.len() && !has_bare_posting(#[trigger] es[i]) ==> balanced(es[i]),
{
    reveal(portfolio_journal);
    let order = choose|order: Seq<usize>|
        is_processing_order(dates_of(txns), order) && Ok::<Seq<EntryView>, JournalFailure>(es)
            == replay_journal(port, Map::empty(), #[trigger] in_order(txns, order));
    let ordered = in_order(txns, order);
    assert(is_processing_order(dates_of(txns), order));
    assert(replay_journal(port, Map::empty(), ordered) == Ok::<Seq<EntryView>, JournalFailure>(es));
    assert(txns_wf(ordered)) by {
        assert forall|i: int| 0 <= i < ordered.len() implies (#[trigger] ordered[i]).wf() by {
            assert(order[i] < txns.len());
            assert(ordered[i] == txns[order[i] as int]);
        }
    }
    lemma_replay_balanced(port, Map::empty(), ordered);
    if let Ok(all) = replay_journal(port, Map::empty(), ordered) {
        assert(all == es);
        assert forall|i: int| 0 <= i < es.len() && !has_bare_posting(#[trigger] es[i]) implies balanced(
            es[i],
        ) by {
            assert(es[i] == all[i]);
        }
    }
}

/// A portfolio has one journal: [`portfolio_journal`] leaves nothing to choose.
pub proof fn lemma_portfolio_journal_unique(
    port: CashBalancePortfolio,
    txns: Seq<Transaction>,
    r1: Result<Seq<EntryView>, JournalFailure>,
    r2: Result<Seq<EntryView>, JournalFailure>,
)
    requires
        portfolio_journal(port, txns, r1),
        portfolio_journal(port, txns, r2),
    ensures
        r1 == r2,
{
    reveal(portfolio_journal);
    let o1 = choose|order: Seq<usize>|
        is_processing_order(dates_of(txns), order) && r1 == replay_journal(
            port,
            Map::empty(),
            #[trigger] in_order(txns, order),
        );
    let o2 = choose|order: Seq<usize>|
        is_processing_order(dates_of(txns), order) && r2 == replay_journal(
            port,
            Map::empty(),
            #[trigger] in_order(txns, order),
        );
    lemma_processing_order_unique(dates_of(txns), o1, o2);
}

proof fn lemma_concat_balanced(parts: Seq<Seq<EntryView>>)
    requires
        forall|k: int|
            0 <= k < parts.len() ==> forall|i: int|
                0 <= i < (#[trigger] parts[k]).len() && !has_bare_posting(#[trigger] parts[k][i])
                    ==> balanced(parts[k][i]),
    ensures
        forall|i: int|
            0 <= i < concat_all(parts).len() && !has_bare_posting(#[trigger] concat_all(parts)[i])
                ==> balanced(concat_all(parts)[i]),
    decreases parts.len(),
{
    if parts.len() > 0 {
        let pre = parts.drop_last();
        assert forall|k: int|
            0 <= k < pre.len() implies forall|i: int|
            0 <= i < (#[trigger] pre[k]).len() && !has_bare_posting(#[trigger] pre[k][i])
                ==> balanced(pre[k][i]) by {
            assert(pre[k] == parts[k]);
        }
        lemma_concat_balanced(pre);
        let head = concat_all(pre);
        let last = parts.last();
        let all = concat_all(parts);
        assert(all == head + last);
        assert forall|i: int| 0 <= i < all.len() && !has_bare_posting(#[trigger] all[i]) implies balanced(
            all[i],
        ) by {
            if i < head.len() {
                assert(all[i] == head[i]);
            } else {
                assert(all[i] == last[i - head.len()]);
                assert(parts[parts.len() - 1] == last);
            }
        }
    }
}

/// Every entry of a journal built from records in range that leaves no leg to the
/// ledger is balanced: the amounts of each commodity in it sum to zero.
pub proof fn lemma_journal_balanced(rs: Seq<Resource>, es: Seq<EntryView>)
    requires
        resources_wf(rs),
        journal_built(rs, Ok(es)),
    ensures
        forall|i: int| 0 <= i < es.len() && !has_bare_posting(#[trigger] es[i]) ==> balanced(es[i]),
{
    let ids = portfolio_ids(rs);
    let parts = choose|parts: Seq<Seq<EntryView>>|
        {
            &&& parts.len() == ids.len()
            &&& es == concat_all(parts)
            &&& forall|k: int|
                0 <= k < ids.len() ==> portfolio_journal(
                    defined(rs, k),
                    transactions_for(rs, ids[k]),
                    Ok(#[trigger] parts[k]),
                )
        };
    assert forall|k: int|
        0 <= k < parts.len() implies forall|i: int|
        0 <= i < (#[trigger] parts[k]).len() && !has_bare_posting(#[trigger] parts[k][i])
            ==> balanced(parts[k][i]) by {
        lemma_transactions_wf(rs, ids[k]);
        lemma_portfolio_journal_balanced(defined(rs, k), transactions_for(rs, ids[k]), parts[k]);
    }
    lemma_concat_balanced(parts);
}

/// Writes the entries of one cash-balance portfolio.
pub struct CashBalanceJournalWriter {
    pub port: CashBalancePortfolio,
}

impl CashBalanceJournalWriter {
    /// A posting of `amount` in the base currency.
    fn base_posting(&self, account: &Account, amount: Dec) -> (r: Posting)
        ensures
            r@ == amount_posting(*account, self.port.base_currency, amount),
    {
        Posting::new(account.duplicate()).with_amount(
            (self.port.base_currency.duplicate(), CommodityAmount(amount)),
        )
    }

    /// The entries of one transaction, with the inventory of its commodity taken
    /// from `store` (opened empty where there is none yet).
    fn apply_transaction(
        &self,
        t: &Transaction,
        store: &mut Vec<(Commodity, FifoInventory)>,
        Ghost(state): Ghost<Map<Seq<char>, Seq<LotView>>>,
    ) -> (r: Result<Vec<JournalEntry>, JournalError>)
        requires
            t.wf(),
            store_ok(old(store)@, state),
        ensures
            entries_result_view(r) == (match step(self.port, state, *t) {
                Ok((es, _)) => Ok(es),
                Err(f) => Err(f),
            }),
            match step(self.port, state, *t) {
                Ok((_, next)) => store_ok(final(store)@, next),
                Err(_) => true,
            },
    {
        match t {
            Transaction::Deposit(d) => {
                let r = vec![self.generate_deposit(d)];
                assert(entries_view(r@) =~= seq![deposit_entry(self.port, *d)]);
                Ok(r)
            },
            Transaction::Withdraw(w) => {
                let r = vec![self.generate_withdraw(w)];
                assert(entries_view(r@) =~= seq![withdraw_entry(self.port, *w)]);
                Ok(r)
            },
            Transaction::Buy(b) => {
                let idx = inventory_slot(store, &b.commodity, Ghost(state));
                let ghost s0 = store@;
                let (c, mut inv) = store.remove(idx);
                let out = self.generate_buy(b, &mut inv);
                store.insert(idx, (c, inv));
                proof {
                    assert(s0[idx as int].1.lots() == lots_in(state, b.commodity.0@));
                    if out is Ok {
                        lemma_store_update(s0, state, idx as int, store@);
                    }
                }
                match out {
                    Ok(e) => {
                        let r = vec![e];
                        assert(entries_view(r@) =~= seq![e@]);
                        Ok(r)
                    },
                    Err(e) => Err(e),
                }
            },
            Transaction::Sell(s) => {
                let idx = inventory_slot(store, &s.commodity, Ghost(state));
                let ghost s0 = store@;
                let (c, mut inv) = store.remove(idx);
                let out = self.generate_sell(s, &mut inv);
                store.insert(idx, (c, inv));
                proof {
                    assert(s0[idx as int].1.lots() == lots_in(state, s.commodity.0@));
                    if out is Ok {
                        lemma_store_update(s0, state, idx as int, store@);
                    }
                }
                out
            },
        }
    }

    /// The entries of the portfolio's transactions, taken in processing order and
    /// replayed against one FIFO inventory per commodity; the first failure ends it.
    pub fn to_journal_entries(&self, transactions: &Vec<Transaction>) -> (r: Result<
        Vec<JournalEntry>,
        JournalError,
    >)
        requires
            txns_wf(transactions@),
        ensures
            portfolio_journal(self.port, transactions@, entries_result_view(r)),
    {
        let order = processing_order(transactions);
        let ghost ordered = in_order(transactions@, order@);
        let mut store: Vec<(Commodity, FifoInventory)> = Vec::new();
        let ghost mut state: Map<Seq<char>, Seq<LotView>> = Map::empty();
        let mut result: Vec<JournalEntry> = Vec::new();
        let n = order.len();
        assert(ordered.skip(0) =~= ordered);
        assert(entries_view(result@) =~= Seq::<EntryView>::empty());
        assert(prefix_with(Seq::empty(), replay_journal(self.port, state, ordered))
            == replay_journal(self.port, state, ordered)) by {
            if let Ok(m) = replay_journal(self.port, state, ordered) {
                assert(Seq::<EntryView>::empty() + m =~= m);
            }
        }
        let mut k: usize = 0;
        while k < n
            invariant
                n == order.len(),
                k <= n,
                is_processing_order(dates_of(transactions@), order@),
                ordered == in_order(transactions@, order@),
                txns_wf(transactions@),
                store_ok(store@, state),
                replay_journal(self.port, Map::empty(), ordered) == prefix_with(
                    entries_view(result@),
                    replay_journal(self.port, state, ordered.skip(k as int)),
                ),
            decreases n - k,
        {
            let t = &transactions[order[k]];
            let ghost rest = ordered.skip(k as int);
            assert(rest[0] == *t);
            assert(rest.drop_first() =~= ordered.skip(k + 1));
            assert(t.wf());
            let ghost done = entries_view(result@);
            let out = self.apply_transaction(t, &mut store, Ghost(state));
            match out {
                Ok(mut es) => {
                    let ghost es_view = entries_view(es@);
                    result.append(&mut es);
                    assert(entries_view(result@) =~= done + es_view);
                    proof {
                        let next = step(self.port, state, *t)->Ok_0.1;
                        lemma_prefix_twice(
                            done,
                            es_view,
                            replay_journal(self.port, next, ordered.skip(k + 1)),
                        );
                        state = next;
                    }
                },
                Err(e) => {
                    proof {
                        lemma_journal_witness(self.port, transactions@, order@, Err(e@));
                    }
                    return Err(e);
                },
            }
            k = k + 1;
        }
        assert(ordered.skip(n as int) =~= Seq::<Transaction>::empty());
        assert(entries_view(result@) + Seq::<EntryView>::empty() =~= entries_view(result@));
        proof {
            lemma_journal_witness(self.port, transactions@, order@, entries_result_view(Ok(result)));
        }
        Ok(result)
    }

    /// `+amount` to cash, `-amount` to net investment.
    pub fn generate_deposit(&self, deposit: &Deposit) -> (r: JournalEntry)
        requires
            deposit.wf(),
        ensures
            r@ == deposit_entry(self.port, *deposit),
    {
        let mut description = String::new();
        description.append("Deposit");
        append_comment(&mut description, &deposit.comment);
        let postings = vec![
            self.base_posting(&self.port.accounts.cash_account, deposit.amount.0),
            self.base_posting(&self.port.accounts.net_investment_account, deposit.amount.0.neg()),
        ];
        let r = JournalEntry {
            date: deposit.date.duplicate(),
            description,
            postings,
            inventory: None,
        };
        assert(r@.postings =~= deposit_entry(self.port, *deposit).postings);
        assert(r@.description =~= deposit_entry(self.port, *deposit).description);
        r
    }

    /// `-amount` to cash, `+amount` to net investment.
    pub fn generate_withdraw(&self, withdraw: &Withdraw) -> (r: JournalEntry)
        requires
            withdraw.wf(),
        ensures
            r@ == withdraw_entry(self.port, *withdraw),
    {
        let mut description = String::new();
        description.append("Withdraw");
        append_comment(&mut description, &withdraw.comment);
        let postings = vec![
            self.base_posting(&self.port.accounts.cash_account, withdraw.amount.0.neg()),
            self.base_posting(&self.port.accounts.net_investment_account, withdraw.amount.0),
        ];
        let r = JournalEntry {
            date: withdraw.date.duplicate(),
            description,
            postings,
            inventory: None,
        };
        assert(r@.postings =~= withdraw_entry(self.port, *withdraw).postings);
        assert(r@.description =~= withdraw_entry(self.port, *withdraw).description);
        r
    }

    /// Opens a lot for the purchase, then books it; a volume that is not above zero
    /// opens nothing.
    pub fn generate_buy(&self, buy: &Buy, inventory: &mut FifoInventory) -> (r: Result<
        JournalEntry,
        JournalError,
    >)
        requires
            buy.wf(),
            lots_ok(old(inventory).lots()),
        ensures
            lots_ok(final(inventory).lots()),
            final(inventory).lots() == (if buy.volume.0.units() > 0 {
                old(inventory).lots().push(buy_lot(*buy))
            } else {
                old(inventory).lots()
            }),
            entry_result_view(r) == buy_outcome(self.port, *buy, old(inventory).lots()),
    {
        if !buy.volume.0.is_positive() {
            return Err(JournalError::InvalidVolume);
        }
        let lot = Lot { date: buy.date.duplicate(), price: buy.price, volume: buy.volume };
        inventory.push(lot);
        let gross = match buy.price.0.mul(&buy.volume.0) {
            Some(g) => g,
            None => {
                return Err(JournalError::OutOfRange);
            },
        };
        let commission = fee_or_zero(&buy.commission);
        let vat = fee_or_zero(&buy.vat);
        let net = match gross.neg().sub(&commission) {
            Some(x) => x,
            None => {
                return Err(JournalError::OutOfRange);
            },
        };
        let cash_spent = match net.sub(&vat) {
            Some(x) => x,
            None => {
                return Err(JournalError::OutOfRange);
            },
        };
        let mut description = String::new();
        description.append("Buy ");
        let volume_text = to_text(&buy.volume.0);
        description.append(volume_text.as_str());
        description.append(" ");
        description.append(buy.commodity.0.as_str());
        description.append(" @");
        let price_text = to_text(&buy.price.0);
        description.append(price_text.as_str());
        append_comment(&mut description, &buy.comment);
        let postings = vec![
            Posting::new(self.port.accounts.position_account.duplicate()).with_amount(
                (buy.commodity.duplicate(), buy.volume),
            ),
            self.base_posting(&self.port.accounts.cash_account, cash_spent),
            self.base_posting(&self.port.accounts.commission_account, commission),
            self.base_posting(&self.port.accounts.vat_account, vat),
            Posting::new(self.port.accounts.conversion_account.duplicate()),
        ];
        let mut lots: Vec<Lot> = Vec::new();
        lots_from(inventory.inventory(), 0, &mut lots);
        assert(lots_view(lots@) =~= inventory.lots());
        let r = JournalEntry { date: buy.date.duplicate(), description, postings, inventory: Some(lots) };
        assert(r@.postings =~= buy_entry(self.port, *buy, cash_spent, inventory.lots()).postings);
        assert(r@.description =~= buy_description(*buy));
        Ok(r)
    }

    /// Takes the sold volume out of the lots, books the sale with its realized
    /// profit or loss, then the settlement of the cash due.
    pub fn generate_sell(&self, sell: &Sell, inventory: &mut FifoInventory) -> (r: Result<
        Vec<JournalEntry>,
        JournalError,
    >)
        requires
            sell.wf(),
            lots_ok(old(inventory).lots()),
        ensures
            lots_ok(final(inventory).lots()),
            final(inventory).lots() == lots_after_sell(*sell, old(inventory).lots()),
            entries_result_view(r) == sell_outcome(self.port, *sell, old(inventory).lots()),
    {
        let ghost before = inventory.lots();
        proof {
            lemma_fifo_take_conserves(before, sell.volume.0);
        }
        let used = match inventory.pop(&sell.volume) {
            Ok(u) => u,
            Err(PopError::InsufficientInventory { requested, available }) => {
                return Err(
                    JournalError::InsufficientInventory {
                        commodity: sell.commodity.duplicate(),
                        requested,
                        available,
                    },
                );
            },
            Err(PopError::OutOfRange) => {
                return Err(JournalError::OutOfRange);
            },
        };
        let gross = match sell.price.0.mul(&sell.volume.0) {
            Some(g) => g,
            None => {
                return Err(JournalError::OutOfRange);
            },
        };
        let commission = fee_or_zero(&sell.commission);
        let vat = fee_or_zero(&sell.vat);
        let net = match gross.sub(&commission) {
            Some(x) => x,
            None => {
                return Err(JournalError::OutOfRange);
            },
        };
        let cash_received = match net.sub(&vat) {
            Some(x) => x,
            None => {
                return Err(JournalError::OutOfRange);
            },
        };
        let profit = match lots_profit(&sell.price.0, &used) {
            Some(x) => x,
            None => {
                return Err(JournalError::OutOfRange);
            },
        };
        let comment = join_lots(&used, " / ");
        let volume_text = to_text(&sell.volume.0);
        let price_text = to_text(&sell.price.0);
        let mut description = String::new();
        description.append("Sell ");
        description.append(sell.commodity.0.as_str());
        description.append(" ");
        description.append(volume_text.as_str());
        description.append(" @");
        description.append(price_text.as_str());
        append_comment(&mut description, &sell.comment);
        let mut settle_text = String::new();
        settle_text.append("Settle ");
        settle_text.append(sell.commodity.0.as_str());
        settle_text.append(" ");
        settle_text.append(volume_text.as_str());
        settle_text.append(" @");
        settle_text.append(price_text.as_str());
        let postings = vec![
            Posting::new(self.port.accounts.position_account.duplicate()).with_amount(
                (sell.commodity.duplicate(), CommodityAmount(sell.volume.0.neg())),
            ),
            self.base_posting(&self.port.accounts.cash_ar_account, cash_received),
            self.base_posting(&self.port.accounts.commission_account, commission),
            self.base_posting(&self.port.accounts.vat_account, vat),
            self.base_posting(&self.port.accounts.protfit_loss_account, profit).with_comment(
                comment,
            ),
            Posting::new(self.port.accounts.conversion_account.duplicate()),
        ];
        let mut lots: Vec<Lot> = Vec::new();
        lots_from(inventory.inventory(), 0, &mut lots);
        assert(lots_view(lots@) =~= inventory.lots());
        let sale = JournalEntry {
            date: sell.date.duplicate(),
            description,
            postings,
            inventory: Some(lots),
        };
        let settle_date = match &sell.settlement_date {
            Some(d) => d.duplicate(),
            None => sell.date.duplicate(),
        };
        let settle_postings = vec![
            self.base_posting(&self.port.accounts.cash_account, cash_received),
            Posting::new(self.port.accounts.cash_ar_account.duplicate()),
        ];
        let settlement = JournalEntry {
            date: settle_date,
            description: settle_text,
            postings: settle_postings,
            inventory: None,
        };
        let ghost taken = lots_view(used@);
        assert(sale@.postings =~= sell_entry(
            self.port,
            *sell,
            cash_received,
            profit,
            taken,
            inventory.lots(),
        ).postings);
        assert(sale@.description =~= sell_description(*sell));
        assert(settlement@.postings =~= settle_entry(self.port, *sell, cash_received).postings);
        assert(settlement@.description =~= settle_description(*sell));
        let r = vec![sale, settlement];
        assert(entries_view(r@) =~= seq![
            sell_entry(self.port, *sell, cash_received, profit, taken, inventory.lots()),
            settle_entry(self.port, *sell, cash_received),
        ]);
        Ok(r)
    }
}

} // verus!
