use hledger_fin::categorize::categorize_resources;
use hledger_fin::decimal::{quotient_rounded, Dec};
use hledger_fin::hledger::{average_cost, is_showable, HLedgerShow};
use hledger_fin::input::{PortfolioScopedResource, Resource};
use hledger_fin::inventory::{FifoInventory, Inventory, Lot, PopError};
use hledger_fin::journal::{build_journal, JournalEntry, JournalError, Posting};
use hledger_fin::model::{
    Account, Buy, CashBalancePortfolio, CashBalancePortfolioAccounts, Commodity,
    CommodityAmount, CommodityPrice, Date, Deposit, PortId, Sell, Withdraw,
};
use hledger_fin::sequencer::{processing_order, text_less};

fn dec(m: i128, s: u32) -> Dec {
    Dec::new(m, s).unwrap()
}

fn same(a: &Dec, b: &Dec) -> bool {
    a.sub(b).unwrap().is_zero()
}

fn amount(m: i128) -> CommodityAmount {
    CommodityAmount(dec(m, 0))
}

fn price(m: i128) -> CommodityPrice {
    CommodityPrice(dec(m, 0))
}

fn date(s: &str) -> Date {
    Date(s.to_string())
}

fn acct(s: &str) -> Account {
    Account(s.to_string())
}

fn portfolio(id: &str) -> CashBalancePortfolio {
    CashBalancePortfolio {
        port_id: PortId(id.to_string()),
        base_currency: Commodity("USD".to_string()),
        accounts: CashBalancePortfolioAccounts {
            cash_account: acct("assets:cash"),
            cash_ar_account: acct("assets:receivable"),
            position_account: acct("assets:position"),
            net_investment_account: acct("equity:investment"),
            conversion_account: acct("equity:conversion"),
            commission_account: acct("expenses:commission"),
            vat_account: acct("expenses:vat"),
            protfit_loss_account: acct("income:pnl"),
        },
    }
}

fn scoped<T>(id: &str, detail: T) -> PortfolioScopedResource<T> {
    PortfolioScopedResource { port_id: PortId(id.to_string()), detail }
}

fn deposit(id: &str, d: &str, a: i128) -> Resource {
    Resource::Deposit(scoped(id, Deposit { date: date(d), amount: amount(a), comment: None }))
}

fn withdraw(id: &str, d: &str, a: i128) -> Resource {
    Resource::Withdraw(scoped(id, Withdraw { date: date(d), amount: amount(a), comment: None }))
}

fn buy(id: &str, d: &str, c: &str, v: i128, p: i128) -> Resource {
    Resource::Buy(scoped(
        id,
        Buy {
            date: date(d),
            commodity: Commodity(c.to_string()),
            price: price(p),
            volume: amount(v),
            commission: None,
            vat: None,
            comment: None,
        },
    ))
}

fn sell(id: &str, d: &str, c: &str, v: i128, p: i128) -> Resource {
    Resource::Sell(scoped(
        id,
        Sell {
            date: date(d),
            settlement_date: None,
            commodity: Commodity(c.to_string()),
            price: price(p),
            volume: amount(v),
            commission: None,
            vat: None,
            comment: None,
        },
    ))
}

fn port(id: &str) -> Resource {
    Resource::CashBalancePortfolio(Box::new(portfolio(id)))
}

fn lot(d: &str, v: i128, p: i128) -> Lot {
    Lot { date: date(d), price: price(p), volume: amount(v) }
}

fn posting_sum(entries: &[JournalEntry], account: &str) -> Dec {
    let mut total = Dec::zero();
    for e in entries {
        for p in &e.postings {
            if p.account.0 == account {
                if let Some((_, a)) = &p.amount {
                    total = total.add(&a.0).unwrap();
                }
            }
        }
    }
    total
}

fn amount_of(e: &JournalEntry, account: &str) -> Option<Dec> {
    e.postings
        .iter()
        .find(|p| p.account.0 == account)
        .and_then(|p| p.amount.as_ref().map(|a| a.1 .0))
}

#[test]
fn fifo_takes_earliest_lot_first() {
    let mut inv = FifoInventory::new();
    inv.push(lot("2024-01-01", 10, 10));
    inv.push(lot("2024-01-02", 10, 20));
    inv.push(lot("2024-01-03", 10, 30));
    let used = inv.pop(&amount(4)).unwrap();
    assert_eq!(used.len(), 1);
    assert_eq!(used[0].date.0, "2024-01-01");
    assert!(same(&used[0].price.0, &dec(10, 0)));
    assert!(same(&used[0].volume.0, &dec(4, 0)));
    let left = inv.inventory();
    assert_eq!(left.len(), 3);
    assert!(same(&left[0].volume.0, &dec(6, 0)));
}

#[test]
fn fifo_spans_lots_and_drops_emptied_ones() {
    let mut inv = FifoInventory::new();
    inv.push(lot("2024-01-01", 10, 10));
    inv.push(lot("2024-01-02", 10, 20));
    let used = inv.pop(&amount(15)).unwrap();
    assert_eq!(used.len(), 2);
    assert!(same(&used[0].volume.0, &dec(10, 0)));
    assert!(same(&used[1].volume.0, &dec(5, 0)));
    assert!(same(&used[1].price.0, &dec(20, 0)));
    assert_eq!(inv.inventory().len(), 1);
    assert!(same(&inv.inventory()[0].volume.0, &dec(5, 0)));
}

#[test]
fn volume_is_conserved() {
    let mut inv = FifoInventory::new();
    let mut bought = Dec::zero();
    let mut sold = Dec::zero();
    for (i, v) in [3i128, 7, 5].iter().enumerate() {
        inv.push(lot(&format!("2024-01-0{}", i + 1), *v, 10 + i as i128));
        bought = bought.add(&dec(*v, 0)).unwrap();
    }
    for v in [dec(4, 0), dec(25, 1), dec(35, 1)] {
        inv.pop(&CommodityAmount(v)).unwrap();
        sold = sold.add(&v).unwrap();
    }
    let mut left = Dec::zero();
    for l in inv.inventory() {
        left = left.add(&l.volume.0).unwrap();
    }
    assert!(same(&bought, &sold.add(&left).unwrap()));
    assert!(same(&left, &dec(5, 0)));
}

#[test]
fn shortfall_leaves_inventory_unchanged() {
    let mut inv = FifoInventory::new();
    inv.push(lot("2024-01-01", 10, 5));
    match inv.pop(&amount(15)) {
        Err(PopError::InsufficientInventory { requested, available }) => {
            assert!(same(&requested.0, &dec(15, 0)));
            assert!(same(&available.0, &dec(10, 0)));
        }
        _ => panic!("expected a shortfall"),
    }
    assert_eq!(inv.inventory().len(), 1);
    assert!(same(&inv.inventory()[0].volume.0, &dec(10, 0)));
}

#[test]
fn sell_beyond_holdings_is_reported() {
    let r = build_journal(vec![
        port("p"),
        buy("p", "2024-01-01", "ACME", 10, 5),
        sell("p", "2024-01-02", "ACME", 15, 6),
    ]);
    match r {
        Err(JournalError::InsufficientInventory { commodity, requested, available }) => {
            assert_eq!(commodity.0, "ACME");
            assert!(same(&requested.0, &dec(15, 0)));
            assert!(same(&available.0, &dec(10, 0)));
        }
        _ => panic!("expected a shortfall"),
    }
}

#[test]
fn deposit_then_withdraw() {
    let entries = build_journal(vec![
        port("p"),
        withdraw("p", "2024-01-02", 400),
        deposit("p", "2024-01-01", 1000),
    ])
    .unwrap();
    assert_eq!(entries.len(), 2);
    assert_eq!(entries[0].description, "Deposit");
    assert_eq!(entries[1].description, "Withdraw");
    assert!(same(&posting_sum(&entries, "assets:cash"), &dec(600, 0)));
    assert!(same(&posting_sum(&entries, "equity:investment"), &dec(-600, 0)));
}

#[test]
fn deposit_and_withdraw_entries_balance() {
    let entries = build_journal(vec![
        port("p"),
        deposit("p", "2024-01-01", 1234),
        withdraw("p", "2024-01-03", 17),
    ])
    .unwrap();
    for e in &entries {
        let mut total = Dec::zero();
        for p in &e.postings {
            total = total.add(&p.amount.as_ref().unwrap().1 .0).unwrap();
        }
        assert!(total.is_zero());
    }
}

#[test]
fn buy_then_full_sell_at_profit() {
    let entries = build_journal(vec![
        port("p"),
        buy("p", "2024-01-01", "ACME", 10, 10),
        sell("p", "2024-01-05", "ACME", 10, 12),
    ])
    .unwrap();
    assert_eq!(entries.len(), 3);
    let sale = &entries[1];
    assert!(same(&amount_of(sale, "income:pnl").unwrap(), &dec(20, 0)));
    assert!(same(&amount_of(sale, "assets:receivable").unwrap(), &dec(120, 0)));
    assert!(same(&amount_of(sale, "assets:position").unwrap(), &dec(-10, 0)));
    assert_eq!(sale.inventory.as_ref().unwrap().len(), 0);
    let settle = &entries[2];
    assert_eq!(settle.date.0, "2024-01-05");
    assert!(same(&amount_of(settle, "assets:cash").unwrap(), &dec(120, 0)));
    assert!(amount_of(settle, "assets:receivable").is_none());
    let pnl = sale.postings.iter().find(|p| p.account.0 == "income:pnl").unwrap();
    assert_eq!(pnl.comment.as_deref(), Some("10 @10"));
}

#[test]
fn buy_books_cost_and_fees() {
    let mut b = match buy("p", "2024-01-01", "ACME", 10, 10) {
        Resource::Buy(s) => s,
        _ => unreachable!(),
    };
    b.detail.commission = Some(amount(3));
    b.detail.vat = Some(CommodityAmount(dec(45, 2)));
    b.detail.comment = Some("first".to_string());
    let entries = build_journal(vec![port("p"), Resource::Buy(b)]).unwrap();
    let e = &entries[0];
    assert_eq!(e.description, "Buy 10 ACME @10 (first)");
    assert!(same(&amount_of(e, "assets:cash").unwrap(), &dec(-10345, 2)));
    assert!(same(&amount_of(e, "expenses:commission").unwrap(), &dec(3, 0)));
    assert!(same(&amount_of(e, "expenses:vat").unwrap(), &dec(45, 2)));
    assert!(amount_of(e, "equity:conversion").is_none());
    assert_eq!(e.postings.len(), 5);
    assert_eq!(e.inventory.as_ref().unwrap().len(), 1);
}

#[test]
fn sell_settles_on_settlement_date() {
    let mut s = match sell("p", "2024-02-01", "ACME", 4, 15) {
        Resource::Sell(s) => s,
        _ => unreachable!(),
    };
    s.detail.settlement_date = Some(date("2024-02-03"));
    s.detail.commission = Some(amount(1));
    let entries = build_journal(vec![
        port("p"),
        buy("p", "2024-01-01", "ACME", 3, 10),
        buy("p", "2024-01-02", "ACME", 3, 12),
        Resource::Sell(s),
    ])
    .unwrap();
    assert_eq!(entries.len(), 4);
    let sale = &entries[2];
    assert_eq!(sale.description, "Sell ACME 4 @15");
    assert!(same(&amount_of(sale, "assets:receivable").unwrap(), &dec(59, 0)));
    // 3 * (15 - 10) + 1 * (15 - 12)
    assert!(same(&amount_of(sale, "income:pnl").unwrap(), &dec(18, 0)));
    let pnl = sale.postings.iter().find(|p| p.account.0 == "income:pnl").unwrap();
    assert_eq!(pnl.comment.as_deref(), Some("3 @10 / 1 @12"));
    assert_eq!(entries[3].date.0, "2024-02-03");
    assert_eq!(entries[3].description, "Settle ACME 4 @15");
}

#[test]
fn average_cost_of_two_lots() {
    let lots = vec![lot("2024-01-01", 5, 10), lot("2024-01-02", 5, 20)];
    let (total, avg) = average_cost(&lots).unwrap();
    assert!(same(&total, &dec(10, 0)));
    assert!(same(&avg, &dec(1500, 2)));
}

#[test]
fn average_cost_of_no_lots_is_zero() {
    let (total, avg) = average_cost(&Vec::new()).unwrap();
    assert!(total.is_zero());
    assert!(avg.is_zero());
}

#[test]
fn same_date_keeps_input_order() {
    let entries = build_journal(vec![
        port("p"),
        deposit("p", "2024-01-02", 1),
        deposit("p", "2024-01-01", 2),
        deposit("p", "2024-01-02", 3),
        deposit("p", "2024-01-01", 4),
    ])
    .unwrap();
    let amounts: Vec<i128> = entries
        .iter()
        .map(|e| amount_of(e, "assets:cash").unwrap().mantissa)
        .collect();
    assert_eq!(amounts, vec![2, 4, 1, 3]);
}

#[test]
fn processing_order_sorts_by_date_then_position() {
    let txns = match categorize_resources(vec![
        deposit("p", "2024-03-01", 1),
        deposit("p", "2024-01-01", 2),
        deposit("p", "2024-03-01", 3),
        deposit("p", "2024-02-01", 4),
    ])
    .transactions
    .pop()
    {
        Some((_, t)) => t,
        None => panic!("no transactions"),
    };
    assert_eq!(processing_order(&txns), vec![1, 3, 0, 2]);
}

#[test]
fn text_order_is_lexicographic() {
    assert!(text_less("2024-01-01", "2024-01-02"));
    assert!(!text_less("2024-01-02", "2024-01-01"));
    assert!(!text_less("2024-01-01", "2024-01-01"));
    assert!(text_less("2024", "2024-01"));
}

#[test]
fn unknown_portfolio_transactions_are_dropped() {
    let entries = build_journal(vec![
        port("p"),
        deposit("q", "2024-01-01", 5),
        deposit("p", "2024-01-01", 7),
    ])
    .unwrap();
    assert_eq!(entries.len(), 1);
    assert!(same(&amount_of(&entries[0], "assets:cash").unwrap(), &dec(7, 0)));
}

#[test]
fn later_portfolio_definition_wins() {
    let mut second = portfolio("p");
    second.accounts.cash_account = acct("assets:bank");
    let c = categorize_resources(vec![
        port("p"),
        port("r"),
        Resource::CashBalancePortfolio(Box::new(second)),
    ]);
    assert_eq!(c.portfolios.len(), 2);
    assert_eq!(c.portfolios[0].port_id.0, "p");
    assert_eq!(c.portfolios[0].accounts.cash_account.0, "assets:bank");
    assert_eq!(c.portfolios[1].port_id.0, "r");
}

#[test]
fn commodities_are_deduplicated() {
    let c = categorize_resources(vec![
        Resource::Commodity(Commodity("ACME".to_string())),
        Resource::CommodityList(vec![
            Commodity("USD".to_string()),
            Commodity("ACME".to_string()),
        ]),
    ]);
    let codes: Vec<String> = c.commodities.iter().map(|x| x.0.clone()).collect();
    assert_eq!(codes, vec!["ACME".to_string(), "USD".to_string()]);
}

#[test]
fn empty_input_gives_empty_journal() {
    assert_eq!(build_journal(Vec::new()).unwrap().len(), 0);
}

#[test]
fn non_positive_buy_is_rejected() {
    let r = build_journal(vec![port("p"), buy("p", "2024-01-01", "ACME", 0, 10)]);
    assert!(matches!(r, Err(JournalError::InvalidVolume)));
}

#[test]
fn inexact_amount_is_rejected() {
    let big = Dec::new(79228162514264337593543950335, 0).unwrap();
    let r = build_journal(vec![
        port("p"),
        Resource::Buy(scoped(
            "p",
            Buy {
                date: date("2024-01-01"),
                commodity: Commodity("ACME".to_string()),
                price: CommodityPrice(big),
                volume: amount(2),
                commission: None,
                vat: None,
                comment: None,
            },
        )),
    ]);
    assert!(matches!(r, Err(JournalError::OutOfRange)));
}

#[test]
fn decimal_arithmetic_is_exact() {
    let a = dec(125, 2);
    let b = dec(5, 1);
    let s = a.add(&b).unwrap();
    assert_eq!((s.mantissa, s.scale), (175, 2));
    let d = a.sub(&b).unwrap();
    assert_eq!((d.mantissa, d.scale), (75, 2));
    let p = a.mul(&b).unwrap();
    assert_eq!((p.mantissa, p.scale), (625, 3));
    let n = a.neg();
    assert_eq!((n.mantissa, n.scale), (-125, 2));
    assert!(dec(79228162514264337593543950335, 0).add(&dec(1, 0)).is_none());
    assert!(dec(1, 20).mul(&dec(1, 20)).is_none());
    assert!(Dec::new(1, 29).is_none());
}

#[test]
fn decimal_quotient_is_rounded() {
    let q = quotient_rounded(&dec(5, 0), &dec(3, 0), 6).unwrap();
    assert_eq!((q.mantissa, q.scale), (1666667, 6));
    let q = quotient_rounded(&dec(150, 0), &dec(10, 0), 6).unwrap();
    assert!(same(&q, &dec(15, 0)));
    assert!(quotient_rounded(&dec(1, 0), &Dec::zero(), 6).is_none());
}

#[test]
fn average_cost_is_rounded_for_display() {
    let lots = vec![lot("2024-01-01", 1, 1), lot("2024-01-02", 2, 2)];
    let (total, avg) = average_cost(&lots).unwrap();
    assert!(same(&total, &dec(3, 0)));
    assert_eq!((avg.mantissa, avg.scale), (1666667, 6));
}

#[test]
fn amounts_are_written_as_decimals() {
    let b = Buy {
        date: date("2024-01-01"),
        commodity: Commodity("ACME".to_string()),
        price: CommodityPrice(dec(1234, 2)),
        volume: CommodityAmount(dec(-5, 1).neg()),
        commission: None,
        vat: None,
        comment: None,
    };
    let entries = build_journal(vec![port("p"), Resource::Buy(scoped("p", b))]).unwrap();
    assert_eq!(entries[0].description, "Buy 0.5 ACME @12.34");
    let cash = entries[0].postings[1].amount.as_ref().unwrap().1 .0;
    assert_eq!((cash.mantissa, cash.scale), (-6170, 3));
}

#[test]
fn equal_values_of_different_scale_meet_exactly() {
    let mut inv = FifoInventory::new();
    inv.push(Lot { date: date("2024-01-01"), price: price(1), volume: CommodityAmount(dec(10, 1)) });
    let used = inv.pop(&amount(1)).unwrap();
    assert_eq!(used.len(), 1);
    assert_eq!((used[0].volume.0.mantissa, used[0].volume.0.scale), (1, 0));
    assert_eq!(inv.inventory().len(), 0);
}

#[test]
fn entry_renders_as_ledger_text() {
    let entries = build_journal(vec![
        port("p"),
        buy("p", "2024-01-01", "ACME", 5, 10),
        buy("p", "2024-01-02", "ACME", 5, 20),
    ])
    .unwrap();
    let e = &entries[1];
    assert!(is_showable(e));
    let text = e.hledger_show();
    let first = text.lines().next().unwrap();
    assert_eq!(
        first,
        "2024-01-02 Buy 5 ACME @20  ; avg 10 @15 ; inventory [5 @10, 5 @20]"
    );
    let lines: Vec<&str> = text.lines().collect();
    assert_eq!(lines.len(), 6);
    assert_eq!(lines[1], "    assets:position        ACME 5");
    assert_eq!(lines[2], "    assets:cash            USD -100");
    assert_eq!(lines[5], "    equity:conversion      ");
}

#[test]
fn posting_builders() {
    let p = Posting::new(acct("a"))
        .with_amount((Commodity("USD".to_string()), amount(3)))
        .with_comment("note".to_string());
    assert_eq!(p.account.0, "a");
    assert_eq!(p.amount.as_ref().unwrap().0 .0, "USD");
    assert!(same(&p.amount.as_ref().unwrap().1 .0, &dec(3, 0)));
    assert_eq!(p.comment.as_deref(), Some("note"));
}

#[test]
fn inexact_remainder_is_rejected() {
    let mut inv = FifoInventory::new();
    let huge = CommodityAmount(dec(79228162514264337593543950335, 0));
    inv.push(Lot { date: date("2024-01-01"), price: price(1), volume: huge });
    assert!(matches!(inv.pop(&CommodityAmount(dec(5, 1))), Err(PopError::OutOfRange)));
    assert_eq!(inv.inventory().len(), 1);
    assert!(same(&inv.inventory()[0].volume.0, &huge.0));
}
