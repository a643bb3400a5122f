//! Sorting an unordered batch of records into portfolios, declared commodities and
//! each portfolio's transactions.
use vstd::prelude::*;

use crate::input::{resources_wf, Resource};
use crate::journal::txns_wf;
use crate::model::{CashBalancePortfolio, Commodity, PortId, Transaction};

verus! {

/// The portfolio id and the transaction that a record carries, if it carries one.
pub open spec fn scoped_transaction(r: Resource) -> Option<(Seq<char>, Transaction)> {
    match r {
        Resource::Deposit(s) => Some((s.port_id.0@, Transaction::Deposit(s.detail))),
        Resource::Withdraw(s) => Some((s.port_id.0@, Transaction::Withdraw(s.detail))),
        Resource::Buy(s) => Some((s.port_id.0@, Transaction::Buy(s.detail))),
        Resource::Sell(s) => Some((s.port_id.0@, Transaction::Sell(s.detail))),
        _ => None,
    }
}

/// `ids` with `id` added at the end unless it is there already.
pub open spec fn add_id(ids: Seq<Seq<char>>, id: Seq<char>) -> Seq<Seq<char>> {
    if ids.contains(id) {
        ids
    } else {
        ids.push(id)
    }
}

/// The ids of the portfolios defined, each once, in order of first definition.
pub open spec fn portfolio_ids(rs: Seq<Resource>) -> Seq<Seq<char>>
    decreases rs.len(),
{
    if rs.len() == 0 {
        Seq::empty()
    } else {
        let prev = portfolio_ids(rs.drop_last());
        match rs.last() {
            Resource::CashBalancePortfolio(p) => add_id(prev, p.port_id.0@),
            _ => prev,
        }
    }
}

/// The last definition of portfolio `id`: a later one replaces an earlier one.
pub open spec fn last_definition(rs: Seq<Resource>, id: Seq<char>) -> Option<CashBalancePortfolio>
    decreases rs.len(),
{
    if rs.len() == 0 {
        None
    } else {
        match rs.last() {
            Resource::CashBalancePortfolio(p) => if p.port_id.0@ == id {
                Some(*p)
            } else {
                last_definition(rs.drop_last(), id)
            },
            _ => last_definition(rs.drop_last(), id),
        }
    }
}

/// The transactions of portfolio `id`, in input order.
pub open spec fn transactions_for(rs: Seq<Resource>, id: Seq<char>) -> Seq<Transaction>
    decreases rs.len(),
{
    if rs.len() == 0 {
        Seq::empty()
    } else {
        let prev = transactions_for(rs.drop_last(), id);
        match scoped_transaction(rs.last()) {
            Some((pid, t)) => if pid == id {
                prev.push(t)
            } else {
                prev
            },
            None => prev,
        }
    }
}

/// The ids that transactions name, each once, in order of first appearance.
pub open spec fn transaction_ids(rs: Seq<Resource>) -> Seq<Seq<char>>
    decreases rs.len(),
{
    if rs.len() == 0 {
        Seq::empty()
    } else {
        let prev = transaction_ids(rs.drop_last());
        match scoped_transaction(rs.last()) {
            Some((pid, _)) => add_id(prev, pid),
            None => prev,
        }
    }
}

/// `codes` with each code of `cs` added in turn unless it is there already.
pub open spec fn add_codes(codes: Seq<Seq<char>>, cs: Seq<Commodity>) -> Seq<Seq<char>>
    decreases cs.len(),
{
    if cs.len() == 0 {
        codes
    } else {
        add_id(add_codes(codes, cs.drop_last()), cs.last().0@)
    }
}

/// The commodities declared, each once, in order of first declaration.
pub open spec fn commodity_codes(rs: Seq<Resource>) -> Seq<Seq<char>>
    decreases rs.len(),
{
    if rs.len() == 0 {
        Seq::empty()
    } else {
        let prev = commodity_codes(rs.drop_last());
        match rs.last() {
            Resource::Commodity(c) => add_id(prev, c.0@),
            Resource::CommodityList(ls) => add_codes(prev, ls@),
            _ => prev,
        }
    }
}

/// Portfolios, declared commodities, and the transactions of each portfolio id.
pub struct CategorizedResources {
    pub portfolios: Vec<CashBalancePortfolio>,
    pub commodities: Vec<Commodity>,
    pub transactions: Vec<(PortId, Vec<Transaction>)>,
}

pub open spec fn port_ids_view(ports: Seq<CashBalancePortfolio>) -> Seq<Seq<char>> {
    ports.map_values(|p: CashBalancePortfolio| p.port_id.0@)
}

pub open spec fn codes_view(cs: Seq<Commodity>) -> Seq<Seq<char>> {
    cs.map_values(|c: Commodity| c.0@)
}

pub open spec fn group_ids_view(groups: Seq<(PortId, Vec<Transaction>)>) -> Seq<Seq<char>> {
    groups.map_values(|g: (PortId, Vec<Transaction>)| g.0.0@)
}

/// What sorting the records `rs` gives, over its parts.
pub open spec fn categorized_parts(
    rs: Seq<Resource>,
    ports: Seq<CashBalancePortfolio>,
    codes: Seq<Commodity>,
    groups: Seq<(PortId, Vec<Transaction>)>,
) -> bool {
    &&& port_ids_view(ports) == portfolio_ids(rs)
    &&& forall|k: int|
        0 <= k < ports.len() ==> last_definition(rs, (#[trigger] ports[k]).port_id.0@) == Some(
            ports[k],
        )
    &&& codes_view(codes) == commodity_codes(rs)
    &&& group_ids_view(groups) == transaction_ids(rs)
    &&& forall|g: int|
        0 <= g < groups.len() ==> (#[trigger] groups[g]).1@ == transactions_for(rs, groups[g].0.0@)
    &&& forall|id: Seq<char>|
        !transaction_ids(rs).contains(id) ==> #[trigger] transactions_for(rs, id)
            == Seq::<Transaction>::empty()
}

/// Portfolios in order of first definition, each with its last definition; the
/// commodities declared, each once; and the transactions of each portfolio id that
/// any transaction names, in input order, whether or not that portfolio is defined.
pub open spec fn categorized(rs: Seq<Resource>, c: CategorizedResources) -> bool {
    categorized_parts(rs, c.portfolios@, c.commodities@, c.transactions@)
}

proof fn lemma_add_id_distinct(ids: Seq<Seq<char>>, id: Seq<char>)
    requires
        ids.no_duplicates(),
    ensures
        add_id(ids, id).no_duplicates(),
{
    if !ids.contains(id) {
        let n = ids.push(id);
        assert forall|a: int, b: int| 0 <= a < n.len() && 0 <= b < n.len() && a != b implies n[a]
            != n[b] by {
            if b == ids.len() {
                assert(n[a] == ids[a]);
            } else if a == ids.len() {
                assert(n[b] == ids[b]);
            } else {
                assert(n[a] == ids[a] && n[b] == ids[b]);
            }
        }
    }
}

proof fn lemma_ids_distinct(rs: Seq<Resource>)
    ensures
        portfolio_ids(rs).no_duplicates(),
        transaction_ids(rs).no_duplicates(),
    decreases rs.len(),
{
    if rs.len() > 0 {
        lemma_ids_distinct(rs.drop_last());
        match rs.last() {
            Resource::CashBalancePortfolio(p) => {
                lemma_add_id_distinct(portfolio_ids(rs.drop_last()), p.port_id.0@);
            },
            _ => {},
        }
        match scoped_transaction(rs.last()) {
            Some((pid, _)) => {
                lemma_add_id_distinct(transaction_ids(rs.drop_last()), pid);
            },
            None => {},
        }
    }
}

/// Adds `c` unless a commodity of the same code is there.
fn add_commodity(cs: &mut Vec<Commodity>, c: Commodity)
    ensures
        codes_view(final(cs)@) == add_id(codes_view(old(cs)@), c.0@),
{
    let ghost before = codes_view(cs@);
    let mut k: usize = 0;
    while k < cs.len()
        invariant
            k <= cs.len(),
            cs@ == old(cs)@,
            before == codes_view(cs@),
            forall|j: int| 0 <= j < k ==> (#[trigger] cs@[j]).0@ != c.0@,
        decreases cs.len() - k,
    {
        if cs[k].0 == c.0 {
            assert(before[k as int] == c.0@);
            return;
        }
        k = k + 1;
    }
    assert(!before.contains(c.0@)) by {
        assert forall|j: int| 0 <= j < before.len() implies before[j] != c.0@ by {
            assert(before[j] == cs@[j].0@);
        }
    }
    cs.push(c);
    assert(codes_view(cs@) =~= before.push(c.0@));
}

/// Records the definition `p`: it replaces a definition with the same id, or
/// comes last.
fn add_portfolio(ports: &mut Vec<CashBalancePortfolio>, p: CashBalancePortfolio)
    requires
        port_ids_view(old(ports)@).no_duplicates(),
    ensures
        port_ids_view(final(ports)@) == add_id(port_ids_view(old(ports)@), p.port_id.0@),
        forall|k: int|
            0 <= k < final(ports)@.len() ==> #[trigger] final(ports)@[k] == (if final(ports)@[k].port_id.0@ == p.port_id.0@ {
                p
            } else {
                old(ports)@[k]
            }),
{
    let ghost before = port_ids_view(ports@);
    let mut k: usize = 0;
    while k < ports.len()
        invariant
            k <= ports.len(),
            ports@ == old(ports)@,
            before == port_ids_view(ports@),
            before.no_duplicates(),
            forall|j: int| 0 <= j < k ==> (#[trigger] ports@[j]).port_id.0@ != p.port_id.0@,
        decreases ports.len() - k,
    {
        if ports[k].port_id.0 == p.port_id.0 {
            assert(before[k as int] == p.port_id.0@);
            let ghost old_ports = ports@;
            ports.remove(k);
            ports.insert(k, p);
            proof {
                assert(port_ids_view(ports@) =~= before);
                assert forall|j: int| 0 <= j < ports@.len() implies #[trigger] ports@[j] == (if ports@[j].port_id.0@
                    == p.port_id.0@ {
                    p
                } else {
                    old_ports[j]
                }) by {
                    if j != k {
                        assert(ports@[j] == old_ports[j]);
                        assert(before[j] != before[k as int]);
                    }
                }
            }
            return;
        }
        k = k + 1;
    }
    assert(!before.contains(p.port_id.0@)) by {
        assert forall|j: int| 0 <= j < before.len() implies before[j] != p.port_id.0@ by {
            assert(before[j] == ports@[j].port_id.0@);
        }
    }
    ports.push(p);
    assert(port_ids_view(ports@) =~= before.push(p.port_id.0@));
}

/// Appends `t` to the transactions of `pid`, opening their list where there is none.
fn add_transaction(groups: &mut Vec<(PortId, Vec<Transaction>)>, pid: PortId, t: Transaction)
    requires
        group_ids_view(old(groups)@).no_duplicates(),
    ensures
        group_ids_view(final(groups)@) == add_id(group_ids_view(old(groups)@), pid.0@),
        forall|g: int|
            0 <= g < final(groups)@.len() ==> (#[trigger] final(groups)@[g]).1@ == (if final(groups)@[g].0.0@ == pid.0@ {
                if g < old(groups)@.len() {
                    old(groups)@[g].1@.push(t)
                } else {
                    seq![t]
                }
            } else {
                old(groups)@[g].1@
            }),
{
    let ghost before = group_ids_view(groups@);
    let mut k: usize = 0;
    while k < groups.len()
        invariant
            k <= groups.len(),
            groups@ == old(groups)@,
            before == group_ids_view(groups@),
            before.no_duplicates(),
            forall|j: int| 0 <= j < k ==> (#[trigger] groups@[j]).0.0@ != pid.0@,
        decreases groups.len() - k,
    {
        if groups[k].0.0 == pid.0 {
            assert(before[k as int] == pid.0@);
            let ghost old_groups = groups@;
            let (id, mut list) = groups.remove(k);
            list.push(t);
            groups.insert(k, (id, list));
            proof {
                assert(group_ids_view(groups@) =~= before);
                assert forall|j: int| 0 <= j < groups@.len() implies (#[trigger] groups@[j]).1@ == (if groups@[j].0.0@
                    == pid.0@ {
                    if j < old_groups.len() {
                        old_groups[j].1@.push(t)
                    } else {
                        seq![t]
                    }
                } else {
                    old_groups[j].1@
                }) by {
                    if j != k {
                        assert(groups@[j] == old_groups[j]);
                        assert(before[j] != before[k as int]);
                    }
                }
            }
            return;
        }
        k = k + 1;
    }
    assert(!before.contains(pid.0@)) by {
        assert forall|j: int| 0 <= j < before.len() implies before[j] != pid.0@ by {
            assert(before[j] == groups@[j].0.0@);
        }
    }
    let ghost old_groups = groups@;
    let list = vec![t];
    groups.push((pid, list));
    assert(group_ids_view(groups@) =~= before.push(groups@[old_groups.len() as int].0.0@));
    assert forall|j: int| 0 <= j < old_groups.len() implies #[trigger] groups@[j] == old_groups[j] by {}
    assert(groups@[old_groups.len() as int].1@ =~= seq![t]);
}

proof fn lemma_add_id_contains(ids: Seq<Seq<char>>, id: Seq<char>, x: Seq<char>)
    ensures
        add_id(ids, id).contains(id),
        add_id(ids, id).contains(x) == (ids.contains(x) || x == id),
{
    if !ids.contains(id) {
        let n = ids.push(id);
        assert(n[ids.len() as int] == id);
        if ids.contains(x) {
            let j = choose|j: int| 0 <= j < ids.len() && ids[j] == x;
            assert(n[j] == x);
        }
        if n.contains(x) && x != id {
            let j = choose|j: int| 0 <= j < n.len() && n[j] == x;
            assert(ids[j] == x);
        }
    }
}

/// A transaction record for `pid` extends that portfolio's list and no other.
proof fn lemma_transaction_step(
    pre: Seq<Resource>,
    next: Seq<Resource>,
    pid: Seq<char>,
    t: Transaction,
    groups: Seq<(PortId, Vec<Transaction>)>,
    grown: Seq<(PortId, Vec<Transaction>)>,
)
    requires
        next.drop_last() == pre,
        next.len() == pre.len() + 1,
        scoped_transaction(next.last()) == Some((pid, t)),
        group_ids_view(groups) == transaction_ids(pre),
        forall|g: int|
            0 <= g < groups.len() ==> (#[trigger] groups[g]).1@ == transactions_for(pre, groups[g].0.0@),
        forall|id: Seq<char>|
            !transaction_ids(pre).contains(id) ==> #[trigger] transactions_for(pre, id)
                == Seq::<Transaction>::empty(),
        group_ids_view(grown) == add_id(group_ids_view(groups), pid),
        forall|g: int|
            0 <= g < grown.len() ==> (#[trigger] grown[g]).1@ == (if grown[g].0.0@ == pid {
                if g < groups.len() {
                    groups[g].1@.push(t)
                } else {
                    seq![t]
                }
            } else {
                groups[g].1@
            }),
    ensures
        group_ids_view(grown) == transaction_ids(next),
        forall|g: int|
            0 <= g < grown.len() ==> (#[trigger] grown[g]).1@ == transactions_for(next, grown[g].0.0@),
        forall|id: Seq<char>|
            !transaction_ids(next).contains(id) ==> #[trigger] transactions_for(next, id)
                == Seq::<Transaction>::empty(),
{
    assert(transaction_ids(next) == add_id(transaction_ids(pre), pid));
    assert forall|x: Seq<char>| #[trigger] transactions_for(next, x) == (if x == pid {
        transactions_for(pre, x).push(t)
    } else {
        transactions_for(pre, x)
    }) by {}
    let gv = group_ids_view(groups);
    assert forall|g: int| 0 <= g < grown.len() implies (#[trigger] grown[g]).1@ == transactions_for(
        next,
        grown[g].0.0@,
    ) by {
        let x = grown[g].0.0@;
        assert(group_ids_view(grown)[g] == x);
        if g >= groups.len() {
            if gv.contains(pid) {
                assert(group_ids_view(grown).len() == gv.len());
            } else {
                assert(group_ids_view(grown) == gv.push(pid));
                assert(x == pid);
            }
            assert(!transaction_ids(pre).contains(pid));
            assert(transactions_for(pre, pid) == Seq::<Transaction>::empty());
            assert(seq![t] =~= Seq::<Transaction>::empty().push(t));
        } else {
            assert(gv[g] == x);
            assert(group_ids_view(grown)[g] == gv[g]) by {
                if !gv.contains(pid) {
                    assert(group_ids_view(grown) == gv.push(pid));
                }
            }
        }
    }
    assert forall|id: Seq<char>| !transaction_ids(next).contains(id) implies #[trigger] transactions_for(
        next,
        id,
    ) == Seq::<Transaction>::empty() by {
        lemma_add_id_contains(transaction_ids(pre), pid, id);
    }
}

/// Transactions from records in range are in range.
pub proof fn lemma_transactions_wf(rs: Seq<Resource>, id: Seq<char>)
    requires
        resources_wf(rs),
    ensures
        txns_wf(transactions_for(rs, id)),
    decreases rs.len(),
{
    if rs.len() > 0 {
        let pre = rs.drop_last();
        assert(resources_wf(pre)) by {
            assert forall|i: int| 0 <= i < pre.len() implies (#[trigger] pre[i]).wf() by {
                assert(pre[i] == rs[i]);
            }
        }
        lemma_transactions_wf(pre, id);
        assert(rs.last().wf());
        let prev = transactions_for(pre, id);
        if let Some((pid, t)) = scoped_transaction(rs.last()) {
            if pid == id {
                assert forall|i: int| 0 <= i < prev.push(t).len() implies (#[trigger] prev.push(
                    t,
                )[i]).wf() by {
                    if i < prev.len() {
                        assert(prev.push(t)[i] == prev[i]);
                    }
                }
            }
        }
    }
}

/// A record leaves the parts that it does not belong to as they were.
proof fn lemma_other_parts(pre: Seq<Resource>, next: Seq<Resource>)
    requires
        next.len() == pre.len() + 1,
        next.drop_last() == pre,
    ensures
        scoped_transaction(next.last()) is None ==> transaction_ids(next) == transaction_ids(pre)
            && forall|x: Seq<char>| #[trigger] transactions_for(next, x) == transactions_for(pre, x),
        !(next.last() is CashBalancePortfolio) ==> portfolio_ids(next) == portfolio_ids(pre)
            && forall|x: Seq<char>| #[trigger] last_definition(next, x) == last_definition(pre, x),
        !(next.last() is Commodity) && !(next.last() is CommodityList) ==> commodity_codes(next)
            == commodity_codes(pre),
{
    assert forall|x: Seq<char>| #[trigger] transactions_for(next, x) == (match scoped_transaction(
        next.last(),
    ) {
        Some((pid, t)) => if pid == x {
            transactions_for(pre, x).push(t)
        } else {
            transactions_for(pre, x)
        },
        None => transactions_for(pre, x),
    }) by {}
    assert forall|x: Seq<char>| #[trigger] last_definition(next, x) == (match next.last() {
        Resource::CashBalancePortfolio(p) => if p.port_id.0@ == x {
            Some(*p)
        } else {
            last_definition(pre, x)
        },
        _ => last_definition(pre, x),
    }) by {}
}

/// Sorts the records into portfolios, declared commodities and each portfolio's
/// transactions. Transactions whose portfolio is not defined are kept here and
/// written by nobody.
pub fn categorize_resources(resources: Vec<Resource>) -> (r: CategorizedResources)
    ensures
        categorized(resources@, r),
{
    let ghost rs = resources@;
    let mut rest = resources;
    let mut portfolios: Vec<CashBalancePortfolio> = Vec::new();
    let mut commodities: Vec<Commodity> = Vec::new();
    let mut transactions: Vec<(PortId, Vec<Transaction>)> = Vec::new();
    let ghost mut i: int = 0;
    proof {
        assert(rs.take(0) =~= Seq::<Resource>::empty());
        assert(rs.skip(0) =~= rs);
        assert(port_ids_view(portfolios@) =~= Seq::<Seq<char>>::empty());
        assert(codes_view(commodities@) =~= Seq::<Seq<char>>::empty());
        assert(group_ids_view(transactions@) =~= Seq::<Seq<char>>::empty());
    }
    while rest.len() > 0
        invariant
            0 <= i <= rs.len(),
            rest@ == rs.skip(i),
            categorized_parts(rs.take(i), portfolios@, commodities@, transactions@),
        decreases rest.len(),
    {
        let ghost pre = rs.take(i);
        let ghost next = rs.take(i + 1);
        let r = rest.remove(0);
        proof {
            assert(next.drop_last() =~= pre);
            assert(next.last() == r);
            assert(rest@ =~= rs.skip(i + 1));
            lemma_ids_distinct(pre);
            lemma_other_parts(pre, next);
        }
        let ghost ports0 = portfolios@;
        let ghost codes0 = commodities@;
        let ghost groups0 = transactions@;
        match r {
            Resource::CashBalancePortfolio(p) => {
                add_portfolio(&mut portfolios, *p);
                proof {
                    assert forall|k: int| 0 <= k < portfolios@.len() implies last_definition(
                        next,
                        (#[trigger] portfolios@[k]).port_id.0@,
                    ) == Some(portfolios@[k]) by {
                        if portfolios@[k].port_id.0@ != p.port_id.0@ {
                            assert(k < ports0.len()) by {
                                if k >= ports0.len() {
                                    lemma_add_id_contains(port_ids_view(ports0), p.port_id.0@, p.port_id.0@);
                                    assert(port_ids_view(portfolios@) == port_ids_view(ports0).push(
                                        p.port_id.0@,
                                    ));
                                    assert(port_ids_view(portfolios@)[k] == p.port_id.0@);
                                }
                            }
                        }
                    }
                }
            },
            Resource::Commodity(c) => {
                add_commodity(&mut commodities, c);
            },
            Resource::CommodityList(ls) => {
                let mut j: usize = 0;
                assert(ls@.take(0) =~= Seq::<Commodity>::empty());
                while j < ls.len()
                    invariant
                        j <= ls.len(),
                        codes_view(commodities@) == add_codes(codes_view(codes0), ls@.take(j as int)),
                    decreases ls.len() - j,
                {
                    assert(ls@.take(j + 1).drop_last() =~= ls@.take(j as int));
                    add_commodity(&mut commodities, ls[j].duplicate());
                    j = j + 1;
                }
                assert(ls@.take(ls.len() as int) =~= ls@);
            },
            Resource::Deposit(s) => {
                let t = Transaction::Deposit(s.detail);
                add_transaction(&mut transactions, s.port_id, t);
                proof {
                    lemma_transaction_step(pre, next, s.port_id.0@, t, groups0, transactions@);
                }
            },
            Resource::Withdraw(s) => {
                let t = Transaction::Withdraw(s.detail);
                add_transaction(&mut transactions, s.port_id, t);
                proof {
                    lemma_transaction_step(pre, next, s.port_id.0@, t, groups0, transactions@);
                }
            },
            Resource::Buy(s) => {
                let t = Transaction::Buy(s.detail);
                add_transaction(&mut transactions, s.port_id, t);
                proof {
                    lemma_transaction_step(pre, next, s.port_id.0@, t, groups0, transactions@);
                }
            },
            Resource::Sell(s) => {
                let t = Transaction::Sell(s.detail);
                add_transaction(&mut transactions, s.port_id, t);
                proof {
                    lemma_transaction_step(pre, next, s.port_id.0@, t, groups0, transactions@);
                }
            },
        }
        proof {
            i = i + 1;
        }
    }
    proof {
        assert(rs.take(i) =~= rs);
    }
    CategorizedResources { portfolios, commodities, transactions }
}

/// The position of the transaction list of portfolio `id`, if there is one.
pub fn find_group(groups: &Vec<(PortId, Vec<Transaction>)>, id: &PortId) -> (r: Option<usize>)
    ensures
        match r {
            Some(g) => g < groups.len() && groups@[g as int].0.0@ == id.0@,
            None => forall|g: int| 0 <= g < groups.len() ==> (#[trigger] groups@[g]).0.0@ != id.0@,
        },
{
    let mut g: usize = 0;
    while g < groups.len()
        invariant
            g <= groups.len(),
            forall|j: int| 0 <= j < g ==> (#[trigger] groups@[j]).0.0@ != id.0@,
        decreases groups.len() - g,
    {
        if groups[g].0.0 == id.0 {
            return Some(g);
        }
        g = g + 1;
    }
    None
}

} // verus!
