//! The processing order of a portfolio's transactions: by date, and by input
//! position among transactions of the same date.
use vstd::prelude::*;

use crate::model::{DatedTransaction, Transaction};

verus! {

/// The strict order of text, character by character (the order of `String`).
pub open spec fn text_lt(a: Seq<char>, b: Seq<char>) -> bool
    decreases a.len(),
{
    if a.len() == 0 {
        b.len() > 0
    } else if b.len() == 0 {
        false
    } else if a[0] != b[0] {
        (a[0] as int) < (b[0] as int)
    } else {
        text_lt(a.drop_first(), b.drop_first())
    }
}

/// The processing key `(date, input position)`, compared in that order.
pub open spec fn key_lt(da: Seq<char>, ia: int, db: Seq<char>, ib: int) -> bool {
    text_lt(da, db) || (da == db && ia < ib)
}

pub open spec fn dates_of(txns: Seq<Transaction>) -> Seq<Seq<char>> {
    txns.map_values(|t: Transaction| t.spec_date())
}

/// `order` lists every input position once, in increasing processing key.
pub open spec fn is_processing_order(dates: Seq<Seq<char>>, order: Seq<usize>) -> bool {
    &&& order.len() == dates.len()
    &&& forall|k: int| 0 <= k < order.len() ==> #[trigger] order[k] < dates.len()
    &&& forall|p: int, q: int|
        0 <= p < q < order.len() ==> key_lt(
            dates[order[p] as int],
            order[p] as int,
            dates[order[q] as int],
            order[q] as int,
        )
}

pub proof fn lemma_text_lt_irreflexive(a: Seq<char>)
    ensures
        !text_lt(a, a),
    decreases a.len(),
{
    if a.len() > 0 {
        lemma_text_lt_irreflexive(a.drop_first());
    }
}

pub proof fn lemma_text_lt_transitive(a: Seq<char>, b: Seq<char>, c: Seq<char>)
    requires
        text_lt(a, b),
        text_lt(b, c),
    ensures
        text_lt(a, c),
    decreases a.len(),
{
    if a.len() > 0 && b.len() > 0 && c.len() > 0 {
        if a[0] == b[0] && b[0] == c[0] {
            lemma_text_lt_transitive(a.drop_first(), b.drop_first(), c.drop_first());
        }
    }
}

pub proof fn lemma_text_lt_total(a: Seq<char>, b: Seq<char>)
    requires
        a != b,
    ensures
        text_lt(a, b) || text_lt(b, a),
    decreases a.len(),
{
    if a.len() > 0 && b.len() > 0 && a[0] == b[0] {
        if a.drop_first() == b.drop_first() {
            assert(a =~= seq![a[0]] + a.drop_first());
            assert(b =~= seq![b[0]] + b.drop_first());
        }
        lemma_text_lt_total(a.drop_first(), b.drop_first());
    } else if a.len() == 0 && b.len() == 0 {
        assert(a =~= b);
    }
}

/// Whether `a` sorts strictly before `b`.
pub fn text_less(a: &str, b: &str) -> (r: bool)
    ensures
        r == text_lt(a@, b@),
{
    let n = a.unicode_len();
    let m = b.unicode_len();
    let mut i: usize = 0;
    assert(a@.skip(0) =~= a@);
    assert(b@.skip(0) =~= b@);
    while i < n && i < m
        invariant
            n == a@.len(),
            m == b@.len(),
            i <= n,
            i <= m,
            text_lt(a@, b@) == text_lt(a@.skip(i as int), b@.skip(i as int)),
        decreases n - i,
    {
        let x = a.get_char(i);
        let y = b.get_char(i);
        assert(a@.skip(i as int)[0] == x);
        assert(b@.skip(i as int)[0] == y);
        if x != y {
            return (x as u32) < (y as u32);
        }
        assert(a@.skip(i as int).drop_first() =~= a@.skip(i + 1));
        assert(b@.skip(i as int).drop_first() =~= b@.skip(i + 1));
        i = i + 1;
    }
    n < m
}

/// The positions of `txns` in processing order: by date, then by position.
pub fn processing_order(txns: &Vec<Transaction>) -> (r: Vec<usize>)
    ensures
        is_processing_order(dates_of(txns@), r@),
{
    let ghost dates = dates_of(txns@);
    let n = txns.len();
    let mut order: Vec<usize> = Vec::new();
    let mut i: usize = 0;
    while i < n
        invariant
            n == txns.len(),
            dates == dates_of(txns@),
            i <= n,
            order.len() == i,
            forall|k: int| 0 <= k < order.len() ==> #[trigger] order[k] < i,
            forall|p: int, q: int|
                0 <= p < q < order.len() ==> key_lt(
                    dates[order[p] as int],
                    order[p] as int,
                    dates[order[q] as int],
                    order[q] as int,
                ),
        decreases n - i,
    {
        let d = txns[i].date();
        assert(d.0@ == dates[i as int]);
        let mut p: usize = 0;
        while p < order.len() && !text_less(d.0.as_str(), txns[order[p]].date().0.as_str())
            invariant
                n == txns.len(),
                dates == dates_of(txns@),
                i < n,
                d.0@ == dates[i as int],
                p <= order.len(),
                forall|k: int| 0 <= k < order.len() ==> #[trigger] order[k] < i,
                forall|k: int| 0 <= k < p ==> !text_lt(dates[i as int], #[trigger] dates[order[k] as int]),
            decreases order.len() - p,
        {
            p = p + 1;
        }
        let ghost old_order = order@;
        proof {
            assert forall|q: int| p <= q < old_order.len() implies text_lt(
                dates[i as int],
                #[trigger] dates[old_order[q] as int],
            ) by {
                if q > p {
                    let dp = dates[old_order[p as int] as int];
                    let dq = dates[old_order[q] as int];
                    assert(key_lt(dp, old_order[p as int] as int, dq, old_order[q] as int));
                    if dp != dq {
                        lemma_text_lt_transitive(dates[i as int], dp, dq);
                    }
                }
            }
            assert forall|k: int| 0 <= k < p implies key_lt(
                #[trigger] dates[old_order[k] as int],
                old_order[k] as int,
                dates[i as int],
                i as int,
            ) by {
                if dates[old_order[k] as int] != dates[i as int] {
                    lemma_text_lt_total(dates[old_order[k] as int], dates[i as int]);
                }
            }
        }
        order.insert(p, i);
        proof {
            assert forall|a: int, b: int| 0 <= a < b < order.len() implies key_lt(
                dates[order[a] as int],
                order[a] as int,
                dates[order[b] as int],
                order[b] as int,
            ) by {
                if b < p {
                    assert(order[a] == old_order[a] && order[b] == old_order[b]);
                } else if b == p {
                    assert(order[a] == old_order[a]);
                } else if a == p {
                    assert(order[b] == old_order[b - 1]);
                } else if a < p {
                    assert(order[a] == old_order[a] && order[b] == old_order[b - 1]);
                } else {
                    assert(order[a] == old_order[a - 1] && order[b] == old_order[b - 1]);
                }
            }
        }
        i = i + 1;
    }
    order
}

/// Among transactions of the same date, processing order is input order.
pub proof fn lemma_same_date_keeps_input_order(
    dates: Seq<Seq<char>>,
    order: Seq<usize>,
    p: int,
    q: int,
)
    requires
        is_processing_order(dates, order),
        0 <= p < order.len(),
        0 <= q < order.len(),
        dates[order[p] as int] == dates[order[q] as int],
    ensures
        (p < q) <==> (order[p] < order[q]),
{
    lemma_text_lt_irreflexive(dates[order[p] as int]);
    if p < q {
        assert(key_lt(
            dates[order[p] as int],
            order[p] as int,
            dates[order[q] as int],
            order[q] as int,
        ));
    } else if q < p {
        assert(key_lt(
            dates[order[q] as int],
            order[q] as int,
            dates[order[p] as int],
            order[p] as int,
        ));
    }
}

proof fn lemma_key_asymmetric(da: Seq<char>, ia: int, db: Seq<char>, ib: int)
    requires
        key_lt(da, ia, db, ib),
    ensures
        !key_lt(db, ib, da, ia),
{
    lemma_text_lt_irreflexive(da);
    if text_lt(da, db) && text_lt(db, da) {
        lemma_text_lt_transitive(da, db, da);
    }
}

/// A processing order lists every input position.
pub proof fn lemma_processing_order_complete(dates: Seq<Seq<char>>, order: Seq<usize>, i: int)
    requires
        is_processing_order(dates, order),
        0 <= i < dates.len(),
    ensures
        exists|p: int| 0 <= p < order.len() && order[p] == i,
{
    let n = dates.len() as int;
    let ints = order.map_values(|x: usize| x as int);
    assert(ints.no_duplicates()) by {
        assert forall|p: int, q: int|
            0 <= p < ints.len() && 0 <= q < ints.len() && p != q implies ints[p] != ints[q] by {
            let (a, b) = if p < q {
                (p, q)
            } else {
                (q, p)
            };
            assert(key_lt(
                dates[order[a] as int],
                order[a] as int,
                dates[order[b] as int],
                order[b] as int,
            ));
            lemma_text_lt_irreflexive(dates[order[a] as int]);
        }
    }
    ints.unique_seq_to_set();
    vstd::set_lib::lemma_int_range(0, n);
    let range = vstd::set_lib::set_int_range(0, n);
    assert(ints.to_set().subset_of(range)) by {
        assert forall|x: int| ints.to_set().contains(x) implies range.contains(x) by {
            let p = choose|p: int| 0 <= p < ints.len() && ints[p] == x;
            assert(order[p] < dates.len());
        }
    }
    vstd::set_lib::lemma_subset_equality(ints.to_set(), range);
    assert(range.contains(i));
    assert(ints.to_set().contains(i));
    let p = choose|p: int| 0 <= p < ints.len() && ints[p] == i;
    assert(order[p] == i);
}

proof fn lemma_orders_agree_up_to(dates: Seq<Seq<char>>, a: Seq<usize>, b: Seq<usize>, p: int)
    requires
        is_processing_order(dates, a),
        is_processing_order(dates, b),
        0 <= p < a.len(),
    ensures
        forall|r: int| 0 <= r <= p ==> a[r] == b[r],
    decreases p,
{
    if p > 0 {
        lemma_orders_agree_up_to(dates, a, b, p - 1);
    }
    if a[p] != b[p] {
        let x = a[p] as int;
        let y = b[p] as int;
        lemma_processing_order_complete(dates, b, x);
        lemma_processing_order_complete(dates, a, y);
        let q = choose|q: int| 0 <= q < b.len() && b[q] == x;
        let r = choose|r: int| 0 <= r < a.len() && a[r] == y;
        if q < p {
            assert(a[q] == b[q]);
            assert(key_lt(dates[a[q] as int], a[q] as int, dates[a[p] as int], a[p] as int));
            lemma_text_lt_irreflexive(dates[x]);
        } else if r < p {
            assert(a[r] == b[r]);
            assert(key_lt(dates[b[r] as int], b[r] as int, dates[b[p] as int], b[p] as int));
            lemma_text_lt_irreflexive(dates[y]);
        } else {
            assert(key_lt(dates[y], y, dates[x], x));
            assert(key_lt(dates[x], x, dates[y], y));
            lemma_key_asymmetric(dates[x], x, dates[y], y);
        }
    }
}

/// There is one processing order: transactions are placed by date, and by input
/// position among the same date, with nothing left to choose.
pub proof fn lemma_processing_order_unique(dates: Seq<Seq<char>>, a: Seq<usize>, b: Seq<usize>)
    requires
        is_processing_order(dates, a),
        is_processing_order(dates, b),
    ensures
        a == b,
{
    if a.len() > 0 {
        lemma_orders_agree_up_to(dates, a, b, a.len() - 1);
    }
    assert(a =~= b);
}

} // verus!
