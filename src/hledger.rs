//! Plain-text ledger rendering of journal entries.
use vstd::prelude::*;

use crate::decimal::{
    decimal_quotient, decimal_rounded, decimal_text, quotient_rounded, round_dp, to_text, Dec,
};
use crate::inventory::{lot_ok, lots_ok, lots_view, Lot, LotView};
use crate::journal::{join_lots, joined_lots, EntryView, JournalEntry, Posting, PostingView};

verus! {

/// Decimal places of the average cost shown.
pub const AVERAGE_PLACES: u32 = 6;

/// The sum, from zero, of the volumes.
pub open spec fn volume_sum(lots: Seq<LotView>) -> Option<Dec>
    decreases lots.len(),
{
    if lots.len() == 0 {
        Some(Dec { mantissa: 0, scale: 0 })
    } else {
        match volume_sum(lots.drop_last()) {
            Some(acc) => acc.spec_add(lots.last().volume),
            None => None,
        }
    }
}

/// The sum, from zero, of `volume * price`.
pub open spec fn cost_sum(lots: Seq<LotView>) -> Option<Dec>
    decreases lots.len(),
{
    if lots.len() == 0 {
        Some(Dec { mantissa: 0, scale: 0 })
    } else {
        match cost_sum(lots.drop_last()) {
            Some(acc) => match lots.last().volume.spec_mul(lots.last().price) {
                Some(c) => acc.spec_add(c),
                None => None,
            },
            None => None,
        }
    }
}

/// The total volume and the average cost (cost over volume, zero without volume,
/// rounded for display); `None` where a sum or the quotient is out of range.
pub open spec fn lots_average(lots: Seq<LotView>) -> Option<(Dec, Dec)> {
    match (volume_sum(lots), cost_sum(lots)) {
        (Some(total), Some(cost)) => if total.units() == 0 {
            Some((total, decimal_rounded(Dec { mantissa: 0, scale: 0 }, AVERAGE_PLACES)))
        } else {
            match decimal_quotient(cost, total) {
                Some(q) => Some((total, decimal_rounded(q, AVERAGE_PLACES))),
                None => None,
            }
        },
        _ => None,
    }
}

/// `"  ; avg <total> @<average> ; inventory [<lots>]"`; without the average where it
/// cannot be computed.
pub open spec fn inventory_text(lots: Seq<LotView>) -> Seq<char> {
    let list = " ; inventory ["@ + joined_lots(lots, ", "@) + "]"@;
    match lots_average(lots) {
        Some((total, avg)) => "  ; avg "@ + decimal_text(total) + " @"@ + decimal_text(avg) + list,
        None => " "@ + list,
    }
}

/// The width of an account name, in characters.
pub open spec fn width(s: Seq<char>) -> int {
    s.len() as int
}

/// The widest account name of the postings (zero for none).
pub open spec fn max_width(ps: Seq<PostingView>) -> int
    decreases ps.len(),
{
    if ps.len() == 0 {
        0
    } else {
        let w = width(ps.last().account);
        let m = max_width(ps.drop_last());
        if w > m {
            w
        } else {
            m
        }
    }
}

pub open spec fn spaces(n: int) -> Seq<char> {
    Seq::new(n as nat, |_i: int| ' ')
}

/// `"    <account><padding><commodity> <amount>  ; <comment>"`, the amounts aligned
/// four columns after the widest account name `w`.
pub open spec fn posting_line(p: PostingView, w: int) -> Seq<char> {
    "    "@ + p.account + spaces(w - width(p.account)) + "    "@ + match p.amount {
        Some((c, a)) => c + " "@ + decimal_text(a),
        None => Seq::empty(),
    } + match p.comment {
        Some(c) => "  ; "@ + c,
        None => Seq::empty(),
    }
}

pub open spec fn posting_lines(ps: Seq<PostingView>, w: int) -> Seq<char>
    decreases ps.len(),
{
    if ps.len() == 0 {
        Seq::empty()
    } else if ps.len() == 1 {
        posting_line(ps[0], w)
    } else {
        posting_lines(ps.drop_last(), w) + "\n"@ + posting_line(ps.last(), w)
    }
}

/// The date and description, the inventory annotation, then one line per posting.
pub open spec fn entry_text(e: EntryView) -> Seq<char> {
    e.date + " "@ + e.description + match e.inventory {
        Some(lots) => inventory_text(lots),
        None => Seq::empty(),
    } + "\n"@ + posting_lines(e.postings, max_width(e.postings))
}

pub open spec fn amount_ok(p: PostingView) -> bool {
    match p.amount {
        Some((_, a)) => a.wf(),
        None => true,
    }
}

/// Every amount in range, and every lot of the inventory valid.
pub open spec fn entry_showable(e: EntryView) -> bool {
    &&& forall|i: int| 0 <= i < e.postings.len() ==> amount_ok(#[trigger] e.postings[i])
    &&& match e.inventory {
        Some(lots) => lots_ok(lots),
        None => true,
    }
}

/// A value written as plain-text ledger input.
pub trait HLedgerShow {
    spec fn showable(&self) -> bool;

    spec fn shown(&self) -> Seq<char>;

    fn hledger_show(&self) -> (r: String)
        requires
            self.showable(),
        ensures
            r@ == self.shown(),
    ;
}

/// Whether every amount of the entry is in range and every lot of its inventory valid.
pub fn is_showable(e: &JournalEntry) -> (r: bool)
    ensures
        r == entry_showable(e@),
{
    let ghost ps = crate::journal::postings_view(e.postings@);
    let mut i: usize = 0;
    while i < e.postings.len()
        invariant
            i <= e.postings.len(),
            ps == crate::journal::postings_view(e.postings@),
            ps == e@.postings,
            forall|j: int| 0 <= j < i ==> amount_ok(#[trigger] ps[j]),
        decreases e.postings.len() - i,
    {
        assert(e.postings@[i as int]@ == ps[i as int]);
        match &e.postings[i].amount {
            Some(a) => {
                if !a.1.0.is_valid() {
                    assert(!amount_ok(ps[i as int]));
                    return false;
                }
            },
            None => {},
        }
        i = i + 1;
    }
    match &e.inventory {
        Some(lots) => {
            let ghost v = lots_view(lots@);
            let mut k: usize = 0;
            while k < lots.len()
                invariant
                    k <= lots.len(),
                    v == lots_view(lots@),
                    e@.inventory == Some(v),
                    forall|j: int| 0 <= j < k ==> lot_ok(#[trigger] v[j]),
                decreases lots.len() - k,
            {
                assert(lots@[k as int]@ == v[k as int]);
                let l = &lots[k];
                if !(l.price.0.is_valid() && l.volume.0.is_valid() && l.volume.0.is_positive()) {
                    assert(!lot_ok(v[k as int]));
                    return false;
                }
                k = k + 1;
            }
            true
        },
        None => true,
    }
}

fn append_inventory(s: &mut String, lots: &Vec<Lot>)
    requires
        lots_ok(lots_view(lots@)),
    ensures
        final(s)@ == old(s)@ + inventory_text(lots_view(lots@)),
{
    let list = join_lots(lots, ", ");
    match average_cost(lots) {
        Some((total, avg)) => {
            s.append("  ; avg ");
            let t = to_text(&total);
            s.append(t.as_str());
            s.append(" @");
            let a = to_text(&avg);
            s.append(a.as_str());
        },
        None => {
            s.append(" ");
        },
    }
    s.append(" ; inventory [");
    s.append(list.as_str());
    s.append("]");
    assert(final(s)@ =~= old(s)@ + inventory_text(lots_view(lots@)));
}

impl HLedgerShow for JournalEntry {
    open spec fn showable(&self) -> bool {
        entry_showable(self@)
    }

    open spec fn shown(&self) -> Seq<char> {
        entry_text(self@)
    }

    fn hledger_show(&self) -> (r: String) {
        let ghost e = self@;
        let mut s = String::new();
        s.append(self.date.0.as_str());
        s.append(" ");
        s.append(self.description.as_str());
        match &self.inventory {
            Some(lots) => append_inventory(&mut s, lots),
            None => {},
        }
        s.append("\n");
        let ghost head = s@;
        let w = widest_account(&self.postings);
        let mut i: usize = 0;
        assert(e.postings.take(0) =~= Seq::<PostingView>::empty());
        assert(head + Seq::<char>::empty() =~= head);
        while i < self.postings.len()
            invariant
                i <= self.postings.len(),
                e == self@,
                entry_showable(e),
                w as int == max_width(e.postings),
                s@ == head + posting_lines(e.postings.take(i as int), w as int),
            decreases self.postings.len() - i,
        {
            let ghost before = s@;
            assert(e.postings.take(i + 1).drop_last() =~= e.postings.take(i as int));
            assert(self.postings@[i as int]@ == e.postings[i as int]);
            assert(amount_ok(e.postings[i as int]));
            proof {
                lemma_max_width(e.postings, i as int);
            }
            if i > 0 {
                s.append("\n");
            }
            append_posting(&mut s, &self.postings[i], w);
            assert(s@ =~= head + posting_lines(e.postings.take(i + 1), w as int));
            i = i + 1;
        }
        assert(e.postings.take(self.postings.len() as int) =~= e.postings);
        assert(s@ =~= entry_text(e));
        s
    }
}

proof fn lemma_max_width(ps: Seq<PostingView>, i: int)
    requires
        0 <= i < ps.len(),
    ensures
        max_width(ps) >= width(ps[i].account),
    decreases ps.len(),
{
    if i < ps.len() - 1 {
        lemma_max_width(ps.drop_last(), i);
        assert(ps.drop_last()[i] == ps[i]);
    }
}

/// The total volume and average cost of the lots, as [`lots_average`] gives them.
pub fn average_cost(lots: &Vec<Lot>) -> (r: Option<(Dec, Dec)>)
    requires
        lots_ok(lots_view(lots@)),
    ensures
        r == lots_average(lots_view(lots@)),
        r is Some ==> (r->0).0.wf() && (r->0).1.wf(),
{
    let ghost v = lots_view(lots@);
    let mut total = Dec::zero();
    let mut cost = Dec::zero();
    let mut i: usize = 0;
    let mut ok = true;
    assert(v.take(0) =~= Seq::<LotView>::empty());
    while i < lots.len()
        invariant
            i <= lots.len(),
            v == lots_view(lots@),
            lots_ok(v),
            total.wf(),
            cost.wf(),
            ok ==> volume_sum(v.take(i as int)) == Some(total) && cost_sum(v.take(i as int))
                == Some(cost),
            !ok ==> volume_sum(v) is None || cost_sum(v) is None,
        decreases lots.len() - i,
    {
        assert(v.take(i + 1).drop_last() =~= v.take(i as int));
        assert(lots@[i as int]@ == v[i as int]);
        assert(lot_ok(v[i as int]));
        if ok {
            match (total.add(&lots[i].volume.0), lots[i].volume.0.mul(&lots[i].price.0)) {
                (Some(t), Some(c)) => match cost.add(&c) {
                    Some(k) => {
                        total = t;
                        cost = k;
                    },
                    None => {
                        proof {
                            lemma_sum_none_extends(v, i as int);
                        }
                        ok = false;
                    },
                },
                _ => {
                    proof {
                        lemma_sum_none_extends(v, i as int);
                    }
                    ok = false;
                },
            }
        }
        i = i + 1;
    }
    assert(v.take(lots.len() as int) =~= v);
    if !ok {
        return None;
    }
    if total.is_zero() {
        return Some((total, round_dp(&Dec::zero(), AVERAGE_PLACES)));
    }
    match quotient_rounded(&cost, &total, AVERAGE_PLACES) {
        Some(avg) => Some((total, avg)),
        None => None,
    }
}

/// Once a running sum fails, the whole sum fails.
proof fn lemma_sum_none_extends(v: Seq<LotView>, i: int)
    requires
        0 <= i < v.len(),
        volume_sum(v.take(i + 1)) is None || cost_sum(v.take(i + 1)) is None,
    ensures
        volume_sum(v) is None || cost_sum(v) is None,
    decreases v.len() - i,
{
    if i + 1 < v.len() {
        assert(v.take(i + 2).drop_last() =~= v.take(i + 1));
        lemma_sum_none_extends(v, i + 1);
    } else {
        assert(v.take(i + 1) =~= v);
    }
}

fn append_spaces(s: &mut String, n: usize)
    ensures
        final(s)@ == old(s)@ + spaces(n as int),
{
    let mut i: usize = 0;
    while i < n
        invariant
            i <= n,
            s@ == old(s)@ + spaces(i as int),
        decreases n - i,
    {
        s.append(" ");
        proof {
            reveal_strlit(" ");
        }
        assert(old(s)@ + spaces(i + 1) =~= old(s)@ + spaces(i as int) + " "@);
        i = i + 1;
    }
}

fn widest_account(postings: &Vec<Posting>) -> (r: usize)
    ensures
        r as int == max_width(crate::journal::postings_view(postings@)),
{
    let ghost v = crate::journal::postings_view(postings@);
    let mut w: usize = 0;
    let mut i: usize = 0;
    assert(v.take(0) =~= Seq::<PostingView>::empty());
    while i < postings.len()
        invariant
            i <= postings.len(),
            v == crate::journal::postings_view(postings@),
            w as int == max_width(v.take(i as int)),
        decreases postings.len() - i,
    {
        assert(v.take(i + 1).drop_last() =~= v.take(i as int));
        assert(postings@[i as int]@ == v[i as int]);
        let n = postings[i].account.0.as_str().unicode_len();
        if n > w {
            w = n;
        }
        i = i + 1;
    }
    assert(v.take(postings.len() as int) =~= v);
    w
}

fn append_posting(s: &mut String, p: &Posting, w: usize)
    requires
        w >= width(p@.account),
        amount_ok(p@),
    ensures
        final(s)@ == old(s)@ + posting_line(p@, w as int),
{
    s.append("    ");
    s.append(p.account.0.as_str());
    let n = p.account.0.as_str().unicode_len();
    append_spaces(s, w - n);
    s.append("    ");
    match &p.amount {
        Some(a) => {
            s.append(a.0.0.as_str());
            s.append(" ");
            let t = to_text(&a.1.0);
            s.append(t.as_str());
        },
        None => {},
    }
    match &p.comment {
        Some(c) => {
            s.append("  ; ");
            s.append(c.as_str());
        },
        None => {},
    }
    assert(final(s)@ =~= old(s)@ + posting_line(p@, w as int));
}

} // verus!
