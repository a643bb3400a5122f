//! Cost-basis lots and the FIFO inventory that holds them.
use vstd::prelude::*;

use crate::decimal::{compare, Dec};
use crate::model::{CommodityAmount, CommodityPrice, Date};

verus! {

/// A slice of a position, bought at `price` on `date`.
#[derive(Clone, Debug)]
pub struct Lot {
    pub date: Date,
    pub price: CommodityPrice,
    pub volume: CommodityAmount,
}

/// A lot as a mathematical value.
pub struct LotView {
    pub date: Seq<char>,
    pub price: Dec,
    pub volume: Dec,
}

impl View for Lot {
    type V = LotView;

    open spec fn view(&self) -> LotView {
        LotView { date: self.date.0@, price: self.price.0, volume: self.volume.0 }
    }
}

impl Lot {
    pub fn duplicate(&self) -> (r: Lot)
        ensures
            r@ == self@,
    {
        Lot { date: self.date.duplicate(), price: self.price, volume: self.volume }
    }

    /// The same lot with another volume.
    pub fn with_volume(&self, volume: Dec) -> (r: Lot)
        ensures
            r@ == with_volume(self@, volume),
    {
        Lot { date: self.date.duplicate(), price: self.price, volume: CommodityAmount(volume) }
    }
}

pub open spec fn with_volume(l: LotView, volume: Dec) -> LotView {
    LotView { date: l.date, price: l.price, volume }
}

pub open spec fn lots_view(v: Seq<Lot>) -> Seq<LotView> {
    v.map_values(|l: Lot| l@)
}

/// Quantities in range, and a volume above zero.
pub open spec fn lot_ok(l: LotView) -> bool {
    &&& l.price.wf()
    &&& l.volume.wf()
    &&& l.volume.units() > 0
}

pub open spec fn lots_ok(s: Seq<LotView>) -> bool {
    forall|i: int| 0 <= i < s.len() ==> lot_ok(#[trigger] s[i])
}

/// The sum of the volumes, in units of `10^-28`.
pub open spec fn total_volume(s: Seq<LotView>) -> int
    decreases s.len(),
{
    if s.len() == 0 {
        0
    } else {
        s[0].volume.units() + total_volume(s.drop_first())
    }
}

/// What a request for some volume does to a sequence of lots.
pub enum Take {
    /// The lots taken (each with the volume taken from it) and the lots left.
    Done { taken: Seq<LotView>, rest: Seq<LotView> },
    /// The lots do not hold the volume: `remaining` is what is still missing.
    Short { remaining: Dec },
    /// A volume left over cannot be written exactly.
    OutOfRange,
}

pub open spec fn prepend_taken(prefix: Seq<LotView>, t: Take) -> Take {
    match t {
        Take::Done { taken, rest } => Take::Done { taken: prefix + taken, rest },
        _ => t,
    }
}

proof fn lemma_prepend_twice(a: Seq<LotView>, b: Seq<LotView>, t: Take)
    ensures
        prepend_taken(a, prepend_taken(b, t)) == prepend_taken(a + b, t),
{
    if let Take::Done { taken, rest } = t {
        assert(a + (b + taken) =~= (a + b) + taken);
    }
}

/// First in, first out: the oldest lots go first, and the last one taken is split
/// when it holds more than is still wanted.
pub open spec fn fifo_take(lots: Seq<LotView>, want: Dec) -> Take
    decreases lots.len(),
{
    if want.units() <= 0 {
        Take::Done { taken: Seq::empty(), rest: lots }
    } else if lots.len() == 0 {
        Take::Short { remaining: want }
    } else {
        let l = lots[0];
        if want.units() < l.volume.units() {
            match l.volume.spec_sub(want) {
                Some(left) => Take::Done {
                    taken: seq![with_volume(l, want)],
                    rest: seq![with_volume(l, left)] + lots.drop_first(),
                },
                None => Take::OutOfRange,
            }
        } else if want.units() == l.volume.units() {
            Take::Done { taken: seq![with_volume(l, want)], rest: lots.drop_first() }
        } else {
            match want.spec_sub(l.volume) {
                Some(w) => prepend_taken(seq![l], fifo_take(lots.drop_first(), w)),
                None => Take::OutOfRange,
            }
        }
    }
}

/// Why a volume could not be taken out of an inventory.
#[derive(Clone, Debug)]
pub enum PopError {
    /// The lots hold `available`, less than the `requested` volume.
    InsufficientInventory { requested: CommodityAmount, available: CommodityAmount },
    /// A volume left over cannot be written exactly.
    OutOfRange,
}

/// How the result of a request for `want` relates to the strategy's [`Take`] on the
/// lots `before`; a failed request leaves the lots as they were.
pub open spec fn pop_outcome(
    t: Take,
    want: Dec,
    before: Seq<LotView>,
    after: Seq<LotView>,
    r: Result<Vec<Lot>, PopError>,
) -> bool {
    match r {
        Ok(v) => t == (Take::Done { taken: lots_view(v@), rest: after }),
        Err(PopError::InsufficientInventory { requested, available }) => {
            &&& after == before
            &&& requested.0 == want
            &&& match t {
                Take::Short { remaining } => want.spec_sub(remaining) == Some(available.0),
                _ => false,
            }
        },
        Err(PopError::OutOfRange) => {
            &&& after == before
            &&& match t {
                Take::Short { remaining } => want.spec_sub(remaining) is None,
                Take::OutOfRange => true,
                _ => false,
            }
        },
    }
}

/// A cost-basis strategy: lots go in in order of acquisition, and the strategy
/// decides which of them a sale takes.
pub trait Inventory {
    /// The open lots, oldest first.
    spec fn lots(&self) -> Seq<LotView>;

    /// Which lots a request for `want` takes out of `lots`.
    spec fn take(lots: Seq<LotView>, want: Dec) -> Take;

    fn push(&mut self, lot: Lot)
        requires
            lots_ok(old(self).lots()),
            lot_ok(lot@),
        ensures
            final(self).lots() == old(self).lots().push(lot@),
            lots_ok(final(self).lots()),
    ;

    fn pop(&mut self, volume: &CommodityAmount) -> (r: Result<Vec<Lot>, PopError>)
        requires
            lots_ok(old(self).lots()),
            volume.0.wf(),
        ensures
            lots_ok(final(self).lots()),
            pop_outcome(
                Self::take(old(self).lots(), volume.0),
                volume.0,
                old(self).lots(),
                final(self).lots(),
                r,
            ),
    ;

    fn inventory(&self) -> (r: &Vec<Lot>)
        ensures
            lots_view(r@) == self.lots(),
    ;
}

/// Lots consumed first in, first out.
#[derive(Clone, Debug)]
pub struct FifoInventory {
    inventory_inner: Vec<Lot>,
}

impl FifoInventory {
    pub fn new() -> (r: FifoInventory)
        ensures
            r.lots() == Seq::<LotView>::empty(),
    {
        let r = FifoInventory { inventory_inner: Vec::new() };
        assert(lots_view(r.inventory_inner@) =~= Seq::<LotView>::empty());
        r
    }
}

impl Default for FifoInventory {
    fn default() -> (r: FifoInventory)
        ensures
            r.lots() == Seq::<LotView>::empty(),
    {
        FifoInventory::new()
    }
}

/// Copies of the lots of `v` from `start` on.
pub fn lots_from(v: &Vec<Lot>, start: usize, out: &mut Vec<Lot>)
    requires
        start <= v.len(),
    ensures
        lots_view(final(out)@) == lots_view(old(out)@) + lots_view(v@).skip(start as int),
{
    let mut i: usize = start;
    while i < v.len()
        invariant
            start <= i <= v.len(),
            lots_view(out@) == lots_view(old(out)@) + lots_view(v@).subrange(start as int, i as int),
        decreases v.len() - i,
    {
        let ghost before = out@;
        out.push(v[i].duplicate());
        assert(lots_view(out@) =~= lots_view(before).push(v@[i as int]@));
        assert(lots_view(v@).subrange(start as int, i + 1) =~= lots_view(v@).subrange(
            start as int,
            i as int,
        ).push(v@[i as int]@));
        i = i + 1;
    }
    assert(lots_view(v@).subrange(start as int, v.len() as int) =~= lots_view(v@).skip(
        start as int,
    ));
}

impl Inventory for FifoInventory {
    closed spec fn lots(&self) -> Seq<LotView> {
        lots_view(self.inventory_inner@)
    }

    open spec fn take(lots: Seq<LotView>, want: Dec) -> Take {
        fifo_take(lots, want)
    }

    fn push(&mut self, lot: Lot) {
        let ghost before = self.inventory_inner@;
        self.inventory_inner.push(lot);
        assert(lots_view(self.inventory_inner@) =~= lots_view(before).push(lot@));
    }

    fn pop(&mut self, volume: &CommodityAmount) -> (r: Result<Vec<Lot>, PopError>) {
        let ghost lots = self.lots();
        let want = volume.0;
        let mut used: Vec<Lot> = Vec::new();
        let mut remaining = want;
        let mut i: usize = 0;
        let n = self.inventory_inner.len();
        assert(lots.skip(0) =~= lots);
        assert(lots_view(used@) =~= Seq::<LotView>::empty());
        while i < n && remaining.is_positive()
            invariant
                n == self.inventory_inner.len(),
                lots == lots_view(self.inventory_inner@),
                lots == old(self).lots(),
                want == volume.0,
                lots_ok(lots),
                i <= n,
                remaining.wf(),
                i > 0 ==> remaining.units() > 0,
                i == 0 ==> remaining == want,
                used@.len() == i,
                fifo_take(lots, want) == prepend_taken(
                    lots_view(used@),
                    fifo_take(lots.skip(i as int), remaining),
                ),
            decreases n - i,
        {
            let lot = &self.inventory_inner[i];
            let ghost l = lots[i as int];
            assert(lot@ == l);
            assert(lot_ok(l));
            assert(lots.skip(i as int)[0] == l);
            assert(lots.skip(i as int).drop_first() =~= lots.skip(i + 1));
            let ghost used_before = lots_view(used@);
            match compare(&remaining, &lot.volume.0) {
                core::cmp::Ordering::Less => {
                    let left = match lot.volume.0.sub(&remaining) {
                        Some(x) => x,
                        None => {
                            assert(fifo_take(lots.skip(i as int), remaining) == Take::OutOfRange);
                            return Err(PopError::OutOfRange);
                        },
                    };
                    used.push(lot.with_volume(remaining));
                    let mut rest: Vec<Lot> = Vec::new();
                    rest.push(lot.with_volume(left));
                    lots_from(&self.inventory_inner, i + 1, &mut rest);
                    assert(lots_view(used@) =~= used_before + seq![with_volume(l, remaining)]);
                    assert(lots_view(rest@) =~= seq![with_volume(l, left)] + lots.skip(i + 1));
                    proof {
                        let left_units = l.volume.units() - remaining.units();
                        assert(left.units() == left_units);
                    }
                    self.inventory_inner = rest;
                    assert(lots_ok(self.lots()));
                    return Ok(used);
                },
                core::cmp::Ordering::Equal => {
                    used.push(lot.with_volume(remaining));
                    let mut rest: Vec<Lot> = Vec::new();
                    lots_from(&self.inventory_inner, i + 1, &mut rest);
                    assert(lots_view(used@) =~= used_before + seq![with_volume(l, remaining)]);
                    assert(lots_view(rest@) =~= lots.skip(i + 1));
                    self.inventory_inner = rest;
                    assert(lots_ok(self.lots()));
                    return Ok(used);
                },
                core::cmp::Ordering::Greater => {
                    let w = match remaining.sub(&lot.volume.0) {
                        Some(x) => x,
                        None => {
                            return Err(PopError::OutOfRange);
                        },
                    };
                    used.push(lot.duplicate());
                    assert(lots_view(used@) =~= used_before.push(l));
                    assert(used_before.push(l) =~= used_before + seq![l]);
                    proof {
                        lemma_prepend_twice(
                            used_before,
                            seq![l],
                            fifo_take(lots.skip(i + 1), w),
                        );
                    }
                    remaining = w;
                    i = i + 1;
                },
            }
        }
        if remaining.is_positive() {
            assert(lots.skip(i as int) =~= Seq::<LotView>::empty());
            match want.sub(&remaining) {
                Some(available) => Err(
                    PopError::InsufficientInventory {
                        requested: *volume,
                        available: CommodityAmount(available),
                    },
                ),
                None => Err(PopError::OutOfRange),
            }
        } else {
            assert(i == 0);
            assert(lots_view(used@) =~= Seq::<LotView>::empty());
            Ok(used)
        }
    }

    fn inventory(&self) -> (r: &Vec<Lot>) {
        &self.inventory_inner
    }
}

proof fn lemma_total_concat(a: Seq<LotView>, b: Seq<LotView>)
    ensures
        total_volume(a + b) == total_volume(a) + total_volume(b),
    decreases a.len(),
{
    if a.len() > 0 {
        assert((a + b).drop_first() =~= a.drop_first() + b);
        lemma_total_concat(a.drop_first(), b);
    }
}

proof fn lemma_total_one(l: LotView)
    ensures
        total_volume(seq![l]) == l.volume.units(),
{
    assert(seq![l].drop_first() =~= Seq::<LotView>::empty());
    assert(total_volume(Seq::<LotView>::empty()) == 0);
}

/// A FIFO request takes exactly the volume asked for (nothing for a volume that is
/// not above zero), the lots taken and the lots left hold between them what the
/// lots held, and a request that is short by `remaining` finds `want - remaining`.
pub proof fn lemma_fifo_take_conserves(lots: Seq<LotView>, want: Dec)
    requires
        lots_ok(lots),
        want.wf(),
    ensures
        match fifo_take(lots, want) {
            Take::Done { taken, rest } => {
                &&& lots_ok(taken)
                &&& lots_ok(rest)
                &&& total_volume(taken) == (if want.units() > 0 {
                    want.units()
                } else {
                    0
                })
                &&& total_volume(taken) + total_volume(rest) == total_volume(lots)
            },
            Take::Short { remaining } => {
                &&& remaining.wf()
                &&& 0 < remaining.units()
                &&& want.units() - remaining.units() == total_volume(lots)
            },
            Take::OutOfRange => true,
        },
    decreases lots.len(),
{
    if want.units() <= 0 {
        assert(total_volume(Seq::<LotView>::empty()) == 0);
    } else if lots.len() == 0 {
    } else {
        let l = lots[0];
        assert(lot_ok(l));
        lemma_total_one(with_volume(l, want));
        if want.units() < l.volume.units() {
            if let Some(left) = l.volume.spec_sub(want) {
                crate::decimal::lemma_sub_exact(l.volume, want);
                lemma_total_one(with_volume(l, left));
                lemma_total_concat(seq![with_volume(l, left)], lots.drop_first());
                let rest = seq![with_volume(l, left)] + lots.drop_first();
                assert forall|i: int| 0 <= i < rest.len() implies lot_ok(#[trigger] rest[i]) by {
                    if i > 0 {
                        assert(rest[i] == lots[i]);
                    }
                }
            }
        } else if want.units() == l.volume.units() {
            assert forall|i: int| 0 <= i < lots.drop_first().len() implies lot_ok(
                #[trigger] lots.drop_first()[i],
            ) by {
                assert(lots.drop_first()[i] == lots[i + 1]);
            }
        } else {
            if let Some(w) = want.spec_sub(l.volume) {
                crate::decimal::lemma_sub_exact(want, l.volume);
                assert forall|i: int| 0 <= i < lots.drop_first().len() implies lot_ok(
                    #[trigger] lots.drop_first()[i],
                ) by {
                    assert(lots.drop_first()[i] == lots[i + 1]);
                }
                lemma_fifo_take_conserves(lots.drop_first(), w);
                lemma_total_one(l);
                if let Take::Done { taken, rest } = fifo_take(lots.drop_first(), w) {
                    lemma_total_concat(seq![l], taken);
                    let t = seq![l] + taken;
                    assert forall|i: int| 0 <= i < t.len() implies lot_ok(#[trigger] t[i]) by {
                        if i > 0 {
                            assert(t[i] == taken[i - 1]);
                        }
                    }
                }
            }
        }
    }
}

/// A sale that the oldest lot covers takes from that lot alone, never from a
/// later one (where the volume left in it can be written exactly).
pub proof fn lemma_fifo_oldest_first(lots: Seq<LotView>, want: Dec)
    requires
        lots_ok(lots),
        lots.len() > 0,
        want.wf(),
        0 < want.units() <= lots[0].volume.units(),
        want.units() < lots[0].volume.units() ==> lots[0].volume.spec_sub(want) is Some,
    ensures
        match fifo_take(lots, want) {
            Take::Done { taken, rest: _ } => taken == seq![with_volume(lots[0], want)],
            _ => false,
        },
{
}

/// One step of a run of purchases and sales against an inventory.
pub enum InventoryOp {
    Add(LotView),
    Remove(Dec),
}

/// The lots after a run of operations; `None` where a sale cannot be met.
pub open spec fn replay(lots: Seq<LotView>, ops: Seq<InventoryOp>) -> Option<Seq<LotView>>
    decreases ops.len(),
{
    if ops.len() == 0 {
        Some(lots)
    } else {
        match ops[0] {
            InventoryOp::Add(l) => replay(lots.push(l), ops.drop_first()),
            InventoryOp::Remove(v) => match fifo_take(lots, v) {
                Take::Done { taken: _, rest } => replay(rest, ops.drop_first()),
                _ => None,
            },
        }
    }
}

pub open spec fn volume_added(ops: Seq<InventoryOp>) -> int
    decreases ops.len(),
{
    if ops.len() == 0 {
        0
    } else {
        (match ops[0] {
            InventoryOp::Add(l) => l.volume.units(),
            InventoryOp::Remove(_) => 0,
        }) + volume_added(ops.drop_first())
    }
}

pub open spec fn volume_removed(ops: Seq<InventoryOp>) -> int
    decreases ops.len(),
{
    if ops.len() == 0 {
        0
    } else {
        (match ops[0] {
            InventoryOp::Add(_) => 0,
            InventoryOp::Remove(v) => v.units(),
        }) + volume_removed(ops.drop_first())
    }
}

/// Each purchase a valid lot, each sale a volume above zero.
pub open spec fn ops_ok(ops: Seq<InventoryOp>) -> bool {
    forall|i: int|
        0 <= i < ops.len() ==> match #[trigger] ops[i] {
            InventoryOp::Add(l) => lot_ok(l),
            InventoryOp::Remove(v) => v.wf() && v.units() > 0,
        }
}

proof fn lemma_replay_conserves(lots: Seq<LotView>, ops: Seq<InventoryOp>)
    requires
        lots_ok(lots),
        ops_ok(ops),
        replay(lots, ops) is Some,
    ensures
        total_volume(lots) + volume_added(ops) == volume_removed(ops) + total_volume(
            replay(lots, ops)->0,
        ),
    decreases ops.len(),
{
    if ops.len() > 0 {
        assert(ops_ok(ops.drop_first())) by {
            assert forall|i: int| 0 <= i < ops.drop_first().len() implies match #[trigger] ops.drop_first()[i] {
                InventoryOp::Add(l) => lot_ok(l),
                InventoryOp::Remove(v) => v.wf() && v.units() > 0,
            } by {
                assert(ops.drop_first()[i] == ops[i + 1]);
            }
        }
        let o = ops[0];
        assert(match o {
            InventoryOp::Add(l) => lot_ok(l),
            InventoryOp::Remove(v) => v.wf() && v.units() > 0,
        });
        match o {
            InventoryOp::Add(l) => {
                let next = lots.push(l);
                assert forall|i: int| 0 <= i < next.len() implies lot_ok(#[trigger] next[i]) by {
                    if i < lots.len() {
                        assert(next[i] == lots[i]);
                    }
                }
                lemma_total_concat(lots, seq![l]);
                lemma_total_one(l);
                assert(lots + seq![l] =~= next);
                lemma_replay_conserves(next, ops.drop_first());
            },
            InventoryOp::Remove(v) => {
                lemma_fifo_take_conserves(lots, v);
                if let Take::Done { taken: _, rest } = fifo_take(lots, v) {
                    lemma_replay_conserves(rest, ops.drop_first());
                }
            },
        }
    }
}

/// Starting from no lots, a run of purchases and sales that never sells more than
/// is held ends with what was bought equal to what was sold plus what is left.
pub proof fn lemma_volume_conserved(ops: Seq<InventoryOp>)
    requires
        ops_ok(ops),
        replay(Seq::empty(), ops) is Some,
    ensures
        volume_added(ops) == volume_removed(ops) + total_volume(replay(Seq::empty(), ops)->0),
{
    lemma_replay_conserves(Seq::empty(), ops);
}

} // verus!
