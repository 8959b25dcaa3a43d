//! The slot (seat) ledger of one priced component of one subscription: an
//! append-only record of signed changes, each effective from an instant, from
//! which the active count at any instant is derived.
use vstd::prelude::*;

use crate::billing::{
    compute_line_item, is_line_result, prorated_unit_price, BillingError, LineItem, Period,
};
use crate::dates::{day_index, lemma_day_index_bounds, CivilDate, SECONDS_PER_DAY};

verus! {

/// One recorded change of the slot count, effective from `effective_at`
/// (seconds from 0001-01-01T00:00:00 UTC).
#[derive(Clone, Copy, Debug, PartialEq, Eq, Structural)]
pub struct SlotTransaction {
    pub delta: i32,
    pub effective_at: u64,
}

/// Why a slot change was refused. A refused change records nothing.
#[derive(Clone, Copy, Debug, PartialEq, Eq, Structural)]
pub enum LedgerError {
    /// A change of zero slots.
    ZeroDelta,
    /// The instant is not a real time inside the current billing period.
    OutsidePeriod,
    /// The decrease would take the count below zero at some instant.
    BelowFloor,
    /// The increase would take the count past `u32::MAX` at some instant.
    SlotLimitExceeded,
    /// The supplemental line could not be priced.
    Billing(BillingError),
}

/// The outcome of an accepted change: the count reported as active, and the
/// line billed for an increase.
#[derive(Debug)]
pub struct SlotChange {
    pub active_slots: u32,
    pub line: Option<LineItem>,
}

/// The active count at instant `t`: the baseline plus every change effective
/// at or before `t`, in the order recorded.
pub open spec fn slots_at(baseline: int, txs: Seq<SlotTransaction>, t: int) -> int
    decreases txs.len(),
{
    if txs.len() == 0 {
        baseline
    } else {
        slots_at(baseline, txs.drop_last(), t) + if txs.last().effective_at <= t {
            txs.last().delta as int
        } else {
            0int
        }
    }
}

/// The count stays within `0..=u32::MAX` at every instant.
pub open spec fn counts_in_range(baseline: int, txs: Seq<SlotTransaction>) -> bool {
    forall|t: int| 0 <= #[trigger] slots_at(baseline, txs, t) <= u32::MAX
}

/// Adding `delta` at every instant from `start` on keeps the count in range.
pub open spec fn shift_fits(baseline: int, txs: Seq<SlotTransaction>, start: int, delta: int) -> bool {
    forall|t: int| t >= start ==> 0 <= #[trigger] slots_at(baseline, txs, t) + delta <= u32::MAX
}

/// The instant `second` seconds into `date`.
pub open spec fn instant_of(date: CivilDate, second: int) -> int {
    day_index(date) * SECONDS_PER_DAY + second
}

/// `date` and `second` name a real instant inside the billing period.
pub open spec fn within_period(period: Period, date: CivilDate, second: u32) -> bool {
    &&& date.valid()
    &&& period.from.valid()
    &&& period.to.valid()
    &&& second < SECONDS_PER_DAY
    &&& day_index(period.from) <= day_index(date) < day_index(period.to)
}

/// The slot ledger of one subscription component.
pub struct SlotLedger {
    subscription_id: u128,
    price_component_id: u128,
    baseline: u32,
    transactions: Vec<SlotTransaction>,
}

impl SlotLedger {
    pub closed spec fn spec_baseline(&self) -> int {
        self.baseline as int
    }

    pub closed spec fn spec_transactions(&self) -> Seq<SlotTransaction> {
        self.transactions@
    }

    pub closed spec fn spec_ids(&self) -> (u128, u128) {
        (self.subscription_id, self.price_component_id)
    }

    pub open spec fn wf(&self) -> bool {
        counts_in_range(self.spec_baseline(), self.spec_transactions())
    }

    /// The active count at instant `t`.
    pub open spec fn spec_active_at(&self, t: int) -> int {
        slots_at(self.spec_baseline(), self.spec_transactions(), t)
    }

    /// A ledger with `baseline` committed slots and no change recorded.
    pub fn new(subscription_id: u128, price_component_id: u128, baseline: u32) -> (r: SlotLedger)
        ensures
            r.wf(),
            r.spec_baseline() == baseline,
            r.spec_transactions().len() == 0,
            r.spec_ids() == (subscription_id, price_component_id),
    {
        SlotLedger { subscription_id, price_component_id, baseline, transactions: Vec::new() }
    }

    pub fn subscription_id(&self) -> (r: u128)
        ensures
            r == self.spec_ids().0,
    {
        self.subscription_id
    }

    pub fn price_component_id(&self) -> (r: u128)
        ensures
            r == self.spec_ids().1,
    {
        self.price_component_id
    }

    /// The recorded changes, in the order they were recorded.
    pub fn transactions(&self) -> (r: &Vec<SlotTransaction>)
        ensures
            r@ == self.spec_transactions(),
    {
        &self.transactions
    }

    fn count_at(&self, t: u64) -> (r: i128)
        ensures
            r == slots_at(self.baseline as int, self.transactions@, t as int),
    {
        let mut sum: i128 = self.baseline as i128;
        let mut i: usize = 0;
        while i < self.transactions.len()
            invariant
                i <= self.transactions@.len(),
                sum == slots_at(self.baseline as int, self.transactions@.take(i as int), t as int),
                -(i as int) * 0x8000_0000 <= sum <= self.baseline + (i as int) * 0x8000_0000,
            decreases self.transactions@.len() - i,
        {
            proof {
                let txs = self.transactions@;
                assert(txs.take(i + 1).drop_last() =~= txs.take(i as int));
                assert(txs.take(i + 1).last() == txs[i as int]);
            }
            let tx = self.transactions[i];
            if tx.effective_at <= t {
                sum = sum + tx.delta as i128;
            }
            i = i + 1;
        }
        proof {
            assert(self.transactions@.take(self.transactions@.len() as int) =~= self.transactions@);
        }
        sum
    }

    /// The active slot count at instant `at`.
    pub fn active_slots_at(&self, at: u64) -> (r: u32)
        requires
            self.wf(),
        ensures
            r == self.spec_active_at(at as int),
    {
        let c = self.count_at(at);
        proof {
            assert(0 <= slots_at(self.baseline as int, self.transactions@, at as int) <= u32::MAX);
        }
        c as u32
    }

    /// Whether `count + delta` stays in range at every instant from `start` on.
    fn fits_from(&self, start: u64, delta: i32) -> (r: bool)
        requires
            self.wf(),
        ensures
            r == shift_fits(self.baseline as int, self.transactions@, start as int, delta as int),
    {
        let ghost base = self.baseline as int;
        let ghost txs = self.transactions@;
        let v = self.count_at(start) + delta as i128;
        if v < 0 || v > u32::MAX as i128 {
            return false;
        }
        let mut i: usize = 0;
        while i < self.transactions.len()
            invariant
                self.wf(),
                i <= txs.len(),
                txs == self.transactions@,
                base == self.baseline,
                0 <= slots_at(base, txs, start as int) + delta <= u32::MAX,
                forall|k: int|
                    0 <= k < i && txs[k].effective_at >= start ==> 0 <= #[trigger] slots_at(
                        base,
                        txs,
                        txs[k].effective_at as int,
                    ) + delta <= u32::MAX,
            decreases txs.len() - i,
        {
            let e = self.transactions[i].effective_at;
            if e >= start {
                let w = self.count_at(e) + delta as i128;
                if w < 0 || w > u32::MAX as i128 {
                    return false;
                }
            }
            i = i + 1;
        }
        proof {
            assert forall|t: int| t >= start implies 0 <= #[trigger] slots_at(base, txs, t) + delta
                <= u32::MAX by {
                lemma_last_point(txs, start as int, t);
                let p = last_point(txs, start as int, t);
                lemma_slots_between(base, txs, p, t);
                if p != start {
                    let k = choose|k: int| 0 <= k < txs.len() && txs[k].effective_at == p;
                    assert(txs[k].effective_at >= start);
                }
            }
        }
        true
    }

    /// Applies a change of `delta` slots at the instant `second_of_day`
    /// seconds into `at_date`, inside the current billing `period`.
    ///
    /// An increase takes effect at once: it is recorded at that instant, and
    /// a supplemental line bills the `delta` new slots at `rate` for the rest
    /// of the period, prorated by days. A decrease is recorded at once but
    /// takes effect at the end of the period, so the count reported back is
    /// the count before it. A change that would take the count out of
    /// `0..=u32::MAX` at any instant is refused, and a refusal records
    /// nothing.
    pub fn apply_delta(
        &mut self,
        delta: i32,
        at_date: CivilDate,
        second_of_day: u32,
        period: Period,
        rate: u64,
        name: String,
    ) -> (r: Result<SlotChange, LedgerError>)
        requires
            old(self).wf(),
        ensures
            final(self).wf(),
            final(self).spec_baseline() == old(self).spec_baseline(),
            final(self).spec_ids() == old(self).spec_ids(),
            r is Err ==> final(self).spec_transactions() == old(self).spec_transactions(),
            ({
                let base = old(self).spec_baseline();
                let txs = old(self).spec_transactions();
                let at = instant_of(at_date, second_of_day as int);
                let end = instant_of(period.to, 0);
                let tail = Period { from: at_date, to: period.to };
                if delta == 0 {
                    r == Err::<SlotChange, LedgerError>(LedgerError::ZeroDelta)
                } else if !within_period(period, at_date, second_of_day) {
                    r == Err::<SlotChange, LedgerError>(LedgerError::OutsidePeriod)
                } else if delta > 0 {
                    if !shift_fits(base, txs, at, delta as int) {
                        r == Err::<SlotChange, LedgerError>(LedgerError::SlotLimitExceeded)
                    } else if prorated_unit_price(rate as int, period, tail) * delta <= u64::MAX {
                        &&& r is Ok
                        &&& final(self).spec_transactions() == txs.push(
                            SlotTransaction { delta, effective_at: at as u64 },
                        )
                        &&& r->Ok_0.active_slots == slots_at(base, txs, at) + delta
                        &&& is_line_result(
                            Ok(r->Ok_0.line),
                            name@,
                            rate,
                            delta as u64,
                            period,
                            tail,
                        )
                    } else {
                        r == Err::<SlotChange, LedgerError>(
                            LedgerError::Billing(BillingError::AmountOverflow),
                        )
                    }
                } else {
                    if !shift_fits(base, txs, end, delta as int) {
                        r == Err::<SlotChange, LedgerError>(LedgerError::BelowFloor)
                    } else {
                        &&& r is Ok
                        &&& final(self).spec_transactions() == txs.push(
                            SlotTransaction { delta, effective_at: end as u64 },
                        )
                        &&& r->Ok_0.active_slots == slots_at(base, txs, at)
                        &&& r->Ok_0.line is None
                    }
                }
            }),
    {
        if delta == 0 {
            return Err(LedgerError::ZeroDelta);
        }
        if !at_date.is_valid() || !period.from.is_valid() || !period.to.is_valid() || second_of_day
            >= SECONDS_PER_DAY as u32 {
            return Err(LedgerError::OutsidePeriod);
        }
        let day = at_date.day_number();
        if day < period.from.day_number() || day >= period.to.day_number() {
            return Err(LedgerError::OutsidePeriod);
        }
        proof {
            lemma_day_index_bounds(at_date);
            lemma_day_index_bounds(period.to);
        }
        let at = at_date.start_seconds() + second_of_day as u64;
        let end = period.to.start_seconds();
        let ghost base = self.baseline as int;
        let ghost txs = self.transactions@;
        if delta > 0 {
            if !self.fits_from(at, delta) {
                return Err(LedgerError::SlotLimitExceeded);
            }
            let tail = Period { from: at_date, to: period.to };
            let line = compute_line_item(name, rate, delta as u64, period, tail);
            match line {
                Err(e) => {
                    return Err(LedgerError::Billing(e));
                },
                Ok(line) => {
                    let before = self.count_at(at);
                    let tx = SlotTransaction { delta, effective_at: at };
                    self.transactions.push(tx);
                    proof {
                        lemma_push_in_range(base, txs, tx);
                    }
                    Ok(SlotChange { active_slots: (before + delta as i128) as u32, line })
                },
            }
        } else {
            if !self.fits_from(end, delta) {
                return Err(LedgerError::BelowFloor);
            }
            let before = self.count_at(at);
            let tx = SlotTransaction { delta, effective_at: end };
            self.transactions.push(tx);
            proof {
                lemma_push_in_range(base, txs, tx);
                assert(0 <= slots_at(base, txs, at as int) <= u32::MAX);
            }
            Ok(SlotChange { active_slots: before as u32, line: None })
        }
    }
}

/// However the ledger was built by accepted changes, no instant has a
/// negative count: every accepted change keeps the ledger well formed, and a
/// well-formed ledger counts at least zero slots at every instant.
pub proof fn lemma_active_never_negative(ledger: &SlotLedger, t: int)
    requires
        ledger.wf(),
    ensures
        0 <= ledger.spec_active_at(t) <= u32::MAX,
{
    assert(0 <= slots_at(ledger.spec_baseline(), ledger.spec_transactions(), t));
}

/// The latest instant in `[start, t]` that is `start` or the effective time of
/// a change.
pub open spec fn last_point(txs: Seq<SlotTransaction>, start: int, t: int) -> int
    decreases txs.len(),
{
    if txs.len() == 0 {
        start
    } else {
        let p = last_point(txs.drop_last(), start, t);
        let e = txs.last().effective_at as int;
        if start <= e && e <= t && e > p {
            e
        } else {
            p
        }
    }
}

proof fn lemma_last_point(txs: Seq<SlotTransaction>, start: int, t: int)
    requires
        start <= t,
    ensures
        start <= last_point(txs, start, t) <= t,
        last_point(txs, start, t) == start || exists|k: int|
            0 <= k < txs.len() && txs[k].effective_at == last_point(txs, start, t),
        forall|k: int|
            0 <= k < txs.len() && start <= txs[k].effective_at <= t ==> txs[k].effective_at
                <= last_point(txs, start, t),
    decreases txs.len(),
{
    if txs.len() > 0 {
        let d = txs.drop_last();
        lemma_last_point(d, start, t);
        let p = last_point(d, start, t);
        if p != start {
            let k = choose|k: int| 0 <= k < d.len() && d[k].effective_at == p;
            assert(txs[k] == d[k]);
        }
        assert forall|k: int|
            0 <= k < txs.len() && start <= txs[k].effective_at <= t implies txs[k].effective_at
                <= last_point(txs, start, t) by {
            if k < d.len() {
                assert(txs[k] == d[k]);
            }
        }
    }
}

/// No change takes effect in `(p, t]`, so the count at `t` is the count at `p`.
proof fn lemma_slots_between(baseline: int, txs: Seq<SlotTransaction>, p: int, t: int)
    requires
        p <= t,
        forall|k: int| 0 <= k < txs.len() && p <= txs[k].effective_at <= t ==> txs[k].effective_at <= p,
    ensures
        slots_at(baseline, txs, p) == slots_at(baseline, txs, t),
    decreases txs.len(),
{
    if txs.len() > 0 {
        let d = txs.drop_last();
        assert forall|k: int| 0 <= k < d.len() && p <= d[k].effective_at <= t implies d[k].effective_at
            <= p by {
            assert(d[k] == txs[k]);
        }
        lemma_slots_between(baseline, d, p, t);
    }
}

/// Recording a change that fits from its effective instant on keeps every
/// count in range.
proof fn lemma_push_in_range(baseline: int, txs: Seq<SlotTransaction>, tx: SlotTransaction)
    requires
        counts_in_range(baseline, txs),
        shift_fits(baseline, txs, tx.effective_at as int, tx.delta as int),
    ensures
        counts_in_range(baseline, txs.push(tx)),
{
    let n = txs.push(tx);
    assert(n.drop_last() =~= txs);
    assert forall|t: int| 0 <= #[trigger] slots_at(baseline, n, t) <= u32::MAX by {
        assert(0 <= slots_at(baseline, txs, t) <= u32::MAX);
    }
}

} // verus!
