//! Proration and line items: what a component costs over a part of its
//! committed billing period.
use vstd::prelude::*;

use crate::dates::{
    date_before, date_in_month, day_index, days_between, days_in_month, lemma_day_index_bounds,
    lemma_day_index_increasing, month_index, month_index_in_range, shift_months,
    CivilDate,
};

verus! {

/// How often a subscription is billed.
#[derive(Clone, Copy, Debug, PartialEq, Eq, Structural)]
pub enum BillingPeriod {
    Monthly,
    Quarterly,
    Annual,
}

impl BillingPeriod {
    pub open spec fn spec_months(self) -> nat {
        match self {
            BillingPeriod::Monthly => 1,
            BillingPeriod::Quarterly => 3,
            BillingPeriod::Annual => 12,
        }
    }

    /// Length of one period in months.
    pub fn months(&self) -> (r: u32)
        ensures
            r == self.spec_months(),
    {
        match self {
            BillingPeriod::Monthly => 1,
            BillingPeriod::Quarterly => 3,
            BillingPeriod::Annual => 12,
        }
    }
}

/// The half-open date interval `[from, to)`.
#[derive(Clone, Copy, Debug, PartialEq, Eq, Structural)]
pub struct Period {
    pub from: CivilDate,
    pub to: CivilDate,
}

/// One priced entry of an invoice; amounts are in the currency's smallest unit.
#[derive(Debug)]
pub struct LineItem {
    pub name: String,
    pub quantity: Option<u64>,
    pub unit_price: u64,
    pub total: u64,
    pub period: Period,
}

/// Why a line item could not be computed.
#[derive(Clone, Copy, Debug, PartialEq, Eq, Structural)]
pub enum BillingError {
    /// The dates are not real dates, the committed period is empty, or the
    /// interval does not lie inside the committed period.
    InvalidPeriod,
    /// A billing day outside 1 to 31.
    InvalidBillingDay,
    /// The line's total does not fit in 64 bits.
    AmountOverflow,
}

/// `num / den` rounded to the nearest integer, halves rounded up.
pub open spec fn round_half_up(num: int, den: int) -> int {
    (2 * num + den) / (2 * den)
}

/// `interval` lies inside the non-empty committed period, all four dates real.
pub open spec fn interval_within(committed: Period, interval: Period) -> bool {
    &&& committed.from.valid()
    &&& committed.to.valid()
    &&& interval.from.valid()
    &&& interval.to.valid()
    &&& day_index(committed.from) < day_index(committed.to)
    &&& day_index(committed.from) <= day_index(interval.from)
    &&& day_index(interval.from) <= day_index(interval.to)
    &&& day_index(interval.to) <= day_index(committed.to)
}

/// The per-unit price for `interval`: the period's rate scaled by the share of
/// the committed period's days that the interval covers.
pub open spec fn prorated_unit_price(rate: int, committed: Period, interval: Period) -> int {
    round_half_up(
        rate * days_between(interval.from, interval.to),
        days_between(committed.from, committed.to),
    )
}

/// `r` is the outcome of pricing `quantity` units at `rate` over `interval`
/// of the committed period.
pub open spec fn is_line_result(
    r: Result<Option<LineItem>, BillingError>,
    name: Seq<char>,
    rate: u64,
    quantity: u64,
    committed: Period,
    interval: Period,
) -> bool {
    let unit = prorated_unit_price(rate as int, committed, interval);
    if !interval_within(committed, interval) {
        r == Err::<Option<LineItem>, BillingError>(BillingError::InvalidPeriod)
    } else if quantity == 0 {
        r == Ok::<Option<LineItem>, BillingError>(None)
    } else if unit * quantity > u64::MAX {
        r == Err::<Option<LineItem>, BillingError>(BillingError::AmountOverflow)
    } else {
        &&& r is Ok
        &&& r->Ok_0 is Some
        &&& r->Ok_0->Some_0.name@ == name
        &&& r->Ok_0->Some_0.quantity == Some(quantity)
        &&& r->Ok_0->Some_0.unit_price == unit
        &&& r->Ok_0->Some_0.total == unit * quantity
        &&& r->Ok_0->Some_0.period == interval
    }
}

proof fn lemma_rounded_share_at_most_rate(rate: int, days: int, period_days: int)
    requires
        0 <= rate,
        0 <= days <= period_days,
        0 < period_days,
    ensures
        0 <= round_half_up(rate * days, period_days) <= rate,
{
    assert(rate * days <= rate * period_days) by (nonlinear_arith)
        requires
            0 <= rate,
            days <= period_days,
    ;
    assert(0 <= rate * days) by (nonlinear_arith)
        requires
            0 <= rate,
            0 <= days,
    ;
    let num = 2 * (rate * days) + period_days;
    let den = 2 * period_days;
    assert(num < den * (rate + 1)) by (nonlinear_arith)
        requires
            num == 2 * (rate * days) + period_days,
            den == 2 * period_days,
            rate * days <= rate * period_days,
            0 < period_days,
    ;
    assert(num / den <= rate) by (nonlinear_arith)
        requires
            0 <= num < den * (rate + 1),
            0 < den,
    ;
    assert(0 <= num / den) by (nonlinear_arith)
        requires
            0 <= num,
            0 < den,
    ;
}

/// `rate * days / period_days`, rounded half up.
fn prorate(rate: u64, days: u64, period_days: u64) -> (r: u64)
    requires
        days <= period_days,
        0 < period_days <= 4_000_000,
    ensures
        r == round_half_up(rate * days, period_days as int),
{
    proof {
        lemma_rounded_share_at_most_rate(rate as int, days as int, period_days as int);
        assert(rate * days <= 0xffff_ffff_ffff_ffff * 4_000_000) by (nonlinear_arith)
            requires
                rate <= 0xffff_ffff_ffff_ffff,
                days <= 4_000_000,
        ;
    }
    let num: u128 = 2 * (rate as u128 * days as u128) + period_days as u128;
    let den: u128 = 2 * period_days as u128;
    (num / den) as u64
}

/// Prices `quantity` units at `rate` per committed period over `interval`.
///
/// Where the interval is the whole committed period the unit price is the rate
/// itself; otherwise it is the rate times the interval's days over the
/// period's days, rounded half up. A quantity of zero gives no line; an empty
/// interval gives a line of amount zero.
pub fn compute_line_item(
    name: String,
    rate: u64,
    quantity: u64,
    committed: Period,
    interval: Period,
) -> (r: Result<Option<LineItem>, BillingError>)
    ensures
        is_line_result(r, name@, rate, quantity, committed, interval),
{
    if !committed.from.is_valid() || !committed.to.is_valid() || !interval.from.is_valid()
        || !interval.to.is_valid() {
        return Err(BillingError::InvalidPeriod);
    }
    let c_from = committed.from.day_number();
    let c_to = committed.to.day_number();
    let i_from = interval.from.day_number();
    let i_to = interval.to.day_number();
    if !(c_from < c_to && c_from <= i_from && i_from <= i_to && i_to <= c_to) {
        return Err(BillingError::InvalidPeriod);
    }
    if quantity == 0 {
        return Ok(None);
    }
    proof {
        lemma_day_index_bounds(committed.to);
    }
    let unit = prorate(rate, i_to - i_from, c_to - c_from);
    match unit.checked_mul(quantity) {
        None => Err(BillingError::AmountOverflow),
        Some(total) => Ok(
            Some(LineItem { name, quantity: Some(quantity), unit_price: unit, total, period: interval }),
        ),
    }
}

/// The first billing anchor strictly after `start`: the next date whose day
/// is `billing_day`, or the last day of a month shorter than that.
pub open spec fn next_anchor(start: CivilDate, billing_day: int) -> CivilDate {
    let this_month = date_in_month(month_index(start), billing_day);
    if this_month.day > start.day {
        this_month
    } else {
        date_in_month(month_index(start) + 1, billing_day)
    }
}

/// `start` falls on a billing anchor for `billing_day`.
pub open spec fn on_anchor(start: CivilDate, billing_day: int) -> bool {
    date_in_month(month_index(start), billing_day).day == start.day
}

/// The committed period and the billed interval of a subscription's first
/// invoice, where the calendar reaches them.
///
/// A start on the billing day opens a full period. Any other start bills the
/// stub from the start to the next anchor, as a share of the period that ends
/// at that anchor.
pub open spec fn first_periods(start: CivilDate, billing_day: int, unit: BillingPeriod) -> Option<
    (Period, Period),
> {
    let k = unit.spec_months() as int;
    if on_anchor(start, billing_day) {
        if month_index_in_range(month_index(start) + k) {
            let full = Period { from: start, to: shift_months(start, k) };
            Some((full, full))
        } else {
            None
        }
    } else {
        let anchor = next_anchor(start, billing_day);
        let anchor_in_range = date_in_month(month_index(start), billing_day).day > start.day
            || month_index_in_range(month_index(start) + 1);
        if anchor_in_range && month_index_in_range(month_index(anchor) - k) {
            Some(
                (
                    Period { from: shift_months(anchor, -k), to: anchor },
                    Period { from: start, to: anchor },
                ),
            )
        } else {
            None
        }
    }
}

/// The line of a subscription's first invoice for one priced component.
///
/// `billing_day` (1 to 31) is the day of the month on which periods start.
pub fn first_invoice_line(
    name: String,
    rate: u64,
    quantity: u64,
    start: CivilDate,
    billing_day: u32,
    unit: BillingPeriod,
) -> (r: Result<Option<LineItem>, BillingError>)
    ensures
        !(1 <= billing_day <= 31) ==> r == Err::<Option<LineItem>, BillingError>(
            BillingError::InvalidBillingDay,
        ),
        1 <= billing_day <= 31 && !start.valid() ==> r == Err::<Option<LineItem>, BillingError>(
            BillingError::InvalidPeriod,
        ),
        1 <= billing_day <= 31 && start.valid() && first_periods(start, billing_day as int, unit)
            is None ==> r == Err::<Option<LineItem>, BillingError>(BillingError::InvalidPeriod),
        1 <= billing_day <= 31 && start.valid() && first_periods(start, billing_day as int, unit)
            is Some ==> is_line_result(
            r,
            name@,
            rate,
            quantity,
            first_periods(start, billing_day as int, unit)->Some_0.0,
            first_periods(start, billing_day as int, unit)->Some_0.1,
        ),
        1 <= billing_day <= 31 && start.valid() && first_periods(start, billing_day as int, unit)
            is Some ==> interval_within(
            first_periods(start, billing_day as int, unit)->Some_0.0,
            first_periods(start, billing_day as int, unit)->Some_0.1,
        ),
{
    if billing_day < 1 || billing_day > 31 {
        return Err(BillingError::InvalidBillingDay);
    }
    if !start.is_valid() {
        return Err(BillingError::InvalidPeriod);
    }
    let k = unit.months();
    proof {
        lemma_month_index_in_range_of_valid(start);
        if first_periods(start, billing_day as int, unit) is Some {
            lemma_first_periods_within(start, billing_day as int, unit);
        }
    }
    let last = days_in_month(start.year, start.month);
    let anchor_day = if billing_day <= last {
        billing_day
    } else {
        last
    };
    if anchor_day == start.day {
        match start.checked_add_months(k) {
            None => Err(BillingError::InvalidPeriod),
            Some(end) => {
                let full = Period { from: start, to: end };
                compute_line_item(name, rate, quantity, full, full)
            },
        }
    } else {
        let first_of_month = CivilDate { year: start.year, month: start.month, day: 1 };
        let anchor_month = if anchor_day > start.day {
            Some(first_of_month)
        } else {
            first_of_month.checked_add_months(1)
        };
        match anchor_month {
            None => Err(BillingError::InvalidPeriod),
            Some(m) => {
                let m_last = days_in_month(m.year, m.month);
                let anchor = CivilDate {
                    year: m.year,
                    month: m.month,
                    day: if billing_day <= m_last {
                        billing_day
                    } else {
                        m_last
                    },
                };
                proof {
                    assert(month_index(m) == month_index(start) || month_index(m) == month_index(
                        start,
                    ) + 1);
                    if anchor_day <= start.day {
                        assert(month_index_in_range(month_index(start) + 1));
                    } else {
                        lemma_month_index_in_range_of_valid(start);
                    }
                    assert(anchor == next_anchor(start, billing_day as int));
                }
                match anchor.checked_sub_months(k) {
                    None => Err(BillingError::InvalidPeriod),
                    Some(period_start) => compute_line_item(
                        name,
                        rate,
                        quantity,
                        Period { from: period_start, to: anchor },
                        Period { from: start, to: anchor },
                    ),
                }
            },
        }
    }
}

proof fn lemma_date_in_month(mi: int, day: int)
    requires
        month_index_in_range(mi),
        1 <= day,
    ensures
        date_in_month(mi, day).valid(),
        month_index(date_in_month(mi, day)) == mi,
        date_in_month(mi, day).day <= day,
{
}

proof fn lemma_earlier_month(a: CivilDate, b: CivilDate)
    requires
        a.valid(),
        b.valid(),
        month_index(a) < month_index(b),
    ensures
        day_index(a) < day_index(b),
{
    assert(date_before(a, b));
    lemma_day_index_increasing(a, b);
}

/// The first periods of a subscription always fit: the billed interval lies
/// inside its non-empty committed period, so the first line is priced
/// whenever the calendar reaches those periods.
pub proof fn lemma_first_periods_within(start: CivilDate, billing_day: int, unit: BillingPeriod)
    requires
        start.valid(),
        1 <= billing_day <= 31,
        first_periods(start, billing_day, unit) is Some,
    ensures
        interval_within(
            first_periods(start, billing_day, unit)->Some_0.0,
            first_periods(start, billing_day, unit)->Some_0.1,
        ),
{
    let k = unit.spec_months() as int;
    let mi = month_index(start);
    lemma_month_index_in_range_of_valid(start);
    if on_anchor(start, billing_day) {
        crate::dates::lemma_shift_forward_later(start, k);
    } else {
        let this_month = date_in_month(mi, billing_day);
        lemma_date_in_month(mi, billing_day);
        let anchor = next_anchor(start, billing_day);
        if this_month.day > start.day {
            assert(date_before(start, anchor));
            lemma_day_index_increasing(start, anchor);
        } else {
            lemma_date_in_month(mi + 1, billing_day);
            lemma_earlier_month(start, anchor);
        }
        let period_start = shift_months(anchor, -k);
        lemma_date_in_month(month_index(anchor) - k, anchor.day as int);
        lemma_earlier_month(period_start, anchor);
        if month_index(period_start) < mi {
            lemma_earlier_month(period_start, start);
        } else {
            assert(month_index(period_start) == mi);
            assert(period_start.day <= start.day);
            if period_start.day < start.day {
                assert(date_before(period_start, start));
                lemma_day_index_increasing(period_start, start);
            }
        }
    }
}

proof fn lemma_month_index_in_range_of_valid(d: CivilDate)
    requires
        d.valid(),
    ensures
        month_index_in_range(month_index(d)),
        month_index(d) / 12 == d.year,
        month_index(d) % 12 + 1 == d.month,
{
}

/// A line priced over its whole committed period carries the rate itself as
/// its unit price and rate times quantity as its total: whole periods have no
/// rounding drift.
pub proof fn lemma_full_period_exact(
    r: Result<Option<LineItem>, BillingError>,
    name: Seq<char>,
    rate: u64,
    quantity: u64,
    committed: Period,
)
    requires
        is_line_result(r, name, rate, quantity, committed, committed),
        r matches Ok(Some(_)),
    ensures
        r->Ok_0->Some_0.unit_price == rate,
        r->Ok_0->Some_0.total == rate * quantity,
{
    lemma_whole_period_unit_price(rate as int, committed);
}

/// Pricing a committed period in full gives back the rate exactly.
pub proof fn lemma_whole_period_unit_price(rate: int, committed: Period)
    requires
        0 <= rate,
        day_index(committed.from) < day_index(committed.to),
    ensures
        prorated_unit_price(rate, committed, committed) == rate,
{
    let d = days_between(committed.from, committed.to);
    assert((2 * (rate * d) + d) / (2 * d) == rate) by (nonlinear_arith)
        requires
            0 < d,
            0 <= rate,
    ;
}

/// A subscription whose start falls on its billing day is billed a whole
/// period first, never a prorated share, whatever the day of the month and
/// whether it is billed monthly, quarterly or yearly.
pub proof fn lemma_anchored_start_not_prorated(
    start: CivilDate,
    billing_day: int,
    unit: BillingPeriod,
    rate: u64,
)
    requires
        start.valid(),
        1 <= billing_day <= 31,
        on_anchor(start, billing_day),
        first_periods(start, billing_day, unit) is Some,
    ensures
        first_periods(start, billing_day, unit)->Some_0.0 == first_periods(
            start,
            billing_day,
            unit,
        )->Some_0.1,
        interval_within(
            first_periods(start, billing_day, unit)->Some_0.0,
            first_periods(start, billing_day, unit)->Some_0.1,
        ),
        prorated_unit_price(
            rate as int,
            first_periods(start, billing_day, unit)->Some_0.0,
            first_periods(start, billing_day, unit)->Some_0.1,
        ) == rate,
{
    let k = unit.spec_months() as int;
    crate::dates::lemma_shift_forward_later(start, k);
    lemma_whole_period_unit_price(rate as int, Period { from: start, to: shift_months(start, k) });
}

} // verus!
