use meteroid::billing::{
    compute_line_item, first_invoice_line, BillingError, BillingPeriod, Period,
};
use meteroid::dates::CivilDate;

fn date(y: u32, m: u32, d: u32) -> CivilDate {
    CivilDate::from_ymd(y, m, d).unwrap()
}

#[test]
fn prorated_first_month_for_billing_day_ten() {
    let line = first_invoice_line("Seats".to_string(), 1000, 1, date(2023, 1, 1), 10, BillingPeriod::Monthly)
        .unwrap()
        .unwrap();
    assert_eq!(line.unit_price, 290);
    assert_eq!(line.total, 290);
    assert_eq!(line.quantity, Some(1));
    assert_eq!(line.period.from, date(2023, 1, 1));
    assert_eq!(line.period.to, date(2023, 1, 10));
}

#[test]
fn test_subscription_create_invoice_seats() {
    let seats_quantity = 15;
    let line = first_invoice_line(
        "Seats".to_string(),
        1000,
        seats_quantity,
        date(2023, 1, 1),
        10,
        BillingPeriod::Monthly,
    )
    .unwrap()
    .unwrap();
    assert_eq!(line.name, "Seats");
    assert_eq!(line.quantity, Some(seats_quantity));
    // monthly unit price 1000 * 9 days / 31 days, rounded
    let prorated_unit_price: u64 = 290;
    assert_eq!(line.unit_price, prorated_unit_price);
    assert_eq!(line.total, prorated_unit_price * seats_quantity);
    assert_eq!(line.period.from, date(2023, 1, 1));
    assert_eq!(line.period.to, date(2023, 1, 10));
}

#[test]
fn test_subscription_create_invoice_rate() {
    let start = date(2023, 1, 1);

    let monthly = first_invoice_line("Subscription Rate".to_string(), 3500, 1, start, 1, BillingPeriod::Monthly)
        .unwrap()
        .unwrap();
    assert_eq!(monthly.name, "Subscription Rate");
    assert_eq!(monthly.quantity, Some(1));
    assert_eq!(monthly.unit_price, 3500);
    assert_eq!(monthly.total, 3500);
    assert_eq!(monthly.period.from, start);
    assert_eq!(monthly.period.to, date(2023, 2, 1));

    let annual = first_invoice_line("Subscription Rate".to_string(), 15900, 1, start, 1, BillingPeriod::Annual)
        .unwrap()
        .unwrap();
    assert_eq!(annual.name, "Subscription Rate");
    assert_eq!(annual.quantity, Some(1));
    assert_eq!(annual.unit_price, 15900);
    assert_eq!(annual.total, 15900);
    assert_eq!(annual.period.from, start);
    assert_eq!(annual.period.to, date(2024, 1, 1));

    let prorated = first_invoice_line("Subscription Rate".to_string(), 3500, 1, start, 30, BillingPeriod::Monthly)
        .unwrap()
        .unwrap();
    assert_eq!(prorated.name, "Subscription Rate");
    assert_eq!(prorated.quantity, Some(1));
    // 3500 * 29 / 31 = 3274.19...
    assert_eq!(prorated.unit_price, 3274);
    assert_eq!(prorated.total, 3274);
    assert_eq!(prorated.period.from, start);
    assert_eq!(prorated.period.to, date(2023, 1, 30));
}

#[test]
fn test_subscription_create_invoice_usage() {
    let slots_quantity = 3;
    let line = first_invoice_line(
        "Organization Slots".to_string(),
        2500,
        slots_quantity,
        date(2023, 1, 1),
        10,
        BillingPeriod::Monthly,
    )
    .unwrap()
    .unwrap();
    assert_eq!(line.name, "Organization Slots");
    assert_eq!(line.quantity, Some(slots_quantity));
    // 2500 * 9 / 31 = 725.8...
    assert_eq!(line.unit_price, 726);
    assert_eq!(line.total, 726 * slots_quantity);
    assert_eq!(line.period.from, date(2023, 1, 1));
    assert_eq!(line.period.to, date(2023, 1, 10));
}

#[test]
fn full_period_total_is_rate_times_quantity() {
    let p = Period { from: date(2023, 3, 15), to: date(2023, 4, 15) };
    let line = compute_line_item("Seats".to_string(), 999_999, 7, p, p).unwrap().unwrap();
    assert_eq!(line.unit_price, 999_999);
    assert_eq!(line.total, 999_999 * 7);
}

#[test]
fn anchored_starts_are_never_prorated() {
    for (y, m, d) in [(2023u32, 1u32, 31u32), (2024, 2, 29), (2023, 7, 15), (2023, 12, 1)] {
        for unit in [BillingPeriod::Monthly, BillingPeriod::Quarterly, BillingPeriod::Annual] {
            let line = first_invoice_line("Rate".to_string(), 12_345, 2, date(y, m, d), d, unit)
                .unwrap()
                .unwrap();
            assert_eq!(line.unit_price, 12_345);
            assert_eq!(line.total, 24_690);
            assert_eq!(line.period.from, date(y, m, d));
        }
    }
}

#[test]
fn annual_period_from_month_end_is_clamped() {
    let line = first_invoice_line("Rate".to_string(), 100, 1, date(2024, 2, 29), 29, BillingPeriod::Annual)
        .unwrap()
        .unwrap();
    assert_eq!(line.period.to, date(2025, 2, 28));
    assert_eq!(line.unit_price, 100);
}

#[test]
fn halves_round_up() {
    // 15 of 30 days at a rate of 1 is one half
    let committed = Period { from: date(2023, 6, 1), to: date(2023, 7, 1) };
    let interval = Period { from: date(2023, 6, 1), to: date(2023, 6, 16) };
    let line = compute_line_item("Seats".to_string(), 1, 1, committed, interval).unwrap().unwrap();
    assert_eq!(line.unit_price, 1);
    // 14 of 30 days at a rate of 1 is below a half
    let interval = Period { from: date(2023, 6, 1), to: date(2023, 6, 15) };
    let line = compute_line_item("Seats".to_string(), 1, 1, committed, interval).unwrap().unwrap();
    assert_eq!(line.unit_price, 0);
}

#[test]
fn leap_february_counts_twenty_nine_days() {
    let committed = Period { from: date(2024, 2, 1), to: date(2024, 3, 1) };
    let interval = Period { from: date(2024, 2, 1), to: date(2024, 2, 15) };
    let line = compute_line_item("Seats".to_string(), 2900, 1, committed, interval).unwrap().unwrap();
    assert_eq!(line.unit_price, 1400);
}

#[test]
fn zero_length_interval_gives_zero_amount_line() {
    let committed = Period { from: date(2023, 1, 1), to: date(2023, 2, 1) };
    let interval = Period { from: date(2023, 1, 20), to: date(2023, 1, 20) };
    let line = compute_line_item("Seats".to_string(), 1000, 4, committed, interval).unwrap().unwrap();
    assert_eq!(line.unit_price, 0);
    assert_eq!(line.total, 0);
    assert_eq!(line.period, interval);
}

#[test]
fn zero_quantity_gives_no_line() {
    let p = Period { from: date(2023, 1, 1), to: date(2023, 2, 1) };
    assert!(compute_line_item("Seats".to_string(), 1000, 0, p, p).unwrap().is_none());
}

#[test]
fn interval_outside_period_is_rejected() {
    let committed = Period { from: date(2023, 1, 1), to: date(2023, 2, 1) };
    let interval = Period { from: date(2023, 1, 20), to: date(2023, 2, 2) };
    let r = compute_line_item("Seats".to_string(), 1000, 1, committed, interval);
    assert_eq!(r.unwrap_err(), BillingError::InvalidPeriod);
    let bad = CivilDate { year: 2023, month: 2, day: 30 };
    let r = compute_line_item("Seats".to_string(), 1000, 1, Period { from: bad, to: bad }, committed);
    assert_eq!(r.unwrap_err(), BillingError::InvalidPeriod);
}

#[test]
fn overflowing_total_is_rejected() {
    let p = Period { from: date(2023, 1, 1), to: date(2023, 2, 1) };
    let r = compute_line_item("Seats".to_string(), u64::MAX, 2, p, p);
    assert_eq!(r.unwrap_err(), BillingError::AmountOverflow);
}

#[test]
fn invalid_billing_day_is_rejected() {
    let r = first_invoice_line("Seats".to_string(), 1000, 1, date(2023, 1, 1), 32, BillingPeriod::Monthly);
    assert_eq!(r.unwrap_err(), BillingError::InvalidBillingDay);
    let r = first_invoice_line("Seats".to_string(), 1000, 1, date(2023, 1, 1), 0, BillingPeriod::Monthly);
    assert_eq!(r.unwrap_err(), BillingError::InvalidBillingDay);
}

#[test]
fn stub_after_billing_day_runs_to_next_month() {
    // start on the 20th, billing day 10: bill [Jan 20, Feb 10) of [Jan 10, Feb 10)
    let line = first_invoice_line("Seats".to_string(), 3100, 1, date(2023, 1, 20), 10, BillingPeriod::Monthly)
        .unwrap()
        .unwrap();
    assert_eq!(line.period.from, date(2023, 1, 20));
    assert_eq!(line.period.to, date(2023, 2, 10));
    assert_eq!(line.unit_price, 2100);
}
