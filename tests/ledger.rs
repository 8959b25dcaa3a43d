use meteroid::billing::{BillingError, Period};
use meteroid::dates::CivilDate;
use meteroid::ledger::{LedgerError, SlotLedger};

fn date(y: u32, m: u32, d: u32) -> CivilDate {
    CivilDate::from_ymd(y, m, d).unwrap()
}

fn at(d: CivilDate, second: u64) -> u64 {
    d.start_seconds() + second
}

#[test]
fn test_slot_subscription_upgrade_downgrade() {
    let start = date(2023, 5, 17);
    let period = Period { from: start, to: start.checked_add_months(1).unwrap() };
    let seats_quantity: u32 = 15;
    let mut ledger = SlotLedger::new(1, 2, seats_quantity);
    let now = 3600;

    assert_eq!(ledger.active_slots_at(at(start, now)), seats_quantity);

    // downgrade -6: recorded, active count unchanged until the period ends
    let change = ledger.apply_delta(-6, start, now as u32, period, 1000, "Seats".to_string()).unwrap();
    assert_eq!(change.active_slots, seats_quantity);
    assert!(change.line.is_none());
    assert_eq!(ledger.active_slots_at(at(start, now)), seats_quantity);
    assert_eq!(ledger.active_slots_at(at(period.to, 0)), seats_quantity - 6);

    // downgrade -10 should fail
    let before = ledger.transactions().len();
    let r = ledger.apply_delta(-10, start, now as u32, period, 1000, "Seats".to_string());
    assert_eq!(r.unwrap_err(), LedgerError::BelowFloor);
    assert_eq!(ledger.transactions().len(), before);

    // upgrade 5
    let change = ledger.apply_delta(5, start, now as u32, period, 1000, "Seats".to_string()).unwrap();
    assert_eq!(change.active_slots, seats_quantity + 5);
    assert_eq!(ledger.active_slots_at(at(start, now)), seats_quantity + 5);

    let line = change.line.unwrap();
    assert_eq!(line.name, "Seats");
    assert_eq!(line.quantity, Some(5));
    assert_eq!(line.unit_price, 1000);
    assert_eq!(line.total, 1000 * 5);
    assert_eq!(line.period.from, start);
    assert_eq!(line.period.to, start.checked_add_months(1).unwrap());
}

#[test]
fn increase_mid_period_bills_the_rest_of_the_period() {
    let period = Period { from: date(2023, 1, 1), to: date(2023, 2, 1) };
    let mut ledger = SlotLedger::new(7, 8, 15);
    let t = date(2023, 1, 11);
    let change = ledger.apply_delta(5, t, 43_200, period, 3100, "Seats".to_string()).unwrap();
    assert_eq!(change.active_slots, 20);
    let line = change.line.unwrap();
    assert_eq!(line.quantity, Some(5));
    // 21 of 31 days at 3100
    assert_eq!(line.unit_price, 2100);
    assert_eq!(line.total, 10_500);
    assert_eq!(line.period, Period { from: t, to: date(2023, 2, 1) });
    assert_eq!(ledger.active_slots_at(at(t, 43_199)), 15);
    assert_eq!(ledger.active_slots_at(at(t, 43_200)), 20);
}

#[test]
fn decrease_to_exactly_zero_is_accepted_and_below_is_not() {
    let period = Period { from: date(2023, 1, 1), to: date(2023, 2, 1) };
    let mut ledger = SlotLedger::new(1, 1, 3);
    let r = ledger.apply_delta(-4, date(2023, 1, 5), 0, period, 10, "Seats".to_string());
    assert_eq!(r.unwrap_err(), LedgerError::BelowFloor);
    assert!(ledger.transactions().is_empty());
    let change = ledger.apply_delta(-3, date(2023, 1, 5), 0, period, 10, "Seats".to_string()).unwrap();
    assert_eq!(change.active_slots, 3);
    assert_eq!(ledger.active_slots_at(at(date(2023, 2, 1), 0)), 0);
    assert_eq!(ledger.active_slots_at(u64::MAX), 0);
}

#[test]
fn later_decrease_cannot_undercut_an_earlier_state() {
    // an increase recorded later but effective earlier does not allow a
    // decrease to take an earlier instant below zero
    let period = Period { from: date(2023, 1, 1), to: date(2023, 2, 1) };
    let mut ledger = SlotLedger::new(1, 1, 0);
    ledger.apply_delta(2, date(2023, 1, 20), 0, period, 10, "Seats".to_string()).unwrap();
    let r = ledger.apply_delta(-2, date(2023, 1, 2), 0, period, 10, "Seats".to_string());
    assert!(r.is_ok());
    assert_eq!(ledger.active_slots_at(at(date(2023, 2, 1), 0)), 0);
    let r = ledger.apply_delta(-1, date(2023, 1, 2), 0, period, 10, "Seats".to_string());
    assert_eq!(r.unwrap_err(), LedgerError::BelowFloor);
}

#[test]
fn invalid_changes_are_refused_without_recording() {
    let period = Period { from: date(2023, 1, 1), to: date(2023, 2, 1) };
    let mut ledger = SlotLedger::new(1, 1, 3);
    let r = ledger.apply_delta(0, date(2023, 1, 5), 0, period, 10, "Seats".to_string());
    assert_eq!(r.unwrap_err(), LedgerError::ZeroDelta);
    let r = ledger.apply_delta(1, date(2023, 2, 1), 0, period, 10, "Seats".to_string());
    assert_eq!(r.unwrap_err(), LedgerError::OutsidePeriod);
    let r = ledger.apply_delta(1, date(2023, 1, 5), 86_400, period, 10, "Seats".to_string());
    assert_eq!(r.unwrap_err(), LedgerError::OutsidePeriod);
    let r = ledger.apply_delta(2, date(2023, 1, 1), 0, period, u64::MAX, "Seats".to_string());
    assert_eq!(r.unwrap_err(), LedgerError::Billing(BillingError::AmountOverflow));
    let mut full = SlotLedger::new(1, 1, u32::MAX);
    let r = full.apply_delta(1, date(2023, 1, 5), 0, period, 10, "Seats".to_string());
    assert_eq!(r.unwrap_err(), LedgerError::SlotLimitExceeded);
    assert!(ledger.transactions().is_empty());
    assert!(full.transactions().is_empty());
    assert_eq!(ledger.subscription_id(), 1);
    assert_eq!(ledger.price_component_id(), 1);
}
