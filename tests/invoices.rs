use meteroid::billing::{LineItem, Period};
use meteroid::dates::CivilDate;
use meteroid::invoices::{
    CursorPaginationRequest, InvoiceExternalStatus, InvoiceKey, InvoiceRow, InvoiceRowLinesPatch,
    InvoiceRowNew, InvoiceStatus, InvoiceTable, InvoicingProvider, PaginationRequest, StoreError,
};
use meteroid::scheduler::{finalize_batch, sweep_to_finalize};

const TENANT: u128 = 0x018c2c82_3df1_7e84_9e05_6e141d0e751a;
const CUSTOMER: u128 = 0x018c345f_7324_7cd2_a692_78e5ab9158e0;
const HOUR: u64 = 3600;

fn date(y: u32, m: u32, d: u32) -> CivilDate {
    CivilDate::from_ymd(y, m, d).unwrap()
}

fn new_invoice(id: u128, provider: InvoicingProvider) -> InvoiceRowNew {
    InvoiceRowNew {
        id,
        tenant_id: TENANT,
        customer_id: CUSTOMER,
        subscription_id: Some(42),
        invoicing_provider: provider,
        invoice_date: date(2023, 1, 1),
        line_items: Vec::new(),
    }
}

fn table_with(ids: &[u128]) -> InvoiceTable {
    let mut table = InvoiceTable::new();
    table.set_invoicing_config(TENANT, 24);
    for id in ids {
        new_invoice(*id, InvoicingProvider::Stripe).insert(&mut table).unwrap();
    }
    table
}

fn row(table: &InvoiceTable, id: u128) -> &InvoiceRow {
    InvoiceRow::find_by_id(table, TENANT, id).unwrap()
}

fn day_start() -> u64 {
    date(2023, 1, 1).start_seconds()
}

fn all(limit: u32) -> CursorPaginationRequest {
    CursorPaginationRequest { cursor: None, limit }
}

#[test]
fn new_invoices_are_drafts_in_id_order() {
    let table = table_with(&[30, 10, 20]);
    let ids: Vec<u128> = table.rows().iter().map(|r| r.id).collect();
    assert_eq!(ids, vec![10, 20, 30]);
    let r = row(&table, 20);
    assert_eq!(r.status, InvoiceStatus::Draft);
    assert_eq!(r.external_status, InvoiceExternalStatus::NotIssued);
    assert!(r.finalized_at.is_none());
    assert!(!r.issued);
    assert_eq!(r.issue_attempts, 0);
}

#[test]
fn duplicate_and_invalid_inserts_are_refused() {
    let mut table = table_with(&[1]);
    assert_eq!(new_invoice(1, InvoicingProvider::Stripe).insert(&mut table).unwrap_err(), StoreError::DuplicateId);
    let mut bad = new_invoice(2, InvoicingProvider::Stripe);
    bad.invoice_date = CivilDate { year: 2023, month: 2, day: 29 };
    assert_eq!(bad.insert(&mut table).unwrap_err(), StoreError::InvalidDate);
    assert_eq!(table.rows().len(), 1);
    assert_eq!(InvoiceRow::find_by_id(&table, TENANT, 2).unwrap_err(), StoreError::NotFound);
    assert_eq!(InvoiceRow::find_by_id(&table, TENANT + 1, 1).unwrap_err(), StoreError::NotFound);
}

#[test]
fn batch_insert_is_all_or_nothing() {
    let mut table = table_with(&[5]);
    let batch = vec![new_invoice(7, InvoicingProvider::Stripe), new_invoice(5, InvoicingProvider::Stripe)];
    assert_eq!(InvoiceRow::insert_invoice_batch(&mut table, batch).unwrap_err(), StoreError::DuplicateId);
    let batch = vec![new_invoice(7, InvoicingProvider::Stripe), new_invoice(7, InvoicingProvider::Stripe)];
    assert_eq!(InvoiceRow::insert_invoice_batch(&mut table, batch).unwrap_err(), StoreError::DuplicateId);
    assert_eq!(table.rows().len(), 1);
    let batch = vec![new_invoice(9, InvoicingProvider::Stripe), new_invoice(3, InvoicingProvider::Manual)];
    let keys = InvoiceRow::insert_invoice_batch(&mut table, batch).unwrap();
    assert_eq!(keys, vec![InvoiceKey { id: 9, tenant_id: TENANT }, InvoiceKey { id: 3, tenant_id: TENANT }]);
    let ids: Vec<u128> = table.rows().iter().map(|r| r.id).collect();
    assert_eq!(ids, vec![3, 5, 9]);
}

#[test]
fn finalize_twice_affects_one_row_once() {
    let mut table = table_with(&[1]);
    let t1 = day_start() + 30 * HOUR;
    assert_eq!(InvoiceRow::finalize(&mut table, 1, TENANT, t1), 1);
    assert_eq!(InvoiceRow::finalize(&mut table, 1, TENANT, t1 + 5), 0);
    let r = row(&table, 1);
    assert_eq!(r.status, InvoiceStatus::Finalized);
    assert_eq!(r.finalized_at, Some(t1));
    assert_eq!(r.data_updated_at, Some(t1));
    assert_eq!(r.updated_at, Some(t1));
    // another tenant's key does not reach the row
    assert_eq!(InvoiceRow::finalize(&mut table, 1, TENANT + 1, t1), 0);
}

#[test]
fn status_moves_forward_only() {
    let mut table = table_with(&[1, 2]);
    let t = day_start() + HOUR;
    assert_eq!(InvoiceRow::update_pending_finalization(&mut table, t), 2);
    assert_eq!(row(&table, 1).status, InvoiceStatus::Pending);
    assert_eq!(InvoiceRow::void(&mut table, 2, TENANT, t), 1);
    assert_eq!(row(&table, 2).status, InvoiceStatus::Void);
    assert_eq!(InvoiceRow::finalize(&mut table, 2, TENANT, t), 0);
    assert_eq!(row(&table, 2).status, InvoiceStatus::Void);
    assert_eq!(InvoiceRow::finalize(&mut table, 1, TENANT, t), 1);
    assert_eq!(InvoiceRow::void(&mut table, 1, TENANT, t), 0);
    assert_eq!(InvoiceRow::update_pending_finalization(&mut table, t), 0);
    assert_eq!(row(&table, 1).status, InvoiceStatus::Finalized);
}

#[test]
fn pending_window_follows_invoice_date_and_grace() {
    let mut table = table_with(&[1]);
    // before the invoice date
    assert_eq!(InvoiceRow::update_pending_finalization(&mut table, day_start() - 1), 0);
    // past the grace window
    assert_eq!(InvoiceRow::update_pending_finalization(&mut table, day_start() + 24 * HOUR + 1), 0);
    // at the end of the window
    assert_eq!(InvoiceRow::update_pending_finalization(&mut table, day_start() + 24 * HOUR), 1);
    assert_eq!(row(&table, 1).updated_at, Some(day_start() + 24 * HOUR));
}

#[test]
fn to_finalize_scan_waits_for_grace_period() {
    let mut table = table_with(&[1, 2, 3]);
    InvoiceRow::void(&mut table, 3, TENANT, 0);
    let page = InvoiceRow::list_to_finalize(&table, day_start() + 24 * HOUR - 1, all(10));
    assert!(page.items.is_empty());
    let page = InvoiceRow::list_to_finalize(&table, day_start() + 24 * HOUR, all(10));
    assert_eq!(page.items.iter().map(|k| k.id).collect::<Vec<_>>(), vec![1, 2]);
    assert_eq!(page.next_cursor, None);
    // a tenant without settings is never due
    let mut other = InvoiceRowNew { tenant_id: TENANT + 1, ..new_invoice(4, InvoicingProvider::Stripe) };
    other.id = 4;
    other.insert(&mut table).unwrap();
    let page = InvoiceRow::list_to_finalize(&table, u64::MAX, all(10));
    assert_eq!(page.items.iter().map(|k| k.id).collect::<Vec<_>>(), vec![1, 2]);
    assert_eq!(table.grace_period_hours(TENANT), Some(24));
    assert_eq!(table.grace_period_hours(TENANT + 1), None);
}

#[test]
fn cursor_pages_resume_after_last_key() {
    let table = table_with(&[1, 2, 3, 4, 5]);
    let now = day_start() + 48 * HOUR;
    let page = InvoiceRow::list_to_finalize(&table, now, all(2));
    assert_eq!(page.items.iter().map(|k| k.id).collect::<Vec<_>>(), vec![1, 2]);
    assert_eq!(page.next_cursor, Some(2));
    let page = InvoiceRow::list_to_finalize(&table, now, CursorPaginationRequest { cursor: Some(2), limit: 2 });
    assert_eq!(page.items.iter().map(|k| k.id).collect::<Vec<_>>(), vec![3, 4]);
    assert_eq!(page.next_cursor, Some(4));
    let page = InvoiceRow::list_to_finalize(&table, now, CursorPaginationRequest { cursor: Some(4), limit: 2 });
    assert_eq!(page.items.iter().map(|k| k.id).collect::<Vec<_>>(), vec![5]);
    assert_eq!(page.next_cursor, None);
    let page = InvoiceRow::list_to_finalize(&table, now, all(0));
    assert!(page.items.is_empty());
    assert_eq!(page.next_cursor, None);
}

#[test]
fn sweep_finalizes_every_due_invoice() {
    let mut table = table_with(&[1, 2, 3, 4, 5, 6, 7]);
    InvoiceRow::void(&mut table, 4, TENANT, 0);
    let now = day_start() + 48 * HOUR;
    sweep_to_finalize(&mut table, now, 2);
    for id in [1, 2, 3, 5, 6, 7] {
        assert_eq!(row(&table, id).status, InvoiceStatus::Finalized);
        assert_eq!(row(&table, id).finalized_at, Some(now));
    }
    assert_eq!(row(&table, 4).status, InvoiceStatus::Void);
    assert!(InvoiceRow::list_to_finalize(&table, now, all(10)).items.is_empty());
}

#[test]
fn finalize_batch_counts_changed_rows() {
    let mut table = table_with(&[1, 2]);
    let keys = vec![
        InvoiceKey { id: 1, tenant_id: TENANT },
        InvoiceKey { id: 1, tenant_id: TENANT },
        InvoiceKey { id: 9, tenant_id: TENANT },
    ];
    assert_eq!(finalize_batch(&mut table, &keys, 77), 1);
    assert_eq!(row(&table, 2).status, InvoiceStatus::Draft);
}

#[test]
fn outdated_scan_finds_uncomputed_and_stale_invoices() {
    let mut table = table_with(&[1, 2, 3]);
    let early = day_start() + HOUR;
    // nothing computed yet: all open invoices are outdated
    let page = InvoiceRow::list_outdated(&table, early, all(10));
    assert_eq!(page.items.len(), 3);
    let patch = InvoiceRowLinesPatch { line_items: Vec::new() };
    assert_eq!(patch.update_lines(1, TENANT, &mut table, early), 1);
    assert_eq!(row(&table, 1).data_updated_at, Some(early));
    InvoiceRow::finalize(&mut table, 3, TENANT, early);
    let page = InvoiceRow::list_outdated(&table, early, all(10));
    assert_eq!(page.items.iter().map(|k| k.id).collect::<Vec<_>>(), vec![2]);
    // more than an hour past the invoice date every open invoice is outdated again
    let page = InvoiceRow::list_outdated(&table, early + 1, all(10));
    assert_eq!(page.items.iter().map(|k| k.id).collect::<Vec<_>>(), vec![1, 2]);
}

#[test]
fn finalized_lines_are_immutable() {
    let mut table = table_with(&[1]);
    InvoiceRow::finalize(&mut table, 1, TENANT, 10);
    let line = LineItem {
        name: "Seats".to_string(),
        quantity: Some(1),
        unit_price: 5,
        total: 5,
        period: Period { from: date(2023, 1, 1), to: date(2023, 2, 1) },
    };
    let patch = InvoiceRowLinesPatch { line_items: vec![line] };
    assert_eq!(patch.update_lines(1, TENANT, &mut table, 20), 0);
    assert!(row(&table, 1).line_items.is_empty());
    assert_eq!(row(&table, 1).data_updated_at, Some(10));
}

#[test]
fn issuance_retries_stop_at_max_attempts() {
    let mut table = table_with(&[1]);
    let max_attempts = 3;
    // a draft is not issued
    assert_eq!(InvoiceRow::issue_error(&mut table, 1, TENANT, "down".to_string(), 5), Ok(0));
    InvoiceRow::finalize(&mut table, 1, TENANT, 10);
    for attempt in 0..max_attempts {
        let page = InvoiceRow::list_to_issue(&table, max_attempts, all(10));
        assert_eq!(page.items, vec![InvoiceKey { id: 1, tenant_id: TENANT }]);
        let r = InvoiceRow::issue_error(&mut table, 1, TENANT, format!("timeout {}", attempt), 100 + attempt as u64);
        assert_eq!(r, Ok(1));
    }
    let r = row(&table, 1);
    assert_eq!(r.issue_attempts, max_attempts);
    assert!(!r.issued);
    assert_eq!(r.last_issue_error.as_deref(), Some("timeout 2"));
    assert_eq!(r.last_issue_attempt_at, Some(102));
    assert!(InvoiceRow::list_to_issue(&table, max_attempts, all(10)).items.is_empty());
}

#[test]
fn issue_success_marks_issued_once() {
    let mut table = table_with(&[1, 2]);
    InvoiceRow::finalize(&mut table, 1, TENANT, 10);
    assert_eq!(InvoiceRow::issue_success(&mut table, 1, TENANT, 20), Ok(1));
    assert_eq!(InvoiceRow::issue_success(&mut table, 1, TENANT, 30), Ok(0));
    assert_eq!(InvoiceRow::issue_success(&mut table, 2, TENANT, 30), Ok(0));
    let r = row(&table, 1);
    assert!(r.issued);
    assert_eq!(r.issue_attempts, 1);
    assert_eq!(r.last_issue_attempt_at, Some(20));
    assert!(InvoiceRow::list_to_issue(&table, 5, all(10)).items.is_empty());
}

#[test]
fn manual_invoices_are_not_issued_automatically() {
    let mut table = table_with(&[1]);
    new_invoice(2, InvoicingProvider::Manual).insert(&mut table).unwrap();
    InvoiceRow::finalize(&mut table, 1, TENANT, 10);
    InvoiceRow::finalize(&mut table, 2, TENANT, 10);
    let page = InvoiceRow::list_to_issue(&table, 5, all(10));
    assert_eq!(page.items, vec![InvoiceKey { id: 1, tenant_id: TENANT }]);
}

#[test]
fn external_status_updates_any_invoice() {
    let mut table = table_with(&[1]);
    assert_eq!(InvoiceRow::update_external_status(&mut table, 1, TENANT, InvoiceExternalStatus::Error, 9), 1);
    assert_eq!(row(&table, 1).external_status, InvoiceExternalStatus::Error);
    assert_eq!(InvoiceRow::update_external_status(&mut table, 2, TENANT, InvoiceExternalStatus::Error, 9), 0);
}

#[test]
fn listing_filters_and_pages() {
    let mut table = table_with(&[1, 2, 3, 4, 5]);
    let other_customer = InvoiceRowNew { customer_id: 77, ..new_invoice(6, InvoicingProvider::Stripe) };
    other_customer.insert(&mut table).unwrap();
    InvoiceRow::finalize(&mut table, 2, TENANT, 1);
    let page = InvoiceRow::list(&table, TENANT, Some(CUSTOMER), None, PaginationRequest { page: 1, per_page: 2 });
    assert_eq!(page.items.iter().map(|k| k.id).collect::<Vec<_>>(), vec![3, 4]);
    assert_eq!(page.total_pages, 3);
    let page = InvoiceRow::list(&table, TENANT, None, Some(InvoiceStatus::Draft), PaginationRequest { page: 0, per_page: 10 });
    assert_eq!(page.items.iter().map(|k| k.id).collect::<Vec<_>>(), vec![1, 3, 4, 5, 6]);
    assert_eq!(page.total_pages, 1);
    let page = InvoiceRow::list(&table, TENANT, None, None, PaginationRequest { page: 5, per_page: 10 });
    assert!(page.items.is_empty());
    let page = InvoiceRow::list(&table, TENANT + 1, None, None, PaginationRequest { page: 0, per_page: 10 });
    assert!(page.items.is_empty());
    assert_eq!(page.total_pages, 0);
}
