//! Invoices and their lifecycle: an in-memory invoice table whose every change
//! is a conditional update, "change row X if it is still in state S", and the
//! cursor-paginated scans that find the invoices due for each transition.
use vstd::prelude::*;

use crate::billing::LineItem;
use crate::dates::{day_index, lemma_day_index_bounds, CivilDate, SECONDS_PER_DAY, SECONDS_PER_HOUR};

verus! {

/// Where an invoice stands in its lifecycle.
#[derive(Clone, Copy, Debug, PartialEq, Eq, Structural)]
pub enum InvoiceStatus {
    Draft,
    Pending,
    Finalized,
    Void,
}

/// What the external invoicing provider last reported of the document.
#[derive(Clone, Copy, Debug, PartialEq, Eq, Structural)]
pub enum InvoiceExternalStatus {
    NotIssued,
    Issued,
    Error,
}

/// Who delivers a finalized invoice to the customer.
#[derive(Clone, Copy, Debug, PartialEq, Eq, Structural)]
pub enum InvoicingProvider {
    Stripe,
    Manual,
}

/// The identity of an invoice row: the invoice id and the tenant that owns it.
#[derive(Clone, Copy, Debug, PartialEq, Eq, Structural)]
pub struct InvoiceKey {
    pub id: u128,
    pub tenant_id: u128,
}

/// One stored invoice. Times are seconds from 0001-01-01T00:00:00 UTC.
#[derive(Debug)]
pub struct InvoiceRow {
    pub id: u128,
    pub tenant_id: u128,
    pub customer_id: u128,
    pub subscription_id: Option<u128>,
    pub status: InvoiceStatus,
    pub external_status: InvoiceExternalStatus,
    pub invoicing_provider: InvoicingProvider,
    pub line_items: Vec<LineItem>,
    pub invoice_date: CivilDate,
    pub finalized_at: Option<u64>,
    pub data_updated_at: Option<u64>,
    pub updated_at: Option<u64>,
    pub issued: bool,
    pub issue_attempts: u32,
    pub last_issue_error: Option<String>,
    pub last_issue_attempt_at: Option<u64>,
}

/// An invoice to be stored; it starts as a draft.
#[derive(Debug)]
pub struct InvoiceRowNew {
    pub id: u128,
    pub tenant_id: u128,
    pub customer_id: u128,
    pub subscription_id: Option<u128>,
    pub invoicing_provider: InvoicingProvider,
    pub invoice_date: CivilDate,
    pub line_items: Vec<LineItem>,
}

/// Recomputed line items for an invoice that is still open.
#[derive(Debug)]
pub struct InvoiceRowLinesPatch {
    pub line_items: Vec<LineItem>,
}

/// A tenant's invoicing settings.
#[derive(Clone, Copy, Debug, PartialEq, Eq, Structural)]
pub struct InvoicingConfig {
    pub tenant_id: u128,
    /// Hours after the invoice date before a draft is finalized.
    pub grace_period_hours: u32,
}

/// Failures of the invoice store. A failed operation changes nothing.
#[derive(Clone, Copy, Debug, PartialEq, Eq, Structural)]
pub enum StoreError {
    NotFound,
    DuplicateId,
    InvalidDate,
    AttemptsOverflow,
}

/// A request for one page of a scan: rows with an id above `cursor`, at most
/// `limit` of them.
#[derive(Clone, Copy, Debug, PartialEq, Eq, Structural)]
pub struct CursorPaginationRequest {
    pub cursor: Option<u128>,
    pub limit: u32,
}

/// One page of a scan, in increasing id order; `next_cursor` is set when more
/// rows match after the page.
#[derive(Debug)]
pub struct CursorPaginatedVec {
    pub items: Vec<InvoiceKey>,
    pub next_cursor: Option<u128>,
}

/// A change that the table applies to every row it selects.
pub enum InvoiceOp {
    Finalize { key: InvoiceKey, now: u64 },
    MarkPending { now: u64 },
    IssueSuccess { key: InvoiceKey, now: u64 },
    IssueError { key: InvoiceKey, error: String, now: u64 },
    Void { key: InvoiceKey, now: u64 },
    UpdateLines { key: InvoiceKey, line_items: Vec<LineItem>, now: u64 },
    UpdateExternalStatus { key: InvoiceKey, status: InvoiceExternalStatus, now: u64 },
}

pub open spec fn key_of(r: InvoiceRow) -> InvoiceKey {
    InvoiceKey { id: r.id, tenant_id: r.tenant_id }
}

/// Draft and pending invoices may still change; finalized and void ones may not.
pub open spec fn is_open(s: InvoiceStatus) -> bool {
    s == InvoiceStatus::Draft || s == InvoiceStatus::Pending
}

/// The lifecycle order: Draft, then Pending, then Finalized; Void only from
/// Draft or Pending; nothing ever leaves Finalized or Void.
pub open spec fn status_step_allowed(before: InvoiceStatus, after: InvoiceStatus) -> bool {
    before == after || (before == InvoiceStatus::Draft && after != InvoiceStatus::Draft) || (before
        == InvoiceStatus::Pending && (after == InvoiceStatus::Finalized || after
        == InvoiceStatus::Void))
}

/// The facts every stored row keeps.
pub open spec fn row_wf(r: InvoiceRow) -> bool {
    &&& r.invoice_date.valid()
    &&& (r.finalized_at is Some <==> r.status == InvoiceStatus::Finalized)
    &&& (r.issued ==> r.status == InvoiceStatus::Finalized)
}

/// Rows in strictly increasing id order, each well formed; one setting per tenant.
pub open spec fn table_wf(rows: Seq<InvoiceRow>, configs: Seq<InvoicingConfig>) -> bool {
    &&& forall|i: int, j: int| 0 <= i < j < rows.len() ==> rows[i].id < rows[j].id
    &&& forall|i: int| 0 <= i < rows.len() ==> row_wf(#[trigger] rows[i])
    &&& forall|i: int, j: int|
        0 <= i < j < configs.len() ==> configs[i].tenant_id != configs[j].tenant_id
}

/// The grace period, in hours, of `tenant`, where it has a setting.
pub open spec fn tenant_grace(configs: Seq<InvoicingConfig>, tenant: u128) -> Option<u32> {
    if exists|j: int| 0 <= j < configs.len() && configs[j].tenant_id == tenant {
        let j = choose|j: int| 0 <= j < configs.len() && configs[j].tenant_id == tenant;
        Some(configs[j].grace_period_hours)
    } else {
        None
    }
}

/// The instant `hours` after the start of `date`.
pub open spec fn hours_after(date: CivilDate, hours: int) -> int {
    day_index(date) * SECONDS_PER_DAY + hours * SECONDS_PER_HOUR
}

/// Draft or pending, and the tenant's grace period after the invoice date is over.
pub open spec fn due_for_finalization(
    r: InvoiceRow,
    configs: Seq<InvoicingConfig>,
    now: u64,
) -> bool {
    &&& is_open(r.status)
    &&& tenant_grace(configs, r.tenant_id) is Some
    &&& now >= hours_after(r.invoice_date, tenant_grace(configs, r.tenant_id)->Some_0 as int)
}

/// A draft whose invoice date has come and whose grace period is not yet over.
pub open spec fn due_for_pending(r: InvoiceRow, configs: Seq<InvoicingConfig>, now: u64) -> bool {
    &&& r.status == InvoiceStatus::Draft
    &&& tenant_grace(configs, r.tenant_id) is Some
    &&& hours_after(r.invoice_date, 0) <= now
    &&& now <= hours_after(r.invoice_date, tenant_grace(configs, r.tenant_id)->Some_0 as int)
}

/// An open invoice never computed, or more than an hour past its invoice date.
pub open spec fn is_outdated(r: InvoiceRow, now: u64) -> bool {
    &&& is_open(r.status)
    &&& (r.data_updated_at is None || now > hours_after(r.invoice_date, 1))
}

/// A finalized invoice, not issued, not issued by hand, with attempts left.
pub open spec fn due_for_issue(r: InvoiceRow, max_attempts: u32) -> bool {
    &&& r.status == InvoiceStatus::Finalized
    &&& r.invoicing_provider != InvoicingProvider::Manual
    &&& !r.issued
    &&& r.issue_attempts < max_attempts
}

pub open spec fn targets(r: InvoiceRow, key: InvoiceKey) -> bool {
    r.id == key.id && r.tenant_id == key.tenant_id
}

/// What a scan looks for.
#[derive(Clone, Copy, Debug, PartialEq, Eq, Structural)]
pub enum InvoiceScan {
    /// Open invoices whose grace period is over.
    ToFinalize { now: u64 },
    /// Open invoices whose lines need computing again.
    Outdated { now: u64 },
    /// Finalized invoices waiting for automatic issuance.
    ToIssue { max_attempts: u32 },
}

pub open spec fn scan_selects(scan: InvoiceScan, r: InvoiceRow, configs: Seq<InvoicingConfig>) -> bool {
    match scan {
        InvoiceScan::ToFinalize { now } => due_for_finalization(r, configs, now),
        InvoiceScan::Outdated { now } => is_outdated(r, now),
        InvoiceScan::ToIssue { max_attempts } => due_for_issue(r, max_attempts),
    }
}

pub open spec fn after_cursor(r: InvoiceRow, cursor: Option<u128>) -> bool {
    cursor is None || r.id > cursor->Some_0
}

/// The keys of all rows past `cursor` that `scan` selects, in table order.
pub open spec fn scan_keys(
    rows: Seq<InvoiceRow>,
    configs: Seq<InvoicingConfig>,
    scan: InvoiceScan,
    cursor: Option<u128>,
) -> Seq<InvoiceKey>
    decreases rows.len(),
{
    if rows.len() == 0 {
        Seq::empty()
    } else {
        let prev = scan_keys(rows.drop_last(), configs, scan, cursor);
        if after_cursor(rows.last(), cursor) && scan_selects(scan, rows.last(), configs) {
            prev.push(key_of(rows.last()))
        } else {
            prev
        }
    }
}

/// `r` is the page of at most `limit` keys that starts `all`; its cursor is
/// set where keys remain after it.
pub open spec fn is_page_of(r: CursorPaginatedVec, all: Seq<InvoiceKey>, limit: u32) -> bool {
    &&& r.items@ == (if all.len() <= limit {
        all
    } else {
        all.take(limit as int)
    })
    &&& r.next_cursor == (if all.len() > limit && limit > 0 {
        Some(all[limit - 1].id)
    } else {
        None
    })
}

/// The keys of the first `i` rows are a prefix of the keys of all rows.
proof fn lemma_scan_prefix(
    rows: Seq<InvoiceRow>,
    configs: Seq<InvoicingConfig>,
    scan: InvoiceScan,
    cursor: Option<u128>,
    i: int,
)
    requires
        0 <= i <= rows.len(),
    ensures
        scan_keys(rows.take(i), configs, scan, cursor).len() <= scan_keys(
            rows,
            configs,
            scan,
            cursor,
        ).len(),
        scan_keys(rows, configs, scan, cursor).take(
            scan_keys(rows.take(i), configs, scan, cursor).len() as int,
        ) == scan_keys(rows.take(i), configs, scan, cursor),
    decreases rows.len(),
{
    let all = scan_keys(rows, configs, scan, cursor);
    if i == rows.len() {
        assert(rows.take(i) =~= rows);
        assert(all.take(all.len() as int) =~= all);
    } else {
        let d = rows.drop_last();
        assert(d.take(i) =~= rows.take(i));
        lemma_scan_prefix(d, configs, scan, cursor, i);
        let part = scan_keys(rows.take(i), configs, scan, cursor);
        let prev = scan_keys(d, configs, scan, cursor);
        assert(all.take(part.len() as int) =~= prev.take(part.len() as int));
    }
}

/// Every key a scan returns belongs to a row that the scan selects.
pub proof fn lemma_scan_keys_selected(
    rows: Seq<InvoiceRow>,
    configs: Seq<InvoicingConfig>,
    scan: InvoiceScan,
    cursor: Option<u128>,
    k: int,
)
    requires
        0 <= k < scan_keys(rows, configs, scan, cursor).len(),
    ensures
        exists|j: int|
            0 <= j < rows.len() && key_of(rows[j]) == scan_keys(rows, configs, scan, cursor)[k]
                && after_cursor(rows[j], cursor) && scan_selects(scan, rows[j], configs),
    decreases rows.len(),
{
    let d = rows.drop_last();
    let prev = scan_keys(d, configs, scan, cursor);
    if k < prev.len() {
        lemma_scan_keys_selected(d, configs, scan, cursor, k);
        let j = choose|j: int|
            0 <= j < d.len() && key_of(d[j]) == prev[k] && after_cursor(d[j], cursor)
                && scan_selects(scan, d[j], configs);
        assert(rows[j] == d[j]);
    } else {
        assert(key_of(rows[rows.len() - 1]) == scan_keys(rows, configs, scan, cursor)[k]);
    }
}

/// The row that storing `n` creates: a draft, never computed or issued.
pub open spec fn new_row(n: InvoiceRowNew) -> InvoiceRow {
    InvoiceRow {
        id: n.id,
        tenant_id: n.tenant_id,
        customer_id: n.customer_id,
        subscription_id: n.subscription_id,
        status: InvoiceStatus::Draft,
        external_status: InvoiceExternalStatus::NotIssued,
        invoicing_provider: n.invoicing_provider,
        line_items: n.line_items,
        invoice_date: n.invoice_date,
        finalized_at: None,
        data_updated_at: None,
        updated_at: None,
        issued: false,
        issue_attempts: 0,
        last_issue_error: None,
        last_issue_attempt_at: None,
    }
}

pub open spec fn id_taken(rows: Seq<InvoiceRow>, id: u128) -> bool {
    exists|i: int| 0 <= i < rows.len() && rows[i].id == id
}

/// The keys of the tenant's invoices that pass the optional customer and
/// status filters, in id order.
pub open spec fn listed_keys(
    rows: Seq<InvoiceRow>,
    tenant_id: u128,
    customer_id: Option<u128>,
    status: Option<InvoiceStatus>,
) -> Seq<InvoiceKey>
    decreases rows.len(),
{
    if rows.len() == 0 {
        Seq::empty()
    } else {
        let prev = listed_keys(rows.drop_last(), tenant_id, customer_id, status);
        let r = rows.last();
        if r.tenant_id == tenant_id && (customer_id is None || r.customer_id == customer_id->Some_0)
            && (status is None || r.status == status->Some_0) {
            prev.push(key_of(r))
        } else {
            prev
        }
    }
}

/// A page number (from 0) and a page size.
#[derive(Clone, Copy, Debug, PartialEq, Eq, Structural)]
pub struct PaginationRequest {
    pub page: u32,
    pub per_page: u32,
}

/// One page of a listing and the number of pages of the whole listing.
#[derive(Debug)]
pub struct PaginatedVec {
    pub items: Vec<InvoiceKey>,
    pub total_pages: u64,
}

/// `r` is page `page` of `all` in pages of `per_page` keys.
pub open spec fn is_offset_page_of(r: PaginatedVec, all: Seq<InvoiceKey>, pagination: PaginationRequest) -> bool {
    let start = pagination.page * pagination.per_page;
    let end = start + pagination.per_page;
    &&& r.items@ == (if start >= all.len() {
        Seq::<InvoiceKey>::empty()
    } else if end >= all.len() {
        all.subrange(start as int, all.len() as int)
    } else {
        all.subrange(start as int, end as int)
    })
    &&& r.total_pages == (if pagination.per_page == 0 {
        0
    } else {
        all.len() as int / pagination.per_page as int + if all.len() as int % pagination.per_page as int == 0 {
            0int
        } else {
            1int
        }
    })
}

/// The rows that `op` changes: the guard of each conditional update.
pub open spec fn op_selects(op: InvoiceOp, r: InvoiceRow, configs: Seq<InvoicingConfig>) -> bool {
    match op {
        InvoiceOp::Finalize { key, .. } => targets(r, key) && is_open(r.status),
        InvoiceOp::MarkPending { now } => due_for_pending(r, configs, now),
        InvoiceOp::IssueSuccess { key, .. } => targets(r, key) && r.status
            == InvoiceStatus::Finalized && !r.issued,
        InvoiceOp::IssueError { key, .. } => targets(r, key) && r.status
            == InvoiceStatus::Finalized && !r.issued,
        InvoiceOp::Void { key, .. } => targets(r, key) && is_open(r.status),
        InvoiceOp::UpdateLines { key, .. } => targets(r, key) && is_open(r.status),
        InvoiceOp::UpdateExternalStatus { key, .. } => targets(r, key),
    }
}

/// What `op` makes of a row it selects.
pub open spec fn op_patch(op: InvoiceOp, r: InvoiceRow) -> InvoiceRow {
    match op {
        InvoiceOp::Finalize { now, .. } => InvoiceRow {
            status: InvoiceStatus::Finalized,
            updated_at: Some(now),
            data_updated_at: Some(now),
            finalized_at: Some(now),
            ..r
        },
        InvoiceOp::MarkPending { now } => InvoiceRow {
            status: InvoiceStatus::Pending,
            updated_at: Some(now),
            ..r
        },
        InvoiceOp::IssueSuccess { now, .. } => InvoiceRow {
            issued: true,
            issue_attempts: (r.issue_attempts + 1) as u32,
            updated_at: Some(now),
            last_issue_attempt_at: Some(now),
            ..r
        },
        InvoiceOp::IssueError { error, now, .. } => InvoiceRow {
            last_issue_error: Some(error),
            issue_attempts: (r.issue_attempts + 1) as u32,
            updated_at: Some(now),
            last_issue_attempt_at: Some(now),
            ..r
        },
        InvoiceOp::Void { now, .. } => InvoiceRow {
            status: InvoiceStatus::Void,
            updated_at: Some(now),
            ..r
        },
        InvoiceOp::UpdateLines { line_items, now, .. } => InvoiceRow {
            line_items,
            data_updated_at: Some(now),
            updated_at: Some(now),
            ..r
        },
        InvoiceOp::UpdateExternalStatus { status, now, .. } => InvoiceRow {
            external_status: status,
            updated_at: Some(now),
            ..r
        },
    }
}

/// The rows after `op`: each selected row patched, every other row as it was.
pub open spec fn apply_op(
    rows: Seq<InvoiceRow>,
    configs: Seq<InvoicingConfig>,
    op: InvoiceOp,
) -> Seq<InvoiceRow> {
    Seq::new(
        rows.len(),
        |i: int|
            if op_selects(op, rows[i], configs) {
                op_patch(op, rows[i])
            } else {
                rows[i]
            },
    )
}

/// How many rows `op` selects: the count of rows affected.
pub open spec fn affected(rows: Seq<InvoiceRow>, configs: Seq<InvoicingConfig>, op: InvoiceOp) -> nat
    decreases rows.len(),
{
    if rows.len() == 0 {
        0
    } else {
        affected(rows.drop_last(), configs, op) + if op_selects(op, rows.last(), configs) {
            1nat
        } else {
            0
        }
    }
}

/// The store of invoices and of the tenants' invoicing settings.
pub struct InvoiceTable {
    rows: Vec<InvoiceRow>,
    configs: Vec<InvoicingConfig>,
}

impl InvoiceTable {
    pub closed spec fn spec_rows(&self) -> Seq<InvoiceRow> {
        self.rows@
    }

    pub closed spec fn spec_configs(&self) -> Seq<InvoicingConfig> {
        self.configs@
    }

    pub open spec fn wf(&self) -> bool {
        table_wf(self.spec_rows(), self.spec_configs())
    }

    /// An empty table.
    pub fn new() -> (r: InvoiceTable)
        ensures
            r.wf(),
            r.spec_rows().len() == 0,
            r.spec_configs().len() == 0,
    {
        InvoiceTable { rows: Vec::new(), configs: Vec::new() }
    }

    /// The stored rows, in increasing id order.
    pub fn rows(&self) -> (r: &Vec<InvoiceRow>)
        ensures
            r@ == self.spec_rows(),
    {
        &self.rows
    }

    /// The tenants' invoicing settings.
    pub fn configs(&self) -> (r: &Vec<InvoicingConfig>)
        ensures
            r@ == self.spec_configs(),
    {
        &self.configs
    }

    /// Sets the grace period of `tenant_id`, replacing an earlier setting.
    pub fn set_invoicing_config(&mut self, tenant_id: u128, grace_period_hours: u32)
        requires
            old(self).wf(),
        ensures
            final(self).wf(),
            final(self).spec_rows() == old(self).spec_rows(),
            tenant_grace(final(self).spec_configs(), tenant_id) == Some(grace_period_hours),
            forall|t: u128|
                t != tenant_id ==> tenant_grace(final(self).spec_configs(), t) == tenant_grace(
                    old(self).spec_configs(),
                    t,
                ),
    {
        let cfg = InvoicingConfig { tenant_id, grace_period_hours };
        let ghost slot: int;
        match self.config_position(tenant_id) {
            Some(j) => {
                self.configs.set(j, cfg);
                proof {
                    slot = j as int;
                }
            },
            None => {
                self.configs.push(cfg);
                proof {
                    slot = self.configs@.len() - 1;
                }
            },
        }
        proof {
            let c = self.configs@;
            assert(c[slot] == cfg);
            assert forall|t: u128| t != tenant_id implies tenant_grace(c, t) == tenant_grace(
                old(self).configs@,
                t,
            ) by {
                let o = old(self).configs@;
                if exists|j: int| 0 <= j < o.len() && o[j].tenant_id == t {
                    let j = choose|j: int| 0 <= j < o.len() && o[j].tenant_id == t;
                    assert(c[j] == o[j]);
                    lemma_grace_at(c, t, j);
                    lemma_grace_at(o, t, j);
                } else {
                    assert(!exists|j: int| 0 <= j < c.len() && c[j].tenant_id == t) by {
                        assert forall|j: int| 0 <= j < c.len() implies c[j].tenant_id != t by {
                            if j < o.len() {
                                assert(c[j] == o[j] || c[j] == cfg);
                            }
                        }
                    }
                }
            }
            lemma_grace_at(c, tenant_id, slot);
        }
    }

    fn config_position(&self, tenant_id: u128) -> (r: Option<usize>)
        ensures
            r is Some ==> r->Some_0 < self.configs@.len() && self.configs@[r->Some_0 as int].tenant_id
                == tenant_id,
            r is None ==> forall|j: int|
                0 <= j < self.configs@.len() ==> self.configs@[j].tenant_id != tenant_id,
    {
        let mut j: usize = 0;
        while j < self.configs.len()
            invariant
                j <= self.configs@.len(),
                forall|k: int| 0 <= k < j ==> self.configs@[k].tenant_id != tenant_id,
            decreases self.configs@.len() - j,
        {
            if self.configs[j].tenant_id == tenant_id {
                return Some(j);
            }
            j = j + 1;
        }
        None
    }

    /// The grace period of `tenant_id`, where it has a setting.
    pub fn grace_period_hours(&self, tenant_id: u128) -> (r: Option<u32>)
        requires
            self.wf(),
        ensures
            r == tenant_grace(self.spec_configs(), tenant_id),
    {
        match self.config_position(tenant_id) {
            Some(j) => {
                proof {
                    lemma_grace_at(self.configs@, tenant_id, j as int);
                }
                Some(self.configs[j].grace_period_hours)
            },
            None => None,
        }
    }

    fn grace_period_hours_unchecked(&self, tenant_id: u128) -> (r: Option<u32>)
        ensures
            r is Some ==> exists|j: int|
                0 <= j < self.configs@.len() && self.configs@[j].tenant_id == tenant_id
                    && self.configs@[j].grace_period_hours == r->Some_0,
            r is None ==> forall|j: int|
                0 <= j < self.configs@.len() ==> self.configs@[j].tenant_id != tenant_id,
    {
        match self.config_position(tenant_id) {
            Some(j) => Some(self.configs[j].grace_period_hours),
            None => None,
        }
    }

    fn scan_matches(&self, row: &InvoiceRow, scan: InvoiceScan) -> (r: bool)
        requires
            self.wf(),
            row_wf(*row),
        ensures
            r == scan_selects(scan, *row, self.configs@),
    {
        match scan {
            InvoiceScan::ToFinalize { now } => {
                let grace = self.grace_period_hours(row.tenant_id);
                match grace {
                    None => false,
                    Some(h) => {
                        proof {
                            lemma_day_index_bounds(row.invoice_date);
                        }
                        let due = row.invoice_date.start_seconds() + h as u64 * SECONDS_PER_HOUR;
                        is_open_status(row.status) && now >= due
                    },
                }
            },
            InvoiceScan::Outdated { now } => {
                proof {
                    lemma_day_index_bounds(row.invoice_date);
                }
                let stale_after = row.invoice_date.start_seconds() + SECONDS_PER_HOUR;
                is_open_status(row.status) && (row.data_updated_at.is_none() || now > stale_after)
            },
            InvoiceScan::ToIssue { max_attempts } => {
                row.status == InvoiceStatus::Finalized && row.invoicing_provider
                    != InvoicingProvider::Manual && !row.issued && row.issue_attempts < max_attempts
            },
        }
    }

    /// One page of the rows that `scan` selects, resuming after the request's
    /// cursor, in increasing id order.
    pub fn scan(&self, scan: InvoiceScan, pagination: CursorPaginationRequest) -> (r:
        CursorPaginatedVec)
        requires
            self.wf(),
        ensures
            is_page_of(
                r,
                scan_keys(self.spec_rows(), self.spec_configs(), scan, pagination.cursor),
                pagination.limit,
            ),
    {
        let ghost rows = self.rows@;
        let ghost all = scan_keys(rows, self.configs@, scan, pagination.cursor);
        let limit = pagination.limit as usize;
        let mut out: Vec<InvoiceKey> = Vec::new();
        if limit == 0 {
            proof {
                assert(all.take(0) =~= out@);
                if all.len() == 0 {
                    assert(all =~= out@);
                }
            }
            return CursorPaginatedVec { items: out, next_cursor: None };
        }
        let mut i: usize = 0;
        while i < self.rows.len() && out.len() <= limit
            invariant
                self.wf(),
                rows == self.rows@,
                i <= rows.len(),
                out@ == scan_keys(rows.take(i as int), self.configs@, scan, pagination.cursor),
                out.len() <= limit + 1,
            decreases rows.len() - i,
        {
            proof {
                assert(rows.take(i + 1).drop_last() =~= rows.take(i as int));
                assert(rows.take(i + 1).last() == rows[i as int]);
                assert(row_wf(rows[i as int]));
            }
            let row = &self.rows[i];
            let past = match pagination.cursor {
                None => true,
                Some(c) => row.id > c,
            };
            if past && self.scan_matches(row, scan) {
                out.push(InvoiceKey { id: row.id, tenant_id: row.tenant_id });
            }
            i = i + 1;
        }
        proof {
            lemma_scan_prefix(rows, self.configs@, scan, pagination.cursor, i as int);
        }
        if out.len() > limit {
            out.pop();
            let next = out[out.len() - 1].id;
            proof {
                assert(out@ =~= all.take(limit as int));
            }
            CursorPaginatedVec { items: out, next_cursor: Some(next) }
        } else {
            proof {
                assert(rows.take(rows.len() as int) =~= rows);
            }
            CursorPaginatedVec { items: out, next_cursor: None }
        }
    }

    /// Stores `row` at its place in id order.
    fn insert_row(&mut self, row: InvoiceRow) -> (r: Result<(), StoreError>)
        requires
            old(self).wf(),
            row_wf(row),
        ensures
            final(self).wf(),
            final(self).configs@ == old(self).configs@,
            id_taken(old(self).rows@, row.id) ==> r == Err::<(), StoreError>(StoreError::DuplicateId)
                && final(self).rows@ == old(self).rows@,
            !id_taken(old(self).rows@, row.id) ==> r is Ok && exists|p: int|
                0 <= p <= old(self).rows@.len() && final(self).rows@ == old(self).rows@.insert(
                    p,
                    row,
                ),
    {
        let mut p: usize = 0;
        while p < self.rows.len() && self.rows[p].id < row.id
            invariant
                p <= self.rows@.len(),
                forall|k: int| 0 <= k < p ==> self.rows@[k].id < row.id,
            decreases self.rows@.len() - p,
        {
            p = p + 1;
        }
        if p < self.rows.len() && self.rows[p].id == row.id {
            return Err(StoreError::DuplicateId);
        }
        proof {
            let rs = self.rows@;
            assert forall|k: int| 0 <= k < rs.len() implies rs[k].id != row.id by {
                if k > p {
                    assert(rs[p as int].id < rs[k].id);
                }
            }
        }
        let ghost before = self.rows@;
        self.rows.insert(p, row);
        proof {
            let n = self.rows@;
            assert forall|a: int| 0 <= a < n.len() implies row_wf(#[trigger] n[a]) by {
                if a < p {
                    assert(n[a] == before[a]);
                } else if a > p {
                    assert(n[a] == before[a - 1]);
                }
            }
            assert forall|a: int, b: int| 0 <= a < b < n.len() implies n[a].id < n[b].id by {
                if b < p {
                    assert(n[a] == before[a] && n[b] == before[b]);
                } else if b == p {
                    assert(n[a] == before[a]);
                } else if a > p {
                    assert(n[a] == before[a - 1] && n[b] == before[b - 1]);
                } else if a == p {
                    assert(n[b] == before[b - 1]);
                    if p < before.len() {
                        assert(before[p as int].id <= before[b - 1].id);
                    }
                } else {
                    assert(n[a] == before[a] && n[b] == before[b - 1]);
                }
            }
        }
        Ok(())
    }

    fn row_at(&self, i: usize) -> (r: &InvoiceRow)
        requires
            i < self.rows@.len(),
        ensures
            *r == self.rows@[i as int],
    {
        &self.rows[i]
    }

    fn id_position(&self, id: u128) -> (r: Option<usize>)
        ensures
            r is None <==> !id_taken(self.rows@, id),
    {
        let mut i: usize = 0;
        while i < self.rows.len()
            invariant
                i <= self.rows@.len(),
                forall|k: int| 0 <= k < i ==> self.rows@[k].id != id,
            decreases self.rows@.len() - i,
        {
            if self.rows[i].id == id {
                return Some(i);
            }
            i = i + 1;
        }
        None
    }

    fn position(&self, key: InvoiceKey) -> (r: Option<usize>)
        ensures
            r is Some ==> r->Some_0 < self.rows@.len() && targets(self.rows@[r->Some_0 as int], key),
            r is None ==> forall|i: int| 0 <= i < self.rows@.len() ==> !targets(self.rows@[i], key),
    {
        let mut i: usize = 0;
        while i < self.rows.len()
            invariant
                i <= self.rows@.len(),
                forall|k: int| 0 <= k < i ==> !targets(self.rows@[k], key),
            decreases self.rows@.len() - i,
        {
            if self.rows[i].id == key.id && self.rows[i].tenant_id == key.tenant_id {
                return Some(i);
            }
            i = i + 1;
        }
        None
    }
}

/// The key that a keyed operation is aimed at; `None` for a bulk operation.
pub open spec fn op_key(op: InvoiceOp) -> Option<InvoiceKey> {
    match op {
        InvoiceOp::Finalize { key, .. } => Some(key),
        InvoiceOp::MarkPending { .. } => None,
        InvoiceOp::IssueSuccess { key, .. } => Some(key),
        InvoiceOp::IssueError { key, .. } => Some(key),
        InvoiceOp::Void { key, .. } => Some(key),
        InvoiceOp::UpdateLines { key, .. } => Some(key),
        InvoiceOp::UpdateExternalStatus { key, .. } => Some(key),
    }
}

/// Where at most the row at `i` is selected, one row or none is affected.
proof fn lemma_affected_single(
    rows: Seq<InvoiceRow>,
    configs: Seq<InvoicingConfig>,
    op: InvoiceOp,
    i: int,
)
    requires
        forall|j: int| 0 <= j < rows.len() && j != i ==> !op_selects(op, #[trigger] rows[j], configs),
    ensures
        affected(rows, configs, op) == (if 0 <= i < rows.len() && op_selects(op, rows[i], configs) {
            1nat
        } else {
            0nat
        }),
    decreases rows.len(),
{
    if rows.len() > 0 {
        let d = rows.drop_last();
        assert forall|j: int| 0 <= j < d.len() && j != i implies !op_selects(op, #[trigger] d[j], configs) by {
            assert(d[j] == rows[j]);
        }
        lemma_affected_single(d, configs, op, i);
        if 0 <= i < d.len() {
            assert(d[i] == rows[i]);
        }
    }
}

/// A keyed operation changes at most the row with its key, which the search
/// found at `found` (or found nowhere).
proof fn lemma_keyed_op(
    rows: Seq<InvoiceRow>,
    configs: Seq<InvoicingConfig>,
    op: InvoiceOp,
    found: Option<usize>,
)
    requires
        table_wf(rows, configs),
        op_key(op) is Some,
        found is Some ==> found->Some_0 < rows.len() && targets(
            rows[found->Some_0 as int],
            op_key(op)->Some_0,
        ),
        found is None ==> forall|k: int| 0 <= k < rows.len() ==> !targets(rows[k], op_key(op)->Some_0),
    ensures
        found is Some && op_selects(op, rows[found->Some_0 as int], configs) ==> apply_op(
            rows,
            configs,
            op,
        ) == rows.update(found->Some_0 as int, op_patch(op, rows[found->Some_0 as int]))
            && affected(rows, configs, op) == 1,
        !(found is Some && op_selects(op, rows[found->Some_0 as int], configs)) ==> apply_op(
            rows,
            configs,
            op,
        ) == rows && affected(rows, configs, op) == 0,
{
    let key = op_key(op)->Some_0;
    let i: int = match found {
        Some(f) => f as int,
        None => -1,
    };
    assert forall|j: int| 0 <= j < rows.len() && j != i implies !op_selects(
        op,
        #[trigger] rows[j],
        configs,
    ) by {
        if found is Some {
            if j < i {
                assert(rows[j].id < rows[i].id);
            } else {
                assert(rows[i].id < rows[j].id);
            }
        }
    }
    lemma_affected_single(rows, configs, op, i);
    if found is Some && op_selects(op, rows[i], configs) {
        assert(apply_op(rows, configs, op) =~= rows.update(i, op_patch(op, rows[i])));
    } else {
        assert(apply_op(rows, configs, op) =~= rows);
    }
}

/// A change to the row at `i` that keeps it well formed and keeps its id keeps
/// the table well formed.
proof fn lemma_wf_update(
    rows: Seq<InvoiceRow>,
    configs: Seq<InvoicingConfig>,
    i: int,
    row: InvoiceRow,
)
    requires
        table_wf(rows, configs),
        0 <= i < rows.len(),
        row.id == rows[i].id,
        row_wf(row),
    ensures
        table_wf(rows.update(i, row), configs),
{
    let n = rows.update(i, row);
    assert forall|a: int| 0 <= a < n.len() implies row_wf(#[trigger] n[a]) by {
        if a != i {
            assert(n[a] == rows[a]);
        }
    }
    assert forall|a: int, b: int| 0 <= a < b < n.len() implies n[a].id < n[b].id by {
        assert(n[a].id == rows[a].id);
        assert(n[b].id == rows[b].id);
    }
}

proof fn lemma_grace_unique(configs: Seq<InvoicingConfig>, tenant: u128, found: Option<u32>)
    requires
        forall|a: int, b: int|
            0 <= a < b < configs.len() ==> configs[a].tenant_id != configs[b].tenant_id,
        found is Some ==> exists|j: int|
            0 <= j < configs.len() && configs[j].tenant_id == tenant && configs[j].grace_period_hours
                == found->Some_0,
        found is None ==> forall|j: int| 0 <= j < configs.len() ==> configs[j].tenant_id != tenant,
    ensures
        tenant_grace(configs, tenant) == found,
{
    if found is Some {
        let j = choose|j: int|
            0 <= j < configs.len() && configs[j].tenant_id == tenant && configs[j].grace_period_hours
                == found->Some_0;
        lemma_grace_at(configs, tenant, j);
    }
}

/// Every operation keeps the table well formed.
pub proof fn lemma_apply_op_wf(rows: Seq<InvoiceRow>, configs: Seq<InvoicingConfig>, op: InvoiceOp)
    requires
        table_wf(rows, configs),
    ensures
        table_wf(apply_op(rows, configs, op), configs),
{
    let n = apply_op(rows, configs, op);
    assert forall|a: int| 0 <= a < n.len() implies row_wf(#[trigger] n[a]) by {
        assert(row_wf(rows[a]));
    }
    assert forall|a: int, b: int| 0 <= a < b < n.len() implies n[a].id < n[b].id by {
        assert(n[a].id == rows[a].id);
        assert(n[b].id == rows[b].id);
    }
}

/// Lifecycle order holds for every operation: an invoice's status only moves
/// from Draft to Pending to Finalized, or to Void from Draft or Pending, and
/// nothing leaves Finalized or Void. Every operation also keeps the rows, their
/// ids and their order; a `finalized_at` once set never changes, an issued
/// invoice stays issued, and the attempt counter never goes down (the store
/// refuses to count past `u32::MAX`).
pub proof fn lemma_status_monotonic(rows: Seq<InvoiceRow>, configs: Seq<InvoicingConfig>, op: InvoiceOp)
    requires
        table_wf(rows, configs),
    ensures
        apply_op(rows, configs, op).len() == rows.len(),
        forall|i: int|
            0 <= i < rows.len() ==> {
                let after = #[trigger] apply_op(rows, configs, op)[i];
                &&& status_step_allowed(rows[i].status, after.status)
                &&& after.id == rows[i].id
                &&& (rows[i].finalized_at is Some ==> after.finalized_at == rows[i].finalized_at)
                &&& (rows[i].issued ==> after.issued)
                &&& (rows[i].issue_attempts < u32::MAX ==> rows[i].issue_attempts
                    <= after.issue_attempts)
            },
{
    assert forall|i: int| 0 <= i < rows.len() implies row_wf(#[trigger] rows[i]) by {}
}

/// Finalizing an invoice twice, in either order of two racing workers: the
/// first call affects the invoice if and only if it is still open, and sets
/// `finalized_at` to its own time; the second affects no row and changes
/// nothing, so the invoice keeps exactly one `finalized_at`.
pub proof fn lemma_finalize_once(
    rows: Seq<InvoiceRow>,
    configs: Seq<InvoicingConfig>,
    key: InvoiceKey,
    first: u64,
    second: u64,
)
    requires
        table_wf(rows, configs),
    ensures
        ({
            let op1 = InvoiceOp::Finalize { key, now: first };
            let op2 = InvoiceOp::Finalize { key, now: second };
            let once = apply_op(rows, configs, op1);
            &&& affected(rows, configs, op1) == (if exists|i: int|
                0 <= i < rows.len() && targets(rows[i], key) && is_open(rows[i].status) {
                1nat
            } else {
                0nat
            })
            &&& affected(once, configs, op2) == 0
            &&& apply_op(once, configs, op2) == once
            &&& forall|i: int|
                0 <= i < rows.len() && targets(rows[i], key) && is_open(rows[i].status) ==> (
                #[trigger] once[i]).finalized_at == Some(first) && once[i].status
                    == InvoiceStatus::Finalized
        }),
{
    let op1 = InvoiceOp::Finalize { key, now: first };
    let op2 = InvoiceOp::Finalize { key, now: second };
    let once = apply_op(rows, configs, op1);
    if exists|i: int| 0 <= i < rows.len() && targets(rows[i], key) && is_open(rows[i].status) {
        let i = choose|i: int| 0 <= i < rows.len() && targets(rows[i], key) && is_open(rows[i].status);
        assert forall|j: int| 0 <= j < rows.len() && j != i implies !op_selects(
            op1,
            #[trigger] rows[j],
            configs,
        ) by {
            if j < i {
                assert(rows[j].id < rows[i].id);
            } else {
                assert(rows[i].id < rows[j].id);
            }
        }
        lemma_affected_single(rows, configs, op1, i);
    } else {
        lemma_affected_single(rows, configs, op1, -1);
    }
    assert forall|j: int| 0 <= j < once.len() && j != -1 implies !op_selects(
        op2,
        #[trigger] once[j],
        configs,
    ) by {}
    lemma_affected_single(once, configs, op2, -1);
    assert(apply_op(once, configs, op2) =~= once);
}

/// The rows after a run of failed issuance attempts of the invoice `key`, the
/// error text and the time of each attempt in order.
pub open spec fn after_issue_failures(
    rows: Seq<InvoiceRow>,
    configs: Seq<InvoicingConfig>,
    key: InvoiceKey,
    failures: Seq<(String, u64)>,
) -> Seq<InvoiceRow>
    decreases failures.len(),
{
    if failures.len() == 0 {
        rows
    } else {
        apply_op(
            after_issue_failures(rows, configs, key, failures.drop_last()),
            configs,
            InvoiceOp::IssueError { key, error: failures.last().0, now: failures.last().1 },
        )
    }
}

proof fn lemma_issue_failures_count(
    rows: Seq<InvoiceRow>,
    configs: Seq<InvoicingConfig>,
    key: InvoiceKey,
    failures: Seq<(String, u64)>,
    i: int,
)
    requires
        table_wf(rows, configs),
        0 <= i < rows.len(),
        rows[i].issue_attempts + failures.len() <= u32::MAX,
    ensures
        ({
            let after = after_issue_failures(rows, configs, key, failures);
            &&& table_wf(after, configs)
            &&& after.len() == rows.len()
            &&& forall|j: int| 0 <= j < rows.len() ==> #[trigger] after[j].id == rows[j].id
            &&& after[i].tenant_id == rows[i].tenant_id
            &&& after[i].status == rows[i].status
            &&& after[i].issued == rows[i].issued
            &&& after[i].invoicing_provider == rows[i].invoicing_provider
            &&& after[i].issue_attempts == (if targets(rows[i], key) && rows[i].status
                == InvoiceStatus::Finalized && !rows[i].issued {
                rows[i].issue_attempts + failures.len()
            } else {
                rows[i].issue_attempts as int
            })
        }),
    decreases failures.len(),
{
    if failures.len() > 0 {
        let prev = after_issue_failures(rows, configs, key, failures.drop_last());
        lemma_issue_failures_count(rows, configs, key, failures.drop_last(), i);
        let op = InvoiceOp::IssueError { key, error: failures.last().0, now: failures.last().1 };
        lemma_apply_op_wf(prev, configs, op);
        let after = apply_op(prev, configs, op);
        assert forall|j: int| 0 <= j < rows.len() implies #[trigger] after[j].id == rows[j].id by {
            assert(after[j].id == prev[j].id);
        }
    }
}

/// An invoice whose issuance has failed until its attempts reach
/// `max_attempts` is no longer selected for issuance, and no page of the
/// issuance scan returns it again.
pub proof fn lemma_issue_retry_cap(
    rows: Seq<InvoiceRow>,
    configs: Seq<InvoicingConfig>,
    key: InvoiceKey,
    failures: Seq<(String, u64)>,
    max_attempts: u32,
    cursor: Option<u128>,
    i: int,
)
    requires
        table_wf(rows, configs),
        0 <= i < rows.len(),
        targets(rows[i], key),
        rows[i].issue_attempts + failures.len() >= max_attempts,
        rows[i].issue_attempts + failures.len() <= u32::MAX,
    ensures
        !due_for_issue(after_issue_failures(rows, configs, key, failures)[i], max_attempts),
        !scan_keys(
            after_issue_failures(rows, configs, key, failures),
            configs,
            InvoiceScan::ToIssue { max_attempts },
            cursor,
        ).contains(key),
{
    let after = after_issue_failures(rows, configs, key, failures);
    let scan = InvoiceScan::ToIssue { max_attempts };
    lemma_issue_failures_count(rows, configs, key, failures, i);
    let keys = scan_keys(after, configs, scan, cursor);
    if keys.contains(key) {
        let k = choose|k: int| 0 <= k < keys.len() && keys[k] == key;
        lemma_scan_keys_selected(after, configs, scan, cursor, k);
        let j = choose|j: int|
            0 <= j < after.len() && key_of(after[j]) == keys[k] && after_cursor(after[j], cursor)
                && scan_selects(scan, after[j], configs);
        assert(after[j].id == after[i].id);
        if j < i {
            assert(after[j].id < after[i].id);
        } else if i < j {
            assert(after[i].id < after[j].id);
        }
    }
}

/// With one setting per tenant, the setting found at `j` is the tenant's.
proof fn lemma_grace_at(configs: Seq<InvoicingConfig>, tenant: u128, j: int)
    requires
        0 <= j < configs.len(),
        configs[j].tenant_id == tenant,
        forall|a: int, b: int|
            0 <= a < b < configs.len() ==> configs[a].tenant_id != configs[b].tenant_id,
    ensures
        tenant_grace(configs, tenant) == Some(configs[j].grace_period_hours),
{
    let k = choose|k: int| 0 <= k < configs.len() && configs[k].tenant_id == tenant;
    if k < j {
        assert(configs[k].tenant_id != configs[j].tenant_id);
    } else if j < k {
        assert(configs[j].tenant_id != configs[k].tenant_id);
    }
}

impl InvoiceRowNew {
    /// Stores this invoice as a draft. Fails, changing nothing, where its
    /// invoice date is not a real date or its id is already stored.
    pub fn insert(self, table: &mut InvoiceTable) -> (r: Result<InvoiceKey, StoreError>)
        requires
            old(table).wf(),
        ensures
            final(table).wf(),
            final(table).spec_configs() == old(table).spec_configs(),
            !self.invoice_date.valid() ==> r == Err::<InvoiceKey, StoreError>(StoreError::InvalidDate)
                && final(table).spec_rows() == old(table).spec_rows(),
            self.invoice_date.valid() && id_taken(old(table).spec_rows(), self.id) ==> r == Err::<
                InvoiceKey,
                StoreError,
            >(StoreError::DuplicateId) && final(table).spec_rows() == old(table).spec_rows(),
            self.invoice_date.valid() && !id_taken(old(table).spec_rows(), self.id) ==> r == Ok::<
                InvoiceKey,
                StoreError,
            >(InvoiceKey { id: self.id, tenant_id: self.tenant_id }) && exists|p: int|
                0 <= p <= old(table).spec_rows().len() && final(table).spec_rows() == old(
                    table,
                ).spec_rows().insert(p, new_row(self)),
    {
        if !self.invoice_date.is_valid() {
            return Err(StoreError::InvalidDate);
        }
        let key = InvoiceKey { id: self.id, tenant_id: self.tenant_id };
        let row = InvoiceRow {
            id: self.id,
            tenant_id: self.tenant_id,
            customer_id: self.customer_id,
            subscription_id: self.subscription_id,
            status: InvoiceStatus::Draft,
            external_status: InvoiceExternalStatus::NotIssued,
            invoicing_provider: self.invoicing_provider,
            line_items: self.line_items,
            invoice_date: self.invoice_date,
            finalized_at: None,
            data_updated_at: None,
            updated_at: None,
            issued: false,
            issue_attempts: 0,
            last_issue_error: None,
            last_issue_attempt_at: None,
        };
        match table.insert_row(row) {
            Ok(()) => Ok(key),
            Err(e) => Err(e),
        }
    }
}

impl InvoiceRow {
    /// Finalizes the invoice `id` of `tenant_id` if it is still draft or
    /// pending: sets its status, `finalized_at`, `data_updated_at` and
    /// `updated_at` to `now`. Returns the number of rows changed, 0 where the
    /// invoice is missing, already finalized or void.
    pub fn finalize(table: &mut InvoiceTable, id: u128, tenant_id: u128, now: u64) -> (r: usize)
        requires
            old(table).wf(),
        ensures
            final(table).wf(),
            final(table).spec_configs() == old(table).spec_configs(),
            final(table).spec_rows() == apply_op(
                old(table).spec_rows(),
                old(table).spec_configs(),
                InvoiceOp::Finalize { key: InvoiceKey { id, tenant_id }, now },
            ),
            r == affected(
                old(table).spec_rows(),
                old(table).spec_configs(),
                InvoiceOp::Finalize { key: InvoiceKey { id, tenant_id }, now },
            ),
    {
        let key = InvoiceKey { id, tenant_id };
        let ghost op = InvoiceOp::Finalize { key, now };
        let found = table.position(key);
        proof {
            lemma_keyed_op(table.rows@, table.configs@, op, found);
        }
        match found {
            Some(i) => {
                if is_open_status(table.rows[i].status) {
                    let ghost before = table.rows@[i as int];
                    let row = &mut table.rows[i];
                    row.status = InvoiceStatus::Finalized;
                    row.updated_at = Some(now);
                    row.data_updated_at = Some(now);
                    row.finalized_at = Some(now);
                    proof {
                        assert(table.rows@[i as int] == op_patch(op, before));
                        lemma_wf_update(old(table).rows@, table.configs@, i as int, op_patch(op, before));
                        assert(table.rows@ == old(table).rows@.update(i as int, op_patch(op, before)));
                    }
                    1
                } else {
                    0
                }
            },
            None => 0,
        }
    }

    /// Records a successful issuance of the finalized, not yet issued invoice
    /// `id` of `tenant_id`: sets `issued`, counts the attempt and stamps it
    /// with `now`. Returns the number of rows changed, 0 where no such row is
    /// waiting for issuance; fails, changing nothing, where the attempt
    /// counter is full.
    pub fn issue_success(table: &mut InvoiceTable, id: u128, tenant_id: u128, now: u64) -> (r:
        Result<usize, StoreError>)
        requires
            old(table).wf(),
        ensures
            final(table).wf(),
            final(table).spec_configs() == old(table).spec_configs(),
            ({
                let op = InvoiceOp::IssueSuccess { key: InvoiceKey { id, tenant_id }, now };
                let rows = old(table).spec_rows();
                let configs = old(table).spec_configs();
                &&& r is Err <==> exists|i: int|
                    0 <= i < rows.len() && op_selects(op, rows[i], configs) && rows[i].issue_attempts
                        == u32::MAX
                &&& r is Err ==> r == Err::<usize, StoreError>(StoreError::AttemptsOverflow)
                    && final(table).spec_rows() == rows
                &&& r is Ok ==> final(table).spec_rows() == apply_op(rows, configs, op) && r->Ok_0
                    == affected(rows, configs, op)
            }),
    {
        let key = InvoiceKey { id, tenant_id };
        let ghost op = InvoiceOp::IssueSuccess { key, now };
        let found = table.position(key);
        proof {
            lemma_keyed_op(table.rows@, table.configs@, op, found);
        }
        match found {
            Some(i) => {
                if table.rows[i].status == InvoiceStatus::Finalized && !table.rows[i].issued {
                    if table.rows[i].issue_attempts == u32::MAX {
                        return Err(StoreError::AttemptsOverflow);
                    }
                    let ghost before = table.rows@[i as int];
                    let row = &mut table.rows[i];
                    row.issued = true;
                    row.issue_attempts = row.issue_attempts + 1;
                    row.updated_at = Some(now);
                    row.last_issue_attempt_at = Some(now);
                    proof {
                        assert(table.rows@[i as int] == op_patch(op, before));
                        lemma_wf_update(old(table).rows@, table.configs@, i as int, op_patch(op, before));
                        assert(table.rows@ == old(table).rows@.update(i as int, op_patch(op, before)));
                    }
                    Ok(1)
                } else {
                    Ok(0)
                }
            },
            None => Ok(0),
        }
    }

    /// Records a failed issuance of the finalized, not yet issued invoice `id`
    /// of `tenant_id`: keeps `issued` false, counts the attempt, stores
    /// `last_issue_error` and stamps the attempt with `now`. Returns the number
    /// of rows changed; fails, changing nothing, where the attempt counter is
    /// full.
    pub fn issue_error(
        table: &mut InvoiceTable,
        id: u128,
        tenant_id: u128,
        last_issue_error: String,
        now: u64,
    ) -> (r: Result<usize, StoreError>)
        requires
            old(table).wf(),
        ensures
            final(table).wf(),
            final(table).spec_configs() == old(table).spec_configs(),
            ({
                let op = InvoiceOp::IssueError {
                    key: InvoiceKey { id, tenant_id },
                    error: last_issue_error,
                    now,
                };
                let rows = old(table).spec_rows();
                let configs = old(table).spec_configs();
                &&& r is Err <==> exists|i: int|
                    0 <= i < rows.len() && op_selects(op, rows[i], configs) && rows[i].issue_attempts
                        == u32::MAX
                &&& r is Err ==> r == Err::<usize, StoreError>(StoreError::AttemptsOverflow)
                    && final(table).spec_rows() == rows
                &&& r is Ok ==> final(table).spec_rows() == apply_op(rows, configs, op) && r->Ok_0
                    == affected(rows, configs, op)
            }),
    {
        let key = InvoiceKey { id, tenant_id };
        let ghost op = InvoiceOp::IssueError { key, error: last_issue_error, now };
        let found = table.position(key);
        proof {
            lemma_keyed_op(table.rows@, table.configs@, op, found);
        }
        match found {
            Some(i) => {
                if table.rows[i].status == InvoiceStatus::Finalized && !table.rows[i].issued {
                    if table.rows[i].issue_attempts == u32::MAX {
                        return Err(StoreError::AttemptsOverflow);
                    }
                    let ghost before = table.rows@[i as int];
                    let row = &mut table.rows[i];
                    row.last_issue_error = Some(last_issue_error);
                    row.issue_attempts = row.issue_attempts + 1;
                    row.updated_at = Some(now);
                    row.last_issue_attempt_at = Some(now);
                    proof {
                        assert(table.rows@[i as int] == op_patch(op, before));
                        lemma_wf_update(old(table).rows@, table.configs@, i as int, op_patch(op, before));
                        assert(table.rows@ == old(table).rows@.update(i as int, op_patch(op, before)));
                    }
                    Ok(1)
                } else {
                    Ok(0)
                }
            },
            None => Ok(0),
        }
    }

    /// Cancels the invoice `id` of `tenant_id` if it is still draft or pending.
    /// Returns the number of rows changed.
    pub fn void(table: &mut InvoiceTable, id: u128, tenant_id: u128, now: u64) -> (r: usize)
        requires
            old(table).wf(),
        ensures
            final(table).wf(),
            final(table).spec_configs() == old(table).spec_configs(),
            final(table).spec_rows() == apply_op(
                old(table).spec_rows(),
                old(table).spec_configs(),
                InvoiceOp::Void { key: InvoiceKey { id, tenant_id }, now },
            ),
            r == affected(
                old(table).spec_rows(),
                old(table).spec_configs(),
                InvoiceOp::Void { key: InvoiceKey { id, tenant_id }, now },
            ),
    {
        let key = InvoiceKey { id, tenant_id };
        let ghost op = InvoiceOp::Void { key, now };
        let found = table.position(key);
        proof {
            lemma_keyed_op(table.rows@, table.configs@, op, found);
        }
        match found {
            Some(i) => {
                if is_open_status(table.rows[i].status) {
                    let ghost before = table.rows@[i as int];
                    let row = &mut table.rows[i];
                    row.status = InvoiceStatus::Void;
                    row.updated_at = Some(now);
                    proof {
                        assert(table.rows@[i as int] == op_patch(op, before));
                        lemma_wf_update(old(table).rows@, table.configs@, i as int, op_patch(op, before));
                        assert(table.rows@ == old(table).rows@.update(i as int, op_patch(op, before)));
                    }
                    1
                } else {
                    0
                }
            },
            None => 0,
        }
    }

    /// Sets what the invoicing provider reports of the invoice `id` of
    /// `tenant_id`. Returns the number of rows changed.
    pub fn update_external_status(
        table: &mut InvoiceTable,
        id: u128,
        tenant_id: u128,
        external_status: InvoiceExternalStatus,
        now: u64,
    ) -> (r: usize)
        requires
            old(table).wf(),
        ensures
            final(table).wf(),
            final(table).spec_configs() == old(table).spec_configs(),
            final(table).spec_rows() == apply_op(
                old(table).spec_rows(),
                old(table).spec_configs(),
                InvoiceOp::UpdateExternalStatus {
                    key: InvoiceKey { id, tenant_id },
                    status: external_status,
                    now,
                },
            ),
            r == affected(
                old(table).spec_rows(),
                old(table).spec_configs(),
                InvoiceOp::UpdateExternalStatus {
                    key: InvoiceKey { id, tenant_id },
                    status: external_status,
                    now,
                },
            ),
    {
        let key = InvoiceKey { id, tenant_id };
        let ghost op = InvoiceOp::UpdateExternalStatus { key, status: external_status, now };
        let found = table.position(key);
        proof {
            lemma_keyed_op(table.rows@, table.configs@, op, found);
        }
        match found {
            Some(i) => {
                let ghost before = table.rows@[i as int];
                let row = &mut table.rows[i];
                row.external_status = external_status;
                row.updated_at = Some(now);
                proof {
                    assert(table.rows@[i as int] == op_patch(op, before));
                    lemma_wf_update(old(table).rows@, table.configs@, i as int, op_patch(op, before));
                    assert(table.rows@ == old(table).rows@.update(i as int, op_patch(op, before)));
                }
                1
            },
            None => 0,
        }
    }

    /// Moves every draft whose invoice date has come, and whose tenant's grace
    /// period after that date is not yet over, to pending. Returns the number
    /// of rows changed.
    pub fn update_pending_finalization(table: &mut InvoiceTable, now: u64) -> (r: usize)
        requires
            old(table).wf(),
        ensures
            final(table).wf(),
            final(table).spec_configs() == old(table).spec_configs(),
            final(table).spec_rows() == apply_op(
                old(table).spec_rows(),
                old(table).spec_configs(),
                InvoiceOp::MarkPending { now },
            ),
            r == affected(
                old(table).spec_rows(),
                old(table).spec_configs(),
                InvoiceOp::MarkPending { now },
            ),
    {
        let ghost op = InvoiceOp::MarkPending { now };
        let ghost rows0 = table.rows@;
        let ghost configs = table.configs@;
        let ghost target = apply_op(rows0, configs, op);
        let mut count: usize = 0;
        let mut i: usize = 0;
        while i < table.rows.len()
            invariant
                op == (InvoiceOp::MarkPending { now }),
                table_wf(rows0, configs),
                table.configs@ == configs,
                table.rows@.len() == rows0.len(),
                target == apply_op(rows0, configs, op),
                i <= rows0.len(),
                forall|k: int| 0 <= k < i ==> table.rows@[k] == target[k],
                forall|k: int| i <= k < rows0.len() ==> table.rows@[k] == rows0[k],
                count == affected(rows0.take(i as int), configs, op),
                count <= i,
            decreases rows0.len() - i,
        {
            let grace = table.grace_period_hours_unchecked(table.rows[i].tenant_id);
            proof {
                assert(row_wf(rows0[i as int]));
                lemma_grace_unique(configs, table.rows@[i as int].tenant_id, grace);
                assert(rows0.take(i + 1).drop_last() =~= rows0.take(i as int));
                assert(rows0.take(i + 1).last() == rows0[i as int]);
            }
            if pending_due(&table.rows[i], grace, now) {
                let ghost before = table.rows@[i as int];
                let row = &mut table.rows[i];
                row.status = InvoiceStatus::Pending;
                row.updated_at = Some(now);
                proof {
                    assert(table.rows@[i as int] == op_patch(op, before));
                }
                count = count + 1;
            }
            i = i + 1;
        }
        proof {
            assert(rows0.take(rows0.len() as int) =~= rows0);
            assert(table.rows@ =~= target);
            lemma_apply_op_wf(rows0, configs, op);
        }
        count
    }

    /// One page of the draft and pending invoices whose tenant's grace period
    /// after the invoice date is over at `now`.
    pub fn list_to_finalize(table: &InvoiceTable, now: u64, pagination: CursorPaginationRequest) -> (r:
        CursorPaginatedVec)
        requires
            table.wf(),
        ensures
            is_page_of(
                r,
                scan_keys(
                    table.spec_rows(),
                    table.spec_configs(),
                    InvoiceScan::ToFinalize { now },
                    pagination.cursor,
                ),
                pagination.limit,
            ),
    {
        table.scan(InvoiceScan::ToFinalize { now }, pagination)
    }

    /// One page of the open invoices never computed, or more than an hour past
    /// their invoice date at `now`.
    pub fn list_outdated(table: &InvoiceTable, now: u64, pagination: CursorPaginationRequest) -> (r:
        CursorPaginatedVec)
        requires
            table.wf(),
        ensures
            is_page_of(
                r,
                scan_keys(
                    table.spec_rows(),
                    table.spec_configs(),
                    InvoiceScan::Outdated { now },
                    pagination.cursor,
                ),
                pagination.limit,
            ),
    {
        table.scan(InvoiceScan::Outdated { now }, pagination)
    }

    /// One page of the finalized invoices, not issued and not issued by hand,
    /// that have had fewer than `max_attempts` issuance attempts.
    pub fn list_to_issue(
        table: &InvoiceTable,
        max_attempts: u32,
        pagination: CursorPaginationRequest,
    ) -> (r: CursorPaginatedVec)
        requires
            table.wf(),
        ensures
            is_page_of(
                r,
                scan_keys(
                    table.spec_rows(),
                    table.spec_configs(),
                    InvoiceScan::ToIssue { max_attempts },
                    pagination.cursor,
                ),
                pagination.limit,
            ),
    {
        table.scan(InvoiceScan::ToIssue { max_attempts }, pagination)
    }

    /// The invoice `id` of `tenant_id`.
    pub fn find_by_id(table: &InvoiceTable, tenant_id: u128, id: u128) -> (r: Result<
        &InvoiceRow,
        StoreError,
    >)
        requires
            table.wf(),
        ensures
            r is Err ==> r == Err::<&InvoiceRow, StoreError>(StoreError::NotFound),
            r is Err <==> forall|i: int|
                0 <= i < table.spec_rows().len() ==> !targets(
                    table.spec_rows()[i],
                    InvoiceKey { id, tenant_id },
                ),
            r is Ok ==> exists|i: int|
                0 <= i < table.spec_rows().len() && table.spec_rows()[i] == *r->Ok_0 && targets(
                    *r->Ok_0,
                    InvoiceKey { id, tenant_id },
                ),
    {
        match table.position(InvoiceKey { id, tenant_id }) {
            Some(i) => Ok(table.row_at(i)),
            None => Err(StoreError::NotFound),
        }
    }

    /// Page `pagination.page` of the tenant's invoices, optionally only those
    /// of one customer or in one status, in id order.
    pub fn list(
        table: &InvoiceTable,
        tenant_id: u128,
        customer_id: Option<u128>,
        status: Option<InvoiceStatus>,
        pagination: PaginationRequest,
    ) -> (r: PaginatedVec)
        requires
            table.wf(),
        ensures
            is_offset_page_of(
                r,
                listed_keys(table.spec_rows(), tenant_id, customer_id, status),
                pagination,
            ),
    {
        let rows = table.rows();
        let ghost all = listed_keys(rows@, tenant_id, customer_id, status);
        let mut keys: Vec<InvoiceKey> = Vec::new();
        let mut i: usize = 0;
        while i < rows.len()
            invariant
                i <= rows@.len(),
                keys@ == listed_keys(rows@.take(i as int), tenant_id, customer_id, status),
                keys@.len() <= i,
            decreases rows@.len() - i,
        {
            proof {
                assert(rows@.take(i + 1).drop_last() =~= rows@.take(i as int));
                assert(rows@.take(i + 1).last() == rows@[i as int]);
            }
            let r = &rows[i];
            let customer_ok = match customer_id {
                None => true,
                Some(c) => r.customer_id == c,
            };
            let status_ok = match status {
                None => true,
                Some(st) => r.status == st,
            };
            if r.tenant_id == tenant_id && customer_ok && status_ok {
                keys.push(InvoiceKey { id: r.id, tenant_id: r.tenant_id });
            }
            i = i + 1;
        }
        proof {
            assert(rows@.take(rows@.len() as int) =~= rows@);
        }
        let n = keys.len() as u64;
        let per_page = pagination.per_page as u64;
        proof {
            assert(pagination.page as u64 * per_page <= 0xffff_fffe_0000_0001) by (nonlinear_arith)
                requires
                    pagination.page <= 0xffff_ffff,
                    per_page <= 0xffff_ffff,
            ;
        }
        let start = pagination.page as u64 * per_page;
        let end = start + per_page;
        let mut items: Vec<InvoiceKey> = Vec::new();
        if start < n {
            let stop = if end >= n {
                n
            } else {
                end
            };
            let mut j = start as usize;
            while j < stop as usize
                invariant
                    start <= j <= stop <= n,
                    n == keys@.len(),
                    items@ == keys@.subrange(start as int, j as int),
                decreases stop - j,
            {
                items.push(keys[j]);
                proof {
                    assert(items@ =~= keys@.subrange(start as int, j + 1));
                }
                j = j + 1;
            }
        }
        proof {
            if per_page > 0 && n % per_page != 0 {
                assert(per_page != 1) by (nonlinear_arith)
                    requires
                        n % per_page != 0,
                ;
                assert(n / per_page <= n / 2) by (nonlinear_arith)
                    requires
                        per_page >= 2,
                ;
            }
        }
        let total_pages = if per_page == 0 {
            0
        } else {
            n / per_page + if n % per_page == 0 {
                0
            } else {
                1
            }
        };
        proof {
            if start >= n {
                assert(items@ =~= Seq::<InvoiceKey>::empty());
            }
        }
        PaginatedVec { items, total_pages }
    }

    /// Stores every invoice of `invoices` as a draft, or none of them: fails
    /// where an invoice date is not a real date, or where an id is already
    /// stored or occurs twice in the batch.
    pub fn insert_invoice_batch(table: &mut InvoiceTable, invoices: Vec<InvoiceRowNew>) -> (r: Result<
        Vec<InvoiceKey>,
        StoreError,
    >)
        requires
            old(table).wf(),
        ensures
            final(table).wf(),
            final(table).spec_configs() == old(table).spec_configs(),
            r is Err ==> final(table).spec_rows() == old(table).spec_rows(),
            (exists|k: int| 0 <= k < invoices@.len() && !invoices@[k].invoice_date.valid()) ==> r
                == Err::<Vec<InvoiceKey>, StoreError>(StoreError::InvalidDate),
            (forall|k: int| 0 <= k < invoices@.len() ==> invoices@[k].invoice_date.valid()) && (
            exists|k: int|
                0 <= k < invoices@.len() && id_taken(old(table).spec_rows(), invoices@[k].id)) ==> r
                == Err::<Vec<InvoiceKey>, StoreError>(StoreError::DuplicateId),
            (forall|k: int| 0 <= k < invoices@.len() ==> invoices@[k].invoice_date.valid()) && (
            exists|a: int, b: int| 0 <= a < b < invoices@.len() && invoices@[a].id == invoices@[b].id)
                ==> r == Err::<Vec<InvoiceKey>, StoreError>(StoreError::DuplicateId),
            r is Ok ==> {
                &&& r->Ok_0@.len() == invoices@.len()
                &&& forall|k: int|
                    0 <= k < invoices@.len() ==> r->Ok_0@[k] == (InvoiceKey {
                        id: invoices@[k].id,
                        tenant_id: invoices@[k].tenant_id,
                    })
                &&& final(table).spec_rows().len() == old(table).spec_rows().len()
                    + invoices@.len()
                &&& forall|i: int|
                    0 <= i < old(table).spec_rows().len() ==> final(table).spec_rows().contains(
                        old(table).spec_rows()[i],
                    )
                &&& forall|k: int|
                    0 <= k < invoices@.len() ==> final(table).spec_rows().contains(
                        new_row(invoices@[k]),
                    )
            },
            (forall|k: int| 0 <= k < invoices@.len() ==> invoices@[k].invoice_date.valid()) && (
            forall|k: int|
                0 <= k < invoices@.len() ==> !id_taken(old(table).spec_rows(), invoices@[k].id)) && (
            forall|a: int, b: int|
                0 <= a < b < invoices@.len() ==> invoices@[a].id != invoices@[b].id) ==> r is Ok,
    {
        let ghost inv0 = invoices@;
        let ghost rows0 = table.rows@;
        let mut keys: Vec<InvoiceKey> = Vec::new();
        let mut k: usize = 0;
        while k < invoices.len()
            invariant
                k <= inv0.len(),
                invoices@ == inv0,
                table.rows@ == rows0,
                table.wf(),
                keys@.len() == k,
                forall|a: int| 0 <= a < k ==> inv0[a].invoice_date.valid(),
                forall|a: int|
                    0 <= a < k ==> keys@[a] == (InvoiceKey {
                        id: inv0[a].id,
                        tenant_id: inv0[a].tenant_id,
                    }),
            decreases inv0.len() - k,
        {
            let n = &invoices[k];
            if !n.invoice_date.is_valid() {
                proof {
                    assert(!inv0[k as int].invoice_date.valid());
                }
                return Err(StoreError::InvalidDate);
            }
            keys.push(InvoiceKey { id: n.id, tenant_id: n.tenant_id });
            k = k + 1;
        }
        // every date is valid from here on
        let mut k: usize = 0;
        while k < invoices.len()
            invariant
                k <= inv0.len(),
                invoices@ == inv0,
                table.rows@ == rows0,
                table.wf(),
                forall|a: int| 0 <= a < inv0.len() ==> inv0[a].invoice_date.valid(),
                forall|a: int| 0 <= a < k ==> !id_taken(rows0, inv0[a].id),
                forall|a: int, b: int| 0 <= a < b < k ==> inv0[a].id != inv0[b].id,
                keys@.len() == inv0.len(),
                forall|a: int|
                    0 <= a < inv0.len() ==> keys@[a] == (InvoiceKey {
                        id: inv0[a].id,
                        tenant_id: inv0[a].tenant_id,
                    }),
            decreases inv0.len() - k,
        {
            let id = invoices[k].id;
            if table.id_position(id).is_some() {
                return Err(StoreError::DuplicateId);
            }
            let mut b: usize = 0;
            while b < k
                invariant
                    b <= k < inv0.len(),
                    invoices@ == inv0,
                    table.rows@ == rows0,
                    table.wf(),
                    forall|a: int| 0 <= a < inv0.len() ==> inv0[a].invoice_date.valid(),
                    id == inv0[k as int].id,
                    forall|a: int| 0 <= a < b ==> inv0[a].id != id,
                decreases k - b,
            {
                if invoices[b].id == id {
                    return Err(StoreError::DuplicateId);
                }
                b = b + 1;
            }
            k = k + 1;
        }
        let mut rest = invoices;
        while rest.len() > 0
            invariant
                table.wf(),
                table.configs@ == old(table).configs@,
                rest@ == inv0.take(rest@.len() as int),
                rest@.len() <= inv0.len(),
                forall|a: int| 0 <= a < inv0.len() ==> inv0[a].invoice_date.valid(),
                forall|a: int| 0 <= a < inv0.len() ==> !id_taken(rows0, inv0[a].id),
                forall|a: int, b: int| 0 <= a < b < inv0.len() ==> inv0[a].id != inv0[b].id,
                table.rows@.len() == rows0.len() + (inv0.len() - rest@.len()),
                forall|i: int| 0 <= i < rows0.len() ==> table.rows@.contains(rows0[i]),
                forall|a: int| rest@.len() <= a < inv0.len() ==> table.rows@.contains(new_row(inv0[a])),
                forall|a: int| 0 <= a < rest@.len() ==> !id_taken(table.rows@, inv0[a].id),
            decreases rest@.len(),
        {
            let n = rest.pop().unwrap();
            let ghost m = rest@.len() as int;
            proof {
                assert(inv0.take(m + 1)[m] == inv0[m]);
                assert(rest@ =~= inv0.take(m));
            }
            let ghost before = table.rows@;
            let res = n.insert(table);
            proof {
                let p = choose|p: int|
                    0 <= p <= before.len() && table.rows@ == before.insert(p, new_row(inv0[m]));
                let after = table.rows@;
                assert(after[p] == new_row(inv0[m]));
                assert forall|x: InvoiceRow| before.contains(x) implies after.contains(x) by {
                    let j = choose|j: int| 0 <= j < before.len() && before[j] == x;
                    if j < p {
                        assert(after[j] == x);
                    } else {
                        assert(after[j + 1] == x);
                    }
                }
                assert forall|a: int| 0 <= a < rest@.len() implies !id_taken(after, inv0[a].id) by {
                    assert forall|j: int| 0 <= j < after.len() implies after[j].id != inv0[a].id by {
                        if j < p {
                            assert(after[j] == before[j]);
                        } else if j > p {
                            assert(after[j] == before[j - 1]);
                        } else {
                            assert(inv0[a].id != inv0[m].id);
                        }
                    }
                }
                assert forall|i: int| 0 <= i < rows0.len() implies after.contains(rows0[i]) by {
                    assert(before.contains(rows0[i]));
                }
                assert forall|a: int| m <= a < inv0.len() implies after.contains(new_row(inv0[a])) by {
                    if a > m {
                        assert(before.contains(new_row(inv0[a])));
                    }
                }
            }
        }
        Ok(keys)
    }
}

impl InvoiceRowLinesPatch {
    /// Replaces the line items of the invoice `id` of `tenant_id` if it is
    /// still draft or pending, and marks its data as computed at `now`.
    /// Returns the number of rows changed; a finalized or void invoice keeps
    /// its lines.
    pub fn update_lines(self, id: u128, tenant_id: u128, table: &mut InvoiceTable, now: u64) -> (r:
        usize)
        requires
            old(table).wf(),
        ensures
            final(table).wf(),
            final(table).spec_configs() == old(table).spec_configs(),
            final(table).spec_rows() == apply_op(
                old(table).spec_rows(),
                old(table).spec_configs(),
                InvoiceOp::UpdateLines {
                    key: InvoiceKey { id, tenant_id },
                    line_items: self.line_items,
                    now,
                },
            ),
            r == affected(
                old(table).spec_rows(),
                old(table).spec_configs(),
                InvoiceOp::UpdateLines {
                    key: InvoiceKey { id, tenant_id },
                    line_items: self.line_items,
                    now,
                },
            ),
    {
        let key = InvoiceKey { id, tenant_id };
        let ghost op = InvoiceOp::UpdateLines { key, line_items: self.line_items, now };
        let found = table.position(key);
        proof {
            lemma_keyed_op(table.rows@, table.configs@, op, found);
        }
        match found {
            Some(i) => {
                if is_open_status(table.rows[i].status) {
                    let ghost before = table.rows@[i as int];
                    let row = &mut table.rows[i];
                    row.line_items = self.line_items;
                    row.data_updated_at = Some(now);
                    row.updated_at = Some(now);
                    proof {
                        assert(table.rows@[i as int] == op_patch(op, before));
                        lemma_wf_update(old(table).rows@, table.configs@, i as int, op_patch(op, before));
                        assert(table.rows@ == old(table).rows@.update(i as int, op_patch(op, before)));
                    }
                    1
                } else {
                    0
                }
            },
            None => 0,
        }
    }
}

/// Whether `row` is a draft due to become pending at `now`, given its
/// tenant's grace period.
fn pending_due(row: &InvoiceRow, grace: Option<u32>, now: u64) -> (r: bool)
    requires
        row.invoice_date.valid(),
    ensures
        r == (row.status == InvoiceStatus::Draft && grace is Some && hours_after(row.invoice_date, 0)
            <= now && now <= hours_after(row.invoice_date, grace->Some_0 as int)),
{
    match grace {
        None => false,
        Some(h) => {
            let start = row.invoice_date.start_seconds();
            proof {
                lemma_day_index_bounds(row.invoice_date);
            }
            let end = start + h as u64 * SECONDS_PER_HOUR;
            row.status == InvoiceStatus::Draft && start <= now && now <= end
        },
    }
}

/// Whether an invoice in status `s` may still change.
pub fn is_open_status(s: InvoiceStatus) -> (r: bool)
    ensures
        r == is_open(s),
{
    match s {
        InvoiceStatus::Draft | InvoiceStatus::Pending => true,
        _ => false,
    }
}

} // verus!
