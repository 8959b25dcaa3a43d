//! Sweeps: walk the invoices due for a transition page by page, resuming from
//! the last key seen, and drive each through its conditional update.
use vstd::prelude::*;

use crate::invoices::{
    affected, after_cursor, apply_op, due_for_finalization, is_open, key_of, lemma_apply_op_wf,
    lemma_scan_keys_selected, scan_keys, scan_selects, table_wf, CursorPaginationRequest, InvoiceKey,
    InvoiceOp, InvoiceRow, InvoiceScan, InvoiceTable, InvoicingConfig,
};

verus! {

/// The rows after finalizing each key of `keys` in turn at `now`.
pub open spec fn finalize_keys(
    rows: Seq<InvoiceRow>,
    configs: Seq<InvoicingConfig>,
    keys: Seq<InvoiceKey>,
    now: u64,
) -> Seq<InvoiceRow>
    decreases keys.len(),
{
    if keys.len() == 0 {
        rows
    } else {
        apply_op(
            finalize_keys(rows, configs, keys.drop_last(), now),
            configs,
            InvoiceOp::Finalize { key: keys.last(), now },
        )
    }
}

/// How many rows finalizing each key of `keys` in turn changes.
pub open spec fn finalize_keys_count(
    rows: Seq<InvoiceRow>,
    configs: Seq<InvoicingConfig>,
    keys: Seq<InvoiceKey>,
    now: u64,
) -> nat
    decreases keys.len(),
{
    if keys.len() == 0 {
        0
    } else {
        finalize_keys_count(rows, configs, keys.drop_last(), now) + affected(
            finalize_keys(rows, configs, keys.drop_last(), now),
            configs,
            InvoiceOp::Finalize { key: keys.last(), now },
        )
    }
}

/// Finalizing a list of keys keeps the rows and their ids, closes every open
/// row whose key is listed, and leaves every other row as it was.
proof fn lemma_finalize_keys(
    rows: Seq<InvoiceRow>,
    configs: Seq<InvoicingConfig>,
    keys: Seq<InvoiceKey>,
    now: u64,
)
    requires
        table_wf(rows, configs),
    ensures
        table_wf(finalize_keys(rows, configs, keys, now), configs),
        finalize_keys(rows, configs, keys, now).len() == rows.len(),
        forall|j: int|
            0 <= j < rows.len() ==> {
                let after = #[trigger] finalize_keys(rows, configs, keys, now)[j];
                &&& after.id == rows[j].id
                &&& after.tenant_id == rows[j].tenant_id
                &&& (keys.contains(key_of(rows[j])) ==> !is_open(after.status))
                &&& (!keys.contains(key_of(rows[j])) ==> after == rows[j])
                &&& (!is_open(rows[j].status) ==> !is_open(after.status))
            },
    decreases keys.len(),
{
    if keys.len() > 0 {
        let d = keys.drop_last();
        lemma_finalize_keys(rows, configs, d, now);
        let prev = finalize_keys(rows, configs, d, now);
        let op = InvoiceOp::Finalize { key: keys.last(), now };
        lemma_apply_op_wf(prev, configs, op);
        assert forall|j: int| 0 <= j < rows.len() implies {
            let after = #[trigger] finalize_keys(rows, configs, keys, now)[j];
            &&& after.id == rows[j].id
            &&& after.tenant_id == rows[j].tenant_id
            &&& (keys.contains(key_of(rows[j])) ==> !is_open(after.status))
            &&& (!keys.contains(key_of(rows[j])) ==> after == rows[j])
            &&& (!is_open(rows[j].status) ==> !is_open(after.status))
        } by {
            let k = key_of(rows[j]);
            if keys.contains(k) && !d.contains(k) {
                let x = choose|x: int| 0 <= x < keys.len() && keys[x] == k;
                if x < d.len() {
                    assert(d[x] == k);
                }
                assert(keys.last() == k);
            }
            if d.contains(k) {
                let x = choose|x: int| 0 <= x < d.len() && d[x] == k;
                assert(keys[x] == k);
            }
            if !keys.contains(k) {
                assert(keys.last() != k) by {
                    assert(keys[keys.len() - 1] == keys.last());
                }
                assert(!d.contains(k)) by {
                    if d.contains(k) {
                        let x = choose|x: int| 0 <= x < d.len() && d[x] == k;
                        assert(keys[x] == k);
                    }
                }
            }
        }
    }
}

/// The keys a scan returns are in strictly increasing id order.
proof fn lemma_scan_keys_sorted(
    rows: Seq<InvoiceRow>,
    configs: Seq<InvoicingConfig>,
    scan: InvoiceScan,
    cursor: Option<u128>,
)
    requires
        table_wf(rows, configs),
    ensures
        forall|a: int, b: int|
            0 <= a < b < scan_keys(rows, configs, scan, cursor).len() ==> scan_keys(
                rows,
                configs,
                scan,
                cursor,
            )[a].id < scan_keys(rows, configs, scan, cursor)[b].id,
    decreases rows.len(),
{
    if rows.len() > 0 {
        let d = rows.drop_last();
        assert(table_wf(d, configs)) by {
            assert forall|i: int| 0 <= i < d.len() implies crate::invoices::row_wf(#[trigger] d[i]) by {
                assert(d[i] == rows[i]);
            }
        }
        lemma_scan_keys_sorted(d, configs, scan, cursor);
        let prev = scan_keys(d, configs, scan, cursor);
        let all = scan_keys(rows, configs, scan, cursor);
        if all.len() > prev.len() {
            assert forall|a: int| 0 <= a < prev.len() implies prev[a].id < rows.last().id by {
                lemma_scan_keys_selected(d, configs, scan, cursor, a);
                let j = choose|j: int|
                    0 <= j < d.len() && key_of(d[j]) == prev[a] && after_cursor(d[j], cursor)
                        && scan_selects(scan, d[j], configs);
                assert(d[j] == rows[j]);
            }
        }
    }
}

/// Every selected row past the cursor has its key among the scan's keys.
proof fn lemma_scan_keys_complete(
    rows: Seq<InvoiceRow>,
    configs: Seq<InvoicingConfig>,
    scan: InvoiceScan,
    cursor: Option<u128>,
    j: int,
)
    requires
        0 <= j < rows.len(),
        after_cursor(rows[j], cursor),
        scan_selects(scan, rows[j], configs),
    ensures
        scan_keys(rows, configs, scan, cursor).contains(key_of(rows[j])),
    decreases rows.len(),
{
    let all = scan_keys(rows, configs, scan, cursor);
    if j == rows.len() - 1 {
        assert(all[all.len() - 1] == key_of(rows[j]));
    } else {
        let d = rows.drop_last();
        assert(d[j] == rows[j]);
        lemma_scan_keys_complete(d, configs, scan, cursor, j);
        let prev = scan_keys(d, configs, scan, cursor);
        let x = choose|x: int| 0 <= x < prev.len() && prev[x] == key_of(rows[j]);
        assert(all[x] == prev[x]);
    }
}

pub open spec fn cursor_measure(cursor: Option<u128>) -> int {
    match cursor {
        None => u128::MAX + 1,
        Some(c) => u128::MAX - c,
    }
}

/// Finalizes each invoice of `keys` in turn at `now`; returns how many rows
/// changed, at most one per key.
pub fn finalize_batch(table: &mut InvoiceTable, keys: &Vec<InvoiceKey>, now: u64) -> (r: usize)
    requires
        old(table).wf(),
    ensures
        final(table).wf(),
        final(table).spec_configs() == old(table).spec_configs(),
        final(table).spec_rows() == finalize_keys(
            old(table).spec_rows(),
            old(table).spec_configs(),
            keys@,
            now,
        ),
        r == finalize_keys_count(old(table).spec_rows(), old(table).spec_configs(), keys@, now),
        r <= keys@.len(),
{
    let ghost rows0 = table.spec_rows();
    let ghost configs = table.spec_configs();
    let mut count: usize = 0;
    let mut i: usize = 0;
    while i < keys.len()
        invariant
            table.wf(),
            table.spec_configs() == configs,
            i <= keys@.len(),
            count <= i,
            table.spec_rows() == finalize_keys(rows0, configs, keys@.take(i as int), now),
            count == finalize_keys_count(rows0, configs, keys@.take(i as int), now),
        decreases keys@.len() - i,
    {
        let k = keys[i];
        let n = InvoiceRow::finalize(table, k.id, k.tenant_id, now);
        proof {
            assert(keys@.take(i + 1).drop_last() =~= keys@.take(i as int));
            assert(keys@.take(i + 1).last() == k);
        }
        proof {
            crate::invoices::lemma_finalize_once(
                finalize_keys(rows0, configs, keys@.take(i as int), now),
                configs,
                k,
                now,
                now,
            );
        }
        count = count + n;
        i = i + 1;
    }
    proof {
        assert(keys@.take(keys@.len() as int) =~= keys@);
    }
    count
}

/// Finalizes every invoice due for finalization at `now`, reading the due
/// invoices in pages of at most `batch_size` keys, each page resuming after
/// the last key of the one before. Afterwards no invoice is due for
/// finalization at `now`.
pub fn sweep_to_finalize(table: &mut InvoiceTable, now: u64, batch_size: u32)
    requires
        old(table).wf(),
        batch_size > 0,
    ensures
        final(table).wf(),
        final(table).spec_configs() == old(table).spec_configs(),
        final(table).spec_rows().len() == old(table).spec_rows().len(),
        forall|j: int|
            0 <= j < final(table).spec_rows().len() ==> !due_for_finalization(
                #[trigger] final(table).spec_rows()[j],
                final(table).spec_configs(),
                now,
            ),
{
    let ghost configs = table.spec_configs();
    let ghost n = table.spec_rows().len();
    let mut cursor: Option<u128> = None;
    let ghost mut measure: int = cursor_measure(cursor);
    loop
        invariant
            table.wf(),
            configs == old(table).spec_configs(),
            n == old(table).spec_rows().len(),
            table.spec_configs() == configs,
            table.spec_rows().len() == n,
            measure == cursor_measure(cursor),
            batch_size > 0,
            forall|j: int|
                0 <= j < n && cursor is Some && table.spec_rows()[j].id <= cursor->Some_0
                    ==> !due_for_finalization(#[trigger] table.spec_rows()[j], configs, now),
        decreases measure,
    {
        let ghost rows = table.spec_rows();
        let ghost scan = InvoiceScan::ToFinalize { now };
        let page = InvoiceRow::list_to_finalize(
            table,
            now,
            CursorPaginationRequest { cursor, limit: batch_size },
        );
        let ghost all = scan_keys(rows, configs, scan, cursor);
        finalize_batch(table, &page.items, now);
        proof {
            lemma_scan_keys_sorted(rows, configs, scan, cursor);
            lemma_finalize_keys(rows, configs, page.items@, now);
            let after = table.spec_rows();
            assert forall|j: int|
                0 <= j < n && (page.next_cursor is None || after[j].id
                    <= page.next_cursor->Some_0) implies !due_for_finalization(
                #[trigger] after[j],
                configs,
                now,
            ) by {
                let k = key_of(rows[j]);
                if page.items@.contains(k) {
                } else if cursor is Some && rows[j].id <= cursor->Some_0 {
                    assert(after[j] == rows[j]);
                } else if due_for_finalization(rows[j], configs, now) {
                    lemma_scan_keys_complete(rows, configs, scan, cursor, j);
                    let x = choose|x: int| 0 <= x < all.len() && all[x] == k;
                    if all.len() <= batch_size {
                        assert(page.items@[x] == k);
                    } else {
                        assert(x >= batch_size) by {
                            if x < batch_size {
                                assert(page.items@[x] == all[x]);
                            }
                        }
                        assert(page.next_cursor == Some(all[batch_size - 1].id));
                        if x > batch_size - 1 {
                            assert(all[batch_size - 1].id < all[x].id);
                        }
                    }
                } else {
                    assert(after[j] == rows[j]);
                }
            }
        }
        match page.next_cursor {
            None => {
                return;
            },
            Some(next) => {
                proof {
                    let all_len = all.len();
                    assert(all_len > batch_size);
                    lemma_scan_keys_selected(rows, configs, scan, cursor, batch_size - 1);
                    let j = choose|j: int|
                        0 <= j < rows.len() && key_of(rows[j]) == all[batch_size - 1]
                            && after_cursor(rows[j], cursor) && scan_selects(scan, rows[j], configs);
                    assert(next == rows[j].id);
                }
                cursor = Some(next);
                proof {
                    measure = cursor_measure(cursor);
                }
            },
        }
    }
}

} // verus!
