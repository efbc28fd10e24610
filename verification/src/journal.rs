//! The row changes of an operation, for whoever keeps the rows on disk.

use crate::entity::{counter, device, pending_message, receipt};
use crate::table::{put, without};
use crate::tables::Tables;
use vstd::prelude::*;

verus! {

/// One change of one row, found by its primary key.
#[derive(Debug, PartialEq)]
pub enum Change {
    /// The row is inserted, or takes the place of the row with its key.
    PutCounter(counter::Model),
    PutReceipt(receipt::Model),
    PutPending(pending_message::Model),
    PutDevice(device::Model),
    /// The row with this key is deleted.
    DropReceipt(receipt::Key),
    DropPending(pending_message::Key),
    DropDevice(device::Key),
}

/// The value of a change.
pub enum ChangeView {
    PutCounter(counter::Row),
    PutReceipt(receipt::Row),
    PutPending(pending_message::Row),
    PutDevice(device::Row),
    DropReceipt(receipt::KeyView),
    DropPending(pending_message::KeyView),
    DropDevice(device::KeyView),
}

impl View for Change {
    type V = ChangeView;

    open spec fn view(&self) -> ChangeView {
        match self {
            Change::PutCounter(row) => ChangeView::PutCounter(row@),
            Change::PutReceipt(row) => ChangeView::PutReceipt(row@),
            Change::PutPending(row) => ChangeView::PutPending(row@),
            Change::PutDevice(row) => ChangeView::PutDevice(row@),
            Change::DropReceipt(key) => ChangeView::DropReceipt(key@),
            Change::DropPending(key) => ChangeView::DropPending(key@),
            Change::DropDevice(key) => ChangeView::DropDevice(key@),
        }
    }
}

/// The tables after one change.
pub open spec fn applied(t: Tables, change: ChangeView) -> Tables {
    match change {
        ChangeView::PutCounter(row) => Tables {
            counters: put(t.counters, counter::same_key(row), row),
            ..t
        },
        ChangeView::PutReceipt(row) => Tables {
            receipts: put(t.receipts, receipt::same_key(row), row),
            ..t
        },
        ChangeView::PutPending(row) => Tables {
            pending: put(t.pending, pending_message::same_key(row), row),
            ..t
        },
        ChangeView::PutDevice(row) => Tables {
            devices: put(t.devices, device::same_key(row), row),
            ..t
        },
        ChangeView::DropReceipt(key) => Tables {
            receipts: without(t.receipts, receipt::keyed(key.relay_id, key.source, key.message_id)),
            ..t
        },
        ChangeView::DropPending(key) => Tables {
            pending: without(t.pending, pending_message::keyed(key.relay_id, key.destination, key.sequence)),
            ..t
        },
        ChangeView::DropDevice(key) => Tables {
            devices: without(t.devices, device::keyed(key.relay_id, key.endpoint, key.device_id)),
            ..t
        },
    }
}

/// The tables after a run of changes, first to last.
pub open spec fn replayed(t: Tables, changes: Seq<ChangeView>) -> Tables
    decreases changes.len(),
{
    if changes.len() == 0 {
        t
    } else {
        applied(replayed(t, changes.drop_last()), changes.last())
    }
}

/// The changes that delete these pending rows.
pub open spec fn dropped_pending(rows: Seq<pending_message::Row>) -> Seq<ChangeView> {
    rows.map_values(|row: pending_message::Row| ChangeView::DropPending(pending_message::key_of(row)))
}

/// The changes that delete these receipts.
pub open spec fn dropped_receipts(rows: Seq<receipt::Row>) -> Seq<ChangeView> {
    rows.map_values(|row: receipt::Row| ChangeView::DropReceipt(receipt::key_of(row)))
}

/// The changes that delete these devices.
pub open spec fn dropped_devices(rows: Seq<device::Row>) -> Seq<ChangeView> {
    rows.map_values(|row: device::Row| ChangeView::DropDevice(device::key_of(row)))
}

} // verus!
