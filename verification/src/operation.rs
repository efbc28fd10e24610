//! The operations of a relay as steps from one state of its tables to the next.

use crate::config::Limits;
use crate::database::{device_change, store_log};
use crate::journal::{dropped_devices, dropped_pending, dropped_receipts, ChangeView};
use crate::tables::{
    acked_row, after_ack, after_ack_head, after_cleanup, after_register, after_store, clamped,
    earlier, expired_device, expired_pending, purged, removed_receipt, store_fault, with_cursor,
    with_device, DeviceKey, Sending, Tables,
};
use vstd::prelude::*;

verus! {

/// One operation with its arguments and the time at which it runs.
pub enum Operation {
    Store { message: Sending, now: i64 },
    Register { device: DeviceKey, now: i64 },
    Acknowledge { device: DeviceKey, sequence: u64, now: i64 },
    AcknowledgeHead { device: DeviceKey, now: i64 },
    Cleanup { now: i64 },
}

impl Operation {
    /// When the operation runs.
    pub open spec fn time(self) -> i64 {
        match self {
            Operation::Store { now, .. } => now,
            Operation::Register { now, .. } => now,
            Operation::Acknowledge { now, .. } => now,
            Operation::AcknowledgeHead { now, .. } => now,
            Operation::Cleanup { now } => now,
        }
    }
}

/// The tables after an operation.
pub open spec fn next(limits: Limits, t: Tables, op: Operation) -> Tables {
    match op {
        Operation::Store { message, now } => if store_fault(limits, t, message) is Some {
            t
        } else {
            after_store(t, message, now)
        },
        Operation::Register { device, now } => after_register(t, device, now),
        Operation::Acknowledge { device, sequence, now } => after_ack(
            limits,
            t,
            device,
            sequence,
            now,
        ),
        Operation::AcknowledgeHead { device, now } => after_ack_head(limits, t, device, now),
        Operation::Cleanup { now } => after_cleanup(limits, t, now),
    }
}

/// The row changes of an operation.
pub open spec fn changes(limits: Limits, t: Tables, op: Operation) -> Seq<ChangeView> {
    match op {
        Operation::Store { message, now } => if store_fault(limits, t, message) is Some {
            Seq::empty()
        } else {
            store_log(t, message, now)
        },
        Operation::Register { device, now } => device_change(
            Some(device.row_with(device.cursor(t), now)),
        ),
        Operation::Acknowledge { device, sequence, now } => {
            let upto = clamped(sequence);
            let row = acked_row(t, device, upto, now);
            let moved = with_cursor(t, device, row);
            let since = earlier(now, limits.device_retention_secs);
            device_change(row) + dropped_pending(
                moved.pending.filter(purged(moved, device, since, upto)),
            )
        },
        Operation::AcknowledgeHead { device, now } => {
            let head = t.head(device.relay_id, device.endpoint.name());
            let row = device.row_with(head, now);
            let moved = with_device(t, device, row);
            let since = earlier(now, limits.device_retention_secs);
            device_change(Some(row)) + dropped_pending(
                moved.pending.filter(purged(moved, device, since, head)),
            )
        },
        Operation::Cleanup { now } => dropped_receipts(
            t.receipts.filter(removed_receipt(limits, t, now)),
        ) + dropped_pending(t.pending.filter(expired_pending(limits, now))) + dropped_devices(
            t.devices.filter(expired_device(limits, now)),
        ),
    }
}

/// The tables of a relay that has not stored anything.
pub open spec fn empty_tables() -> Tables {
    Tables {
        counters: Seq::empty(),
        receipts: Seq::empty(),
        pending: Seq::empty(),
        devices: Seq::empty(),
    }
}

/// The tables after a run of operations, first to last.
pub open spec fn after_run(limits: Limits, t: Tables, ops: Seq<Operation>) -> Tables
    decreases ops.len(),
{
    if ops.len() == 0 {
        t
    } else {
        next(limits, after_run(limits, t, ops.drop_last()), ops.last())
    }
}

} // verus!
