//! What the rows of the tables say, and how a table is searched and changed.

use crate::consistency::unique_keys;
use crate::database::Database;
use crate::entity::{counter, device, pending_message, receipt};
use crate::frame::{text_of, Endpoint};
use crate::journal::{
    applied, dropped_devices, dropped_pending, dropped_receipts, replayed, Change, ChangeView,
};
use crate::table::{
    find, first_at, lemma_filter_congruent, lemma_first, present, put, rows, without,
};
use crate::tables::{earlier, total_bytes, DeviceKey, Sending, Tables};
use vstd::prelude::*;

verus! {

/// A table in memory shows every row it holds, in its place.
pub proof fn tables_show_their_rows<T: View>(table: Seq<T>, i: int)
    requires
        0 <= i < table.len(),
    ensures
        rows(table).len() == table.len(),
        rows(table)[i] == table[i]@,
{
}

/// A search gives the first row that fits, and nothing exactly if none does.
pub proof fn searches_give_the_first_match<A>(s: Seq<A>, p: spec_fn(A) -> bool)
    ensures
        present(s, p) <==> exists|i: int| 0 <= i < s.len() && p(#[trigger] s[i]),
        find(s, p) is None <==> forall|i: int| 0 <= i < s.len() ==> !p(#[trigger] s[i]),
        forall|i: int|
            0 <= i < s.len() && p(#[trigger] s[i]) && (forall|j: int|
                0 <= j < i ==> !p(#[trigger] s[j])) ==> find(s, p) == Some(s[i]),
{
    if present(s, p) {
        let k = choose|i: int| 0 <= i < s.len() && p(#[trigger] s[i]);
        assert(p(s[k]));
    }
    assert forall|i: int|
        0 <= i < s.len() && p(#[trigger] s[i]) && (forall|j: int|
            0 <= j < i ==> !p(#[trigger] s[j])) implies find(s, p) == Some(s[i]) by {
        lemma_first(s, p, i);
    }
}

/// A written row takes the place of the first row that fits, or comes last
/// where none does; every other row stays in its place.
pub proof fn writes_change_one_row<A>(s: Seq<A>, p: spec_fn(A) -> bool, row: A)
    ensures
        (forall|i: int| 0 <= i < s.len() ==> !p(#[trigger] s[i])) ==> put(s, p, row) == s.push(row),
        forall|i: int|
            0 <= i < s.len() && p(#[trigger] s[i]) && (forall|j: int|
                0 <= j < i ==> !p(#[trigger] s[j])) ==> put(s, p, row) == s.update(i, row),
{
    assert forall|i: int|
        0 <= i < s.len() && p(#[trigger] s[i]) && (forall|j: int|
            0 <= j < i ==> !p(#[trigger] s[j])) implies put(s, p, row) == s.update(i, row) by {
        lemma_first(s, p, i);
    }
}

/// A deletion keeps the rows that do not fit, in their order.
pub proof fn deletions_keep_the_rest<A>(s: Seq<A>, p: spec_fn(A) -> bool)
    ensures
        without(s, p) == s.filter(|a: A| !p(a)),
{
}

/// The rows in memory show each of their columns.
pub proof fn rows_show_their_columns(
    c: counter::Model,
    r: receipt::Model,
    p: pending_message::Model,
    d: device::Model,
)
    ensures
        c@.relay_id == c.relay_id@,
        c@.destination == c.destination@,
        c@.next_sequence == c.next_sequence,
        r@.relay_id == r.relay_id@,
        r@.source == r.source@,
        r@.message_id == r.message_id@,
        r@.destination == r.destination@,
        r@.sequence == r.sequence,
        r@.payload_hash == r.payload_hash@,
        r@.created_at == r.created_at,
        p@.relay_id == p.relay_id@,
        p@.destination == p.destination@,
        p@.sequence == p.sequence,
        p@.message_id == p.message_id@,
        p@.payload == p.payload@,
        p@.payload_bytes == p.payload_bytes,
        p@.created_at == p.created_at,
        match p.target_device_id {
            Some(target) => p@.target_device_id == Some(target@),
            None => p@.target_device_id is None,
        },
        d@.relay_id == d.relay_id@,
        d@.endpoint == d.endpoint@,
        d@.device_id == d.device_id@,
        d@.last_acked_sequence == d.last_acked_sequence,
        d@.last_seen_at == d.last_seen_at,
{
}

/// A database shows each of its four tables, and its journal in order.
pub proof fn databases_show_their_tables(db: Database)
    ensures
        db@.counters == rows(db.counters@),
        db@.receipts == rows(db.receipts@),
        db@.pending == rows(db.pending@),
        db@.devices == rows(db.devices@),
        db.log() == rows(db.journal@),
{
}

/// A primary key names the columns that tell one row from another.
pub proof fn keys_name_one_row(
    c: counter::Row,
    r: receipt::Row,
    p: pending_message::Row,
    d: device::Row,
    relay_id: Seq<char>,
    end: Seq<char>,
    id: Seq<char>,
    sequence: i64,
)
    ensures
        counter::keyed(relay_id, end)(c) <==> c.relay_id == relay_id && c.destination == end,
        receipt::keyed(relay_id, end, id)(r) <==> r.relay_id == relay_id && r.source == end
            && r.message_id == id,
        pending_message::keyed(relay_id, end, sequence)(p) <==> p.relay_id == relay_id
            && p.destination == end && p.sequence == sequence,
        device::keyed(relay_id, end, id)(d) <==> d.relay_id == relay_id && d.endpoint == end
            && d.device_id == id,
        receipt::key_of(r).relay_id == r.relay_id,
        receipt::key_of(r).source == r.source,
        receipt::key_of(r).message_id == r.message_id,
        pending_message::key_of(p).relay_id == p.relay_id,
        pending_message::key_of(p).destination == p.destination,
        pending_message::key_of(p).sequence == p.sequence,
        device::key_of(d).relay_id == d.relay_id,
        device::key_of(d).endpoint == d.endpoint,
        device::key_of(d).device_id == d.device_id,
{
}

/// The keys of a journal show each of their columns.
pub proof fn keys_show_their_columns(
    r: receipt::Key,
    p: pending_message::Key,
    d: device::Key,
)
    ensures
        r@.relay_id == r.relay_id@,
        r@.source == r.source@,
        r@.message_id == r.message_id@,
        p@.relay_id == p.relay_id@,
        p@.destination == p.destination@,
        p@.sequence == p.sequence,
        d@.relay_id == d.relay_id@,
        d@.endpoint == d.endpoint@,
        d@.device_id == d.device_id@,
{
}

/// A journal entry shows what it does and to which row.
pub proof fn changes_show_what_they_do(change: Change)
    ensures
        match change {
            Change::PutCounter(row) => change@ == ChangeView::PutCounter(row@),
            Change::PutReceipt(row) => change@ == ChangeView::PutReceipt(row@),
            Change::PutPending(row) => change@ == ChangeView::PutPending(row@),
            Change::PutDevice(row) => change@ == ChangeView::PutDevice(row@),
            Change::DropReceipt(key) => change@ == ChangeView::DropReceipt(key@),
            Change::DropPending(key) => change@ == ChangeView::DropPending(key@),
            Change::DropDevice(key) => change@ == ChangeView::DropDevice(key@),
        },
{
}

/// The endpoints are named `1` and `2`, and each is the other's opposite.
pub proof fn endpoints_are_one_and_two(endpoint: Endpoint)
    ensures
        endpoint == Endpoint::One ==> endpoint.name() == "1"@ && endpoint.other() == Endpoint::Two,
        endpoint == Endpoint::Two ==> endpoint.name() == "2"@ && endpoint.other() == Endpoint::One,
{
    reveal_strlit("1");
    reveal_strlit("2");
    assert("1"@ =~= seq!['1']);
    assert("2"@ =~= seq!['2']);
}

/// A message goes to the endpoint opposite its sender's.
pub proof fn messages_go_to_the_opposite_endpoint(m: Sending)
    ensures
        m.source == Endpoint::One ==> m.destination() == "2"@,
        m.source == Endpoint::Two ==> m.destination() == "1"@,
{
    endpoints_are_one_and_two(m.source);
    endpoints_are_one_and_two(m.source.other());
}

/// An optional text keeps its text.
pub proof fn optional_texts_keep_their_text(s: Option<String>)
    ensures
        text_of(s) == (match s {
            Some(text) => Some(text@),
            None => None,
        }),
{
}

/// The sequence that a direction stands at is its counter row's, or zero before
/// its first message.
pub proof fn heads_are_read_from_the_counters(
    t: Tables,
    relay_id: Seq<char>,
    destination: Seq<char>,
)
    ensures
        (forall|i: int|
            0 <= i < t.counters.len() ==> !((#[trigger] t.counters[i]).relay_id == relay_id
                && t.counters[i].destination == destination)) ==> t.head(relay_id, destination)
            == 0,
        forall|i: int|
            0 <= i < t.counters.len() && (#[trigger] t.counters[i]).relay_id == relay_id
                && t.counters[i].destination == destination && (forall|j: int|
                0 <= j < i ==> !((#[trigger] t.counters[j]).relay_id == relay_id
                    && t.counters[j].destination == destination)) ==> t.head(relay_id, destination)
                == t.counters[i].next_sequence,
{
    let p = counter::keyed(relay_id, destination);
    assert forall|i: int|
        0 <= i < t.counters.len() && (#[trigger] t.counters[i]).relay_id == relay_id
            && t.counters[i].destination == destination && (forall|j: int|
            0 <= j < i ==> !((#[trigger] t.counters[j]).relay_id == relay_id
                && t.counters[j].destination == destination)) implies t.head(relay_id, destination)
        == t.counters[i].next_sequence by {
        assert(first_at(t.counters, p, i));
        lemma_first(t.counters, p, i);
    }
}

/// The cursor of a device is its row's, or zero while it has none.
pub proof fn cursors_are_read_from_the_devices(
    t: Tables,
    relay_id: Seq<char>,
    endpoint: Seq<char>,
    device_id: Seq<char>,
)
    ensures
        (forall|i: int|
            0 <= i < t.devices.len() ==> !((#[trigger] t.devices[i]).relay_id == relay_id
                && t.devices[i].endpoint == endpoint && t.devices[i].device_id == device_id))
            ==> t.cursor(relay_id, endpoint, device_id) == 0,
        forall|i: int|
            0 <= i < t.devices.len() && (#[trigger] t.devices[i]).relay_id == relay_id
                && t.devices[i].endpoint == endpoint && t.devices[i].device_id == device_id && (
            forall|j: int|
                0 <= j < i ==> !((#[trigger] t.devices[j]).relay_id == relay_id
                    && t.devices[j].endpoint == endpoint && t.devices[j].device_id == device_id))
                ==> t.cursor(relay_id, endpoint, device_id) == t.devices[i].last_acked_sequence,
{
    let p = device::keyed(relay_id, endpoint, device_id);
    assert forall|i: int|
        0 <= i < t.devices.len() && (#[trigger] t.devices[i]).relay_id == relay_id
            && t.devices[i].endpoint == endpoint && t.devices[i].device_id == device_id && (
        forall|j: int|
            0 <= j < i ==> !((#[trigger] t.devices[j]).relay_id == relay_id
                && t.devices[j].endpoint == endpoint && t.devices[j].device_id == device_id))
        implies t.cursor(relay_id, endpoint, device_id) == t.devices[i].last_acked_sequence by {
        assert(first_at(t.devices, p, i));
        lemma_first(t.devices, p, i);
    }
}

/// A device asks for its own cursor.
pub proof fn devices_ask_for_their_own_cursor(t: Tables, key: DeviceKey)
    ensures
        key.cursor(t) == t.cursor(key.relay_id, key.endpoint.name(), key.device_id),
{
}

/// The bytes of a queue are the sum of what its rows say.
pub proof fn bytes_add_up(queue: Seq<pending_message::Row>, row: pending_message::Row)
    ensures
        total_bytes(Seq::empty()) == 0,
        total_bytes(queue.push(row)) == total_bytes(queue) + row.payload_bytes,
{
    assert(queue.push(row).drop_last() =~= queue);
}

/// A row is older than a retention period exactly if the time since is longer,
/// whatever the clock says. A time that the clock cannot show is taken as the
/// first or the last that it can.
pub proof fn cutoffs_mark_what_is_too_old(now: i64, secs: i64, at: i64)
    ensures
        secs >= 0 ==> (at < earlier(now, secs) <==> now - at > secs),
        now - secs < i64::MIN ==> earlier(now, secs) == i64::MIN,
        now - secs > i64::MAX ==> earlier(now, secs) == i64::MAX,
        i64::MIN <= now - secs <= i64::MAX ==> earlier(now, secs) == now - secs,
{
}

/// A journal is replayed from first to last.
pub proof fn journals_are_replayed_in_order(t: Tables, log: Seq<ChangeView>, last: ChangeView)
    ensures
        replayed(t, Seq::empty()) == t,
        replayed(t, log.push(last)) == applied(replayed(t, log), last),
{
    assert(log.push(last).drop_last() =~= log);
}

/// Replaying a written row leaves it under its key, and every row of the table
/// that has another key, and every other table, as they were.
pub proof fn replayed_rows_are_written(
    t: Tables,
    c: counter::Row,
    r: receipt::Row,
    p: pending_message::Row,
    d: device::Row,
)
    ensures
        applied(t, ChangeView::PutCounter(c)) == (Tables {
            counters: put(
                t.counters,
                |row: counter::Row| row.relay_id == c.relay_id && row.destination == c.destination,
                c,
            ),
            ..t
        }),
        applied(t, ChangeView::PutReceipt(r)) == (Tables {
            receipts: put(
                t.receipts,
                |row: receipt::Row|
                    row.relay_id == r.relay_id && row.source == r.source && row.message_id
                        == r.message_id,
                r,
            ),
            ..t
        }),
        applied(t, ChangeView::PutPending(p)) == (Tables {
            pending: put(
                t.pending,
                |row: pending_message::Row|
                    row.relay_id == p.relay_id && row.destination == p.destination && row.sequence
                        == p.sequence,
                p,
            ),
            ..t
        }),
        applied(t, ChangeView::PutDevice(d)) == (Tables {
            devices: put(
                t.devices,
                |row: device::Row|
                    row.relay_id == d.relay_id && row.endpoint == d.endpoint && row.device_id
                        == d.device_id,
                d,
            ),
            ..t
        }),
{
    assert(counter::same_key(c) =~= (|row: counter::Row|
        row.relay_id == c.relay_id && row.destination == c.destination));
    assert(receipt::same_key(r) =~= (|row: receipt::Row|
        row.relay_id == r.relay_id && row.source == r.source && row.message_id == r.message_id));
    assert(pending_message::same_key(p) =~= (|row: pending_message::Row|
        row.relay_id == p.relay_id && row.destination == p.destination && row.sequence
            == p.sequence));
    assert(device::same_key(d) =~= (|row: device::Row|
        row.relay_id == d.relay_id && row.endpoint == d.endpoint && row.device_id == d.device_id));
}

/// Replaying a deletion takes out the rows with its key, and leaves every other
/// row, and every other table, as they were.
pub proof fn replayed_deletions_take_one_key(
    t: Tables,
    r: receipt::KeyView,
    p: pending_message::KeyView,
    d: device::KeyView,
)
    ensures
        applied(t, ChangeView::DropReceipt(r)) == (Tables {
            receipts: t.receipts.filter(
                |row: receipt::Row|
                    !(row.relay_id == r.relay_id && row.source == r.source && row.message_id
                        == r.message_id),
            ),
            ..t
        }),
        applied(t, ChangeView::DropPending(p)) == (Tables {
            pending: t.pending.filter(
                |row: pending_message::Row|
                    !(row.relay_id == p.relay_id && row.destination == p.destination
                        && row.sequence == p.sequence),
            ),
            ..t
        }),
        applied(t, ChangeView::DropDevice(d)) == (Tables {
            devices: t.devices.filter(
                |row: device::Row|
                    !(row.relay_id == d.relay_id && row.endpoint == d.endpoint && row.device_id
                        == d.device_id),
            ),
            ..t
        }),
{
    let a = receipt::keyed(r.relay_id, r.source, r.message_id);
    lemma_filter_congruent(
        t.receipts,
        |row: receipt::Row| !a(row),
        |row: receipt::Row|
            !(row.relay_id == r.relay_id && row.source == r.source && row.message_id
                == r.message_id),
    );
    let b = pending_message::keyed(p.relay_id, p.destination, p.sequence);
    lemma_filter_congruent(
        t.pending,
        |row: pending_message::Row| !b(row),
        |row: pending_message::Row|
            !(row.relay_id == p.relay_id && row.destination == p.destination && row.sequence
                == p.sequence),
    );
    let c = device::keyed(d.relay_id, d.endpoint, d.device_id);
    lemma_filter_congruent(
        t.devices,
        |row: device::Row| !c(row),
        |row: device::Row|
            !(row.relay_id == d.relay_id && row.endpoint == d.endpoint && row.device_id
                == d.device_id),
    );
}

/// Keys are unique exactly if no two rows of a table agree on all the columns
/// of its key.
pub proof fn unique_keys_tell_rows_apart(t: Tables)
    ensures
        unique_keys(t) <==> {
            &&& forall|i: int, j: int|
                0 <= i < j < t.counters.len() ==> !((#[trigger] t.counters[i]).relay_id == (
                #[trigger] t.counters[j]).relay_id && t.counters[i].destination
                    == t.counters[j].destination)
            &&& forall|i: int, j: int|
                0 <= i < j < t.receipts.len() ==> !((#[trigger] t.receipts[i]).relay_id == (
                #[trigger] t.receipts[j]).relay_id && t.receipts[i].source == t.receipts[j].source
                    && t.receipts[i].message_id == t.receipts[j].message_id)
            &&& forall|i: int, j: int|
                0 <= i < j < t.pending.len() ==> !((#[trigger] t.pending[i]).relay_id == (
                #[trigger] t.pending[j]).relay_id && t.pending[i].destination
                    == t.pending[j].destination && t.pending[i].sequence == t.pending[j].sequence)
            &&& forall|i: int, j: int|
                0 <= i < j < t.devices.len() ==> !((#[trigger] t.devices[i]).relay_id == (
                #[trigger] t.devices[j]).relay_id && t.devices[i].endpoint == t.devices[j].endpoint
                    && t.devices[i].device_id == t.devices[j].device_id)
        },
{
}

/// The journal of a deletion names each row that goes, by its key, in order.
pub proof fn journals_name_each_deleted_row(
    p: Seq<pending_message::Row>,
    r: Seq<receipt::Row>,
    d: Seq<device::Row>,
)
    ensures
        dropped_pending(p).len() == p.len(),
        forall|i: int|
            0 <= i < p.len() ==> #[trigger] dropped_pending(p)[i] == ChangeView::DropPending(
                pending_message::KeyView {
                    relay_id: p[i].relay_id,
                    destination: p[i].destination,
                    sequence: p[i].sequence,
                },
            ),
        dropped_receipts(r).len() == r.len(),
        forall|i: int|
            0 <= i < r.len() ==> #[trigger] dropped_receipts(r)[i] == ChangeView::DropReceipt(
                receipt::KeyView {
                    relay_id: r[i].relay_id,
                    source: r[i].source,
                    message_id: r[i].message_id,
                },
            ),
        dropped_devices(d).len() == d.len(),
        forall|i: int|
            0 <= i < d.len() ==> #[trigger] dropped_devices(d)[i] == ChangeView::DropDevice(
                device::KeyView {
                    relay_id: d[i].relay_id,
                    endpoint: d[i].endpoint,
                    device_id: d[i].device_id,
                },
            ),
{
}

} // verus!
