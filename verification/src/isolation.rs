//! What an operation reads and touches: one direction of one pairing id.

use crate::config::Limits;
use crate::delivery::backlog;
use crate::entity::{counter, device, pending_message, receipt};
use crate::frame::{lemma_names, Endpoint};
use crate::journal::dropped_pending;
use crate::operation::{changes, next, Operation};
use crate::table::{
    first_at, lemma_filter_congruent, lemma_filter_filter, lemma_find_filter, lemma_first,
    lemma_first_exists, lemma_push_apart, lemma_push_found, lemma_put_apart, present, put,
};
use crate::tables::{
    acked_row, after_prune, clamped, earlier, expired_device, expired_pending, new_counter,
    new_pending, new_receipt, passed_by_all, purged, removed_receipt, store_delivery, store_fault,
    total_bytes, unacknowledged, with_cursor, with_device, DeviceKey, Sending, Tables,
};
use vstd::prelude::*;

verus! {

/// One direction of one pairing id, named by the endpoint that receives.
pub struct Channel {
    pub relay_id: Seq<char>,
    pub endpoint: Endpoint,
}

/// The rows of the devices on one endpoint.
pub open spec fn on_endpoint(relay_id: Seq<char>, endpoint: Seq<char>) -> spec_fn(
    device::Row,
) -> bool {
    |row: device::Row| row.relay_id == relay_id && row.endpoint == endpoint
}

impl Channel {
    pub open spec fn counters(self, t: Tables) -> Seq<counter::Row> {
        t.counters.filter(counter::keyed(self.relay_id, self.endpoint.name()))
    }

    pub open spec fn pending(self, t: Tables) -> Seq<pending_message::Row> {
        t.queue(self.relay_id, self.endpoint.name())
    }

    pub open spec fn devices(self, t: Tables) -> Seq<device::Row> {
        t.devices.filter(on_endpoint(self.relay_id, self.endpoint.name()))
    }

    /// The waiting messages of this channel without their contents.
    pub open spec fn sketches(self, t: Tables) -> Seq<pending_message::Row> {
        self.pending(t).map_values(sketch())
    }

    /// Both tables hold the same counter, waiting messages and devices of this
    /// channel, whatever else they hold.
    pub open spec fn same(self, s: Tables, t: Tables) -> bool {
        &&& self.counters(s) == self.counters(t)
        &&& self.pending(s) == self.pending(t)
        &&& self.devices(s) == self.devices(t)
    }

    /// The same, but for the ids and payloads of the waiting messages.
    pub open spec fn similar(self, s: Tables, t: Tables) -> bool {
        &&& self.counters(s) == self.counters(t)
        &&& self.sketches(s) == self.sketches(t)
        &&& self.devices(s) == self.devices(t)
    }
}

/// A waiting message without its id and payload.
pub open spec fn sketch() -> spec_fn(pending_message::Row) -> pending_message::Row {
    |row: pending_message::Row|
        pending_message::Row { message_id: Seq::empty(), payload: Seq::empty(), ..row }
}

impl DeviceKey {
    /// The channel that the device receives from.
    pub open spec fn channel(self) -> Channel {
        Channel { relay_id: self.relay_id, endpoint: self.endpoint }
    }
}

impl Sending {
    /// The channel that the message goes to.
    pub open spec fn channel(self) -> Channel {
        Channel { relay_id: self.relay_id, endpoint: self.source.other() }
    }
}

impl Operation {
    /// The channel of an operation. A cleanup has none.
    pub open spec fn channel(self) -> Option<Channel> {
        match self {
            Operation::Store { message, .. } => Some(message.channel()),
            Operation::Register { device, .. } => Some(device.channel()),
            Operation::Acknowledge { device, .. } => Some(device.channel()),
            Operation::AcknowledgeHead { device, .. } => Some(device.channel()),
            Operation::Cleanup { .. } => None,
        }
    }
}

/// What an operation reads is the same in both tables: its channel without the
/// contents of the waiting messages and, for a message, the receipt of its id
/// and the waiting message that the receipt is for.
pub open spec fn alike(s: Tables, t: Tables, op: Operation) -> bool {
    &&& op.channel() matches Some(channel) ==> channel.similar(s, t)
    &&& op matches Operation::Store { message, .. } ==> {
        &&& s.receipt_of(message) == t.receipt_of(message)
        &&& t.receipt_of(message) matches Some(receipt) ==> s.waiting(
            message.relay_id,
            message.destination(),
            receipt.sequence,
        ) == t.waiting(message.relay_id, message.destination(), receipt.sequence)
    }
}

/// Rows that look alike to `f` are selected alike by predicates that cannot
/// tell them apart.
proof fn lemma_select_alike<A, B>(
    s: Seq<A>,
    t: Seq<A>,
    f: spec_fn(A) -> B,
    p: spec_fn(A) -> bool,
    q: spec_fn(A) -> bool,
)
    requires
        s.map_values(f) == t.map_values(f),
        forall|a: A, b: A| f(a) == f(b) ==> #[trigger] p(a) == #[trigger] q(b),
    ensures
        s.filter(p).map_values(f) == t.filter(q).map_values(f),
        present(s, p) == present(t, q),
    decreases s.len(),
{
    reveal(Seq::filter);
    assert(s.len() == s.map_values(f).len() && t.len() == t.map_values(f).len());
    assert(s.len() == t.len());
    assert forall|i: int| 0 <= i < s.len() implies f(#[trigger] s[i]) == f(t[i]) by {
        let u = s.map_values(f);
        let v = t.map_values(f);
        assert(u[i] == f(s[i]));
        assert(v[i] == f(t[i]));
        assert(u[i] == v[i]);
    }
    if s.len() > 0 {
        let a = s.drop_last();
        let b = t.drop_last();
        assert(a.map_values(f) =~= b.map_values(f)) by {
            assert forall|i: int| 0 <= i < a.len() implies f(#[trigger] a[i]) == f(b[i]) by {
                assert(a[i] == s[i] && b[i] == t[i]);
            }
        }
        lemma_select_alike(a, b, f, p, q);
        let n = s.len() - 1;
        assert(f(s[n]) == f(t[n]));
        assert(p(s.last()) == q(t.last()));
        if p(s.last()) {
            assert(a.filter(p).push(s.last()).map_values(f) =~= a.filter(p).map_values(f).push(
                f(s.last()),
            ));
            assert(b.filter(q).push(t.last()).map_values(f) =~= b.filter(q).map_values(f).push(
                f(t.last()),
            ));
        }
        if present(s, p) {
            let i = choose|i: int| 0 <= i < s.len() && p(#[trigger] s[i]);
            assert(f(s[i]) == f(t[i]));
            assert(q(t[i]));
        }
        if present(t, q) {
            let i = choose|i: int| 0 <= i < t.len() && q(#[trigger] t[i]);
            assert(f(s[i]) == f(t[i]));
            assert(p(s[i]));
        }
    } else {
        assert(t =~= s);
        assert(s.filter(p) =~= t.filter(q));
    }
}

/// Messages that differ in their contents only take the same room.
proof fn lemma_bytes_alike(s: Seq<pending_message::Row>, t: Seq<pending_message::Row>)
    requires
        s.map_values(sketch()) == t.map_values(sketch()),
    ensures
        s.len() == t.len(),
        total_bytes(s) == total_bytes(t),
    decreases s.len(),
{
    assert(s.len() == s.map_values(sketch()).len() && t.len() == t.map_values(sketch()).len());
    if s.len() > 0 {
        let n = s.len() - 1;
        assert(s.map_values(sketch())[n] == t.map_values(sketch())[n]);
        assert(sketch()(s[n]).payload_bytes == s[n].payload_bytes);
        assert(sketch()(t[n]).payload_bytes == t[n].payload_bytes);
        assert(s.drop_last().map_values(sketch()) =~= s.map_values(sketch()).drop_last());
        assert(t.drop_last().map_values(sketch()) =~= t.map_values(sketch()).drop_last());
        lemma_bytes_alike(s.drop_last(), t.drop_last());
    }
}

/// What is read of a channel without the contents of its messages.
proof fn lemma_read_similar(s: Tables, t: Tables, channel: Channel)
    requires
        channel.similar(s, t),
    ensures
        s.head(channel.relay_id, channel.endpoint.name()) == t.head(
            channel.relay_id,
            channel.endpoint.name(),
        ),
        forall|sequence: i64|
            (#[trigger] s.waiting(channel.relay_id, channel.endpoint.name(), sequence) is Some)
                == (t.waiting(channel.relay_id, channel.endpoint.name(), sequence) is Some),
        channel.pending(s).len() == channel.pending(t).len(),
        total_bytes(channel.pending(s)) == total_bytes(channel.pending(t)),
        forall|key: DeviceKey| #[trigger]
            key.channel() == channel ==> key.row(s) == key.row(t) && key.cursor(s) == key.cursor(t),
{
    let r = channel.relay_id;
    let e = channel.endpoint.name();
    lemma_find_filter(s.counters, counter::keyed(r, e), counter::keyed(r, e));
    lemma_find_filter(t.counters, counter::keyed(r, e), counter::keyed(r, e));
    lemma_bytes_alike(channel.pending(s), channel.pending(t));
    assert forall|sequence: i64|
        (#[trigger] s.waiting(r, e, sequence) is Some) == (t.waiting(r, e, sequence) is Some) by {
        let p = pending_message::keyed(r, e, sequence);
        lemma_find_filter(s.pending, pending_message::in_channel(r, e), p);
        lemma_find_filter(t.pending, pending_message::in_channel(r, e), p);
        assert forall|a: pending_message::Row, b: pending_message::Row|
            sketch()(a) == sketch()(b) implies #[trigger] p(a) == #[trigger] p(b) by {
            assert(sketch()(a).sequence == sketch()(b).sequence);
            assert(sketch()(a).relay_id == sketch()(b).relay_id);
            assert(sketch()(a).destination == sketch()(b).destination);
        }
        lemma_select_alike(channel.pending(s), channel.pending(t), sketch(), p, p);
    }
    assert forall|key: DeviceKey| #[trigger] key.channel() == channel implies key.row(s) == key.row(
        t,
    ) && key.cursor(s) == key.cursor(t) by {
        lemma_find_filter(s.devices, on_endpoint(r, e), key.keyed());
        lemma_find_filter(t.devices, on_endpoint(r, e), key.keyed());
    }
}

/// Writing a selected row and selecting commute.
proof fn lemma_put_filter<A>(s: Seq<A>, p: spec_fn(A) -> bool, row: A, q: spec_fn(A) -> bool)
    requires
        forall|a: A| #[trigger] p(a) ==> q(a),
        q(row),
    ensures
        put(s, p, row).filter(q) == put(s.filter(q), p, row),
    decreases s.len(),
{
    reveal(Seq::filter);
    lemma_find_filter(s, q, p);
    if !present(s, p) {
        s.lemma_filter_push(row, q);
    } else {
        lemma_first_exists(s, p);
        let i = choose|i: int| first_at(s, p, i);
        lemma_first(s, p, i);
        let front = s.drop_last();
        let last = s.last();
        assert(s =~= front.push(last));
        let selected = front.filter(q);
        lemma_find_filter(front, q, p);
        if i == s.len() - 1 {
            assert(!present(front, p)) by {
                if present(front, p) {
                    let k = choose|k: int| 0 <= k < front.len() && p(#[trigger] front[k]);
                    assert(front[k] == s[k]);
                }
            }
            assert(s.update(i, row) =~= front.push(row));
            front.lemma_filter_push(row, q);
            front.lemma_filter_push(last, q);
            let end = selected.len() as int;
            assert(first_at(selected.push(last), p, end)) by {
                assert forall|j: int| 0 <= j < end implies !p(#[trigger] selected.push(last)[j]) by {
                    assert(selected.push(last)[j] == selected[j]);
                }
            }
            lemma_first(selected.push(last), p, end);
            assert(selected.push(last).update(end, row) =~= selected.push(row));
        } else {
            assert(front[i] == s[i]);
            assert(first_at(front, p, i)) by {
                assert forall|j: int| 0 <= j < i implies !p(#[trigger] front[j]) by {
                    assert(front[j] == s[j]);
                }
            }
            lemma_first(front, p, i);
            lemma_put_filter(front, p, row, q);
            assert(s.update(i, row) =~= front.update(i, row).push(last));
            front.update(i, row).lemma_filter_push(last, q);
            front.lemma_filter_push(last, q);
            if q(last) {
                lemma_first_exists(selected, p);
                let k = choose|k: int| first_at(selected, p, k);
                lemma_first(selected, p, k);
                assert(first_at(selected.push(last), p, k)) by {
                    assert forall|j: int| 0 <= j < k implies !p(#[trigger] selected.push(last)[j]) by {
                        assert(selected.push(last)[j] == selected[j]);
                    }
                }
                lemma_first(selected.push(last), p, k);
                assert(selected.push(last).update(k, row) =~= selected.update(k, row).push(last));
            }
        }
    }
}

/// What a channel reads of its rows.
pub proof fn channels_read_their_own_rows(s: Tables, t: Tables, channel: Channel)
    requires
        channel.same(s, t),
    ensures
        s.head(channel.relay_id, channel.endpoint.name()) == t.head(
            channel.relay_id,
            channel.endpoint.name(),
        ),
        forall|sequence: i64|
            #[trigger] s.waiting(channel.relay_id, channel.endpoint.name(), sequence) == t.waiting(
                channel.relay_id,
                channel.endpoint.name(),
                sequence,
            ),
        forall|key: DeviceKey| #[trigger]
            key.channel() == channel ==> key.row(s) == key.row(t) && key.cursor(s) == key.cursor(t)
                && backlog(s, key) == backlog(t, key),
{
    let r = channel.relay_id;
    let e = channel.endpoint.name();
    lemma_find_filter(s.counters, counter::keyed(r, e), counter::keyed(r, e));
    lemma_find_filter(t.counters, counter::keyed(r, e), counter::keyed(r, e));
    assert forall|sequence: i64| #[trigger] s.waiting(r, e, sequence) == t.waiting(
        r,
        e,
        sequence,
    ) by {
        let p = pending_message::keyed(r, e, sequence);
        lemma_find_filter(s.pending, pending_message::in_channel(r, e), p);
        lemma_find_filter(t.pending, pending_message::in_channel(r, e), p);
    }
    assert forall|key: DeviceKey| #[trigger] key.channel() == channel implies key.row(s) == key.row(
        t,
    ) && key.cursor(s) == key.cursor(t) && backlog(s, key) == backlog(t, key) by {
        lemma_find_filter(s.devices, on_endpoint(r, e), key.keyed());
        lemma_find_filter(t.devices, on_endpoint(r, e), key.keyed());
        lemma_select_channel(s.pending, channel, unacknowledged(s, key));
        lemma_select_channel(t.pending, channel, unacknowledged(t, key));
        lemma_filter_congruent(
            channel.pending(t),
            unacknowledged(s, key),
            unacknowledged(t, key),
        );
    }
}

/// Selecting rows of a channel is selecting them among the rows of the channel.
proof fn lemma_select_channel(
    pending: Seq<pending_message::Row>,
    channel: Channel,
    p: spec_fn(pending_message::Row) -> bool,
)
    requires
        forall|row: pending_message::Row| #[trigger]
            p(row) ==> pending_message::in_channel(channel.relay_id, channel.endpoint.name())(row),
    ensures
        pending.filter(p) == pending.filter(
            pending_message::in_channel(channel.relay_id, channel.endpoint.name()),
        ).filter(p),
{
    let c = pending_message::in_channel(channel.relay_id, channel.endpoint.name());
    lemma_filter_filter(pending, c, p);
    lemma_filter_congruent(pending, p, |row: pending_message::Row| c(row) && p(row));
}

/// Whether all devices passed a sequence is read off the devices of the
/// endpoint.
proof fn lemma_passed(s: Tables, t: Tables, key: DeviceKey, cutoff: i64, upto: i64, sequence: i64)
    requires
        key.channel().devices(s) == key.channel().devices(t),
    ensures
        passed_by_all(s, key, cutoff, upto, sequence) == passed_by_all(
            t,
            key,
            cutoff,
            upto,
            sequence,
        ),
{
    let c = on_endpoint(key.relay_id, key.endpoint.name());
    let seen = device::active(key.relay_id, key.endpoint.name(), cutoff);
    let behind = |row: device::Row| seen(row) && row.last_acked_sequence < sequence;
    lemma_find_filter(s.devices, c, seen);
    lemma_find_filter(t.devices, c, seen);
    lemma_find_filter(s.devices, c, behind);
    lemma_find_filter(t.devices, c, behind);
    assert forall|u: Tables| #![trigger present(u.devices, behind)]
        present(u.devices, behind) == !(forall|i: int|
            0 <= i < u.devices.len() && seen(#[trigger] u.devices[i]) ==> sequence
                <= u.devices[i].last_acked_sequence) by {
        if present(u.devices, behind) {
            let i = choose|i: int| 0 <= i < u.devices.len() && behind(#[trigger] u.devices[i]);
            assert(seen(u.devices[i]));
        }
        if !(forall|i: int|
            0 <= i < u.devices.len() && seen(#[trigger] u.devices[i]) ==> sequence
                <= u.devices[i].last_acked_sequence) {
            let i = choose|i: int|
                0 <= i < u.devices.len() && seen(#[trigger] u.devices[i]) && sequence
                    > u.devices[i].last_acked_sequence;
            assert(behind(u.devices[i]));
        }
    }
}

/// A purge drops the same keys from tables that agree on its channel, and
/// leaves them in agreement.
proof fn lemma_prune_alike(s: Tables, t: Tables, key: DeviceKey, cutoff: i64, upto: i64)
    requires
        key.channel().similar(s, t),
    ensures
        dropped_pending(s.pending.filter(purged(s, key, cutoff, upto))) == dropped_pending(
            t.pending.filter(purged(t, key, cutoff, upto)),
        ),
        key.channel().similar(
            after_prune(s, key, cutoff, upto),
            after_prune(t, key, cutoff, upto),
        ),
{
    let channel = key.channel();
    let p = purged(s, key, cutoff, upto);
    let q = purged(t, key, cutoff, upto);
    assert forall|a: pending_message::Row, b: pending_message::Row|
        sketch()(a) == sketch()(b) implies #[trigger] p(a) == #[trigger] q(b) by {
        let x = sketch()(a);
        let y = sketch()(b);
        assert(x.sequence == y.sequence && x.relay_id == y.relay_id);
        assert(x.destination == y.destination && x.target_device_id == y.target_device_id);
        lemma_passed(s, t, key, cutoff, upto, a.sequence);
    }
    lemma_select_channel(s.pending, channel, p);
    lemma_select_channel(t.pending, channel, q);
    lemma_select_alike(channel.pending(s), channel.pending(t), sketch(), p, q);
    lemma_keys_alike(s.pending.filter(p), t.pending.filter(q));
    let c = pending_message::in_channel(channel.relay_id, channel.endpoint.name());
    let not_p = |row: pending_message::Row| !p(row);
    let not_q = |row: pending_message::Row| !q(row);
    lemma_filter_swap(s.pending, not_p, c);
    lemma_filter_swap(t.pending, not_q, c);
    assert forall|a: pending_message::Row, b: pending_message::Row|
        sketch()(a) == sketch()(b) implies #[trigger] not_p(a) == #[trigger] not_q(b) by {
        assert(p(a) == q(b));
    }
    lemma_select_alike(channel.pending(s), channel.pending(t), sketch(), not_p, not_q);
}

/// Messages that differ in their contents only have the same keys.
proof fn lemma_keys_alike(s: Seq<pending_message::Row>, t: Seq<pending_message::Row>)
    requires
        s.map_values(sketch()) == t.map_values(sketch()),
    ensures
        dropped_pending(s) == dropped_pending(t),
{
    assert(s.len() == s.map_values(sketch()).len() && t.len() == t.map_values(sketch()).len());
    assert forall|i: int| 0 <= i < s.len() implies #[trigger] dropped_pending(s)[i]
        == dropped_pending(t)[i] by {
        assert(s.map_values(sketch())[i] == t.map_values(sketch())[i]);
        assert(pending_message::key_of(sketch()(s[i])) == pending_message::key_of(s[i]));
        assert(pending_message::key_of(sketch()(t[i])) == pending_message::key_of(t[i]));
    }
    assert(dropped_pending(s) =~= dropped_pending(t));
}

/// Two selections commute.
proof fn lemma_filter_swap<A>(s: Seq<A>, p: spec_fn(A) -> bool, q: spec_fn(A) -> bool)
    ensures
        s.filter(p).filter(q) == s.filter(q).filter(p),
{
    lemma_filter_filter(s, p, q);
    lemma_filter_filter(s, q, p);
    lemma_filter_congruent(s, |a: A| p(a) && q(a), |a: A| q(a) && p(a));
}

/// Writing the row of a device keeps tables in agreement.
proof fn lemma_device_alike(s: Tables, t: Tables, key: DeviceKey, row: device::Row)
    requires
        key.channel().similar(s, t),
        key.keyed()(row),
    ensures
        key.channel().similar(with_device(s, key, row), with_device(t, key, row)),
{
    let c = on_endpoint(key.relay_id, key.endpoint.name());
    lemma_put_filter(s.devices, key.keyed(), row, c);
    lemma_put_filter(t.devices, key.keyed(), row, c);
}

/// An operation reads its own channel only, and no contents of messages there
/// but those of the one it retries: on tables that agree on that, a message has
/// the same outcome, the operation makes the same changes, and the tables agree
/// afterwards. Whoever keeps the rows therefore needs to load no more.
pub proof fn operations_read_one_channel(limits: Limits, s: Tables, t: Tables, op: Operation)
    requires
        op.channel() is Some,
        alike(s, t, op),
    ensures
        changes(limits, s, op) == changes(limits, t, op),
        op matches Operation::Store { message, now } ==> {
            &&& store_fault(limits, s, message) == store_fault(limits, t, message)
            &&& store_delivery(s, message, now) == store_delivery(t, message, now)
        },
        alike(next(limits, s, op), next(limits, t, op), op),
{
    let channel = op.channel()->0;
    lemma_read_similar(s, t, channel);
    match op {
        Operation::Store { message, now } => {
            assert(message.channel() == channel);
            assert(channel.pending(s) == s.queue(message.relay_id, message.destination()));
            assert(channel.pending(t) == t.queue(message.relay_id, message.destination()));
            if store_fault(limits, s, message) is None && s.receipt_of(message) is None {
                let d = message.destination();
                let p = counter::keyed(message.relay_id, d);
                lemma_put_filter(s.counters, p, new_counter(s, message), p);
                lemma_put_filter(t.counters, p, new_counter(t, message), p);
                let c = pending_message::in_channel(message.relay_id, d);
                let row = new_pending(t, message, now);
                s.pending.lemma_filter_push(row, c);
                t.pending.lemma_filter_push(row, c);
                assert(s.pending.push(row).filter(c).map_values(sketch()) =~= channel.sketches(
                    s,
                ).push(sketch()(row)));
                assert(t.pending.push(row).filter(c).map_values(sketch()) =~= channel.sketches(
                    t,
                ).push(sketch()(row)));
                let at = pending_message::keyed(message.relay_id, d, row.sequence);
                lemma_push_found(s.pending, row, at);
                lemma_push_found(t.pending, row, at);
                let k = receipt::keyed(
                    message.relay_id,
                    message.source.name(),
                    message.message_id,
                );
                lemma_push_found(s.receipts, new_receipt(s, message, now), k);
                lemma_push_found(t.receipts, new_receipt(t, message, now), k);
            }
        },
        Operation::Register { device, now } => {
            assert(device.channel() == channel);
            lemma_device_alike(s, t, device, device.row_with(device.cursor(t), now));
        },
        Operation::Acknowledge { device, sequence, now } => {
            assert(device.channel() == channel);
            let upto = clamped(sequence);
            let row = acked_row(t, device, upto, now);
            if row is Some {
                lemma_device_alike(s, t, device, row->0);
            }
            lemma_prune_alike(
                with_cursor(s, device, row),
                with_cursor(t, device, row),
                device,
                earlier(now, limits.device_retention_secs),
                upto,
            );
        },
        Operation::AcknowledgeHead { device, now } => {
            assert(device.channel() == channel);
            let head = t.head(device.relay_id, device.endpoint.name());
            let row = device.row_with(head, now);
            lemma_device_alike(s, t, device, row);
            lemma_prune_alike(
                with_device(s, device, row),
                with_device(t, device, row),
                device,
                earlier(now, limits.device_retention_secs),
                head,
            );
        },
        Operation::Cleanup { .. } => {},
    }
}

/// A purge leaves the rows of other channels alone.
proof fn lemma_prune_apart(t: Tables, key: DeviceKey, cutoff: i64, upto: i64, other: Channel)
    requires
        key.channel() != other,
    ensures
        other.same(after_prune(t, key, cutoff, upto), t),
{
    lemma_names(key.endpoint, other.endpoint);
    let p = purged(t, key, cutoff, upto);
    let keep = |row: pending_message::Row| !p(row);
    let c = pending_message::in_channel(other.relay_id, other.endpoint.name());
    lemma_filter_filter(t.pending, keep, c);
    lemma_filter_congruent(t.pending, |row: pending_message::Row| keep(row) && c(row), c);
}

/// Writing the row of a device leaves the rows of other channels alone.
proof fn lemma_device_apart(t: Tables, key: DeviceKey, row: device::Row, other: Channel)
    requires
        key.channel() != other,
        key.keyed()(row),
    ensures
        other.same(with_device(t, key, row), t),
{
    lemma_names(key.endpoint, other.endpoint);
    lemma_put_apart(
        t.devices,
        key.keyed(),
        row,
        on_endpoint(other.relay_id, other.endpoint.name()),
    );
}

/// Pairing ids and directions are isolated: an operation on one channel leaves
/// the counter, the waiting messages and the devices of every other channel as
/// they are, and the receipts of the messages that go there.
pub proof fn operations_touch_one_channel(
    limits: Limits,
    t: Tables,
    op: Operation,
    other: Channel,
)
    requires
        op.channel() is Some,
        op.channel() != Some(other),
    ensures
        other.same(next(limits, t, op), t),
        forall|m: Sending| #[trigger]
            m.channel() == other ==> next(limits, t, op).receipt_of(m) == t.receipt_of(m),
{
    match op {
        Operation::Store { message, now } => {
            if store_fault(limits, t, message) is None && t.receipt_of(message) is None {
                lemma_names(message.source.other(), other.endpoint);
                let d = message.destination();
                let p = counter::keyed(message.relay_id, d);
                lemma_put_apart(
                    t.counters,
                    p,
                    new_counter(t, message),
                    counter::keyed(other.relay_id, other.endpoint.name()),
                );
                lemma_push_apart(
                    t.pending,
                    new_pending(t, message, now),
                    pending_message::in_channel(other.relay_id, other.endpoint.name()),
                );
                assert forall|m: Sending| #[trigger] m.channel() == other implies next(
                    limits,
                    t,
                    op,
                ).receipt_of(m) == t.receipt_of(m) by {
                    lemma_names(message.source, m.source);
                    lemma_push_apart(
                        t.receipts,
                        new_receipt(t, message, now),
                        receipt::keyed(m.relay_id, m.source.name(), m.message_id),
                    );
                }
            }
        },
        Operation::Register { device, now } => {
            lemma_device_apart(t, device, device.row_with(device.cursor(t), now), other);
        },
        Operation::Acknowledge { device, sequence, now } => {
            let upto = clamped(sequence);
            let row = acked_row(t, device, upto, now);
            let moved = with_cursor(t, device, row);
            if row is Some {
                lemma_device_apart(t, device, row->0, other);
            }
            lemma_prune_apart(
                moved,
                device,
                earlier(now, limits.device_retention_secs),
                upto,
                other,
            );
        },
        Operation::AcknowledgeHead { device, now } => {
            let head = t.head(device.relay_id, device.endpoint.name());
            let row = device.row_with(head, now);
            lemma_device_apart(t, device, row, other);
            lemma_prune_apart(
                with_device(t, device, row),
                device,
                earlier(now, limits.device_retention_secs),
                head,
                other,
            );
        },
        Operation::Cleanup { .. } => {},
    }
}

/// No operation on one channel changes what a device on another channel reads.
pub proof fn other_channels_read_the_same(
    limits: Limits,
    t: Tables,
    op: Operation,
    key: DeviceKey,
)
    requires
        op.channel() is Some,
        op.channel() != Some(key.channel()),
    ensures
        backlog(next(limits, t, op), key) == backlog(t, key),
        key.cursor(next(limits, t, op)) == key.cursor(t),
{
    operations_touch_one_channel(limits, t, op, key.channel());
    channels_read_their_own_rows(next(limits, t, op), t, key.channel());
}

/// A cleanup reads the receipts, the messages that are too old and the devices
/// that were away for too long, no other rows, and no contents of messages.
pub proof fn cleanups_read_old_rows(limits: Limits, s: Tables, t: Tables, now: i64)
    requires
        s.receipts == t.receipts,
        s.pending.filter(expired_pending(limits, now)).map_values(sketch()) == t.pending.filter(
            expired_pending(limits, now),
        ).map_values(sketch()),
        s.devices.filter(expired_device(limits, now)) == t.devices.filter(
            expired_device(limits, now),
        ),
    ensures
        changes(limits, s, Operation::Cleanup { now }) == changes(
            limits,
            t,
            Operation::Cleanup { now },
        ),
{
    let a = s.pending.filter(expired_pending(limits, now));
    let b = t.pending.filter(expired_pending(limits, now));
    lemma_keys_alike(a, b);
    let p = removed_receipt(limits, s, now);
    let q = removed_receipt(limits, t, now);
    assert forall|i: int| 0 <= i < t.receipts.len() implies p(#[trigger] t.receipts[i]) == q(
        t.receipts[i],
    ) by {
        let r = t.receipts[i];
        let same = pending_message::keyed(r.relay_id, r.destination, r.sequence);
        assert forall|x: pending_message::Row, y: pending_message::Row|
            sketch()(x) == sketch()(y) implies #[trigger] same(x) == #[trigger] same(y) by {
            assert(sketch()(x).sequence == sketch()(y).sequence);
            assert(sketch()(x).relay_id == sketch()(y).relay_id);
            assert(sketch()(x).destination == sketch()(y).destination);
        }
        lemma_select_alike(a, b, sketch(), same, same);
    }
    lemma_filter_congruent(t.receipts, p, q);
}

} // verus!
