//! What a device reads when its backlog is replayed.

use crate::config::Limits;
use crate::consistency::{consistent, given_out, lemma_head_nonnegative, pending_keys};
use crate::delivery::{backlog, stored_messages_join_the_backlog};
use crate::entity::pending_message;
use crate::table::{lemma_filter_distinct, lemma_filter_member};
use crate::tables::{
    after_store, delivery, hands_out, in_order, new_pending, store_fault, unacknowledged, Delivery,
    DeviceKey, Sending, Tables,
};
use vstd::prelude::*;

verus! {

/// The deliveries rise strictly in their sequences.
pub open spec fn rising(deliveries: Seq<Delivery>) -> bool {
    forall|i: int, j: int|
        0 <= i < j < deliveries.len() ==> (#[trigger] deliveries[i]).sequence < (
        #[trigger] deliveries[j]).sequence
}

/// The backlog of a device as deliveries, in table order.
pub open spec fn outstanding(t: Tables, key: DeviceKey) -> Seq<Delivery> {
    backlog(t, key).map_values(|row: pending_message::Row| delivery(row))
}

/// The sequences of the backlog differ and lie within those given out.
proof fn lemma_outstanding(t: Tables, key: DeviceKey)
    requires
        consistent(t),
    ensures
        forall|i: int, j: int|
            0 <= i < outstanding(t, key).len() && 0 <= j < outstanding(t, key).len() && i != j
                ==> (#[trigger] outstanding(t, key)[i]).sequence != (#[trigger] outstanding(
                t,
                key,
            )[j]).sequence,
        forall|i: int|
            0 <= i < outstanding(t, key).len() ==> 1 <= (#[trigger] outstanding(t, key)[i]).sequence
                <= t.head(key.relay_id, key.endpoint.name()),
{
    let rows = backlog(t, key);
    let open = unacknowledged(t, key);
    lemma_filter_distinct(t.pending, open, pending_keys());
    assert forall|i: int| 0 <= i < rows.len() implies {
        &&& open(#[trigger] rows[i])
        &&& 1 <= rows[i].sequence <= t.head(key.relay_id, key.endpoint.name())
    } by {
        assert(rows.contains(rows[i]));
        lemma_filter_member(t.pending, open, rows[i]);
        let k = t.pending.index_of(rows[i]);
        assert(given_out(
            t,
            t.pending[k].relay_id,
            t.pending[k].destination,
            t.pending[k].sequence,
        ));
    }
    assert forall|i: int, j: int| 0 <= i < j < rows.len() implies (#[trigger] rows[i]).sequence != (
    #[trigger] rows[j]).sequence by {
        assert(!pending_keys()(rows[i])(rows[j]));
    }
    let out = outstanding(t, key);
    assert forall|i: int, j: int| 0 <= i < out.len() && 0 <= j < out.len() && i != j implies (
    #[trigger] out[i]).sequence != (#[trigger] out[j]).sequence by {
        if i < j {
            assert(rows[i].sequence != rows[j].sequence);
        } else {
            assert(rows[j].sequence != rows[i].sequence);
        }
    }
}

/// Arrangements of the same deliveries hold the same ones, and as many.
proof fn lemma_same_members(x: Seq<Delivery>, y: Seq<Delivery>)
    requires
        x.to_multiset() == y.to_multiset(),
    ensures
        x.len() == y.len(),
        forall|d: Delivery| #[trigger] x.contains(d) ==> y.contains(d),
{
    x.to_multiset_ensures();
    y.to_multiset_ensures();
    assert forall|d: Delivery| #[trigger] x.contains(d) implies y.contains(d) by {
        assert(x.to_multiset().count(d) > 0);
    }
}

/// An ordered arrangement of deliveries with different sequences rises.
proof fn lemma_rising(list: Seq<Delivery>, out: Seq<Delivery>)
    requires
        in_order(list),
        list.to_multiset() == out.to_multiset(),
        forall|i: int, j: int|
            0 <= i < out.len() && 0 <= j < out.len() && i != j ==> (#[trigger] out[i]).sequence != (
            #[trigger] out[j]).sequence,
    ensures
        rising(list),
{
    broadcast use vstd::seq_lib::group_to_multiset_ensures;

    assert(out.no_duplicates());
    out.lemma_multiset_has_no_duplicates();
    assert forall|d: Delivery| list.to_multiset().contains(d) implies list.to_multiset().count(d)
        == 1 by {
        assert(out.to_multiset().contains(d));
    }
    list.lemma_multiset_has_no_duplicates_conv();
    lemma_same_members(list, out);
    assert forall|i: int, j: int| 0 <= i < j < list.len() implies (#[trigger] list[i]).sequence < (
    #[trigger] list[j]).sequence by {
        assert(list.contains(list[i]) && list.contains(list[j]));
        assert(out.contains(list[i]) && out.contains(list[j]));
        let a = out.index_of(list[i]);
        let b = out.index_of(list[j]);
        if list[i].sequence == list[j].sequence {
            assert(a != b);
            assert(out[a].sequence != out[b].sequence);
        }
    }
}

/// Two rising arrangements of the same deliveries are the same.
proof fn lemma_one_arrangement(x: Seq<Delivery>, y: Seq<Delivery>)
    requires
        rising(x),
        rising(y),
        x.to_multiset() == y.to_multiset(),
    ensures
        x == y,
    decreases x.len(),
{
    broadcast use vstd::seq_lib::group_to_multiset_ensures;

    lemma_same_members(x, y);
    lemma_same_members(y, x);
    if x.len() > 0 {
        assert(x.contains(x.last()) && y.contains(y.last()));
        assert(y.contains(x.last()) && x.contains(y.last()));
        let a = y.index_of(x.last());
        let b = x.index_of(y.last());
        assert(x.last() == y.last()) by {
            if a != y.len() - 1 && b != x.len() - 1 {
                assert(y[a].sequence < y[y.len() - 1].sequence);
                assert(x[b].sequence < x[x.len() - 1].sequence);
            }
        }
        let u = x.drop_last();
        let v = y.drop_last();
        assert(u.push(x.last()) =~= x);
        assert(v.push(y.last()) =~= y);
        assert(u.to_multiset().insert(x.last()) == x.to_multiset());
        assert(v.to_multiset().insert(y.last()) == y.to_multiset());
        assert(u.to_multiset() =~= x.to_multiset().remove(x.last()));
        assert(v.to_multiset() =~= y.to_multiset().remove(y.last()));
        lemma_one_arrangement(u, v);
    }
}

/// A replay rises strictly: no two of its messages share a sequence, and none
/// comes before an earlier one.
pub proof fn replays_rise(t: Tables, key: DeviceKey, replay: Seq<Delivery>)
    requires
        consistent(t),
        hands_out(replay, t.pending, unacknowledged(t, key)),
    ensures
        rising(replay),
{
    lemma_outstanding(t, key);
    lemma_rising(replay, outstanding(t, key));
}

/// There is one replay of a backlog: reading twice gives the same list.
pub proof fn replays_are_determined(
    t: Tables,
    key: DeviceKey,
    first: Seq<Delivery>,
    second: Seq<Delivery>,
)
    requires
        consistent(t),
        hands_out(first, t.pending, unacknowledged(t, key)),
        hands_out(second, t.pending, unacknowledged(t, key)),
    ensures
        first == second,
{
    replays_rise(t, key, first);
    replays_rise(t, key, second);
    lemma_one_arrangement(first, second);
}

/// What a device reads after a message for it was stored is what it would have
/// read before, followed by that message.
pub proof fn replays_end_with_the_new_message(
    limits: Limits,
    t: Tables,
    m: Sending,
    now: i64,
    key: DeviceKey,
    before: Seq<Delivery>,
    after: Seq<Delivery>,
)
    requires
        consistent(t),
        store_fault(limits, t, m) is None,
        t.receipt_of(m) is None,
        key.relay_id == m.relay_id,
        key.endpoint == m.source.other(),
        key.cursor(t) <= t.head(m.relay_id, m.destination()),
        pending_message::meant_for(new_pending(t, m, now), key.device_id),
        hands_out(before, t.pending, unacknowledged(t, key)),
        hands_out(
            after,
            after_store(t, m, now).pending,
            unacknowledged(after_store(t, m, now), key),
        ),
    ensures
        after == before.push(delivery(new_pending(t, m, now))),
{
    broadcast use vstd::seq_lib::group_to_multiset_ensures;

    let t1 = after_store(t, m, now);
    let d = delivery(new_pending(t, m, now));
    let out = outstanding(t, key);
    stored_messages_join_the_backlog(limits, t, m, now, key);
    assert(outstanding(t1, key) =~= out.push(d));
    lemma_head_nonnegative(t, m.relay_id, m.destination());
    lemma_outstanding(t, key);
    replays_rise(t, key, before);
    lemma_same_members(before, out);
    assert forall|i: int| 0 <= i < before.len() implies (#[trigger] before[i]).sequence
        < d.sequence by {
        assert(before.contains(before[i]));
        assert(out.contains(before[i]));
        let k = out.index_of(before[i]);
        assert(out[k].sequence <= t.head(key.relay_id, key.endpoint.name()));
    }
    assert(rising(before.push(d)));
    let list = out.push(d);
    assert forall|i: int, j: int| 0 <= i < list.len() && 0 <= j < list.len() && i != j implies (
    #[trigger] list[i]).sequence != (#[trigger] list[j]).sequence by {
        if i < out.len() {
            assert(list[i] == out[i]);
        }
        if j < out.len() {
            assert(list[j] == out[j]);
        }
    }
    lemma_rising(after, list);
    assert(before.push(d).to_multiset() =~= after.to_multiset());
    lemma_one_arrangement(after, before.push(d));
}

} // verus!
