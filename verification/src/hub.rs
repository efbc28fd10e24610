//! The live connections of the relay, and which of them a frame goes to.
//!
//! A connection is named by its token. The hub does not hold the sockets: it
//! says which frames go to which token, and whoever holds the sockets sends
//! them.

use crate::database::{device_key, message_frame, StoredMessage};
use crate::frame::{text_of, Endpoint, ServerFrame, ServerFrameView};
use crate::table::{
    distinct, find, first_at, lemma_filter_distinct, lemma_filter_member, lemma_find_filter,
    lemma_first, lemma_found, lemma_put_apart, lemma_put_distinct, lemma_put_found, lemma_put_rows,
    partition, position, present, put, rows, without,
};
use crate::tables::{Delivery, DeviceKey};
use vstd::prelude::*;

verus! {

/// A connection that is being served.
#[derive(Debug, PartialEq)]
pub struct LiveConnection {
    pub relay_id: String,
    pub endpoint: Endpoint,
    pub device_id: String,
    pub token: u64,
}

/// The value of a connection.
pub struct Live {
    pub device: DeviceKey,
    pub token: u64,
}

impl View for LiveConnection {
    type V = Live;

    open spec fn view(&self) -> Live {
        Live {
            device: DeviceKey {
                relay_id: self.relay_id@,
                endpoint: self.endpoint,
                device_id: self.device_id@,
            },
            token: self.token,
        }
    }
}

/// A frame on its way to a connection.
#[derive(Debug, PartialEq)]
pub struct Outgoing {
    pub token: u64,
    pub frame: ServerFrame,
}

/// The value of a frame on its way.
pub struct OutgoingView {
    pub token: u64,
    pub frame: ServerFrameView,
}

impl View for Outgoing {
    type V = OutgoingView;

    open spec fn view(&self) -> OutgoingView {
        OutgoingView { token: self.token, frame: self.frame@ }
    }
}

/// All live connections.
#[derive(Debug)]
pub struct Hub {
    connections: Vec<LiveConnection>,
    last_token: u64,
}

/// The value of a hub: its connections, and the last token it gave out.
#[verifier::ext_equal]
pub struct HubView {
    pub live: Seq<Live>,
    pub last_token: u64,
}

impl View for Hub {
    type V = HubView;

    closed spec fn view(&self) -> HubView {
        HubView { live: rows(self.connections@), last_token: self.last_token }
    }
}

/// The connection of a device.
pub open spec fn of_device(device: DeviceKey) -> spec_fn(Live) -> bool {
    |live: Live| live.device == device
}

/// The connections of the same device.
pub open spec fn device_of() -> spec_fn(Live) -> spec_fn(Live) -> bool {
    |live: Live| of_device(live.device)
}

/// The connections with the same token.
pub open spec fn token_of() -> spec_fn(Live) -> spec_fn(Live) -> bool {
    |live: Live| |other: Live| other.token == live.token
}

/// The connections that a frame for an endpoint reaches: all its devices, or
/// the target alone.
pub open spec fn receives(
    relay_id: Seq<char>,
    endpoint: Endpoint,
    target_device_id: Option<Seq<char>>,
) -> spec_fn(Live) -> bool {
    |live: Live|
        {
            &&& live.device.relay_id == relay_id
            &&& live.device.endpoint == endpoint
            &&& target_device_id is None || target_device_id == Some(live.device.device_id)
        }
}

/// The frame to every one of the connections.
pub open spec fn to_each(connections: Seq<Live>, frame: ServerFrameView) -> Seq<OutgoingView> {
    connections.map_values(|live: Live| OutgoingView { token: live.token, frame })
}

/// The error that a replaced connection gets.
pub open spec fn replacement_notice() -> ServerFrameView {
    ServerFrameView::Error {
        message: "connection_replaced: another connection opened for this device"@,
    }
}

/// What a new connection gets: the notice that it is ready, and its backlog.
pub open spec fn greeting(token: u64, endpoint: Endpoint, pending: Seq<Delivery>) -> Seq<
    OutgoingView,
> {
    seq![OutgoingView { token, frame: ServerFrameView::Ready { endpoint } }]
        + pending.map_values(|d: Delivery| OutgoingView { token, frame: message_frame(d) })
}

impl HubView {
    /// At most one connection per device, and no token twice or beyond the
    /// last one given out.
    pub open spec fn well_formed(self) -> bool {
        &&& distinct(self.live, device_of())
        &&& distinct(self.live, token_of())
        &&& forall|i: int|
            0 <= i < self.live.len() ==> (#[trigger] self.live[i]).token <= self.last_token
    }

    /// The connection of a device, if it has one.
    pub open spec fn connection(self, device: DeviceKey) -> Option<Live> {
        find(self.live, of_device(device))
    }

    /// The token is that of the device's connection.
    pub open spec fn current(self, device: DeviceKey, token: u64) -> bool {
        self.connection(device) matches Some(live) && live.token == token
    }

    /// The hub after a device connected.
    pub open spec fn registered(self, device: DeviceKey) -> HubView {
        let token = (self.last_token + 1) as u64;
        HubView {
            live: put(self.live, of_device(device), Live { device, token }),
            last_token: token,
        }
    }

    /// The notice to the connection that a new one of the device replaces.
    pub open spec fn notices(self, device: DeviceKey) -> Seq<OutgoingView> {
        match self.connection(device) {
            Some(live) => seq![OutgoingView { token: live.token, frame: replacement_notice() }],
            None => Seq::empty(),
        }
    }

    /// The hub after a connection ended.
    pub open spec fn removed(self, device: DeviceKey, token: u64) -> HubView {
        if self.current(device, token) {
            HubView { live: without(self.live, of_device(device)), ..self }
        } else {
            self
        }
    }
}

impl Hub {
    /// A hub without connections.
    pub fn new() -> (hub: Hub)
        ensures
            hub@ == (HubView { live: Seq::empty(), last_token: 0 }),
            hub@.well_formed(),
    {
        let hub = Hub { connections: Vec::new(), last_token: 0 };
        proof {
            assert(rows(hub.connections@) =~= Seq::empty());
        }
        hub
    }

    /// Whether there is a token left for one more connection.
    pub fn has_tokens(&self) -> (r: bool)
        ensures
            r == (self@.last_token < u64::MAX),
    {
        self.last_token < 0xffff_ffff_ffff_ffff
    }

    /// How many connections are live.
    pub fn len(&self) -> (n: usize)
        ensures
            n == self@.live.len(),
    {
        self.connections.len()
    }

    /// Where the connection of a device stands.
    fn place(&self, relay_id: &str, endpoint: Endpoint, device_id: &str) -> (r: Option<usize>)
        ensures
            match r {
                Some(i) => first_at(
                    self@.live,
                    of_device(device_key(relay_id, endpoint, device_id)),
                    i as int,
                ),
                None => !present(self@.live, of_device(device_key(relay_id, endpoint, device_id))),
            },
    {
        let relay = relay_id.to_owned();
        let device = device_id.to_owned();
        let ghost p = of_device(device_key(relay_id, endpoint, device_id));
        let test = |live: &LiveConnection| -> (b: bool)
            ensures b == p(live@)
        {
            live.relay_id == relay && live.endpoint == endpoint && live.device_id == device
        };
        position(&self.connections, test, Ghost(p))
    }

    /// Registers a connection for a device and returns its token with the
    /// frames that go out.
    ///
    /// If the device has a connection already, it is replaced, so that a device
    /// that reconnects or switches networks takes over its session at once.
    pub fn register(
        &mut self,
        relay_id: &str,
        endpoint: Endpoint,
        device_id: &str,
        pending: Vec<StoredMessage>,
    ) -> (r: (u64, Vec<Outgoing>))
        requires
            old(self)@.last_token < u64::MAX,
        ensures
            ({
                let device = device_key(relay_id, endpoint, device_id);
                &&& r.0 == old(self)@.last_token + 1
                &&& final(self)@ == old(self)@.registered(device)
                &&& rows(r.1@) == old(self)@.notices(device) + greeting(
                    r.0,
                    endpoint,
                    rows(pending@),
                )
                &&& old(self)@.well_formed() ==> final(self)@.well_formed()
            }),
    {
        let ghost device = device_key(relay_id, endpoint, device_id);
        let ghost before = self@;
        let token: u64 = self.last_token + 1;
        let mut out: Vec<Outgoing> = Vec::new();
        let connection = LiveConnection {
            relay_id: relay_id.to_owned(),
            endpoint,
            device_id: device_id.to_owned(),
            token,
        };
        let ghost live = connection@;
        let at = self.place(relay_id, endpoint, device_id);
        match at {
            Some(i) => {
                proof {
                    lemma_first(before.live, of_device(device), i as int);
                }
                out.push(
                    Outgoing {
                        token: self.connections[i].token,
                        frame: ServerFrame::Error {
                            message: "connection_replaced: another connection opened for this device".to_owned(),
                        },
                    },
                );
                self.connections.set(i, connection);
                proof {
                    assert(rows(self.connections@) =~= before.live.update(i as int, live));
                }
            },
            None => {
                self.connections.push(connection);
                proof {
                    assert(rows(self.connections@) =~= before.live.push(live));
                }
            },
        }
        self.last_token = token;
        proof {
            assert(rows(out@) =~= before.notices(device));
            if before.well_formed() {
                lemma_registered_well_formed(before, device);
            }
        }
        let ghost notices = rows(out@);
        out.push(Outgoing { token, frame: ServerFrame::Ready { endpoint } });
        let ghost messages = rows(pending@);
        proof {
            assert(rows(out@) =~= notices + greeting(token, endpoint, messages.take(0)));
        }
        for message in it: pending.into_iter()
            invariant
                it.seq() == pending@,
                messages == rows(pending@),
                rows(out@) == notices + greeting(
                    token,
                    endpoint,
                    messages.take(it.index() as int),
                ),
        {
            let ghost k = it.index() as int;
            let ghost sent = rows(out@);
            let ghost d = message@;
            proof {
                assert(messages[k] == d);
            }
            out.push(Outgoing { token, frame: message.into_frame() });
            proof {
                let frame = OutgoingView { token, frame: message_frame(d) };
                assert(rows(out@) =~= sent.push(frame));
                assert(messages.take(k + 1) =~= messages.take(k).push(d));
                assert(greeting(token, endpoint, messages.take(k + 1)) =~= greeting(
                    token,
                    endpoint,
                    messages.take(k),
                ).push(frame));
                assert(sent.push(frame) =~= notices + greeting(
                    token,
                    endpoint,
                    messages.take(k + 1),
                ));
            }
        }
        proof {
            assert(messages.take(messages.len() as int) =~= messages);
        }
        (token, out)
    }

    /// The frame to every connection of an endpoint, or to that of the target
    /// device alone.
    pub fn send_to_endpoint(
        &self,
        relay_id: &str,
        endpoint: Endpoint,
        target_device_id: Option<&str>,
        frame: &ServerFrame,
    ) -> (out: Vec<Outgoing>)
        ensures
            rows(out@) == to_each(
                self@.live.filter(
                    receives(
                        relay_id@,
                        endpoint,
                        match target_device_id {
                            Some(target) => Some(target@),
                            None => None,
                        },
                    ),
                ),
                frame@,
            ),
    {
        let relay = relay_id.to_owned();
        let target: Option<String> = match target_device_id {
            Some(t) => Some(t.to_owned()),
            None => None,
        };
        let ghost p = receives(relay@, endpoint, text_of(target));
        let ghost live = self@.live;
        let mut out: Vec<Outgoing> = Vec::new();
        let mut i: usize = 0;
        proof {
            assert(live.take(0).filter(p) =~= Seq::empty());
            assert(rows(out@) =~= to_each(live.take(0).filter(p), frame@));
        }
        while i < self.connections.len()
            invariant
                i <= self.connections@.len(),
                live == rows(self.connections@),
                p == receives(relay@, endpoint, text_of(target)),
                rows(out@) == to_each(live.take(i as int).filter(p), frame@),
            decreases self.connections@.len() - i,
        {
            let connection = &self.connections[i];
            let ghost sent = rows(out@);
            proof {
                assert(live[i as int] == connection@);
                assert(live.take(i + 1) =~= live.take(i as int).push(connection@));
                live.take(i as int).lemma_filter_push(connection@, p);
            }
            let meant = match &target {
                Some(t) => connection.device_id == *t,
                None => true,
            };
            if connection.relay_id == relay && connection.endpoint == endpoint && meant {
                out.push(Outgoing { token: connection.token, frame: frame.clone() });
                proof {
                    let last = OutgoingView { token: connection@.token, frame: frame@ };
                    assert(rows(out@) =~= sent.push(last));
                    assert(to_each(live.take(i as int).filter(p).push(connection@), frame@)
                        =~= to_each(live.take(i as int).filter(p), frame@).push(last));
                }
            }
            i = i + 1;
        }
        proof {
            assert(live.take(live.len() as int) =~= live);
        }
        out
    }

    /// Whether the token is still that of the device's connection.
    pub fn is_current(
        &self,
        relay_id: &str,
        endpoint: Endpoint,
        device_id: &str,
        token: u64,
    ) -> (r: bool)
        ensures
            r == self@.current(device_key(relay_id, endpoint, device_id), token),
    {
        match self.place(relay_id, endpoint, device_id) {
            Some(i) => {
                proof {
                    lemma_first(
                        self@.live,
                        of_device(device_key(relay_id, endpoint, device_id)),
                        i as int,
                    );
                }
                self.connections[i].token == token
            },
            None => false,
        }
    }

    /// Takes a connection out, unless another one replaced it.
    pub fn remove(&mut self, relay_id: &str, endpoint: Endpoint, device_id: &str, token: u64)
        ensures
            final(self)@ == old(self)@.removed(device_key(relay_id, endpoint, device_id), token),
            old(self)@.well_formed() ==> final(self)@.well_formed(),
    {
        if !self.is_current(relay_id, endpoint, device_id, token) {
            return;
        }
        let ghost before = self@;
        let relay = relay_id.to_owned();
        let device = device_id.to_owned();
        let ghost p = of_device(device_key(relay_id, endpoint, device_id));
        let test = |live: &LiveConnection| -> (b: bool)
            ensures b == p(live@)
        {
            live.relay_id == relay && live.endpoint == endpoint && live.device_id == device
        };
        let mut connections: Vec<LiveConnection> = Vec::new();
        std::mem::swap(&mut connections, &mut self.connections);
        let parts = partition(connections, test, Ghost(p));
        self.connections = parts.1;
        proof {
            assert(self@ == before.removed(device_key(relay_id, endpoint, device_id), token));
            if before.well_formed() {
                let keep = |live: Live| !p(live);
                lemma_filter_distinct(before.live, keep, device_of());
                lemma_filter_distinct(before.live, keep, token_of());
                assert forall|i: int| 0 <= i < self@.live.len() implies (
                #[trigger] self@.live[i]).token <= self@.last_token by {
                    assert(self@.live.contains(self@.live[i]));
                    lemma_filter_member(before.live, keep, self@.live[i]);
                    let k = before.live.index_of(self@.live[i]);
                    assert(before.live[k].token <= before.last_token);
                }
            }
        }
    }
}

proof fn lemma_registered_well_formed(hub: HubView, device: DeviceKey)
    requires
        hub.well_formed(),
        hub.last_token < u64::MAX,
    ensures
        hub.registered(device).well_formed(),
{
    let token = (hub.last_token + 1) as u64;
    let live = Live { device, token };
    let next = hub.registered(device);
    lemma_put_distinct(hub.live, live, device_of());
    lemma_put_rows(hub.live, of_device(device), live);
    assert forall|i: int, j: int| 0 <= i < j < next.live.len() implies !token_of()(
        #[trigger] next.live[i],
    )(#[trigger] next.live[j]) by {
        if next.live[i] == live && next.live[j] == live {
            assert(!device_of()(next.live[i])(next.live[j]));
        } else if next.live[i] == live {
            assert(hub.live[j].token <= hub.last_token);
        } else if next.live[j] == live {
            assert(hub.live[i].token <= hub.last_token);
        } else {
            assert(!token_of()(hub.live[i])(hub.live[j]));
        }
    }
    assert forall|i: int| 0 <= i < next.live.len() implies (#[trigger] next.live[i]).token
        <= next.last_token by {
        if next.live[i] != live {
            assert(hub.live[i].token <= hub.last_token);
        }
    }
}

/// A connection takes its device over: its token is current, and none that was
/// before is.
pub proof fn connections_take_over(hub: HubView, device: DeviceKey, token: u64)
    requires
        hub.well_formed(),
        hub.last_token < u64::MAX,
    ensures
        hub.registered(device).current(device, (hub.last_token + 1) as u64),
        hub.current(device, token) ==> !hub.registered(device).current(device, token),
        hub.current(device, token) ==> hub.notices(device) == seq![
            OutgoingView { token, frame: replacement_notice() },
        ],
{
    let live = Live { device, token: (hub.last_token + 1) as u64 };
    lemma_put_found(hub.live, of_device(device), live);
    if hub.current(device, token) {
        lemma_found(hub.live, of_device(device));
        let i = choose|i: int| first_at(hub.live, of_device(device), i);
        lemma_first(hub.live, of_device(device), i);
        assert(hub.live[i].token <= hub.last_token);
    }
}

/// A connection does not disturb those of other devices.
pub proof fn connections_spare_other_devices(hub: HubView, device: DeviceKey, other: DeviceKey)
    requires
        device != other,
        hub.last_token < u64::MAX,
    ensures
        hub.registered(device).connection(other) == hub.connection(other),
        forall|token: u64| #[trigger]
            hub.removed(device, token).connection(other) == hub.connection(other),
{
    let live = Live { device, token: (hub.last_token + 1) as u64 };
    lemma_put_apart(hub.live, of_device(device), live, of_device(other));
    assert forall|token: u64| #[trigger] hub.removed(device, token).connection(other)
        == hub.connection(other) by {
        let p = of_device(device);
        lemma_find_filter(hub.live, |l: Live| !p(l), of_device(other));
    }
}

/// A connection that was replaced ends without taking its successor with it.
pub proof fn stale_removals_change_nothing(hub: HubView, device: DeviceKey, token: u64)
    requires
        !hub.current(device, token),
    ensures
        hub.removed(device, token) == hub,
{
}

/// A connection that ends leaves its device without one.
pub proof fn removed_connections_are_gone(
    hub: HubView,
    device: DeviceKey,
    token: u64,
    other_token: u64,
)
    requires
        hub.current(device, token),
    ensures
        hub.removed(device, token).connection(device) is None,
        !hub.removed(device, token).current(device, other_token),
{
    let p = of_device(device);
    let rest = hub.removed(device, token).live;
    if present(rest, p) {
        let i = choose|i: int| 0 <= i < rest.len() && p(#[trigger] rest[i]);
        assert(rest.contains(rest[i]));
        lemma_filter_member(hub.live, |l: Live| !p(l), rest[i]);
    }
}

/// A frame for an endpoint reaches a device exactly if it is connected there
/// and the frame is meant for it, and then once, on its current connection.
pub proof fn frames_reach_their_endpoint(
    hub: HubView,
    relay_id: Seq<char>,
    endpoint: Endpoint,
    target_device_id: Option<Seq<char>>,
    frame: ServerFrameView,
    live: Live,
)
    requires
        hub.well_formed(),
        hub.live.contains(live),
    ensures
        ({
            let out = to_each(
                hub.live.filter(receives(relay_id, endpoint, target_device_id)),
                frame,
            );
            &&& hub.current(live.device, live.token)
            &&& out.contains(OutgoingView { token: live.token, frame }) <==> receives(
                relay_id,
                endpoint,
                target_device_id,
            )(live)
            &&& forall|i: int, j: int|
                0 <= i < j < out.len() ==> (#[trigger] out[i]).token != (#[trigger] out[j]).token
        }),
{
    let p = receives(relay_id, endpoint, target_device_id);
    let chosen = hub.live.filter(p);
    let out = to_each(chosen, frame);
    let at = hub.live.index_of(live);
    assert(first_at(hub.live, of_device(live.device), at)) by {
        assert forall|j: int| 0 <= j < at implies !of_device(live.device)(
            #[trigger] hub.live[j],
        ) by {
            assert(!device_of()(hub.live[j])(hub.live[at]));
        }
    }
    lemma_first(hub.live, of_device(live.device), at);
    lemma_filter_member(hub.live, p, live);
    lemma_filter_distinct(hub.live, p, token_of());
    let sent = OutgoingView { token: live.token, frame };
    if p(live) {
        let k = chosen.index_of(live);
        assert(out[k] == sent);
    }
    if out.contains(sent) {
        let k = out.index_of(sent);
        assert(chosen.contains(chosen[k]));
        lemma_filter_member(hub.live, p, chosen[k]);
        let n = hub.live.index_of(chosen[k]);
        if n < at {
            assert(!token_of()(hub.live[n])(hub.live[at]));
        } else if at < n {
            assert(!token_of()(hub.live[at])(hub.live[n]));
        }
    }
    assert forall|i: int, j: int| 0 <= i < j < out.len() implies (#[trigger] out[i]).token != (
    #[trigger] out[j]).token by {
        assert(!token_of()(chosen[i])(chosen[j]));
    }
}

} // verus!
