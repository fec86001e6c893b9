//! The bookkeeping of the network hosts and clients: which clients a host
//! knows, where a message for an id goes, how connection events become
//! polls, and how messages are framed on a stream. The sockets themselves
//! are driven outside the library.

use vstd::prelude::*;
use crate::identity::{SocketAddr, SocketAddrExt, addr_of, raw_of, HOST_ADDR};
use crate::messages::{ClientRequest, HostPoll, ServerMessage};
use crate::text::{decimal, push_decimal};

verus! {

/// Where a message for an id goes.
#[derive(Debug)]
pub enum Route {
    /// To the host's own client, through its in-process channel.
    Own,
    /// To the connected client with this id.
    Client(u64),
    /// To no one: no client has the id.
    Missing,
}

/// The clients that a host knows besides its own, in the order they
/// connected, and whether the host has been polled yet.
pub struct ClientTable {
    first_poll: bool,
    host_id: u64,
    clients: Vec<u64>,
}

/// Abstract state of a client table.
pub struct ClientTableView {
    pub first_poll: bool,
    pub host_id: u64,
    pub clients: Seq<u64>,
}

impl View for ClientTable {
    type V = ClientTableView;

    closed spec fn view(&self) -> ClientTableView {
        ClientTableView { first_poll: self.first_poll, host_id: self.host_id, clients: self.clients@ }
    }
}

impl ClientTable {
    /// Each client is listed once.
    pub closed spec fn wf(&self) -> bool {
        self.clients@.no_duplicates()
    }

    /// A table for a host whose own client has id `host_id`, not polled yet
    /// and with no one connected.
    pub fn new(host_id: u64) -> (r: Self)
        ensures
            r.wf(),
            r@.first_poll,
            r@.host_id == host_id,
            r@.clients == Seq::<u64>::empty(),
    {
        ClientTable { first_poll: true, host_id, clients: Vec::new() }
    }

    /// On the first poll the host's own client counts as connected; after
    /// that, nothing comes of this step.
    pub fn first_poll(&mut self) -> (r: Option<HostPoll>)
        requires
            old(self).wf(),
        ensures
            final(self).wf(),
            final(self)@.host_id == old(self)@.host_id,
            final(self)@.clients == old(self)@.clients,
            !final(self)@.first_poll,
            old(self)@.first_poll ==> (r matches Some(HostPoll::ClientConnected(a)) && a == old(self)@.host_id),
            !old(self)@.first_poll ==> r is None,
    {
        if self.first_poll {
            self.first_poll = false;
            Some(HostPoll::ClientConnected(self.host_id))
        } else {
            None
        }
    }

    /// Whether a client with id `id` is connected.
    pub fn knows(&self, id: u64) -> (b: bool)
        ensures
            b == self@.clients.contains(id),
    {
        let mut i: usize = 0;
        while i < self.clients.len()
            invariant
                i <= self.clients@.len(),
                forall|k: int| 0 <= k < i ==> self.clients@[k] != id,
            decreases self.clients@.len() - i,
        {
            if self.clients[i] == id {
                return true;
            }
            i = i + 1;
        }
        false
    }

    /// A client with id `id` connected: it is listed (a client that was
    /// listed already keeps its place) and its connection is reported.
    pub fn connected(&mut self, id: u64) -> (r: HostPoll)
        requires
            old(self).wf(),
        ensures
            final(self).wf(),
            final(self)@.first_poll == old(self)@.first_poll,
            final(self)@.host_id == old(self)@.host_id,
            final(self)@.clients == if old(self)@.clients.contains(id) {
                old(self)@.clients
            } else {
                old(self)@.clients.push(id)
            },
            r matches HostPoll::ClientConnected(a) && a == id,
    {
        if !self.knows(id) {
            self.clients.push(id);
            proof {
                assert forall|a: int, b: int| 0 <= a < b < self.clients@.len() implies self.clients@[a]
                    != self.clients@[b] by {
                    if b == self.clients@.len() - 1 {
                        assert(!old(self)@.clients.contains(id));
                        assert(self.clients@[a] == old(self)@.clients[a]);
                    }
                }
            }
        }
        HostPoll::ClientConnected(id)
    }

    /// Forgets the client with id `id`, if it is listed.
    pub fn remove_client(&mut self, id: u64)
        requires
            old(self).wf(),
        ensures
            final(self).wf(),
            final(self)@.first_poll == old(self)@.first_poll,
            final(self)@.host_id == old(self)@.host_id,
            final(self)@.clients == old(self)@.clients.filter(|c: u64| c != id),
    {
        let ghost before = self.clients@;
        let mut kept: Vec<u64> = Vec::new();
        let mut i: usize = 0;
        while i < self.clients.len()
            invariant
                i <= self.clients@.len(),
                self.clients@ == before,
                before.no_duplicates(),
                kept@ == before.subrange(0, i as int).filter(|c: u64| c != id),
            decreases self.clients@.len() - i,
        {
            let c = self.clients[i];
            proof {
                reveal(Seq::filter);
                assert(before.subrange(0, i + 1).drop_last() =~= before.subrange(0, i as int));
            }
            if c != id {
                kept.push(c);
            }
            i = i + 1;
        }
        proof {
            assert(before.subrange(0, before.len() as int) =~= before);
            broadcast use vstd::seq_lib::group_filter_ensures;
            assert forall|a: int, b: int| 0 <= a < b < kept@.len() implies kept@[a] != kept@[b] by {
                lemma_filter_no_duplicates(before, id);
            }
        }
        self.clients = kept;
    }

    /// A client disconnected: it is forgotten and its leaving is reported.
    pub fn disconnected(&mut self, id: u64) -> (r: HostPoll)
        requires
            old(self).wf(),
        ensures
            final(self).wf(),
            final(self)@.first_poll == old(self)@.first_poll,
            final(self)@.host_id == old(self)@.host_id,
            final(self)@.clients == old(self)@.clients.filter(|c: u64| c != id),
            r matches HostPoll::RemoveClient(a) && a == id,
    {
        self.remove_client(id);
        HostPoll::RemoveClient(id)
    }

    /// Where a message for `id` goes: the host's own client, a connected
    /// client, or no one.
    pub fn route(&self, id: u64) -> (r: Route)
        ensures
            r == if id == self@.host_id {
                Route::Own
            } else if self@.clients.contains(id) {
                Route::Client(id)
            } else {
                Route::Missing
            },
    {
        if id == self.host_id {
            Route::Own
        } else if self.knows(id) {
            Route::Client(id)
        } else {
            Route::Missing
        }
    }

    /// Every id a message can be sent to: the connected clients in the order
    /// they connected, then the host's own.
    pub fn get_clients(&self) -> (r: Vec<u64>)
        ensures
            r@ == self@.clients.push(self@.host_id),
    {
        let mut r = self.clients.clone();
        r.push(self.host_id);
        r
    }

    /// The number of clients, the host's own included.
    pub fn get_client_count(&self) -> (r: u32)
        requires
            self@.clients.len() < u32::MAX,
        ensures
            r == self@.clients.len() + 1,
    {
        (self.clients.len() as u32) + 1
    }
}

/// Filtering keeps a list free of repeats.
proof fn lemma_filter_no_duplicates(s: Seq<u64>, id: u64)
    requires
        s.no_duplicates(),
    ensures
        s.filter(|c: u64| c != id).no_duplicates(),
    decreases s.len(),
{
    reveal(Seq::filter);
    if s.len() > 0 {
        let t = s.drop_last();
        assert(t.no_duplicates());
        lemma_filter_no_duplicates(t, id);
        let f = t.filter(|c: u64| c != id);
        broadcast use vstd::seq_lib::group_filter_ensures;
        if s.last() != id {
            assert(s.filter(|c: u64| c != id) == f.push(s.last()));
            assert(!f.contains(s.last())) by {
                if f.contains(s.last()) {
                    let k = choose|k: int| 0 <= k < f.len() && f[k] == s.last();
                    t.lemma_filter_contains_rev(|c: u64| c != id, f[k]);
                    assert(t.contains(f[k]));
                    let j = choose|j: int| 0 <= j < t.len() && t[j] == f[k];
                    assert(s[j] == s[s.len() - 1]);
                }
            }
        } else {
            assert(s.filter(|c: u64| c != id) == f);
        }
    }
}

/// A connection undone: a client that was not listed, connecting and then
/// leaving, leaves the list as it was.
pub proof fn lemma_connect_then_disconnect(clients: Seq<u64>, id: u64)
    requires
        clients.no_duplicates(),
        !clients.contains(id),
    ensures
        clients.push(id).filter(|c: u64| c != id) == clients,
{
    reveal(Seq::filter);
    assert(clients.push(id).drop_last() =~= clients);
    lemma_filter_absent(clients, id);
}

/// Filtering out an id that a list does not hold leaves the list.
proof fn lemma_filter_absent(s: Seq<u64>, id: u64)
    requires
        !s.contains(id),
    ensures
        s.filter(|c: u64| c != id) == s,
    decreases s.len(),
{
    reveal(Seq::filter);
    if s.len() > 0 {
        let t = s.drop_last();
        assert(!t.contains(id)) by {
            if t.contains(id) {
                let k = choose|k: int| 0 <= k < t.len() && t[k] == id;
                assert(s[k] == id);
            }
        }
        lemma_filter_absent(t, id);
        assert(s.last() != id) by {
            assert(s[s.len() - 1] == s.last());
        }
        assert(t.push(s.last()) =~= s);
    }
}

/// The key a stream host files a client under: the id of the address that
/// `id` packs, its two low bytes cleared.
pub open spec fn stream_key(id: u64) -> u64 {
    raw_of(addr_of(id))
}

/// Where a stream host sends a message for `id`: its own client for the
/// host's id, else the client filed under the key of `id`.
pub fn stream_route(table: &ClientTable, id: u64) -> (r: Route)
    ensures
        r == if stream_key(id) == HOST_ADDR {
            Route::Own
        } else if table@.clients.contains(stream_key(id)) {
            Route::Client(stream_key(id))
        } else {
            Route::Missing
        },
{
    let key = SocketAddr::from_raw(id).raw();
    if key == HOST_ADDR {
        Route::Own
    } else if table.knows(key) {
        Route::Client(key)
    } else {
        Route::Missing
    }
}

/// The text of an IPv4 socket address: four dotted bytes, a colon, the
/// port.
pub open spec fn addr_text(a: SocketAddr) -> Seq<char> {
    decimal((a.ip / 0x100_0000) as nat) + "."@ + decimal(((a.ip / 0x1_0000) % 0x100) as nat) + "."@
        + decimal(((a.ip / 0x100) % 0x100) as nat) + "."@ + decimal((a.ip % 0x100) as nat) + ":"@
        + decimal(a.port as nat)
}

/// See `addr_text`.
pub fn addr_string(a: SocketAddr) -> (r: String)
    ensures
        r@ == addr_text(a),
{
    let mut r = String::new();
    push_decimal(&mut r, (a.ip / 0x100_0000) as u64);
    r.append(".");
    push_decimal(&mut r, ((a.ip / 0x1_0000) % 0x100) as u64);
    r.append(".");
    push_decimal(&mut r, ((a.ip / 0x100) % 0x100) as u64);
    r.append(".");
    push_decimal(&mut r, (a.ip % 0x100) as u64);
    r.append(":");
    push_decimal(&mut r, a.port as u64);
    r
}

/// The error a stream host reports for a message to an unknown client.
pub fn missing_client_message(id: u64) -> (r: String)
    ensures
        r@ == "SERVER - client "@ + addr_text(addr_of(id)) + " does not exist"@,
{
    let mut r = String::from_str("SERVER - client ");
    let a = addr_string(SocketAddr::from_raw(id));
    r.append(a.as_str());
    r.append(" does not exist");
    r
}

/// What the connection layer reports to a host: someone asks to connect,
/// someone connected, someone left; the last two carry the remote's id
/// where it has one.
pub enum ListenEvent {
    Connecting,
    Connected(Option<u64>),
    Disconnected(Option<u64>),
}

/// Handles a connection event: a request to connect is accepted (by the
/// caller) and yields nothing, a connection or departure updates the table
/// and is reported, and a remote without an id is an error.
pub fn handle_listen(table: &mut ClientTable, ev: ListenEvent) -> (r: Result<HostPoll, ()>)
    requires
        old(table).wf(),
    ensures
        final(table).wf(),
        final(table)@.first_poll == old(table)@.first_poll,
        final(table)@.host_id == old(table)@.host_id,
        match ev {
            ListenEvent::Connecting => r matches Ok(HostPoll::Nothing) && final(table)@ == old(table)@,
            ListenEvent::Connected(Some(id)) => (r matches Ok(HostPoll::ClientConnected(a)) && a == id)
                && final(table)@.clients == if old(table)@.clients.contains(id) {
                old(table)@.clients
            } else {
                old(table)@.clients.push(id)
            },
            ListenEvent::Disconnected(Some(id)) => (r matches Ok(HostPoll::RemoveClient(a)) && a == id)
                && final(table)@.clients == old(table)@.clients.filter(|c: u64| c != id),
            _ => r is Err && final(table)@ == old(table)@,
        },
{
    match ev {
        ListenEvent::Connecting => Ok(HostPoll::Nothing),
        ListenEvent::Connected(Some(id)) => Ok(table.connected(id)),
        ListenEvent::Disconnected(Some(id)) => Ok(table.disconnected(id)),
        _ => Err(()),
    }
}

/// The largest message a stream host reads from a client.
pub const MAX_FRAME: u32 = 10000;

/// Whether a stream host reads a message of `len` bytes; longer ones are
/// skipped.
pub fn frame_accepted(len: u32) -> (b: bool)
    ensures
        b == (len <= MAX_FRAME),
{
    len <= MAX_FRAME
}

/// The four big-endian bytes of `v`.
pub open spec fn be32(v: u32) -> Seq<u8> {
    seq![(v / 0x100_0000) as u8, ((v / 0x1_0000) % 0x100) as u8, ((v / 0x100) % 0x100) as u8, (v % 0x100) as u8]
}

/// A message on a stream: its length, as a big-endian `u32` cut to 32
/// bits, then its bytes.
pub open spec fn framed(payload: Seq<u8>) -> Seq<u8> {
    be32((payload.len() % 0x1_0000_0000) as u32) + payload
}

/// See `framed`.
pub fn frame(payload: &[u8]) -> (r: Vec<u8>)
    ensures
        r@ == framed(payload@),
{
    let len: u32 = (payload.len() as u64 % 0x1_0000_0000) as u32;
    let mut r: Vec<u8> = Vec::new();
    r.push((len / 0x100_0000) as u8);
    r.push(((len / 0x1_0000) % 0x100) as u8);
    r.push(((len / 0x100) % 0x100) as u8);
    r.push((len % 0x100) as u8);
    let n = payload.len();
    for i in 0..n
        invariant
            n == payload@.len(),
            r@ == be32(len) + payload@.subrange(0, i as int),
    {
        r.push(payload[i]);
        proof {
            assert(be32(len) + payload@.subrange(0, i + 1) =~= (be32(len) + payload@.subrange(0, i as int)).push(
                payload@[i as int],
            ));
        }
    }
    proof {
        assert(payload@.subrange(0, n as int) =~= payload@);
    }
    r
}

/// The length that a frame's four header bytes give.
pub open spec fn header_len(h: Seq<u8>) -> int {
    h[0] * 0x100_0000 + h[1] * 0x1_0000 + h[2] * 0x100 + h[3]
}

/// See `header_len`.
pub fn frame_len(h: [u8; 4]) -> (r: u32)
    ensures
        r == header_len(h@),
{
    (h[0] as u32) * 0x100_0000 + (h[1] as u32) * 0x1_0000 + (h[2] as u32) * 0x100 + (h[3] as u32)
}

/// A frame's header reads back as the length of its message, cut to 32
/// bits.
pub proof fn lemma_frame_header(payload: Seq<u8>)
    ensures
        header_len(framed(payload).subrange(0, 4)) == payload.len() % 0x1_0000_0000,
{
    let v = (payload.len() % 0x1_0000_0000) as u32;
    let h = framed(payload).subrange(0, 4);
    assert(h =~= be32(v));
    let a = v / 0x100_0000;
    let b = (v / 0x1_0000) % 0x100;
    let c = (v / 0x100) % 0x100;
    let d = v % 0x100;
    assert(v == a * 0x100_0000 + b * 0x1_0000 + c * 0x100 + d) by (nonlinear_arith)
        requires
            a == v / 0x100_0000,
            b == (v / 0x1_0000) % 0x100,
            c == (v / 0x100) % 0x100,
            d == v % 0x100,
            0 <= v < 0x1_0000_0000,
    ;
}

/// What a client's loop got: a message from the server, a tick, or a
/// request from the player.
pub enum ClientEvent {
    Message(ServerMessage),
    Tick,
    Request(ClientRequest),
}

/// What a client's loop does with it.
pub enum ClientAction {
    /// Hand the message to the front end.
    Deliver(ServerMessage),
    /// Nothing beyond counting the tick.
    Count,
    /// Send the request to the server.
    Send(ClientRequest),
}

/// One step of a client's loop: messages go to the front end, requests to
/// the server, and ticks are counted (wrapping).
pub fn client_step(ticks: usize, ev: ClientEvent) -> (r: (usize, ClientAction))
    ensures
        match ev {
            ClientEvent::Message(m) => r.0 == ticks && r.1 == ClientAction::Deliver(m),
            ClientEvent::Tick => r.0 == (if ticks == usize::MAX {
                0
            } else {
                (ticks + 1) as usize
            }) && r.1 is Count,
            ClientEvent::Request(q) => r.0 == ticks && r.1 == ClientAction::Send(q),
        },
{
    match ev {
        ClientEvent::Message(m) => (ticks, ClientAction::Deliver(m)),
        ClientEvent::Tick => (ticks.wrapping_add(1), ClientAction::Count),
        ClientEvent::Request(q) => (ticks, ClientAction::Send(q)),
    }
}

} // verus!
