//! The server's state machine: the lobby, entering the dungeon, the game,
//! and its end. Entering the dungeon leads straight into clearing the first
//! room, which is the running game (`GameStartedState`); no separate step
//! for preparing characters comes between them. Each handler takes what
//! the host reports and returns what the host must do, in order, as
//! `Outbound` actions.

use vstd::prelude::*;
use std::collections::HashSet;
use crate::math::Vec3;
use crate::map::{VoxelMap, MapView, Piece, in_bounds, lists_ground, pos_at};
use crate::actor::{Actor, Controller, CardHolder, TurnResources};
use crate::abilities::Abilities;
use crate::messages::{ClientRequest, ServerMessage, Outbound, HostPoll};
use crate::game::{GameStartedState, bot_plan, can_spawn_at, default_client_request, default_answer, next_alive, is_turn_notice, is_spawn_notice, fits_request};
use crate::identity::BOT_ADDR;
use crate::chance::random_below;
use crate::text::{concat2, push_decimal, decimal};

verus! {

/// Ticks per second.
pub const TICK_RATE: usize = 30;

/// What the server keeps across states: the hosting player and a tick count.
pub struct ServerData {
    pub host_player: Option<u64>,
    pub tick: usize,
}

impl Default for ServerData {
    fn default() -> (r: Self)
        ensures
            r.host_player is None,
            r.tick == 0,
    {
        ServerData { host_player: None, tick: 0 }
    }
}

/// `oa` is `ob` followed by `extra`.
pub open spec fn appended(ob: Seq<Outbound>, oa: Seq<Outbound>, extra: Seq<Outbound>) -> bool {
    oa == ob + extra
}

/// A tick: the count goes up (wrapping), and every second the host player
/// is sent the number of users.
pub fn default_host_poll_tick(data: &mut ServerData, user_count: u32, out: &mut Vec<Outbound>)
    ensures
        final(data).tick == if old(data).tick == usize::MAX { 0 } else { (old(data).tick + 1) as usize },
        final(data).host_player == old(data).host_player,
        match old(data).host_player {
            Some(addr) => if final(data).tick % TICK_RATE == 0 {
                final(out)@.len() == old(out)@.len() + 1 && final(out)@.subrange(0, old(out)@.len() as int) == old(out)@
                    && (final(out)@.last() matches Outbound::Send(to, ServerMessage::Status { user_count: u }) && to == addr && u == user_count)
            } else {
                final(out)@ == old(out)@
            },
            None => final(out)@ == old(out)@,
        },
{
    data.tick = data.tick.wrapping_add(1);
    if let Some(addr) = data.host_player {
        if data.tick % TICK_RATE == 0 {
            let ghost before = out@;
            out.push(Outbound::Send(addr, ServerMessage::Status { user_count }));
            proof {
                assert(out@.subrange(0, before.len() as int) =~= before);
            }
        }
    }
}

/// A client left: the host forgets it and everyone is told.
pub fn host_poll_remove_client(addr: u64, out: &mut Vec<Outbound>)
    ensures
        final(out)@.len() == old(out)@.len() + 2,
        final(out)@.subrange(0, old(out)@.len() as int) == old(out)@,
        final(out)@[old(out)@.len() as int] matches Outbound::RemoveClient(a) && a == addr,
        final(out)@[old(out)@.len() as int + 1] matches Outbound::Broadcast(ServerMessage::UserLeft(a)) && a == addr,
{
    let ghost before = out@;
    out.push(Outbound::RemoveClient(addr));
    out.push(Outbound::Broadcast(ServerMessage::UserLeft(addr)));
    proof {
        assert(out@.subrange(0, before.len() as int) =~= before);
    }
}

/// A client connected: the first one to arrive becomes the host player
/// and is told so; everyone else learns of the newcomer, and the newcomer
/// gets the list of users.
pub fn host_poll_client_connected(addr: u64, data: &mut ServerData, clients: &Vec<u64>, client_count: u32, out: &mut Vec<Outbound>)
    ensures
        final(data).tick == old(data).tick,
        final(data).host_player == if client_count == 1 { Some(addr) } else { old(data).host_player },
        ({
            let head: Seq<Outbound> = if client_count == 1 { seq![Outbound::Send(addr, ServerMessage::NotifyHost)] } else { Seq::empty() };
            let others = clients@.filter(|c: u64| c != addr);
            &&& final(out)@.len() == old(out)@.len() + head.len() + others.len() + 1
            &&& final(out)@.subrange(0, old(out)@.len() as int) == old(out)@
            &&& (client_count == 1 ==> (final(out)@[old(out)@.len() as int] matches Outbound::Send(to, ServerMessage::NotifyHost) && to == addr))
            &&& forall|k: int| 0 <= k < others.len() ==> (#[trigger] final(out)@[old(out)@.len() + head.len() + k] matches Outbound::Send(to, ServerMessage::NewUser(a))
                && to == others[k] && a == addr)
            &&& (final(out)@.last() matches Outbound::Send(to, ServerMessage::PlayerList(list)) && to == addr && list@ == clients@)
        }),
{
    let ghost before = out@;
    let ghost head: Seq<Outbound> = if client_count == 1 { seq![Outbound::Send(addr, ServerMessage::NotifyHost)] } else { Seq::empty() };
    if client_count == 1 {
        data.host_player = Some(addr);
        out.push(Outbound::Send(addr, ServerMessage::NotifyHost));
    }
    let ghost start = out@.len();
    assert(head.len() == (if client_count == 1 { 1int } else { 0int }));
    assert(start == before.len() + head.len());
    let mut i: usize = 0;
    while i < clients.len()
        invariant
            i <= clients@.len(),
            start == before.len() + head.len(),
            head.len() == (if client_count == 1 { 1int } else { 0int }),
            out@.len() == start + clients@.subrange(0, i as int).filter(|c: u64| c != addr).len(),
            out@.subrange(0, before.len() as int) == before,
            client_count == 1 ==> (out@[before.len() as int] matches Outbound::Send(to, ServerMessage::NotifyHost) && to == addr),
            forall|k: int| 0 <= k < clients@.subrange(0, i as int).filter(|c: u64| c != addr).len() ==> (#[trigger] out@[start + k] matches Outbound::Send(to, ServerMessage::NewUser(a))
                && to == clients@.subrange(0, i as int).filter(|c: u64| c != addr)[k] && a == addr),
        decreases clients@.len() - i,
    {
        let c = clients[i];
        let ghost pre = clients@.subrange(0, i as int);
        let ghost out_before = out@;
        proof {
            reveal(Seq::filter);
            let next = clients@.subrange(0, i + 1);
            assert(next.drop_last() =~= pre);
            assert(next.last() == c);
        }
        if c != addr {
            out.push(Outbound::Send(c, ServerMessage::NewUser(addr)));
        }
        proof {
            assert(out@.subrange(0, before.len() as int) =~= out_before.subrange(0, before.len() as int));
            if client_count == 1 {
                assert(out@[before.len() as int] == out_before[before.len() as int]);
            }
            let f = clients@.subrange(0, i + 1).filter(|c: u64| c != addr);
            assert forall|k: int| 0 <= k < f.len() implies (#[trigger] out@[start + k] matches Outbound::Send(to, ServerMessage::NewUser(a))
                && to == f[k] && a == addr) by {
                if k < pre.filter(|c: u64| c != addr).len() {
                    assert(out@[start + k] == out_before[start + k]);
                    assert(f[k] == pre.filter(|c: u64| c != addr)[k]);
                }
            }
        }
        i = i + 1;
    }
    proof {
        assert(clients@.subrange(0, clients@.len() as int) =~= clients@);
    }
    let ghost out_before = out@;
    out.push(Outbound::Send(addr, ServerMessage::PlayerList(clients.clone())));
    proof {
        assert(out@.subrange(0, before.len() as int) =~= out_before.subrange(0, before.len() as int));
        if client_count == 1 {
            assert(out@[before.len() as int] == out_before[before.len() as int]);
        }
        let others = clients@.filter(|c: u64| c != addr);
        assert forall|k: int| 0 <= k < others.len() implies (#[trigger] out@[before.len() as int + head.len() + k] matches Outbound::Send(to, ServerMessage::NewUser(a))
            && to == others[k] && a == addr) by {
            assert(out@[start + k] == out_before[start + k]);
        }
    }
}

/// The lobby: the host player picks a map or moves everyone on.
pub struct LobbyState;

/// The settings the host player can change before entering the dungeon.
pub enum DungeonSettings {
    BotAmount,
}

impl DungeonSettings {
    /// The setting numbered `value`: only 0, the number of bots, exists.
    pub fn try_from(value: u32) -> (r: Result<DungeonSettings, ()>)
        ensures
            r is Ok <==> value == 0,
    {
        if value == 0 {
            Ok(DungeonSettings::BotAmount)
        } else {
            Err(())
        }
    }
}

impl LobbyState {
    pub fn new() -> (r: Self)
        ensures
            r == LobbyState,
    {
        LobbyState
    }

    /// Handles a request in the lobby. From the host player: a map list
    /// request is answered with the one map; starting a map or entering the
    /// dungeon is announced and moves the game on to entering the dungeon,
    /// waiting for every client in `clients`. Anything else gets the common
    /// answer.
    pub fn client_req(&mut self, addr: u64, req: ClientRequest, data: &ServerData, clients: &Vec<u64>, out: &mut Vec<Outbound>) -> (r: Option<EnterDungeonState>)
        ensures
            match req {
                ClientRequest::RequestMapList if data.host_player == Some(addr) => r is None && final(out)@.len() == old(out)@.len() + 1
                    && final(out)@.subrange(0, old(out)@.len() as int) == old(out)@
                    && (final(out)@.last() matches Outbound::Send(to, ServerMessage::MapList(list)) && to == addr && list@.len() == 1 && list@[0]@ == "SimpleTestMap"@),
                ClientRequest::StartMap(m) if data.host_player == Some(addr) => final(out)@.len() == old(out)@.len() + 1
                    && final(out)@.subrange(0, old(out)@.len() as int) == old(out)@
                    && (final(out)@.last() matches Outbound::Broadcast(ServerMessage::StartMap(n)) && n@ == m@)
                    && (r matches Some(e) && e.wf() && e@.waiting_for == clients@.to_set() && e@.players == Seq::<u64>::empty() && e@.bot_amount == 0),
                ClientRequest::ChangeToEnterDungeon if data.host_player == Some(addr) => final(out)@.len() == old(out)@.len() + 1
                    && final(out)@.subrange(0, old(out)@.len() as int) == old(out)@
                    && (final(out)@.last() matches Outbound::Broadcast(ServerMessage::EnterDungeonState))
                    && (r matches Some(e) && e.wf() && e@.waiting_for == clients@.to_set() && e@.players == Seq::<u64>::empty() && e@.bot_amount == 0),
                _ => r is None && default_answer(old(out)@, final(out)@, addr, req is Ping),
            },
    {
        let is_host = match data.host_player {
            Some(h) => h == addr,
            None => false,
        };
        let ghost before = out@;
        match req {
            ClientRequest::RequestMapList if is_host => {
                let mut list: Vec<String> = Vec::new();
                list.push(String::from_str("SimpleTestMap"));
                out.push(Outbound::Send(addr, ServerMessage::MapList(list)));
                proof {
                    assert(out@.subrange(0, before.len() as int) =~= before);
                }
                None
            },
            ClientRequest::StartMap(m) if is_host => {
                out.push(Outbound::Broadcast(ServerMessage::StartMap(m)));
                proof {
                    assert(out@.subrange(0, before.len() as int) =~= before);
                }
                Some(EnterDungeonState::new(clients))
            },
            ClientRequest::ChangeToEnterDungeon if is_host => {
                out.push(Outbound::Broadcast(ServerMessage::EnterDungeonState));
                proof {
                    assert(out@.subrange(0, before.len() as int) =~= before);
                }
                Some(EnterDungeonState::new(clients))
            },
            other => {
                default_client_request(addr, &other, out);
                None
            },
        }
    }
}

/// Waiting for everyone to be ready before the dungeon opens.
pub struct EnterDungeonState {
    waiting_for: HashSet<u64>,
    players: Vec<u64>,
    bot_amount: u32,
}

/// Abstract state of entering the dungeon: who has not said ready yet, who
/// has (in the order they did), and how many bots will join.
pub struct EnterDungeonView {
    pub waiting_for: Set<u64>,
    pub players: Seq<u64>,
    pub bot_amount: u32,
}

impl View for EnterDungeonState {
    type V = EnterDungeonView;

    closed spec fn view(&self) -> EnterDungeonView {
        EnterDungeonView { waiting_for: self.waiting_for@, players: self.players@, bot_amount: self.bot_amount }
    }
}

/// Adds `x` to the set `s`.
pub(crate) fn set_insert(s: &mut HashSet<u64>, x: u64)
    ensures
        final(s)@ == old(s)@.insert(x),
{
    broadcast use vstd::std_specs::hash::group_hash_axioms;
    s.insert(x);
}

/// Removes `x` from the set `s`; says whether it was there.
pub(crate) fn set_remove(s: &mut HashSet<u64>, x: u64) -> (r: bool)
    ensures
        final(s)@ == old(s)@.remove(x),
        r == old(s)@.contains(x),
{
    broadcast use vstd::std_specs::hash::group_hash_axioms;
    s.remove(&x)
}

/// The set of the values in `v`.
pub(crate) fn set_of(v: &Vec<u64>) -> (s: HashSet<u64>)
    ensures
        s@ == v@.to_set(),
{
    let mut s: HashSet<u64> = HashSet::new();
    let mut i: usize = 0;
    while i < v.len()
        invariant
            i <= v@.len(),
            s@ == v@.subrange(0, i as int).to_set(),
        decreases v@.len() - i,
    {
        set_insert(&mut s, v[i]);
        proof {
            assert(v@.subrange(0, i + 1) =~= v@.subrange(0, i as int).push(v@[i as int]));
            v@.subrange(0, i as int).lemma_push_to_set_commute(v@[i as int]);
        }
        i = i + 1;
    }
    proof {
        assert(v@.subrange(0, v@.len() as int) =~= v@);
    }
    s
}

/// Removes `x` from a list holding each value once; says whether it was there.
pub(crate) fn list_remove(v: &mut Vec<u64>, x: u64) -> (r: bool)
    requires
        old(v)@.no_duplicates(),
    ensures
        final(v)@.no_duplicates(),
        r == old(v)@.contains(x),
        final(v)@.to_set() == old(v)@.to_set().remove(x),
        r ==> exists|i: int| 0 <= i < old(v)@.len() && old(v)@[i] == x && final(v)@ == old(v)@.remove(i),
        !r ==> final(v)@ == old(v)@,
{
    let mut i: usize = 0;
    while i < v.len()
        invariant
            i <= v@.len(),
            v@ == old(v)@,
            v@.no_duplicates(),
            forall|j: int| 0 <= j < i ==> v@[j] != x,
        decreases v@.len() - i,
    {
        if v[i] == x {
            let ghost before = v@;
            v.remove(i);
            proof {
                assert(v@ == before.remove(i as int));
                assert forall|a: int, b: int| 0 <= a < b < v@.len() implies v@[a] != v@[b] by {
                    let a2 = if a < i { a } else { a + 1 };
                    let b2 = if b < i { b } else { b + 1 };
                    assert(v@[a] == before[a2] && v@[b] == before[b2]);
                }
                assert forall|y: u64| v@.to_set().contains(y) <==> before.to_set().remove(x).contains(y) by {
                    if v@.contains(y) {
                        let k = choose|k: int| 0 <= k < v@.len() && v@[k] == y;
                        if k < i {
                            assert(before[k] == y);
                        } else {
                            assert(before[k + 1] == y);
                        }
                    }
                    if before.contains(y) && y != x {
                        let k = choose|k: int| 0 <= k < before.len() && before[k] == y;
                        if k < i {
                            assert(v@[k] == y);
                        } else {
                            assert(v@[k - 1] == y);
                        }
                    }
                }
                assert(v@.to_set() =~= before.to_set().remove(x));
            }
            return true;
        }
        i = i + 1;
    }
    proof {
        assert(!v@.contains(x));
        assert(v@.to_set() =~= v@.to_set().remove(x));
    }
    false
}

/// Adds `x` to a list holding each value once, at the end, unless it is there.
pub(crate) fn list_insert(v: &mut Vec<u64>, x: u64)
    requires
        old(v)@.no_duplicates(),
    ensures
        final(v)@.no_duplicates(),
        final(v)@.to_set() == old(v)@.to_set().insert(x),
        old(v)@.contains(x) ==> final(v)@ == old(v)@,
        !old(v)@.contains(x) ==> final(v)@ == old(v)@.push(x),
{
    let mut i: usize = 0;
    while i < v.len()
        invariant
            i <= v@.len(),
            v@ == old(v)@,
            v@.no_duplicates(),
            forall|j: int| 0 <= j < i ==> v@[j] != x,
        decreases v@.len() - i,
    {
        if v[i] == x {
            proof {
                assert(v@.contains(x));
                assert(v@.to_set() =~= v@.to_set().insert(x));
            }
            return;
        }
        i = i + 1;
    }
    let ghost before = v@;
    v.push(x);
    proof {
        assert(!before.contains(x));
        assert forall|a: int, b: int| 0 <= a < b < v@.len() implies v@[a] != v@[b] by {
            if b == before.len() {
                assert(v@[a] == before[a]);
            } else {
                assert(v@[a] == before[a] && v@[b] == before[b]);
            }
        }
        assert(v@.to_set() =~= before.to_set().insert(x)) by {
            assert forall|y: u64| v@.contains(y) <==> before.to_set().insert(x).contains(y) by {
                if v@.contains(y) {
                    let k = choose|k: int| 0 <= k < v@.len() && v@[k] == y;
                    if k < before.len() {
                        assert(before[k] == y);
                    }
                }
                if before.contains(y) {
                    let k = choose|k: int| 0 <= k < before.len() && before[k] == y;
                    assert(v@[k] == y);
                }
                if y == x {
                    assert(v@[before.len() as int] == x);
                }
            }
        }
    }
}

impl EnterDungeonState {
    /// The ready list holds a client once.
    pub closed spec fn wf(&self) -> bool {
        self.players@.no_duplicates()
    }

    /// Waiting for every client in `waiting_for`, with no one ready and no bots.
    pub fn new(waiting_for: &Vec<u64>) -> (r: Self)
        ensures
            r.wf(),
            r@.waiting_for == waiting_for@.to_set(),
            r@.players == Seq::<u64>::empty(),
            r@.bot_amount == 0,
    {
        let w = set_of(waiting_for);
        let r = EnterDungeonState { waiting_for: w, players: Vec::new(), bot_amount: 0 };
        proof {
            assert(r.players@.no_duplicates());
        }
        r
    }
}

/// Saying ready and then not ready undoes itself: a client that was awaited
/// and not yet ready is awaited again, and the ready ones are as before.
pub proof fn lemma_ready_then_unready(waiting: Set<u64>, ready: Set<u64>, addr: u64)
    requires
        waiting.contains(addr),
        !ready.contains(addr),
    ensures
        waiting.remove(addr).insert(addr) == waiting,
        ready.insert(addr).remove(addr) == ready,
{
    assert(waiting.remove(addr).insert(addr) =~= waiting);
    assert(ready.insert(addr).remove(addr) =~= ready);
}

/// Every cell of layer 1 where an actor may spawn, in order of `x`, then `z`.
pub fn spawn_spots(gs: &GameStartedState) -> (r: Vec<Vec3>)
    requires
        gs.map.inv(),
    ensures
        forall|i: int| 0 <= i < r@.len() ==> (#[trigger] r@[i]).y == 1 && can_spawn_at(gs.map@, r@[i]),
        forall|p: Vec3| p.y == 1 && #[trigger] can_spawn_at(gs.map@, p) ==> r@.contains(p),
{
    proof {
        gs.map.lemma_view_wf();
    }
    let size = gs.map.get_size();
    let mut r: Vec<Vec3> = Vec::new();
    let mut x: i64 = 0;
    while x < size.x
        invariant
            gs.map.inv(),
            gs.map@.wf(),
            size == gs.map@.size,
            0 <= x <= size.x || (size.x < 0 && x == 0),
            forall|i: int| 0 <= i < r@.len() ==> (#[trigger] r@[i]).y == 1 && can_spawn_at(gs.map@, r@[i]),
            forall|p: Vec3| p.y == 1 && p.x < x && #[trigger] can_spawn_at(gs.map@, p) ==> r@.contains(p),
        decreases size.x - x,
    {
        let mut z: i64 = 0;
        while z < size.z
            invariant
                gs.map.inv(),
                gs.map@.wf(),
                size == gs.map@.size,
                0 <= x < size.x,
                0 <= z <= size.z || (size.z < 0 && z == 0),
                forall|i: int| 0 <= i < r@.len() ==> (#[trigger] r@[i]).y == 1 && can_spawn_at(gs.map@, r@[i]),
                forall|p: Vec3| p.y == 1 && (p.x < x || (p.x == x && p.z < z)) && #[trigger] can_spawn_at(gs.map@, p) ==> r@.contains(p),
            decreases size.z - z,
        {
            let p = Vec3::new(x, 1, z);
            let ghost before = r@;
            let here = match gs.map.get(p) {
                Some(Piece::Empty) => match gs.map.get(Vec3::new(x, 0, z)) {
                    Some(Piece::Ground) => true,
                    _ => false,
                },
                _ => false,
            };
            if here {
                r.push(p);
                proof {
                    assert(r@[r@.len() - 1] == p);
                }
            }
            proof {
                assert(here == can_spawn_at(gs.map@, p));
                assert forall|q: Vec3| q.y == 1 && (q.x < x || (q.x == x && q.z < z + 1)) && #[trigger] can_spawn_at(gs.map@, q) implies r@.contains(q) by {
                    if q == p {
                        assert(r@[r@.len() - 1] == p);
                    } else {
                        let k = choose|k: int| 0 <= k < before.len() && before[k] == q;
                        assert(r@[k] == q);
                    }
                }
            }
            z = z + 1;
        }
        proof {
            assert forall|q: Vec3| q.y == 1 && q.x < x + 1 && #[trigger] can_spawn_at(gs.map@, q) implies r@.contains(q) by {
                if q.x == x {
                    assert(gs.map@.alive.dom().contains(q));
                    assert(q.z < size.z);
                }
            }
        }
        x = x + 1;
    }
    proof {
        assert forall|q: Vec3| q.y == 1 && #[trigger] can_spawn_at(gs.map@, q) implies r@.contains(q) by {
            assert(gs.map@.alive.dom().contains(q));
            assert(q.x < size.x);
        }
    }
    r
}

/// The name `prefix` followed by the number `n`.
pub(crate) fn numbered(prefix: &str, n: u64) -> (r: String)
    ensures
        r@ == prefix@ + decimal(n as nat),
{
    let mut r = prefix.to_owned();
    push_decimal(&mut r, n);
    r
}

/// Actor `i` of a game opened for the ready `players`: first one per
/// player, in their order, named "Player 0", "Player 1", ... with 10
/// health; then the bots, named "Bot 0", "Bot 1", ... with 15.
pub open spec fn started_actor(a: Actor, i: int, players: Seq<u64>) -> bool {
    if i < players.len() {
        a.controller == Controller::Player(players[i]) && a.health == 10 && a.name@ == "Player "@ + decimal(i as nat)
    } else {
        a.controller == Controller::Bot && a.health == 15 && a.name@ == "Bot "@ + decimal((i - players.len()) as nat)
    }
}

/// `a` stands on layer 1 of `m`, over ground.
pub open spec fn stands_on_floor(m: MapView, a: Actor) -> bool {
    a.position.y == 1 && m.get(Vec3 { x: a.position.x, y: 0, z: a.position.z }) == Some(Piece::Ground)
}

/// No cell of layer 1 is free to spawn on.
pub open spec fn no_spawn_spot(m: MapView) -> bool {
    forall|p: Vec3| p.y == 1 ==> !#[trigger] can_spawn_at(m, p)
}

/// The outbound entry for actor `i` and client `k` in blocks of `n`
/// entries per actor starting at `start`.
pub open spec fn notice_at(out: Seq<Outbound>, start: int, n: int, i: int, k: int) -> Outbound {
    out[start + i * n + k]
}

/// From `start` on, `out` tells every client in `clients` of each actor in
/// `actors` in turn: one block per actor, one notice per client.
pub open spec fn spawn_notices(out: Seq<Outbound>, start: int, clients: Seq<u64>, actors: Seq<Actor>) -> bool {
    forall|i: int, k: int| 0 <= i < actors.len() && 0 <= k < clients.len() ==> is_spawn_notice(
        #[trigger] notice_at(out, start, clients.len() as int, i, k),
        clients[k],
        actors[i],
        i as usize,
    )
}

/// A notice block lies before the end of the blocks.
proof fn lemma_block_bound(i: int, k: int, n: int, count: int)
    requires
        0 <= i < count,
        0 <= k < n,
    ensures
        0 <= i * n + k < count * n,
{
    assert(0 <= i * n) by (nonlinear_arith)
        requires
            0 <= i,
            0 <= n,
    ;
    assert((i + 1) * n <= count * n) by (nonlinear_arith)
        requires
            i + 1 <= count,
            0 <= n,
    ;
    assert((i + 1) * n == i * n + n) by (nonlinear_arith);
}

/// Growing `out` keeps its notices.
proof fn lemma_notices_prefix(o: Seq<Outbound>, o2: Seq<Outbound>, start: int, clients: Seq<u64>, actors: Seq<Actor>)
    requires
        spawn_notices(o, start, clients, actors),
        0 <= start,
        o.len() >= start + actors.len() * clients.len(),
        o2.len() >= o.len(),
        forall|j: int| 0 <= j < o.len() ==> o2[j] == o[j],
    ensures
        spawn_notices(o2, start, clients, actors),
{
    assert forall|i: int, k: int| 0 <= i < actors.len() && 0 <= k < clients.len() implies is_spawn_notice(
        #[trigger] notice_at(o2, start, clients.len() as int, i, k),
        clients[k],
        actors[i],
        i as usize,
    ) by {
        lemma_block_bound(i, k, clients.len() as int, actors.len() as int);
        assert(notice_at(o2, start, clients.len() as int, i, k) == notice_at(o, start, clients.len() as int, i, k));
    }
}

/// Spawning `actor` as the next actor appends its block of notices.
proof fn lemma_spawn_block(o: Seq<Outbound>, o2: Seq<Outbound>, start: int, clients: Seq<u64>, actors: Seq<Actor>, actor: Actor)
    requires
        spawn_notices(o, start, clients, actors),
        0 <= start,
        o.len() == start + actors.len() * clients.len(),
        o2.len() == o.len() + clients.len(),
        forall|j: int| 0 <= j < o.len() ==> o2[j] == o[j],
        forall|k: int| 0 <= k < clients.len() ==> is_spawn_notice(#[trigger] o2[o.len() + k], clients[k], actor, actors.len() as usize),
    ensures
        spawn_notices(o2, start, clients, actors.push(actor)),
        o2.len() == start + actors.push(actor).len() * clients.len(),
{
    let n = clients.len() as int;
    let c = actors.len() as int;
    assert((c + 1) * n == c * n + n) by (nonlinear_arith);
    assert forall|i: int, k: int| 0 <= i < actors.push(actor).len() && 0 <= k < clients.len() implies is_spawn_notice(
        #[trigger] notice_at(o2, start, clients.len() as int, i, k),
        clients[k],
        actors.push(actor)[i],
        i as usize,
    ) by {
        if i < c {
            lemma_block_bound(i, k, n, c);
            assert(notice_at(o2, start, n, i, k) == notice_at(o, start, n, i, k));
        } else {
            assert(i * n == c * n);
            assert(notice_at(o2, start, n, i, k) == o2[o.len() + k]);
        }
    }
}

/// `g` is the game opened for the ready `players` and `bots` bots, with
/// `clients` connected, and `after` is `before` followed by what opening
/// it sends: everyone is told the dungeon opens, the server sleeps a
/// second, the map's ground is sent, the actors are spawned (one per
/// player, then the bots, as long as a free spot on layer 1 is left), the
/// first turn is announced to every client, and the actors' names are sent.
pub open spec fn game_start(players: Seq<u64>, bots: u32, clients: Seq<u64>, g: GameStartedState, before: Seq<Outbound>, after: Seq<Outbound>) -> bool {
    &&& g.wf()
    &&& g.map@.size == (Vec3 { x: 80, y: 40, z: 80 })
    &&& g.actors@.len() <= players.len() + bots
    &&& (g.actors@.len() == players.len() + bots || no_spawn_spot(g.map@))
    &&& forall|i: int| 0 <= i < g.actors@.len() ==> #[trigger] started_actor(g.actors@[i], i, players)
    &&& forall|i: int| 0 <= i < g.actors@.len() ==> #[trigger] stands_on_floor(g.map@, g.actors@[i])
    &&& !g.waiting
    &&& (next_alive(g.actors@, 0) matches Some(i) ==> g.actor_pointer == i && g.current_turn == Some(g.actors@[i].controller)
        && after.len() >= before.len() + 4 + clients.len()
        && forall|k: int| 0 <= k < clients.len() ==> is_turn_notice(
            #[trigger] after[after.len() - 1 - clients.len() + k],
            clients[k],
            g.actors@[i],
            i as usize,
        ))
    &&& (next_alive(g.actors@, 0) is None ==> g.current_turn is None)
    &&& after.len() >= before.len() + 4
    &&& after.subrange(0, before.len() as int) == before
    &&& after[before.len() as int] matches Outbound::Broadcast(ServerMessage::EnterClearRoomState)
    &&& after[before.len() as int + 1] matches Outbound::Sleep(ms) && ms == 1000
    &&& after[before.len() as int + 2] matches Outbound::Broadcast(ServerMessage::SpawnMap { x, y, z }) && lists_ground(g.map@, x@, y@, z@)
    &&& spawn_notices(after, before.len() as int + 3, clients, g.actors@)
    &&& after.len() == before.len() + 4 + g.actors@.len() * clients.len() + if next_alive(g.actors@, 0) is Some {
        clients.len() as int
    } else {
        0
    }
    &&& after.last() matches Outbound::Broadcast(ServerMessage::ActorList { names }) && names@.len() == g.actors@.len()
        && forall|i: int| 0 <= i < names@.len() ==> (#[trigger] names@[i])@ == g.actors@[i].name@
}

impl EnterDungeonState {
    /// Opens the dungeon: everyone is told, the server waits a second,
    /// builds an 80 by 40 by 80 map with up to three rooms on layer 0 and
    /// sends it, spawns each ready player and then the bots at random free
    /// spots on layer 1 (stopping once no spot is left), hands the first
    /// turn out, and sends the list of actors.
    pub fn start_game(&self, clients: &Vec<u64>, catalog: &Vec<(u64, bool)>, out: &mut Vec<Outbound>) -> (r: GameStartedState)
        requires
            self.wf(),
        ensures
            game_start(self@.players, self@.bot_amount, clients@, r, old(out)@, final(out)@),
    {
        let ghost before = out@;
        let ghost players = self@.players;
        out.push(Outbound::Broadcast(ServerMessage::EnterClearRoomState));
        out.push(Outbound::Sleep(1000));
        let ghost head = out@;
        let mut map = VoxelMap::new(Vec3::new(80, 40, 80));
        map.gen_sparse_floor(0, 3);
        proof {
            map.lemma_view_wf();
        }
        let mut gs = GameStartedState::with_map(map);
        let (xs, ys, zs) = gs.map.get_ground_data();
        let ghost m0 = gs.map@;
        let ghost (gx, gy, gz) = (xs@, ys@, zs@);
        out.push(Outbound::Broadcast(ServerMessage::SpawnMap { x: xs, y: ys, z: zs }));
        let ghost head2 = out@;
        proof {
            assert(out@.subrange(0, head.len() as int) =~= head);
        }
        let mut id: usize = 0;
        while id < self.players.len()
            invariant
                gs.wf(),
                self.wf(),
                players == self@.players,
                id <= players.len(),
                gs.map@.size == (Vec3 { x: 80, y: 40, z: 80 }),
                gs.actors@.len() <= id,
                gs.actors@.len() == id || no_spawn_spot(gs.map@),
                forall|i: int| 0 <= i < gs.actors@.len() ==> #[trigger] started_actor(gs.actors@[i], i, players),
                forall|i: int| 0 <= i < gs.actors@.len() ==> #[trigger] stands_on_floor(m0, gs.actors@[i]),
                gs.actor_pointer == 0,
                gs.current_turn is None,
                !gs.waiting,
                out@.len() == head2.len() + gs.actors@.len() * clients@.len(),
                spawn_notices(out@, head2.len() as int, clients@, gs.actors@),
                out@.subrange(0, head2.len() as int) == head2,
                head2.subrange(0, head.len() as int) == head,
                head2.len() == head.len() + 1,
                lists_ground(m0, gx, gy, gz),
                gs.map@.size == m0.size,
                forall|p: Vec3| (#[trigger] gs.map@.get(p) == Some(Piece::Ground)) == (m0.get(p) == Some(Piece::Ground)),
            decreases players.len() - id,
        {
            let spots = spawn_spots(&gs);
            if spots.len() > 0 {
                let pos = spots[random_below(spots.len() as u64) as usize];
                let addr = self.players[id];
                let actor = Actor {
                    name: numbered("Player ", id as u64),
                    controller: Controller::Player(addr),
                    position: pos,
                    abilities: Abilities::default(),
                    health: 10,
                    base_movement: 0xffff_ffff,
                    resources: TurnResources::default(),
                    cards: CardHolder::test_data(catalog),
                };
                let ghost o = out@;
                let ghost mb = gs.map@;
                let ghost ab = gs.actors@;
                proof {
                    if gs.actors@.len() != id {
                        assert(!can_spawn_at(mb, pos));
                    }
                }
                let ghost sa = actor;
                let placed = gs.spawn_actor(clients, actor, out);
                proof {
                    assert(placed);
                    assert(out@.len() >= 0);
                    lemma_spawn_block(o, out@, head2.len() as int, clients@, ab, sa);
                    assert(gs.actors@ == ab.push(sa));
                    assert(gs.actors@.len() == id + 1);
                    assert forall|i: int| 0 <= i < gs.actors@.len() implies #[trigger] started_actor(gs.actors@[i], i, players)
                        && stands_on_floor(m0, gs.actors@[i]) by {
                        if i < ab.len() {
                            assert(gs.actors@[i] == ab[i]);
                        } else {
                            assert(mb.get(Vec3 { x: pos.x, y: (pos.y - 1) as i64, z: pos.z }) == Some(Piece::Ground));
                            assert(m0.get(Vec3 { x: pos.x, y: 0, z: pos.z }) == Some(Piece::Ground));
                        }
                    }
                    assert forall|p: Vec3| (#[trigger] gs.map@.get(p) == Some(Piece::Ground)) == (mb.get(p) == Some(Piece::Ground)) by {
                        if p == pos {
                            assert(mb.get(pos) == Some(Piece::Empty));
                        }
                    }
                    assert(out@.subrange(0, head2.len() as int) =~= o.subrange(0, head2.len() as int));
                }
            } else {
                proof {
                    assert forall|p: Vec3| p.y == 1 implies !#[trigger] can_spawn_at(gs.map@, p) by {
                        if can_spawn_at(gs.map@, p) {
                            assert(spots@.contains(p));
                        }
                    }
                }
            }
            id = id + 1;
        }
        let mut i: u32 = 0;
        while i < self.bot_amount
            invariant
                gs.wf(),
                players == self@.players,
                i <= self.bot_amount,
                gs.map@.size == (Vec3 { x: 80, y: 40, z: 80 }),
                gs.actors@.len() <= players.len() + i,
                gs.actors@.len() == players.len() + i || no_spawn_spot(gs.map@),
                forall|k: int| 0 <= k < gs.actors@.len() ==> #[trigger] started_actor(gs.actors@[k], k, players),
                forall|k: int| 0 <= k < gs.actors@.len() ==> #[trigger] stands_on_floor(m0, gs.actors@[k]),
                gs.actor_pointer == 0,
                gs.current_turn is None,
                !gs.waiting,
                out@.len() == head2.len() + gs.actors@.len() * clients@.len(),
                spawn_notices(out@, head2.len() as int, clients@, gs.actors@),
                out@.subrange(0, head2.len() as int) == head2,
                head2.subrange(0, head.len() as int) == head,
                head2.len() == head.len() + 1,
                lists_ground(m0, gx, gy, gz),
                gs.map@.size == m0.size,
                forall|p: Vec3| (#[trigger] gs.map@.get(p) == Some(Piece::Ground)) == (m0.get(p) == Some(Piece::Ground)),
            ensures
                gs.wf(),
                gs.map@.size == (Vec3 { x: 80, y: 40, z: 80 }),
                gs.actors@.len() <= players.len() + self.bot_amount,
                gs.actors@.len() == players.len() + self.bot_amount || no_spawn_spot(gs.map@),
                forall|k: int| 0 <= k < gs.actors@.len() ==> #[trigger] started_actor(gs.actors@[k], k, players),
                forall|k: int| 0 <= k < gs.actors@.len() ==> #[trigger] stands_on_floor(m0, gs.actors@[k]),
                gs.actor_pointer == 0,
                gs.current_turn is None,
                !gs.waiting,
                out@.len() == head2.len() + gs.actors@.len() * clients@.len(),
                spawn_notices(out@, head2.len() as int, clients@, gs.actors@),
                out@.subrange(0, head2.len() as int) == head2,
                lists_ground(m0, gx, gy, gz),
                gs.map@.size == m0.size,
                forall|p: Vec3| (#[trigger] gs.map@.get(p) == Some(Piece::Ground)) == (m0.get(p) == Some(Piece::Ground)),
            decreases self.bot_amount - i,
        {
            let spots = spawn_spots(&gs);
            if spots.len() == 0 {
                proof {
                    assert forall|p: Vec3| p.y == 1 implies !#[trigger] can_spawn_at(gs.map@, p) by {
                        if can_spawn_at(gs.map@, p) {
                            assert(spots@.contains(p));
                        }
                    }
                }
                break;
            }
            let pos = spots[random_below(spots.len() as u64) as usize];
            let mut actor = Actor {
                name: numbered("Bot ", i as u64),
                controller: Controller::Bot,
                position: pos,
                health: 15,
                base_movement: 10 + random_below(10) as u32,
                abilities: Abilities::default(),
                resources: TurnResources::default(),
                cards: CardHolder::default(),
            };
            actor.reset_turn_resources();
            let ghost o = out@;
            let ghost mb = gs.map@;
            let ghost ab = gs.actors@;
            proof {
                if gs.actors@.len() != players.len() + i {
                    assert(!can_spawn_at(mb, pos));
                }
            }
            let ghost sa = actor;
            let placed = gs.spawn_actor(clients, actor, out);
            proof {
                assert(placed);
                lemma_spawn_block(o, out@, head2.len() as int, clients@, ab, sa);
                assert(gs.actors@ == ab.push(sa));
                assert forall|k: int| 0 <= k < gs.actors@.len() implies #[trigger] started_actor(gs.actors@[k], k, players)
                    && stands_on_floor(m0, gs.actors@[k]) by {
                    if k < ab.len() {
                        assert(gs.actors@[k] == ab[k]);
                    } else {
                        assert(mb.get(Vec3 { x: pos.x, y: (pos.y - 1) as i64, z: pos.z }) == Some(Piece::Ground));
                        assert(m0.get(Vec3 { x: pos.x, y: 0, z: pos.z }) == Some(Piece::Ground));
                    }
                }
                assert forall|p: Vec3| (#[trigger] gs.map@.get(p) == Some(Piece::Ground)) == (mb.get(p) == Some(Piece::Ground)) by {
                    if p == pos {
                        assert(mb.get(pos) == Some(Piece::Empty));
                    }
                }
                assert(out@.subrange(0, head2.len() as int) =~= o.subrange(0, head2.len() as int));
            }
            i = i + 1;
        }
        let ghost o = out@;
        gs.next_actor(clients, out);
        let mut names: Vec<String> = Vec::new();
        let mut k: usize = 0;
        while k < gs.actors.len()
            invariant
                k <= gs.actors@.len(),
                names@.len() == k,
                forall|j: int| 0 <= j < k ==> (#[trigger] names@[j])@ == gs.actors@[j].name@,
            decreases gs.actors@.len() - k,
        {
            names.push(gs.actors[k].name.clone());
            k = k + 1;
        }
        let ghost o2 = out@;
        out.push(Outbound::Broadcast(ServerMessage::ActorList { names }));
        proof {
            assert(out@.subrange(0, head2.len() as int) =~= head2) by {
                assert forall|j: int| 0 <= j < head2.len() implies out@[j] == head2[j] by {
                    assert(o.subrange(0, head2.len() as int)[j] == o[j]);
                }
            }
            assert(out@[before.len() as int + 2] == head2[before.len() as int + 2]);
            assert(lists_ground(gs.map@, gx, gy, gz)) by {
                assert forall|p: Vec3| #[trigger] gs.map@.get(p) == Some(Piece::Ground) implies exists|j: int|
                    0 <= j < gx.len() && #[trigger] pos_at(gx, gy, gz, j) == p by {
                    assert(m0.get(p) == Some(Piece::Ground));
                }
                assert forall|j: int| 0 <= j < gx.len() implies gs.map@.get(#[trigger] pos_at(gx, gy, gz, j)) == Some(Piece::Ground) by {
                    assert(m0.get(pos_at(gx, gy, gz, j)) == Some(Piece::Ground));
                }
            }
            assert(out@.subrange(0, head.len() as int) =~= head);
            assert(head.subrange(0, before.len() as int) =~= before);
            assert(out@.subrange(0, before.len() as int) =~= before);
            assert(out@[before.len() as int] == head[before.len() as int]);
            assert(out@[before.len() as int + 1] == head[before.len() as int + 1]);
            assert forall|i: int| 0 <= i < gs.actors@.len() implies #[trigger] stands_on_floor(gs.map@, gs.actors@[i]) by {
                let a = gs.actors@[i];
                assert(stands_on_floor(m0, a));
                assert(m0.get(Vec3 { x: a.position.x, y: 0, z: a.position.z }) == Some(Piece::Ground));
            }
            lemma_notices_prefix(o, out@, head2.len() as int, clients@, gs.actors@);
            if let Some(t) = next_alive(gs.actors@, 0) {
                assert forall|c: int| 0 <= c < clients@.len() implies is_turn_notice(
                    #[trigger] out@[out@.len() - 1 - clients@.len() + c],
                    clients@[c],
                    gs.actors@[t],
                    t as usize,
                ) by {
                    assert(out@[out@.len() - 1 - clients@.len() + c] == o2[o.len() + c]);
                }
            }
        }
        gs
    }
}

impl EnterDungeonState {
    /// Handles a request while entering the dungeon. The host player may
    /// set the number of bots (setting 0; everyone is told the change, other
    /// settings are ignored). A client saying it is ready (or not) is
    /// announced to everyone and moves between the waiting and the ready;
    /// when no one is left waiting the dungeon opens and the first room is
    /// to be cleared: the running game begins.
    /// Anything else gets the common answer.
    pub fn client_req(&mut self, addr: u64, req: ClientRequest, data: &ServerData, clients: &Vec<u64>, catalog: &Vec<(u64, bool)>, out: &mut Vec<Outbound>) -> (r: Option<GameStartedState>)
        requires
            old(self).wf(),
        ensures
            final(self).wf(),
            match req {
                ClientRequest::ChangeDungeonSetting(setting, value) if data.host_player == Some(addr) => {
                    &&& r is None
                    &&& final(self)@.waiting_for == old(self)@.waiting_for
                    &&& final(self)@.players == old(self)@.players
                    &&& if setting == 0 {
                        &&& final(self)@.bot_amount == value
                        &&& final(out)@.len() == old(out)@.len() + 1
                        &&& final(out)@.subrange(0, old(out)@.len() as int) == old(out)@
                        &&& (final(out)@.last() matches Outbound::Broadcast(ServerMessage::ServerNotice(t))
                            && t@ == "Bot amount: "@ + decimal(old(self)@.bot_amount as nat) + " -> "@ + decimal(value as nat))
                    } else {
                        final(self)@.bot_amount == old(self)@.bot_amount && final(out)@ == old(out)@
                    }
                },
                ClientRequest::NotifyReady(ready) => {
                    &&& final(out)@.len() >= old(out)@.len() + 1
                    &&& final(out)@.subrange(0, old(out)@.len() as int) == old(out)@
                    &&& (final(out)@[old(out)@.len() as int] matches Outbound::Broadcast(ServerMessage::ReadyStatus(a, rd)) && a == addr && rd == ready)
                    &&& final(self)@.bot_amount == old(self)@.bot_amount
                    &&& if ready == 0 {
                        &&& r is None
                        &&& final(self)@.waiting_for == old(self)@.waiting_for.insert(addr)
                        &&& final(self)@.players.to_set() == old(self)@.players.to_set().remove(addr)
                        &&& final(out)@.len() == old(out)@.len() + 1
                    } else {
                        &&& final(self)@.waiting_for == old(self)@.waiting_for.remove(addr)
                        &&& (old(self)@.waiting_for.contains(addr) ==> final(self)@.players.to_set() == old(self)@.players.to_set().insert(addr))
                        &&& (!old(self)@.waiting_for.contains(addr) ==> final(self)@.players == old(self)@.players)
                        &&& (r is Some <==> final(self)@.waiting_for.is_empty())
                        &&& (r is None ==> final(out)@ == old(out)@.push(Outbound::Broadcast(ServerMessage::ReadyStatus(addr, ready))))
                        &&& (r matches Some(g) ==> game_start(
                            final(self)@.players,
                            final(self)@.bot_amount,
                            clients@,
                            g,
                            old(out)@.push(Outbound::Broadcast(ServerMessage::ReadyStatus(addr, ready))),
                            final(out)@,
                        ))
                    }
                },
                _ => r is None && final(self)@ == old(self)@ && default_answer(old(out)@, final(out)@, addr, req is Ping),
            },
    {
        let is_host = match data.host_player {
            Some(h) => h == addr,
            None => false,
        };
        let ghost before = out@;
        match req {
            ClientRequest::ChangeDungeonSetting(setting, value) if is_host => {
                match DungeonSettings::try_from(setting) {
                    Ok(DungeonSettings::BotAmount) => {
                        let mut text = numbered("Bot amount: ", self.bot_amount as u64);
                        text.append(" -> ");
                        push_decimal(&mut text, value as u64);
                        proof {
                            reveal_strlit(" -> ");
                        }
                        out.push(Outbound::Broadcast(ServerMessage::ServerNotice(text)));
                        proof {
                            assert(out@.subrange(0, before.len() as int) =~= before);
                        }
                        self.bot_amount = value;
                    },
                    Err(_) => {},
                }
                None
            },
            ClientRequest::NotifyReady(ready) => {
                out.push(Outbound::Broadcast(ServerMessage::ReadyStatus(addr, ready)));
                let ghost mid = out@;
                if ready == 0 {
                    list_remove(&mut self.players, addr);
                    set_insert(&mut self.waiting_for, addr);
                    proof {
                        assert(out@.subrange(0, before.len() as int) =~= before);
                    }
                    None
                } else {
                    if set_remove(&mut self.waiting_for, addr) {
                        list_insert(&mut self.players, addr);
                    }
                    if self.waiting_for.is_empty() {
                        let g = self.start_game(clients, catalog, out);
                        proof {
                            assert(self@.waiting_for =~= Set::<u64>::empty());
                            assert(out@.subrange(0, mid.len() as int) == mid);
                            assert(out@.subrange(0, before.len() as int) =~= mid.subrange(0, before.len() as int));
                            assert(out@[before.len() as int] == mid[before.len() as int]);
                        }
                        Some(g)
                    } else {
                        proof {
                            assert(out@.subrange(0, before.len() as int) =~= before);
                            assert(out@ == before.push(Outbound::Broadcast(ServerMessage::ReadyStatus(addr, ready))));
                        }
                        None
                    }
                }
            },
            other => {
                default_client_request(addr, &other, out);
                None
            },
        }
    }
}

/// The requests, each to be fed back as a bot's.
pub open spec fn mocks(reqs: Seq<ClientRequest>) -> Seq<Outbound> {
    reqs.map_values(|q: ClientRequest| Outbound::Mock(q))
}

/// The game is over.
pub struct FinishState {}

/// The state the server is in.
pub enum State {
    Lobby(LobbyState),
    EnterDungeon(EnterDungeonState),
    GameStarted(GameStartedState),
    Finish(FinishState),
}

impl GameStartedState {
    /// On a tick, a bot whose turn it is (and who is not waiting on an
    /// action) decides what to do; its requests are fed back as a bot's.
    pub fn host_poll_tick(&self, out: &mut Vec<Outbound>)
        requires
            self.wf(),
        ensures
            (self.actor_pointer < self.actors@.len() && self.actors@[self.actor_pointer as int].controller == Controller::Bot && !self.waiting) ==> {
                exists|reqs: Seq<ClientRequest>| bot_plan(self.actors@[self.actor_pointer as int], *self, reqs)
                    && final(out)@ == old(out)@ + #[trigger] mocks(reqs)
            },
            !(self.actor_pointer < self.actors@.len() && self.actors@[self.actor_pointer as int].controller == Controller::Bot && !self.waiting) ==> final(out)@ == old(out)@,
    {
        if self.actor_pointer < self.actors.len() && self.actors[self.actor_pointer].controller == Controller::Bot && !self.waiting {
            let ghost before = out@;
            let reqs = self.actors[self.actor_pointer].bot_act(self);
            let ghost rs = reqs@;
            let mut reqs = reqs;
            let ghost mut taken: Seq<ClientRequest> = Seq::empty();
            while reqs.len() > 0
                invariant
                    rs == taken + reqs@,
                    out@ == before + taken.map_values(|q: ClientRequest| Outbound::Mock(q)),
                decreases reqs@.len(),
            {
                let q = reqs.remove(0);
                proof {
                    taken = taken.push(q);
                }
                out.push(Outbound::Mock(q));
                proof {
                    assert(rs =~= taken + reqs@);
                    assert(out@ =~= before + taken.map_values(|q: ClientRequest| Outbound::Mock(q)));
                }
            }
            proof {
                assert(taken =~= rs);
                assert(out@ == before + mocks(rs));
            }
        }
    }
}

/// A state the server can be in: the game's invariant holds while it runs,
/// and entering the dungeon keeps each client once per list.
pub open spec fn state_wf(s: State) -> bool {
    match s {
        State::GameStarted(g) => g.wf(),
        State::EnterDungeon(e) => e.wf(),
        _ => true,
    }
}

/// A request to the running game can be carried out without a fault.
pub open spec fn poll_fits(s: State, poll: HostPoll) -> bool {
    match s {
        State::GameStarted(g) => poll matches HostPoll::ClientRequest { addr, req } ==> fits_request(g, addr, req),
        _ => true,
    }
}

/// Which state the server can move to from `s`: the lobby leads to
/// entering the dungeon, that to the game, and the game and its end stay.
pub open spec fn may_follow(s: State, next: State) -> bool {
    match s {
        State::Lobby(_) => next is Lobby || next is EnterDungeon,
        State::EnterDungeon(_) => next is EnterDungeon || next is GameStarted,
        State::GameStarted(_) => next is GameStarted,
        State::Finish(_) => next is Finish,
    }
}

/// Handles one poll of the host in state `state` and returns the state
/// the server is in next: connections and departures are handled alike in
/// every state, ticks drive the bots while the game runs (and the status
/// report otherwise), and requests go to the state's own handling.
/// `clients` and `client_count` are what the host reports after the poll;
/// `catalog` lists the cards (id, whether it has a unique id) for decks.
pub fn handle_req(state: State, poll: HostPoll, data: &mut ServerData, clients: &Vec<u64>, client_count: u32, catalog: &Vec<(u64, bool)>, out: &mut Vec<Outbound>) -> (next: State)
    requires
        state_wf(state),
        poll_fits(state, poll),
    ensures
        state_wf(next),
        may_follow(state, next),
        poll is Nothing ==> next == state && final(out)@ == old(out)@ && *final(data) == *old(data),
        (poll matches HostPoll::RemoveClient(a) ==> next == state && *final(data) == *old(data) && final(out)@ == old(out)@ + seq![
            Outbound::RemoveClient(a),
            Outbound::Broadcast(ServerMessage::UserLeft(a)),
        ]),
        (poll matches HostPoll::ClientConnected(a) ==> next == state && final(data).host_player == if client_count == 1 { Some(a) } else { old(data).host_player }),
        (poll is Tick && !(state is GameStarted)) ==> next == state && final(data).tick == if old(data).tick == usize::MAX { 0 } else { (old(data).tick + 1) as usize },
        (poll is Tick && state is GameStarted) ==> next == state && *final(data) == *old(data),
        (poll matches HostPoll::ClientRequest { addr, req } ==> (req is Ping ==> (*final(data) == *old(data)
            && default_answer(old(out)@, final(out)@, addr, true)))),
{
    match poll {
        HostPoll::Nothing => state,
        HostPoll::RemoveClient(a) => {
            let ghost before = out@;
            host_poll_remove_client(a, out);
            proof {
                assert(out@ =~= before + seq![Outbound::RemoveClient(a), Outbound::Broadcast(ServerMessage::UserLeft(a))]);
            }
            state
        },
        HostPoll::ClientConnected(a) => {
            host_poll_client_connected(a, data, clients, client_count, out);
            state
        },
        HostPoll::Tick => {
            match state {
                State::GameStarted(g) => {
                    g.host_poll_tick(out);
                    State::GameStarted(g)
                },
                other => {
                    default_host_poll_tick(data, client_count, out);
                    other
                },
            }
        },
        HostPoll::ClientRequest { addr, req } => {
            match state {
                State::Lobby(mut l) => {
                    match l.client_req(addr, req, data, clients, out) {
                        Some(e) => State::EnterDungeon(e),
                        None => State::Lobby(l),
                    }
                },
                State::EnterDungeon(mut e) => {
                    match e.client_req(addr, req, data, clients, catalog, out) {
                        Some(g) => State::GameStarted(g),
                        None => State::EnterDungeon(e),
                    }
                },
                State::GameStarted(mut g) => {
                    g.client_req(addr, req, clients, out);
                    State::GameStarted(g)
                },
                State::Finish(f) => {
                    default_client_request(addr, &req, out);
                    State::Finish(f)
                },
            }
        },
    }
}

} // verus!
