//! The first way into the game: everyone says they are ready, then the
//! server raises a stepped pyramid of ground and places the players on it.

use vstd::prelude::*;
use std::collections::HashSet;
use crate::math::Vec3;
use crate::map::{Piece, in_bounds};
use crate::actor::{Actor, Controller, CardHolder, TurnResources};
use crate::abilities::Abilities;
use crate::messages::{ClientRequest, ServerMessage, Outbound};
use crate::game::{GameStartedState, can_spawn_at, default_client_request, default_answer, is_spawn_notice, is_turn_notice, next_alive};
use crate::states::{list_insert, numbered, set_of, set_remove};

verus! {

/// Waiting for the clients to say they are ready.
pub struct WaitingState {
    waiting_for: HashSet<u64>,
    players: Vec<u64>,
}

/// Who is still awaited, and who is ready.
pub struct WaitingView {
    pub waiting_for: Set<u64>,
    pub players: Set<u64>,
}

impl View for WaitingState {
    type V = WaitingView;

    closed spec fn view(&self) -> WaitingView {
        WaitingView { waiting_for: self.waiting_for@, players: self.players@.to_set() }
    }
}

/// Layer `y` of the pyramid: the square of side `16 - y` at the corner,
/// row by row along `x`.
pub open spec fn pyramid_layer(y: int) -> Seq<Vec3> {
    let side = 16 - y;
    Seq::new((side * side) as nat, |i: int| Vec3 { x: (i / side) as i64, y: y as i64, z: (i % side) as i64 })
}

/// The cells of the lowest `layers` layers of the pyramid, bottom up.
pub open spec fn pyramid(layers: int) -> Seq<Vec3>
    decreases layers,
{
    if layers <= 0 {
        Seq::empty()
    } else {
        pyramid(layers - 1) + pyramid_layer(layers - 1)
    }
}

/// Where every ready player is placed.
pub open spec fn player_spot() -> Vec3 {
    Vec3 { x: 15, y: 1, z: 15 }
}

proof fn lemma_pyramid_cells(layers: int)
    requires
        0 <= layers <= 16,
    ensures
        forall|k: int| 0 <= k < pyramid(layers).len() ==> {
            let c = #[trigger] pyramid(layers)[k];
            &&& 0 <= c.y < layers
            &&& 0 <= c.x < 16 - c.y
            &&& 0 <= c.z < 16 - c.y
        },
    decreases layers,
{
    if layers > 0 {
        lemma_pyramid_cells(layers - 1);
        let p = pyramid(layers - 1);
        let l = pyramid_layer(layers - 1);
        let side = 16 - (layers - 1);
        assert forall|k: int| 0 <= k < pyramid(layers).len() implies {
            let c = #[trigger] pyramid(layers)[k];
            &&& 0 <= c.y < layers
            &&& 0 <= c.x < 16 - c.y
            &&& 0 <= c.z < 16 - c.y
        } by {
            if k >= p.len() {
                let i = k - p.len();
                assert(pyramid(layers)[k] == l[i]);
                assert(0 <= i < side * side);
                assert(0 <= i / side < side) by {
                    vstd::arithmetic::div_mod::lemma_div_pos_is_pos(i, side);
                    vstd::arithmetic::div_mod::lemma_div_by_multiple_is_strongly_ordered(i, side * side, side, side);
                    vstd::arithmetic::div_mod::lemma_div_multiples_vanish(side, side);
                }
                vstd::arithmetic::div_mod::lemma_mod_bound(i, side);
            } else {
                assert(pyramid(layers)[k] == p[k]);
            }
        }
    }
}

/// The lower layers of the pyramid come first in its list of cells.
proof fn lemma_pyramid_prefix(a: int, b: int)
    requires
        0 <= a <= b,
    ensures
        pyramid(a).len() <= pyramid(b).len(),
        forall|k: int| 0 <= k < pyramid(a).len() ==> #[trigger] pyramid(b)[k] == pyramid(a)[k],
    decreases b - a,
{
    if a < b {
        lemma_pyramid_prefix(a, b - 1);
        assert(pyramid(b) == pyramid(b - 1) + pyramid_layer(b - 1));
        assert forall|k: int| 0 <= k < pyramid(a).len() implies #[trigger] pyramid(b)[k] == pyramid(a)[k] by {
            assert(pyramid(b)[k] == pyramid(b - 1)[k]);
        }
    }
}

/// The cell below the player spot is part of the pyramid.
proof fn lemma_under_spot_raised()
    ensures
        pyramid(16).contains(Vec3 { x: 15, y: 0, z: 15 }),
{
    lemma_pyramid_prefix(1, 16);
    assert(pyramid(1) == pyramid(0) + pyramid_layer(0));
    assert(pyramid(1)[255] == Vec3 { x: 15, y: 0, z: 15 });
    assert(pyramid(16)[255] == Vec3 { x: 15, y: 0, z: 15 });
}

impl WaitingState {
    /// The ready list holds a client once.
    pub closed spec fn wf(&self) -> bool {
        self.players@.no_duplicates()
    }

    /// Waiting for every client in `waiting_for`, with no one ready yet.
    pub fn new(waiting_for: &Vec<u64>) -> (r: Self)
        ensures
            r.wf(),
            r@.waiting_for == waiting_for@.to_set(),
            r@.players == Set::<u64>::empty(),
    {
        let w = set_of(waiting_for);
        let r = WaitingState { waiting_for: w, players: Vec::new() };
        proof {
            assert(r.players@.no_duplicates());
            assert(r@.players =~= Set::<u64>::empty());
        }
        r
    }
}

/// The actor of a ready player: standing at the player spot with 10 health
/// and 6 moves.
pub open spec fn ready_actor(a: Actor, players: Set<u64>) -> bool {
    &&& a.controller matches Controller::Player(p) && players.contains(p)
    &&& a.position == player_spot()
    &&& a.health == 10
    &&& a.base_movement == 6
}

/// Lays the pyramid of ground on the map of a game without actors, and
/// lists the cells it filled by their coordinates.
fn raise_pyramid(gs: &mut GameStartedState) -> (r: (Vec<usize>, Vec<usize>, Vec<usize>))
    requires
        old(gs).wf(),
        old(gs).actors@.len() == 0,
        old(gs).current_turn is None,
        old(gs).map@.size == (Vec3 { x: 80, y: 40, z: 80 }),
    ensures
        final(gs).wf(),
        final(gs).actors@.len() == 0,
        final(gs).actor_pointer == old(gs).actor_pointer,
        final(gs).current_turn is None,
        final(gs).waiting == old(gs).waiting,
        final(gs).map@.size == old(gs).map@.size,
        forall|k: int| 0 <= k < pyramid(16).len() ==> final(gs).map@.get(#[trigger] pyramid(16)[k]) == Some(
            Piece::Ground,
        ),
        forall|q: Vec3| !pyramid(16).contains(q) ==> final(gs).map@.get(q) == old(gs).map@.get(q),
        r.0@ == pyramid(16).map_values(|c: Vec3| c.x as usize),
        r.1@ == pyramid(16).map_values(|c: Vec3| c.y as usize),
        r.2@ == pyramid(16).map_values(|c: Vec3| c.z as usize),
{
    let ghost start = gs.map@;
    let mut xs: Vec<usize> = Vec::new();
    let mut ys: Vec<usize> = Vec::new();
    let mut zs: Vec<usize> = Vec::new();
    let mut y: usize = 0;
    while y < 16
        invariant
            y <= 16,
            gs.wf(),
            gs.actors@.len() == 0,
            gs.actor_pointer == old(gs).actor_pointer,
            gs.current_turn is None,
            gs.waiting == old(gs).waiting,
            gs.map@.size == (Vec3 { x: 80, y: 40, z: 80 }),
            xs@.len() == pyramid(y as int).len(),
            ys@.len() == pyramid(y as int).len(),
            zs@.len() == pyramid(y as int).len(),
            forall|k: int| 0 <= k < xs@.len() ==> {
                let c = #[trigger] pyramid(y as int)[k];
                xs@[k] == c.x && ys@[k] == c.y && zs@[k] == c.z
            },
            forall|k: int| 0 <= k < pyramid(y as int).len() ==> gs.map@.get(#[trigger] pyramid(y as int)[k]) == Some(
                Piece::Ground,
            ),
            forall|q: Vec3| !pyramid(y as int).contains(q) ==> gs.map@.get(q) == start.get(q),
        decreases 16 - y,
    {
        let side: usize = 16 - y;
        let ghost base = pyramid(y as int);
        let ghost layer = pyramid_layer(y as int);
        let ghost next = pyramid(y + 1);
        proof {
            lemma_pyramid_cells(y as int);
            assert(next == base + layer);
            assert(next.subrange(0, base.len() as int) =~= base);
        }
        let mut x: usize = 0;
        let ghost mut k: int = 0;
        while x < side
            invariant
                y < 16,
                side == 16 - y,
                base == pyramid(y as int),
                layer == pyramid_layer(y as int),
                next == base + layer,
                0 <= x <= side,
                k == x * side,
                gs.wf(),
                gs.actors@.len() == 0,
                gs.actor_pointer == old(gs).actor_pointer,
                gs.current_turn is None,
                gs.waiting == old(gs).waiting,
                gs.map@.size == (Vec3 { x: 80, y: 40, z: 80 }),
                xs@.len() == base.len() + k,
                ys@.len() == base.len() + k,
                zs@.len() == base.len() + k,
                forall|j: int| 0 <= j < xs@.len() ==> {
                    let c = #[trigger] next[j];
                    xs@[j] == c.x && ys@[j] == c.y && zs@[j] == c.z
                },
                forall|j: int| 0 <= j < base.len() + k ==> gs.map@.get(#[trigger] next[j]) == Some(Piece::Ground),
                forall|q: Vec3| !next.subrange(0, base.len() + k).contains(q) ==> gs.map@.get(q) == start.get(q),
            decreases side - x,
        {
            let mut z: usize = 0;
            while z < side
                invariant
                    y < 16,
                    side == 16 - y,
                    base == pyramid(y as int),
                    layer == pyramid_layer(y as int),
                    next == base + layer,
                    x < side,
                    0 <= z <= side,
                    k == x * side + z,
                    gs.wf(),
                    gs.actors@.len() == 0,
                    gs.actor_pointer == old(gs).actor_pointer,
                    gs.current_turn is None,
                    gs.waiting == old(gs).waiting,
                    gs.map@.size == (Vec3 { x: 80, y: 40, z: 80 }),
                    xs@.len() == base.len() + k,
                    ys@.len() == base.len() + k,
                    zs@.len() == base.len() + k,
                    forall|j: int| 0 <= j < xs@.len() ==> {
                        let c = #[trigger] next[j];
                        xs@[j] == c.x && ys@[j] == c.y && zs@[j] == c.z
                    },
                    forall|j: int| 0 <= j < base.len() + k ==> gs.map@.get(#[trigger] next[j]) == Some(Piece::Ground),
                    forall|q: Vec3| !next.subrange(0, base.len() + k).contains(q) ==> gs.map@.get(q) == start.get(q),
                decreases side - z,
            {
                let p = Vec3::new(x as i64, y as i64, z as i64);
                proof {
                    assert(x * side + z < side * side) by (nonlinear_arith)
                        requires
                            x < side,
                            z < side,
                    ;
                    vstd::arithmetic::div_mod::lemma_fundamental_div_mod_converse(k, side as int, x as int, z as int);
                    assert(layer[k] == p);
                    assert(next[base.len() + k] == p);
                }
                let ghost before = gs.map@;
                gs.map.set(p, Piece::Ground);
                xs.push(x);
                ys.push(y);
                zs.push(z);
                proof {
                    assert(in_bounds(gs.map@.size, p));
                    assert forall|j: int| 0 <= j < base.len() + k + 1 implies gs.map@.get(#[trigger] next[j]) == Some(
                        Piece::Ground,
                    ) by {
                        if j < base.len() + k {
                            assert(before.get(next[j]) == Some(Piece::Ground));
                        }
                    }
                    assert forall|q: Vec3| !next.subrange(0, base.len() + k + 1).contains(q) implies gs.map@.get(q)
                        == start.get(q) by {
                        assert(next.subrange(0, base.len() + k + 1)[base.len() + k] == p);
                        if next.subrange(0, base.len() + k).contains(q) {
                            let w = choose|w: int| 0 <= w < base.len() + k && #[trigger] next.subrange(0, base.len() + k)[w] == q;
                            assert(next.subrange(0, base.len() + k + 1)[w] == q);
                        }
                    }
                    assert forall|pp: Vec3| gs.map@.alive.dom().contains(pp) implies !((#[trigger] gs.map@.alive[pp]) is Actor) by {
                        if pp != p {
                            assert(before.alive[pp] == gs.map@.alive[pp]);
                        }
                    }
                    k = k + 1;
                }
                z = z + 1;
            }
            proof {
                assert((x + 1) * side == x * side + side) by (nonlinear_arith);
            }
            x = x + 1;
        }
        proof {
            assert(x * side == side * side);
            assert(next.subrange(0, base.len() + k) =~= next);
        }
        y = y + 1;
    }
    proof {
        assert(xs@ =~= pyramid(16).map_values(|c: Vec3| c.x as usize));
        assert(ys@ =~= pyramid(16).map_values(|c: Vec3| c.y as usize));
        assert(zs@ =~= pyramid(16).map_values(|c: Vec3| c.z as usize));
    }
    (xs, ys, zs)
}

/// The pyramid's cells are ground on `m`.
pub open spec fn pyramid_raised(m: crate::map::MapView) -> bool {
    forall|k: int| 0 <= k < pyramid(16).len() ==> m.get(#[trigger] pyramid(16)[k]) == Some(Piece::Ground)
}

/// `o` sends everyone the pyramid, cell by cell.
pub open spec fn is_pyramid_notice(o: Outbound) -> bool {
    o matches Outbound::Broadcast(ServerMessage::SpawnMap { x, y, z })
        && x@ == pyramid(16).map_values(|c: Vec3| c.x as usize)
        && y@ == pyramid(16).map_values(|c: Vec3| c.y as usize)
        && z@ == pyramid(16).map_values(|c: Vec3| c.z as usize)
}

impl WaitingState {
    /// Handles a request while waiting. A client saying it is ready (the
    /// value it sends is not looked at) is no longer awaited and, if it
    /// was, counts as a player. Once no one is awaited the game begins: a
    /// stepped pyramid of ground is raised on a fresh map and sent to
    /// everyone, each player in turn is placed at the player spot (only the
    /// first finds it free), and the first turn is handed out. Anything
    /// else gets the common answer.
    pub fn client_req(&mut self, addr: u64, req: ClientRequest, clients: &Vec<u64>, out: &mut Vec<Outbound>) -> (r:
        Option<GameStartedState>)
        requires
            old(self).wf(),
        ensures
            final(self).wf(),
            match req {
                ClientRequest::NotifyReady(_) => {
                    &&& final(self)@.waiting_for == old(self)@.waiting_for.remove(addr)
                    &&& final(self)@.players == if old(self)@.waiting_for.contains(addr) {
                        old(self)@.players.insert(addr)
                    } else {
                        old(self)@.players
                    }
                    &&& (r is Some <==> final(self)@.waiting_for == Set::<u64>::empty())
                    &&& (r is None ==> final(out)@ == old(out)@)
                    &&& (r matches Some(g) ==> {
                        &&& g.wf()
                        &&& g.map@.size == (Vec3 { x: 80, y: 40, z: 80 })
                        &&& pyramid_raised(g.map@)
                        &&& g.actors@.len() == (if final(self)@.players.is_empty() { 0int } else { 1int })
                        &&& forall|i: int| 0 <= i < g.actors@.len() ==> ready_actor(#[trigger] g.actors@[i], final(self)@.players)
                        &&& final(out)@.len() > old(out)@.len()
                        &&& final(out)@.subrange(0, old(out)@.len() as int) == old(out)@
                        &&& is_pyramid_notice(final(out)@[old(out)@.len() as int])
                        &&& final(out)@.len() == old(out)@.len() + 1 + g.actors@.len() * clients@.len()
                            + if next_alive(g.actors@, 0) is Some { clients@.len() as int } else { 0 }
                        &&& (g.actors@.len() == 1 ==> forall|k: int| 0 <= k < clients@.len() ==> is_spawn_notice(
                            #[trigger] final(out)@[old(out)@.len() + 1 + k],
                            clients@[k],
                            g.actors@[0],
                            0,
                        ))
                        &&& (next_alive(g.actors@, 0) matches Some(t) ==> g.actor_pointer == t
                            && g.current_turn == Some(g.actors@[t].controller)
                            && forall|k: int| 0 <= k < clients@.len() ==> is_turn_notice(
                            #[trigger] final(out)@[final(out)@.len() - clients@.len() + k],
                            clients@[k],
                            g.actors@[t],
                            t as usize,
                        ))
                        &&& (next_alive(g.actors@, 0) is None ==> g.current_turn is None)
                    })
                },
                _ => r is None && final(self)@ == old(self)@ && default_answer(old(out)@, final(out)@, addr, req is Ping),
            },
    {
        match req {
            ClientRequest::NotifyReady(_) => {
                let was = set_remove(&mut self.waiting_for, addr);
                if was {
                    list_insert(&mut self.players, addr);
                }
                if !self.waiting_for.is_empty() {
                    return None;
                }
                proof {
                    assert(self@.waiting_for =~= Set::<u64>::empty());
                }
                let ghost before = out@;
                let mut gs = GameStartedState::new();
                let ghost fresh = gs.map@;
                proof {
                    gs.map.lemma_view_wf();
                }
                let (xs, ys, zs) = raise_pyramid(&mut gs);
                out.push(Outbound::Broadcast(ServerMessage::SpawnMap { x: xs, y: ys, z: zs }));
                let ghost head = out@;
                proof {
                    lemma_pyramid_cells(16);
                    if pyramid(16).contains(player_spot()) {
                        let w = choose|w: int| 0 <= w < pyramid(16).len() && #[trigger] pyramid(16)[w] == player_spot();
                        assert(pyramid(16)[w] == player_spot());
                    }
                    assert(out@.subrange(0, before.len() as int) =~= before);
                    lemma_under_spot_raised();
                    let below = Vec3 { x: 15, y: 0, z: 15 };
                    let w = choose|w: int| 0 <= w < pyramid(16).len() && #[trigger] pyramid(16)[w] == below;
                    assert(gs.map@.get(pyramid(16)[w]) == Some(Piece::Ground));
                    assert(in_bounds(fresh.size, player_spot()));
                    assert(fresh.alive.dom().contains(player_spot()));
                    assert(gs.map@.get(player_spot()) == Some(Piece::Empty));
                }
                let mut id: usize = 0;
                while id < self.players.len()
                    invariant
                        id <= self.players@.len(),
                        self.wf(),
                        gs.wf(),
                        gs.map@.size == (Vec3 { x: 80, y: 40, z: 80 }),
                        pyramid_raised(gs.map@),
                        !pyramid(16).contains(player_spot()),
                        gs.actors@.len() == (if id == 0 { 0int } else { 1int }),
                        gs.actors@.len() == 1 ==> gs.map@.get(player_spot()) == Some(Piece::Actor(0)),
                        gs.actors@.len() == 0 ==> gs.map@.get(player_spot()) == Some(Piece::Empty),
                        gs.map@.get(Vec3 { x: 15, y: 0, z: 15 }) == Some(Piece::Ground),
                        forall|i: int| 0 <= i < gs.actors@.len() ==> ready_actor(#[trigger] gs.actors@[i], self@.players),
                        out@.len() == head.len() + if gs.actors@.len() == 1 { clients@.len() as int } else { 0 },
                        gs.actors@.len() == 1 ==> forall|k: int| 0 <= k < clients@.len() ==> is_spawn_notice(
                            #[trigger] out@[head.len() + k],
                            clients@[k],
                            gs.actors@[0],
                            0,
                        ),
                        gs.actor_pointer == 0,
                        gs.current_turn is None,
                        !gs.waiting,
                        out@.subrange(0, head.len() as int) == head,
                    decreases self.players@.len() - id,
                {
                    let who = self.players[id];
                    let actor = Actor {
                        name: numbered("Player ", id as u64),
                        controller: Controller::Player(who),
                        position: Vec3::new(15, 1, 15),
                        abilities: Abilities::default(),
                        health: 10,
                        base_movement: 6,
                        resources: TurnResources::default(),
                        cards: CardHolder::default(),
                    };
                    proof {
                        assert(self@.players.contains(who)) by {
                            assert(self.players@[id as int] == who);
                        }
                    }
                    let ghost g0 = gs;
                    let ghost o = out@;
                    let ghost sa = actor;
                    let placed = gs.spawn_actor(clients, actor, out);
                    proof {
                        if id == 0 {
                            assert(can_spawn_at(g0.map@, actor.position));
                        } else {
                            assert(!can_spawn_at(g0.map@, actor.position));
                        }
                        if placed {
                            assert(g0.actors@.len() == 0);
                            assert(gs.map@.get(Vec3 { x: 15, y: 0, z: 15 }) == g0.map@.get(Vec3 { x: 15, y: 0, z: 15 }));
                            assert forall|k: int| 0 <= k < pyramid(16).len() implies gs.map@.get(#[trigger] pyramid(16)[k])
                                == Some(Piece::Ground) by {
                                assert(pyramid(16)[k] != player_spot());
                                assert(g0.map@.get(pyramid(16)[k]) == Some(Piece::Ground));
                            }
                            assert(out@.subrange(0, head.len() as int) =~= o.subrange(0, head.len() as int));
                            assert(gs.actors@[0] == sa);
                        }
                    }
                    id = id + 1;
                }
                let ghost o = out@;
                gs.next_actor(clients, out);
                proof {
                    if self.players@.len() > 0 {
                        assert(self@.players.contains(self.players@[0]));
                    } else {
                        assert(self@.players =~= Set::<u64>::empty());
                    }
                    assert(out@.subrange(0, head.len() as int) =~= o.subrange(0, head.len() as int));
                    assert(out@[before.len() as int] == head[before.len() as int]);
                    assert(out@.subrange(0, before.len() as int) =~= before);
                    if gs.actors@.len() == 1 {
                        assert forall|k: int| 0 <= k < clients@.len() implies is_spawn_notice(
                            #[trigger] out@[before.len() + 1 + k],
                            clients@[k],
                            gs.actors@[0],
                            0,
                        ) by {
                            assert(out@[before.len() + 1 + k] == o[head.len() + k]);
                        }
                    }
                    assert(gs.actors@.len() * clients@.len() == if gs.actors@.len() == 1 { clients@.len() as int } else { 0 });
                }
                Some(gs)
            },
            other => {
                default_client_request(addr, &other, out);
                None
            },
        }
    }
}

} // verus!
