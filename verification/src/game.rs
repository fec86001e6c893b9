//! The dungeon while a game runs: who is where, whose turn it is, and how
//! walking and punching change that.

use vstd::prelude::*;
use crate::math::{Vec3, is_isqrt, dist2_3d};
use crate::map::{VoxelMap, MapView, Piece, FloorBox, in_bounds, valid_size, lemma_in_bounds_fits, blank_map, sparse_floor};
use crate::actor::{Actor, Controller, fresh_turn};
use crate::messages::{ClientRequest, ServerMessage, Outbound};
use crate::identity::{BOT_ADDR, IdentityExt};
use crate::chance::random_below;
use crate::paths::neighbors;
use crate::paths::{astar_path, is_route};
use crate::text::{concat2, debug_str, push_decimal, decimal, debug_quoted};

verus! {

/// Damage a punch deals.
pub const PUNCH_DAMAGE: i32 = 15;

/// How long a punch keeps the game waiting, in milliseconds.
pub const PUNCH_TIME_MS: u32 = 500;

/// How many tiles an actor walks per second.
pub const TILES_PER_SECOND: u64 = 4;

/// The id an actor's index gets in messages' coordinates: a coordinate of a
/// cell inside the map, as a `usize`.
pub open spec fn ucoord(v: i64) -> usize {
    v as usize
}

/// A spawned actor may stand at `p`: the cell is empty and there is ground
/// right below it.
pub open spec fn can_spawn_at(m: MapView, p: Vec3) -> bool {
    &&& m.get(p) == Some(Piece::Empty)
    &&& p.y != 0
    &&& m.get(Vec3 { x: p.x, y: (p.y - 1) as i64, z: p.z }) == Some(Piece::Ground)
}

/// `o` tells client `c` that `a` appeared as actor `id`.
pub open spec fn is_spawn_notice(o: Outbound, c: u64, a: Actor, id: usize) -> bool {
    o matches Outbound::Send(to, ServerMessage::SpawnActor { yours, name, id: mid, x, y, z, abilities, movement, health, max_health })
        && to == c && yours == (a.controller == Controller::Player(c)) && name@ == a.name@ && mid == id
        && x == ucoord(a.position.x) && y == ucoord(a.position.y) && z == ucoord(a.position.z)
        && abilities@.map_values(|s: String| s@) == a.abilities@ && movement == a.base_movement
        && health == a.health && max_health == a.health
}

/// `o` tells client `c` that the turn went to actor `idx`, who is `a`.
pub open spec fn is_turn_notice(o: Outbound, c: u64, a: Actor, idx: usize) -> bool {
    if a.controller == Controller::Player(c) {
        o matches Outbound::Send(to, ServerMessage::YourTurn { actor, movement, cards }) && to == c && actor == idx
            && movement == a.base_movement && cards@ == a.cards@.hand
    } else {
        o matches Outbound::Send(to, ServerMessage::ActorTurn { actor }) && to == c && actor == idx
    }
}

/// The first living actor after `start`, looking at offsets `s`, `s + 1`,
/// up to the number of actors, wrapping around.
pub open spec fn scan_alive(actors: Seq<Actor>, start: int, s: int) -> Option<int>
    decreases actors.len() + 1 - s,
{
    if s > actors.len() || actors.len() == 0 {
        None
    } else {
        let i = (start + s) % (actors.len() as int);
        if actors[i].health > 0 {
            Some(i)
        } else {
            scan_alive(actors, start, s + 1)
        }
    }
}

/// The actor whose turn comes after `start`: the first living one after
/// it, wrapping around and ending with `start` itself.
pub open spec fn next_alive(actors: Seq<Actor>, start: int) -> Option<int> {
    scan_alive(actors, start, 1)
}

/// The running game.
pub struct GameStartedState {
    pub actors: Vec<Actor>,
    pub actor_pointer: usize,
    pub map: VoxelMap,
    pub current_turn: Option<Controller>,
    pub waiting: bool,
}

impl GameStartedState {
    /// The state is consistent: the pointer names an actor (or is zero with
    /// none), every actor stands inside the map, every actor piece on the
    /// map names the actor standing there, every living actor stands on
    /// its own piece, and once turns have begun the current actor lives.
    pub open spec fn wf(&self) -> bool {
        &&& self.map.inv()
        &&& (self.actor_pointer < self.actors@.len() || (self.actors@.len() == 0 && self.actor_pointer == 0))
        &&& forall|i: int| 0 <= i < self.actors@.len() ==> in_bounds(self.map@.size, #[trigger] self.actors@[i].position)
        &&& forall|p: Vec3| self.map@.alive.dom().contains(p) && (#[trigger] self.map@.alive[p]) is Actor ==> {
            let id = self.map@.alive[p]->Actor_0;
            &&& id < self.actors@.len()
            &&& self.actors@[id as int].position == p
        }
        &&& forall|i: int| 0 <= i < self.actors@.len() && (#[trigger] self.actors@[i]).health > 0 ==> self.map@.get(
            self.actors@[i].position,
        ) == Some(Piece::Actor(i as usize))
        &&& self.current_turn is Some ==> self.actors@.len() > 0 && self.actors@[self.actor_pointer as int].health > 0
    }

    /// A game on `map`, with no actors yet.
    pub fn with_map(map: VoxelMap) -> (r: Self)
        requires
            map.inv(),
            forall|p: Vec3| map@.alive.dom().contains(p) ==> !((#[trigger] map@.alive[p]) is Actor),
        ensures
            r.wf(),
            r.actors@.len() == 0,
            r.actor_pointer == 0,
            r.map@ == map@,
            r.current_turn is None,
            !r.waiting,
    {
        GameStartedState { actors: Vec::new(), actor_pointer: 0, map, current_turn: None, waiting: false }
    }

    /// A game on a fresh default map: no one has died, and every cell is
    /// empty but for the floor of rooms laid on layer 0 (at least one room,
    /// from six tries).
    pub fn new() -> (r: Self)
        ensures
            exists|bs: Seq<FloorBox>, flips: Map<(int, int), bool>|
                sparse_floor(blank_map(Vec3 { x: 80, y: 40, z: 80 }), r.map@, bs, flips, 0, 6),
            r.wf(),
            r.actors@.len() == 0,
            r.actor_pointer == 0,
            r.map@.size == (Vec3 { x: 80, y: 40, z: 80 }),
            r.map@.dead.dom() == Set::<Vec3>::empty(),
            forall|q: Vec3| #[trigger] r.map@.alive.dom().contains(q) ==> r.map@.alive[q] == Piece::Empty || (q.y == 0
                && r.map@.alive[q] == Piece::Ground),
            r.current_turn is None,
            !r.waiting,
    {
        let map = VoxelMap::default();
        Self::with_map(map)
    }

    /// The actor whose turn it is.
    pub fn current_actor(&self) -> (r: &Actor)
        requires
            self.actors@.len() > 0,
            self.actor_pointer < self.actors@.len(),
        ensures
            *r == self.actors@[self.actor_pointer as int],
    {
        &self.actors[self.actor_pointer]
    }

    /// The actor whose turn it is, to change in place.
    pub fn current_actor_mut(&mut self) -> (r: &mut Actor)
        requires
            old(self).actor_pointer < old(self).actors@.len(),
        ensures
            *r == old(self).actors@[old(self).actor_pointer as int],
            final(self).actors@ == old(self).actors@.update(old(self).actor_pointer as int, *final(r)),
            final(self).actor_pointer == old(self).actor_pointer,
            final(self).map@ == old(self).map@,
            final(self).current_turn == old(self).current_turn,
            final(self).waiting == old(self).waiting,
    {
        let p = self.actor_pointer;
        &mut self.actors[p]
    }

    /// The neighbors of `p` on the map.
    pub fn get_neighbors(&self, air: bool, p: Vec3) -> (r: Vec<(Piece, Vec3)>)
        requires
            self.map.inv(),
        ensures
            r@ == crate::paths::neighbors(self.map@, air, p),
    {
        self.map.neighbors(air, p)
    }

    /// A route on the map from `from` to `to`, found by A* search.
    pub fn pathfind(&self, from: Vec3, to: Vec3) -> (r: Option<(Vec<Vec3>, usize)>)
        requires
            self.map.inv(),
        ensures
            match r {
                Some((path, cost)) => crate::paths::astar_route(self.map@, from, to) == Some((path@, cost))
                    && is_route(self.map@, path@, from, to),
                None => crate::paths::astar_route(self.map@, from, to) is None
                    && !crate::paths::has_route(self.map@, from, to),
            },
            from == to ==> (r matches Some((path, cost)) && path@ == seq![from] && cost == 0),
    {
        astar_path(&self.map, from, to)
    }

    /// Places `actor` on the map, as the next actor, if it may stand where
    /// it is, and tells every client in `clients`.
    pub fn spawn_actor(&mut self, clients: &Vec<u64>, actor: Actor, out: &mut Vec<Outbound>) -> (r: bool)
        requires
            old(self).wf(),
        ensures
            final(self).wf(),
            r == can_spawn_at(old(self).map@, actor.position),
            final(self).actor_pointer == old(self).actor_pointer,
            final(self).current_turn == old(self).current_turn,
            final(self).waiting == old(self).waiting,
            final(self).map@.size == old(self).map@.size,
            final(self).map@.dead == old(self).map@.dead,
            r ==> final(self).actors@ == old(self).actors@.push(actor),
            r ==> final(self).map@.alive == old(self).map@.alive.insert(
                actor.position,
                Piece::Actor(old(self).actors@.len() as usize),
            ),
            r ==> final(out)@.len() == old(out)@.len() + clients@.len(),
            r ==> forall|k: int| 0 <= k < old(out)@.len() ==> final(out)@[k] == old(out)@[k],
            r ==> forall|k: int| 0 <= k < clients@.len() ==> is_spawn_notice(
                #[trigger] final(out)@[old(out)@.len() + k],
                clients@[k],
                actor,
                old(self).actors@.len() as usize,
            ),
            !r ==> final(self).actors@ == old(self).actors@ && final(self).map@ == old(self).map@ && final(out)@ == old(out)@,
    {
        let pos = actor.position;
        match self.map.get(pos) {
            Some(Piece::Empty) => {},
            _ => {
                return false;
            },
        }
        if pos.y == 0 {
            return false;
        }
        match self.map.get(Vec3 { x: pos.x, y: pos.y - 1, z: pos.z }) {
            Some(Piece::Ground) => {},
            _ => {
                return false;
            },
        }
        let ghost old_self = *self;
        let ghost old_out = out@;
        let id = self.actors.len();
        self.map.set(pos, Piece::Actor(id));
        proof {
            lemma_in_bounds_fits(self.map@.size, pos);
        }
        let keys = actor.abilities.get_keys();
        let mut k: usize = 0;
        while k < clients.len()
            invariant
                k <= clients@.len(),
                out@.len() == old_out.len() + k,
                forall|j: int| 0 <= j < old_out.len() ==> out@[j] == old_out[j],
                forall|j: int| 0 <= j < k ==> is_spawn_notice(#[trigger] out@[old_out.len() + j], clients@[j], actor, id),
                keys@.map_values(|s: String| s@) == actor.abilities@,
                in_bounds(self.map@.size, pos),
                pos == actor.position,
                pos.x <= usize::MAX,
                pos.y <= usize::MAX,
                pos.z <= usize::MAX,
            decreases clients@.len() - k,
        {
            let c = clients[k];
            let yours = actor.controller == Controller::Player(c);
            let msg = ServerMessage::SpawnActor {
                name: actor.name.clone(),
                id,
                x: pos.x as usize,
                y: pos.y as usize,
                z: pos.z as usize,
                abilities: keys.clone(),
                yours,
                movement: actor.base_movement,
                health: actor.health,
                max_health: actor.health,
            };
            out.push(Outbound::Send(c, msg));
            k = k + 1;
        }
        self.actors.push(actor);
        proof {
            let n = self.actors@.len();
            assert forall|p: Vec3| self.map@.alive.dom().contains(p) && (#[trigger] self.map@.alive[p]) is Actor implies {
                let id2 = self.map@.alive[p]->Actor_0;
                &&& id2 < self.actors@.len()
                &&& self.actors@[id2 as int].position == p
            } by {
                if p != pos {
                    assert(old_self.map@.alive[p] == self.map@.alive[p]);
                }
            }
            assert forall|i: int| 0 <= i < self.actors@.len() && (#[trigger] self.actors@[i]).health > 0 implies self.map@.get(
                self.actors@[i].position,
            ) == Some(Piece::Actor(i as usize)) by {
                if i < old_self.actors@.len() {
                    assert(self.actors@[i] == old_self.actors@[i]);
                    assert(old_self.actors@[i].position != pos);
                }
            }
            assert forall|i: int| 0 <= i < self.actors@.len() implies in_bounds(self.map@.size, #[trigger] self.actors@[i].position) by {
                if i < old_self.actors@.len() {
                    assert(self.actors@[i] == old_self.actors@[i]);
                }
            }
        }
        true
    }
}

impl GameStartedState {
    /// Passes the turn to the next living actor and tells every client in
    /// `clients` whose turn it is; when no actor lives nothing changes.
    pub fn next_actor(&mut self, clients: &Vec<u64>, out: &mut Vec<Outbound>)
        requires
            old(self).wf(),
        ensures
            final(self).wf(),
            final(self).actors@ == old(self).actors@,
            final(self).map@ == old(self).map@,
            final(self).waiting == old(self).waiting,
            match next_alive(old(self).actors@, old(self).actor_pointer as int) {
                Some(i) => {
                    &&& final(self).actor_pointer == i
                    &&& final(self).current_turn == Some(old(self).actors@[i].controller)
                    &&& final(out)@.len() == old(out)@.len() + clients@.len()
                    &&& forall|k: int| 0 <= k < old(out)@.len() ==> final(out)@[k] == old(out)@[k]
                    &&& forall|k: int| 0 <= k < clients@.len() ==> is_turn_notice(
                        #[trigger] final(out)@[old(out)@.len() + k],
                        clients@[k],
                        old(self).actors@[i],
                        i as usize,
                    )
                },
                None => {
                    &&& final(self).actor_pointer == old(self).actor_pointer
                    &&& final(self).current_turn == old(self).current_turn
                    &&& final(out)@ == old(out)@
                },
            },
    {
        let n = self.actors.len();
        if n == 0 {
            return;
        }
        let start = self.actor_pointer;
        let ghost old_self = *self;
        let mut t: usize = 0;
        while t < n
            invariant
                self.wf(),
                *self == old_self,
                old_self == *old(self),
                n == self.actors@.len(),
                n > 0,
                start == self.actor_pointer,
                start < n,
                0 <= t <= n,
                out@ == old(out)@,
                next_alive(self.actors@, start as int) == scan_alive(self.actors@, start as int, t + 1),
            decreases n - t,
        {
            let s: usize = t + 1;
            let off = s % n;
            let i = if off < n - start { start + off } else { off - (n - start) };
            proof {
                vstd::arithmetic::div_mod::lemma_add_mod_noop_right(start as int, s as int, n as int);
                vstd::arithmetic::div_mod::lemma_mod_bound(s as int, n as int);
                if off < n - start {
                    vstd::arithmetic::div_mod::lemma_small_mod((start + off) as nat, n as nat);
                } else {
                    vstd::arithmetic::div_mod::lemma_fundamental_div_mod_converse(start + off, n as int, 1, i as int);
                }
                assert(i == (start + s) % (n as int));
            }
            if self.actors[i].health > 0 {
                let ghost old_out = out@;
                assert(scan_alive(self.actors@, start as int, t + 1) == Some(i as int));
                let controller = self.actors[i].controller;
                let movement = self.actors[i].base_movement;
                let cards = self.actors[i].cards.hand();
                let mut k: usize = 0;
                while k < clients.len()
                    invariant
                        *self == old_self,
                        old_self == *old(self),
                        old_out == old(out)@,
                        k <= clients@.len(),
                        i < n,
                        n == self.actors@.len(),
                        out@.len() == old_out.len() + k,
                        forall|j: int| 0 <= j < old_out.len() ==> out@[j] == old_out[j],
                        forall|j: int| 0 <= j < k ==> is_turn_notice(#[trigger] out@[old_out.len() + j], clients@[j], self.actors@[i as int], i),
                        controller == self.actors@[i as int].controller,
                        movement == self.actors@[i as int].base_movement,
                        cards@ == self.actors@[i as int].cards@.hand,
                    decreases clients@.len() - k,
                {
                    let c = clients[k];
                    if controller == Controller::Player(c) {
                        out.push(Outbound::Send(c, ServerMessage::YourTurn { actor: i, movement, cards: cards.clone() }));
                    } else {
                        out.push(Outbound::Send(c, ServerMessage::ActorTurn { actor: i }));
                    }
                    k = k + 1;
                }
                self.actor_pointer = i;
                self.current_turn = Some(controller);
                return;
            }
            t = t + 1;
        }
        proof {
            assert(scan_alive(self.actors@, start as int, n + 1) is None);
        }
    }

    /// Gives the current actor the budget of a fresh turn.
    pub fn reset_current_resources(&mut self)
        requires
            old(self).wf(),
            old(self).actors@.len() > 0,
        ensures
            final(self).wf(),
            final(self).actors@.len() == old(self).actors@.len(),
            forall|i: int| 0 <= i < old(self).actors@.len() && i != old(self).actor_pointer ==> #[trigger] final(self).actors@[i] == old(self).actors@[i],
            final(self).actors@[old(self).actor_pointer as int].resources == fresh_turn(),
            final(self).actors@[old(self).actor_pointer as int].position == old(self).actors@[old(self).actor_pointer as int].position,
            final(self).actors@[old(self).actor_pointer as int].health == old(self).actors@[old(self).actor_pointer as int].health,
            final(self).actors@[old(self).actor_pointer as int].controller == old(self).actors@[old(self).actor_pointer as int].controller,
            final(self).actors@[old(self).actor_pointer as int].name == old(self).actors@[old(self).actor_pointer as int].name,
            final(self).actors@[old(self).actor_pointer as int].abilities@ == old(self).actors@[old(self).actor_pointer as int].abilities@,
            final(self).actor_pointer == old(self).actor_pointer,
            final(self).map@ == old(self).map@,
            final(self).current_turn == old(self).current_turn,
            final(self).waiting == old(self).waiting,
    {
        let ghost old_actors = self.actors@;
        let p = self.actor_pointer;
        let mut a = self.actors.remove(p);
        a.reset_turn_resources();
        self.actors.insert(p, a);
        proof {
            assert forall|i: int| 0 <= i < old_actors.len() && i != p implies #[trigger] self.actors@[i] == old_actors[i] by {}
            assert forall|i: int| 0 <= i < self.actors@.len() implies in_bounds(self.map@.size, #[trigger] self.actors@[i].position) by {
                if i != p {
                    assert(self.actors@[i] == old_actors[i]);
                }
            }
            assert forall|q: Vec3| self.map@.alive.dom().contains(q) && (#[trigger] self.map@.alive[q]) is Actor implies {
                let id2 = self.map@.alive[q]->Actor_0;
                &&& id2 < self.actors@.len()
                &&& self.actors@[id2 as int].position == q
            } by {
                let id2 = self.map@.alive[q]->Actor_0;
                if id2 != p {
                    assert(self.actors@[id2 as int] == old_actors[id2 as int]);
                }
            }
            assert forall|i: int| 0 <= i < self.actors@.len() && (#[trigger] self.actors@[i]).health > 0 implies self.map@.get(
                self.actors@[i].position,
            ) == Some(Piece::Actor(i as usize)) by {
                if i != p {
                    assert(self.actors@[i] == old_actors[i]);
                }
            }
        }
    }

    /// Ends the wait after an action.
    pub fn wake(&mut self)
        ensures
            !final(self).waiting,
            final(self).actors@ == old(self).actors@,
            final(self).actor_pointer == old(self).actor_pointer,
            final(self).map@ == old(self).map@,
            final(self).current_turn == old(self).current_turn,
            old(self).wf() ==> final(self).wf(),
    {
        self.waiting = false;
    }
}

/// How long walking a path of `n` cells takes, in milliseconds, at
/// `TILES_PER_SECOND` tiles a second (capped at the largest `u64`).
pub open spec fn walk_time_ms(n: nat) -> u64 {
    if n * 250 <= u64::MAX {
        (n * 250) as u64
    } else {
        u64::MAX
    }
}

/// `o` tells everyone that actor `idx`, moving `movement`, walked `path`.
pub open spec fn is_move_notice(o: Outbound, idx: usize, movement: u32, path: Seq<Vec3>) -> bool {
    o matches Outbound::Broadcast(ServerMessage::MoveActor { actor, movement: mv, x, y, z }) && actor == idx && mv
        == movement && x@ == path.map_values(|v: Vec3| ucoord(v.x)) && y@ == path.map_values(|v: Vec3| ucoord(v.y))
        && z@ == path.map_values(|v: Vec3| ucoord(v.z))
}

/// `actors` is `before` with actor `i` standing at `p` instead.
pub open spec fn moved_to(before: Seq<Actor>, actors: Seq<Actor>, i: int, p: Vec3) -> bool {
    &&& actors.len() == before.len()
    &&& forall|j: int| 0 <= j < before.len() && j != i ==> #[trigger] actors[j] == before[j]
    &&& actors[i].position == p
    &&& actors[i].name == before[i].name
    &&& actors[i].controller == before[i].controller
    &&& actors[i].health == before[i].health
    &&& actors[i].base_movement == before[i].base_movement
    &&& actors[i].resources == before[i].resources
    &&& actors[i].abilities@ == before[i].abilities@
    &&& actors[i].cards@ == before[i].cards@
}

/// The actor punched when the current actor punches at `pos`, if any: the
/// current actor must have an ability left, `pos` must be within one cell
/// (its squared distance at most 3), and another actor must stand there.
pub open spec fn punch_target(g: GameStartedState, pos: Vec3) -> Option<usize> {
    let cur = g.actors@[g.actor_pointer as int];
    if cur.resources.abilities == 0 || dist2_3d(cur.position, pos) > 3 {
        None
    } else {
        match g.map@.get(pos) {
            Some(Piece::Actor(h)) => if h != g.actor_pointer && h < g.actors@.len() {
                Some(h)
            } else {
                None
            },
            _ => None,
        }
    }
}

/// The text announcing that `who` punched `whom` from `distance` away.
pub open spec fn punch_notice(who: Seq<char>, whom: Seq<char>, distance: nat) -> Seq<char> {
    who + " punched "@ + debug_quoted(whom) + " at "@ + decimal(distance) + "B"@
}

/// The cell of the current actor of `g` holds no other actor's piece:
/// walking moves that cell's piece, so this is what keeps the pieces and
/// the actors' positions in step.
pub open spec fn walker_ok(g: GameStartedState) -> bool {
    match g.map@.get(g.actors@[g.actor_pointer as int].position) {
        Some(Piece::Actor(q)) => q == g.actor_pointer,
        _ => true,
    }
}

impl GameStartedState {
    /// Moves the current actor to `pos` along `route`, the answer of the
    /// route search: with no route the wait ends and nothing else happens;
    /// with one, the actor's piece moves, everyone is told the path, and the
    /// game waits for the walk, whose length in milliseconds is returned.
    pub fn move_along(&mut self, pos: Vec3, route: Option<(Vec<Vec3>, usize)>, out: &mut Vec<Outbound>) -> (r: Option<u64>)
        requires
            old(self).wf(),
            old(self).actors@.len() > 0,
            walker_ok(*old(self)),
            old(self).map@.get(pos) == Some(Piece::Empty),
        ensures
            final(self).wf(),
            final(self).actor_pointer == old(self).actor_pointer,
            final(self).current_turn == old(self).current_turn,
            final(self).map@.size == old(self).map@.size,
            final(self).map@.dead == old(self).map@.dead,
            match route {
                None => {
                    &&& r is None
                    &&& !final(self).waiting
                    &&& final(self).actors@ == old(self).actors@
                    &&& final(self).map@ == old(self).map@
                    &&& final(out)@ == old(out)@
                },
                Some((path, _)) => {
                    let p = old(self).actor_pointer as int;
                    let from = old(self).actors@[p].position;
                    &&& r == Some(walk_time_ms(path@.len()))
                    &&& final(self).waiting
                    &&& moved_to(old(self).actors@, final(self).actors@, p, pos)
                    &&& final(self).map@.alive == old(self).map@.alive.insert(pos, old(self).map@.alive[from]).insert(from, Piece::Empty)
                    &&& final(out)@.len() == old(out)@.len() + 1
                    &&& forall|k: int| 0 <= k < old(out)@.len() ==> final(out)@[k] == old(out)@[k]
                    &&& is_move_notice(final(out)@[old(out)@.len() as int], p as usize, old(self).actors@[p].base_movement, path@)
                },
            },
    {
        let path = match route {
            Some((path, _)) => path,
            None => {
                self.waiting = false;
                return None;
            },
        };
        let ghost old_self = *self;
        let count = self.actors.len();
        let p = self.actor_pointer;
        let from = self.actors[p].position;
        let a = match self.map.get(pos) {
            Some(piece) => piece,
            None => {
                return None;
            },
        };
        let b = match self.map.get(from) {
            Some(piece) => piece,
            None => {
                return None;
            },
        };
        self.map.set(pos, b);
        self.map.set(from, a);
        let mut actor = self.actors.remove(p);
        actor.position = pos;
        self.actors.insert(p, actor);
        let mut xs: Vec<usize> = Vec::new();
        let mut ys: Vec<usize> = Vec::new();
        let mut zs: Vec<usize> = Vec::new();
        let mut i: usize = 0;
        while i < path.len()
            invariant
                i <= path@.len(),
                xs@ == path@.subrange(0, i as int).map_values(|v: Vec3| ucoord(v.x)),
                ys@ == path@.subrange(0, i as int).map_values(|v: Vec3| ucoord(v.y)),
                zs@ == path@.subrange(0, i as int).map_values(|v: Vec3| ucoord(v.z)),
            decreases path@.len() - i,
        {
            let v = path[i];
            xs.push(v.x as usize);
            ys.push(v.y as usize);
            zs.push(v.z as usize);
            proof {
                assert(path@.subrange(0, i + 1) =~= path@.subrange(0, i as int).push(v));
                assert(xs@ =~= path@.subrange(0, i + 1).map_values(|v: Vec3| ucoord(v.x)));
                assert(ys@ =~= path@.subrange(0, i + 1).map_values(|v: Vec3| ucoord(v.y)));
                assert(zs@ =~= path@.subrange(0, i + 1).map_values(|v: Vec3| ucoord(v.z)));
            }
            i = i + 1;
        }
        proof {
            assert(path@.subrange(0, path@.len() as int) =~= path@);
        }
        let movement = self.actors[p].base_movement;
        out.push(Outbound::Broadcast(ServerMessage::MoveActor { actor: p, movement, x: xs, y: ys, z: zs }));
        self.waiting = true;
        let n: u64 = path.len() as u64;
        let ms: u64 = if n <= 0xffff_ffff_ffff_ffff / 250 {
            n * 250
        } else {
            0xffff_ffff_ffff_ffff
        };
        proof {
            let before = old_self.actors@;
            assert(a == Piece::Empty);
            assert forall|j: int| 0 <= j < before.len() && j != p implies #[trigger] self.actors@[j] == before[j] by {}
            assert forall|j: int| 0 <= j < self.actors@.len() implies in_bounds(self.map@.size, #[trigger] self.actors@[j].position) by {
                if j != p {
                    assert(self.actors@[j] == before[j]);
                }
            }
            assert forall|q: Vec3| self.map@.alive.dom().contains(q) && (#[trigger] self.map@.alive[q]) is Actor implies {
                let id2 = self.map@.alive[q]->Actor_0;
                &&& id2 < self.actors@.len()
                &&& self.actors@[id2 as int].position == q
            } by {
                if q != pos && q != from {
                    assert(self.map@.alive[q] == old_self.map@.alive[q]);
                    let id2 = self.map@.alive[q]->Actor_0;
                    if id2 == p {
                        assert(before[p as int].position == q);
                    }
                }
            }
            assert forall|j: int| 0 <= j < self.actors@.len() && (#[trigger] self.actors@[j]).health > 0 implies self.map@.get(
                self.actors@[j].position,
            ) == Some(Piece::Actor(j as usize)) by {
                if j != p {
                    assert(self.actors@[j] == before[j]);
                    assert(old_self.map@.get(before[j].position) == Some(Piece::Actor(j as usize)));
                    assert(before[j].position != pos);
                    if before[j].position == from {
                        assert(old_self.map@.get(from) == Some(Piece::Actor(j as usize)));
                        assert(j < count);
                        assert((j as usize) as int == j);
                        assert(j == p as int);
                        assert(false);
                    }
                    assert(before[j].position != from);
                } else {
                    assert(old_self.map@.get(from) == Some(Piece::Actor(p)));
                }
            }
        }
        Some(ms)
    }

    /// Walks the current actor to `pos` by the route A* search finds from
    /// where it stands; if `pos` is not an empty cell the wait ends and
    /// nothing else happens.
    pub fn move_current_actor(&mut self, pos: Vec3, out: &mut Vec<Outbound>) -> (r: Option<u64>)
        requires
            old(self).wf(),
            old(self).actors@.len() > 0,
            walker_ok(*old(self)),
        ensures
            final(self).wf(),
            move_result(*old(self), *final(self), old(out)@, final(out)@, pos, r),
    {
        match self.map.get(pos) {
            Some(Piece::Empty) => {},
            _ => {
                self.waiting = false;
                return None;
            },
        }
        let from = self.actors[self.actor_pointer].position;
        let route = self.pathfind(from, pos);
        self.move_along(pos, route, out)
    }
}


/// What walking the current actor of `before` to `pos` leaves: `after`,
/// the outbound list grown from `ob` to `oa`, and the wait `r`.
pub open spec fn move_result(before: GameStartedState, after: GameStartedState, ob: Seq<Outbound>, oa: Seq<Outbound>, pos: Vec3, r: Option<u64>) -> bool {
    &&& after.actor_pointer == before.actor_pointer
    &&& after.current_turn == before.current_turn
    &&& after.map@.size == before.map@.size
    &&& after.map@.dead == before.map@.dead
    &&& before.map@.get(pos) != Some(Piece::Empty) ==> r is None && !after.waiting && after.actors@ == before.actors@
        && after.map@ == before.map@ && oa == ob
    &&& before.map@.get(pos) == Some(Piece::Empty) ==> {
        let p = before.actor_pointer as int;
        let from = before.actors@[p].position;
        match crate::paths::astar_route(before.map@, from, pos) {
            None => r is None && !after.waiting && after.actors@ == before.actors@ && after.map@ == before.map@ && oa == ob,
            Some((path, _)) => {
                &&& r == Some(walk_time_ms(path.len()))
                &&& after.waiting
                &&& moved_to(before.actors@, after.actors@, p, pos)
                &&& after.map@.alive == before.map@.alive.insert(pos, before.map@.alive[from]).insert(from, Piece::Empty)
                &&& oa.len() == ob.len() + 1
                &&& forall|k: int| 0 <= k < ob.len() ==> oa[k] == ob[k]
                &&& is_move_notice(oa[ob.len() as int], p as usize, before.actors@[p].base_movement, path)
            },
        }
    }
}

/// What the current actor of `before` punching at `pos` leaves: `after`,
/// the outbound list grown from `ob` to `oa`, and the wait `r`.
pub open spec fn punch_result(before: GameStartedState, after: GameStartedState, ob: Seq<Outbound>, oa: Seq<Outbound>, pos: Vec3, r: Option<u64>) -> bool {
    &&& after.actor_pointer == before.actor_pointer
    &&& after.current_turn == before.current_turn
    &&& after.map@.size == before.map@.size
    &&& match punch_target(before, pos) {
        None => {
            &&& r is None
            &&& after.waiting == before.waiting
            &&& after.actors@ == before.actors@
            &&& after.map@ == before.map@
            &&& oa == ob
        },
        Some(h) => {
            let p = before.actor_pointer as int;
            let acts = before.actors@;
            &&& r == Some(PUNCH_TIME_MS as u64)
            &&& after.waiting
            &&& punched(acts, after.actors@, p, h as int)
            &&& oa.len() == ob.len() + 2
            &&& forall|k: int| 0 <= k < ob.len() ==> oa[k] == ob[k]
            &&& (oa[ob.len() as int] matches Outbound::Broadcast(ServerMessage::ServerNotice(t))
                && exists|d: int| is_isqrt(dist2_3d(acts[p].position, pos), d) && t@ == punch_notice(acts[p].name@, acts[h as int].name@, d as nat))
            &&& is_punch_action(oa[ob.len() as int + 1], p as usize, h)
            &&& if acts[h as int].health - PUNCH_DAMAGE <= 0 {
                &&& after.map@.alive == before.map@.alive.insert(pos, Piece::Empty)
                &&& after.map@.dead == before.map@.dead.insert(pos, h)
            } else {
                after.map@ == before.map@
            }
        },
    }
}

/// The rounded distance is above one exactly when the square is at least four.
pub proof fn lemma_isqrt_above_one(n: int, d: int)
    requires
        is_isqrt(n, d),
    ensures
        d > 1 <==> n >= 4,
{
    if d > 1 {
        assert(d * d >= 4) by (nonlinear_arith)
            requires
                d >= 2,
        ;
    } else {
        assert((d + 1) * (d + 1) <= 4) by (nonlinear_arith)
            requires
                0 <= d <= 1,
        ;
    }
}

/// `after` is `before` once actor `p` punched actor `h`: `h` lost
/// `PUNCH_DAMAGE` health and `p` one ability use.
pub open spec fn punched(before: Seq<Actor>, after: Seq<Actor>, p: int, h: int) -> bool {
    &&& after.len() == before.len()
    &&& forall|j: int| 0 <= j < before.len() && j != p && j != h ==> #[trigger] after[j] == before[j]
    &&& after[h].health == before[h].health - PUNCH_DAMAGE
    &&& after[h].position == before[h].position
    &&& after[h].name == before[h].name
    &&& after[h].controller == before[h].controller
    &&& after[h].resources == before[h].resources
    &&& after[p].resources.abilities == before[p].resources.abilities - 1
    &&& after[p].position == before[p].position
    &&& after[p].name == before[p].name
    &&& after[p].controller == before[p].controller
    &&& after[p].health == before[p].health
}

/// `o` tells everyone that actor `p` punched actor `h`.
pub open spec fn is_punch_action(o: Outbound, p: usize, h: usize) -> bool {
    o matches Outbound::Broadcast(ServerMessage::Action { action, actor, target, target_damage, time_ms })
        && action@ == "Punch"@ && actor == p && target == h && target_damage == PUNCH_DAMAGE && time_ms == PUNCH_TIME_MS
}

impl GameStartedState {
    /// The current actor punches whoever stands at `pos`, if it still has
    /// an ability to use and `pos` is within reach: everyone is told, the
    /// target loses health and, at zero or below, leaves the map for the
    /// record of the dead; the game then waits for the punch.
    pub fn current_punch_actor(&mut self, pos: Vec3, out: &mut Vec<Outbound>) -> (r: Option<u64>)
        requires
            old(self).wf(),
            old(self).actors@.len() > 0,
            punch_target(*old(self), pos) matches Some(h) ==> old(self).actors@[h as int].health >= i32::MIN + PUNCH_DAMAGE,
        ensures
            final(self).wf(),
            punch_result(*old(self), *final(self), old(out)@, final(out)@, pos, r),
    {
        let p = self.actor_pointer;
        let count = self.actors.len();
        if self.actors[p].resources.abilities == 0 {
            return None;
        }
        let from = self.actors[p].position;
        let distance = from.distance_capped(pos);
        proof {
            let d2 = dist2_3d(from, pos);
            lemma_isqrt_above_one(if d2 <= u64::MAX { d2 } else { u64::MAX as int }, distance as int);
        }
        if distance > 1 {
            return None;
        }
        let h = match self.map.get(pos) {
            Some(Piece::Actor(h)) => h,
            _ => {
                return None;
            },
        };
        if h == p {
            return None;
        }
        if h >= self.actors.len() {
            return None;
        }
        let ghost old_self = *self;
        let ghost old_out = out@;
        let mut text = concat2(self.actors[p].name.as_str(), " punched ");
        let quoted = debug_str(self.actors[h].name.as_str());
        text.append(quoted.as_str());
        text.append(" at ");
        push_decimal(&mut text, distance);
        text.append("B");
        proof {
            reveal_strlit(" punched ");
            reveal_strlit(" at ");
            reveal_strlit("B");
            assert(text@ == punch_notice(old_self.actors@[p as int].name@, old_self.actors@[h as int].name@, distance as nat));
        }
        out.push(Outbound::Broadcast(ServerMessage::ServerNotice(text)));
        out.push(
            Outbound::Broadcast(
                ServerMessage::Action {
                    action: String::from_str("Punch"),
                    actor: p,
                    target: h,
                    target_damage: PUNCH_DAMAGE,
                    time_ms: PUNCH_TIME_MS,
                },
            ),
        );
        let mut hit = self.actors.remove(h);
        hit.health = hit.health - PUNCH_DAMAGE;
        let dead = hit.health <= 0;
        let hit_pos = hit.position;
        self.actors.insert(h, hit);
        if dead {
            match self.map.get(hit_pos) {
                Some(Piece::Actor(id)) => {
                    self.map.set(hit_pos, Piece::Empty);
                    self.map.dead_set(hit_pos, Some(id));
                },
                _ => {},
            }
        }
        let mut cur = self.actors.remove(p);
        cur.resources.abilities = cur.resources.abilities - 1;
        self.actors.insert(p, cur);
        self.waiting = true;
        proof {
            let before = old_self.actors@;
            assert(before[h as int].position == pos);
            assert forall|j: int| 0 <= j < before.len() && j != p && j != h implies #[trigger] self.actors@[j] == before[j] by {}
            assert forall|j: int| 0 <= j < self.actors@.len() implies in_bounds(self.map@.size, #[trigger] self.actors@[j].position) by {
                if j != p && j != h {
                    assert(self.actors@[j] == before[j]);
                }
            }
            assert forall|q: Vec3| self.map@.alive.dom().contains(q) && (#[trigger] self.map@.alive[q]) is Actor implies {
                let id2 = self.map@.alive[q]->Actor_0;
                &&& id2 < self.actors@.len()
                &&& self.actors@[id2 as int].position == q
            } by {
                assert(self.map@.alive[q] == old_self.map@.alive[q]);
                let id2 = self.map@.alive[q]->Actor_0;
                if id2 != p && id2 != h {
                    assert(self.actors@[id2 as int] == before[id2 as int]);
                }
            }
            assert forall|j: int| 0 <= j < self.actors@.len() && (#[trigger] self.actors@[j]).health > 0 implies self.map@.get(
                self.actors@[j].position,
            ) == Some(Piece::Actor(j as usize)) by {
                if j != p && j != h {
                    assert(self.actors@[j] == before[j]);
                    if before[j].position == pos {
                        assert(old_self.map@.get(pos) == Some(Piece::Actor(h)));
                        assert(j < count);
                        assert((j as usize) as int == j);
                        assert(false);
                    }
                }
            }
        }
        Some(PUNCH_TIME_MS as u64)
    }
}

/// Whether request `req` from `addr` can be carried out in `g` without a
/// fault: an action or the end of a turn from whoever may act needs an
/// actor whose turn it is; walking moves the piece on that actor's cell,
/// so that cell must not hold another actor's piece (which only a dead
/// current actor's cell can); and a punch that lands must not take its
/// target's health below `i32::MIN`. Outside a turn only a bot's requests
/// can meet these limits; the turn's own player always fits but for the
/// last one.
pub open spec fn fits_request(g: GameStartedState, addr: u64, req: ClientRequest) -> bool {
    match req {
        ClientRequest::Action(act, x, y, z) => may_act(g, addr) ==> {
            &&& g.actors@.len() > 0
            &&& g.actors@[g.actor_pointer as int].abilities@.contains(act@) ==> {
                &&& act@ == "Walk"@ ==> walker_ok(g)
                &&& act@ == "Punch"@ ==> (punch_target(g, request_pos(x, y, z)) matches Some(h)
                    ==> g.actors@[h as int].health >= i32::MIN + PUNCH_DAMAGE)
            }
        },
        ClientRequest::EndTurn => may_act(g, addr) ==> g.actors@.len() > 0,
        _ => true,
    }
}

/// Whether `addr` may act now: it is its turn (or it speaks for the bots)
/// and no action is under way.
pub open spec fn may_act(g: GameStartedState, addr: u64) -> bool {
    (g.current_turn == Some(Controller::Player(addr)) || addr == BOT_ADDR) && !g.waiting
}

/// The position a request's coordinates name.
pub open spec fn request_pos(x: usize, y: usize, z: usize) -> Vec3 {
    Vec3 { x: x as i64, y: y as i64, z: z as i64 }
}

/// `oa` is `ob` followed by a wake-up after `r`, if there is one.
pub open spec fn then_wake(ob: Seq<Outbound>, oa: Seq<Outbound>, r: Option<u64>) -> bool {
    match r {
        Some(t) => oa.len() == ob.len() + 1 && oa.subrange(0, ob.len() as int) == ob && (oa.last() matches Outbound::WakeAfter(u) && u == t),
        None => oa == ob,
    }
}

/// The outbound list is `ob` plus the answer to a request outside the
/// game's own handling: `Pong` to a ping, nothing to anything else.
pub open spec fn default_answer(ob: Seq<Outbound>, oa: Seq<Outbound>, addr: u64, is_ping: bool) -> bool {
    if is_ping {
        oa.len() == ob.len() + 1 && oa.subrange(0, ob.len() as int) == ob && (oa.last() matches Outbound::Send(to, ServerMessage::Pong) && to == addr)
    } else {
        oa == ob
    }
}

/// Answers the requests every state handles alike: a ping gets a pong.
pub fn default_client_request(addr: u64, req: &ClientRequest, out: &mut Vec<Outbound>)
    ensures
        default_answer(old(out)@, final(out)@, addr, *req is Ping),
{
    if let ClientRequest::Ping = req {
        let ghost before = out@;
        out.push(Outbound::Send(addr, ServerMessage::Pong));
        proof {
            assert(out@.subrange(0, before.len() as int) =~= before);
        }
    }
}

impl GameStartedState {
    /// Handles a request from `addr` during the game: chat goes to
    /// everyone; on its turn a player (or a bot) may walk, punch, or end the
    /// turn; anything else gets the common answer.
    pub fn client_req(&mut self, addr: u64, req: ClientRequest, clients: &Vec<u64>, out: &mut Vec<Outbound>)
        requires
            old(self).wf(),
            fits_request(*old(self), addr, req),
        ensures
            final(self).wf(),
            match req {
                ClientRequest::ChatMessage(msg) => {
                    &&& *final(self) == *old(self)
                    &&& final(out)@.len() == old(out)@.len() + 1
                    &&& final(out)@.subrange(0, old(out)@.len() as int) == old(out)@
                    &&& (final(out)@.last() matches Outbound::Broadcast(ServerMessage::ChatMessage(from, m)) && from == addr && m@ == msg@)
                },
                ClientRequest::Action(act, x, y, z) => if may_act(*old(self), addr) && old(self).actors@[old(self).actor_pointer as int].abilities@.contains(act@) {
                    if act@ == "Walk"@ {
                        exists|mid: Seq<Outbound>, r: Option<u64>| move_result(*old(self), *final(self), old(out)@, mid, request_pos(x, y, z), r)
                            && #[trigger] then_wake(mid, final(out)@, r)
                    } else if act@ == "Punch"@ {
                        exists|mid: Seq<Outbound>, r: Option<u64>| punch_result(*old(self), *final(self), old(out)@, mid, request_pos(x, y, z), r)
                            && #[trigger] then_wake(mid, final(out)@, r)
                    } else {
                        &&& *final(self) == *old(self)
                        &&& final(out)@.len() == old(out)@.len() + 1
                        &&& final(out)@.subrange(0, old(out)@.len() as int) == old(out)@
                        &&& (final(out)@.last() matches Outbound::Send(to, ServerMessage::ServerNotice(t)) && to == addr
                            && t@ == "unknown ability: "@ + debug_quoted(act@))
                    }
                } else {
                    *final(self) == *old(self) && final(out)@ == old(out)@
                },
                ClientRequest::EndTurn => if may_act(*old(self), addr) {
                    &&& final(self).actor_pointer == match next_alive(old(self).actors@, old(self).actor_pointer as int) {
                        Some(i) => i as usize,
                        None => old(self).actor_pointer,
                    }
                    &&& final(self).actors@[final(self).actor_pointer as int].resources == fresh_turn()
                    &&& final(self).actors@.len() == old(self).actors@.len()
                    &&& forall|i: int| 0 <= i < old(self).actors@.len() && i != final(self).actor_pointer ==> #[trigger] final(self).actors@[i] == old(self).actors@[i]
                    &&& final(self).map@ == old(self).map@
                    &&& final(self).waiting == old(self).waiting
                    &&& match next_alive(old(self).actors@, old(self).actor_pointer as int) {
                        Some(i) => {
                            &&& final(self).current_turn == Some(old(self).actors@[i].controller)
                            &&& final(out)@.len() == old(out)@.len() + clients@.len()
                            &&& forall|k: int| 0 <= k < old(out)@.len() ==> final(out)@[k] == old(out)@[k]
                            &&& forall|k: int| 0 <= k < clients@.len() ==> is_turn_notice(
                                #[trigger] final(out)@[old(out)@.len() + k],
                                clients@[k],
                                old(self).actors@[i],
                                i as usize,
                            )
                        },
                        None => final(self).current_turn == old(self).current_turn && final(out)@ == old(out)@,
                    }
                } else {
                    *final(self) == *old(self) && final(out)@ == old(out)@
                },
                _ => *final(self) == *old(self) && default_answer(old(out)@, final(out)@, addr, req is Ping),
            },
    {
        match req {
            ClientRequest::ChatMessage(msg) => {
                let ghost before = out@;
                out.push(Outbound::Broadcast(ServerMessage::ChatMessage(addr, msg)));
                proof {
                    assert(out@.subrange(0, before.len() as int) =~= before);
                }
            },
            ClientRequest::Action(act, x, y, z) => {
                let turn = self.current_turn == Some(Controller::Player(addr)) || addr.is_bot();
                if turn && !self.waiting && self.current_actor().abilities.contains(act.as_str()) {
                    let pos = Vec3::new(x as i64, y as i64, z as i64);
                    proof {
                        reveal_strlit("Walk");
                        reveal_strlit("Punch");
                    }
                    if crate::text::str_eq(act.as_str(), "Walk") {
                        let r = self.move_current_actor(pos, out);
                        let ghost mid = out@;
                        if let Some(t) = r {
                            out.push(Outbound::WakeAfter(t));
                            proof {
                                assert(out@.subrange(0, mid.len() as int) =~= mid);
                            }
                        }
                        proof {
                            assert(then_wake(mid, out@, r));
                        }
                    } else if crate::text::str_eq(act.as_str(), "Punch") {
                        let r = self.current_punch_actor(pos, out);
                        let ghost mid = out@;
                        if let Some(t) = r {
                            out.push(Outbound::WakeAfter(t));
                            proof {
                                assert(out@.subrange(0, mid.len() as int) =~= mid);
                            }
                        }
                        proof {
                            assert(then_wake(mid, out@, r));
                        }
                    } else {
                        let ghost before = out@;
                        let quoted = debug_str(act.as_str());
                        let text = concat2("unknown ability: ", quoted.as_str());
                        proof {
                            reveal_strlit("unknown ability: ");
                        }
                        out.push(Outbound::Send(addr, ServerMessage::ServerNotice(text)));
                        proof {
                            assert(out@.subrange(0, before.len() as int) =~= before);
                        }
                    }
                }
            },
            ClientRequest::EndTurn => {
                let turn = self.current_turn == Some(Controller::Player(addr)) || addr.is_bot();
                if turn && !self.waiting {
                    self.next_actor(clients, out);
                    self.reset_current_resources();
                }
            },
            other => {
                default_client_request(addr, &other, out);
            },
        }
    }
}

impl GameStartedState {
    /// The actor that a punch of the current actor at `pos` would land on.
    pub fn punch_target_of(&self, pos: Vec3) -> (r: Option<usize>)
        requires
            self.wf(),
            self.actors@.len() > 0,
        ensures
            r == punch_target(*self, pos),
    {
        let p = self.actor_pointer;
        if self.actors[p].resources.abilities == 0 {
            return None;
        }
        let from = self.actors[p].position;
        let distance = from.distance_capped(pos);
        proof {
            let d2 = dist2_3d(from, pos);
            lemma_isqrt_above_one(if d2 <= u64::MAX { d2 } else { u64::MAX as int }, distance as int);
        }
        if distance > 1 {
            return None;
        }
        match self.map.get(pos) {
            Some(Piece::Actor(h)) => if h != p && h < self.actors.len() {
                Some(h)
            } else {
                None
            },
            _ => None,
        }
    }

    /// Whether request `req` from `addr` can be carried out now without a
    /// fault (see `fits_request`).
    pub fn request_fits(&self, addr: u64, req: &ClientRequest) -> (b: bool)
        requires
            self.wf(),
        ensures
            b == fits_request(*self, addr, *req),
    {
        let turn = self.current_turn == Some(Controller::Player(addr)) || addr.is_bot();
        assert(turn && !self.waiting <==> may_act(*self, addr));
        match req {
            ClientRequest::Action(act, x, y, z) => {
                if !turn || self.waiting {
                    return true;
                }
                if self.actors.len() == 0 {
                    return false;
                }
                let p = self.actor_pointer;
                if !self.actors[p].abilities.contains(act.as_str()) {
                    return true;
                }
                proof {
                    reveal_strlit("Walk");
                    reveal_strlit("Punch");
                }
                if crate::text::str_eq(act.as_str(), "Walk") {
                    assert("Walk"@ != "Punch"@) by {
                        assert("Walk"@[0] != "Punch"@[0]);
                    }
                    match self.map.get(self.actors[p].position) {
                        Some(Piece::Actor(q)) => q == p,
                        _ => true,
                    }
                } else if crate::text::str_eq(act.as_str(), "Punch") {
                    let pos = Vec3::new(*x as i64, *y as i64, *z as i64);
                    assert(pos == request_pos(*x, *y, *z));
                    match self.punch_target_of(pos) {
                        Some(h) => self.actors[h].health >= i32::MIN + PUNCH_DAMAGE,
                        None => true,
                    }
                } else {
                    true
                }
            },
            ClientRequest::EndTurn => !turn || self.waiting || self.actors.len() > 0,
            _ => true,
        }
    }
}

/// The positions of the living actors among the first `k` neighbors in
/// `nb`: the cells a bot may punch.
pub open spec fn living_targets(actors: Seq<Actor>, nb: Seq<(Piece, Vec3)>, k: int) -> Seq<Vec3>
    decreases k,
{
    if k <= 0 {
        Seq::empty()
    } else {
        let prev = living_targets(actors, nb, k - 1);
        match nb[k - 1].0 {
            Piece::Actor(i) => if i < actors.len() && actors[i as int].health > 0 {
                prev.push(nb[k - 1].1)
            } else {
                prev
            },
            _ => prev,
        }
    }
}

/// The first place of lowest cost among `cands`.
pub open spec fn is_first_cheapest(cands: Seq<(Vec3, usize)>, i: int) -> bool {
    &&& 0 <= i < cands.len()
    &&& forall|j: int| 0 <= j < cands.len() ==> cands[i].1 <= #[trigger] cands[j].1
    &&& forall|j: int| 0 <= j < i ==> cands[i].1 < #[trigger] cands[j].1
}

/// The first place of lowest cost, as `Iterator::min_by_key` picks it.
pub fn first_cheapest(cands: &Vec<(Vec3, usize)>) -> (r: Option<Vec3>)
    ensures
        cands@.len() == 0 ==> r is None,
        cands@.len() > 0 ==> exists|i: int| is_first_cheapest(cands@, i) && r == Some(#[trigger] cands@[i].0),
{
    if cands.len() == 0 {
        return None;
    }
    let mut best: usize = 0;
    let mut k: usize = 1;
    while k < cands.len()
        invariant
            1 <= k <= cands@.len(),
            best < k,
            forall|j: int| 0 <= j < k ==> cands@[best as int].1 <= #[trigger] cands@[j].1,
            forall|j: int| 0 <= j < best ==> cands@[best as int].1 < #[trigger] cands@[j].1,
        decreases cands@.len() - k,
    {
        if cands[k].1 < cands[best].1 {
            best = k;
        }
        k = k + 1;
    }
    proof {
        assert(is_first_cheapest(cands@, best as int));
    }
    Some(cands[best].0)
}

/// The request to act at `v`.
pub open spec fn is_act_at(req: ClientRequest, name: Seq<char>, v: Vec3) -> bool {
    req matches ClientRequest::Action(a, x, y, z) && a@ == name && x == ucoord(v.x) && y == ucoord(v.y) && z == ucoord(v.z)
}

/// The cost of the route A* finds from `from` to `to` (0 where it finds
/// none).
pub open spec fn route_cost(m: MapView, from: Vec3, to: Vec3) -> int {
    match crate::paths::astar_route(m, from, to) {
        Some((_, c)) => c as int,
        None => 0,
    }
}

/// `w` is a cell beside `target` that the walker at `from` may end on: an
/// empty neighbor on ground that A* finds a route to.
pub open spec fn reachable_step(m: MapView, from: Vec3, target: Vec3, w: Vec3) -> bool {
    crate::paths::is_step(m, target, w) && crate::paths::astar_route(m, from, w) is Some
}

/// No cell beside `target` can be reached from `from`.
pub open spec fn no_way_to(m: MapView, from: Vec3, target: Vec3) -> bool {
    forall|w: Vec3| !#[trigger] reachable_step(m, from, target, w)
}

/// `v` is a cell beside `target` reachable from `from` at the lowest cost
/// among all such cells.
pub open spec fn cheapest_step_to(m: MapView, from: Vec3, target: Vec3, v: Vec3) -> bool {
    &&& reachable_step(m, from, target, v)
    &&& forall|w: Vec3| #[trigger] reachable_step(m, from, target, w) ==> route_cost(m, from, v)
        <= route_cost(m, from, w)
}

/// The cell `e` (a piece with its place) holds a living actor of `actors`.
pub open spec fn holds_living(actors: Seq<Actor>, e: (Piece, Vec3)) -> bool {
    e.0 matches Piece::Actor(h) && h < actors.len() && actors[h as int].health > 0
}

/// Some of the first `k` neighbors in `nb` holds a living actor at `v`.
pub open spec fn living_at(actors: Seq<Actor>, nb: Seq<(Piece, Vec3)>, k: int, v: Vec3) -> bool {
    exists|i: int| 0 <= i < k && #[trigger] holds_living(actors, nb[i]) && nb[i].1 == v
}

/// The cells a bot may punch are exactly the places, among the first `k`
/// neighbors in `nb`, that hold a living actor.
pub proof fn lemma_living_targets_law(actors: Seq<Actor>, nb: Seq<(Piece, Vec3)>, k: int)
    requires
        0 <= k <= nb.len(),
    ensures
        forall|t: int| 0 <= t < living_targets(actors, nb, k).len() ==> living_at(actors, nb, k, #[trigger] living_targets(actors, nb, k)[t]),
        forall|i: int| 0 <= i < k && #[trigger] holds_living(actors, nb[i]) ==> living_targets(actors, nb, k).contains(nb[i].1),
    decreases k,
{
    if k > 0 {
        lemma_living_targets_law(actors, nb, k - 1);
        let prev = living_targets(actors, nb, k - 1);
        let cur = living_targets(actors, nb, k);
        assert forall|t: int| 0 <= t < cur.len() implies living_at(actors, nb, k, #[trigger] cur[t]) by {
            if t < prev.len() {
                assert(cur[t] == prev[t]);
                assert(living_at(actors, nb, k - 1, prev[t]));
                let i = choose|i: int| 0 <= i < k - 1 && #[trigger] holds_living(actors, nb[i]) && nb[i].1 == prev[t];
                assert(0 <= i < k && holds_living(actors, nb[i]) && nb[i].1 == cur[t]);
            } else {
                assert(cur =~= prev.push(nb[k - 1].1));
                assert(holds_living(actors, nb[k - 1]));
                assert(0 <= k - 1 < k && holds_living(actors, nb[k - 1]) && nb[k - 1].1 == cur[t]);
            }
        }
        assert forall|i: int| 0 <= i < k && #[trigger] holds_living(actors, nb[i]) implies cur.contains(nb[i].1) by {
            if i < k - 1 {
                let t = choose|t: int| 0 <= t < prev.len() && prev[t] == nb[i].1;
                assert(cur[t] == nb[i].1);
            } else {
                assert(cur[cur.len() - 1] == nb[i].1);
            }
        }
    }
}

/// A bot with an ability left punches when a neighbor cell (as the walking
/// neighbors list them) holds a living actor: it makes one request, a
/// punch at such a cell. When no neighbor holds a living actor it punches
/// no one.
pub proof fn lemma_bot_punches_living_neighbor(a: Actor, state: GameStartedState, r: Seq<ClientRequest>)
    requires
        bot_plan(a, state, r),
        a.resources.abilities > 0,
    ensures
        (exists|i: int| 0 <= i < neighbors(state.map@, false, a.position).len()
            && #[trigger] holds_living(state.actors@, neighbors(state.map@, false, a.position)[i])) ==> {
            &&& r.len() == 1
            &&& exists|i: int| 0 <= i < neighbors(state.map@, false, a.position).len()
                && #[trigger] holds_living(state.actors@, neighbors(state.map@, false, a.position)[i])
                && is_act_at(r[0], "Punch"@, neighbors(state.map@, false, a.position)[i].1)
        },
        (forall|i: int| 0 <= i < neighbors(state.map@, false, a.position).len()
            ==> !#[trigger] holds_living(state.actors@, neighbors(state.map@, false, a.position)[i]))
            ==> (r == seq![ClientRequest::EndTurn] || (r.len() == 2 && (r[1] matches ClientRequest::Action(act, _, _, _) && act@ == "Walk"@))),
{
    let nb = neighbors(state.map@, false, a.position);
    let targets = living_targets(state.actors@, nb, nb.len() as int);
    lemma_living_targets_law(state.actors@, nb, nb.len() as int);
    if exists|i: int| 0 <= i < nb.len() && #[trigger] holds_living(state.actors@, nb[i]) {
        let i0 = choose|i: int| 0 <= i < nb.len() && #[trigger] holds_living(state.actors@, nb[i]);
        assert(targets.contains(nb[i0].1));
        assert(targets.len() > 0);
        let k = choose|k: int| 0 <= k < targets.len() && is_act_at(r[0], "Punch"@, #[trigger] targets[k]);
        assert(living_at(state.actors@, nb, nb.len() as int, targets[k]));
        let i = choose|i: int| 0 <= i < nb.len() && #[trigger] holds_living(state.actors@, nb[i]) && nb[i].1 == targets[k];
        assert(is_act_at(r[0], "Punch"@, nb[i].1));
    }
    if forall|i: int| 0 <= i < nb.len() ==> !#[trigger] holds_living(state.actors@, nb[i]) {
        if targets.len() > 0 {
            assert(living_at(state.actors@, nb, nb.len() as int, targets[0]));
            let i = choose|i: int| 0 <= i < nb.len() && #[trigger] holds_living(state.actors@, nb[i]) && nb[i].1 == targets[0];
            assert(false);
        }
    }
}

/// `v` comes first, in the order of the neighbors of `target`, among the
/// cells beside `target` that are reachable from `from` at the lowest cost:
/// every empty, reachable neighbor listed before it costs more.
pub open spec fn first_cheapest_step(m: MapView, from: Vec3, target: Vec3, v: Vec3) -> bool {
    exists|i: int| 0 <= i < neighbors(m, false, target).len() && neighbors(m, false, target)[i] == (Piece::Empty, v)
        && forall|k: int| 0 <= k < i && (#[trigger] neighbors(m, false, target)[k]).0 == Piece::Empty
            && crate::paths::astar_route(m, from, neighbors(m, false, target)[k].1) is Some
            ==> route_cost(m, from, v) < route_cost(m, from, neighbors(m, false, target)[k].1)
}

/// What a bot whose actor is `a` may ask for on its turn in `state`: with
/// no ability left it ends the turn; next to a living actor it punches one
/// of them; otherwise it ends the turn when no other living actor can be
/// walked up to (or the one it picked cannot), or says whom it targets and
/// walks to the first of the cheapest reachable cells beside that actor.
pub open spec fn bot_plan(a: Actor, state: GameStartedState, r: Seq<ClientRequest>) -> bool {
    let nb = neighbors(state.map@, false, a.position);
    let targets = living_targets(state.actors@, nb, nb.len() as int);
    if a.resources.abilities == 0 {
        r == seq![ClientRequest::EndTurn]
    } else if targets.len() > 0 {
        r.len() == 1 && exists|k: int| 0 <= k < targets.len() && is_act_at(r[0], "Punch"@, #[trigger] targets[k])
    } else {
        ||| (r == seq![ClientRequest::EndTurn] && forall|j: int| 0 <= j < state.actors@.len()
            && state.actors@[j].position != a.position && state.actors@[j].health > 0 ==> #[trigger] no_way_to(
            state.map@, a.position, state.actors@[j].position))
        ||| (r == seq![ClientRequest::EndTurn] && exists|j: int| 0 <= j < state.actors@.len()
            && state.actors@[j].position != a.position && state.actors@[j].health > 0 && #[trigger] no_way_to(
            state.map@, a.position, state.actors@[j].position))
        ||| (r.len() == 2 && exists|j: int, v: Vec3|
            0 <= j < state.actors@.len() && #[trigger] state.actors@[j].position != a.position
            && state.actors@[j].health > 0 && (r[0] matches ClientRequest::ChatMessage(t)
            && t@ == a.name@ + " targeting "@ + state.actors@[j].name@) && #[trigger] is_act_at(r[1], "Walk"@, v)
            && cheapest_step_to(state.map@, a.position, state.actors@[j].position, v)
            && first_cheapest_step(state.map@, a.position, state.actors@[j].position, v))
    }
}

impl Actor {
    /// What a bot does on its turn, as the requests it makes: with no
    /// ability left it ends the turn; next to a living actor it punches one
    /// of them at random; otherwise it picks another living actor at random
    /// and walks to the cheapest reachable empty cell beside it, saying so,
    /// or ends the turn when there is none.
    pub fn bot_act(&self, state: &GameStartedState) -> (r: Vec<ClientRequest>)
        requires
            state.wf(),
        ensures
            bot_plan(*self, *state, r@),
    {
        let mut r: Vec<ClientRequest> = Vec::new();
        let nb = state.get_neighbors(false, self.position);
        assert(nb@.len() <= 26) by {
            lemma_neighbors_len(state.map@, false, self.position, 27);
        }
        let mut targets: Vec<Vec3> = Vec::new();
        let mut k: usize = 0;
        while k < nb.len()
            invariant
                state.wf(),
                k <= nb@.len(),
                nb@.len() <= 26,
                targets@ == living_targets(state.actors@, nb@, k as int),
            decreases nb@.len() - k,
        {
            match nb[k].0 {
                Piece::Actor(i) => {
                    if i < state.actors.len() && state.actors[i].health > 0 {
                        targets.push(nb[k].1);
                    }
                },
                _ => {},
            }
            k = k + 1;
        }
        if self.resources.abilities == 0 {
            r.push(ClientRequest::EndTurn);
            return r;
        }
        if targets.len() > 0 {
            let pick = random_below(targets.len() as u64) as usize;
            let v = targets[pick];
            r.push(ClientRequest::Action(String::from_str("Punch"), v.x as usize, v.y as usize, v.z as usize));
            proof {
                reveal_strlit("Punch");
                assert(is_act_at(r@[0], "Punch"@, targets@[pick as int]));
            }
            return r;
        }
        let mut others: Vec<usize> = Vec::new();
        let mut j: usize = 0;
        while j < state.actors.len()
            invariant
                j <= state.actors@.len(),
                forall|m: int| 0 <= m < others@.len() ==> (#[trigger] others@[m]) < state.actors@.len()
                    && state.actors@[others@[m] as int].position != self.position && state.actors@[others@[m] as int].health > 0,
                forall|m: int| 0 <= m < j && (#[trigger] state.actors@[m]).position != self.position && state.actors@[m].health > 0
                    ==> others@.len() > 0,
            decreases state.actors@.len() - j,
        {
            if state.actors[j].position != self.position && state.actors[j].health > 0 {
                others.push(j);
            }
            j = j + 1;
        }
        if others.len() == 0 {
            r.push(ClientRequest::EndTurn);
            proof {
                assert(r@ =~= seq![ClientRequest::EndTurn]);
            }
            return r;
        }
        let t = others[random_below(others.len() as u64) as usize];
        let target_pos = state.actors[t].position;
        let around = state.get_neighbors(false, target_pos);
        let mut cands: Vec<(Vec3, usize)> = Vec::new();
        let ghost mut idx: Seq<int> = Seq::empty();
        let mut k: usize = 0;
        while k < around.len()
            invariant
                state.wf(),
                k <= around@.len(),
                around@ == neighbors(state.map@, false, target_pos),
                idx.len() == cands@.len(),
                forall|c: int| 0 <= c < cands@.len() ==> 0 <= #[trigger] idx[c] < k && around@[idx[c]] == (Piece::Empty, cands@[c].0),
                forall|c1: int, c2: int| 0 <= c1 < c2 < cands@.len() ==> #[trigger] idx[c1] < #[trigger] idx[c2],
                forall|m: int| 0 <= m < k && (#[trigger] around@[m]).0 == Piece::Empty && crate::paths::astar_route(state.map@, self.position, around@[m].1) is Some
                    ==> exists|c: int| 0 <= c < cands@.len() && #[trigger] idx[c] == m,
                forall|m: int| 0 <= m < cands@.len() ==> reachable_step(state.map@, self.position, target_pos, (#[trigger] cands@[m]).0)
                    && route_cost(state.map@, self.position, cands@[m].0) == cands@[m].1,
                forall|m: int| 0 <= m < k && (#[trigger] around@[m]).0 == Piece::Empty && crate::paths::astar_route(state.map@, self.position, around@[m].1) is Some
                    ==> exists|c: int| 0 <= c < cands@.len() && (#[trigger] cands@[c]).0 == around@[m].1,
            decreases around@.len() - k,
        {
            let (piece, v) = around[k];
            let ghost before = cands@;
            let ghost before_idx = idx;
            if piece == Piece::Empty {
                match state.pathfind(self.position, v) {
                    Some((_, c)) => {
                        proof {
                            assert(around@[k as int] == (Piece::Empty, v));
                        }
                        cands.push((v, c));
                        proof {
                            assert(cands@[before.len() as int].0 == v);
                            idx = idx.push(k as int);
                        }
                    },
                    None => {},
                }
            }
            proof {
                assert forall|m: int| 0 <= m < k + 1 && (#[trigger] around@[m]).0 == Piece::Empty && crate::paths::astar_route(state.map@, self.position, around@[m].1) is Some
                    implies exists|c: int| 0 <= c < cands@.len() && (#[trigger] cands@[c]).0 == around@[m].1 by {
                    if m < k {
                        let c = choose|c: int| 0 <= c < before.len() && (#[trigger] before[c]).0 == around@[m].1;
                        assert(cands@[c] == before[c]);
                    } else {
                        assert(cands@[before.len() as int].0 == v);
                    }
                }
                assert forall|m: int| 0 <= m < k + 1 && (#[trigger] around@[m]).0 == Piece::Empty && crate::paths::astar_route(state.map@, self.position, around@[m].1) is Some
                    implies exists|c: int| 0 <= c < cands@.len() && #[trigger] idx[c] == m by {
                    if m == k {
                        assert(idx[before.len() as int] == m);
                    } else {
                        let c = choose|c: int| 0 <= c < before.len() && #[trigger] before_idx[c] == m;
                        assert(idx[c] == before_idx[c]);
                    }
                }
            }
            k = k + 1;
        }
        proof {
            assert forall|w: Vec3| #[trigger] reachable_step(state.map@, self.position, target_pos, w)
                implies exists|c: int| 0 <= c < cands@.len() && (#[trigger] cands@[c]).0 == w by {
                let m = choose|m: int| 0 <= m < neighbors(state.map@, false, target_pos).len() && #[trigger] neighbors(state.map@, false, target_pos)[m] == (Piece::Empty, w);
                assert(around@[m] == (Piece::Empty, w));
            }
        }
        match first_cheapest(&cands) {
            Some(v) => {
                let mut text = concat2(self.name.as_str(), " targeting ");
                text.append(state.actors[t].name.as_str());
                r.push(ClientRequest::ChatMessage(text));
                r.push(ClientRequest::Action(String::from_str("Walk"), v.x as usize, v.y as usize, v.z as usize));
                proof {
                    reveal_strlit("Walk");
                    let i = choose|i: int| is_first_cheapest(cands@, i) && Some(v) == Some(#[trigger] cands@[i].0);
                    assert(is_act_at(r@[1], "Walk"@, v));
                    assert forall|w: Vec3| #[trigger] reachable_step(state.map@, self.position, target_pos, w)
                        implies route_cost(state.map@, self.position, v) <= route_cost(state.map@, self.position, w) by {
                        let c = choose|c: int| 0 <= c < cands@.len() && (#[trigger] cands@[c]).0 == w;
                        assert(cands@[i].1 <= cands@[c].1);
                    }
                    assert(cheapest_step_to(state.map@, self.position, state.actors@[t as int].position, v));
                    let ii = idx[i];
                    assert forall|k2: int| 0 <= k2 < ii && (#[trigger] around@[k2]).0 == Piece::Empty
                        && crate::paths::astar_route(state.map@, self.position, around@[k2].1) is Some
                        implies route_cost(state.map@, self.position, v) < route_cost(state.map@, self.position, around@[k2].1) by {
                        let c = choose|c: int| 0 <= c < cands@.len() && #[trigger] idx[c] == k2;
                        if c >= i {
                            if c > i {
                                assert(idx[i] < idx[c]);
                            }
                            assert(false);
                        }
                        assert(cands@[i].1 < cands@[c].1);
                    }
                    assert(first_cheapest_step(state.map@, self.position, state.actors@[t as int].position, v));
                    assert(r@[0] matches ClientRequest::ChatMessage(tx) && tx@ == self.name@ + " targeting "@ + state.actors@[t as int].name@);
                }
            },
            None => {
                r.push(ClientRequest::EndTurn);
                proof {
                    assert(no_way_to(state.map@, self.position, state.actors@[t as int].position)) by {
                        assert forall|w: Vec3| !#[trigger] reachable_step(state.map@, self.position, target_pos, w) by {
                            if reachable_step(state.map@, self.position, target_pos, w) {
                                let c = choose|c: int| 0 <= c < cands@.len() && (#[trigger] cands@[c]).0 == w;
                            }
                        }
                    }
                    assert(r@ =~= seq![ClientRequest::EndTurn]);
                }
            },
        }
        r
    }
}

/// There are at most as many neighbors as offsets looked at.
pub proof fn lemma_neighbors_len(m: MapView, air: bool, p: Vec3, k: int)
    requires
        0 <= k,
    ensures
        crate::paths::neighbors_upto(m, air, p, k).len() <= if k > 13 { k - 1 } else { k },
    decreases k,
{
    if k > 0 {
        lemma_neighbors_len(m, air, p, k - 1);
    }
}


} // verus!
