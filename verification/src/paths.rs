//! Moving around the map: the cells next to a cell, where an actor can
//! step, and routes found by A* search.

use vstd::prelude::*;
use crate::math::{Vec3, isqrt, is_isqrt, dist2_3d};
use crate::map::{VoxelMap, MapView, Piece};

verus! {

/// The offset of the `k`-th neighbor, for `k` in `0..27` (13 is the cell
/// itself): `x` varies fastest, then `y`, then `z`, each from -1 to 1.
pub open spec fn offset_of(k: int) -> (int, int, int) {
    (k % 3 - 1, (k / 3) % 3 - 1, k / 9 - 1)
}

/// The cell at offset `k` from `p`, coordinates wrapping around.
pub open spec fn offset_pos(p: Vec3, k: int) -> Vec3 {
    let (dx, dy, dz) = offset_of(k);
    Vec3 { x: p.x.wrapping_add(dx as i64), y: p.y.wrapping_add(dy as i64), z: p.z.wrapping_add(dz as i64) }
}

/// The cell right below `v`.
pub open spec fn below(v: Vec3) -> Vec3 {
    Vec3 { x: v.x, y: v.y.wrapping_sub(1), z: v.z }
}

/// The neighbors of `p` among the first `k` offsets: every cell inside the
/// map, with its piece; unless `air`, only those standing on ground.
pub open spec fn neighbors_upto(m: MapView, air: bool, p: Vec3, k: int) -> Seq<(Piece, Vec3)>
    decreases k,
{
    if k <= 0 {
        Seq::empty()
    } else {
        let prev = neighbors_upto(m, air, p, k - 1);
        let v = offset_pos(p, k - 1);
        if k - 1 == 13 {
            prev
        } else {
            match m.get(v) {
                Some(piece) => if air || m.get(below(v)) == Some(Piece::Ground) {
                    prev.push((piece, v))
                } else {
                    prev
                },
                None => prev,
            }
        }
    }
}

/// The neighbors of `p` in the map, in offset order.
pub open spec fn neighbors(m: MapView, air: bool, p: Vec3) -> Seq<(Piece, Vec3)> {
    neighbors_upto(m, air, p, 27)
}

/// Whether `v` is one of the 26 cells around `p` (all offsets but the cell
/// itself).
pub open spec fn around(p: Vec3, v: Vec3) -> bool {
    exists|o: int| 0 <= o < 27 && o != 13 && #[trigger] offset_pos(p, o) == v
}

/// What the neighbors of `p` are, among the first `k` offsets: each is a
/// cell of the map around `p` with the piece it holds and, when `air` is
/// off, ground right below it; and every such cell is listed (every cell
/// of the map around `p` when `air` is on).
pub proof fn lemma_neighbors_upto_law(m: MapView, air: bool, p: Vec3, k: int)
    requires
        0 <= k <= 27,
    ensures
        forall|j: int| 0 <= j < neighbors_upto(m, air, p, k).len() ==> {
            let (piece, v) = #[trigger] neighbors_upto(m, air, p, k)[j];
            &&& m.get(v) == Some(piece)
            &&& exists|o: int| 0 <= o < k && o != 13 && #[trigger] offset_pos(p, o) == v
            &&& !air ==> m.get(below(v)) == Some(Piece::Ground)
        },
        forall|o: int| 0 <= o < k && o != 13 && #[trigger] m.get(offset_pos(p, o)) is Some
            && (air || m.get(below(offset_pos(p, o))) == Some(Piece::Ground))
            ==> neighbors_upto(m, air, p, k).contains((m.get(offset_pos(p, o))->Some_0, offset_pos(p, o))),
    decreases k,
{
    if k > 0 {
        lemma_neighbors_upto_law(m, air, p, k - 1);
        let prev = neighbors_upto(m, air, p, k - 1);
        let cur = neighbors_upto(m, air, p, k);
        let v = offset_pos(p, k - 1);
        assert forall|j: int| 0 <= j < cur.len() implies {
            let (piece, w) = #[trigger] cur[j];
            &&& m.get(w) == Some(piece)
            &&& exists|o: int| 0 <= o < k && o != 13 && #[trigger] offset_pos(p, o) == w
            &&& !air ==> m.get(below(w)) == Some(Piece::Ground)
        } by {
            if j < prev.len() {
                assert(cur[j] == prev[j]);
                let (piece, w) = prev[j];
                let o = choose|o: int| 0 <= o < k - 1 && o != 13 && #[trigger] offset_pos(p, o) == w;
                assert(0 <= o < k && o != 13 && offset_pos(p, o) == w);
            } else {
                assert(cur[j].1 == v);
                assert(offset_pos(p, k - 1) == v);
            }
        }
        assert forall|o: int| 0 <= o < k && o != 13 && #[trigger] m.get(offset_pos(p, o)) is Some
            && (air || m.get(below(offset_pos(p, o))) == Some(Piece::Ground))
            implies cur.contains((m.get(offset_pos(p, o))->Some_0, offset_pos(p, o))) by {
            let e = (m.get(offset_pos(p, o))->Some_0, offset_pos(p, o));
            if o < k - 1 {
                assert(prev.contains(e));
                let j = choose|j: int| 0 <= j < prev.len() && prev[j] == e;
                assert(cur[j] == e);
            } else {
                assert(cur[cur.len() - 1] == e);
            }
        }
    }
}

/// The neighbors of `p`: each listed cell lies around `p` inside the map,
/// with the piece it holds, and without `air` stands on ground; every cell
/// of the map around `p` is listed when `air` is on, and every one that
/// stands on ground when it is off.
pub proof fn lemma_neighbors_law(m: MapView, air: bool, p: Vec3)
    ensures
        forall|j: int| 0 <= j < neighbors(m, air, p).len() ==> {
            let (piece, v) = #[trigger] neighbors(m, air, p)[j];
            &&& m.get(v) == Some(piece)
            &&& around(p, v)
            &&& !air ==> m.get(below(v)) == Some(Piece::Ground)
        },
        forall|o: int| 0 <= o < 27 && o != 13 && #[trigger] m.get(offset_pos(p, o)) is Some
            && (air || m.get(below(offset_pos(p, o))) == Some(Piece::Ground))
            ==> neighbors(m, air, p).contains((m.get(offset_pos(p, o))->Some_0, offset_pos(p, o))),
{
    lemma_neighbors_upto_law(m, air, p, 27);
    assert forall|j: int| 0 <= j < neighbors(m, air, p).len() implies {
        let (piece, v) = #[trigger] neighbors(m, air, p)[j];
        &&& m.get(v) == Some(piece)
        &&& around(p, v)
        &&& !air ==> m.get(below(v)) == Some(Piece::Ground)
    } by {
        let (piece, v) = neighbors(m, air, p)[j];
        let o = choose|o: int| 0 <= o < 27 && o != 13 && #[trigger] offset_pos(p, o) == v;
    }
}

/// An actor at `p` can step to `q`: `q` is an empty neighbor standing on
/// ground.
pub open spec fn is_step(m: MapView, p: Vec3, q: Vec3) -> bool {
    exists|i: int| 0 <= i < neighbors(m, false, p).len() && #[trigger] neighbors(m, false, p)[i] == (Piece::Empty, q)
}

/// `path` leads from `from` to `to` by steps, visiting no cell twice.
pub open spec fn is_route(m: MapView, path: Seq<Vec3>, from: Vec3, to: Vec3) -> bool {
    &&& path.len() >= 1
    &&& path[0] == from
    &&& path.last() == to
    &&& forall|i: int| 0 <= i < path.len() - 1 ==> is_step(m, #[trigger] path[i], path[i + 1])
    &&& forall|i: int, j: int| 0 <= i < j < path.len() ==> #[trigger] path[i] != #[trigger] path[j]
}

/// Some route leads from `from` to `to`.
pub open spec fn has_route(m: MapView, from: Vec3, to: Vec3) -> bool {
    exists|path: Seq<Vec3>| #[trigger] is_route(m, path, from, to)
}

/// The estimate A* is guided by: ten times the straight distance, rounded
/// down, capped at the largest `u64`.
pub open spec fn guide_estimate(p: Vec3, to: Vec3, r: int) -> bool {
    let d = 100 * dist2_3d(p, to);
    is_isqrt(if d <= u64::MAX { d } else { u64::MAX as int }, r)
}

impl VoxelMap {
    /// The neighbors of `p`, in offset order.
    pub fn neighbors(&self, air: bool, p: Vec3) -> (r: Vec<(Piece, Vec3)>)
        requires
            self.inv(),
        ensures
            r@ == neighbors(self@, air, p),
            forall|j: int| 0 <= j < r@.len() ==> self@.get((#[trigger] r@[j]).1) == Some(r@[j].0) && around(p, r@[j].1)
                && (!air ==> self@.get(below(r@[j].1)) == Some(Piece::Ground)),
            forall|o: int| 0 <= o < 27 && o != 13 && #[trigger] self@.get(offset_pos(p, o)) is Some
                && (air || self@.get(below(offset_pos(p, o))) == Some(Piece::Ground))
                ==> r@.contains((self@.get(offset_pos(p, o))->Some_0, offset_pos(p, o))),
    {
        proof {
            lemma_neighbors_law(self@, air, p);
        }
        let mut r: Vec<(Piece, Vec3)> = Vec::with_capacity(9);
        let mut k: i64 = 0;
        while k < 27
            invariant
                self.inv(),
                0 <= k <= 27,
                r@ == neighbors_upto(self@, air, p, k as int),
            decreases 27 - k,
        {
            if k != 13 {
                let dx: i64 = k % 3 - 1;
                let dy: i64 = (k / 3) % 3 - 1;
                let dz: i64 = k / 9 - 1;
                let v = Vec3::new(p.x.wrapping_add(dx), p.y.wrapping_add(dy), p.z.wrapping_add(dz));
                assert(v == offset_pos(p, k as int));
                match self.get(v) {
                    Some(piece) => {
                        if air {
                            r.push((piece, v));
                        } else {
                            let under = Vec3::new(v.x, v.y.wrapping_sub(1), v.z);
                            if let Some(Piece::Ground) = self.get(under) {
                                r.push((piece, v));
                            }
                        }
                    },
                    None => {},
                }
            }
            k = k + 1;
        }
        proof {
            assert forall|j: int| 0 <= j < r@.len() implies self@.get((#[trigger] r@[j]).1) == Some(r@[j].0) && around(p, r@[j].1)
                && (!air ==> self@.get(below(r@[j].1)) == Some(Piece::Ground)) by {
                assert(r@[j] == neighbors(self@, air, p)[j]);
            }
        }
        r
    }
}

/// Where an actor at `p` can step, each at cost one.
pub fn walkable_steps(map: &VoxelMap, p: Vec3) -> (r: Vec<(Vec3, usize)>)
    requires
        map.inv(),
    ensures
        forall|i: int| 0 <= i < r@.len() ==> (#[trigger] r@[i]).1 == 1 && is_step(map@, p, r@[i].0),
        forall|q: Vec3| is_step(map@, p, q) ==> exists|i: int| 0 <= i < r@.len() && (#[trigger] r@[i]).0 == q,
{
    let nb = map.neighbors(false, p);
    let mut r: Vec<(Vec3, usize)> = Vec::new();
    let mut i: usize = 0;
    while i < nb.len()
        invariant
            i <= nb@.len(),
            nb@ == neighbors(map@, false, p),
            forall|j: int| 0 <= j < r@.len() ==> (#[trigger] r@[j]).1 == 1 && is_step(map@, p, r@[j].0),
            forall|j: int| 0 <= j < i && (#[trigger] nb@[j]).0 == Piece::Empty ==> exists|l: int| 0 <= l < r@.len() && (#[trigger] r@[l]).0 == nb@[j].1,
        decreases nb@.len() - i,
    {
        let (piece, v) = nb[i];
        let ghost old_r = r@;
        if piece == Piece::Empty {
            proof {
                assert(neighbors(map@, false, p)[i as int] == (Piece::Empty, v));
            }
            r.push((v, 1));
            proof {
                assert(r@[r@.len() - 1].0 == v);
            }
        }
        proof {
            assert forall|j: int| 0 <= j < i + 1 && (#[trigger] nb@[j]).0 == Piece::Empty implies exists|l: int| 0 <= l < r@.len() && (#[trigger] r@[l]).0 == nb@[j].1 by {
                if j < i {
                    let l = choose|l: int| 0 <= l < old_r.len() && (#[trigger] old_r[l]).0 == nb@[j].1;
                    assert(r@[l] == old_r[l]);
                } else {
                    assert(r@[r@.len() - 1].0 == nb@[j].1);
                }
            }
        }
        i = i + 1;
    }
    proof {
        assert forall|q: Vec3| is_step(map@, p, q) implies exists|l: int| 0 <= l < r@.len() && (#[trigger] r@[l]).0 == q by {
            let j = choose|j: int| 0 <= j < neighbors(map@, false, p).len() && #[trigger] neighbors(map@, false, p)[j] == (Piece::Empty, q);
            assert(nb@[j].0 == Piece::Empty);
        }
    }
    r
}

/// The A* estimate of the remaining cost from `p` to `to`.
pub fn guide_heuristic(p: Vec3, to: Vec3) -> (r: usize)
    ensures
        guide_estimate(p, to, r as int),
{
    let dx: i128 = p.x as i128 - to.x as i128;
    let dy: i128 = p.y as i128 - to.y as i128;
    let dz: i128 = p.z as i128 - to.z as i128;
    let lim: i128 = 0x100_0000_0000;
    let r: u64 = if -lim < dx && dx < lim && -lim < dy && dy < lim && -lim < dz && dz < lim {
        assert(0 <= dx * dx < 0x1_0000_0000_0000_0000_0000 && 0 <= dy * dy < 0x1_0000_0000_0000_0000_0000 && 0 <= dz
            * dz < 0x1_0000_0000_0000_0000_0000) by (nonlinear_arith)
            requires
                -0x100_0000_0000 < dx < 0x100_0000_0000,
                -0x100_0000_0000 < dy < 0x100_0000_0000,
                -0x100_0000_0000 < dz < 0x100_0000_0000,
        ;
        let d: i128 = 100 * (dx * dx + dy * dy + dz * dz);
        if d <= 0xffff_ffff_ffff_ffff {
            isqrt(d as u64)
        } else {
            isqrt(0xffff_ffff_ffff_ffff)
        }
    } else {
        assert(100 * dist2_3d(p, to) > u64::MAX) by (nonlinear_arith)
            requires
                dx == p.x - to.x,
                dy == p.y - to.y,
                dz == p.z - to.z,
                !(-0x100_0000_0000 < dx < 0x100_0000_0000 && -0x100_0000_0000 < dy < 0x100_0000_0000 && -0x100_0000_0000
                    < dz < 0x100_0000_0000),
        ;
        isqrt(0xffff_ffff_ffff_ffff)
    };
    proof {
        assert(r * r <= u64::MAX);
        assert(r < 0x1_0000_0000) by (nonlinear_arith)
            requires
                r * r <= u64::MAX,
                r >= 0,
        ;
    }
    r as usize
}

/// Whether the search has reached `to`.
pub fn at_goal(p: &Vec3, to: &Vec3) -> (r: bool)
    ensures
        r == (*p == *to),
{
    *p == *to
}

/// The route A* search finds on `m` from `from` to `to` (searching steps of
/// cost one, guided by `guide_estimate`), with the cost it reports, or
/// `None` when it finds none.
pub uninterp spec fn astar_route(m: MapView, from: Vec3, to: Vec3) -> Option<(Seq<Vec3>, usize)>;

/// `pathfinding::directed::astar::astar` from `from`, with `walkable_steps`
/// as successors, `guide_heuristic` as heuristic and reaching `to` as the
/// goal. Its answer is named `astar_route`; of a found path the crate's
/// source shows that it starts at `from`, ends at `to`, moves from node to
/// successor, and holds no node twice. The search expands every node it can
/// reach on the (finite) map before giving up, so `None` comes only when no
/// route exists; a start that is the goal is answered at once with the
/// one-node path at cost 0. The reported cost is otherwise left unsaid:
/// with a heuristic that may overestimate, the crate's source does not tie
/// it to the path's length.
#[verifier::external_body]
pub(crate) fn astar_path(map: &VoxelMap, from: Vec3, to: Vec3) -> (r: Option<(Vec<Vec3>, usize)>)
    requires
        map.inv(),
    ensures
        match r {
            Some((path, cost)) => astar_route(map@, from, to) == Some((path@, cost)) && is_route(map@, path@, from, to)
                && (from == to ==> path@ == seq![from] && cost == 0),
            None => astar_route(map@, from, to) is None && !has_route(map@, from, to) && from != to,
        },
{
    pathfinding::directed::astar::astar(
        &from,
        |p| walkable_steps(map, *p),
        |p| guide_heuristic(*p, to),
        |p| at_goal(p, &to),
    )
}

} // verus!
