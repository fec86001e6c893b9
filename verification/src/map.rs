//! The voxel map: a box of cells, each empty, ground or taken by an actor,
//! and beside it a layer recording where actors died.

use vstd::prelude::*;
use crate::math::{Vec2, Vec3};
use crate::chance::{random_coin, random_inclusive};

verus! {

/// What a cell of the map holds.
#[derive(Debug, Clone, Copy, PartialEq, Eq, Structural)]
pub enum Piece {
    Empty,
    Actor(usize),
    Ground,
}

impl Default for Piece {
    fn default() -> (r: Self)
        ensures
            r == Piece::Empty,
    {
        Piece::Empty
    }
}

/// Whether `p` lies inside a map of the given size.
pub open spec fn in_bounds(size: Vec3, p: Vec3) -> bool {
    &&& 0 <= p.x < size.x
    &&& 0 <= p.y < size.y
    &&& 0 <= p.z < size.z
}

/// Number of cells of a map of the given size.
pub open spec fn volume(size: Vec3) -> int {
    size.x * size.y * size.z
}

/// Position of a cell in the row-major layout: `z` outermost, then `y`, then `x`.
pub open spec fn cell_index(size: Vec3, p: Vec3) -> int {
    (p.z * size.y + p.y) * size.x + p.x
}

/// Whether a size describes a map that fits in memory.
pub open spec fn valid_size(size: Vec3) -> bool {
    &&& 0 <= size.x
    &&& 0 <= size.y
    &&& 0 <= size.z
    &&& volume(size) <= usize::MAX
}

/// Cells inside the map are laid out in `0..volume`.
pub proof fn lemma_cell_index_bounds(size: Vec3, p: Vec3)
    requires
        in_bounds(size, p),
    ensures
        0 <= p.z * size.y + p.y < size.z * size.y,
        0 <= cell_index(size, p) < volume(size),
{
    assert(0 <= p.z * size.y + p.y < size.z * size.y) by (nonlinear_arith)
        requires
            0 <= p.z < size.z,
            0 <= p.y < size.y,
    ;
    let zy = p.z * size.y + p.y;
    assert(0 <= zy * size.x + p.x < size.z * size.y * size.x) by (nonlinear_arith)
        requires
            0 <= zy < size.z * size.y,
            0 <= p.x < size.x,
    ;
    assert(size.z * size.y * size.x == volume(size)) by (nonlinear_arith);
}

/// The coordinates of a cell inside a map that fits in memory fit in a `usize`.
pub proof fn lemma_in_bounds_fits(size: Vec3, p: Vec3)
    requires
        in_bounds(size, p),
        valid_size(size),
    ensures
        p.x <= usize::MAX,
        p.y <= usize::MAX,
        p.z <= usize::MAX,
{
    assert(size.x <= volume(size) && size.y <= volume(size) && size.z <= volume(size)) by (nonlinear_arith)
        requires
            size.x >= 1,
            size.y >= 1,
            size.z >= 1,
    ;
}

/// Distinct cells have distinct positions in the layout.
pub proof fn lemma_cell_index_injective(size: Vec3, p: Vec3, q: Vec3)
    requires
        in_bounds(size, p),
        in_bounds(size, q),
        cell_index(size, p) == cell_index(size, q),
    ensures
        p == q,
{
    let i = cell_index(size, p);
    vstd::arithmetic::div_mod::lemma_fundamental_div_mod_converse(i, size.x as int, p.z * size.y + p.y, p.x as int);
    vstd::arithmetic::div_mod::lemma_fundamental_div_mod_converse(i, size.x as int, q.z * size.y + q.y, q.x as int);
    let zy = p.z * size.y + p.y;
    vstd::arithmetic::div_mod::lemma_fundamental_div_mod_converse(zy, size.y as int, p.z as int, p.y as int);
    vstd::arithmetic::div_mod::lemma_fundamental_div_mod_converse(zy, size.y as int, q.z as int, q.y as int);
}

/// Abstract contents of a map: its size, the piece in every cell inside it,
/// and the actor that died in each cell where one did.
pub struct MapView {
    pub size: Vec3,
    pub alive: Map<Vec3, Piece>,
    pub dead: Map<Vec3, usize>,
}

/// A map of `size` with every cell empty and no one dead.
pub open spec fn blank_map(size: Vec3) -> MapView {
    MapView { size, alive: Map::new(|p: Vec3| in_bounds(size, p), |p: Vec3| Piece::Empty), dead: Map::empty() }
}

/// The voxel map.
pub struct VoxelMap {
    alive: Vec<Piece>,
    dead: Vec<Option<usize>>,
    size: Vec3,
}

impl View for VoxelMap {
    type V = MapView;

    closed spec fn view(&self) -> MapView {
        MapView {
            size: self.size,
            alive: Map::new(
                |p: Vec3| in_bounds(self.size, p),
                |p: Vec3| self.alive@[cell_index(self.size, p)],
            ),
            dead: Map::new(
                |p: Vec3| in_bounds(self.size, p) && self.dead@[cell_index(self.size, p)] is Some,
                |p: Vec3| self.dead@[cell_index(self.size, p)]->Some_0,
            ),
        }
    }
}

impl MapView {
    /// The domain of `alive` is exactly the cells inside the map, and `dead`
    /// only speaks of such cells.
    pub open spec fn wf(self) -> bool {
        &&& valid_size(self.size)
        &&& forall|p: Vec3| #[trigger] self.alive.dom().contains(p) <==> in_bounds(self.size, p)
        &&& forall|p: Vec3| #[trigger] self.dead.dom().contains(p) ==> in_bounds(self.size, p)
    }

    /// The piece at `p`, or `None` outside the map.
    pub open spec fn get(self, p: Vec3) -> Option<Piece> {
        if self.alive.dom().contains(p) {
            Some(self.alive[p])
        } else {
            None
        }
    }

    /// The actor that died at `p`, if one did.
    pub open spec fn dead_get(self, p: Vec3) -> Option<usize> {
        if self.dead.dom().contains(p) {
            Some(self.dead[p])
        } else {
            None
        }
    }
}

/// The number of cells of a map of the given size.
fn volume_of(size: Vec3) -> (n: usize)
    requires
        valid_size(size),
    ensures
        n == volume(size),
{
    if size.x == 0 || size.y == 0 || size.z == 0 {
        assert(volume(size) == 0) by (nonlinear_arith)
            requires
                size.x == 0 || size.y == 0 || size.z == 0,
        ;
        0
    } else {
        assert(size.x <= size.x * size.y <= volume(size) && size.z <= volume(size) && size.y <= volume(size)) by (nonlinear_arith)
            requires
                size.x >= 1,
                size.y >= 1,
                size.z >= 1,
        ;
        let sx: usize = size.x as usize;
        let sy: usize = size.y as usize;
        let sz: usize = size.z as usize;
        assert(sx == size.x && sy == size.y && sz == size.z);
        assert(sx * sy * sz == volume(size));
        let xy: usize = sx * sy;
        xy * sz
    }
}

/// A flat buffer of `volume(size)` copies of `fill`.
fn matrix3d<T: Copy>(size: Vec3, fill: T) -> (v: Vec<T>)
    requires
        valid_size(size),
    ensures
        v.len() == volume(size),
        forall|i: int| 0 <= i < v.len() ==> v@[i] == fill,
{
    let n: usize = volume_of(size);
    let mut v: Vec<T> = Vec::with_capacity(n);
    let mut i: usize = 0;
    while i < n
        invariant
            i <= n,
            n == volume(size),
            v.len() == i,
            forall|j: int| 0 <= j < v.len() ==> v@[j] == fill,
        decreases n - i,
    {
        v.push(fill);
        i = i + 1;
    }
    v
}

impl VoxelMap {
    /// The buffers hold one entry per cell.
    pub closed spec fn inv(self) -> bool {
        &&& valid_size(self.size)
        &&& self.alive@.len() == volume(self.size)
        &&& self.dead@.len() == volume(self.size)
    }

    /// The abstract contents of a map are well formed.
    pub proof fn lemma_view_wf(self)
        requires
            self.inv(),
        ensures
            self@.wf(),
    {
    }

    /// Index of an in-bounds cell in the buffers.
    fn index_of(&self, p: Vec3) -> (i: usize)
        requires
            in_bounds(self.size, p),
            self.inv(),
        ensures
            i == cell_index(self.size, p),
            i < self.alive@.len(),
    {
        proof {
            lemma_cell_index_bounds(self.size, p);
            assert(self.size.x <= volume(self.size) && self.size.z <= volume(self.size) && self.size.y <= volume(self.size)) by (nonlinear_arith)
                requires
                    self.size.x >= 1,
                    self.size.y >= 1,
                    self.size.z >= 1,
            ;
            let zy = p.z * self.size.y + p.y;
            assert(p.z * self.size.y <= zy <= zy * self.size.x) by (nonlinear_arith)
                requires
                    zy == p.z * self.size.y + p.y,
                    0 <= p.y,
                    0 <= zy,
                    self.size.x >= 1,
            ;
            assert(zy * self.size.x == (p.z * self.size.y + p.y) * self.size.x);
        }
        let z: usize = p.z as usize;
        let y: usize = p.y as usize;
        let x: usize = p.x as usize;
        let sy: usize = self.size.y as usize;
        let sx: usize = self.size.x as usize;
        assert(z == p.z && y == p.y && x == p.x && sy == self.size.y && sx == self.size.x);
        let zy: usize = z * sy + y;
        zy * sx + x
    }

    fn contains(&self, p: Vec3) -> (b: bool)
        ensures
            b == in_bounds(self.size, p),
    {
        0 <= p.x && p.x < self.size.x && 0 <= p.y && p.y < self.size.y && 0 <= p.z && p.z < self.size.z
    }

    /// An empty map of the given size: every cell empty, no one dead.
    pub fn new(size: Vec3) -> (m: Self)
        requires
            valid_size(size),
        ensures
            m@.wf(),
            m@.size == size,
            forall|p: Vec3| #[trigger] in_bounds(size, p) ==> m@.alive[p] == Piece::Empty,
            m@.dead.dom() == Set::<Vec3>::empty(),
            m@ == blank_map(size),
            m.inv(),
    {
        let m = VoxelMap { alive: matrix3d(size, Piece::Empty), dead: matrix3d(size, None), size };
        proof {
            assert forall|p: Vec3| #[trigger] in_bounds(size, p) implies m@.alive[p] == Piece::Empty by {
                lemma_cell_index_bounds(size, p);
            }
            assert forall|p: Vec3| !(#[trigger] m@.dead.dom().contains(p)) by {
                if in_bounds(size, p) {
                    lemma_cell_index_bounds(size, p);
                }
            }
            assert(m@.dead.dom() =~= Set::<Vec3>::empty());
            m.lemma_view_wf();
            assert(m@.alive =~= blank_map(size).alive);
            assert(m@.dead =~= blank_map(size).dead);
        }
        m
    }

    pub fn get_size(&self) -> (s: Vec3)
        ensures
            s == self@.size,
    {
        self.size
    }

    /// The piece at `p`, or `None` outside the map.
    pub fn get(&self, p: Vec3) -> (r: Option<Piece>)
        requires
            self.inv(),
        ensures
            r == self@.get(p),
            self@.wf(),
    {
        if self.contains(p) {
            let i = self.index_of(p);
            Some(self.alive[i])
        } else {
            None
        }
    }

    /// Puts `value` at `p`; outside the map nothing happens.
    pub fn set(&mut self, p: Vec3, value: Piece)
        requires
            old(self).inv(),
        ensures
            final(self).inv(),
            final(self)@.size == old(self)@.size,
            final(self)@.dead == old(self)@.dead,
            final(self)@.alive == if in_bounds(old(self)@.size, p) {
                old(self)@.alive.insert(p, value)
            } else {
                old(self)@.alive
            },
            final(self)@.wf(),
    {
        if self.contains(p) {
            let i = self.index_of(p);
            let ghost old_self = *self;
            self.alive.set(i, value);
            proof {
                assert forall|q: Vec3| in_bounds(self.size, q) && q != p implies #[trigger] self.alive@[cell_index(self.size, q)]
                    == old_self.alive@[cell_index(self.size, q)] by {
                    lemma_cell_index_bounds(self.size, q);
                    if cell_index(self.size, q) == cell_index(self.size, p) {
                        lemma_cell_index_injective(self.size, p, q);
                    }
                }
                assert(self@.alive =~= old_self@.alive.insert(p, value));
                assert(self@.dead =~= old_self@.dead);
            }
        }
    }

    /// The actor that died at `p`, if one did.
    pub fn dead_get(&self, p: Vec3) -> (r: Option<usize>)
        requires
            self.inv(),
        ensures
            r == self@.dead_get(p),
    {
        if self.contains(p) {
            let i = self.index_of(p);
            self.dead[i]
        } else {
            None
        }
    }

    /// Records (or clears, with `None`) the actor that died at `p`; outside
    /// the map nothing happens.
    pub fn dead_set(&mut self, p: Vec3, value: Option<usize>)
        requires
            old(self).inv(),
        ensures
            final(self).inv(),
            final(self)@.size == old(self)@.size,
            final(self)@.alive == old(self)@.alive,
            final(self)@.dead == if !in_bounds(old(self)@.size, p) {
                old(self)@.dead
            } else {
                match value {
                    Some(id) => old(self)@.dead.insert(p, id),
                    None => old(self)@.dead.remove(p),
                }
            },
            final(self)@.wf(),
    {
        if self.contains(p) {
            let i = self.index_of(p);
            let ghost old_self = *self;
            self.dead.set(i, value);
            proof {
                assert forall|q: Vec3| in_bounds(self.size, q) && q != p implies #[trigger] self.dead@[cell_index(self.size, q)]
                    == old_self.dead@[cell_index(self.size, q)] by {
                    lemma_cell_index_bounds(self.size, q);
                    if cell_index(self.size, q) == cell_index(self.size, p) {
                        lemma_cell_index_injective(self.size, p, q);
                    }
                }
                match value {
                    Some(id) => {
                        assert(self@.dead =~= old_self@.dead.insert(p, id));
                    },
                    None => {
                        assert(self@.dead =~= old_self@.dead.remove(p));
                    },
                }
                assert(self@.alive =~= old_self@.alive);
            }
        }
    }
}

/// A read gives back what a write wrote: after putting `v` at a cell inside
/// the map, the cell holds `v`; every other cell holds what it held.
pub proof fn lemma_read_after_write(m: MapView, p: Vec3, v: Piece, q: Vec3)
    requires
        m.wf(),
    ensures
        ({
            let after = MapView {
                alive: if in_bounds(m.size, p) {
                    m.alive.insert(p, v)
                } else {
                    m.alive
                },
                ..m
            };
            &&& in_bounds(m.size, p) ==> after.get(p) == Some(v)
            &&& !in_bounds(m.size, p) ==> after.get(p) is None
            &&& q != p ==> after.get(q) == m.get(q)
        }),
{
}

/// A dead actor recorded at a cell is read back there; clearing the cell
/// leaves no one; other cells keep their record.
pub proof fn lemma_dead_read_after_write(m: MapView, p: Vec3, value: Option<usize>, q: Vec3)
    requires
        m.wf(),
        in_bounds(m.size, p),
    ensures
        ({
            let after = MapView {
                dead: match value {
                    Some(id) => m.dead.insert(p, id),
                    None => m.dead.remove(p),
                },
                ..m
            };
            &&& after.dead_get(p) == value
            &&& q != p ==> after.dead_get(q) == m.dead_get(q)
        }),
{
}

/// The `j`-th position of three parallel coordinate lists.
pub open spec fn pos_at(xs: Seq<usize>, ys: Seq<usize>, zs: Seq<usize>, j: int) -> Vec3 {
    Vec3 { x: xs[j] as i64, y: ys[j] as i64, z: zs[j] as i64 }
}

/// `xs`, `ys`, `zs` list every ground cell of `v` exactly once, in the order
/// `z`, then `y`, then `x`.
pub open spec fn lists_ground(v: MapView, xs: Seq<usize>, ys: Seq<usize>, zs: Seq<usize>) -> bool {
    &&& ys.len() == xs.len()
    &&& zs.len() == xs.len()
    &&& forall|j: int| 0 <= j < xs.len() ==> v.get(#[trigger] pos_at(xs, ys, zs, j)) == Some(Piece::Ground)
    &&& forall|p: Vec3| #[trigger] v.get(p) == Some(Piece::Ground) ==> exists|j: int| 0 <= j < xs.len() && #[trigger] pos_at(xs, ys, zs, j) == p
    &&& forall|j: int, k: int| 0 <= j < k < xs.len() ==> cell_index(v.size, #[trigger] pos_at(xs, ys, zs, j)) < cell_index(v.size, #[trigger] pos_at(xs, ys, zs, k))
}

impl VoxelMap {
    /// The coordinates of every ground cell, as three parallel lists ordered
    /// by `z`, then `y`, then `x`.
    pub fn get_ground_data(&self) -> (r: (Vec<usize>, Vec<usize>, Vec<usize>))
        requires
            self.inv(),
        ensures
            lists_ground(self@, r.0@, r.1@, r.2@),
    {
        let n: usize = volume_of(self.size);
        let sx: i64 = self.size.x;
        let sy: i64 = self.size.y;
        let sz: i64 = self.size.z;
        let mut xs: Vec<usize> = Vec::new();
        let mut ys: Vec<usize> = Vec::new();
        let mut zs: Vec<usize> = Vec::new();
        let mut x: i64 = 0;
        let mut y: i64 = 0;
        let mut z: i64 = 0;
        let mut i: usize = 0;
        if n == 0 {
            proof {
                assert forall|p: Vec3| #[trigger] self@.get(p) == Some(Piece::Ground) implies exists|j: int|
                    0 <= j < xs@.len() && #[trigger] pos_at(xs@, ys@, zs@, j) == p by {
                    lemma_cell_index_bounds(self.size, p);
                }
            }
            return (xs, ys, zs);
        }
        assert(sx >= 1 && sy >= 1 && sz >= 1) by (nonlinear_arith)
            requires
                sx >= 0,
                sy >= 0,
                sz >= 0,
                sx * sy * sz == n,
                n > 0,
        ;
        assert(sx <= n && sy <= n && sz <= n) by (nonlinear_arith)
            requires
                sx >= 1,
                sy >= 1,
                sz >= 1,
                sx * sy * sz == n,
        ;
        assert(cell_index(self.size, Vec3 { x, y, z }) == 0) by (nonlinear_arith)
            requires
                x == 0,
                y == 0,
                z == 0,
        ;
        while i < n
            invariant
                self.inv(),
                n == volume(self.size),
                sx == self.size.x,
                sy == self.size.y,
                sz == self.size.z,
                sx >= 1,
                sy >= 1,
                sz >= 1,
                sx <= n,
                sy <= n,
                sz <= n,
                i <= n,
                0 <= x < sx,
                0 <= y < sy,
                0 <= z <= sz,
                i == cell_index(self.size, Vec3 { x, y, z }),
                i < n ==> z < sz,
                ys@.len() == xs@.len(),
                zs@.len() == xs@.len(),
                forall|j: int| 0 <= j < xs@.len() ==> self@.get(#[trigger] pos_at(xs@, ys@, zs@, j)) == Some(Piece::Ground),
                forall|j: int| 0 <= j < xs@.len() ==> cell_index(self.size, #[trigger] pos_at(xs@, ys@, zs@, j)) < i,
                forall|j: int| 0 <= j < xs@.len() ==> in_bounds(self.size, #[trigger] pos_at(xs@, ys@, zs@, j)),
                forall|p: Vec3| #[trigger] self@.get(p) == Some(Piece::Ground) && cell_index(self.size, p) < i ==> exists|j: int|
                    0 <= j < xs@.len() && #[trigger] pos_at(xs@, ys@, zs@, j) == p,
                forall|j: int, k: int| 0 <= j < k < xs@.len() ==> cell_index(self.size, #[trigger] pos_at(xs@, ys@, zs@, j))
                    < cell_index(self.size, #[trigger] pos_at(xs@, ys@, zs@, k)),
            decreases n - i,
        {
            let ghost cur = Vec3 { x, y, z };
            let ghost old_xs = xs@;
            let ghost old_ys = ys@;
            let ghost old_zs = zs@;
            assert(in_bounds(self.size, cur));
            if self.alive[i] == Piece::Ground {
                xs.push(x as usize);
                ys.push(y as usize);
                zs.push(z as usize);
                proof {
                    let m = xs@.len() - 1;
                    assert(pos_at(xs@, ys@, zs@, m) == cur);
                    assert forall|j: int| 0 <= j < m implies #[trigger] pos_at(xs@, ys@, zs@, j) == pos_at(old_xs, old_ys, old_zs, j) by {}
                }
            }
            proof {
                assert forall|p: Vec3| #[trigger] self@.get(p) == Some(Piece::Ground) && cell_index(self.size, p) < i + 1 implies exists|j: int|
                    0 <= j < xs@.len() && #[trigger] pos_at(xs@, ys@, zs@, j) == p by {
                    if cell_index(self.size, p) == i {
                        lemma_cell_index_injective(self.size, p, cur);
                        assert(pos_at(xs@, ys@, zs@, xs@.len() - 1) == p);
                    } else {
                        let j = choose|j: int| 0 <= j < old_xs.len() && #[trigger] pos_at(old_xs, old_ys, old_zs, j) == p;
                        assert(pos_at(xs@, ys@, zs@, j) == pos_at(old_xs, old_ys, old_zs, j));
                    }
                }
            }
            i = i + 1;
            if x + 1 < sx {
                x = x + 1;
            } else if y + 1 < sy {
                proof {
                    assert(i == (z * sy + (y + 1)) * sx + 0) by (nonlinear_arith)
                        requires
                            i == (z * sy + y) * sx + x + 1,
                            x + 1 == sx,
                            self.size.x == sx,
                            self.size.y == sy,
                    ;
                }
                x = 0;
                y = y + 1;
            } else {
                proof {
                    assert(i == ((z + 1) * sy + 0) * sx + 0) by (nonlinear_arith)
                        requires
                            i == (z * sy + y) * sx + x + 1,
                            x + 1 == sx,
                            y + 1 == sy,
                            self.size.x == sx,
                            self.size.y == sy,
                    ;
                }
                x = 0;
                y = 0;
                z = z + 1;
            }
            proof {
                if z >= sz {
                    assert(i >= n) by (nonlinear_arith)
                        requires
                            i == (z * sy + y) * sx + x,
                            z >= sz,
                            x >= 0,
                            y >= 0,
                            sx >= 1,
                            sy >= 1,
                            n == sx * sy * sz,
                    ;
                }
            }
        }
        proof {
            assert forall|p: Vec3| #[trigger] self@.get(p) == Some(Piece::Ground) implies exists|j: int|
                0 <= j < xs@.len() && #[trigger] pos_at(xs@, ys@, zs@, j) == p by {
                lemma_cell_index_bounds(self.size, p);
                assert(cell_index(self.size, p) < i);
            }
        }
        (xs, ys, zs)
    }
}

/// A rectangle of floor, spanning `x1..x2` by `z1..z2`.
#[derive(Debug, Clone, Copy, PartialEq, Eq, Structural)]
pub struct FloorBox {
    pub x1: usize,
    pub x2: usize,
    pub z1: usize,
    pub z2: usize,
}

/// Whether two boxes touch or overlap, their bounds taken inclusively.
pub open spec fn boxes_meet(a: FloorBox, b: FloorBox) -> bool {
    a.x1 <= b.x2 && a.x2 >= b.x1 && a.z1 <= b.z2 && a.z2 >= b.z1
}

/// No two boxes of the list meet.
pub open spec fn pairwise_apart(boxes: Seq<FloorBox>) -> bool {
    forall|i: int, j: int| 0 <= i < boxes.len() && 0 <= j < boxes.len() && i != j ==> !boxes_meet(#[trigger] boxes[i], #[trigger] boxes[j])
}

/// The box lies on a map of the given size and is not inverted.
pub open spec fn box_fits(size: Vec3, b: FloorBox) -> bool {
    &&& b.x1 <= b.x2 <= size.x
    &&& b.z1 <= b.z2 <= size.z
}

/// Whether the column of `q` lies in the box's footprint.
pub open spec fn in_footprint(b: FloorBox, q: Vec3) -> bool {
    b.x1 <= q.x < b.x2 && b.z1 <= q.z < b.z2
}

/// The column `(x, z)` lies in the box, its bounds taken inclusively.
pub open spec fn closed_holds(b: FloorBox, x: int, z: int) -> bool {
    b.x1 <= x <= b.x2 && b.z1 <= z <= b.z2
}

/// Two boxes meet exactly when they share a point, their bounds taken
/// inclusively: a column `(x, z)` lying in both closed x ranges and both
/// closed z ranges. In particular boxes apart along `x` or along `z` never
/// meet.
pub proof fn lemma_boxes_meet_iff_shared_point(a: FloorBox, b: FloorBox)
    requires
        a.x1 <= a.x2,
        a.z1 <= a.z2,
        b.x1 <= b.x2,
        b.z1 <= b.z2,
    ensures
        boxes_meet(a, b) <==> exists|x: int, z: int| #[trigger] closed_holds(a, x, z) && #[trigger] closed_holds(b, x, z),
        (a.z2 < b.z1 || b.z2 < a.z1 || a.x2 < b.x1 || b.x2 < a.x1) ==> !boxes_meet(a, b),
{
    if boxes_meet(a, b) {
        let x: int = if a.x1 <= b.x1 { b.x1 as int } else { a.x1 as int };
        let z: int = if a.z1 <= b.z1 { b.z1 as int } else { a.z1 as int };
        assert(closed_holds(a, x, z) && closed_holds(b, x, z));
    }
}

/// Meeting is symmetric.
pub proof fn lemma_boxes_meet_symmetric(a: FloorBox, b: FloorBox)
    ensures
        boxes_meet(a, b) == boxes_meet(b, a),
{
}

impl FloorBox {
    pub fn intersect(&self, rhs: Self) -> (r: bool)
        ensures
            r == boxes_meet(*self, rhs),
            r == !(self.x2 < rhs.x1 || rhs.x2 < self.x1 || self.z2 < rhs.z1 || rhs.z2 < self.z1),
    {
        self.x1 <= rhs.x2 && self.x2 >= rhs.x1 && self.z1 <= rhs.z2 && self.z2 >= rhs.z1
    }

    /// The center of the box, rounded towards its low corner.
    pub fn middle(&self) -> (m: Vec2)
        requires
            self.x1 <= self.x2,
            self.z1 <= self.z2,
        ensures
            m == box_middle(*self),
    {
        Vec2::new(((self.x2 - self.x1) / 2) + self.x1, ((self.z2 - self.z1) / 2) + self.z1)
    }
}

/// The center of a box: `x` across, `y` standing for the map's `z`.
pub open spec fn box_middle(b: FloorBox) -> Vec2 {
    Vec2 { x: ((b.x2 - b.x1) / 2 + b.x1) as usize, y: ((b.z2 - b.z1) / 2 + b.z1) as usize }
}

/// Appends `b` to `boxes` unless it meets one of them.
pub fn place_box(boxes: &mut Vec<FloorBox>, b: FloorBox)
    ensures
        (exists|k: int| 0 <= k < old(boxes)@.len() && boxes_meet(#[trigger] old(boxes)@[k], b)) ==> final(boxes)@ == old(boxes)@,
        (forall|k: int| 0 <= k < old(boxes)@.len() ==> !boxes_meet(#[trigger] old(boxes)@[k], b)) ==> final(boxes)@ == old(boxes)@.push(b),
        pairwise_apart(old(boxes)@) ==> pairwise_apart(final(boxes)@),
{
    let mut clean = true;
    let mut k: usize = 0;
    while k < boxes.len()
        invariant
            k <= boxes@.len(),
            clean ==> forall|m: int| 0 <= m < k ==> !boxes_meet(#[trigger] boxes@[m], b),
            !clean ==> exists|m: int| 0 <= m < k && boxes_meet(#[trigger] boxes@[m], b),
        decreases boxes@.len() - k,
    {
        if boxes[k].intersect(b) {
            clean = false;
        }
        k = k + 1;
    }
    if clean {
        let ghost before = boxes@;
        boxes.push(b);
        proof {
            assert forall|i: int, j: int| 0 <= i < boxes@.len() && 0 <= j < boxes@.len() && i != j && pairwise_apart(before)
                implies !boxes_meet(#[trigger] boxes@[i], #[trigger] boxes@[j]) by {
                if i == before.len() as int {
                    assert(boxes@[j] == before[j]);
                    assert(!boxes_meet(before[j], b));
                } else if j == before.len() as int {
                    assert(boxes@[i] == before[i]);
                    assert(!boxes_meet(before[i], b));
                } else {
                    assert(boxes@[i] == before[i]);
                    assert(boxes@[j] == before[j]);
                }
            }
        }
    }
}

/// `now` differs from `then` only in ground put on layer `y`.
pub open spec fn grounded_on_layer(then: MapView, now: MapView, y: int) -> bool {
    &&& now.size == then.size
    &&& now.dead == then.dead
    &&& now.alive.dom() == then.alive.dom()
    &&& forall|q: Vec3| #[trigger] now.alive.dom().contains(q) ==> now.alive[q] == then.alive[q] || (q.y == y
        && now.alive[q] == Piece::Ground)
}

/// The cells a corridor between the middles of `a` and `b` covers on
/// layer `y`: one leg along `z` and one along `x`, meeting at the corner
/// `flip` picks.
pub open spec fn on_corridor(a: FloorBox, b: FloorBox, flip: bool, y: int, q: Vec3) -> bool {
    let am = box_middle(a);
    let bm = box_middle(b);
    let mx: int = if flip { am.x as int } else { bm.x as int };
    let mz: int = if flip { bm.y as int } else { am.y as int };
    let lz: int = if am.y <= bm.y { am.y as int } else { bm.y as int };
    let hz: int = if am.y <= bm.y { bm.y as int } else { am.y as int };
    let lx: int = if am.x <= bm.x { am.x as int } else { bm.x as int };
    let hx: int = if am.x <= bm.x { bm.x as int } else { am.x as int };
    &&& q.y == y
    &&& ((q.x == mx && (q.z == mz || lz <= q.z < hz)) || (q.z == mz && lx <= q.x < hx))
}

/// A room of the sparse floor: on the map, 4 to 16 cells a side.
pub open spec fn sized_room(size: Vec3, b: FloorBox) -> bool {
    &&& box_fits(size, b)
    &&& b.x1 + 4 <= b.x2 <= b.x1 + 16
    &&& b.z1 + 4 <= b.z2 <= b.z1 + 16
}

/// Whether `q` is on layer `y` inside one of the first `k` rooms.
pub open spec fn room_cell(bs: Seq<FloorBox>, k: int, y: int, q: Vec3) -> bool {
    q.y == y && exists|m: int| 0 <= m < k && m < bs.len() && #[trigger] in_footprint(bs[m], q)
}

/// Whether `q` is on the corridor from room `i` to another room `j`, for a
/// pair `(i, j)` that comes before `(a, b)`, turning where `flips` says.
pub open spec fn corridor_cell(bs: Seq<FloorBox>, flips: Map<(int, int), bool>, y: int, q: Vec3, a: int, b: int) -> bool {
    exists|i: int, j: int|
        0 <= i < bs.len() && 0 <= j < bs.len() && i != j && (i < a || (i == a && j < b))
            && #[trigger] on_corridor(bs[i], bs[j], flips[(i, j)], y, q)
}

/// Whether `q` belongs to the floor of rooms `bs` on layer `y`: it lies in
/// a room, or on the corridor from some room to another, each corridor
/// turning where `flips` says.
pub open spec fn floor_cell(bs: Seq<FloorBox>, flips: Map<(int, int), bool>, y: int, q: Vec3) -> bool {
    room_cell(bs, bs.len() as int, y, q) || corridor_cell(bs, flips, y, q, bs.len() as int, 0)
}

/// `now` is `then` with the floor of rooms `bs` laid on layer `y`: the rooms
/// are apart and sized, at most `n` of them and at least one when `n` is
/// not 0, and exactly the floor's cells have become ground.
pub open spec fn sparse_floor(then: MapView, now: MapView, bs: Seq<FloorBox>, flips: Map<(int, int), bool>, y: int, n: nat) -> bool {
    &&& pairwise_apart(bs)
    &&& bs.len() <= n
    &&& (n > 0 ==> bs.len() > 0)
    &&& forall|k: int| 0 <= k < bs.len() ==> #[trigger] sized_room(then.size, bs[k])
    &&& now.size == then.size
    &&& now.dead == then.dead
    &&& now.alive.dom() == then.alive.dom()
    &&& forall|q: Vec3| #[trigger] now.alive.dom().contains(q) ==> now.alive[q] == if floor_cell(bs, flips, y, q) {
        Piece::Ground
    } else {
        then.alive[q]
    }
}

/// Laying the corridor of pair `(a, b)` with turn `flip` adds exactly its
/// cells to those of the pairs before it.
proof fn lemma_corridor_step(bs: Seq<FloorBox>, f0: Map<(int, int), bool>, y: int, a: int, b: int, flip: bool)
    requires
        0 <= a < bs.len(),
        0 <= b < bs.len(),
        a != b,
    ensures
        forall|q: Vec3| #[trigger] corridor_cell(bs, f0.insert((a, b), flip), y, q, a, b + 1) == (corridor_cell(bs, f0, y, q, a, b)
            || on_corridor(bs[a], bs[b], flip, y, q)),
{
    let f1 = f0.insert((a, b), flip);
    assert forall|q: Vec3| #[trigger] corridor_cell(bs, f1, y, q, a, b + 1) == (corridor_cell(bs, f0, y, q, a, b)
        || on_corridor(bs[a], bs[b], flip, y, q)) by {
        if corridor_cell(bs, f1, y, q, a, b + 1) {
            let (i, j) = choose|i: int, j: int|
                0 <= i < bs.len() && 0 <= j < bs.len() && i != j && (i < a || (i == a && j < b + 1))
                    && #[trigger] on_corridor(bs[i], bs[j], f1[(i, j)], y, q);
            if i == a && j == b {
                assert(f1[(a, b)] == flip);
            } else {
                assert(f1[(i, j)] == f0[(i, j)]);
                assert(on_corridor(bs[i], bs[j], f0[(i, j)], y, q));
            }
        }
        if corridor_cell(bs, f0, y, q, a, b) {
            let (i, j) = choose|i: int, j: int|
                0 <= i < bs.len() && 0 <= j < bs.len() && i != j && (i < a || (i == a && j < b))
                    && #[trigger] on_corridor(bs[i], bs[j], f0[(i, j)], y, q);
            assert((i, j) != (a, b));
            assert(f1[(i, j)] == f0[(i, j)]);
            assert(on_corridor(bs[i], bs[j], f1[(i, j)], y, q));
        }
        if on_corridor(bs[a], bs[b], flip, y, q) {
            assert(f1[(a, b)] == flip);
            assert(on_corridor(bs[a], bs[b], f1[(a, b)], y, q));
        }
    }
}

/// A room has no corridor to itself.
proof fn lemma_corridor_same(bs: Seq<FloorBox>, flips: Map<(int, int), bool>, y: int, a: int)
    ensures
        forall|q: Vec3| #[trigger] corridor_cell(bs, flips, y, q, a, a + 1) == corridor_cell(bs, flips, y, q, a, a),
{
    assert forall|q: Vec3| #[trigger] corridor_cell(bs, flips, y, q, a, a + 1) implies corridor_cell(bs, flips, y, q, a, a) by {
        let (i, j) = choose|i: int, j: int|
            0 <= i < bs.len() && 0 <= j < bs.len() && i != j && (i < a || (i == a && j < a + 1))
                && #[trigger] on_corridor(bs[i], bs[j], flips[(i, j)], y, q);
        assert(on_corridor(bs[i], bs[j], flips[(i, j)], y, q));
    }
    assert forall|q: Vec3| #[trigger] corridor_cell(bs, flips, y, q, a, a) implies corridor_cell(bs, flips, y, q, a, a + 1) by {
        let (i, j) = choose|i: int, j: int|
            0 <= i < bs.len() && 0 <= j < bs.len() && i != j && (i < a || (i == a && j < a))
                && #[trigger] on_corridor(bs[i], bs[j], flips[(i, j)], y, q);
        assert(on_corridor(bs[i], bs[j], flips[(i, j)], y, q));
    }
}

/// Finishing the pairs of room `a` is starting those of room `a + 1`.
proof fn lemma_corridor_next_row(bs: Seq<FloorBox>, flips: Map<(int, int), bool>, y: int, a: int)
    ensures
        forall|q: Vec3| #[trigger] corridor_cell(bs, flips, y, q, a + 1, 0) == corridor_cell(bs, flips, y, q, a, bs.len() as int),
{
    assert forall|q: Vec3| #[trigger] corridor_cell(bs, flips, y, q, a + 1, 0) implies corridor_cell(bs, flips, y, q, a, bs.len() as int) by {
        let (i, j) = choose|i: int, j: int|
            0 <= i < bs.len() && 0 <= j < bs.len() && i != j && (i < a + 1 || (i == a + 1 && j < 0))
                && #[trigger] on_corridor(bs[i], bs[j], flips[(i, j)], y, q);
        assert(on_corridor(bs[i], bs[j], flips[(i, j)], y, q));
    }
    assert forall|q: Vec3| #[trigger] corridor_cell(bs, flips, y, q, a, bs.len() as int) implies corridor_cell(bs, flips, y, q, a + 1, 0) by {
        let (i, j) = choose|i: int, j: int|
            0 <= i < bs.len() && 0 <= j < bs.len() && i != j && (i < a || (i == a && j < bs.len()))
                && #[trigger] on_corridor(bs[i], bs[j], flips[(i, j)], y, q);
        assert(on_corridor(bs[i], bs[j], flips[(i, j)], y, q));
    }
}

impl VoxelMap {
    /// Puts ground on every cell of layer `y` in the footprint of `b`.
    pub fn carve_box(&mut self, y: usize, b: FloorBox)
        requires
            old(self).inv(),
            box_fits(old(self)@.size, b),
            y <= i64::MAX,
        ensures
            final(self).inv(),
            final(self)@.size == old(self)@.size,
            final(self)@.dead == old(self)@.dead,
            final(self)@.alive.dom() == old(self)@.alive.dom(),
            forall|q: Vec3| #[trigger] final(self)@.alive.dom().contains(q) ==> final(self)@.alive[q] == if q.y == y
                && in_footprint(b, q) {
                Piece::Ground
            } else {
                old(self)@.alive[q]
            },
    {
        let ghost start = self@;
        proof {
            self.lemma_view_wf();
        }
        let mut x: usize = b.x1;
        while x < b.x2
            invariant
                self.inv(),
                b.x1 <= x <= b.x2,
                box_fits(self@.size, b),
                y <= i64::MAX,
                self@.size == start.size,
                self@.dead == start.dead,
                self@.alive.dom() == start.alive.dom(),
                start.wf(),
                forall|q: Vec3| #[trigger] self@.alive.dom().contains(q) ==> self@.alive[q] == if q.y == y
                    && in_footprint(b, q) && q.x < x {
                    Piece::Ground
                } else {
                    start.alive[q]
                },
            decreases b.x2 - x,
        {
            let mut z: usize = b.z1;
            while z < b.z2
                invariant
                    self.inv(),
                    b.x1 <= x < b.x2,
                    b.z1 <= z <= b.z2,
                    box_fits(self@.size, b),
                    y <= i64::MAX,
                    self@.size == start.size,
                    self@.dead == start.dead,
                    self@.alive.dom() == start.alive.dom(),
                    start.wf(),
                    forall|q: Vec3| #[trigger] self@.alive.dom().contains(q) ==> self@.alive[q] == if q.y == y
                        && in_footprint(b, q) && (q.x < x || (q.x == x && q.z < z)) {
                        Piece::Ground
                    } else {
                        start.alive[q]
                    },
                decreases b.z2 - z,
            {
                self.set(Vec3::new(x as i64, y as i64, z as i64), Piece::Ground);
                z = z + 1;
            }
            x = x + 1;
        }
    }

    /// Lays a corridor of ground on layer `y` from the middle of `a` to the
    /// middle of `b`, turning at the corner `flip` picks.
    pub fn carve_corridor(&mut self, y: usize, a: FloorBox, b: FloorBox, flip: bool)
        requires
            old(self).inv(),
            box_fits(old(self)@.size, a),
            box_fits(old(self)@.size, b),
            y <= i64::MAX,
        ensures
            final(self).inv(),
            final(self)@.size == old(self)@.size,
            final(self)@.dead == old(self)@.dead,
            final(self)@.alive.dom() == old(self)@.alive.dom(),
            forall|q: Vec3| #[trigger] final(self)@.alive.dom().contains(q) ==> final(self)@.alive[q] == if on_corridor(
                a,
                b,
                flip,
                y as int,
                q,
            ) {
                Piece::Ground
            } else {
                old(self)@.alive[q]
            },
    {
        let ghost start = self@;
        proof {
            self.lemma_view_wf();
        }
        let a_middle = a.middle();
        let b_middle = b.middle();
        let middle = if flip {
            Vec2::new(a_middle.x, b_middle.y)
        } else {
            Vec2::new(b_middle.x, a_middle.y)
        };
        let lz: usize = if a_middle.y <= b_middle.y { a_middle.y } else { b_middle.y };
        let hz: usize = if a_middle.y <= b_middle.y { b_middle.y } else { a_middle.y };
        let lx: usize = if a_middle.x <= b_middle.x { a_middle.x } else { b_middle.x };
        let hx: usize = if a_middle.x <= b_middle.x { b_middle.x } else { a_middle.x };
        self.set(Vec3::new(middle.x as i64, y as i64, middle.y as i64), Piece::Ground);
        let mut p: usize = lz;
        while p < hz
            invariant
                self.inv(),
                lz <= p <= hz,
                hz <= self@.size.z,
                middle.x <= self@.size.x,
                middle.y <= self@.size.z,
                y <= i64::MAX,
                self@.size == start.size,
                self@.dead == start.dead,
                self@.alive.dom() == start.alive.dom(),
                start.wf(),
                forall|q: Vec3| #[trigger] self@.alive.dom().contains(q) ==> self@.alive[q] == if q.y == y && q.x
                    == middle.x && (q.z == middle.y || lz <= q.z < p) {
                    Piece::Ground
                } else {
                    start.alive[q]
                },
            decreases hz - p,
        {
            self.set(Vec3::new(middle.x as i64, y as i64, p as i64), Piece::Ground);
            p = p + 1;
        }
        let mut p: usize = lx;
        while p < hx
            invariant
                self.inv(),
                lx <= p <= hx,
                hx <= self@.size.x,
                middle.x <= self@.size.x,
                middle.y <= self@.size.z,
                y <= i64::MAX,
                self@.size == start.size,
                self@.dead == start.dead,
                self@.alive.dom() == start.alive.dom(),
                start.wf(),
                forall|q: Vec3| #[trigger] self@.alive.dom().contains(q) ==> self@.alive[q] == if q.y == y && ((q.x
                    == middle.x && (q.z == middle.y || lz <= q.z < hz)) || (q.z == middle.y && lx <= q.x < p)) {
                    Piece::Ground
                } else {
                    start.alive[q]
                },
            decreases hx - p,
        {
            self.set(Vec3::new(p as i64, y as i64, middle.y as i64), Piece::Ground);
            p = p + 1;
        }
    }

    /// Lays out up to `floor_amount` rooms of floor on layer `y`, at random
    /// sizes (4 to 16 cells a side) and places, dropping each that would meet
    /// an earlier one, then joins every room to every other by a corridor.
    pub fn gen_sparse_floor(&mut self, y: usize, floor_amount: usize)
        requires
            old(self).inv(),
            old(self)@.size.x >= 16,
            old(self)@.size.z >= 16,
            old(self)@.size.x <= usize::MAX,
            old(self)@.size.z <= usize::MAX,
            y <= i64::MAX,
        ensures
            final(self).inv(),
            grounded_on_layer(old(self)@, final(self)@, y as int),
            exists|bs: Seq<FloorBox>, flips: Map<(int, int), bool>|
                sparse_floor(old(self)@, final(self)@, bs, flips, y as int, floor_amount as nat),
    {
        let ghost start = self@;
        let sx: u64 = self.size.x as u64;
        let sz: u64 = self.size.z as u64;
        let mut boxes: Vec<FloorBox> = Vec::new();
        let mut i: usize = 0;
        while i < floor_amount
            invariant
                i <= floor_amount,
                sx == self@.size.x,
                sz == self@.size.z,
                sx >= 16,
                sz >= 16,
                sx <= usize::MAX,
                sz <= usize::MAX,
                pairwise_apart(boxes@),
                boxes@.len() <= i,
                i > 0 ==> boxes@.len() > 0,
                self@ == start,
                forall|k: int| 0 <= k < boxes@.len() ==> sized_room(self@.size, #[trigger] boxes@[k]),
            decreases floor_amount - i,
        {
            let x_size: u64 = random_inclusive(4, 16);
            let z_size: u64 = random_inclusive(4, 16);
            let x: u64 = random_inclusive(0, sx - x_size);
            let z: u64 = random_inclusive(0, sz - z_size);
            let b = FloorBox { x1: x as usize, x2: (x + x_size) as usize, z1: z as usize, z2: (z + z_size) as usize };
            let ghost before = boxes@;
            place_box(&mut boxes, b);
            proof {
                assert forall|k: int| 0 <= k < boxes@.len() implies sized_room(self@.size, #[trigger] boxes@[k]) by {
                    if k < before.len() {
                        assert(boxes@[k] == before[k]);
                    }
                }
            }
            i = i + 1;
        }
        let ghost bs = boxes@;
        let mut k: usize = 0;
        while k < boxes.len()
            invariant
                self.inv(),
                y <= i64::MAX,
                bs == boxes@,
                k <= bs.len(),
                forall|m: int| 0 <= m < bs.len() ==> sized_room(start.size, #[trigger] bs[m]),
                self@.size == start.size,
                self@.dead == start.dead,
                self@.alive.dom() == start.alive.dom(),
                forall|q: Vec3| #[trigger] self@.alive.dom().contains(q) ==> self@.alive[q] == if room_cell(bs, k as int, y as int, q) {
                    Piece::Ground
                } else {
                    start.alive[q]
                },
            decreases boxes@.len() - k,
        {
            let ghost before = self@;
            assert(sized_room(start.size, bs[k as int]));
            self.carve_box(y, boxes[k]);
            proof {
                assert forall|q: Vec3| #[trigger] self@.alive.dom().contains(q) implies self@.alive[q] == if room_cell(bs, k + 1, y as int, q) {
                    Piece::Ground
                } else {
                    start.alive[q]
                } by {
                    if room_cell(bs, k + 1, y as int, q) && !room_cell(bs, k as int, y as int, q) {
                        let m = choose|m: int| 0 <= m < k + 1 && m < bs.len() && #[trigger] in_footprint(bs[m], q);
                        assert(m == k);
                    }
                    if room_cell(bs, k as int, y as int, q) {
                        let m = choose|m: int| 0 <= m < k && m < bs.len() && #[trigger] in_footprint(bs[m], q);
                        assert(room_cell(bs, k + 1, y as int, q));
                    }
                }
            }
            k = k + 1;
        }
        let ghost mut flips: Map<(int, int), bool> = Map::empty();
        let mut a: usize = 0;
        while a < boxes.len()
            invariant
                self.inv(),
                y <= i64::MAX,
                bs == boxes@,
                a <= bs.len(),
                pairwise_apart(bs),
                forall|m: int| 0 <= m < bs.len() ==> sized_room(start.size, #[trigger] bs[m]),
                self@.size == start.size,
                self@.dead == start.dead,
                self@.alive.dom() == start.alive.dom(),
                forall|q: Vec3| #[trigger] self@.alive.dom().contains(q) ==> self@.alive[q] == if room_cell(bs, bs.len() as int, y as int, q)
                    || corridor_cell(bs, flips, y as int, q, a as int, 0) {
                    Piece::Ground
                } else {
                    start.alive[q]
                },
            decreases boxes@.len() - a,
        {
            let mut b: usize = 0;
            while b < boxes.len()
                invariant
                    self.inv(),
                    a < bs.len(),
                    b <= bs.len(),
                    y <= i64::MAX,
                    bs == boxes@,
                    pairwise_apart(bs),
                    forall|m: int| 0 <= m < bs.len() ==> sized_room(start.size, #[trigger] bs[m]),
                    self@.size == start.size,
                    self@.dead == start.dead,
                    self@.alive.dom() == start.alive.dom(),
                    forall|q: Vec3| #[trigger] self@.alive.dom().contains(q) ==> self@.alive[q] == if room_cell(bs, bs.len() as int, y as int, q)
                        || corridor_cell(bs, flips, y as int, q, a as int, b as int) {
                        Piece::Ground
                    } else {
                        start.alive[q]
                    },
                decreases boxes@.len() - b,
            {
                let ghost f0 = flips;
                if boxes[a] != boxes[b] {
                    let flip = random_coin();
                    assert(sized_room(start.size, bs[a as int]));
                    assert(sized_room(start.size, bs[b as int]));
                    self.carve_corridor(y, boxes[a], boxes[b], flip);
                    proof {
                        assert(a != b);
                        flips = flips.insert((a as int, b as int), flip);
                        lemma_corridor_step(bs, f0, y as int, a as int, b as int, flip);
                    }
                } else {
                    proof {
                        assert(a == b) by {
                            if a != b {
                                assert(!boxes_meet(bs[a as int], bs[b as int]));
                            }
                        }
                        lemma_corridor_same(bs, flips, y as int, a as int);
                    }
                }
                b = b + 1;
            }
            proof {
                lemma_corridor_next_row(bs, flips, y as int, a as int);
            }
            a = a + 1;
        }
        proof {
            assert forall|q: Vec3| floor_cell(bs, flips, y as int, q) implies q.y == y by {
                if corridor_cell(bs, flips, y as int, q, bs.len() as int, 0) {
                    let (i, j) = choose|i: int, j: int|
                        0 <= i < bs.len() && 0 <= j < bs.len() && i != j && (i < bs.len() || (i == bs.len() && j < 0))
                            && #[trigger] on_corridor(bs[i], bs[j], flips[(i, j)], y as int, q);
                }
            }
            assert(sparse_floor(start, self@, bs, flips, y as int, floor_amount as nat));
        }
    }
}

impl Default for VoxelMap {
    /// An 80 by 40 by 80 map with one floor of rooms on layer 0.
    fn default() -> (m: Self)
        ensures
            m.inv(),
            m@.size == (Vec3 { x: 80, y: 40, z: 80 }),
            m@.dead.dom() == Set::<Vec3>::empty(),
            forall|q: Vec3| #[trigger] m@.alive.dom().contains(q) ==> m@.alive[q] == Piece::Empty || (q.y == 0
                && m@.alive[q] == Piece::Ground),
            exists|bs: Seq<FloorBox>, flips: Map<(int, int), bool>|
                sparse_floor(blank_map(Vec3 { x: 80, y: 40, z: 80 }), m@, bs, flips, 0, 6),
    {
        let size = Vec3::new(80, 40, 80);
        let mut map = VoxelMap::new(size);
        map.gen_sparse_floor(0, 6);
        map
    }
}

} // verus!
