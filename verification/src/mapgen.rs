//! The seeded floor generator: the same rooms-and-corridors layout as the
//! game map's, drawn from a `Random` and handed out as a list of the cells
//! to fill.

use vstd::prelude::*;
use crate::math::{Vec2, Vec3};
use crate::map::{FloorBox, Piece, pairwise_apart, box_fits, in_footprint, place_box, box_middle, on_corridor, boxes_meet};
use crate::random::{Random, RandomState, le_value, seeded, SOURCE};

verus! {

impl Random {
    /// A coin: the parity of one drawn byte.
    pub fn bool(&mut self) -> (r: bool)
        ensures
            r == (old(self)@.next_byte() % 2 == 1),
            final(self)@ == old(self)@.next_state(),
    {
        self.get_u8() % 2 == 1
    }
}

/// A room of the generator: inside the map, and at least four cells on a
/// side.
pub open spec fn room_ok(size: Vec3, b: FloorBox) -> bool {
    &&& box_fits(size, b)
    &&& b.x1 + 4 <= b.x2
    &&& b.z1 + 4 <= b.z2
}

/// A `u64` in `lo..hi` drawn from state `s`, as `Random::get_range` draws
/// it: the next eight bytes read little-endian, reduced modulo the range's
/// length and added to `lo`.
pub open spec fn drawn_u64(s: RandomState, lo: int, hi: int) -> int {
    lo + ((le_value(s.bytes(8)) as u64) as int) % (hi - lo)
}

/// The state after the 32 bytes that one room draws.
pub open spec fn after_room(s: RandomState) -> RandomState {
    s.advance(8).advance(8).advance(8).advance(8)
}

/// The room drawn from state `s` on a map of `size`: its width, then its
/// depth (4 to 16 each), then its low `x` and low `z`, each so that the room
/// fits.
#[verifier::opaque]
pub open spec fn drawn_room(s: RandomState, size: Vec3) -> FloorBox {
    let xs = drawn_u64(s, 4, 17);
    let s1 = s.advance(8);
    let zs = drawn_u64(s1, 4, 17);
    let s2 = s1.advance(8);
    let x = drawn_u64(s2, 0, 1 + size.x - xs);
    let s3 = s2.advance(8);
    let z = drawn_u64(s3, 0, 1 + size.z - zs);
    FloorBox { x1: x as usize, x2: (x + xs) as usize, z1: z as usize, z2: (z + zs) as usize }
}

/// `boxes` with `b` appended, unless `b` meets one of them.
pub open spec fn with_room(boxes: Seq<FloorBox>, b: FloorBox) -> Seq<FloorBox> {
    if forall|k: int| 0 <= k < boxes.len() ==> !boxes_meet(#[trigger] boxes[k], b) {
        boxes.push(b)
    } else {
        boxes
    }
}

/// The state after `n` rooms were drawn from `s`.
pub open spec fn rooms_state(s: RandomState, n: nat) -> RandomState
    decreases n,
{
    if n == 0 {
        s
    } else {
        after_room(rooms_state(s, (n - 1) as nat))
    }
}

/// The rooms kept after drawing `n` rooms from `s`, in the order drawn.
pub open spec fn rooms_drawn(s: RandomState, n: nat, size: Vec3) -> Seq<FloorBox>
    decreases n,
{
    if n == 0 {
        Seq::empty()
    } else {
        with_room(rooms_drawn(s, (n - 1) as nat, size), drawn_room(rooms_state(s, (n - 1) as nat), size))
    }
}

/// Every kept room was drawn by one of the tries.
proof fn lemma_rooms_from_draws(s: RandomState, n: nat, size: Vec3)
    ensures
        forall|k: int| #![trigger rooms_drawn(s, n, size)[k]] 0 <= k < rooms_drawn(s, n, size).len() ==> exists|j: nat|
            j < n && rooms_drawn(s, n, size)[k] == drawn_room(#[trigger] rooms_state(s, j), size),
    decreases n,
{
    if n > 0 {
        let m = (n - 1) as nat;
        lemma_rooms_from_draws(s, m, size);
        let prev = rooms_drawn(s, m, size);
        let b = drawn_room(rooms_state(s, m), size);
        let cur = rooms_drawn(s, n, size);
        assert(cur == with_room(prev, b));
        assert forall|k: int| #![trigger cur[k]] 0 <= k < cur.len() implies exists|j: nat|
            j < n && cur[k] == drawn_room(#[trigger] rooms_state(s, j), size) by {
            if k < prev.len() {
                assert(cur[k] == prev[k]);
                let j = choose|j: nat| j < m && prev[k] == drawn_room(#[trigger] rooms_state(s, j), size);
                assert(j < n && cur[k] == drawn_room(rooms_state(s, j), size));
            } else {
                assert(cur[k] == b);
                assert(m < n && cur[k] == drawn_room(rooms_state(s, m), size));
            }
        }
    }
}

/// The shape of every room the floor generator keeps from state `s`: the
/// try `j` that drew it starts from `rooms_state(s, j)`; its width is 4
/// plus the first eight drawn bytes (read little-endian as a `u64`) modulo
/// 13, its depth 4 plus the next eight modulo 13, so both lie in 4..=16;
/// its low `x` is the third eight bytes modulo the room it leaves
/// (`size.x - width + 1`), its low `z` likewise from the fourth eight.
pub proof fn lemma_room_shapes(s: RandomState, n: nat, size: Vec3)
    requires
        16 <= size.x <= usize::MAX,
        16 <= size.z <= usize::MAX,
    ensures
        forall|k: int| 0 <= k < rooms_drawn(s, n, size).len() ==> {
            let b = #[trigger] rooms_drawn(s, n, size)[k];
            &&& 4 <= b.x2 - b.x1 <= 16
            &&& 4 <= b.z2 - b.z1 <= 16
            &&& exists|j: nat| j < n && {
                let st = #[trigger] rooms_state(s, j);
                let w = 4 + ((le_value(st.bytes(8)) as u64) as int) % 13;
                let d = 4 + ((le_value(st.advance(8).bytes(8)) as u64) as int) % 13;
                &&& b.x2 - b.x1 == w
                &&& b.z2 - b.z1 == d
                &&& b.x1 == ((le_value(st.advance(8).advance(8).bytes(8)) as u64) as int) % (size.x - w + 1)
                &&& b.z1 == ((le_value(st.advance(8).advance(8).advance(8).bytes(8)) as u64) as int) % (size.z - d + 1)
            }
        },
{
    lemma_rooms_from_draws(s, n, size);
    reveal(drawn_room);
    assert forall|k: int| 0 <= k < rooms_drawn(s, n, size).len() implies {
        let b = #[trigger] rooms_drawn(s, n, size)[k];
        &&& 4 <= b.x2 - b.x1 <= 16
        &&& 4 <= b.z2 - b.z1 <= 16
        &&& exists|j: nat| j < n && {
            let st = #[trigger] rooms_state(s, j);
            let w = 4 + ((le_value(st.bytes(8)) as u64) as int) % 13;
            let d = 4 + ((le_value(st.advance(8).bytes(8)) as u64) as int) % 13;
            &&& b.x2 - b.x1 == w
            &&& b.z2 - b.z1 == d
            &&& b.x1 == ((le_value(st.advance(8).advance(8).bytes(8)) as u64) as int) % (size.x - w + 1)
            &&& b.z1 == ((le_value(st.advance(8).advance(8).advance(8).bytes(8)) as u64) as int) % (size.z - d + 1)
        }
    } by {
        let b = rooms_drawn(s, n, size)[k];
        let j = choose|j: nat| j < n && rooms_drawn(s, n, size)[k] == drawn_room(#[trigger] rooms_state(s, j), size);
        let st = rooms_state(s, j);
        let w = 4 + ((le_value(st.bytes(8)) as u64) as int) % 13;
        let d = 4 + ((le_value(st.advance(8).bytes(8)) as u64) as int) % 13;
        let vx = ((le_value(st.advance(8).advance(8).bytes(8)) as u64) as int);
        let vz = ((le_value(st.advance(8).advance(8).advance(8).bytes(8)) as u64) as int);
        assert(0 <= vx % (size.x - w + 1) < size.x - w + 1);
        assert(0 <= vz % (size.z - d + 1) < size.z - d + 1);
        assert(b.x2 - b.x1 == w);
        assert(b.z2 - b.z1 == d);
    }
}

/// Draws `floor_amount` rooms, 4 to 16 cells a side, at places on a map of
/// `size`, keeping each that meets no earlier kept one.
pub fn floor_boxes(rand: &mut Random, floor_amount: usize, size: Vec3) -> (r: Vec<FloorBox>)
    requires
        16 <= size.x <= usize::MAX,
        16 <= size.z <= usize::MAX,
    ensures
        r@ == rooms_drawn(old(rand)@, floor_amount as nat, size),
        final(rand)@ == rooms_state(old(rand)@, floor_amount as nat),
        pairwise_apart(r@),
        r@.len() <= floor_amount,
        floor_amount > 0 ==> r@.len() > 0,
        forall|k: int| 0 <= k < r@.len() ==> room_ok(size, #[trigger] r@[k]),
        forall|k: int| 0 <= k < r@.len() ==> {
            let b = #[trigger] r@[k];
            &&& 4 <= b.x2 - b.x1 <= 16
            &&& 4 <= b.z2 - b.z1 <= 16
            &&& exists|j: nat| j < floor_amount && {
                let st = #[trigger] rooms_state(old(rand)@, j);
                let w = 4 + ((le_value(st.bytes(8)) as u64) as int) % 13;
                let d = 4 + ((le_value(st.advance(8).bytes(8)) as u64) as int) % 13;
                &&& b.x2 - b.x1 == w
                &&& b.z2 - b.z1 == d
                &&& b.x1 == ((le_value(st.advance(8).advance(8).bytes(8)) as u64) as int) % (size.x - w + 1)
                &&& b.z1 == ((le_value(st.advance(8).advance(8).advance(8).bytes(8)) as u64) as int) % (size.z - d + 1)
            }
        },
{
    let ghost s0 = rand@;
    proof {
        lemma_room_shapes(s0, floor_amount as nat, size);
    }
    let sx: u64 = size.x as u64;
    let sz: u64 = size.z as u64;
    let mut boxes: Vec<FloorBox> = Vec::new();
    for i in 0..floor_amount
        invariant
            sx == size.x,
            sz == size.z,
            16 <= sx <= usize::MAX,
            16 <= sz <= usize::MAX,
            pairwise_apart(boxes@),
            boxes@.len() <= i,
            i > 0 ==> boxes@.len() > 0,
            boxes@ == rooms_drawn(s0, i as nat, size),
            rand@ == rooms_state(s0, i as nat),
            forall|k: int| 0 <= k < boxes@.len() ==> room_ok(size, #[trigger] boxes@[k]),
    {
        let ghost st = rand@;
        let x_size: u64 = rand.get_range(4u64..17u64);
        let z_size: u64 = rand.get_range(4u64..17u64);
        let x: u64 = rand.get_range(0u64..(1 + sx - x_size));
        let z: u64 = rand.get_range(0u64..(1 + sz - z_size));
        let b = FloorBox { x1: x as usize, x2: (x + x_size) as usize, z1: z as usize, z2: (z + z_size) as usize };
        assert(b == drawn_room(st, size)) by {
            reveal(drawn_room);
        }
        let ghost before = boxes@;
        place_box(&mut boxes, b);
        proof {
            assert(boxes@ == with_room(before, b));
            assert forall|k: int| 0 <= k < boxes@.len() implies room_ok(size, #[trigger] boxes@[k]) by {
                if k < before.len() {
                    assert(boxes@[k] == before[k]);
                }
            }
        }
    }
    boxes
}

/// The coin of the `k`-th draw after state `s`: the parity of that byte,
/// as `Random::bool` gives it.
#[verifier::opaque]
pub open spec fn coin(s: RandomState, k: int) -> bool {
    s.advance(k as nat).next_byte() % 2 == 1
}

/// How many draws come before the corridor from room `a` to room `b` among
/// `n` rooms: the corridors are laid in order of `a`, then of `b`, and a
/// room has none to itself.
#[verifier::opaque]
pub open spec fn pair_index(n: int, a: int, b: int) -> int {
    a * (n - 1) + if b <= a { b } else { b - 1 }
}

/// The corner the corridor from room `a` to room `b` turns at, among `n`
/// rooms whose corridors draw their coins from state `s` on.
#[verifier::opaque]
pub open spec fn corridor_turn(s: RandomState, n: int, a: int, b: int) -> bool {
    coin(s, pair_index(n, a, b))
}

/// Whether cell `q` belongs to the floor of rooms `boxes` on layer `y`,
/// whose corridors draw their coins from state `s` on: it lies in a room,
/// or on the corridor from one room to another.
#[verifier::opaque]
pub open spec fn laid(boxes: Seq<FloorBox>, s: RandomState, y: int, q: Vec3) -> bool {
    ||| q.y == y && exists|i: int| 0 <= i < boxes.len() && #[trigger] in_footprint(boxes[i], q)
    ||| exists|i: int, j: int|
        0 <= i < boxes.len() && 0 <= j < boxes.len() && i != j
            && #[trigger] on_corridor(boxes[i], boxes[j], corridor_turn(s, boxes.len() as int, i, j), y, q)
}

/// `out` holds cell `q` as ground.
#[verifier::opaque]
pub open spec fn covered(out: Seq<(Vec3, Piece)>, q: Vec3) -> bool {
    out.contains((q, Piece::Ground))
}

/// Every entry of `out` is a ground cell of the floor.
pub open spec fn all_laid(out: Seq<(Vec3, Piece)>, boxes: Seq<FloorBox>, s: RandomState, y: int) -> bool {
    forall|k: int| 0 <= k < out.len() ==> (#[trigger] out[k]).1 == Piece::Ground && laid(boxes, s, y, out[k].0)
}

/// Every cell of the floor is in `out` as ground.
pub open spec fn floor_covered(out: Seq<(Vec3, Piece)>, boxes: Seq<FloorBox>, s: RandomState, y: int) -> bool {
    forall|q: Vec3| #[trigger] laid(boxes, s, y, q) ==> covered(out, q)
}

/// How the draw count moves along the corridors of `n` rooms.
proof fn lemma_pair_index(n: int, a: int, b: int)
    requires
        0 <= a < n,
        0 <= b < n,
    ensures
        pair_index(n, a, b) >= 0,
        pair_index(n, a, b + 1) == pair_index(n, a, b) + if b == a { 0int } else { 1int },
        pair_index(n, a, n) == pair_index(n, a + 1, 0),
        pair_index(n, a, 0) == a * (n - 1),
        pair_index(n, a + 1, 0) == (a + 1) * (n - 1),
{
    reveal(pair_index);
    assert(a * (n - 1) >= 0) by (nonlinear_arith)
        requires
            0 <= a < n,
    ;
    assert(a * (n - 1) + (n - 1) == (a + 1) * (n - 1)) by (nonlinear_arith);
}

/// One draw more is one `next_state` more.
proof fn lemma_advance_step(s: RandomState, k: nat)
    ensures
        s.advance(k).next_state() == s.advance(k + 1),
    decreases k,
{
    if k == 0 {
        assert(s.advance(0) == s);
        assert(s.advance(1) == s.next_state().advance(0));
    } else {
        let t = s.next_state();
        lemma_advance_step(t, (k - 1) as nat);
        assert(s.advance(k) == t.advance((k - 1) as nat));
        assert(s.advance(k + 1) == t.advance(((k + 1) - 1) as nat));
        assert(((k - 1) as nat) + 1 == k);
    }
}

/// A room cell on layer `y` is a cell of the floor.
proof fn lemma_room_laid(boxes: Seq<FloorBox>, s: RandomState, y: int, m: int, q: Vec3)
    requires
        0 <= m < boxes.len(),
        q.y == y,
        in_footprint(boxes[m], q),
    ensures
        laid(boxes, s, y, q),
{
    reveal(laid);
}

/// A cell of the corridor from room `i` to another room `j` is a cell of
/// the floor.
proof fn lemma_corridor_laid(boxes: Seq<FloorBox>, s: RandomState, y: int, i: int, j: int, q: Vec3)
    requires
        0 <= i < boxes.len(),
        0 <= j < boxes.len(),
        i != j,
        on_corridor(boxes[i], boxes[j], corridor_turn(s, boxes.len() as int, i, j), y, q),
    ensures
        laid(boxes, s, y, q),
{
    reveal(laid);
}

/// Pushing a ground cell of the floor keeps every entry laid, keeps every
/// covered cell covered, and covers the cell.
proof fn lemma_push_laid(before: Seq<(Vec3, Piece)>, boxes: Seq<FloorBox>, s: RandomState, y: int, p: Vec3)
    requires
        all_laid(before, boxes, s, y),
        laid(boxes, s, y, p),
    ensures
        all_laid(before.push((p, Piece::Ground)), boxes, s, y),
        forall|q: Vec3| #[trigger] covered(before, q) ==> covered(before.push((p, Piece::Ground)), q),
        covered(before.push((p, Piece::Ground)), p),
{
    lemma_push_all_laid(before, boxes, s, y, p);
    lemma_push_covers(before, p);
}

/// Pushing a ground cell of the floor keeps every entry laid.
proof fn lemma_push_all_laid(before: Seq<(Vec3, Piece)>, boxes: Seq<FloorBox>, s: RandomState, y: int, p: Vec3)
    requires
        all_laid(before, boxes, s, y),
        laid(boxes, s, y, p),
    ensures
        all_laid(before.push((p, Piece::Ground)), boxes, s, y),
{
    let after = before.push((p, Piece::Ground));
    assert forall|k: int| 0 <= k < after.len() implies (#[trigger] after[k]).1 == Piece::Ground && laid(boxes, s, y, after[k].0) by {
        if k < before.len() {
            assert(after[k] == before[k]);
        } else {
            assert(after[k] == (p, Piece::Ground));
        }
    }
}

/// Pushing a ground cell keeps every covered cell covered and covers it.
proof fn lemma_push_covers(before: Seq<(Vec3, Piece)>, p: Vec3)
    ensures
        forall|q: Vec3| #[trigger] covered(before, q) ==> covered(before.push((p, Piece::Ground)), q),
        covered(before.push((p, Piece::Ground)), p),
{
    reveal(covered);
    assert forall|q: Vec3| #[trigger] covered(before, q) implies covered(before.push((p, Piece::Ground)), q) by {
        vstd::seq_lib::lemma_seq_contains_after_push(before, (p, Piece::Ground), (q, Piece::Ground));
    }
    vstd::seq_lib::lemma_seq_contains_after_push(before, (p, Piece::Ground), (p, Piece::Ground));
}

/// The cells of the floor for `boxes` on layer `y`: every room's cells, then
/// for every room and every other room a corridor between their middles,
/// whose corner a coin drawn from `rand` picks.
#[verifier::rlimit(40)]
pub fn floor_pieces(rand: &mut Random, boxes: &Vec<FloorBox>, y: i64, size: Vec3) -> (r: Vec<(Vec3, Piece)>)
    requires
        0 <= size.x,
        0 <= size.z,
        pairwise_apart(boxes@),
        forall|k: int| 0 <= k < boxes@.len() ==> room_ok(size, #[trigger] boxes@[k]),
    ensures
        all_laid(r@, boxes@, old(rand)@, y as int),
        floor_covered(r@, boxes@, old(rand)@, y as int),
        final(rand)@ == old(rand)@.advance((boxes@.len() * (boxes@.len() - 1)) as nat),
{
    let ghost bs = boxes@;
    let ghost s1 = rand@;
    let n = boxes.len();
    let mut out: Vec<(Vec3, Piece)> = Vec::new();
    for i in 0..n
        invariant
            n == bs.len(),
            bs == boxes@,
            rand@ == s1,
            forall|k: int| 0 <= k < bs.len() ==> room_ok(size, #[trigger] bs[k]),
            all_laid(out@, bs, s1, y as int),
            forall|m: int, q: Vec3|
                0 <= m < i && q.y == y && #[trigger] in_footprint(bs[m], q) ==> covered(out@, q),
    {
        let b = boxes[i];
        assert(room_ok(size, bs[i as int]));
        for x in b.x1..b.x2
            invariant
                n == bs.len(),
                bs == boxes@,
                i < n,
                b == bs[i as int],
                rand@ == s1,
                forall|k: int| 0 <= k < bs.len() ==> room_ok(size, #[trigger] bs[k]),
                all_laid(out@, bs, s1, y as int),
                forall|m: int, q: Vec3|
                    0 <= m < i && q.y == y && #[trigger] in_footprint(bs[m], q) ==> covered(out@, q),
                forall|q: Vec3|
                    q.y == y && #[trigger] in_footprint(b, q) && q.x < x ==> covered(out@, q),
        {
            for z in b.z1..b.z2
                invariant
                    n == bs.len(),
                    bs == boxes@,
                    i < n,
                    b == bs[i as int],
                    b.x1 <= x < b.x2,
                    rand@ == s1,
                    forall|k: int| 0 <= k < bs.len() ==> room_ok(size, #[trigger] bs[k]),
                    all_laid(out@, bs, s1, y as int),
                    forall|m: int, q: Vec3|
                        0 <= m < i && q.y == y && #[trigger] in_footprint(bs[m], q) ==> covered(out@, q),
                    forall|q: Vec3|
                        q.y == y && #[trigger] in_footprint(b, q) && (q.x < x || (q.x == x && q.z < z)) ==> covered(out@, q),
            {
                let p = Vec3::new(x as i64, y, z as i64);
                let ghost before = out@;
                out.push((p, Piece::Ground));
                proof {
                    assert(in_footprint(bs[i as int], p));
                    lemma_room_laid(bs, s1, y as int, i as int, p);
                    lemma_push_laid(before, bs, s1, y as int, p);
                }
            }
        }
    }
    proof {
        assert(0 * (n - 1) == 0);
        assert(s1.advance(0) == s1);
    }
    for a in 0..n
        invariant
            n == bs.len(),
            bs == boxes@,
            pairwise_apart(bs),
            forall|k: int| 0 <= k < bs.len() ==> room_ok(size, #[trigger] bs[k]),
            all_laid(out@, bs, s1, y as int),
            forall|m: int, q: Vec3|
                0 <= m < n && q.y == y && #[trigger] in_footprint(bs[m], q) ==> covered(out@, q),
            forall|i: int, j: int, q: Vec3|
                0 <= i < a && 0 <= j < n && i != j && #[trigger] on_corridor(bs[i], bs[j], corridor_turn(s1, n as int, i, j), y as int, q)
                    ==> covered(out@, q),
            rand@ == s1.advance((a * (n - 1)) as nat),
    {
        proof {
            lemma_pair_index(n as int, a as int, 0);
        }
        for b in 0..n
            invariant
                n == bs.len(),
                bs == boxes@,
                a < n,
                pairwise_apart(bs),
                forall|k: int| 0 <= k < bs.len() ==> room_ok(size, #[trigger] bs[k]),
                all_laid(out@, bs, s1, y as int),
                forall|m: int, q: Vec3|
                    0 <= m < n && q.y == y && #[trigger] in_footprint(bs[m], q) ==> covered(out@, q),
                forall|i: int, j: int, q: Vec3|
                    0 <= i < n && 0 <= j < n && i != j && (i < a || (i == a && j < b))
                        && #[trigger] on_corridor(bs[i], bs[j], corridor_turn(s1, n as int, i, j), y as int, q) ==> covered(out@, q),
                rand@ == s1.advance(pair_index(n as int, a as int, b as int) as nat),
        {
            let ghost idx = pair_index(n as int, a as int, b as int);
            proof {
                lemma_pair_index(n as int, a as int, b as int);
            }
            if boxes[a] != boxes[b] {
                assert(a != b);
                let ra = boxes[a];
                let rb = boxes[b];
                assert(room_ok(size, bs[a as int]) && room_ok(size, bs[b as int]));
                let am = ra.middle();
                let bm = rb.middle();
                let ghost sk = rand@;
                let flip = rand.bool();
                proof {
                    lemma_advance_step(s1, idx as nat);
                    reveal(coin);
                    reveal(corridor_turn);
                    assert(flip == corridor_turn(s1, n as int, a as int, b as int));
                }
                let middle = if flip {
                    Vec2::new(am.x, bm.y)
                } else {
                    Vec2::new(bm.x, am.y)
                };
                let lz = if am.y <= bm.y { am.y } else { bm.y };
                let hz = if am.y <= bm.y { bm.y } else { am.y };
                let lx = if am.x <= bm.x { am.x } else { bm.x };
                let hx = if am.x <= bm.x { bm.x } else { am.x };
                let ghost before = out@;
                let p = Vec3::new(middle.x as i64, y, middle.y as i64);
                out.push((p, Piece::Ground));
                proof {
                    assert(on_corridor(bs[a as int], bs[b as int], corridor_turn(s1, bs.len() as int, a as int, b as int), y as int, p));
                    lemma_corridor_laid(bs, s1, y as int, a as int, b as int, p);
                    lemma_push_laid(before, bs, s1, y as int, p);
                    assert forall|c: Vec3| c.y == y && c.x == middle.x && c.z == middle.y implies #[trigger] covered(out@, c) by {
                        assert(c == p);
                    }
                }
                for q in lz..hz
                    invariant
                        n == bs.len(),
                        bs == boxes@,
                        a < n,
                        b < n,
                        a != b,
                        ra == bs[a as int],
                        rb == bs[b as int],
                        am == box_middle(ra),
                        bm == box_middle(rb),
                        flip == corridor_turn(s1, n as int, a as int, b as int),
                        middle.x == (if flip { am.x } else { bm.x }),
                        middle.y == (if flip { bm.y } else { am.y }),
                        lz == (if am.y <= bm.y { am.y } else { bm.y }),
                        hz == (if am.y <= bm.y { bm.y } else { am.y }),
                        middle.x < size.x,
                        hz <= size.z,
                        forall|k: int| 0 <= k < bs.len() ==> room_ok(size, #[trigger] bs[k]),
                        all_laid(out@, bs, s1, y as int),
                        forall|m: int, c: Vec3|
                            0 <= m < n && c.y == y && #[trigger] in_footprint(bs[m], c) ==> covered(out@, c),
                        forall|i: int, j: int, c: Vec3|
                            0 <= i < n && 0 <= j < n && i != j && (i < a || (i == a && j < b))
                                && #[trigger] on_corridor(bs[i], bs[j], corridor_turn(s1, n as int, i, j), y as int, c) ==> covered(out@, c),
                        forall|c: Vec3| c.y == y && c.x == middle.x && (c.z == middle.y || lz <= c.z < q) ==> #[trigger] covered(out@, c),
                {
                    let ghost before = out@;
                    let c = Vec3::new(middle.x as i64, y, q as i64);
                    out.push((c, Piece::Ground));
                    proof {
                        assert(on_corridor(bs[a as int], bs[b as int], corridor_turn(s1, bs.len() as int, a as int, b as int), y as int, c));
                        lemma_corridor_laid(bs, s1, y as int, a as int, b as int, c);
                        lemma_push_laid(before, bs, s1, y as int, c);
                        assert forall|d: Vec3| d.y == y && d.x == middle.x && (d.z == middle.y || lz <= d.z < q + 1) implies #[trigger] covered(out@, d) by {
                            if d.z == q {
                                assert(d == c);
                            } else {
                                assert(covered(before, d));
                            }
                        }
                    }
                }
                for q in lx..hx
                    invariant
                        n == bs.len(),
                        bs == boxes@,
                        a < n,
                        b < n,
                        a != b,
                        ra == bs[a as int],
                        rb == bs[b as int],
                        am == box_middle(ra),
                        bm == box_middle(rb),
                        flip == corridor_turn(s1, n as int, a as int, b as int),
                        middle.x == (if flip { am.x } else { bm.x }),
                        middle.y == (if flip { bm.y } else { am.y }),
                        lz == (if am.y <= bm.y { am.y } else { bm.y }),
                        hz == (if am.y <= bm.y { bm.y } else { am.y }),
                        lx == (if am.x <= bm.x { am.x } else { bm.x }),
                        hx == (if am.x <= bm.x { bm.x } else { am.x }),
                        middle.y < size.z,
                        hx <= size.x,
                        forall|k: int| 0 <= k < bs.len() ==> room_ok(size, #[trigger] bs[k]),
                        all_laid(out@, bs, s1, y as int),
                        forall|m: int, c: Vec3|
                            0 <= m < n && c.y == y && #[trigger] in_footprint(bs[m], c) ==> covered(out@, c),
                        forall|i: int, j: int, c: Vec3|
                            0 <= i < n && 0 <= j < n && i != j && (i < a || (i == a && j < b))
                                && #[trigger] on_corridor(bs[i], bs[j], corridor_turn(s1, n as int, i, j), y as int, c) ==> covered(out@, c),
                        forall|c: Vec3| c.y == y && ((c.x == middle.x && (c.z == middle.y || lz <= c.z < hz)) || (c.z == middle.y && lx <= c.x < q))
                            ==> #[trigger] covered(out@, c),
                {
                    let ghost before = out@;
                    let c = Vec3::new(q as i64, y, middle.y as i64);
                    out.push((c, Piece::Ground));
                    proof {
                        assert(on_corridor(bs[a as int], bs[b as int], corridor_turn(s1, bs.len() as int, a as int, b as int), y as int, c));
                        lemma_corridor_laid(bs, s1, y as int, a as int, b as int, c);
                        lemma_push_laid(before, bs, s1, y as int, c);
                        assert forall|d: Vec3| d.y == y && ((d.x == middle.x && (d.z == middle.y || lz <= d.z < hz)) || (d.z == middle.y && lx <= d.x < q + 1))
                            implies #[trigger] covered(out@, d) by {
                            if d.z == middle.y && d.x == q {
                                assert(d == c);
                            } else {
                                assert(covered(before, d));
                            }
                        }
                    }
                }
                proof {
                    assert forall|i: int, j: int, c: Vec3|
                        0 <= i < n && 0 <= j < n && i != j && (i < a || (i == a && j < b + 1))
                            && #[trigger] on_corridor(bs[i], bs[j], corridor_turn(s1, n as int, i, j), y as int, c) implies covered(out@, c) by {
                        if i == a && j == b {
                            assert(c.y == y && ((c.x == middle.x && (c.z == middle.y || lz <= c.z < hz)) || (c.z == middle.y && lx <= c.x < hx)));
                        }
                    }
                }
            } else {
                proof {
                    if a != b {
                        assert(!boxes_meet(bs[a as int], bs[b as int]));
                    }
                }
            }
        }
        proof {
            lemma_pair_index(n as int, a as int, 0);
        }
    }
    proof {
        assert forall|q: Vec3| #[trigger] laid(bs, s1, y as int, q) implies covered(out@, q) by {
            reveal(laid);
            if q.y == y && exists|m: int| 0 <= m < bs.len() && #[trigger] in_footprint(bs[m], q) {
                let m = choose|m: int| 0 <= m < bs.len() && #[trigger] in_footprint(bs[m], q);
            } else {
                let (i, j) = choose|i: int, j: int|
                    0 <= i < bs.len() && 0 <= j < bs.len() && i != j
                        && #[trigger] on_corridor(bs[i], bs[j], corridor_turn(s1, bs.len() as int, i, j), y as int, q);
            }
        }
    }
    out
}

/// The floor laid from state `s`: the rooms drawn for `floor_amount` tries
/// on a map of `size`, then their corridors with coins drawn after them;
/// `out` holds exactly its cells, as ground, on layer `y`.
pub open spec fn floor_from(s: RandomState, y: int, floor_amount: nat, size: Vec3, out: Seq<(Vec3, Piece)>) -> bool {
    &&& all_laid(out, rooms_drawn(s, floor_amount, size), rooms_state(s, floor_amount), y)
    &&& floor_covered(out, rooms_drawn(s, floor_amount, size), rooms_state(s, floor_amount), y)
}

/// Lays up to `floor_amount` rooms and the corridors between them on layer
/// `y` of a map of `size`, drawing from `rand`, and returns the cells to
/// fill with ground.
pub fn gen_sparse_floor(rand: &mut Random, y: i64, floor_amount: usize, size: Vec3) -> (r: Vec<(Vec3, Piece)>)
    requires
        16 <= size.x <= usize::MAX,
        16 <= size.z <= usize::MAX,
    ensures
        floor_from(old(rand)@, y as int, floor_amount as nat, size, r@),
        floor_amount > 0 ==> rooms_drawn(old(rand)@, floor_amount as nat, size).len() > 0,
        pairwise_apart(rooms_drawn(old(rand)@, floor_amount as nat, size)),
        forall|k: int| 0 <= k < rooms_drawn(old(rand)@, floor_amount as nat, size).len()
            ==> room_ok(size, #[trigger] rooms_drawn(old(rand)@, floor_amount as nat, size)[k]),
{
    let boxes = floor_boxes(rand, floor_amount, size);
    let r = floor_pieces(rand, &boxes, y, size);
    r
}

/// The floor of a map of `size` for `seed`: up to three rooms and their
/// corridors on layer 0, drawn from the generator seeded with `seed`.
pub fn generate_map(seed: u64, size: Vec3) -> (r: Vec<(Vec3, Piece)>)
    requires
        16 <= size.x <= usize::MAX,
        16 <= size.z <= usize::MAX,
    ensures
        floor_from(seeded(seed, SOURCE@), 0, 3, size, r@),
        rooms_drawn(seeded(seed, SOURCE@), 3, size).len() > 0,
{
    let mut random = Random::new(seed);
    gen_sparse_floor(&mut random, 0, 3, size)
}

} // verus!
