//! A small pseudo random generator that walks a fixed pool of bytes. It is
//! not cryptographically secure and must not be used as such.

use vstd::prelude::*;
use core::ops::Range;

verus! {

/// Number of bytes in the built-in pool.
pub const POOL_SIZE: usize = 1024;

/// The built-in pool that `Random::new` draws from.
pub const SOURCE: [u8; 1024] = [
    131, 244, 81, 5, 98, 175, 142, 242, 108, 61, 207, 207, 187, 98, 30, 86,
    222, 252, 186, 74, 18, 222, 220, 91, 105, 250, 102, 120, 104, 145, 46, 238,
    56, 211, 234, 96, 73, 58, 199, 10, 115, 21, 19, 184, 250, 175, 5, 74,
    166, 248, 239, 248, 219, 173, 56, 209, 139, 76, 228, 137, 206, 17, 132, 144,
    209, 198, 233, 28, 58, 80, 210, 238, 21, 61, 116, 189, 23, 58, 216, 39,
    188, 137, 151, 128, 137, 202, 246, 157, 68, 21, 250, 232, 176, 125, 213, 168,
    194, 114, 202, 247, 116, 239, 172, 15, 56, 100, 185, 46, 24, 178, 79, 174,
    167, 173, 173, 145, 182, 157, 23, 55, 201, 188, 29, 20, 215, 167, 160, 246,
    211, 43, 142, 176, 72, 116, 74, 159, 121, 108, 186, 185, 213, 81, 26, 203,
    174, 180, 225, 208, 193, 114, 110, 93, 140, 193, 178, 146, 79, 151, 207, 55,
    165, 205, 34, 105, 57, 227, 125, 106, 46, 41, 194, 159, 79, 14, 149, 172,
    156, 158, 165, 240, 151, 92, 180, 232, 176, 166, 211, 71, 72, 107, 223, 228,
    228, 182, 245, 57, 147, 193, 193, 217, 203, 252, 66, 50, 101, 11, 151, 198,
    16, 74, 213, 164, 57, 20, 69, 135, 44, 42, 185, 152, 97, 73, 140, 98,
    80, 121, 145, 205, 91, 138, 240, 51, 57, 151, 204, 187, 213, 72, 32, 140,
    30, 170, 246, 211, 223, 154, 175, 137, 215, 64, 167, 66, 51, 151, 53, 162,
    244, 36, 136, 221, 166, 223, 33, 78, 181, 159, 56, 79, 22, 186, 134, 211,
    154, 169, 87, 31, 1, 91, 160, 89, 248, 207, 18, 82, 115, 233, 182, 195,
    228, 124, 173, 157, 123, 224, 233, 85, 60, 194, 3, 62, 80, 11, 98, 223,
    83, 33, 131, 164, 125, 249, 219, 129, 8, 110, 151, 81, 56, 119, 6, 69,
    40, 213, 9, 187, 205, 93, 225, 254, 246, 62, 16, 18, 117, 246, 177, 231,
    144, 235, 157, 9, 167, 170, 162, 18, 193, 116, 94, 53, 138, 109, 16, 68,
    115, 104, 48, 163, 60, 26, 200, 195, 52, 215, 55, 176, 107, 203, 209, 80,
    0, 224, 203, 239, 79, 52, 103, 230, 91, 217, 223, 158, 247, 39, 42, 247,
    151, 67, 209, 198, 208, 1, 253, 24, 10, 160, 222, 157, 206, 208, 64, 68,
    14, 205, 173, 80, 63, 132, 225, 166, 244, 126, 124, 26, 232, 165, 227, 62,
    155, 202, 211, 150, 119, 244, 196, 244, 10, 2, 165, 77, 214, 195, 229, 5,
    9, 221, 159, 201, 14, 167, 167, 229, 79, 213, 54, 134, 255, 84, 158, 136,
    147, 119, 57, 189, 29, 107, 35, 101, 120, 181, 244, 37, 162, 252, 10, 211,
    227, 227, 110, 216, 104, 114, 125, 228, 206, 71, 124, 37, 255, 197, 58, 131,
    75, 207, 232, 159, 226, 96, 127, 21, 196, 214, 98, 160, 98, 132, 140, 100,
    118, 57, 5, 80, 220, 151, 48, 21, 95, 228, 99, 58, 245, 7, 133, 7,
    59, 123, 169, 121, 125, 42, 37, 211, 82, 70, 84, 136, 23, 121, 140, 171,
    216, 230, 239, 91, 120, 195, 160, 31, 151, 95, 0, 215, 216, 109, 15, 85,
    86, 118, 176, 208, 5, 123, 185, 114, 74, 97, 182, 110, 173, 15, 93, 63,
    103, 25, 178, 90, 211, 237, 212, 235, 159, 68, 152, 248, 86, 232, 87, 184,
    228, 243, 108, 135, 27, 101, 102, 113, 37, 249, 3, 195, 146, 173, 27, 244,
    189, 218, 196, 154, 31, 123, 73, 23, 236, 239, 106, 51, 158, 18, 53, 53,
    87, 60, 223, 253, 87, 63, 49, 162, 57, 115, 145, 134, 140, 155, 23, 71,
    224, 110, 126, 20, 99, 220, 220, 210, 47, 7, 255, 5, 72, 141, 63, 154,
    140, 97, 28, 4, 97, 126, 140, 97, 102, 184, 111, 8, 111, 43, 26, 210,
    23, 141, 175, 2, 224, 79, 89, 152, 138, 240, 217, 10, 184, 230, 243, 233,
    54, 234, 133, 11, 67, 8, 248, 36, 97, 68, 172, 181, 44, 77, 179, 128,
    56, 200, 127, 41, 235, 153, 219, 129, 4, 35, 194, 187, 199, 87, 255, 157,
    254, 117, 19, 141, 68, 99, 27, 251, 24, 255, 120, 12, 178, 218, 122, 155,
    68, 55, 45, 100, 163, 199, 211, 26, 0, 173, 198, 37, 138, 101, 175, 187,
    196, 237, 117, 123, 153, 175, 10, 15, 51, 109, 146, 129, 75, 135, 206, 136,
    140, 31, 19, 181, 107, 254, 74, 182, 189, 205, 196, 113, 15, 240, 128, 33,
    23, 252, 121, 16, 249, 128, 208, 8, 228, 244, 198, 248, 43, 205, 237, 111,
    39, 62, 137, 182, 94, 163, 54, 235, 167, 194, 243, 66, 232, 96, 117, 156,
    243, 185, 148, 42, 96, 139, 25, 75, 14, 238, 162, 90, 125, 245, 56, 254,
    119, 83, 228, 129, 189, 237, 193, 92, 213, 96, 193, 6, 124, 190, 70, 92,
    59, 203, 1, 65, 200, 85, 60, 94, 230, 182, 44, 70, 14, 231, 17, 29,
    66, 229, 81, 188, 102, 229, 210, 229, 67, 47, 118, 16, 149, 68, 22, 19,
    56, 12, 169, 16, 227, 161, 240, 123, 166, 33, 226, 185, 229, 101, 164, 233,
    18, 245, 234, 81, 129, 253, 225, 142, 177, 192, 220, 108, 66, 239, 226, 125,
    186, 96, 78, 139, 186, 16, 167, 106, 212, 195, 48, 71, 35, 237, 239, 60,
    163, 162, 6, 213, 177, 67, 43, 27, 245, 186, 155, 110, 97, 189, 240, 39,
    50, 84, 218, 168, 236, 45, 103, 115, 93, 254, 10, 16, 251, 177, 235, 84,
    52, 95, 172, 149, 101, 208, 178, 85, 166, 70, 106, 176, 5, 63, 203, 136,
    7, 32, 107, 64, 245, 184, 77, 83, 164, 144, 32, 136, 98, 75, 30, 81,
    155, 40, 147, 2, 137, 27, 24, 209, 11, 245, 86, 12, 251, 203, 8, 165,
    215, 114, 39, 73, 153, 89, 159, 87, 228, 139, 48, 79, 6, 141, 162, 110,
    30, 208, 215, 226, 91, 206, 57, 184, 188, 0, 112, 247, 223, 97, 184, 61,
];

/// Abstract state of a generator: a position in the pool, an increment, an
/// accumulator, and the pool itself.
pub struct RandomState {
    pub index: nat,
    pub inc: u32,
    pub state: u32,
    pub pool: Seq<u8>,
}

/// `2^(8 * n)`.
pub open spec fn pow256(n: nat) -> nat
    decreases n,
{
    if n == 0 {
        1
    } else {
        256 * pow256((n - 1) as nat)
    }
}

/// The number whose little-endian bytes are `s`.
pub open spec fn le_value(s: Seq<u8>) -> nat
    decreases s.len(),
{
    if s.len() == 0 {
        0
    } else {
        le_value(s.drop_last()) + (s.last() as nat) * pow256((s.len() - 1) as nat)
    }
}

impl RandomState {
    pub open spec fn valid(self) -> bool {
        0 < self.pool.len() && self.index < self.pool.len()
    }

    /// The accumulator after one more step.
    pub open spec fn next_acc(self) -> u32 {
        ((self.state + self.inc) % 0x1_0000_0000) as u32
    }

    /// The byte the next draw yields: the pool byte plus the accumulator,
    /// modulo 255.
    pub open spec fn next_byte(self) -> u8 {
        ((self.pool[self.index as int] + self.next_acc()) % 255) as u8
    }

    /// The state after one draw.
    pub open spec fn next_state(self) -> RandomState {
        RandomState {
            index: ((self.index + 1) % self.pool.len()) as nat,
            inc: self.inc,
            state: self.next_acc(),
            pool: self.pool,
        }
    }

    /// The state after `n` draws.
    pub open spec fn advance(self, n: nat) -> RandomState
        decreases n,
    {
        if n == 0 {
            self
        } else {
            self.next_state().advance((n - 1) as nat)
        }
    }

    /// The next `n` bytes drawn, in order.
    pub open spec fn bytes(self, n: nat) -> Seq<u8>
        decreases n,
    {
        if n == 0 {
            Seq::empty()
        } else {
            seq![self.next_byte()] + self.next_state().bytes((n - 1) as nat)
        }
    }
}

/// The state a generator starts in for `seed` over `pool`: the top two bytes
/// of the seed (big-endian) pick the start in the pool, the next two the
/// increment, and the low four the accumulator.
pub open spec fn seeded(seed: u64, pool: Seq<u8>) -> RandomState {
    RandomState {
        index: ((seed as int / 0x1_0000_0000_0000) % pool.len() as int) as nat,
        inc: ((seed as int / 0x1_0000_0000) % 0x1_0000) as u32,
        state: (seed as int % 0x1_0000_0000) as u32,
        pool,
    }
}

/// Drawing from a valid state leaves it valid.
pub proof fn lemma_advance_valid(s: RandomState, n: nat)
    requires
        s.valid(),
    ensures
        s.advance(n).valid(),
        s.advance(n).pool == s.pool,
        s.advance(n).inc == s.inc,
    decreases n,
{
    if n > 0 {
        lemma_advance_valid(s.next_state(), (n - 1) as nat);
    }
}

/// One more draw appends one more byte.
pub proof fn lemma_bytes_push(s: RandomState, n: nat)
    ensures
        s.bytes(n + 1) == s.bytes(n).push(s.advance(n).next_byte()),
        s.advance(n + 1) == s.advance(n).next_state(),
        s.bytes(n).len() == n,
    decreases n,
{
    if n == 0 {
        assert(s.bytes(1) == seq![s.next_byte()] + s.next_state().bytes(0));
        assert(s.bytes(1) =~= s.bytes(0).push(s.advance(0).next_byte()));
        assert(s.advance(1) == s.next_state().advance(0));
    } else {
        let t = s.next_state();
        lemma_bytes_push(t, (n - 1) as nat);
        assert(s.advance(n + 1) == t.advance(n));
        assert(s.advance(n) == t.advance((n - 1) as nat));
        assert(s.bytes(n + 1) == seq![s.next_byte()] + t.bytes(n));
        assert(s.bytes(n) == seq![s.next_byte()] + t.bytes((n - 1) as nat));
        assert(s.bytes(n + 1) =~= s.bytes(n).push(s.advance(n).next_byte()));
    }
}

/// Every byte the generator yields is below 255.
pub proof fn lemma_byte_below_255(s: RandomState, n: nat, i: int)
    requires
        0 <= i < n,
    ensures
        s.bytes(n).len() == n,
        s.bytes(n)[i] < 255,
    decreases n,
{
    lemma_bytes_push(s, (n - 1) as nat);
    if i < n - 1 {
        lemma_byte_below_255(s, (n - 1) as nat, i);
    }
}

/// After `n` draws the generator reads the pool `n` places further on,
/// wrapping around, and its accumulator has grown by `n` increments modulo
/// `2^32`; so every `pool.len()` draws it is back at the same pool position.
pub proof fn lemma_advance_closed_form(s: RandomState, n: nat)
    requires
        s.valid(),
    ensures
        s.advance(n).index == (s.index + n) as int % (s.pool.len() as int),
        s.advance(n).state == (s.state + n * s.inc) % 0x1_0000_0000,
    decreases n,
{
    if n > 0 {
        let m = (n - 1) as nat;
        lemma_advance_closed_form(s, m);
        lemma_bytes_push(s, m);
        lemma_advance_valid(s, m);
        lemma_advance_valid(s, m);
        let t = s.advance(m);
        assert(s.advance(n) == t.next_state());
        let len = s.pool.len() as int;
        let im: int = (s.index + m) as int;
        assert(t.index == im % len);
        assert((im % len + 1) % len == (im + 1) % len) by {
            vstd::arithmetic::div_mod::lemma_add_mod_noop_right(1, im, len);
        }
        let k: int = 0x1_0000_0000;
        let a = s.state + m * s.inc;
        assert((a % k + s.inc) % k == (s.state + n * s.inc) % k) by {
            vstd::arithmetic::div_mod::lemma_add_mod_noop_right(s.inc as int, a, k);
            assert(a + s.inc == s.state + n * s.inc) by (nonlinear_arith)
                requires
                    a == s.state + m * s.inc,
                    n == m + 1,
            ;
        }
        assert(t.state == a % k);
        vstd::arithmetic::div_mod::lemma_mod_bound(t.state + t.inc, k);
        vstd::arithmetic::div_mod::lemma_mod_bound(t.index as int + 1, len);
        assert(t.next_acc() == (a % k + s.inc) % k);
        assert(s.advance(n).state == t.next_acc());
        assert(s.advance(n).index == (t.index as int + 1) % len);
        assert(im + 1 == s.index + n);
        assert(s.advance(n).index == (s.index + n) as int % (s.pool.len() as int));
        assert(s.advance(n).state == (s.state + n * s.inc) % 0x1_0000_0000);
    } else {
        vstd::arithmetic::div_mod::lemma_small_mod(s.index, s.pool.len());
        vstd::arithmetic::div_mod::lemma_small_mod(s.state as nat, 0x1_0000_0000);
    }
}

/// The generator returns to the same pool position every `pool.len()` draws.
pub proof fn lemma_pool_period(s: RandomState)
    requires
        s.valid(),
    ensures
        s.advance(s.pool.len()).index == s.index,
{
    lemma_advance_closed_form(s, s.pool.len());
    let len = s.pool.len() as int;
    vstd::arithmetic::div_mod::lemma_add_mod_noop(s.index as int, len, len);
    vstd::arithmetic::div_mod::lemma_mod_self_0(len);
    vstd::arithmetic::div_mod::lemma_small_mod(s.index, len as nat);
}

/// A pseudo random generator over a pool of bytes.
pub struct Random {
    index: usize,
    inc: u32,
    state: u32,
    data: &'static [u8],
}

impl View for Random {
    type V = RandomState;

    closed spec fn view(&self) -> RandomState {
        RandomState { index: self.index as nat, inc: self.inc, state: self.state, pool: self.data@ }
    }
}

impl Random {
    #[verifier::type_invariant]
    spec fn inv(self) -> bool {
        0 < self.data@.len() && self.index < self.data@.len()
    }

    /// A generator over the built-in pool.
    pub fn new(seed: u64) -> (r: Self)
        ensures
            r@ == seeded(seed, SOURCE@),
            r@.valid(),
    {
        Self::with_pool(seed, &SOURCE)
    }

    /// A generator over `data`, started according to `seed`.
    pub fn with_pool(seed: u64, data: &'static [u8]) -> (r: Self)
        requires
            data@.len() > 0,
        ensures
            r@ == seeded(seed, data@),
            r@.valid(),
    {
        let index: usize = ((seed / 0x1_0000_0000_0000) as usize) % data.len();
        let inc: u32 = ((seed / 0x1_0000_0000) % 0x1_0000) as u32;
        let state: u32 = (seed % 0x1_0000_0000) as u32;
        Self { index, data, inc, state }
    }

    /// Draws one byte; it is always below 255.
    pub fn get_u8(&mut self) -> (r: u8)
        ensures
            r == old(self)@.next_byte(),
            final(self)@ == old(self)@.next_state(),
            old(self)@.valid(),
            final(self)@.valid(),
    {
        proof {
            use_type_invariant(&*self);
        }
        let val: u64 = self.data[self.index] as u64;
        self.state = self.state.wrapping_add(self.inc);
        let state: u64 = self.state as u64;
        self.index = (self.index + 1) % self.data.len();
        ((val + state) % 255) as u8
    }

    /// Draws `n` bytes and reads them as one little-endian number.
    fn draw_le(&mut self, n: usize) -> (r: u64)
        requires
            n <= 8,
        ensures
            r == le_value(old(self)@.bytes(n as nat)),
            final(self)@ == old(self)@.advance(n as nat),
            final(self)@.valid(),
    {
        proof {
            use_type_invariant(&*self);
        }
        let ghost start = self@;
        let mut acc: u128 = 0;
        let mut mult: u128 = 1;
        let mut i: usize = 0;
        while i < n
            invariant
                i <= n <= 8,
                self@ == start.advance(i as nat),
                self@.valid(),
                acc == le_value(start.bytes(i as nat)),
                mult == pow256(i as nat),
                acc < mult,
            decreases n - i,
        {
            proof {
                lemma_bytes_push(start, i as nat);
                lemma_pow256_bound(i as nat);
                lemma_pow256_bound((i + 1) as nat);
            }
            let b: u8 = self.get_u8();
            proof {
                let s = start.bytes((i + 1) as nat);
                assert(s.drop_last() =~= start.bytes(i as nat));
                assert(s.last() == b);
                assert(acc + b * mult < 256 * mult) by (nonlinear_arith)
                    requires
                        acc < mult,
                        b < 256,
                ;
            }
            acc = acc + (b as u128) * mult;
            mult = mult * 256;
            i = i + 1;
        }
        proof {
            lemma_pow256_bound(n as nat);
        }
        acc as u64
    }
}

/// `2^(8 * n)` fits in a `u64` for up to seven bytes, and is `2^64` for eight.
pub proof fn lemma_pow256_bound(n: nat)
    ensures
        n <= 7 ==> pow256(n) <= 0x0100_0000_0000_0000,
        n == 8 ==> pow256(n) == 0x1_0000_0000_0000_0000,
        pow256(n) >= 1,
    decreases n,
{
    reveal_with_fuel(pow256, 9);
    if n > 8 {
        assert(pow256(n) == 256 * pow256((n - 1) as nat));
        lemma_pow256_bound((n - 1) as nat);
    }
}

/// Integer types a generator can draw: a value is drawn by reading as many
/// bytes as the type is wide, in little-endian order, and reinterpreting
/// them as the type.
pub trait Randomize: Sized + Copy {
    /// Number of bytes a value takes.
    spec fn width() -> nat;

    /// The value of this type whose bytes read as the number `v`.
    spec fn from_le(v: nat) -> Self;

    /// The value as an integer.
    spec fn as_int(self) -> int;

    /// The largest value of the type.
    spec fn max_int() -> int;

    /// Draws one value.
    fn draw(rng: &mut Random) -> (r: Self)
        ensures
            r == Self::from_le(le_value(old(rng)@.bytes(Self::width()))),
            final(rng)@ == old(rng)@.advance(Self::width()),
            final(rng)@.valid(),
    ;

    /// Moves `self` into `start..end` by its euclidean remainder.
    fn shift_into(self, start: Self, end: Self) -> (r: Self)
        requires
            start.as_int() < end.as_int(),
            end.as_int() - start.as_int() <= Self::max_int(),
        ensures
            r.as_int() == start.as_int() + self.as_int() % (end.as_int() - start.as_int()),
    ;
}

impl Randomize for u8 {
    open spec fn width() -> nat {
        1
    }

    open spec fn from_le(v: nat) -> u8 {
        v as u8
    }

    open spec fn as_int(self) -> int {
        self as int
    }

    open spec fn max_int() -> int {
        u8::MAX as int
    }

    fn draw(rng: &mut Random) -> (r: u8) {
        rng.draw_le(1) as u8
    }

    fn shift_into(self, start: u8, end: u8) -> (r: u8) {
        let bound: u8 = end - start;
        let v: u8 = self % bound;
        proof {
            vstd::arithmetic::div_mod::lemma_mod_bound(self as int, bound as int);
        }
        v + start
    }
}

impl Randomize for u16 {
    open spec fn width() -> nat {
        2
    }

    open spec fn from_le(v: nat) -> u16 {
        v as u16
    }

    open spec fn as_int(self) -> int {
        self as int
    }

    open spec fn max_int() -> int {
        u16::MAX as int
    }

    fn draw(rng: &mut Random) -> (r: u16) {
        rng.draw_le(2) as u16
    }

    fn shift_into(self, start: u16, end: u16) -> (r: u16) {
        let bound: u16 = end - start;
        let v: u16 = self % bound;
        proof {
            vstd::arithmetic::div_mod::lemma_mod_bound(self as int, bound as int);
        }
        v + start
    }
}

impl Randomize for u32 {
    open spec fn width() -> nat {
        4
    }

    open spec fn from_le(v: nat) -> u32 {
        v as u32
    }

    open spec fn as_int(self) -> int {
        self as int
    }

    open spec fn max_int() -> int {
        u32::MAX as int
    }

    fn draw(rng: &mut Random) -> (r: u32) {
        rng.draw_le(4) as u32
    }

    fn shift_into(self, start: u32, end: u32) -> (r: u32) {
        let bound: u32 = end - start;
        let v: u32 = self % bound;
        proof {
            vstd::arithmetic::div_mod::lemma_mod_bound(self as int, bound as int);
        }
        v + start
    }
}

impl Randomize for u64 {
    open spec fn width() -> nat {
        8
    }

    open spec fn from_le(v: nat) -> u64 {
        v as u64
    }

    open spec fn as_int(self) -> int {
        self as int
    }

    open spec fn max_int() -> int {
        u64::MAX as int
    }

    fn draw(rng: &mut Random) -> (r: u64) {
        rng.draw_le(8) as u64
    }

    fn shift_into(self, start: u64, end: u64) -> (r: u64) {
        let bound: u64 = end - start;
        let v: u64 = self % bound;
        proof {
            vstd::arithmetic::div_mod::lemma_mod_bound(self as int, bound as int);
        }
        v + start
    }
}

impl Randomize for i8 {
    open spec fn width() -> nat {
        1
    }

    open spec fn from_le(v: nat) -> i8 {
        v as i8
    }

    open spec fn as_int(self) -> int {
        self as int
    }

    open spec fn max_int() -> int {
        i8::MAX as int
    }

    fn draw(rng: &mut Random) -> (r: i8) {
        rng.draw_le(1) as i8
    }

    fn shift_into(self, start: i8, end: i8) -> (r: i8) {
        let bound: i8 = end - start;
        let v: i8 = match self.checked_rem_euclid(bound) {
            Some(v) => v,
            None => {
                proof {
                    assert(false);
                }
                0
            },
        };
        proof {
            vstd::arithmetic::div_mod::lemma_mod_bound(self as int, bound as int);
        }
        v + start
    }
}

impl Randomize for i16 {
    open spec fn width() -> nat {
        2
    }

    open spec fn from_le(v: nat) -> i16 {
        v as i16
    }

    open spec fn as_int(self) -> int {
        self as int
    }

    open spec fn max_int() -> int {
        i16::MAX as int
    }

    fn draw(rng: &mut Random) -> (r: i16) {
        rng.draw_le(2) as i16
    }

    fn shift_into(self, start: i16, end: i16) -> (r: i16) {
        let bound: i16 = end - start;
        let v: i16 = match self.checked_rem_euclid(bound) {
            Some(v) => v,
            None => {
                proof {
                    assert(false);
                }
                0
            },
        };
        proof {
            vstd::arithmetic::div_mod::lemma_mod_bound(self as int, bound as int);
        }
        v + start
    }
}

impl Randomize for i32 {
    open spec fn width() -> nat {
        4
    }

    open spec fn from_le(v: nat) -> i32 {
        v as i32
    }

    open spec fn as_int(self) -> int {
        self as int
    }

    open spec fn max_int() -> int {
        i32::MAX as int
    }

    fn draw(rng: &mut Random) -> (r: i32) {
        rng.draw_le(4) as i32
    }

    fn shift_into(self, start: i32, end: i32) -> (r: i32) {
        let bound: i32 = end - start;
        let v: i32 = match self.checked_rem_euclid(bound) {
            Some(v) => v,
            None => {
                proof {
                    assert(false);
                }
                0
            },
        };
        proof {
            vstd::arithmetic::div_mod::lemma_mod_bound(self as int, bound as int);
        }
        v + start
    }
}

impl Randomize for i64 {
    open spec fn width() -> nat {
        8
    }

    open spec fn from_le(v: nat) -> i64 {
        v as i64
    }

    open spec fn as_int(self) -> int {
        self as int
    }

    open spec fn max_int() -> int {
        i64::MAX as int
    }

    fn draw(rng: &mut Random) -> (r: i64) {
        rng.draw_le(8) as i64
    }

    fn shift_into(self, start: i64, end: i64) -> (r: i64) {
        let bound: i64 = end - start;
        let v: i64 = match self.checked_rem_euclid(bound) {
            Some(v) => v,
            None => {
                proof {
                    assert(false);
                }
                0
            },
        };
        proof {
            vstd::arithmetic::div_mod::lemma_mod_bound(self as int, bound as int);
        }
        v + start
    }
}

/// Drawing `a + b` bytes is drawing `a`, then `b` more.
pub proof fn lemma_bytes_split(s: RandomState, a: nat, b: nat)
    ensures
        s.bytes(a + b) == s.bytes(a) + s.advance(a).bytes(b),
    decreases a,
{
    if a == 0 {
        assert(s.bytes(0) =~= Seq::<u8>::empty());
        assert(s.bytes(b) =~= Seq::<u8>::empty() + s.bytes(b));
    } else {
        let t = s.next_state();
        lemma_bytes_split(t, (a - 1) as nat, b);
        assert(s.bytes(a + b) == seq![s.next_byte()] + t.bytes((a + b - 1) as nat));
        assert(((a - 1) as nat + b) == (a + b - 1) as nat);
        assert(s.bytes(a) == seq![s.next_byte()] + t.bytes((a - 1) as nat));
        assert(s.advance(a) == t.advance((a - 1) as nat));
        assert(s.bytes(a + b) =~= s.bytes(a) + s.advance(a).bytes(b));
    }
}

/// `256^(a + b)` is `256^a * 256^b`.
pub proof fn lemma_pow256_add(a: nat, b: nat)
    ensures
        pow256(a + b) == pow256(a) * pow256(b),
    decreases b,
{
    if b > 0 {
        let b1 = (b - 1) as nat;
        lemma_pow256_add(a, b1);
        assert(pow256(a + b) == 256 * pow256((a + b - 1) as nat));
        assert(((a + b - 1) as nat) == a + b1);
        assert(pow256(a + b1) == pow256(a) * pow256(b1));
        assert(pow256(b) == 256 * pow256(b1));
        let pa = pow256(a);
        let pb = pow256(b1);
        assert(256 * (pa * pb) == pa * (256 * pb)) by (nonlinear_arith);
    } else {
        assert(pow256(0) == 1);
        assert(a + b == a);
        let pa = pow256(a);
        assert(pa * 1 == pa);
    }
}

/// Reading `x` then `y` little-endian: `y` counts `256^|x|` times over.
pub proof fn lemma_le_value_concat(x: Seq<u8>, y: Seq<u8>)
    ensures
        le_value(x + y) == le_value(x) + pow256(x.len()) * le_value(y),
    decreases y.len(),
{
    if y.len() == 0 {
        assert(x + y =~= x);
        assert(le_value(y) == 0);
        let p = pow256(x.len());
        assert(p * 0 == 0);
    } else {
        let z = x + y;
        let y1 = y.drop_last();
        lemma_le_value_concat(x, y1);
        assert(z.drop_last() =~= x + y1);
        assert(z.last() == y.last());
        lemma_pow256_add(x.len(), (y.len() - 1) as nat);
        assert((z.len() - 1) as nat == x.len() + (y.len() - 1) as nat);
        let p = pow256(x.len());
        let q = pow256((y.len() - 1) as nat);
        let l = y.last() as nat;
        let w = le_value(y1);
        assert(le_value(z) == le_value(x + y1) + l * pow256((z.len() - 1) as nat));
        assert(le_value(y) == w + l * q);
        assert(p * w + l * (p * q) == p * (w + l * q)) by (nonlinear_arith);
    }
}

impl Random {
    /// Draws sixteen bytes and reads them as one little-endian number.
    fn draw_le16(&mut self) -> (r: u128)
        ensures
            r == le_value(old(self)@.bytes(16)),
            final(self)@ == old(self)@.advance(16),
            final(self)@.valid(),
    {
        let ghost start = self@;
        let lo = self.draw_le(8);
        let ghost mid = self@;
        let hi = self.draw_le(8);
        proof {
            lemma_bytes_split(start, 8, 8);
            lemma_le_value_concat(start.bytes(8), mid.bytes(8));
            lemma_pow256_bound(8);
            assert(start.bytes(8).len() == 8) by {
                lemma_bytes_len(start, 8);
            }
            lemma_advance_add(start, 8, 8);
            assert(lo + hi * 0x1_0000_0000_0000_0000 <= u128::MAX) by (nonlinear_arith)
                requires
                    lo <= u64::MAX,
                    hi <= u64::MAX,
            ;
        }
        (lo as u128) + (hi as u128) * 0x1_0000_0000_0000_0000
    }
}

/// The drawn bytes are as many as asked for.
pub proof fn lemma_bytes_len(s: RandomState, n: nat)
    ensures
        s.bytes(n).len() == n,
    decreases n,
{
    if n > 0 {
        lemma_bytes_len(s.next_state(), (n - 1) as nat);
    }
}

/// `a` draws, then `b` more, are `a + b` draws.
pub proof fn lemma_advance_add(s: RandomState, a: nat, b: nat)
    ensures
        s.advance(a).advance(b) == s.advance(a + b),
    decreases a,
{
    if a > 0 {
        lemma_advance_add(s.next_state(), (a - 1) as nat, b);
        assert(((a - 1) as nat + b) == (a + b - 1) as nat);
    }
}

impl Randomize for u128 {
    open spec fn width() -> nat {
        16
    }

    open spec fn from_le(v: nat) -> u128 {
        v as u128
    }

    open spec fn as_int(self) -> int {
        self as int
    }

    open spec fn max_int() -> int {
        u128::MAX as int
    }

    fn draw(rng: &mut Random) -> (r: u128) {
        rng.draw_le16()
    }

    fn shift_into(self, start: u128, end: u128) -> (r: u128) {
        let bound: u128 = end - start;
        let v: u128 = self % bound;
        proof {
            vstd::arithmetic::div_mod::lemma_mod_bound(self as int, bound as int);
        }
        v + start
    }
}

impl Randomize for i128 {
    open spec fn width() -> nat {
        16
    }

    open spec fn from_le(v: nat) -> i128 {
        v as i128
    }

    open spec fn as_int(self) -> int {
        self as int
    }

    open spec fn max_int() -> int {
        i128::MAX as int
    }

    fn draw(rng: &mut Random) -> (r: i128) {
        rng.draw_le16() as i128
    }

    fn shift_into(self, start: i128, end: i128) -> (r: i128) {
        let bound: i128 = end - start;
        let v: i128 = match self.checked_rem_euclid(bound) {
            Some(v) => v,
            None => {
                proof {
                    assert(false);
                }
                0
            },
        };
        proof {
            vstd::arithmetic::div_mod::lemma_mod_bound(self as int, bound as int);
        }
        v + start
    }
}

impl Random {
    /// Draws a value of any integer type.
    pub fn get<T: Randomize>(&mut self) -> (r: T)
        ensures
            r == T::from_le(le_value(old(self)@.bytes(T::width()))),
            final(self)@ == old(self)@.advance(T::width()),
            final(self)@.valid(),
    {
        T::draw(self)
    }

    /// Draws a value in `range`: a drawn value's euclidean remainder by the
    /// range's length, added to its start.
    pub fn get_range<T: Randomize>(&mut self, range: Range<T>) -> (r: T)
        requires
            range.start.as_int() < range.end.as_int(),
            range.end.as_int() - range.start.as_int() <= T::max_int(),
        ensures
            r.as_int() == range.start.as_int() + T::from_le(le_value(old(self)@.bytes(T::width()))).as_int()
                % (range.end.as_int() - range.start.as_int()),
            range.start.as_int() <= r.as_int() < range.end.as_int(),
            final(self)@ == old(self)@.advance(T::width()),
            final(self)@.valid(),
    {
        let value: T = self.get::<T>();
        let r = value.shift_into(range.start, range.end);
        proof {
            vstd::arithmetic::div_mod::lemma_mod_bound(value.as_int(), range.end.as_int() - range.start.as_int());
        }
        r
    }
}

} // verus!
