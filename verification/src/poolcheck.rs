//! Checks that a byte pool is fit for the generator: a seeded generator
//! must not draw the same byte again one full round of the pool later, and
//! the counts of the bytes it draws must be spread evenly.

use vstd::prelude::*;
use crate::random::{Random, RandomState, seeded, lemma_bytes_push, lemma_byte_below_255, POOL_SIZE};

verus! {

/// The byte drawn `k` draws on is the next byte of the state there.
pub proof fn lemma_bytes_index(s: RandomState, n: nat, k: int)
    requires
        0 <= k < n,
    ensures
        s.bytes(n).len() == n,
        s.bytes(n)[k] == s.advance(k as nat).next_byte(),
    decreases n,
{
    lemma_bytes_push(s, (n - 1) as nat);
    if k < n - 1 {
        lemma_bytes_index(s, (n - 1) as nat, k);
    }
}

/// The generator for `seed` over `pool` draws the same byte first and again
/// after one more full round of `POOL_SIZE` draws.
pub open spec fn draws_repeat(seed: u64, pool: Seq<u8>) -> bool {
    let b = seeded(seed, pool).bytes((POOL_SIZE + 1) as nat);
    b[0] == b[POOL_SIZE as int]
}

/// Refuses a pool on which the generator for `seed` repeats itself after a
/// full round (see `draws_repeat`).
pub fn check_repeats(seed: u64, pool: &'static [u8]) -> (r: Result<(), &'static str>)
    requires
        pool@.len() > 0,
    ensures
        match r {
            Ok(()) => !draws_repeat(seed, pool@),
            Err(e) => draws_repeat(seed, pool@) && e@ == "repeat"@,
        },
{
    let ghost s = seeded(seed, pool@);
    let mut random = Random::with_pool(seed, pool);
    let base = random.get_u8();
    proof {
        lemma_bytes_index(s, (POOL_SIZE + 1) as nat, 0);
        lemma_bytes_push(s, 0);
    }
    let mut i: usize = 0;
    while i < POOL_SIZE - 1
        invariant
            i <= POOL_SIZE - 1,
            random@ == s.advance((i + 1) as nat),
        decreases POOL_SIZE - 1 - i,
    {
        let _ = random.get_u8();
        proof {
            lemma_bytes_push(s, (i + 1) as nat);
        }
        i = i + 1;
    }
    let end = random.get_u8();
    proof {
        lemma_bytes_index(s, (POOL_SIZE + 1) as nat, POOL_SIZE as int);
    }
    if base == end {
        Err("repeat")
    } else {
        Ok(())
    }
}

/// Whether a byte is `v`.
pub open spec fn is_byte(v: u8) -> spec_fn(u8) -> bool {
    |x: u8| x == v
}

/// How often `v` occurs in `b`.
pub open spec fn count_in(b: Seq<u8>, v: u8) -> nat {
    b.filter(is_byte(v)).len()
}

/// The sum of a list of counts.
pub open spec fn sum_counts(c: Seq<u64>) -> nat
    decreases c.len(),
{
    if c.len() == 0 {
        0
    } else {
        sum_counts(c.drop_last()) + c.last() as nat
    }
}

/// The list is in ascending order.
pub open spec fn ascending(c: Seq<u64>) -> bool {
    forall|a: int, b: int| 0 <= a < b < c.len() ==> c[a] <= c[b]
}

/// The number of draws the distribution check makes.
pub const SAMPLE: u64 = 10000;

/// The counts of each byte value below 255 among the first `SAMPLE` draws
/// of the generator for `seed` over `pool`.
pub open spec fn byte_counts(seed: u64, pool: Seq<u8>) -> Seq<u64> {
    let b = seeded(seed, pool).bytes(SAMPLE as nat);
    Seq::new(255, |v: int| count_in(b, v as u8) as u64)
}

/// The mean count is within a quarter of the even share of each value.
pub open spec fn mean_ok(c: Seq<u64>) -> bool {
    let mean = sum_counts(c) / 255;
    30 <= mean <= 48
}

/// Sorts a list of counts in place.
fn sort_counts(v: &mut Vec<u64>)
    ensures
        ascending(final(v)@),
        final(v)@.to_multiset() == old(v)@.to_multiset(),
        final(v)@.len() == old(v)@.len(),
{
    broadcast use vstd::seq_lib::to_multiset_update, vstd::multiset::group_multiset_axioms;

    let n = v.len();
    if n == 0 {
        return;
    }
    let mut i: usize = 1;
    while i < n
        invariant
            1 <= i <= n,
            n == v@.len(),
            v@.to_multiset() == old(v)@.to_multiset(),
            forall|a: int, b: int| 0 <= a < b < i ==> v@[a] <= v@[b],
        decreases n - i,
    {
        let mut j: usize = i;
        while j > 0 && v[j - 1] > v[j]
            invariant
                0 <= j <= i < n,
                n == v@.len(),
                v@.to_multiset() == old(v)@.to_multiset(),
                forall|a: int, b: int| 0 <= a < b <= i && a != j && b != j ==> v@[a] <= v@[b],
                forall|b: int| j < b <= i ==> v@[j as int] <= v@[b],
            decreases j,
        {
            let x = v[j - 1];
            let y = v[j];
            let ghost before = v@;
            v.set(j - 1, y);
            v.set(j, x);
            proof {
                let mid = before.update(j - 1, y);
                let m0 = before.to_multiset();
                vstd::seq_lib::to_multiset_update(before, j - 1, y);
                vstd::seq_lib::to_multiset_update(mid, j as int, x);
                assert(v@ == mid.update(j as int, x));
                assert(mid[j as int] == y);
                assert(before.contains(x)) by {
                    assert(before[j - 1] == x);
                }
                vstd::seq_lib::to_multiset_contains(before, x);
                assert(m0.insert(y).remove(x).insert(x).remove(y) =~= m0);
                assert(v@.to_multiset() =~= before.to_multiset());
            }
            j = j - 1;
        }
        proof {
            assert forall|a: int, b: int| 0 <= a < b < i + 1 implies v@[a] <= v@[b] by {
                if b == j as int {
                    if a < j - 1 {
                        assert(v@[a] <= v@[j - 1]);
                    }
                }
            }
        }
        i = i + 1;
    }
}

/// The spread check: the mean count and the middle count (the 128th
/// smallest) of the byte values among `SAMPLE` draws must both lie within
/// a quarter of the even share of 39.
pub fn check_distribution(seed: u64, pool: &'static [u8]) -> (r: Result<(), &'static str>)
    requires
        pool@.len() > 0,
    ensures
        ({
            let c = byte_counts(seed, pool@);
            exists|t: Seq<u64>| #[trigger] ascending(t) && t.to_multiset() == c.to_multiset() && t.len() == 255 && match r {
                Ok(()) => mean_ok(c) && 30 <= t[127] <= 48,
                Err(e) => (!mean_ok(c) && e@ == "u8: bad mean"@) || (mean_ok(c) && !(30 <= t[127] <= 48) && e@
                    == "u8: bad median"@),
            }
        }),
{
    let ghost s = seeded(seed, pool@);
    let mut random = Random::with_pool(seed, pool);
    let mut counts: Vec<u64> = Vec::new();
    for v in 0..255usize
        invariant
            counts@.len() == v,
            forall|k: int| 0 <= k < v ==> counts@[k] == 0,
    {
        counts.push(0);
    }
    proof {
        assert forall|v: int| 0 <= v < 255 implies counts@[v] == count_in(s.bytes(0), v as u8) by {
            assert(s.bytes(0).filter(is_byte(v as u8)) =~= Seq::<u8>::empty());
        }
    }
    let mut k: u64 = 0;
    while k < SAMPLE
        invariant
            k <= SAMPLE,
            counts@.len() == 255,
            random@ == s.advance(k as nat),
            s.valid(),
            forall|v: int| 0 <= v < 255 ==> counts@[v] == count_in(s.bytes(k as nat), v as u8),
            forall|v: int| 0 <= v < 255 ==> counts@[v] <= k,
        decreases SAMPLE - k,
    {
        let u = random.get_u8();
        proof {
            lemma_bytes_push(s, k as nat);
            lemma_byte_below_255(s, (k + 1) as nat, k as int);
            assert forall|v: int| 0 <= v < 255 implies #[trigger] count_in(s.bytes((k + 1) as nat), v as u8) == count_in(
                s.bytes(k as nat),
                v as u8,
            ) + (if u == v as u8 { 1nat } else { 0nat }) by {
                s.bytes(k as nat).lemma_filter_push(u, is_byte(v as u8));
            }
        }
        let i = u as usize;
        let c = counts[i];
        counts.set(i, c + 1);
        proof {
            assert forall|v: int| 0 <= v < 255 implies counts@[v] == count_in(s.bytes((k + 1) as nat), v as u8) by {
                if v != i as int {
                    assert(u != v as u8);
                }
            }
        }
        k = k + 1;
    }
    proof {
        assert(counts@ =~= byte_counts(seed, pool@));
    }
    let mut total: u64 = 0;
    let mut i: usize = 0;
    while i < 255
        invariant
            i <= 255,
            counts@.len() == 255,
            forall|v: int| 0 <= v < 255 ==> counts@[v] <= SAMPLE,
            total == sum_counts(counts@.subrange(0, i as int)),
            total <= i * SAMPLE,
        decreases 255 - i,
    {
        proof {
            assert(counts@.subrange(0, i + 1).drop_last() =~= counts@.subrange(0, i as int));
        }
        total = total + counts[i];
        i = i + 1;
    }
    proof {
        assert(counts@.subrange(0, 255) =~= counts@);
    }
    let ghost c = counts@;
    let mean = total / 255;
    let mut sorted = counts.clone();
    sort_counts(&mut sorted);
    let median = sorted[127];
    proof {
        assert(ascending(sorted@));
    }
    if !(mean >= 30 && mean <= 48) {
        return Err("u8: bad mean");
    }
    if !(median >= 30 && median <= 48) {
        return Err("u8: bad median");
    }
    Ok(())
}

/// Both checks of a pool for one seed, in order.
pub fn check_pool(seed: u64, pool: &'static [u8]) -> (r: Result<(), &'static str>)
    requires
        pool@.len() > 0,
    ensures
        draws_repeat(seed, pool@) ==> (r matches Err(e) && e@ == "repeat"@),
        r is Ok ==> !draws_repeat(seed, pool@) && mean_ok(byte_counts(seed, pool@)),
{
    match check_repeats(seed, pool) {
        Ok(()) => check_distribution(seed, pool),
        Err(e) => Err(e),
    }
}

} // verus!
