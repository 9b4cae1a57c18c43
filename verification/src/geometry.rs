//! Slot arithmetic of a power-of-two table: home slots, probe distances and
//! the rounding of requested capacities.

use vstd::prelude::*;
use vstd::arithmetic::power2::{is_pow2, is_pow2_equiv, lemma2_to64, lemma2_to64_rest, lemma_pow2, lemma_pow2_pos, lemma_pow2_strictly_increases, lemma_pow2_unfold, pow2 as two_to};
use vstd::arithmetic::div_mod::{lemma_mod_add_multiples_vanish, lemma_mod_self_0, lemma_small_mod};
use vstd::bits::{lemma_u64_low_bits_mask_is_mod, low_bits_mask};

verus! {

/// The largest number of slots a table may have: two to the 61st.
pub const MAX_CAPACITY: u64 = 0x2000_0000_0000_0000;

/// The slot that `hash` maps to directly in a table of `capacity` slots.
pub open spec fn home_slot(hash: u64, capacity: u64) -> u64 {
    hash & ((capacity - 1) as u64)
}

/// The forward wraparound distance from the home slot of `hash` to slot `i`,
/// written with the mask as the table computes it.
pub open spec fn masked_distance(hash: u64, i: u64, capacity: u64) -> u64 {
    ((i + capacity - home_slot(hash, capacity)) as u64) & ((capacity - 1) as u64)
}

/// The home slot of `hash` as a remainder.
pub open spec fn home(hash: u64, cap: int) -> int {
    hash as int % cap
}

/// The number of forward steps, wrapping at `cap`, that lead from slot `from`
/// to slot `to`.
pub open spec fn gap(from: int, to: int, cap: int) -> int {
    if to >= from {
        to - from
    } else {
        to + cap - from
    }
}

/// The slot reached from `from` after `d` forward steps, wrapping at `cap`.
pub open spec fn ahead(from: int, d: int, cap: int) -> int {
    if from + d < cap {
        from + d
    } else {
        from + d - cap
    }
}

/// The slot reached from `from` after `d` backward steps, wrapping at `cap`.
pub open spec fn behind(from: int, d: int, cap: int) -> int {
    if from >= d {
        from - d
    } else {
        from + cap - d
    }
}

/// The probe distance of an entry with `hash` that sits in slot `i`.
pub open spec fn probe_distance(hash: u64, i: int, cap: int) -> int {
    gap(home(hash, cap), i, cap)
}

/// A power of two can be written with an exponent below 64 once it fits in
/// 64 bits.
pub proof fn lemma_pow2_exponent(n: u64) -> (e: nat)
    requires
        is_pow2(n as int),
    ensures
        e < 64,
        two_to(e) == n,
{
    is_pow2_equiv(n as int);
    let e = choose|i: nat| vstd::arithmetic::power::pow(2, i) == n as int;
    lemma_pow2(e);
    lemma2_to64();
    lemma2_to64_rest();
    if e > 64 {
        lemma_pow2_strictly_increases(64, e);
    }
    e
}

/// Masking with a power of two less one is the remainder by that power.
pub proof fn lemma_mask_is_mod(x: u64, capacity: u64)
    requires
        is_pow2(capacity as int),
    ensures
        x & ((capacity - 1) as u64) == x % capacity,
        capacity > 0,
{
    let e = lemma_pow2_exponent(capacity);
    lemma_pow2_pos(e);
    lemma_u64_low_bits_mask_is_mod(x, e);
    assert(low_bits_mask(e) == capacity - 1);
}

/// In a power-of-two table the masked formulas are the modular ones: the home
/// slot is the remainder of the hash, and the masked distance is the number
/// of forward steps from the home slot.
pub proof fn lemma_masked_distance(hash: u64, i: u64, capacity: u64)
    requires
        is_pow2(capacity as int),
        i < capacity,
    ensures
        home_slot(hash, capacity) == home(hash, capacity as int),
        0 <= home(hash, capacity as int) < capacity,
        i + capacity <= u64::MAX ==> masked_distance(hash, i, capacity) == probe_distance(
            hash,
            i as int,
            capacity as int,
        ),
        0 <= probe_distance(hash, i as int, capacity as int) < capacity,
{
    lemma_mask_is_mod(hash, capacity);
    let h = home_slot(hash, capacity);
    assert(h == hash % capacity);
    assert(0 <= h < capacity);
    if i + capacity <= u64::MAX {
        let x = (i + capacity - h) as u64;
        lemma_mask_is_mod(x, capacity);
        if i >= h {
            lemma_mod_add_multiples_vanish((i - h) as int, capacity as int);
            lemma_small_mod((i - h) as nat, capacity as nat);
        } else {
            lemma_small_mod(x as nat, capacity as nat);
        }
    }
}

/// distance returns the probe distance for a hash in a slot index.
/// The capacity is meant to be a power of two.
pub fn distance(hash: u64, i: usize, capacity: u64) -> (d: u64)
    requires
        capacity > 0,
        i + capacity <= u64::MAX,
    ensures
        d == masked_distance(hash, i as u64, capacity),
        is_pow2(capacity as int) && i < capacity ==> d == probe_distance(
            hash,
            i as int,
            capacity as int,
        ),
{
    let mask: u64 = capacity - 1;
    let home: u64 = hash & mask;
    assert(home <= mask) by (bit_vector)
        requires
            home == hash & mask,
    ;
    let dist: u64 = ((i as u64) + capacity - home) & mask;
    proof {
        if is_pow2(capacity as int) && i < capacity {
            lemma_masked_distance(hash, i as u64, capacity);
        }
    }
    dist
}

/// The home slot of `hash` in a table whose mask is `mask`.
pub fn home_of(hash: u64, mask: usize) -> (pos: usize)
    requires
        mask < MAX_CAPACITY,
        is_pow2(mask + 1),
    ensures
        pos == home(hash, mask + 1),
        pos == home_slot(hash, (mask + 1) as u64),
        pos <= mask,
{
    let m: u64 = mask as u64;
    let pos: u64 = hash & m;
    assert(pos <= m) by (bit_vector)
        requires
            pos == hash & m,
    ;
    proof {
        lemma_mask_is_mod(hash, (mask + 1) as u64);
    }
    pos as usize
}

/// The slot after `pos`, wrapping to the first slot after the last.
pub fn next_slot(pos: usize, mask: usize) -> (next: usize)
    requires
        mask < MAX_CAPACITY,
        is_pow2(mask + 1),
        pos <= mask,
    ensures
        next == ahead(pos as int, 1, mask + 1),
        next <= mask,
{
    let m: u64 = mask as u64;
    let p: u64 = pos as u64 + 1;
    let next: u64 = p & m;
    assert(next <= m) by (bit_vector)
        requires
            next == p & m,
    ;
    proof {
        lemma_mask_is_mod(p, (mask + 1) as u64);
        if p <= m {
            lemma_small_mod(p as nat, (mask + 1) as nat);
        } else {
            lemma_mod_self_0(mask + 1);
        }
    }
    next as usize
}

/// The least power of two that is at least `v` and at least two.
pub open spec fn ceil_pow2(v: nat) -> nat
    decreases v,
{
    if v <= 2 {
        2
    } else {
        2 * ceil_pow2((v + 1) / 2)
    }
}

/// A power of two at least `v` whose half is below `v` is `ceil_pow2(v)`.
pub proof fn lemma_ceil_pow2_is(v: nat, e: nat)
    requires
        e >= 1,
        v <= two_to(e),
        e == 1 || two_to((e - 1) as nat) < v,
    ensures
        ceil_pow2(v) == two_to(e),
    decreases e,
{
    lemma2_to64();
    if e == 1 {
    } else {
        lemma_pow2_unfold(e);
        lemma_pow2_unfold((e - 1) as nat);
        lemma_pow2_pos((e - 2) as nat);
        lemma_ceil_pow2_is((v + 1) / 2, (e - 1) as nat);
    }
}

/// Rounding a power of two that is at least two gives that power, and its
/// double is a power of two again.
pub proof fn lemma_ceil_pow2_fixed(n: u64)
    requires
        is_pow2(n as int),
        n >= 2,
    ensures
        ceil_pow2(n as nat) == n,
        is_pow2(2 * n),
{
    let e = lemma_pow2_exponent(n);
    lemma2_to64();
    if e > 1 {
        lemma_pow2_strictly_increases((e - 1) as nat, e);
    }
    lemma_ceil_pow2_is(n as nat, e);
    lemma_pow2_unfold(e + 1);
    lemma_two_to_is_pow2(e + 1);
}

/// `two_to(e)` is a power of two in the sense of `is_pow2`.
pub proof fn lemma_two_to_is_pow2(e: nat)
    ensures
        is_pow2(two_to(e) as int),
{
    lemma_pow2(e);
    assert(vstd::arithmetic::power2::is_pow2_exists(two_to(e) as int));
    is_pow2_equiv(two_to(e) as int);
}

/// pow2 returns the next power of two at or above `v`, and two for anything
/// smaller; `v` itself where it is such a power.
pub fn pow2(v: u64) -> (r: u64)
    requires
        v <= MAX_CAPACITY,
    ensures
        r == ceil_pow2(v as nat),
        is_pow2(r as int),
        2 <= r <= MAX_CAPACITY,
        v <= r,
        r == 2 || r / 2 < v,
{
    let mut i: u64 = 2;
    let ghost mut e: nat = 1;
    proof {
        lemma2_to64();
        lemma2_to64_rest();
    }
    while i < v
        invariant
            i == two_to(e),
            1 <= e <= 61,
            e == 1 || two_to((e - 1) as nat) < v,
            v <= MAX_CAPACITY,
            two_to(61) == MAX_CAPACITY,
        decreases 61 - e,
    {
        proof {
            assert(e < 61);
            lemma_pow2_unfold(e + 1);
            if e < 60 {
                lemma_pow2_strictly_increases(e + 1, 61);
            }
        }
        i = i * 2;
        proof {
            e = e + 1;
        }
    }
    proof {
        lemma_ceil_pow2_is(v as nat, e);
        lemma_two_to_is_pow2(e);
        if e < 61 {
            lemma_pow2_strictly_increases(e, 61);
        }
        if e > 1 {
            lemma_pow2_unfold(e);
        }
    }
    i
}

} // verus!
