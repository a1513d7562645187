//! Bit-level foundation: square masks are `u64` values with exactly one bit
//! set, and every move generator returns a `u64` whose set bits are the
//! reachable squares.  This module fixes the meaning of a bit index and
//! proves the handful of bit-vector facts the rest of the crate builds on.
use vstd::prelude::*;

verus! {

/// Bit `i` of `m` is set (false whenever `i >= 64`).
pub open spec fn bit64(m: u64, i: u64) -> bool {
    (m >> i) & 1 == 1
}

/// Board-square membership: `b` indexes a square (`0 <= b < 64`) and bit `b`
/// of the mask `m` is set.
pub open spec fn sq_in(m: u64, b: int) -> bool {
    0 <= b < 64 && bit64(m, b as u64)
}

/// `m` is a square mask: a single set bit.
pub open spec fn is_sq(m: u64) -> bool {
    exists|b: int| 0 <= b < 64 && m == one_sq(b)
}

/// The square mask with exactly bit `b` set.
pub open spec fn one_sq(b: int) -> u64 {
    1u64 << (b as u64)
}

/// The index of the single set bit of a square mask.
pub open spec fn sq_of(m: u64) -> int {
    choose|b: int| 0 <= b < 64 && m == one_sq(b)
}

pub broadcast proof fn lemma_sq_in_or(a: u64, b: u64, i: int)
    ensures
        #[trigger] sq_in(a | b, i) == (sq_in(a, i) || sq_in(b, i)),
{
    let iu = i as u64;
    if 0 <= i < 64 {
        assert(bit64(a | b, iu) == (bit64(a, iu) || bit64(b, iu))) by (bit_vector);
    }
}

pub broadcast proof fn lemma_sq_in_and(a: u64, b: u64, i: int)
    ensures
        #[trigger] sq_in(a & b, i) == (sq_in(a, i) && sq_in(b, i)),
{
    let iu = i as u64;
    if 0 <= i < 64 {
        assert(bit64(a & b, iu) == (bit64(a, iu) && bit64(b, iu))) by (bit_vector);
    }
}

pub broadcast proof fn lemma_sq_in_not(a: u64, i: int)
    ensures
        #[trigger] sq_in(!a, i) == (0 <= i < 64 && !sq_in(a, i)),
{
    let iu = i as u64;
    if 0 <= i < 64 {
        assert(bit64(!a, iu) == !bit64(a, iu)) by (bit_vector)
            requires
                iu < 64,
        ;
    }
}

pub broadcast proof fn lemma_sq_in_zero(i: int)
    ensures
        !(#[trigger] sq_in(0u64, i)),
{
    let iu = i as u64;
    assert(!bit64(0u64, iu)) by (bit_vector);
}

pub broadcast proof fn lemma_sq_in_one(b: int, i: int)
    requires
        0 <= b < 64,
    ensures
        #[trigger] sq_in(one_sq(b), i) == (i == b),
{
    let bu = b as u64;
    let iu = i as u64;
    if 0 <= i < 64 {
        assert(bit64(1u64 << bu, iu) == (iu == bu)) by (bit_vector)
            requires
                bu < 64,
                iu < 64,
        ;
    }
}

/// Intersecting any mask with a single-square mask is a membership test.
pub broadcast proof fn lemma_one_and(m: u64, b: int)
    requires
        0 <= b < 64,
    ensures
        (#[trigger] (one_sq(b) & m) != 0) == sq_in(m, b),
        (#[trigger] (m & one_sq(b)) != 0) == sq_in(m, b),
{
    let bu = b as u64;
    assert((((1u64 << bu) & m) != 0) == bit64(m, bu) && ((m & (1u64 << bu)) != 0) == bit64(m, bu))
        by (bit_vector)
        requires
            bu < 64,
    ;
}

/// Shifting a square mask left moves its bit up, or clears it off the board.
pub broadcast proof fn lemma_sq_in_shl(b: int, k: u64, i: int)
    requires
        0 <= b < 64,
        k < 64,
    ensures
        #[trigger] sq_in(one_sq(b) << k, i) == (i == b + k && b + k < 64),
{
    let bu = b as u64;
    let iu = i as u64;
    if 0 <= i < 64 {
        assert(bit64((1u64 << bu) << k, iu) == (iu == bu + k && bu + k < 64)) by (bit_vector)
            requires
                bu < 64,
                k < 64,
                iu < 64,
        ;
    } else {
        assert(b + k < 64 ==> i != b + k);
    }
}

/// Shifting a square mask right moves its bit down, or clears it.
pub broadcast proof fn lemma_sq_in_shr(b: int, k: u64, i: int)
    requires
        0 <= b < 64,
        k < 64,
    ensures
        #[trigger] sq_in(one_sq(b) >> k, i) == (i == b - k && b - k >= 0),
{
    let bu = b as u64;
    let iu = i as u64;
    if 0 <= i < 64 {
        assert(bit64((1u64 << bu) >> k, iu) == (bu == iu + k)) by (bit_vector)
            requires
                bu < 64,
                k < 64,
                iu < 64,
        ;
    } else {
        assert(b - k >= 0 ==> b - k < 64);
    }
}

/// Right-shifting any mask moves each bit's index down by the shift.
pub broadcast proof fn lemma_sq_in_shr_any(m: u64, k: u64, i: int)
    requires
        k < 64,
    ensures
        #[trigger] sq_in(m >> k, i) == (0 <= i && i + k < 64 && sq_in(m, i + k)),
{
    let iu = i as u64;
    if 0 <= i < 64 {
        if i + k < 64 {
            let ju = (i + k) as u64;
            assert(bit64(m >> k, iu) == bit64(m, ju)) by (bit_vector)
                requires
                    iu < 64,
                    k < 64,
                    ju < 64,
                    ju == iu + k,
            ;
        } else {
            assert(!bit64(m >> k, iu)) by (bit_vector)
                requires
                    iu < 64,
                    k < 64,
                    iu + k >= 64,
            ;
        }
    }
}

/// Left-shifting any mask moves each bit's index up by the shift.
pub broadcast proof fn lemma_sq_in_shl_any(m: u64, k: u64, i: int)
    requires
        k < 64,
    ensures
        #[trigger] sq_in(m << k, i) == (i < 64 && i - k >= 0 && sq_in(m, i - k)),
{
    let iu = i as u64;
    if 0 <= i < 64 {
        if i - k >= 0 {
            let ju = (i - k) as u64;
            assert(bit64(m << k, iu) == bit64(m, ju)) by (bit_vector)
                requires
                    iu < 64,
                    k < 64,
                    ju == iu - k,
            ;
        } else {
            assert(!bit64(m << k, iu)) by (bit_vector)
                requires
                    iu < 64,
                    k < 64,
                    iu < k,
            ;
        }
    }
}

/// Left-shifting a square mask that stays on the board yields the square
/// mask of the raised index.
pub proof fn lemma_shl_val(b: int, k: u64, m: int)
    requires
        0 <= b < 64,
        k < 64,
        m == b + k,
        m < 64,
    ensures
        one_sq(b) << k == one_sq(m),
{
    let bu = b as u64;
    let mu = m as u64;
    assert((1u64 << bu) << k == (1u64 << mu)) by (bit_vector)
        requires
            bu < 64,
            k < 64,
            mu < 64,
            mu == bu + k,
    ;
}

/// Left-shifting a square mask off the board clears it.
pub proof fn lemma_shl_val_off(b: int, k: u64)
    requires
        0 <= b < 64,
        k < 64,
        b + k >= 64,
    ensures
        one_sq(b) << k == 0,
{
    let bu = b as u64;
    assert((1u64 << bu) << k == 0) by (bit_vector)
        requires
            bu < 64,
            k < 64,
            bu + k >= 64,
    ;
}

/// Right-shifting a square mask that stays on the board yields the square
/// mask of the lowered index.
pub proof fn lemma_shr_val(b: int, k: u64, m: int)
    requires
        0 <= b < 64,
        k < 64,
        m == b - k,
        m >= 0,
    ensures
        one_sq(b) >> k == one_sq(m),
{
    let bu = b as u64;
    let mu = m as u64;
    assert((1u64 << bu) >> k == (1u64 << mu)) by (bit_vector)
        requires
            bu < 64,
            k < 64,
            mu == bu - k,
    ;
}

/// Right-shifting a square mask below the board clears it.
pub proof fn lemma_shr_val_off(b: int, k: u64)
    requires
        0 <= b < 64,
        k < 64,
        b - k < 0,
    ensures
        one_sq(b) >> k == 0,
{
    let bu = b as u64;
    assert((1u64 << bu) >> k == 0) by (bit_vector)
        requires
            bu < 64,
            k < 64,
            bu < k,
    ;
}

/// A single-square mask is never zero.
pub broadcast proof fn lemma_one_nonzero(b: int)
    requires
        0 <= b < 64,
    ensures
        #[trigger] one_sq(b) != 0,
        is_sq(one_sq(b)),
        sq_of(one_sq(b)) == b,
{
    let bu = b as u64;
    assert((1u64 << bu) != 0) by (bit_vector)
        requires
            bu < 64,
    ;
    assert(is_sq(one_sq(b)));
    let c = sq_of(one_sq(b));
    lemma_sq_in_one(b, b);
    lemma_sq_in_one(c, b);
    assert(sq_in(one_sq(b), b));
    assert(sq_in(one_sq(c), b) == (b == c));
}

/// A square mask determines its index: `sq_of` inverts `one_sq`.
pub proof fn lemma_sq_of(m: u64)
    requires
        is_sq(m),
    ensures
        0 <= sq_of(m) < 64,
        m == one_sq(sq_of(m)),
        forall|i: int| sq_in(m, i) == (i == sq_of(m)),
{
    let b = choose|b: int| 0 <= b < 64 && m == one_sq(b);
    lemma_one_nonzero(b);
    assert forall|i: int| sq_in(m, i) == (i == sq_of(m)) by {
        lemma_sq_in_one(sq_of(m), i);
    }
}

/// A row mask (`0xFF` shifted to a rank's byte) meets a square mask exactly
/// when the square's index lies in that byte.
pub proof fn lemma_row_scan(s: u64, b: int)
    requires
        s < 64,
        s % 8 == 0,
        0 <= b < 64,
    ensures
        (((0xFFu64 << s) & one_sq(b)) != 0) == (s <= b < s + 8),
{
    let bu = b as u64;
    assert((((0xFFu64 << s) & (1u64 << bu)) != 0) == (s <= bu && bu < s + 8)) by (bit_vector)
        requires
            s < 64,
            s % 8 == 0,
            bu < 64,
    ;
}

/// A column mask (`0x8080..80` shifted right) meets a square mask exactly
/// when the square's index has the matching bit position within its byte.
pub proof fn lemma_col_scan(s: u64, b: int)
    requires
        s < 8,
        0 <= b < 64,
    ensures
        (((0x8080808080808080u64 >> s) & one_sq(b)) != 0) == (b % 8 == 7 - s),
{
    let bu = b as u64;
    assert((((0x8080808080808080u64 >> s) & (1u64 << bu)) != 0) == (bu % 8 == 7 - s))
        by (bit_vector)
        requires
            s < 8,
            bu < 64,
    ;
}

pub broadcast group group_squares {
    lemma_sq_in_shr_any,
    lemma_sq_in_shl_any,
    lemma_sq_in_or,
    lemma_sq_in_and,
    lemma_sq_in_not,
    lemma_sq_in_zero,
    lemma_sq_in_one,
    lemma_one_and,
    lemma_sq_in_shl,
    lemma_sq_in_shr,
    lemma_one_nonzero,
}

/// Whether `m` is a square mask, decided by scanning the 64 candidates.
pub fn is_single_square(m: u64) -> (r: bool)
    ensures
        r == is_sq(m),
{
    let mut b: u64 = 0;
    while b < 64
        invariant
            b <= 64,
            forall|i: int| 0 <= i < b ==> m != one_sq(i),
        decreases 64 - b,
    {
        if m == 1u64 << b {
            assert(m == one_sq(b as int));
            return true;
        }
        b = b + 1;
    }
    assert(!is_sq(m));
    false
}

} // verus!
