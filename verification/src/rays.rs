//! Sliding movement: ray casting for rooks, bishops and queens.
//!
//! The executable scan walks one square at a time in a fixed direction and
//! stops at the first occupied square.  Its contract is stated twice: a
//! step-by-step recursive description (`ray_reach`) that the loop proof
//! follows, and the declarative characterization callers want — the target
//! is aligned with the source, every strictly intervening square is empty,
//! and the target does not hold one of the mover's own pieces.
use vstd::prelude::*;
use crate::bits::{one_sq, sq_in, group_squares};
use crate::piece::{sq_index, on_board, rank_of, file_of, lemma_sq_index, lemma_coords};

verus! {

broadcast use group_squares;

/// A unit direction: each component is -1, 0 or 1, not both 0.
pub open spec fn valid_dir(dr: int, df: int) -> bool {
    -1 <= dr <= 1 && -1 <= df <= 1 && !(dr == 0 && df == 0)
}

/// Square `b` can be reached from `(r, f)` by stepping in direction
/// `(dr, df)` over empty squares (`all` is the occupancy of both sides),
/// ending on a square that is not in `own`.
pub open spec fn ray_reach(
    own: u64,
    all: u64,
    r: int,
    f: int,
    dr: int,
    df: int,
    b: int,
    fuel: nat,
) -> bool
    decreases fuel,
{
    fuel > 0 && on_board(r + dr, f + df) && {
        let nb = sq_index(r + dr, f + df);
        (b == nb && !sq_in(own, nb)) || (!sq_in(all, nb) && ray_reach(
            own,
            all,
            r + dr,
            f + df,
            dr,
            df,
            b,
            (fuel - 1) as nat,
        ))
    }
}

/// Square `b` lies in direction `(dr, df)` from `(r, f)`, any distance.
pub open spec fn dir_aligned(r: int, f: int, dr: int, df: int, b: int) -> bool {
    0 <= b < 64 && {
        let br = rank_of(b);
        let bf = file_of(b);
        if dr == 0 && df == 1 {
            br == r && bf > f
        } else if dr == 0 && df == -1 {
            br == r && bf < f
        } else if dr == 1 && df == 0 {
            bf == f && br > r
        } else if dr == -1 && df == 0 {
            bf == f && br < r
        } else if dr == 1 && df == 1 {
            br - r == bf - f && br > r
        } else if dr == 1 && df == -1 {
            br - r == f - bf && br > r
        } else if dr == -1 && df == 1 {
            r - br == bf - f && br < r
        } else if dr == -1 && df == -1 {
            r - br == f - bf && br < r
        } else {
            false
        }
    }
}

/// Steps needed to walk from `(r, f)` to square `b` along a straight line.
pub open spec fn ray_dist(r: int, f: int, b: int) -> int {
    let a1 = if rank_of(b) >= r {
        rank_of(b) - r
    } else {
        r - rank_of(b)
    };
    let a2 = if file_of(b) >= f {
        file_of(b) - f
    } else {
        f - file_of(b)
    };
    if a1 >= a2 {
        a1
    } else {
        a2
    }
}

/// `z` lies strictly between `x` and `y`.
pub open spec fn num_between(x: int, y: int, z: int) -> bool {
    (x < z < y) || (y < z < x)
}

/// Square `s` lies strictly inside the straight segment from `a` to `b`
/// (same rank, same file, or same diagonal).
pub open spec fn seg_between(a: int, b: int, s: int) -> bool {
    0 <= a < 64 && 0 <= b < 64 && 0 <= s < 64 && {
        let ar = rank_of(a);
        let af = file_of(a);
        let br = rank_of(b);
        let bf = file_of(b);
        let sr = rank_of(s);
        let sf = file_of(s);
        (sr == ar && sr == br && num_between(af, bf, sf)) || (sf == af && sf == bf && num_between(
            ar,
            br,
            sr,
        )) || (sr - ar == sf - af && br - ar == bf - af && num_between(ar, br, sr)) || (sr - ar
            == af - sf && br - ar == af - bf && num_between(ar, br, sr))
    }
}

/// What a successful ray step means: the reached square is aligned with the
/// start in the ray's direction, every strictly intervening square is
/// empty, and the reached square is not the mover's own.
pub proof fn lemma_ray_sound(
    own: u64,
    all: u64,
    r: int,
    f: int,
    dr: int,
    df: int,
    b: int,
    fuel: nat,
)
    requires
        on_board(r, f),
        valid_dir(dr, df),
        ray_reach(own, all, r, f, dr, df, b, fuel),
    ensures
        dir_aligned(r, f, dr, df, b),
        !sq_in(own, b),
        forall|s: int| seg_between(sq_index(r, f), b, s) ==> !sq_in(all, s),
    decreases fuel,
{
    let nb = sq_index(r + dr, f + df);
    lemma_sq_index(r + dr, f + df);
    lemma_sq_index(r, f);
    if b == nb && !sq_in(own, nb) {
        assert forall|s: int| seg_between(sq_index(r, f), b, s) implies !sq_in(all, s) by {
            lemma_coords(s);
        }
    } else {
        lemma_ray_sound(own, all, r + dr, f + df, dr, df, b, (fuel - 1) as nat);
        assert forall|s: int| seg_between(sq_index(r, f), b, s) implies !sq_in(all, s) by {
            lemma_coords(s);
            lemma_coords(b);
            if s != nb {
                assert(seg_between(nb, b, s));
            }
        }
        assert(dir_aligned(r, f, dr, df, b)) by {
            lemma_coords(b);
        }
    }
}

/// The converse: any aligned square behind an empty path and off the
/// mover's own occupancy is reached by the ray, given enough fuel.
pub proof fn lemma_ray_complete(
    own: u64,
    all: u64,
    r: int,
    f: int,
    dr: int,
    df: int,
    b: int,
    fuel: nat,
)
    requires
        on_board(r, f),
        valid_dir(dr, df),
        dir_aligned(r, f, dr, df, b),
        !sq_in(own, b),
        forall|s: int| seg_between(sq_index(r, f), b, s) ==> !sq_in(all, s),
        fuel >= ray_dist(r, f, b),
    ensures
        ray_reach(own, all, r, f, dr, df, b, fuel),
    decreases ray_dist(r, f, b),
{
    lemma_coords(b);
    assert(on_board(r + dr, f + df));
    let nb = sq_index(r + dr, f + df);
    lemma_sq_index(r + dr, f + df);
    lemma_sq_index(r, f);
    if b == nb {
        assert(ray_reach(own, all, r, f, dr, df, b, fuel));
    } else {
        assert(seg_between(sq_index(r, f), b, nb));
        assert(!sq_in(all, nb));
        assert(dir_aligned(r + dr, f + df, dr, df, b));
        assert forall|s: int| seg_between(nb, b, s) implies !sq_in(all, s) by {
            lemma_coords(s);
            assert(seg_between(sq_index(r, f), b, s));
        }
        lemma_ray_complete(own, all, r + dr, f + df, dr, df, b, (fuel - 1) as nat);
    }
}

/// One ray of the scan: all squares reachable from `(r0, f0)` in direction
/// `(dr, df)` before the first blocker, including an enemy blocker.
#[verifier::loop_isolation(false)]
pub fn ray_scan(own: u64, all: u64, r0: u8, f0: u8, dr: i8, df: i8) -> (res: u64)
    requires
        on_board(r0 as int, f0 as int),
        valid_dir(dr as int, df as int),
        forall|i: int| sq_in(own, i) ==> sq_in(all, i),
    ensures
        forall|b: int|
            sq_in(res, b) == ray_reach(own, all, r0 as int, f0 as int, dr as int, df as int, b, 7),
{
    let mut out: u64 = 0;
    let mut r: i16 = r0 as i16 + dr as i16;
    let mut f: i16 = f0 as i16 + df as i16;
    let ghost mut steps: int = 0;
    let ghost mut fuel_left: nat = 7;
    proof {
        crate::bits::lemma_sq_in_zero(0);
    }
    while 1 <= r && r <= 8 && 1 <= f && f <= 8
        invariant
            dr == 1 ==> r == r0 + steps + 1,
            dr == 0 ==> r == r0,
            dr == -1 ==> r == r0 - steps - 1,
            df == 1 ==> f == f0 + steps + 1,
            df == 0 ==> f == f0,
            df == -1 ==> f == f0 - steps - 1,
            0 <= steps <= 7,
            fuel_left == 7 - steps,
            on_board(r - dr, f - df),
            forall|b: int|
                #[trigger] ray_reach(own, all, r0 as int, f0 as int, dr as int, df as int, b, 7)
                    == (sq_in(out, b) || ray_reach(
                    own,
                    all,
                    r - dr,
                    f - df,
                    dr as int,
                    df as int,
                    b,
                    fuel_left,
                )),
        decreases fuel_left,
    {
        proof {
            if dr == 1 {
                assert(steps + 1 <= 8 - r0);
            } else if dr == -1 {
                assert(steps + 1 <= r0 - 1);
            } else if df == 1 {
                assert(steps + 1 <= 8 - f0);
            } else {
                assert(steps + 1 <= f0 - 1);
            }
            assert(fuel_left > 0);
        }
        let sh: u16 = (8 * (8 - r) + (8 - f)) as u16;
        let ghost nb: int = sq_index(r as int, f as int);
        proof {
            lemma_sq_index(r as int, f as int);
            assert(nb == sh as int);
        }
        let mask: u64 = 1u64 << (sh as u64);
        proof {
            assert(mask == one_sq(nb));
            crate::bits::lemma_one_and(own, nb);
            crate::bits::lemma_one_and(all, nb);
        }
        let ghost pr: int = r - dr;
        let ghost pf: int = f - df;
        if own & mask != 0 {
            proof {
                assert forall|b: int|
                    !#[trigger] ray_reach(own, all, pr, pf, dr as int, df as int, b, fuel_left) by {
                    assert(sq_in(own, nb) && sq_in(all, nb));
                }
            }
            return out;
        }
        let ghost prev_out: u64 = out;
        out = out | mask;
        proof {
            assert forall|b: int| #[trigger] sq_in(out, b) == (sq_in(prev_out, b) || b == nb) by {
                crate::bits::lemma_sq_in_or(prev_out, mask, b);
                crate::bits::lemma_sq_in_one(nb, b);
            }
        }
        if all & mask != 0 {
            proof {
                assert forall|b: int|
                    #[trigger] ray_reach(own, all, pr, pf, dr as int, df as int, b, fuel_left) == (b
                        == nb) by {
                    assert(!sq_in(own, nb) && sq_in(all, nb));
                }
            }
            return out;
        }
        proof {
            let ghost fuel_next: nat = (fuel_left - 1) as nat;
            assert forall|b: int|
                #[trigger] ray_reach(own, all, pr, pf, dr as int, df as int, b, fuel_left) == ((b
                    == nb) || ray_reach(own, all, r as int, f as int, dr as int, df as int, b, fuel_next)) by {
                assert(!sq_in(own, nb) && !sq_in(all, nb));
            }
            steps = steps + 1;
            fuel_left = fuel_next;
        }
        r = r + dr as i16;
        f = f + df as i16;
    }
    proof {
        let ghost pr: int = r - dr;
        let ghost pf: int = f - df;
        assert forall|b: int|
            !#[trigger] ray_reach(own, all, pr, pf, dr as int, df as int, b, fuel_left) by {
            assert(!on_board(pr + dr, pf + df));
        }
    }
    out
}

} // verus!
