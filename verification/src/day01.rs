use crate::solution::Solution;
use crate::text::{all_digits, chars_vec, copy_range, dec_val, parse_u64, split_tokens, tokens};
use crate::SolutionPair;
use vstd::prelude::*;

verus! {

/// A rotation token: `L` or `R` followed by decimal digits, the amount
/// fitting a signed 32-bit integer.
pub open spec fn rot_wf(t: Seq<char>) -> bool {
    t.len() >= 2 && (t[0] == 'L' || t[0] == 'R') && all_digits(t.skip(1)) && dec_val(t.skip(1))
        <= i32::MAX
}

/// The signed amount of a rotation token: left is negative, right positive.
pub open spec fn rot_val(t: Seq<char>) -> int {
    if t[0] == 'L' {
        -dec_val(t.skip(1))
    } else {
        dec_val(t.skip(1))
    }
}

pub open spec fn input_wf(s: Seq<char>) -> bool {
    forall|i: int| 0 <= i < tokens(s).len() ==> rot_wf(#[trigger] tokens(s)[i])
}

/// The parsed rotation list.
pub open spec fn rotations(s: Seq<char>) -> Seq<int> {
    tokens(s).map_values(|t: Seq<char>| rot_val(t))
}

/// Remainder with the sign of the dividend, as the `%` operator of the
/// implementation language computes it.
pub open spec fn trunc_rem_100(a: int) -> int {
    if a >= 0 {
        a % 100
    } else {
        -((-a) % 100)
    }
}

/// Dial state after applying the rotations in order, counting stops at zero:
/// returns (position, zero count).
pub open spec fn fold_part1(rots: Seq<int>, pos: int, zeroes: int) -> (int, int)
    decreases rots.len(),
{
    if rots.len() == 0 {
        (pos, zeroes)
    } else {
        let np = trunc_rem_100(pos + rots[0]);
        fold_part1(rots.skip(1), np, zeroes + if np == 0 {
            1int
        } else {
            0int
        })
    }
}

pub open spec fn part1_of(s: Seq<char>) -> int {
    fold_part1(rotations(s), 50, 0).1
}

/// Dial state counting every pass over zero: position is kept in 0..100 and
/// each rotation contributes its full turns plus one more when the dial
/// crosses or lands on zero.
pub open spec fn fold_part2(rots: Seq<int>, pos: int, zeroes: int) -> (int, int)
    decreases rots.len(),
{
    if rots.len() == 0 {
        (pos, zeroes)
    } else {
        let rot = rots[0];
        let np = (pos + rot) % 100;
        let full_turns = vstd::math::abs(rot) / 100;
        let resets: int = if np == 0 || (pos != 0 && ((rot > 0 && np < pos) || (rot < 0 && np
            > pos))) {
            1
        } else {
            0
        };
        fold_part2(rots.skip(1), np, zeroes + full_turns + resets)
    }
}

pub open spec fn part2_of(s: Seq<char>) -> int {
    fold_part2(rotations(s), 50, 0).1
}

/// Parse the rotation tokens of the input.
pub fn prepare(input: &str) -> (r: Vec<i32>)
    requires
        input_wf(input@),
    ensures
        r@.len() == rotations(input@).len(),
        forall|i: int| 0 <= i < r@.len() ==> #[trigger] r@[i] as int == rotations(input@)[i],
{
    let chars = chars_vec(input);
    let toks = split_tokens(&chars);
    let mut r: Vec<i32> = Vec::new();
    let mut i: usize = 0;
    while i < toks.len()
        invariant
            i <= toks@.len(),
            crate::text::views(toks@) == tokens(input@),
            input_wf(input@),
            r@.len() == i,
            forall|k: int| 0 <= k < i ==> #[trigger] r@[k] as int == rotations(input@)[k],
        decreases toks@.len() - i,
    {
        let t = &toks[i];
        proof {
            assert(t@ == crate::text::views(toks@)[i as int]);
            assert(rot_wf(tokens(input@)[i as int]));
            assert(rot_wf(t@));
        }
        let digits = copy_range(t, 1, t.len());
        proof {
            assert(digits@ =~= t@.skip(1));
        }
        let mag: u64 = match parse_u64(&digits) {
            Some(x) => x,
            None => {
                proof {
                    crate::text::lemma_dec_val_nonneg(digits@);
                }
                0
            },
        };
        let v: i32 = if t[0] == 'L' {
            -(mag as i32)
        } else {
            mag as i32
        };
        proof {
            assert(v as int == rot_val(t@));
            assert(rotations(input@)[i as int] == rot_val(t@));
        }
        r.push(v);
        i = i + 1;
    }
    r
}

/// Euclidean remainder by 100 of a signed value.
fn emod_100(e: i64) -> (r: i64)
    requires
        e > i64::MIN,
    ensures
        r == (e as int) % 100,
        0 <= r < 100,
{
    if e >= 0 {
        e % 100
    } else {
        let n = -e;
        let m = n % 100;
        proof {
            assert((e as int) % 100 == if m == 0 {
                0int
            } else {
                100 - m
            }) by (nonlinear_arith)
                requires
                    e < 0,
                    n == -(e as int),
                    m == (n as int) % 100,
            ;
        }
        if m == 0 {
            0
        } else {
            100 - m
        }
    }
}

/// Count how many times the dial rests at zero.
pub fn solve_part1(input: &str) -> (r: u64)
    requires
        input_wf(input@),
        tokens(input@).len() <= 100000000,
    ensures
        r as int == part1_of(input@),
{
    let rotations_v = prepare(input);
    let ghost rots = rotations(input@);
    let mut pos: i64 = 50;
    let mut zeroes: u64 = 0;
    let mut i: usize = 0;
    proof {
        assert(rots.skip(0) =~= rots);
        assert forall|k: int| 0 <= k < rots.len() implies vstd::math::abs(#[trigger] rots[k])
            <= i32::MAX by {
            assert(rots[k] == rot_val(tokens(input@)[k]));
            assert(rot_wf(tokens(input@)[k]));
            crate::text::lemma_dec_val_nonneg(tokens(input@)[k].skip(1));
        }
    }
    while i < rotations_v.len()
        invariant
            i <= rotations_v@.len(),
            rotations_v@.len() == rots.len(),
            rots.len() <= 100000000,
            forall|k: int| 0 <= k < rots.len() ==> #[trigger] rotations_v@[k] as int == rots[k],
            forall|k: int| 0 <= k < rots.len() ==> vstd::math::abs(rots[k]) <= i32::MAX,
            -99 <= pos <= 99,
            zeroes <= i,
            fold_part1(rots, 50, 0) == fold_part1(rots.skip(i as int), pos as int, zeroes as int),
        decreases rotations_v@.len() - i,
    {
        let rot = rotations_v[i] as i64;
        let e = pos + rot;
        let np = if e >= 0 {
            e % 100
        } else {
            let n = -e;
            -(n % 100)
        };
        proof {
            assert(np as int == trunc_rem_100(pos + rot)) by (nonlinear_arith)
                requires
                    e == pos + rot,
                    e < 0 ==> np == -((-(e as int)) % 100),
                    e >= 0 ==> np == (e as int) % 100,
            ;
            assert(rots.skip(i as int)[0] == rots[i as int]);
            assert(rots.skip(i as int).skip(1) =~= rots.skip(i + 1));
        }
        pos = np;
        if pos == 0 {
            zeroes = zeroes + 1;
        }
        i = i + 1;
    }
    proof {
        assert(rots.skip(i as int) =~= Seq::<int>::empty());
    }
    zeroes
}

/// Count every pass of the dial over zero, full turns included.
pub fn solve_part2(input: &str) -> (r: u64)
    requires
        input_wf(input@),
        tokens(input@).len() <= 100000000,
    ensures
        r as int == part2_of(input@),
{
    let rotations_v = prepare(input);
    let ghost rots = rotations(input@);
    let mut pos: i64 = 50;
    let mut zeroes: u64 = 0;
    let mut i: usize = 0;
    proof {
        assert(rots.skip(0) =~= rots);
        assert forall|k: int| 0 <= k < rots.len() implies vstd::math::abs(#[trigger] rots[k])
            <= i32::MAX by {
            assert(rots[k] == rot_val(tokens(input@)[k]));
            assert(rot_wf(tokens(input@)[k]));
            crate::text::lemma_dec_val_nonneg(tokens(input@)[k].skip(1));
        }
    }
    while i < rotations_v.len()
        invariant
            i <= rotations_v@.len(),
            rotations_v@.len() == rots.len(),
            rots.len() <= 100000000,
            forall|k: int| 0 <= k < rots.len() ==> #[trigger] rotations_v@[k] as int == rots[k],
            forall|k: int| 0 <= k < rots.len() ==> vstd::math::abs(rots[k]) <= i32::MAX,
            0 <= pos <= 99,
            zeroes <= i * 21474839,
            fold_part2(rots, 50, 0) == fold_part2(rots.skip(i as int), pos as int, zeroes as int),
        decreases rotations_v@.len() - i,
    {
        let rot = rotations_v[i] as i64;
        let np = emod_100(pos + rot);
        let magnitude = if rot >= 0 {
            rot
        } else {
            -rot
        };
        let full_turns = (magnitude / 100) as u64;
        let resets: u64 = if np == 0 || (pos != 0 && ((rot > 0 && np < pos) || (rot < 0 && np
            > pos))) {
            1
        } else {
            0
        };
        proof {
            assert(rots.skip(i as int)[0] == rots[i as int]);
            assert(rots.skip(i as int).skip(1) =~= rots.skip(i + 1));
            assert(full_turns <= 21474836);
            assert(zeroes + full_turns + resets <= (i + 1) * 21474839) by (nonlinear_arith)
                requires
                    zeroes <= i * 21474839,
                    full_turns <= 21474836,
                    resets <= 1,
            ;
        }
        pos = np;
        zeroes = zeroes + full_turns + resets;
        i = i + 1;
    }
    proof {
        assert(rots.skip(i as int) =~= Seq::<int>::empty());
    }
    zeroes
}

pub fn solve(input: String) -> (r: SolutionPair)
    requires
        input_wf(input@),
        tokens(input@).len() <= 100000000,
    ensures
        r.0 matches Solution::U64(a) && a as int == part1_of(input@),
        r.1 matches Solution::U64(b) && b as int == part2_of(input@),
{
    let sol1 = solve_part1(&input);
    let sol2 = solve_part2(&input);
    (Solution::from(sol1), Solution::from(sol2))
}

/// Decide the condition the solvers assume of the input: every token is a
/// rotation, a direction letter followed by digits in signed range, and
/// there are not too many tokens.
pub fn input_ok(input: &str) -> (r: bool)
    ensures
        r == (input_wf(input@) && tokens(input@).len() <= 100000000),
{
    let chars = chars_vec(input);
    let toks = split_tokens(&chars);
    proof {
        assert(crate::text::views(toks@) == tokens(input@));
    }
    if toks.len() > 100000000 {
        proof {
            assert(tokens(input@).len() > 100000000);
        }
        return false;
    }
    let mut i: usize = 0;
    while i < toks.len()
        invariant
            i <= toks@.len(),
            crate::text::views(toks@) == tokens(input@),
            toks@.len() == tokens(input@).len() <= 100000000,
            forall|q: int| 0 <= q < i ==> rot_wf(#[trigger] tokens(input@)[q]),
        decreases toks@.len() - i,
    {
        let t = &toks[i];
        proof {
            assert(tokens(input@)[i as int] == toks@[i as int]@);
        }
        if t.len() < 2 {
            return false;
        }
        let head = t[0];
        if !(head == 'L' || head == 'R') {
            return false;
        }
        let digits = copy_range(t, 1, t.len());
        proof {
            assert(digits@ =~= t@.skip(1));
        }
        match parse_u64(&digits) {
            Some(x) => {
                if x > i32::MAX as u64 {
                    proof {
                        assert(dec_val(t@.skip(1)) > i32::MAX);
                    }
                    return false;
                }
            },
            None => {
                proof {
                    assert(!rot_wf(t@));
                }
                return false;
            },
        }
        proof {
            assert(rot_wf(t@));
        }
        i = i + 1;
    }
    true
}

} // verus!
