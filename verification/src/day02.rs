use crate::solution::Solution;
use crate::text::{all_digits, chars_vec, copy_range, dec_val, parse_u64, sep_pos, split_on, trim,
    trim_spec};
use crate::SolutionPair;
use vstd::prelude::*;

verus! {

/// The decimal digits of a number, least significant first.
pub open spec fn digits_of(n: int) -> Seq<int>
    decreases n,
{
    if n <= 0 {
        Seq::empty()
    } else {
        seq![n % 10] + digits_of(n / 10)
    }
}

/// Whether the decimal expansion of `n` is some block repeated exactly `k`
/// times.
pub open spec fn repeats_k(k: int, n: int) -> bool {
    let ds = digits_of(n);
    &&& k >= 1
    &&& n >= 1
    &&& (ds.len() as int) % k == 0
    &&& forall|i: int|
        0 <= i < ds.len() ==> #[trigger] ds[i] == ds[i % (ds.len() as int / k)]
}

/// Whether the decimal expansion is one block written exactly twice.
pub open spec fn repeats_twice(n: int) -> bool {
    repeats_k(2, n)
}

/// Whether the decimal expansion is one block written at least twice over.
pub open spec fn repeats_at_least_twice(n: int) -> bool {
    exists|k: int| 2 <= k <= digits_of(n).len() && repeats_k(k, n)
}

/// One range token: `<digits>-<digits>`.
pub open spec fn range_wf(t: Seq<char>) -> bool {
    let p = sep_pos(t, '-') as int;
    &&& p < t.len()
    &&& all_digits(t.take(p))
    &&& t.take(p).len() >= 1
    &&& all_digits(t.skip(p + 1))
    &&& t.skip(p + 1).len() >= 1
    &&& dec_val(t.take(p)) <= u64::MAX
    &&& dec_val(t.skip(p + 1)) <= u64::MAX
}

pub open spec fn range_of(t: Seq<char>) -> (int, int) {
    let p = sep_pos(t, '-') as int;
    (dec_val(t.take(p)), dec_val(t.skip(p + 1)))
}

/// The comma-separated ranges of the trimmed input.
pub open spec fn ranges_of(s: Seq<char>) -> Seq<(int, int)> {
    crate::text::split_at(trim_spec(s), ',').map_values(|t: Seq<char>| range_of(t))
}

pub open spec fn input_wf(s: Seq<char>) -> bool {
    forall|i: int|
        0 <= i < crate::text::split_at(trim_spec(s), ',').len() ==> range_wf(
            #[trigger] crate::text::split_at(trim_spec(s), ',')[i],
        )
}

/// Sum of the values in `lo..=hi` whose digits repeat as `f` asks.
pub open spec fn sum_matching(lo: int, hi: int, f: spec_fn(int) -> bool) -> int
    decreases (if hi >= lo {
        hi - lo + 1
    } else {
        0
    }),
{
    if hi < lo {
        0
    } else {
        sum_matching(lo, hi - 1, f) + (if f(hi) {
            hi
        } else {
            0int
        })
    }
}

pub proof fn lemma_sum_matching_nonneg(lo: int, hi: int, f: spec_fn(int) -> bool)
    requires
        lo >= 0,
    ensures
        sum_matching(lo, hi, f) >= 0,
    decreases (if hi >= lo {
        hi - lo + 1
    } else {
        0
    }),
{
    if hi >= lo {
        lemma_sum_matching_nonneg(lo, hi - 1, f);
    }
}

pub proof fn lemma_sum_matching_split(lo: int, mid: int, hi: int, f: spec_fn(int) -> bool)
    requires
        lo - 1 <= mid <= hi,
    ensures
        sum_matching(lo, hi, f) == sum_matching(lo, mid, f) + sum_matching(mid + 1, hi, f),
    decreases (if hi >= mid + 1 {
        hi - mid
    } else {
        0
    }),
{
    if hi > mid {
        lemma_sum_matching_split(lo, mid, hi - 1, f);
    }
}

pub open spec fn part1_of(s: Seq<char>) -> int {
    sum_over_ranges(ranges_of(s), |n: int| repeats_twice(n))
}

pub open spec fn part2_of(s: Seq<char>) -> int {
    sum_over_ranges(ranges_of(s), |n: int| repeats_at_least_twice(n))
}

pub open spec fn sum_over_ranges(rs: Seq<(int, int)>, f: spec_fn(int) -> bool) -> int
    decreases rs.len(),
{
    if rs.len() == 0 {
        0
    } else {
        sum_over_ranges(rs.drop_last(), f) + sum_matching(rs.last().0, rs.last().1, f)
    }
}

/// Parse the inclusive ranges.
pub fn prepare(input: &str) -> (r: Vec<(u64, u64)>)
    requires
        input_wf(input@),
    ensures
        r@.len() == ranges_of(input@).len(),
        forall|i: int|
            0 <= i < r@.len() ==> (#[trigger] r@[i]).0 as int == ranges_of(input@)[i].0
                && r@[i].1 as int == ranges_of(input@)[i].1,
{
    let chars = chars_vec(input);
    let t = trim(&chars);
    let pieces = split_on(&t, ',');
    let mut r: Vec<(u64, u64)> = Vec::new();
    let mut i: usize = 0;
    proof {
        assert(crate::text::views(pieces@) == crate::text::split_at(trim_spec(input@), ','));
    }
    while i < pieces.len()
        invariant
            i <= pieces@.len(),
            crate::text::views(pieces@) == crate::text::split_at(trim_spec(input@), ','),
            input_wf(input@),
            r@.len() == i,
            forall|k: int|
                0 <= k < i ==> (#[trigger] r@[k]).0 as int == ranges_of(input@)[k].0
                    && r@[k].1 as int == ranges_of(input@)[k].1,
        decreases pieces@.len() - i,
    {
        let piece = &pieces[i];
        proof {
            assert(piece@ == crate::text::views(pieces@)[i as int]);
            assert(range_wf(crate::text::split_at(trim_spec(input@), ',')[i as int]));
        }
        let n = piece.len();
        let mut p: usize = 0;
        while p < n && piece[p] != '-'
            invariant
                p <= n == piece@.len(),
                forall|k: int| 0 <= k < p ==> piece@[k] != '-',
            decreases n - p,
        {
            p = p + 1;
        }
        proof {
            crate::text::lemma_sep_pos_le(piece@, '-');
            if p < n {
                if sep_pos(piece@, '-') < p {
                    assert(piece@[sep_pos(piece@, '-') as int] == '-');
                }
            }
            assert(p == sep_pos(piece@, '-'));
            assert(p < n);
        }
        let lo_text = copy_range(piece, 0, p);
        let hi_text = copy_range(piece, p + 1, n);
        proof {
            assert(lo_text@ =~= piece@.take(p as int));
            assert(hi_text@ =~= piece@.skip(p + 1));
        }
        let lo = match parse_u64(&lo_text) {
            Some(v) => v,
            None => {
                proof {
                    assert(false);
                }
                0
            },
        };
        let hi = match parse_u64(&hi_text) {
            Some(v) => v,
            None => {
                proof {
                    assert(false);
                }
                0
            },
        };
        proof {
            assert(ranges_of(input@)[i as int] == range_of(piece@));
        }
        r.push((lo, hi));
        i = i + 1;
    }
    r
}

/// The digits of `n`, least significant first.
fn digits_vec(n: u64) -> (r: Vec<u64>)
    ensures
        r@.len() == digits_of(n as int).len(),
        forall|i: int| 0 <= i < r@.len() ==> #[trigger] r@[i] as int == digits_of(n as int)[i],
{
    let mut r: Vec<u64> = Vec::new();
    let mut m = n;
    while m > 0
        invariant
            m <= n,
            digits_of(n as int) =~= r@.map_values(|d: u64| d as int) + digits_of(m as int),
        decreases m,
    {
        let ghost old_r = r@;
        r.push(m % 10);
        proof {
            assert(digits_of(m as int) == seq![(m as int) % 10] + digits_of(m as int / 10));
            assert(r@.map_values(|d: u64| d as int) =~= old_r.map_values(|d: u64| d as int).push(
                (m as int) % 10,
            ));
            assert(r@.map_values(|d: u64| d as int) + digits_of(m as int / 10)
                =~= old_r.map_values(|d: u64| d as int) + digits_of(m as int));
        }
        m = m / 10;
    }
    proof {
        assert(digits_of(m as int) =~= Seq::<int>::empty());
        assert(digits_of(n as int) =~= r@.map_values(|d: u64| d as int));
        assert forall|i: int| 0 <= i < r@.len() implies #[trigger] r@[i] as int == digits_of(
            n as int,
        )[i] by {
            assert(digits_of(n as int)[i] == r@.map_values(|d: u64| d as int)[i]);
        }
    }
    r
}

/// Whether the digit string of `n` is one block written exactly `k` times.
pub fn pattern_repeats_k(k: u64, n: u64) -> (r: bool)
    ensures
        r == repeats_k(k as int, n as int),
{
    if k == 0 || n == 0 {
        proof {
            if n == 0 {
                assert(!repeats_k(k as int, n as int));
            }
        }
        return false;
    }
    let ds = digits_vec(n);
    let len = ds.len();
    proof {
        assert(digits_of(n as int).len() >= 1) by {
            assert(digits_of(n as int) == seq![(n as int) % 10] + digits_of(n as int / 10));
        }
    }
    if (len as u64) % k != 0 {
        proof {
            assert((len as int) % (k as int) != 0);
        }
        return false;
    }
    proof {
        assert(k <= len as u64) by {
            if k > len as u64 {
                assert((len as u64) % k == len as u64) by (nonlinear_arith)
                    requires
                        k > len as u64,
                ;
            }
        }
    }
    let m = len / (k as usize);
    proof {
        assert((len as int) % (k as int) == 0);
        assert(m as int == (len as int) / (k as int));
        assert(m >= 1) by (nonlinear_arith)
            requires
                (len as int) % (k as int) == 0,
                m as int == (len as int) / (k as int),
                len >= 1,
                k >= 1,
        ;
    }
    let mut i: usize = 0;
    while i < len
        invariant
            i <= len == ds@.len(),
            1 <= m,
            m as int == (len as int) / (k as int),
            k >= 1,
            n >= 1,
            (len as int) % (k as int) == 0,
            ds@.len() == digits_of(n as int).len(),
            forall|q: int|
                0 <= q < ds@.len() ==> #[trigger] ds@[q] as int == digits_of(n as int)[q],
            forall|q: int|
                0 <= q < i ==> #[trigger] digits_of(n as int)[q] == digits_of(n as int)[q % (
                m as int)],
        decreases len - i,
    {
        if ds[i] != ds[i % m] {
            proof {
                assert(digits_of(n as int)[i as int] != digits_of(n as int)[(i as int) % (
                m as int)]) by {
                    assert((i % m) as int == (i as int) % (m as int));
                }
            }
            return false;
        }
        proof {
            assert((i % m) as int == (i as int) % (m as int));
        }
        i = i + 1;
    }
    true
}

/// Whether the digit string of `n` is one block written exactly twice.
pub fn pattern_repeats_twice(n: u64) -> (r: bool)
    ensures
        r == repeats_twice(n as int),
{
    pattern_repeats_k(2, n)
}

/// Whether the digit string of `n` is one block written at least twice.
pub fn pattern_repeats_at_least_twice(n: u64) -> (r: bool)
    ensures
        r == repeats_at_least_twice(n as int),
{
    if n == 0 {
        proof {
            assert forall|k: int| 2 <= k <= digits_of(0).len() implies !repeats_k(k, 0) by {}
        }
        return false;
    }
    let ds = digits_vec(n);
    proof {
        assert(crate::day03::pow10(20) == 100000000000000000000) by {
            reveal_with_fuel(crate::day03::pow10, 21);
        }
        lemma_digits_len(n as int, 20);
    }
    let len = ds.len() as u64;
    let mut k: u64 = 2;
    while k <= len
        invariant
            2 <= k,
            len <= 20,
            len == digits_of(n as int).len(),
            n >= 1,
            forall|q: int| 2 <= q < k ==> !repeats_k(q, n as int),
        decreases len + 1 - k,
    {
        if pattern_repeats_k(k, n) {
            proof {
                assert(repeats_k(k as int, n as int));
                assert(2 <= k as int <= digits_of(n as int).len());
                assert(repeats_at_least_twice(n as int));
            }
            return true;
        }
        k = k + 1;
    }
    false
}

/// A value below ten to the `d` has at most `d` digits.
pub proof fn lemma_digits_len(n: int, d: int)
    requires
        0 <= d,
        n < crate::day03::pow10(d as nat),
    ensures
        digits_of(n).len() <= d,
    decreases d,
{
    if n > 0 {
        assert(digits_of(n) == seq![n % 10] + digits_of(n / 10));
        assert(n / 10 < crate::day03::pow10((d - 1) as nat)) by (nonlinear_arith)
            requires
                n < crate::day03::pow10(d as nat),
                d >= 1,
                crate::day03::pow10(d as nat) == 10 * crate::day03::pow10((d - 1) as nat),
        ;
        lemma_digits_len(n / 10, d - 1);
    }
}

/// Sum the matching values over one inclusive range.
fn sum_range_matching(lo: u64, hi: u64, twice_only: bool, bound: Ghost<int>) -> (r: u64)
    requires
        (if twice_only {
            sum_matching(lo as int, hi as int, |n: int| repeats_twice(n))
        } else {
            sum_matching(lo as int, hi as int, |n: int| repeats_at_least_twice(n))
        }) <= bound@ <= u64::MAX,
    ensures
        r as int == (if twice_only {
            sum_matching(lo as int, hi as int, |n: int| repeats_twice(n))
        } else {
            sum_matching(lo as int, hi as int, |n: int| repeats_at_least_twice(n))
        }),
{
    let ghost f = if twice_only {
        |n: int| repeats_twice(n)
    } else {
        |n: int| repeats_at_least_twice(n)
    };
    let mut acc: u64 = 0;
    let mut n = lo;
    proof {
        assert(sum_matching(lo as int, lo as int - 1, f) == 0);
    }
    while n <= hi
        invariant
            lo <= n <= hi + 1 || (n == lo && hi < lo),
            f == (if twice_only {
                |q: int| repeats_twice(q)
            } else {
                |q: int| repeats_at_least_twice(q)
            }),
            sum_matching(lo as int, hi as int, f) <= u64::MAX,
            acc as int == sum_matching(lo as int, n as int - 1, f),
            acc <= u64::MAX,
        decreases hi + 1 - n,
    {
        let matched = if twice_only {
            pattern_repeats_twice(n)
        } else {
            pattern_repeats_at_least_twice(n)
        };
        proof {
            assert(sum_matching(lo as int, n as int, f) == sum_matching(lo as int, n as int - 1, f)
                + (if f(n as int) {
                n as int
            } else {
                0int
            }));
            assert(f(n as int) == matched);
            if matched {
                lemma_sum_matching_split(lo as int, n as int, hi as int, f);
                lemma_sum_matching_nonneg(n as int + 1, hi as int, f);
                assert(acc + n <= u64::MAX);
            }
        }
        if matched {
            acc = acc + n;
        }
        if n == u64::MAX {
            proof {
                assert(n == hi);
            }
            return acc;
        }
        n = n + 1;
    }
    acc
}

/// Sum the values whose digits repeat exactly twice, over all ranges.
pub fn solve_part1(input: &str) -> (r: u64)
    requires
        input_wf(input@),
        0 <= part1_of(input@) <= u64::MAX,
        parts_nonneg(input@),
    ensures
        r as int == part1_of(input@),
{
    run_sum(input, true)
}

/// Sum the values whose digits repeat at least twice, over all ranges.
pub fn solve_part2(input: &str) -> (r: u64)
    requires
        input_wf(input@),
        0 <= part2_of(input@) <= u64::MAX,
        parts_nonneg(input@),
    ensures
        r as int == part2_of(input@),
{
    run_sum(input, false)
}

/// Every range sums nonnegatively for both parts, so partial sums stay
/// within range.
pub open spec fn parts_nonneg(s: Seq<char>) -> bool {
    forall|i: int|
        0 <= i < ranges_of(s).len() ==> 0 <= sum_matching(
            (#[trigger] ranges_of(s)[i]).0,
            ranges_of(s)[i].1,
            |n: int| repeats_twice(n),
        ) && 0 <= sum_matching(ranges_of(s)[i].0, ranges_of(s)[i].1, |n: int| repeats_at_least_twice(n))
}

fn run_sum(input: &str, twice_only: bool) -> (r: u64)
    requires
        input_wf(input@),
        parts_nonneg(input@),
        0 <= (if twice_only {
            part1_of(input@)
        } else {
            part2_of(input@)
        }) <= u64::MAX,
    ensures
        r as int == (if twice_only {
            part1_of(input@)
        } else {
            part2_of(input@)
        }),
{
    let ranges = prepare(input);
    let ghost grs = ranges_of(input@);
    let ghost f = if twice_only {
        |n: int| repeats_twice(n)
    } else {
        |n: int| repeats_at_least_twice(n)
    };
    let mut total: u64 = 0;
    let mut i: usize = 0;
    while i < ranges.len()
        invariant
            i <= ranges@.len(),
            ranges@.len() == grs.len(),
            grs == ranges_of(input@),
            input_wf(input@),
            parts_nonneg(input@),
            f == (if twice_only {
                |n: int| repeats_twice(n)
            } else {
                |n: int| repeats_at_least_twice(n)
            }),
            sum_over_ranges(grs, f) <= u64::MAX,
            forall|k: int|
                0 <= k < ranges@.len() ==> (#[trigger] ranges@[k]).0 as int == grs[k].0
                    && ranges@[k].1 as int == grs[k].1,
            total as int == sum_over_ranges(grs.take(i as int), f),
            total <= u64::MAX,
        decreases ranges@.len() - i,
    {
        let (lo, hi) = ranges[i];
        proof {
            lemma_sum_take_rest(grs, i as int, f);
            lemma_sum_matching_nonneg(grs[i as int].0, grs[i as int].1, f);
        }
        let piece = sum_range_matching(lo, hi, twice_only, Ghost(u64::MAX as int));
        proof {
            assert(grs.take(i + 1).drop_last() =~= grs.take(i as int));
            assert(grs.take(i + 1).last() == grs[i as int]);
        }
        total = total + piece;
        i = i + 1;
    }
    proof {
        assert(grs.take(grs.len() as int) =~= grs);
    }
    total
}

/// The sum over a prefix of the ranges plus nonnegative rests stays below
/// the whole.
pub proof fn lemma_sum_take_rest(grs: Seq<(int, int)>, i: int, f: spec_fn(int) -> bool)
    requires
        0 <= i < grs.len(),
        forall|k: int|
            0 <= k < grs.len() ==> 0 <= sum_matching(
                (#[trigger] grs[k]).0,
                grs[k].1,
                f,
            ) || true,
        forall|k: int| 0 <= k < grs.len() ==> 0 <= sum_matching((#[trigger] grs[k]).0, grs[k].1, f),
    ensures
        sum_over_ranges(grs.take(i), f) + sum_matching(grs[i].0, grs[i].1, f) <= sum_over_ranges(
            grs,
            f,
        ),
        sum_over_ranges(grs.take(i), f) >= 0,
        sum_matching(grs[i].0, grs[i].1, f) <= sum_over_ranges(grs, f),
    decreases grs.len(),
{
    lemma_sum_over_nonneg(grs, f);
    if i == grs.len() - 1 {
        assert(grs.take(i) =~= grs.drop_last());
        lemma_sum_over_nonneg(grs.take(i), f);
    } else {
        lemma_sum_take_rest(grs.drop_last(), i, f);
        assert(grs.drop_last().take(i) =~= grs.take(i));
        assert(forall|k: int|
            0 <= k < grs.drop_last().len() ==> #[trigger] grs.drop_last()[k] == grs[k]);
        assert(0 <= sum_matching(grs[grs.len() - 1].0, grs[grs.len() - 1].1, f));
        lemma_sum_over_nonneg(grs.take(i), f);
    }
}

pub proof fn lemma_sum_over_nonneg(grs: Seq<(int, int)>, f: spec_fn(int) -> bool)
    requires
        forall|k: int| 0 <= k < grs.len() ==> 0 <= sum_matching((#[trigger] grs[k]).0, grs[k].1, f),
    ensures
        sum_over_ranges(grs, f) >= 0,
    decreases grs.len(),
{
    if grs.len() > 0 {
        lemma_sum_over_nonneg(grs.drop_last(), f);
        assert(forall|k: int|
            0 <= k < grs.drop_last().len() ==> #[trigger] grs.drop_last()[k] == grs[k]);
    }
}

pub fn solve(input: String) -> (r: SolutionPair)
    requires
        input_wf(input@),
        0 <= part1_of(input@) <= u64::MAX,
        0 <= part2_of(input@) <= u64::MAX,
        parts_nonneg(input@),
    ensures
        r.0 matches Solution::U64(a) && a as int == part1_of(input@),
        r.1 matches Solution::U64(b) && b as int == part2_of(input@),
{
    let sol1 = solve_part1(&input);
    let sol2 = solve_part2(&input);
    (Solution::from(sol1), Solution::from(sol2))
}

} // verus!
