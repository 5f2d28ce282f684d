use crate::solution::Solution;
use crate::text::{all_digits, chars_vec, digit_val, is_digit, split_tokens, tokens};
use crate::SolutionPair;
use vstd::prelude::*;

verus! {

/// The digit banks of the input: one bank per whitespace token.
pub open spec fn banks_of(s: Seq<char>) -> Seq<Seq<int>> {
    tokens(s).map_values(|t: Seq<char>| t.map_values(|c: char| digit_val(c)))
}

pub open spec fn input_wf(s: Seq<char>) -> bool {
    forall|i: int| 0 <= i < tokens(s).len() ==> all_digits(#[trigger] tokens(s)[i]) && tokens(
        s,
    )[i].len() >= 12
}

/// Largest value of a nonempty sequence.
pub open spec fn seq_max(s: Seq<int>) -> int
    recommends
        s.len() > 0,
    decreases s.len(),
{
    if s.len() <= 1 {
        s[0]
    } else if s.last() >= seq_max(s.drop_last()) {
        s.last()
    } else {
        seq_max(s.drop_last())
    }
}

/// Index of the first occurrence of `v`, or the length if absent.
pub open spec fn first_index_of(s: Seq<int>, v: int) -> nat
    decreases s.len(),
{
    if s.len() == 0 || s[0] == v {
        0
    } else {
        1 + first_index_of(s.skip(1), v)
    }
}

pub proof fn lemma_first_index_unique(s: Seq<int>, v: int, f: int)
    requires
        0 <= f < s.len(),
        s[f] == v,
        forall|k: int| 0 <= k < f ==> s[k] != v,
    ensures
        first_index_of(s, v) == f,
    decreases s.len(),
{
    if f > 0 {
        assert(s[0] != v);
        assert(s.skip(1)[f - 1] == s[f]);
        assert forall|k: int| 0 <= k < f - 1 implies s.skip(1)[k] != v by {
            assert(s.skip(1)[k] == s[k + 1]);
        }
        lemma_first_index_unique(s.skip(1), v, f - 1);
    }
}

/// Every element is at most the maximum.
pub proof fn lemma_seq_max_ub(s: Seq<int>)
    requires
        s.len() >= 1,
    ensures
        forall|k: int| 0 <= k < s.len() ==> #[trigger] s[k] <= seq_max(s),
    decreases s.len(),
{
    if s.len() > 1 {
        lemma_seq_max_ub(s.drop_last());
    }
    assert forall|k: int| 0 <= k < s.len() implies #[trigger] s[k] <= seq_max(s) by {
        if s.len() > 1 && k < s.len() - 1 {
            assert(s.drop_last()[k] == s[k]);
            assert(s[k] <= seq_max(s.drop_last()));
        }
    }
}

/// The maximum is one of the elements.
pub proof fn lemma_seq_max_attained(s: Seq<int>)
    requires
        s.len() >= 1,
    ensures
        exists|k: int| 0 <= k < s.len() && #[trigger] s[k] == seq_max(s),
    decreases s.len(),
{
    if s.len() == 1 {
        assert(s[0] == seq_max(s));
    } else if seq_max(s) == s.last() {
        assert(s[s.len() - 1] == seq_max(s));
    } else {
        lemma_seq_max_attained(s.drop_last());
        let k = choose|k: int|
            0 <= k < s.drop_last().len() && #[trigger] s.drop_last()[k] == seq_max(
                s.drop_last(),
            );
        assert(s[k] == s.drop_last()[k]);
        assert(s[k] == seq_max(s));
    }
}

/// Where a value occurs, its first index lands on it and nothing earlier
/// carries it.
pub proof fn lemma_first_index_props(s: Seq<int>, v: int)
    requires
        exists|k: int| 0 <= k < s.len() && #[trigger] s[k] == v,
    ensures
        first_index_of(s, v) < s.len(),
        s[first_index_of(s, v) as int] == v,
        forall|k: int| 0 <= k < first_index_of(s, v) ==> s[k] != v,
    decreases s.len(),
{
    if s.len() > 0 && s[0] != v {
        let k = choose|k: int| 0 <= k < s.len() && #[trigger] s[k] == v;
        assert(s.skip(1)[k - 1] == v);
        lemma_first_index_props(s.skip(1), v);
        assert forall|k2: int| 0 <= k2 < first_index_of(s, v) implies s[k2] != v by {
            if k2 > 0 {
                assert(s.skip(1)[k2 - 1] == s[k2]);
            }
        }
        assert(s.skip(1)[first_index_of(s.skip(1), v) as int] == v);
    }
}

/// The best two-battery joltage of one bank: ten times the largest digit
/// before the last cell, plus the largest digit after that first maximum.
pub open spec fn bank_part1(b: Seq<int>) -> int
    recommends
        b.len() >= 2,
{
    let head = b.subrange(0, b.len() - 1);
    let j_a = seq_max(head);
    let a = first_index_of(head, j_a) as int;
    let j_b = seq_max(b.subrange(a + 1, b.len() as int));
    10 * j_a + j_b
}

/// The greedy selection of `d + 1` more digits from `b[start..]`, leaving
/// room for the remaining picks, appended in decimal to `acc`.
pub open spec fn bank_greedy(b: Seq<int>, start: int, d: int, acc: int) -> int
    recommends
        0 <= start,
        b.len() - d - 1 > start || d < 0,
    decreases d + 1,
{
    if d < 0 {
        acc
    } else {
        let slice = b.subrange(start, b.len() - d);
        let m = seq_max(slice);
        let p = start + first_index_of(slice, m) + 1;
        bank_greedy(b, p, d - 1, 10 * acc + m)
    }
}

/// The largest 12-digit number a bank can produce picking digits in order.
pub open spec fn bank_part2(b: Seq<int>) -> int
    recommends
        b.len() >= 12,
{
    bank_greedy(b, 0, 11, 0)
}

/// The greedy two-battery pick is the best: no admissible pair of
/// positions gives a larger joltage.
pub proof fn lemma_bank_part1_max(b: Seq<int>, i: int, j: int)
    requires
        b.len() >= 2,
        forall|k: int| 0 <= k < b.len() ==> 0 <= #[trigger] b[k] <= 9,
        0 <= i < b.len() - 1,
        i < j < b.len(),
    ensures
        10 * b[i] + b[j] <= bank_part1(b),
{
    let head = b.subrange(0, b.len() - 1);
    let j_a = seq_max(head);
    lemma_seq_max_ub(head);
    lemma_seq_max_attained(head);
    lemma_first_index_props(head, j_a);
    let a = first_index_of(head, j_a) as int;
    let tail = b.subrange(a + 1, b.len() as int);
    lemma_seq_max_ub(tail);
    lemma_seq_max_attained(tail);
    let j_b = seq_max(tail);
    let kb = choose|k: int| 0 <= k < tail.len() && #[trigger] tail[k] == j_b;
    assert(tail[kb] == b[a + 1 + kb]);
    assert(0 <= j_b <= 9);
    assert(head[i] == b[i]);
    if b[i] < j_a {
        assert(10 * b[i] + b[j] <= 10 * (j_a - 1) + 9);
    } else {
        assert(b[i] == j_a);
        assert(i >= a) by {
            if i < a {
                assert(head[i] != j_a);
            }
        }
        assert(tail[j - a - 1] == b[j]);
        assert(b[j] <= j_b);
    }
}

pub open spec fn sum_over(banks: Seq<Seq<int>>, f: spec_fn(Seq<int>) -> int) -> int
    decreases banks.len(),
{
    if banks.len() == 0 {
        0
    } else {
        sum_over(banks.drop_last(), f) + f(banks.last())
    }
}

pub open spec fn part1_of(s: Seq<char>) -> int {
    sum_over(banks_of(s), |b: Seq<int>| bank_part1(b))
}

pub open spec fn part2_of(s: Seq<char>) -> int {
    sum_over(banks_of(s), |b: Seq<int>| bank_part2(b))
}

/// Parse the banks of digits.
pub fn prepare(input: &str) -> (r: Vec<Vec<u32>>)
    requires
        input_wf(input@),
    ensures
        r@.len() == banks_of(input@).len(),
        forall|i: int|
            0 <= i < r@.len() ==> (#[trigger] r@[i])@.len() == banks_of(input@)[i].len()
                && forall|j: int|
                0 <= j < r@[i]@.len() ==> #[trigger] r@[i]@[j] as int == banks_of(input@)[i][j]
                    && 0 <= r@[i]@[j] <= 9,
{
    let chars = chars_vec(input);
    let toks = split_tokens(&chars);
    let mut r: Vec<Vec<u32>> = Vec::new();
    let mut i: usize = 0;
    while i < toks.len()
        invariant
            i <= toks@.len(),
            crate::text::views(toks@) == tokens(input@),
            input_wf(input@),
            r@.len() == i,
            forall|k: int|
                0 <= k < i ==> (#[trigger] r@[k])@.len() == banks_of(input@)[k].len() && forall|
                    j: int,
                |
                    0 <= j < r@[k]@.len() ==> #[trigger] r@[k]@[j] as int == banks_of(
                        input@,
                    )[k][j] && 0 <= r@[k]@[j] <= 9,
        decreases toks@.len() - i,
    {
        let t = &toks[i];
        proof {
            assert(t@ == crate::text::views(toks@)[i as int]);
            assert(all_digits(tokens(input@)[i as int]));
        }
        let mut bank: Vec<u32> = Vec::new();
        let mut j: usize = 0;
        while j < t.len()
            invariant
                j <= t@.len(),
                all_digits(t@),
                bank@.len() == j,
                forall|k: int|
                    0 <= k < j ==> #[trigger] bank@[k] as int == digit_val(t@[k]) && 0
                        <= bank@[k] <= 9,
            decreases t@.len() - j,
        {
            let c = t[j];
            proof {
                assert(is_digit(t@[j as int]));
            }
            bank.push(c as u32 - '0' as u32);
            j = j + 1;
        }
        proof {
            assert(banks_of(input@)[i as int] == tokens(input@)[i as int].map_values(
                |c: char| digit_val(c),
            ));
        }
        r.push(bank);
        i = i + 1;
    }
    r
}

/// Largest value of `b[lo..hi]` and the index of its first occurrence there.
fn scan_max(b: &Vec<u32>, lo: usize, hi: usize) -> (r: (u32, usize))
    requires
        lo < hi <= b@.len(),
        forall|k: int| 0 <= k < b@.len() ==> #[trigger] b@[k] <= 9,
    ensures
        r.0 as int == seq_max(b@.subrange(lo as int, hi as int).map_values(|x: u32| x as int)),
        lo <= r.1 < hi,
        r.1 - lo == first_index_of(
            b@.subrange(lo as int, hi as int).map_values(|x: u32| x as int),
            r.0 as int,
        ),
        b@[r.1 as int] == r.0,
{
    let ghost full = b@.subrange(lo as int, hi as int).map_values(|x: u32| x as int);
    let mut max_v: u32 = b[lo];
    let mut fi: usize = lo;
    let mut j: usize = lo + 1;
    proof {
        assert(full[0] == b@[lo as int]);
        assert(b@.subrange(lo as int, lo + 1).map_values(|x: u32| x as int) =~= full.take(1));
        assert(seq_max(full.take(1)) == full[0]);
    }
    while j < hi
        invariant
            lo < j <= hi <= b@.len(),
            lo <= fi < j,
            full == b@.subrange(lo as int, hi as int).map_values(|x: u32| x as int),
            full.len() == hi - lo,
            forall|k: int| 0 <= k < full.len() ==> full[k] == b@[lo + k],
            max_v as int == seq_max(full.take(j - lo)),
            b@[fi as int] == max_v,
            forall|k: int| lo <= k < fi ==> b@[k] < max_v,
            forall|k: int| lo <= k < j ==> b@[k] <= max_v,
        decreases hi - j,
    {
        proof {
            let p = full.take(j - lo + 1);
            assert(p.drop_last() =~= full.take(j - lo));
            assert(p.last() == full[j - lo] == b@[j as int]);
        }
        if b[j] > max_v {
            max_v = b[j];
            fi = j;
        }
        j = j + 1;
    }
    proof {
        assert(full.take(hi - lo) =~= full);
        assert(full[fi - lo] == b@[fi as int]);
        assert forall|k: int| 0 <= k < fi - lo implies full[k] != max_v as int by {
            assert(full[k] == b@[lo + k]);
        }
        lemma_first_index_unique(full, max_v as int, fi - lo);
    }
    (max_v, fi)
}

/// Sum the best two-battery joltage over all banks.
pub fn solve_part1(input: &str) -> (r: u64)
    requires
        input_wf(input@),
        tokens(input@).len() <= 1000000,
    ensures
        r as int == part1_of(input@),
{
    let banks = prepare(input);
    let ghost bs = banks_of(input@);
    let ghost f = |b: Seq<int>| bank_part1(b);
    let mut total: u64 = 0;
    let mut i: usize = 0;
    while i < banks.len()
        invariant
            i <= banks@.len(),
            banks@.len() == bs.len(),
            bs.len() <= 1000000,
            input_wf(input@),
            bs == banks_of(input@),
            f == (|b: Seq<int>| bank_part1(b)),
            forall|k: int|
                0 <= k < banks@.len() ==> (#[trigger] banks@[k])@.len() == bs[k].len() && forall|
                    j: int,
                |
                    0 <= j < banks@[k]@.len() ==> #[trigger] banks@[k]@[j] as int == bs[k][j] && 0
                        <= banks@[k]@[j] <= 9,
            total as int == sum_over(bs.take(i as int), f),
            total <= i * 99,
        decreases banks@.len() - i,
    {
        let bank = &banks[i];
        proof {
            assert(tokens(input@)[i as int].len() >= 12);
            assert(bs[i as int].len() == tokens(input@)[i as int].len());
        }
        let n = bank.len();
        let (j_a, a) = scan_max(bank, 0, n - 1);
        let (j_b, _) = scan_max(bank, a + 1, n);
        let value: u64 = (10 * j_a + j_b) as u64;
        proof {
            let b_int = bank@.map_values(|x: u32| x as int);
            assert(bank@.subrange(0, bank@.len() as int) =~= bank@);
            assert(b_int =~= bs[i as int]);
            assert(bank@.subrange(0, n - 1).map_values(|x: u32| x as int) =~= b_int.subrange(
                0,
                b_int.len() - 1,
            ));
            assert(bank@.subrange(a + 1, n as int).map_values(|x: u32| x as int) =~= b_int.subrange(
                a + 1,
                b_int.len() as int,
            ));
            assert(value as int == bank_part1(bs[i as int]));
            assert(bs.take(i + 1).drop_last() =~= bs.take(i as int));
            assert(bs.take(i + 1).last() == bs[i as int]);
            assert(0 <= value <= 99);
            assert(total + value <= (i + 1) * 99) by (nonlinear_arith)
                requires
                    total <= i * 99,
                    value <= 99,
                    i >= 0,
            ;
        }
        total = total + value;
        i = i + 1;
    }
    proof {
        assert(bs.take(i as int) =~= bs);
    }
    total
}

/// Sum the greedy 12-digit selection over all banks.
pub fn solve_part2(input: &str) -> (r: u64)
    requires
        input_wf(input@),
        tokens(input@).len() <= 1000000,
    ensures
        r as int == part2_of(input@),
{
    let banks = prepare(input);
    let ghost bs = banks_of(input@);
    let ghost f = |b: Seq<int>| bank_part2(b);
    let mut total: u64 = 0;
    let mut i: usize = 0;
    while i < banks.len()
        invariant
            i <= banks@.len(),
            banks@.len() == bs.len(),
            bs.len() <= 1000000,
            input_wf(input@),
            bs == banks_of(input@),
            f == (|b: Seq<int>| bank_part2(b)),
            forall|k: int|
                0 <= k < banks@.len() ==> (#[trigger] banks@[k])@.len() == bs[k].len() && forall|
                    j: int,
                |
                    0 <= j < banks@[k]@.len() ==> #[trigger] banks@[k]@[j] as int == bs[k][j] && 0
                        <= banks@[k]@[j] <= 9,
            total as int == sum_over(bs.take(i as int), f),
            total <= i * 0xE8D4A50FFF,
        decreases banks@.len() - i,
    {
        let bank = &banks[i];
        proof {
            assert(tokens(input@)[i as int].len() >= 12);
            assert(bs[i as int].len() == tokens(input@)[i as int].len());
        }
        let ghost b_int = bank@.map_values(|x: u32| x as int);
        proof {
            assert(b_int =~= bs[i as int]);
        }
        let n = bank.len();
        let mut highest: u64 = 0;
        let mut start: usize = 0;
        let mut round: usize = 0;
        while round < 12
            invariant
                round <= 12,
                n == bank@.len(),
                n >= 12,
                b_int == bank@.map_values(|x: u32| x as int),
                b_int.len() == n,
                forall|k: int| 0 <= k < bank@.len() ==> #[trigger] bank@[k] <= 9,
                start + (12 - round) <= n,
                round < 12 ==> start < n - (11 - round),
                highest < pow10(round as nat),
                bank_greedy(b_int, 0, 11, 0) == bank_greedy(
                    b_int,
                    start as int,
                    11 - round,
                    highest as int,
                ),
            decreases 12 - round,
        {
            let d = 11 - round;
            let (j_i, p) = scan_max(bank, start, n - d);
            proof {
                assert(bank@.subrange(start as int, n - d).map_values(|x: u32| x as int)
                    =~= b_int.subrange(start as int, b_int.len() - d));
                assert(pow10(round as nat + 1) == 10 * pow10(round as nat));
                assert(10 * highest + j_i < pow10(round as nat + 1)) by (nonlinear_arith)
                    requires
                        highest < pow10(round as nat),
                        j_i <= 9,
                        pow10(round as nat + 1) == 10 * pow10(round as nat),
                ;
                assert(pow10(12) == 1000000000000) by {
                    reveal_with_fuel(pow10, 13);
                }
                assert(pow10(round as nat + 1) <= pow10(12)) by {
                    lemma_pow10_mono(round as nat + 1, 12);
                }
            }
            highest = 10 * highest + (j_i as u64);
            start = p + 1;
            round = round + 1;
        }
        proof {
            assert(highest as int == bank_part2(bs[i as int]));
            assert(bs.take(i + 1).drop_last() =~= bs.take(i as int));
            assert(bs.take(i + 1).last() == bs[i as int]);
            assert(highest <= 0xE8D4A50FFF) by {
                assert(pow10(12) == 1000000000000) by {
                    reveal_with_fuel(pow10, 13);
                }
            }
            assert(total + highest <= (i + 1) * 0xE8D4A50FFF) by (nonlinear_arith)
                requires
                    total <= i * 0xE8D4A50FFF,
                    highest <= 0xE8D4A50FFF,
                    i >= 0,
            ;
        }
        total = total + highest;
        i = i + 1;
    }
    proof {
        assert(bs.take(i as int) =~= bs);
    }
    total
}

pub open spec fn pow10(n: nat) -> int
    decreases n,
{
    if n == 0 {
        1
    } else {
        10 * pow10((n - 1) as nat)
    }
}

pub proof fn lemma_pow10_pos(n: nat)
    ensures
        pow10(n) >= 1,
    decreases n,
{
    if n > 0 {
        lemma_pow10_pos((n - 1) as nat);
    }
}

pub proof fn lemma_pow10_mono(a: nat, b: nat)
    requires
        a <= b,
    ensures
        pow10(a) <= pow10(b),
        pow10(a) >= 1,
    decreases b,
{
    lemma_pow10_pos(a);
    if a < b {
        lemma_pow10_mono(a, (b - 1) as nat);
        lemma_pow10_pos((b - 1) as nat);
        assert(pow10(b) == 10 * pow10((b - 1) as nat));
    }
}

pub fn solve(input: String) -> (r: SolutionPair)
    requires
        input_wf(input@),
        tokens(input@).len() <= 1000000,
    ensures
        r.0 matches Solution::U64(a) && a as int == part1_of(input@),
        r.1 matches Solution::U64(b) && b as int == part2_of(input@),
{
    let sol1 = solve_part1(&input);
    let sol2 = solve_part2(&input);
    (Solution::from(sol1), Solution::from(sol2))
}

/// Decide the condition the solvers assume of the input: every reading is
/// a string of digits, at least twelve of them, and there are not too many
/// readings.
pub fn input_ok(input: &str) -> (r: bool)
    ensures
        r == (input_wf(input@) && tokens(input@).len() <= 1000000),
{
    let chars = chars_vec(input);
    let toks = split_tokens(&chars);
    proof {
        assert(crate::text::views(toks@) == tokens(input@));
    }
    if toks.len() > 1000000 {
        proof {
            assert(tokens(input@).len() > 1000000);
        }
        return false;
    }
    let mut i: usize = 0;
    while i < toks.len()
        invariant
            i <= toks@.len(),
            crate::text::views(toks@) == tokens(input@),
            toks@.len() == tokens(input@).len() <= 1000000,
            forall|q: int|
                0 <= q < i ==> all_digits(#[trigger] tokens(input@)[q]) && tokens(
                    input@,
                )[q].len() >= 12,
        decreases toks@.len() - i,
    {
        let t = &toks[i];
        proof {
            assert(tokens(input@)[i as int] == toks@[i as int]@);
        }
        if t.len() < 12 {
            return false;
        }
        let mut k: usize = 0;
        while k < t.len()
            invariant
                k <= t@.len(),
                t@ == tokens(input@)[i as int],
                0 <= i < tokens(input@).len(),
                forall|q: int| 0 <= q < k ==> is_digit(#[trigger] t@[q]),
            decreases t@.len() - k,
        {
            if !crate::text::exec_is_digit(t[k]) {
                proof {
                    assert(!all_digits(tokens(input@)[i as int]));
                }
                return false;
            }
            k = k + 1;
        }
        proof {
            assert(all_digits(t@));
        }
        i = i + 1;
    }
    true
}

} // verus!
