use crate::arith::{
    lemma_sum_range_same,
    lemma_elem_le_sum_range, lemma_pow2_mono, lemma_pow2_pos, lemma_sum_range_nonneg,
    lemma_sum_range_split, lemma_sum_range_update, nonneg_range, pow2, sum_range,
};
use crate::solution::Solution;
use crate::text::{chars_vec, lines_of, sep_pos, split_lines};
use crate::SolutionPair;
use vstd::prelude::*;

verus! {

/// The indices of the splitter marks of a line, in increasing order.
pub open spec fn carets(line: Seq<char>) -> Seq<int>
    decreases line.len(),
{
    if line.len() == 0 {
        Seq::empty()
    } else if line.last() == '^' {
        carets(line.drop_last()).push(line.len() - 1)
    } else {
        carets(line.drop_last())
    }
}

pub proof fn lemma_carets_bounds(line: Seq<char>)
    ensures
        forall|k: int| 0 <= k < carets(line).len() ==> 0 <= #[trigger] carets(line)[k]
            < line.len(),
        forall|k1: int, k2: int|
            0 <= k1 < k2 < carets(line).len() ==> carets(line)[k1] < carets(line)[k2],
        carets(line).len() <= line.len(),
    decreases line.len(),
{
    if line.len() > 0 {
        lemma_carets_bounds(line.drop_last());
    }
}

/// The splitter levels below the starting line.
pub open spec fn levels_of(s: Seq<char>) -> Seq<Seq<int>> {
    lines_of(s).skip(1).map_values(|l: Seq<char>| carets(l))
}

pub open spec fn width_of(s: Seq<char>) -> int {
    lines_of(s)[0].len() as int
}

pub open spec fn start_of(s: Seq<char>) -> int {
    sep_pos(lines_of(s)[0], 'S') as int
}

pub open spec fn input_wf(s: Seq<char>) -> bool {
    &&& lines_of(s).len() >= 1
    &&& lines_of(s).len() <= 63
    &&& start_of(s) < width_of(s)
    &&& width_of(s) <= 1000000
    &&& forall|li: int, k: int|
        0 <= li < levels_of(s).len() && 0 <= k < levels_of(s)[li].len() ==> 1 <= #[trigger] levels_of(
            s,
        )[li][k] && levels_of(s)[li][k] + 1 < width_of(s)
}

/// One level of the splitting, tracking only which slots carry a beam and
/// how many splits fire: `old` is the level's incoming state, `next` the
/// state being built.
pub open spec fn step1(old: Seq<bool>, next: Seq<bool>, poss: Seq<int>, splits: int) -> (
    Seq<bool>,
    int,
)
    decreases poss.len(),
{
    if poss.len() == 0 {
        (next, splits)
    } else {
        let p = poss[0];
        if old[p] {
            step1(
                old,
                next.update(p, false).update(p - 1, true).update(p + 1, true),
                poss.skip(1),
                splits + 1,
            )
        } else {
            step1(old, next, poss.skip(1), splits)
        }
    }
}

/// The total number of splits after all levels.
pub open spec fn sim1(levels: Seq<Seq<int>>, beams: Seq<bool>, splits: int) -> int
    decreases levels.len(),
{
    if levels.len() == 0 {
        splits
    } else {
        let (nb, ns) = step1(beams, beams, levels[0], splits);
        sim1(levels.skip(1), nb, ns)
    }
}

pub open spec fn init1(width: int, start: int) -> Seq<bool> {
    Seq::new(width as nat, |i: int| i == start)
}

pub open spec fn part1_of(s: Seq<char>) -> int {
    sim1(levels_of(s), init1(width_of(s), start_of(s)), 0)
}

/// One level of the splitting, tracking how many beams reach each slot.
pub open spec fn step2(old: Seq<int>, next: Seq<int>, poss: Seq<int>) -> Seq<int>
    decreases poss.len(),
{
    if poss.len() == 0 {
        next
    } else {
        let p = poss[0];
        if old[p] > 0 {
            step2(
                old,
                next.update(p - 1, next[p - 1] + old[p]).update(p + 1, next[p + 1] + old[p]).update(
                    p,
                    0,
                ),
                poss.skip(1),
            )
        } else {
            step2(old, next, poss.skip(1))
        }
    }
}

/// The beam counts after all levels.
pub open spec fn sim2(levels: Seq<Seq<int>>, beams: Seq<int>) -> Seq<int>
    decreases levels.len(),
{
    if levels.len() == 0 {
        beams
    } else {
        sim2(levels.skip(1), step2(beams, beams, levels[0]))
    }
}

pub open spec fn init2(width: int, start: int) -> Seq<int> {
    Seq::new(width as nat, |i: int| if i == start {
        1int
    } else {
        0int
    })
}

pub open spec fn part2_of(s: Seq<char>) -> int {
    sum_range(sim2(levels_of(s), init2(width_of(s), start_of(s))), 0, width_of(s))
}

/// Sum of the values `old` takes at the positions in `poss`.
pub open spec fn picks(old: Seq<int>, poss: Seq<int>) -> int
    decreases poss.len(),
{
    if poss.len() == 0 {
        0
    } else {
        old[poss[0]] + picks(old, poss.skip(1))
    }
}

/// Values at distinct increasing positions sum to no more than the whole.
pub proof fn lemma_picks_le(old: Seq<int>, poss: Seq<int>, lo: int)
    requires
        forall|k: int| 0 <= k < poss.len() ==> lo <= #[trigger] poss[k] < old.len(),
        forall|k1: int, k2: int| 0 <= k1 < k2 < poss.len() ==> poss[k1] < poss[k2],
        nonneg_range(old, 0, old.len() as int),
        0 <= lo <= old.len(),
    ensures
        picks(old, poss) <= sum_range(old, lo, old.len() as int),
        picks(old, poss) >= 0,
    decreases poss.len(),
{
    let n = old.len() as int;
    if poss.len() == 0 {
        lemma_sum_range_nonneg(old, lo, n);
    } else {
        let p0 = poss[0];
        let rest = poss.skip(1);
        assert(forall|k: int| 0 <= k < rest.len() ==> #[trigger] rest[k] == poss[k + 1]);
        assert(forall|k: int| 0 <= k < rest.len() ==> p0 + 1 <= #[trigger] rest[k] < n);
        lemma_picks_le(old, rest, p0 + 1);
        lemma_sum_range_split(old, lo, p0, n);
        lemma_sum_range_split(old, p0, p0 + 1, n);
        assert(sum_range(old, p0, p0) == 0);
        assert(sum_range(old, p0, p0 + 1) == old[p0]);
        assert(nonneg_range(old, lo, p0));
        lemma_sum_range_nonneg(old, lo, p0);
        assert(old[p0] >= 0);
        assert(picks(old, poss) == old[p0] + picks(old, rest));
    }
}

/// Parse the start line and the splitter levels: `(width, start, splitters)`.
pub fn prepare(input: &str) -> (r: (usize, usize, Vec<Vec<usize>>))
    requires
        input_wf(input@),
    ensures
        r.0 == width_of(input@),
        r.1 == start_of(input@),
        r.2@.len() == levels_of(input@).len(),
        forall|li: int|
            0 <= li < r.2@.len() ==> (#[trigger] r.2@[li])@.len() == levels_of(input@)[li].len()
                && forall|k: int|
                0 <= k < r.2@[li]@.len() ==> #[trigger] r.2@[li]@[k] as int == levels_of(
                    input@,
                )[li][k],
{
    let chars = chars_vec(input);
    let lines = split_lines(&chars);
    let ghost glines = lines_of(input@);
    proof {
        assert(crate::text::views(lines@) == glines);
        assert(lines@[0]@ == glines[0]);
    }
    let line0 = &lines[0];
    let width = line0.len();
    let mut start: usize = 0;
    while start < line0.len() && line0[start] != 'S'
        invariant
            start <= line0@.len(),
            line0@ == glines[0],
            glines.len() >= 1,
            forall|k: int| 0 <= k < start ==> glines[0][k] != 'S',
        decreases line0@.len() - start,
    {
        start = start + 1;
    }
    proof {
        crate::text::lemma_sep_pos_le(glines[0], 'S');
        assert(input_wf(input@));
        assert(start_of(input@) < width_of(input@));
        if start < line0@.len() {
            assert(sep_pos(glines[0], 'S') == start) by {
                if sep_pos(glines[0], 'S') < start {
                    assert(glines[0][sep_pos(glines[0], 'S') as int] == 'S');
                }
            }
        } else {
            assert(sep_pos(glines[0], 'S') >= start);
            assert(false);
        }
    }
    let mut splitters: Vec<Vec<usize>> = Vec::new();
    let mut li: usize = 1;
    while li < lines.len()
        invariant
            1 <= li <= lines@.len(),
            crate::text::views(lines@) == glines,
            splitters@.len() == li - 1,
            glines.len() >= 1,
            forall|q: int|
                0 <= q < li - 1 ==> (#[trigger] splitters@[q])@.len() == carets(
                    glines[q + 1],
                ).len() && forall|k: int|
                    0 <= k < splitters@[q]@.len() ==> #[trigger] splitters@[q]@[k] as int
                        == carets(glines[q + 1])[k],
        decreases lines@.len() - li,
    {
        let line = &lines[li];
        proof {
            assert(line@ == glines[li as int]);
        }
        let mut poss: Vec<usize> = Vec::new();
        let mut j: usize = 0;
        proof {
            assert(line@.take(0) =~= Seq::<char>::empty());
        }
        while j < line.len()
            invariant
                j <= line@.len(),
                poss@.len() == carets(line@.take(j as int)).len(),
                forall|k: int|
                    0 <= k < poss@.len() ==> #[trigger] poss@[k] as int == carets(
                        line@.take(j as int),
                    )[k],
            decreases line@.len() - j,
        {
            proof {
                assert(line@.take(j + 1).drop_last() =~= line@.take(j as int));
                assert(line@.take(j + 1).last() == line@[j as int]);
            }
            if line[j] == '^' {
                poss.push(j);
            }
            j = j + 1;
        }
        proof {
            assert(line@.take(line@.len() as int) =~= line@);
        }
        splitters.push(poss);
        li = li + 1;
    }
    proof {
        assert(levels_of(input@).len() == glines.len() - 1);
        assert forall|q: int| 0 <= q < levels_of(input@).len() implies levels_of(input@)[q]
            == carets(glines[q + 1]) by {
            assert(glines.skip(1)[q] == glines[q + 1]);
        }
    }
    (width, start, splitters)
}

/// Count the splits that fire as the beam descends.
pub fn solve_part1(input: &str) -> (r: u64)
    requires
        input_wf(input@),
    ensures
        r as int == part1_of(input@),
        r <= 63000000,
{
    let (width, start, splitters) = prepare(input);
    let ghost glevels = levels_of(input@);
    let mut beams: Vec<bool> = Vec::new();
    let mut j: usize = 0;
    while j < width
        invariant
            j <= width,
            beams@.len() == j,
            forall|k: int| 0 <= k < j ==> #[trigger] beams@[k] == false,
        decreases width - j,
    {
        beams.push(false);
        j = j + 1;
    }
    beams.set(start, true);
    proof {
        assert(beams@ =~= init1(width_of(input@), start_of(input@)));
        assert(glevels.skip(0) =~= glevels);
    }
    let mut splits: u64 = 0;
    let mut li: usize = 0;
    while li < splitters.len()
        invariant
            li <= splitters@.len(),
            input_wf(input@),
            glevels == levels_of(input@),
            splitters@.len() == glevels.len(),
            glevels.len() <= 62,
            width == width_of(input@),
            beams@.len() == width,
            forall|q: int|
                0 <= q < splitters@.len() ==> (#[trigger] splitters@[q])@.len()
                    == glevels[q].len() && forall|k: int|
                    0 <= k < splitters@[q]@.len() ==> #[trigger] splitters@[q]@[k] as int
                        == glevels[q][k],
            splits <= li * 1000000,
            sim1(glevels, init1(width_of(input@), start_of(input@)), 0) == sim1(
                glevels.skip(li as int),
                beams@,
                splits as int,
            ),
        decreases splitters@.len() - li,
    {
        let poss = &splitters[li];
        let ghost gposs = glevels[li as int];
        let ghost gold = beams@;
        proof {
            lemma_carets_bounds(lines_of(input@)[li + 1]);
            assert(gposs == carets(lines_of(input@).skip(1)[li as int]));
            assert(lines_of(input@).skip(1)[li as int] == lines_of(input@)[li + 1]);
            assert(gposs.len() <= 1000000) by {
                if gposs.len() > 1000000 {
                    assert(forall|k1: int, k2: int|
                        0 <= k1 < k2 < gposs.len() ==> gposs[k1] < gposs[k2]);
                    lemma_increasing_len(gposs, 0, width as int);
                }
            }
            assert(gposs.skip(0) =~= gposs);
        }
        let mut next = copy_bools(&beams);
        let ghost splits0 = splits as int;
        let mut k: usize = 0;
        while k < poss.len()
            invariant
                k <= poss@.len(),
                poss@.len() == gposs.len(),
                forall|q: int| 0 <= q < poss@.len() ==> #[trigger] poss@[q] as int == gposs[q],
                forall|q: int| 0 <= q < gposs.len() ==> 1 <= #[trigger] gposs[q] < width - 1,
                beams@ == gold,
                beams@.len() == width,
                next@.len() == width,
                gposs.len() <= 1000000,
                li <= 62,
                splits0 <= li * 1000000,
                splits0 <= splits <= splits0 + k,
                step1(gold, next@, gposs.skip(k as int), splits as int) == step1(
                    gold,
                    gold,
                    gposs,
                    splits0,
                ),
            decreases poss@.len() - k,
        {
            let p = poss[k];
            proof {
                assert(gposs.skip(k as int)[0] == gposs[k as int]);
                assert(gposs.skip(k as int).skip(1) =~= gposs.skip(k + 1));
            }
            if beams[p] {
                next.set(p, false);
                next.set(p - 1, true);
                next.set(p + 1, true);
                splits = splits + 1;
            }
            k = k + 1;
        }
        proof {
            assert(gposs.skip(k as int) =~= Seq::<int>::empty());
            assert(glevels.skip(li as int)[0] == glevels[li as int]);
            assert(glevels.skip(li as int).skip(1) =~= glevels.skip(li + 1));
            assert(splits <= (li + 1) * 1000000) by (nonlinear_arith)
                requires
                    splits <= li * 1000000 + 1000000,
            ;
        }
        beams = next;
        li = li + 1;
    }
    proof {
        assert(glevels.skip(li as int) =~= Seq::<Seq<int>>::empty());
    }
    splits
}

fn copy_bools(v: &Vec<bool>) -> (r: Vec<bool>)
    ensures
        r@ == v@,
{
    let mut r: Vec<bool> = Vec::new();
    let mut i: usize = 0;
    while i < v.len()
        invariant
            i <= v@.len(),
            r@ =~= v@.take(i as int),
        decreases v@.len() - i,
    {
        r.push(v[i]);
        i = i + 1;
    }
    proof {
        assert(v@.take(v@.len() as int) =~= v@);
    }
    r
}

fn copy_u64s(v: &Vec<u64>) -> (r: Vec<u64>)
    ensures
        r@ == v@,
{
    let mut r: Vec<u64> = Vec::new();
    let mut i: usize = 0;
    while i < v.len()
        invariant
            i <= v@.len(),
            r@ =~= v@.take(i as int),
        decreases v@.len() - i,
    {
        r.push(v[i]);
        i = i + 1;
    }
    proof {
        assert(v@.take(v@.len() as int) =~= v@);
    }
    r
}

/// The beam counts as mathematical integers.
pub open spec fn counts_of(v: Seq<u64>) -> Seq<int> {
    v.map_values(|x: u64| x as int)
}

/// The counts after one splitter at `p` fires: its beams move to both sides.
pub open spec fn split_upd(gnext: Seq<int>, gold: Seq<int>, p: int) -> Seq<int> {
    gnext.update(p - 1, gnext[p - 1] + gold[p]).update(p + 1, gnext[p + 1] + gold[p]).update(p, 0)
}

/// One firing splitter keeps the level bookkeeping: the running sum stays
/// below twice the incoming sum, later splitters keep at least their
/// incoming beams, and the fold over the remaining splitters is unchanged.
proof fn lemma_split_step(gold: Seq<int>, gnext: Seq<int>, gposs: Seq<int>, k: int, width: int)
    requires
        0 <= k < gposs.len(),
        gold.len() == width,
        gnext.len() == width,
        forall|q: int| 0 <= q < gposs.len() ==> 1 <= #[trigger] gposs[q] < width - 1,
        forall|q1: int, q2: int| 0 <= q1 < q2 < gposs.len() ==> gposs[q1] < gposs[q2],
        nonneg_range(gold, 0, width),
        nonneg_range(gnext, 0, width),
        sum_range(gold, 0, width) <= 0x4000000000000000,
        sum_range(gnext, 0, width) + picks(gold, gposs.skip(k)) <= 2 * sum_range(gold, 0, width),
        forall|q: int| k <= q < gposs.len() ==> gnext[gposs[q]] >= gold[#[trigger] gposs[q]],
        gold[gposs[k]] > 0,
    ensures
        gnext[gposs[k] - 1] + gold[gposs[k]] <= u64::MAX,
        gnext[gposs[k] + 1] + gold[gposs[k]] <= u64::MAX,
        sum_range(split_upd(gnext, gold, gposs[k]), 0, width) + picks(gold, gposs.skip(k + 1))
            <= 2 * sum_range(gold, 0, width),
        forall|q: int|
            k + 1 <= q < gposs.len() ==> split_upd(gnext, gold, gposs[k])[gposs[q]] >= gold[
                #[trigger] gposs[q]
            ],
        step2(gold, gnext, gposs.skip(k)) == step2(
            gold,
            split_upd(gnext, gold, gposs[k]),
            gposs.skip(k + 1),
        ),
        nonneg_range(split_upd(gnext, gold, gposs[k]), 0, width),
{
    let p = gposs[k];
    assert(gposs.skip(k)[0] == gposs[k]);
    assert(gposs.skip(k).skip(1) =~= gposs.skip(k + 1));
    assert(picks(gold, gposs.skip(k)) == gold[p] + picks(gold, gposs.skip(k + 1)));
    lemma_picks_le_sub(gold, gposs, k, width);
    lemma_picks_le_sub(gold, gposs, k + 1, width);
    lemma_elem_le_sum_range(gnext, 0, width, p - 1);
    lemma_elem_le_sum_range(gnext, 0, width, p + 1);
    lemma_elem_le_sum_range(gnext, 0, width, p);
    lemma_elem_le_sum_range(gold, 0, width, p);
    let g1 = gnext.update(p - 1, gnext[p - 1] + gold[p]);
    let g2 = g1.update(p + 1, g1[p + 1] + gold[p]);
    let g3 = g2.update(p, 0);
    lemma_sum_range_update(gnext, 0, width, p - 1, gnext[p - 1] + gold[p]);
    lemma_sum_range_update(g1, 0, width, p + 1, g1[p + 1] + gold[p]);
    lemma_sum_range_update(g2, 0, width, p, 0);
    assert(g3 == split_upd(gnext, gold, p));
    assert(sum_range(g3, 0, width) == sum_range(gnext, 0, width) + 2 * gold[p] - gnext[p]);
    assert(gnext[p] >= gold[p]);
    assert forall|q: int| k + 1 <= q < gposs.len() implies g3[gposs[q]] >= gold[
        #[trigger] gposs[q]
    ] by {
        assert(gposs[q] > gposs[k]);
    }
}

/// Count the beams that reach the bottom, multiplicity included.
#[verifier::rlimit(100)]
pub fn solve_part2(input: &str) -> (r: u64)
    requires
        input_wf(input@),
    ensures
        r as int == part2_of(input@),
{
    let (width, start, splitters) = prepare(input);
    let ghost glevels = levels_of(input@);
    let mut beams: Vec<u64> = Vec::new();
    let mut j: usize = 0;
    while j < width
        invariant
            j <= width,
            beams@.len() == j,
            forall|k: int| 0 <= k < j ==> #[trigger] beams@[k] == 0u64,
        decreases width - j,
    {
        beams.push(0);
        j = j + 1;
    }
    beams.set(start, 1);
    let ghost ginit = init2(width_of(input@), start_of(input@));
    proof {
        assert(counts_of(beams@) =~= ginit);
        assert(glevels.skip(0) =~= glevels);
        assert(sum_range(counts_of(beams@), 0, width as int) <= pow2(0)) by {
            lemma_sum_init(counts_of(beams@), start as int, width as int);
        }
    }
    let mut li: usize = 0;
    while li < splitters.len()
        invariant
            li <= splitters@.len(),
            input_wf(input@),
            glevels == levels_of(input@),
            splitters@.len() == glevels.len(),
            glevels.len() <= 62,
            width == width_of(input@),
            beams@.len() == width,
            forall|q: int|
                0 <= q < splitters@.len() ==> (#[trigger] splitters@[q])@.len()
                    == glevels[q].len() && forall|k: int|
                    0 <= k < splitters@[q]@.len() ==> #[trigger] splitters@[q]@[k] as int
                        == glevels[q][k],
            sum_range(counts_of(beams@), 0, width as int) <= pow2(li as nat),
            sim2(glevels, ginit) == sim2(glevels.skip(li as int), counts_of(beams@)),
        decreases splitters@.len() - li,
    {
        let poss = &splitters[li];
        let ghost gposs = glevels[li as int];
        let ghost gold = counts_of(beams@);
        proof {
            lemma_carets_bounds(lines_of(input@)[li + 1]);
            assert(gposs == carets(lines_of(input@).skip(1)[li as int]));
            assert(lines_of(input@).skip(1)[li as int] == lines_of(input@)[li + 1]);
            assert(gposs.skip(0) =~= gposs);
            assert(nonneg_range(gold, 0, width as int));
            lemma_picks_le(gold, gposs, 0);
        }
        let mut next = copy_u64s(&beams);
        let ghost mut gnextv = counts_of(next@);
        proof {
            lemma_pow2_mono(li as nat, 62);
            assert(pow2(62) == 0x4000000000000000) by {
                reveal_with_fuel(pow2, 63);
            }
        }
        let mut k: usize = 0;
        while k < poss.len()
            invariant
                k <= poss@.len(),
                poss@.len() == gposs.len(),
                forall|q: int| 0 <= q < poss@.len() ==> #[trigger] poss@[q] as int == gposs[q],
                forall|q: int| 0 <= q < gposs.len() ==> 1 <= #[trigger] gposs[q] < width - 1,
                forall|q1: int, q2: int| 0 <= q1 < q2 < gposs.len() ==> gposs[q1] < gposs[q2],
                beams@.len() == width,
                next@.len() == width,
                gold == counts_of(beams@),
                gnextv == counts_of(next@),
                nonneg_range(gold, 0, width as int),
                nonneg_range(gnextv, 0, width as int),
                sum_range(gold, 0, width as int) <= 0x4000000000000000,
                sum_range(gnextv, 0, width as int) + picks(gold, gposs.skip(k as int)) <= 2
                    * sum_range(gold, 0, width as int),
                forall|q: int|
                    k <= q < gposs.len() ==> gnextv[gposs[q]] >= gold[#[trigger] gposs[q]],
                step2(gold, gnextv, gposs.skip(k as int)) == step2(gold, gold, gposs),
            decreases poss@.len() - k,
        {
            let p = poss[k];
            proof {
                assert(gnextv[p as int] == next@[p as int] as int);
                assert(gold[p as int] == beams@[p as int] as int);
            }
            if beams[p] > 0 {
                proof {
                    lemma_split_step(gold, gnextv, gposs, k as int, width as int);
                    assert(gnextv[p - 1] == next@[p - 1] as int);
                }
                let bp = beams[p];
                let a1 = next[p - 1] + bp;
                next.set(p - 1, a1);
                proof {
                    assert(next@[p + 1] as int == gnextv[p + 1]);
                }
                let a2 = next[p + 1] + bp;
                next.set(p + 1, a2);
                next.set(p, 0);
                proof {
                    let ghost g3 = split_upd(gnextv, gold, p as int);
                    assert(counts_of(next@) =~= g3);
                    gnextv = g3;
                }
            } else {
                proof {
                    assert(gold[p as int] == 0);
                    assert(gposs.skip(k as int)[0] == gposs[k as int]);
                    assert(gposs.skip(k as int).skip(1) =~= gposs.skip(k + 1));
                    assert(picks(gold, gposs.skip(k as int)) == gold[p as int] + picks(
                        gold,
                        gposs.skip(k + 1),
                    ));
                    lemma_picks_le_sub(gold, gposs, k + 1, width as int);
                }
            }
            k = k + 1;
        }
        proof {
            assert(gposs.skip(k as int) =~= Seq::<int>::empty());
            assert(glevels.skip(li as int)[0] == glevels[li as int]);
            assert(glevels.skip(li as int).skip(1) =~= glevels.skip(li + 1));
            lemma_picks_le(gold, gposs, 0);
            assert(sum_range(counts_of(next@), 0, width as int) <= pow2((li + 1) as nat)) by {
                assert(pow2((li + 1) as nat) == 2 * pow2(li as nat));
                assert(sum_range(gold, 0, width as int) <= pow2(li as nat));
            }
        }
        beams = next;
        li = li + 1;
    }
    proof {
        assert(glevels.skip(li as int) =~= Seq::<Seq<int>>::empty());
        assert(counts_of(beams@) == sim2(glevels, ginit));
        lemma_pow2_mono(li as nat, 62);
        assert(pow2(62) == 0x4000000000000000) by {
            reveal_with_fuel(pow2, 63);
        }
    }
    let mut total: u64 = 0;
    let mut j2: usize = 0;
    proof {
        assert(nonneg_range(counts_of(beams@), 0, width as int));
    }
    while j2 < width
        invariant
            j2 <= width,
            beams@.len() == width,
            total as int == sum_range(counts_of(beams@), 0, j2 as int),
            sum_range(counts_of(beams@), 0, width as int) <= 0x4000000000000000,
            nonneg_range(counts_of(beams@), 0, width as int),
        decreases width - j2,
    {
        proof {
            lemma_sum_range_split(counts_of(beams@), 0, j2 + 1, width as int);
            lemma_sum_range_nonneg(counts_of(beams@), j2 + 1, width as int);
            lemma_sum_range_nonneg(counts_of(beams@), 0, j2 as int);
        }
        total = total + beams[j2];
        j2 = j2 + 1;
    }
    total
}

/// Values at the positions of a suffix of increasing positions sum to no
/// more than the whole.
pub proof fn lemma_picks_le_sub(old: Seq<int>, poss: Seq<int>, k: int, w: int)
    requires
        0 <= k <= poss.len(),
        old.len() == w,
        forall|q: int| 0 <= q < poss.len() ==> 0 <= #[trigger] poss[q] < w,
        forall|q1: int, q2: int| 0 <= q1 < q2 < poss.len() ==> poss[q1] < poss[q2],
        nonneg_range(old, 0, w),
    ensures
        picks(old, poss.skip(k)) >= 0,
{
    let rest = poss.skip(k);
    assert(forall|q: int| 0 <= q < rest.len() ==> #[trigger] rest[q] == poss[q + k]);
    assert(forall|q1: int, q2: int| 0 <= q1 < q2 < rest.len() ==> rest[q1] < rest[q2]);
    lemma_picks_le(old, rest, 0);
}

pub proof fn lemma_sum_init(s: Seq<int>, start: int, w: int)
    requires
        s.len() == w,
        0 <= start < w,
        forall|k: int| 0 <= k < w ==> #[trigger] s[k] == (if k == start {
            1int
        } else {
            0int
        }),
    ensures
        sum_range(s, 0, w) == 1,
    decreases w,
{
    if w > start + 1 {
        lemma_sum_init(s.take(w - 1), start, w - 1);
        lemma_sum_range_same(s.take(w - 1), s, 0, w - 1);
    } else {
        lemma_sum_zeros(s, 0, start);
    }
}

pub proof fn lemma_sum_zeros(s: Seq<int>, lo: int, hi: int)
    requires
        forall|k: int| lo <= k < hi ==> #[trigger] s[k] == 0,
    ensures
        sum_range(s, lo, hi) == 0,
    decreases hi - lo,
{
    if hi > lo {
        lemma_sum_zeros(s, lo, hi - 1);
    }
}

pub fn solve(input: String) -> (r: SolutionPair)
    requires
        input_wf(input@),
    ensures
        r.0 matches Solution::Usize(a) && a as int == part1_of(input@),
        r.1 matches Solution::U64(b) && b as int == part2_of(input@),
{
    let sol1 = solve_part1(&input) as usize;
    let sol2 = solve_part2(&input);
    (Solution::from(sol1), Solution::from(sol2))
}

/// A strictly increasing integer sequence within a range is no longer than
/// the range.
pub proof fn lemma_increasing_len(s: Seq<int>, lo: int, hi: int)
    requires
        lo <= hi,
        forall|k: int| 0 <= k < s.len() ==> lo <= #[trigger] s[k] < hi,
        forall|k1: int, k2: int| 0 <= k1 < k2 < s.len() ==> s[k1] < s[k2],
    ensures
        s.len() <= hi - lo,
    decreases s.len(),
{
    if s.len() > 0 {
        let rest = s.skip(1);
        assert(forall|k: int| 0 <= k < rest.len() ==> #[trigger] rest[k] == s[k + 1]);
        assert(forall|k: int| 0 <= k < rest.len() ==> s[0] + 1 <= #[trigger] rest[k] < hi);
        assert(forall|k1: int, k2: int| 0 <= k1 < k2 < rest.len() ==> rest[k1] < rest[k2]);
        assert(lo <= s[0] < hi);
        lemma_increasing_len(rest, s[0] + 1, hi);
    }
}

} // verus!
