use crate::arith::lemma_to_multiset_insert;
use crate::solution::Solution;
use crate::text::{
    all_digits, chars_vec, copy_range, dec_val, lines_of, parse_u64, sep_pos, split_lines, trim,
    trim_spec,
};
use crate::SolutionPair;
use vstd::prelude::*;

verus! {

/// First line index at or after `from` whose trimmed text is nonempty, or
/// the length.
pub open spec fn first_nonempty(lines: Seq<Seq<char>>, from: int) -> int
    decreases lines.len() - from,
{
    if from >= lines.len() {
        lines.len() as int
    } else if trim_spec(lines[from]).len() > 0 {
        from
    } else {
        first_nonempty(lines, from + 1)
    }
}

/// First line index at or after `from` whose trimmed text is empty, or the
/// length.
pub open spec fn first_empty(lines: Seq<Seq<char>>, from: int) -> int
    decreases lines.len() - from,
{
    if from >= lines.len() {
        lines.len() as int
    } else if trim_spec(lines[from]).len() == 0 {
        from
    } else {
        first_empty(lines, from + 1)
    }
}

pub open spec fn ranges_start(s: Seq<char>) -> int {
    first_nonempty(lines_of(s), 0)
}

pub open spec fn ranges_end(s: Seq<char>) -> int {
    first_empty(lines_of(s), ranges_start(s))
}

/// The fresh ranges, in line order.
pub open spec fn raw_ranges(s: Seq<char>) -> Seq<(int, int)> {
    lines_of(s).subrange(ranges_start(s), ranges_end(s)).map_values(
        |l: Seq<char>| range_of(trim_spec(l)),
    )
}

/// The ingredients, in line order.
pub open spec fn raw_ingredients(s: Seq<char>) -> Seq<int> {
    if ranges_end(s) + 1 <= lines_of(s).len() {
        lines_of(s).skip(ranges_end(s) + 1).map_values(|l: Seq<char>| dec_val(trim_spec(l)))
    } else {
        Seq::empty()
    }
}

pub open spec fn range_of(t: Seq<char>) -> (int, int) {
    let p = sep_pos(t, '-') as int;
    (dec_val(t.take(p)), dec_val(t.skip(p + 1)))
}

pub open spec fn range_line_wf(t: Seq<char>) -> bool {
    let p = sep_pos(t, '-') as int;
    &&& p < t.len()
    &&& all_digits(t.take(p))
    &&& t.take(p).len() >= 1
    &&& all_digits(t.skip(p + 1))
    &&& t.skip(p + 1).len() >= 1
    &&& dec_val(t.take(p)) <= u64::MAX
    &&& dec_val(t.skip(p + 1)) <= u64::MAX
}

pub open spec fn input_wf(s: Seq<char>) -> bool {
    &&& forall|i: int|
        ranges_start(s) <= i < ranges_end(s) ==> range_line_wf(
            trim_spec(#[trigger] lines_of(s)[i]),
        )
    &&& forall|i: int|
        ranges_end(s) + 1 <= i < lines_of(s).len() ==> all_digits(
            trim_spec(#[trigger] lines_of(s)[i]),
        ) && trim_spec(lines_of(s)[i]).len() >= 1 && dec_val(trim_spec(lines_of(s)[i]))
            <= u64::MAX
}

/// The range order: by increasing start, ties by decreasing end.
pub open spec fn range_le(a: (u64, u64), b: (u64, u64)) -> bool {
    a.0 < b.0 || (a.0 == b.0 && a.1 >= b.1)
}

/// Parse the fresh ranges and the ingredients; fresh ranges come sorted by
/// increasing start and decreasing end, ingredients in increasing order.
pub fn prepare(input: &str) -> (r: (Vec<(u64, u64)>, Vec<u64>))
    requires
        input_wf(input@),
    ensures
        r.0@.to_multiset() == raw_pairs(input@).to_multiset(),
        forall|k1: int, k2: int|
            0 <= k1 <= k2 < r.0@.len() ==> range_le(#[trigger] r.0@[k1], #[trigger] r.0@[k2]),
        r.1@.to_multiset() == raw_ing_u64(input@).to_multiset(),
        forall|k1: int, k2: int| 0 <= k1 <= k2 < r.1@.len() ==> r.1@[k1] <= r.1@[k2],
{
    let chars = chars_vec(input);
    let lines = split_lines(&chars);
    let ghost glines = lines_of(input@);
    proof {
        assert(crate::text::views(lines@) == glines);
    }
    // Walk to the first nonempty line.
    let mut a: usize = 0;
    while a < lines.len() && trim(&lines[a]).len() == 0
        invariant
            a <= lines@.len(),
            crate::text::views(lines@) == glines,
            glines == lines_of(input@),
            first_nonempty(glines, 0) == first_nonempty(glines, a as int),
        decreases lines@.len() - a,
    {
        proof {
            assert(lines@[a as int]@ == glines[a as int]);
        }
        a = a + 1;
    }
    proof {
        if a < lines@.len() {
            assert(lines@[a as int]@ == glines[a as int]);
        }
        assert(first_nonempty(glines, a as int) == a);
        assert(ranges_start(input@) == a);
    }
    // Read ranges until the next empty line.
    let mut fresh: Vec<(u64, u64)> = Vec::new();
    let mut b: usize = a;
    while b < lines.len() && trim(&lines[b]).len() > 0
        invariant
            a <= b <= lines@.len(),
            crate::text::views(lines@) == glines,
            glines == lines_of(input@),
            input_wf(input@),
            ranges_start(input@) == a,
            first_empty(glines, a as int) == first_empty(glines, b as int),
            forall|i: int| a <= i < b ==> trim_spec(#[trigger] glines[i]).len() > 0,
            fresh@.len() == b - a,
            forall|k: int|
                0 <= k < fresh@.len() ==> (#[trigger] fresh@[k]).0 as int == range_of(
                    trim_spec(glines[a + k]),
                ).0 && fresh@[k].1 as int == range_of(trim_spec(glines[a + k])).1,
        decreases lines@.len() - b,
    {
        let t = trim(&lines[b]);
        proof {
            assert(lines@[b as int]@ == glines[b as int]);
            assert(trim_spec(glines[b as int]).len() > 0);
            assert(first_empty(glines, b as int) == first_empty(glines, b + 1));
            lemma_first_empty_ge(glines, b + 1);
            assert((b as int) < first_empty(glines, b as int));
            assert(b < ranges_end(input@));
            assert(range_line_wf(t@));
        }
        let n = t.len();
        let mut p: usize = 0;
        while p < n && t[p] != '-'
            invariant
                p <= n == t@.len(),
                forall|k: int| 0 <= k < p ==> t@[k] != '-',
            decreases n - p,
        {
            p = p + 1;
        }
        proof {
            crate::text::lemma_sep_pos_le(t@, '-');
            if p < n {
                if sep_pos(t@, '-') < p {
                    assert(t@[sep_pos(t@, '-') as int] == '-');
                }
            }
            assert(p == sep_pos(t@, '-'));
            assert(p < n);
        }
        let lo_text = copy_range(&t, 0, p);
        let hi_text = copy_range(&t, p + 1, n);
        proof {
            assert(lo_text@ =~= t@.take(p as int));
            assert(hi_text@ =~= t@.skip(p + 1));
        }
        let lo = match parse_u64(&lo_text) {
            Some(v) => v,
            None => {
                proof {
                    assert(false);
                }
                0
            },
        };
        let hi = match parse_u64(&hi_text) {
            Some(v) => v,
            None => {
                proof {
                    assert(false);
                }
                0
            },
        };
        fresh.push((lo, hi));
        b = b + 1;
    }
    proof {
        if b < lines@.len() {
            assert(lines@[b as int]@ == glines[b as int]);
        }
        assert(first_empty(glines, b as int) == b);
        assert(ranges_end(input@) == b);
        assert(fresh@.len() == raw_pairs(input@).len());
        assert forall|k: int| 0 <= k < fresh@.len() implies #[trigger] fresh@[k] == raw_pairs(
            input@,
        )[k] by {
            assert(glines.subrange(a as int, b as int)[k] == glines[a + k]);
            assert(raw_ranges(input@)[k] == range_of(trim_spec(glines[a + k])));
        }
        assert(fresh@ =~= raw_pairs(input@));
    }
    // The ingredients.
    let mut ingredients: Vec<u64> = Vec::new();
    if b < lines.len() {
        let mut c: usize = b + 1;
        while c < lines.len()
            invariant
                b + 1 <= c <= lines@.len(),
                crate::text::views(lines@) == glines,
                glines == lines_of(input@),
                input_wf(input@),
                ranges_end(input@) == b,
                ranges_end(input@) + 1 <= lines@.len(),
                (b as int) < lines@.len(),
                ingredients@.len() == c - b - 1,
                forall|k: int|
                    0 <= k < ingredients@.len() ==> #[trigger] ingredients@[k] as int == dec_val(
                        trim_spec(glines[b + 1 + k]),
                    ),
            decreases lines@.len() - c,
        {
            let t = trim(&lines[c]);
            proof {
                assert(lines@[c as int]@ == glines[c as int]);
                assert(all_digits(t@) && t@.len() >= 1 && dec_val(t@) <= u64::MAX);
            }
            let v = match parse_u64(&t) {
                Some(x) => x,
                None => {
                    proof {
                        assert(false);
                    }
                    0
                },
            };
            ingredients.push(v);
            c = c + 1;
        }
        proof {
            assert(ingredients@.len() == raw_ing_u64(input@).len());
            assert forall|k: int| 0 <= k < ingredients@.len() implies #[trigger] ingredients@[k]
                == raw_ing_u64(input@)[k] by {
                assert(glines.skip(b + 1)[k] == glines[b + 1 + k]);
                assert(raw_ingredients(input@)[k] == dec_val(trim_spec(glines[b + 1 + k])));
            }
            assert(ingredients@ =~= raw_ing_u64(input@));
        }
    } else {
        proof {
            assert(raw_ingredients(input@).len() == 0);
            assert(ingredients@ =~= raw_ing_u64(input@));
        }
    }
    let fresh_sorted = sort_ranges(fresh);
    let ing_sorted = crate::arith::sort_u64s(ingredients);
    (fresh_sorted, ing_sorted)
}

/// The parsed ranges as machine pairs.
pub open spec fn raw_pairs(s: Seq<char>) -> Seq<(u64, u64)> {
    Seq::new(raw_ranges(s).len(), |k: int| (raw_ranges(s)[k].0 as u64, raw_ranges(s)[k].1 as u64))
}

/// The parsed ingredients as machine words.
pub open spec fn raw_ing_u64(s: Seq<char>) -> Seq<u64> {
    Seq::new(raw_ingredients(s).len(), |k: int| raw_ingredients(s)[k] as u64)
}

pub proof fn lemma_first_empty_ge(lines: Seq<Seq<char>>, from: int)
    requires
        0 <= from <= lines.len(),
    ensures
        first_empty(lines, from) >= from,
    decreases lines.len() - from,
{
    if from < lines.len() && trim_spec(lines[from]).len() > 0 {
        lemma_first_empty_ge(lines, from + 1);
    }
}

/// Sort ranges by increasing start, ties by decreasing end, keeping exactly
/// the same entries.
fn sort_ranges(v: Vec<(u64, u64)>) -> (r: Vec<(u64, u64)>)
    ensures
        r@.to_multiset() == v@.to_multiset(),
        r@.len() == v@.len(),
        forall|k1: int, k2: int|
            0 <= k1 <= k2 < r@.len() ==> range_le(#[trigger] r@[k1], #[trigger] r@[k2]),
{
    let mut out: Vec<(u64, u64)> = Vec::new();
    let mut i: usize = 0;
    proof {
        broadcast use vstd::seq_lib::group_to_multiset_ensures;

        assert(v@.take(0) =~= Seq::<(u64, u64)>::empty());
        assert(out@.to_multiset() =~= v@.take(0).to_multiset());
    }
    while i < v.len()
        invariant
            i <= v@.len(),
            out@.len() == i,
            forall|k1: int, k2: int|
                0 <= k1 <= k2 < out@.len() ==> range_le(#[trigger] out@[k1], #[trigger] out@[k2]),
            out@.to_multiset() == v@.take(i as int).to_multiset(),
        decreases v@.len() - i,
    {
        let e = v[i];
        let mut pos: usize = 0;
        while pos < out.len() && range_le_exec(&out[pos], &e)
            invariant
                pos <= out@.len(),
                forall|k: int| 0 <= k < pos ==> range_le(#[trigger] out@[k], e),
                forall|k1: int, k2: int|
                    0 <= k1 <= k2 < out@.len() ==> range_le(
                        #[trigger] out@[k1],
                        #[trigger] out@[k2],
                    ),
            decreases out@.len() - pos,
        {
            pos = pos + 1;
        }
        let ghost old_out = out@;
        out.insert(pos, e);
        proof {
            broadcast use vstd::seq_lib::group_to_multiset_ensures;

            lemma_to_multiset_insert(old_out, pos as int, e);
            assert(v@.take(i + 1) =~= v@.take(i as int).push(v@[i as int]));
            assert(out@.to_multiset() =~= v@.take(i + 1).to_multiset());
            assert forall|k1: int, k2: int| 0 <= k1 <= k2 < out@.len() implies range_le(
                #[trigger] out@[k1],
                #[trigger] out@[k2],
            ) by {
                if k1 < pos && k2 == pos {
                    assert(out@[k1] == old_out[k1]);
                } else if k1 == pos && k2 > pos {
                    assert(out@[k2] == old_out[k2 - 1]);
                    assert(!range_le(old_out[pos as int], e));
                } else if k1 < pos && k2 > pos {
                    assert(out@[k1] == old_out[k1]);
                    assert(out@[k2] == old_out[k2 - 1]);
                } else if k1 != pos && k2 != pos {
                    assert(out@[k1] == old_out[if k1 < pos {
                        k1
                    } else {
                        k1 - 1
                    }]);
                    assert(out@[k2] == old_out[if k2 < pos {
                        k2
                    } else {
                        k2 - 1
                    }]);
                }
            }
        }
        i = i + 1;
    }
    proof {
        assert(v@.take(v@.len() as int) =~= v@);
    }
    out
}

fn range_le_exec(x: &(u64, u64), y: &(u64, u64)) -> (r: bool)
    ensures
        r == range_le(*x, *y),
{
    x.0 < y.0 || (x.0 == y.0 && x.1 >= y.1)
}

/// Whether some range of the list holds the value.
pub open spec fn in_any(rs: Seq<(u64, u64)>, x: u64) -> bool {
    exists|i: int| 0 <= i < rs.len() && (#[trigger] rs[i]).0 <= x <= rs[i].1
}

/// How many listed ingredients, multiplicity counted, fall in some range.
pub open spec fn count_fresh(rs: Seq<(u64, u64)>, ing: Seq<u64>) -> int
    decreases ing.len(),
{
    if ing.len() == 0 {
        0
    } else {
        count_fresh(rs, ing.drop_last()) + (if in_any(rs, ing.last()) {
            1int
        } else {
            0int
        })
    }
}

/// Count the ingredients that fall inside some fresh range: the total does
/// not depend on the order either list is held in.
pub fn solve_part1(input: &str) -> (r: usize)
    requires
        input_wf(input@),
    ensures
        exists|ing: Seq<u64>|
            #![trigger ing.len()]
            ing.to_multiset() == raw_ing_u64(input@).to_multiset() && r as int == count_fresh(
                raw_pairs(input@),
                ing,
            ),
{
    let (fresh, ingredients) = prepare(input);
    let ghost rs0 = raw_pairs(input@);
    let ghost ing0 = raw_ing_u64(input@);
    let mut count: usize = 0;
    let mut i: usize = 0;
    proof {
        assert(ingredients@.take(0) =~= Seq::<u64>::empty());
    }
    while i < ingredients.len()
        invariant
            i <= ingredients@.len(),
            rs0 == raw_pairs(input@),
            ing0 == raw_ing_u64(input@),
            fresh@.to_multiset() == rs0.to_multiset(),
            ingredients@.to_multiset() == ing0.to_multiset(),
            count as int == count_fresh(rs0, ingredients@.take(i as int)),
            count <= i,
        decreases ingredients@.len() - i,
    {
        let x = ingredients[i];
        let mut found = false;
        let mut k: usize = 0;
        while k < fresh.len()
            invariant
                k <= fresh@.len(),
                found ==> in_any(fresh@, x),
                !found ==> forall|q: int|
                    0 <= q < k ==> !((#[trigger] fresh@[q]).0 <= x <= fresh@[q].1),
            decreases fresh@.len() - k,
        {
            let (lo, hi) = fresh[k];
            if lo <= x && x <= hi {
                found = true;
            }
            k = k + 1;
        }
        proof {
            assert(found == in_any(fresh@, x));
            lemma_in_any_multiset(fresh@, rs0, x);
            assert(ingredients@.take(i + 1).drop_last() =~= ingredients@.take(i as int));
            assert(ingredients@.take(i + 1).last() == x);
        }
        if found {
            count = count + 1;
        }
        i = i + 1;
    }
    proof {
        assert(ingredients@.take(ingredients@.len() as int) =~= ingredients@);
        lemma_count_same_stock(fresh@, rs0, ingredients@);
    }
    count
}

/// Membership in some range depends only on which ranges are listed.
pub proof fn lemma_in_any_multiset(a: Seq<(u64, u64)>, b: Seq<(u64, u64)>, x: u64)
    requires
        a.to_multiset() == b.to_multiset(),
    ensures
        in_any(a, x) == in_any(b, x),
{
    broadcast use vstd::seq_lib::group_to_multiset_ensures;

    if in_any(a, x) {
        let i = choose|i: int| 0 <= i < a.len() && (#[trigger] a[i]).0 <= x <= a[i].1;
        assert(a.contains(a[i]));
        assert(a.to_multiset().count(a[i]) > 0);
        assert(b.to_multiset().count(a[i]) > 0);
        assert(b.contains(a[i]));
        let j = choose|j: int| 0 <= j < b.len() && b[j] == a[i];
        assert(in_any(b, x));
    }
    if in_any(b, x) {
        let i = choose|i: int| 0 <= i < b.len() && (#[trigger] b[i]).0 <= x <= b[i].1;
        assert(b.contains(b[i]));
        assert(b.to_multiset().count(b[i]) > 0);
        assert(a.to_multiset().count(b[i]) > 0);
        assert(a.contains(b[i]));
        let j = choose|j: int| 0 <= j < a.len() && a[j] == b[i];
        assert(in_any(a, x));
    }
}

/// The fresh count depends only on which ranges are stocked.
pub proof fn lemma_count_same_stock(a: Seq<(u64, u64)>, b: Seq<(u64, u64)>, ing: Seq<u64>)
    requires
        a.to_multiset() == b.to_multiset(),
    ensures
        count_fresh(a, ing) == count_fresh(b, ing),
    decreases ing.len(),
{
    if ing.len() > 0 {
        lemma_count_same_stock(a, b, ing.drop_last());
        lemma_in_any_multiset(a, b, ing.last());
    }
}

/// Merge overlapping ranges: the input comes sorted by start; each
/// overlapping neighbor pair collapses to its covering range.
#[verifier::rlimit(100)]
pub fn merge_ranges(input: Vec<(u64, u64)>) -> (r: Vec<(u64, u64)>)
    requires
        forall|k1: int, k2: int|
            0 <= k1 <= k2 < input@.len() ==> (#[trigger] input@[k1]).0 <= (#[trigger] input@[k2]).0,
    ensures
        forall|x: u64| in_any(r@, x) == in_any(input@, x),
        forall|k: int| 0 <= k < r@.len() - 1 ==> (#[trigger] r@[k]).1 < r@[k + 1].0,
        forall|k1: int, k2: int|
            0 <= k1 <= k2 < r@.len() ==> (#[trigger] r@[k1]).0 <= (#[trigger] r@[k2]).0,
        (forall|k: int| 0 <= k < input@.len() ==> (#[trigger] input@[k]).0 <= input@[k].1)
            ==> forall|k: int| 0 <= k < r@.len() ==> (#[trigger] r@[k]).0 <= r@[k].1,
{
    let ghost all_valid = forall|k: int|
        0 <= k < input@.len() ==> (#[trigger] input@[k]).0 <= input@[k].1;
    let mut v = input;
    let mut i: usize = 0;
    while i < v.len() && i + 1 < v.len()
        invariant
            forall|x: u64| in_any(v@, x) == in_any(input@, x),
            forall|k1: int, k2: int|
                0 <= k1 <= k2 < v@.len() ==> (#[trigger] v@[k1]).0 <= (#[trigger] v@[k2]).0,
            forall|k: int| 0 <= k < i && k < v@.len() - 1 ==> (#[trigger] v@[k]).1 < v@[k + 1].0,
            all_valid ==> forall|k: int| 0 <= k < v@.len() ==> (#[trigger] v@[k]).0 <= v@[k].1,
            i <= v@.len(),
        decreases v@.len() - i,
    {
        let r1 = v[i];
        let r2 = v[i + 1];
        if r1.1 < r2.0 {
            i = i + 1;
        } else {
            let merged = (r1.0, if r1.1 >= r2.1 {
                r1.1
            } else {
                r2.1
            });
            let ghost old_v = v@;
            let first = v.remove(i);
            v.insert(i, merged);
            let _ = v.remove(i + 1);
            proof {
                assert(v@ =~= old_v.update(i as int, merged).remove(i + 1));
                assert forall|x: u64| in_any(v@, x) == in_any(input@, x) by {
                    assert(in_any(old_v, x) == in_any(input@, x));
                    if in_any(v@, x) {
                        let q = choose|q: int|
                            0 <= q < v@.len() && (#[trigger] v@[q]).0 <= x <= v@[q].1;
                        if q == i {
                            if x <= r1.1 {
                                assert(old_v[i as int].0 <= x <= old_v[i as int].1);
                            } else {
                                assert(old_v[i + 1].0 <= x <= old_v[i + 1].1);
                            }
                        } else if q < i {
                            assert(old_v[q].0 <= x <= old_v[q].1);
                        } else {
                            assert(old_v[q + 1].0 <= x <= old_v[q + 1].1);
                        }
                        assert(in_any(old_v, x));
                    }
                    if in_any(old_v, x) {
                        let q = choose|q: int|
                            0 <= q < old_v.len() && (#[trigger] old_v[q]).0 <= x <= old_v[q].1;
                        if q == i || q == i + 1 {
                            assert(v@[i as int].0 <= x <= v@[i as int].1);
                        } else if q < i {
                            assert(v@[q].0 <= x <= v@[q].1);
                        } else {
                            assert(v@[q - 1].0 <= x <= v@[q - 1].1);
                        }
                        assert(in_any(v@, x));
                    }
                }
                assert forall|k1: int, k2: int|
                    0 <= k1 <= k2 < v@.len() implies (#[trigger] v@[k1]).0 <= (
                #[trigger] v@[k2]).0 by {
                    let m1: int = if k1 <= i {
                        k1
                    } else {
                        k1 + 1
                    };
                    let m2: int = if k2 <= i {
                        k2
                    } else {
                        k2 + 1
                    };
                    assert(old_v[m1].0 <= old_v[m2].0);
                    if k1 == i {
                        assert(v@[k1].0 == old_v[i as int].0);
                    }
                }
            }
        }
    }
    v
}

/// The number of values the merged ranges cover: the widths of the
/// disjoint pieces added up, stopped at the top of the machine range.
pub fn solve_part2(input: &str) -> (r: u64)
    requires
        input_wf(input@),
        forall|k: int|
            0 <= k < raw_pairs(input@).len() ==> (#[trigger] raw_pairs(input@)[k]).0 <= raw_pairs(
                input@,
            )[k].1,
    ensures
        exists|m: Seq<(u64, u64)>|
            #![trigger m.len()]
            (forall|x: u64| in_any(m, x) == in_any(raw_pairs(input@), x)) && (forall|k: int|
                0 <= k < m.len() - 1 ==> (#[trigger] m[k]).1 < m[k + 1].0) && (forall|k: int|
                0 <= k < m.len() ==> (#[trigger] m[k]).0 <= m[k].1) && (if width_sum(
                m,
                m.len() as int,
            ) <= u64::MAX {
                r as int == width_sum(m, m.len() as int)
            } else {
                r == u64::MAX
            }),
{
    let (fresh, _ingredients) = prepare(input);
    proof {
        broadcast use vstd::seq_lib::group_to_multiset_ensures;

        assert forall|k: int| 0 <= k < fresh@.len() implies (#[trigger] fresh@[k]).0
            <= fresh@[k].1 by {
            assert(fresh@.contains(fresh@[k]));
            assert(fresh@.to_multiset().count(fresh@[k]) > 0);
            assert(raw_pairs(input@).to_multiset().count(fresh@[k]) > 0);
            assert(raw_pairs(input@).contains(fresh@[k]));
            let q = choose|q: int|
                0 <= q < raw_pairs(input@).len() && raw_pairs(input@)[q] == fresh@[k];
        }
    }
    let ghost gfresh = fresh@;
    let fresh_ranges = merge_ranges(fresh);
    let ghost m = fresh_ranges@;
    proof {
        assert forall|x: u64| in_any(m, x) == in_any(raw_pairs(input@), x) by {
            assert(in_any(m, x) == in_any(gfresh, x));
            lemma_in_any_multiset(gfresh, raw_pairs(input@), x);
        }
        assert(forall|k: int| 0 <= k < m.len() ==> (#[trigger] m[k]).0 <= m[k].1);
    }
    let mut total: u64 = 0;
    let mut sat = false;
    let mut i: usize = 0;
    while i < fresh_ranges.len()
        invariant
            i <= fresh_ranges@.len(),
            m == fresh_ranges@,
            forall|k: int| 0 <= k < m.len() ==> (#[trigger] m[k]).0 <= m[k].1,
            !sat ==> total as int == width_sum(m, i as int),
            sat ==> total == u64::MAX && width_sum(m, i as int) > u64::MAX,
        decreases fresh_ranges@.len() - i,
    {
        let (lo, hi) = fresh_ranges[i];
        proof {
            assert(m[i as int] == (lo, hi));
        }
        if hi < lo {
            proof {
                assert(false);
            }
            i = i + 1;
        } else {
            let width = hi - lo;
            proof {
                assert(width_sum(m, i + 1) == width_sum(m, i as int) + (width as int + 1));
                lemma_width_nonneg(m, i as int);
            }
            if width == u64::MAX {
                total = u64::MAX;
                sat = true;
            } else if sat {
            } else {
                match total.checked_add(width + 1) {
                    Some(t) => {
                        total = t;
                    },
                    None => {
                        total = u64::MAX;
                        sat = true;
                    },
                }
            }
            i = i + 1;
        }
    }
    total
}

/// The widths of the first `upto` ranges added up.
pub open spec fn width_sum(m: Seq<(u64, u64)>, upto: int) -> int
    decreases upto,
{
    if upto <= 0 {
        0
    } else {
        width_sum(m, upto - 1) + (m[upto - 1].1 - m[upto - 1].0 + 1)
    }
}

pub proof fn lemma_width_nonneg(m: Seq<(u64, u64)>, upto: int)
    requires
        forall|k: int| 0 <= k < m.len() ==> (#[trigger] m[k]).0 <= m[k].1,
        upto <= m.len(),
    ensures
        width_sum(m, upto) >= 0,
    decreases upto,
{
    if upto > 0 {
        lemma_width_nonneg(m, upto - 1);
    }
}

/// The covered total only grows with more disjoint pieces.
pub proof fn lemma_width_mono(m: Seq<(u64, u64)>, a: int, b: int)
    requires
        forall|k: int| 0 <= k < m.len() ==> (#[trigger] m[k]).0 <= m[k].1,
        0 <= a <= b <= m.len(),
    ensures
        width_sum(m, a) <= width_sum(m, b),
    decreases b - a,
{
    if a < b {
        lemma_width_mono(m, a + 1, b);
    }
}

pub fn solve(input: String) -> (r: SolutionPair)
    requires
        input_wf(input@),
        forall|k: int|
            0 <= k < raw_pairs(input@).len() ==> (#[trigger] raw_pairs(input@)[k]).0 <= raw_pairs(
                input@,
            )[k].1,
    ensures
        r.0 matches Solution::Usize(a) && exists|ing: Seq<u64>|
            #![trigger ing.len()]
            ing.to_multiset() == raw_ing_u64(input@).to_multiset() && a as int == count_fresh(
                raw_pairs(input@),
                ing,
            ),
        r.1 matches Solution::U64(b) && exists|m: Seq<(u64, u64)>|
            #![trigger m.len()]
            (forall|x: u64| in_any(m, x) == in_any(raw_pairs(input@), x)) && (forall|k: int|
                0 <= k < m.len() - 1 ==> (#[trigger] m[k]).1 < m[k + 1].0) && (forall|k: int|
                0 <= k < m.len() ==> (#[trigger] m[k]).0 <= m[k].1) && (if width_sum(
                m,
                m.len() as int,
            ) <= u64::MAX {
                b as int == width_sum(m, m.len() as int)
            } else {
                b == u64::MAX
            }),
{
    let sol1 = solve_part1(&input);
    let sol2 = solve_part2(&input);
    (Solution::from(sol1), Solution::from(sol2))
}

} // verus!
