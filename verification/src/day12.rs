use crate::solution::Solution;
use crate::text::{
    all_digits, chars_vec, copy_range, dec_val, is_digit, lines_of, parse_u64, sep_pos,
    split_lines, split_tokens, tokens, trim, trim_spec,
};
use crate::SolutionPair;
use vstd::prelude::*;

verus! {

/// One nursery region: its floor size and how many presents of each shape
/// it must hold.
#[derive(Debug, PartialEq)]
pub struct Region {
    pub width: u64,
    pub height: u64,
    pub shapes: Vec<u64>,
}

pub open spec fn is_hashdot(c: char) -> bool {
    c == '#' || c == '.'
}

/// Length of the leading run of shape characters.
pub open spec fn hd_run(s: Seq<char>) -> nat
    decreases s.len(),
{
    if s.len() == 0 || !is_hashdot(s[0]) {
        0
    } else {
        1 + hd_run(s.skip(1))
    }
}

pub proof fn lemma_hd_run_le(s: Seq<char>)
    ensures
        hd_run(s) <= s.len(),
    decreases s.len(),
{
    if s.len() > 0 && is_hashdot(s[0]) {
        lemma_hd_run_le(s.skip(1));
    }
}

/// The three-character pieces of one run of shape characters, in order;
/// a trailing shorter piece is dropped.
pub open spec fn chunk_run(t: Seq<char>) -> Seq<Seq<char>>
    decreases t.len(),
{
    if t.len() < 3 {
        Seq::empty()
    } else {
        seq![t.take(3)] + chunk_run(t.skip(3))
    }
}

/// All three-character shape pieces of the input, scanning each maximal run
/// of shape characters in order.
pub open spec fn chunks(s: Seq<char>) -> Seq<Seq<char>>
    decreases s.len(),
    via chunks_decreases
{
    if s.len() == 0 {
        Seq::empty()
    } else if !is_hashdot(s[0]) {
        chunks(s.skip(1))
    } else {
        chunk_run(s.take(hd_run(s) as int)) + chunks(s.skip(hd_run(s) as int))
    }
}

#[via_fn]
proof fn chunks_decreases(s: Seq<char>) {
    lemma_hd_run_le(s);
}

/// How many cells of a piece are filled.
pub open spec fn hashes(t: Seq<char>) -> int
    decreases t.len(),
{
    if t.len() == 0 {
        0
    } else {
        hashes(t.drop_last()) + if t.last() == '#' {
            1int
        } else {
            0int
        }
    }
}

/// The area of each shape: three pieces per shape, their filled cells added.
pub open spec fn group3(cs: Seq<Seq<char>>) -> Seq<int>
    decreases cs.len(),
{
    if cs.len() < 3 {
        Seq::empty()
    } else {
        seq![hashes(cs[0]) + hashes(cs[1]) + hashes(cs[2])] + group3(cs.skip(3))
    }
}

pub open spec fn areas_of(s: Seq<char>) -> Seq<int> {
    group3(chunks(s))
}

/// A region line, after trimming: `<digits>x<digits>: <digits and spaces>`.
pub open spec fn is_region_line(t: Seq<char>) -> bool {
    let x = sep_pos(t, 'x') as int;
    let c = sep_pos(t, ':') as int;
    &&& 1 <= x
    &&& x < c
    &&& c + 2 <= t.len()
    &&& all_digits(t.take(x))
    &&& x + 1 < c
    &&& all_digits(t.subrange(x + 1, c))
    &&& t[c + 1] == ' '
    &&& forall|k: int| c + 2 <= k < t.len() ==> is_digit(#[trigger] t[k]) || t[k] == ' '
    &&& tokens(t.skip(c + 2)).len() >= 1
}

/// The values of a region line.
pub open spec fn region_of(t: Seq<char>) -> (int, int, Seq<int>) {
    let x = sep_pos(t, 'x') as int;
    let c = sep_pos(t, ':') as int;
    (
        dec_val(t.take(x)),
        dec_val(t.subrange(x + 1, c)),
        tokens(t.skip(c + 2)).map_values(|w: Seq<char>| dec_val(w)),
    )
}

/// The region lines of the input, in order.
pub open spec fn regions_of(s: Seq<char>) -> Seq<(int, int, Seq<int>)>
    decreases lines_of(s).len(),
{
    regions_from(lines_of(s))
}

pub open spec fn regions_from(lines: Seq<Seq<char>>) -> Seq<(int, int, Seq<int>)>
    decreases lines.len(),
{
    if lines.len() == 0 {
        Seq::empty()
    } else {
        let head: Seq<(int, int, Seq<int>)> = if is_region_line(trim_spec(lines[0])) {
            seq![region_of(trim_spec(lines[0]))]
        } else {
            Seq::empty()
        };
        head + regions_from(lines.skip(1))
    }
}

pub open spec fn input_wf(s: Seq<char>) -> bool {
    &&& forall|i: int|
        0 <= i < regions_of(s).len() ==> region_fits(#[trigger] regions_of(s)[i], areas_of(s))
    &&& areas_of(s).len() <= 1000000
    &&& regions_of(s).len() <= 1000000
}

/// A region's numbers stay within machine range, its shape list refers only
/// to parsed shapes, and it falls on a decided side of the filter.
pub open spec fn region_fits(r: (int, int, Seq<int>), areas: Seq<int>) -> bool {
    &&& 0 <= r.0 <= 1000000
    &&& 0 <= r.1 <= 1000000
    &&& r.2.len() <= areas.len()
    &&& forall|k: int| 0 <= k < r.2.len() ==> 0 <= #[trigger] r.2[k] <= 1000000
    &&& (r.0 * r.1 >= 9 * seq_sum(r.2) || r.0 * r.1 < weighted_sum(r.2, areas))
}

pub open spec fn seq_sum(s: Seq<int>) -> int
    decreases s.len(),
{
    if s.len() == 0 {
        0
    } else {
        seq_sum(s.drop_last()) + s.last()
    }
}

/// The total cells the region's presents need: count of each shape times
/// that shape's area.
pub open spec fn weighted_sum(counts: Seq<int>, areas: Seq<int>) -> int
    decreases counts.len(),
{
    if counts.len() == 0 {
        0
    } else {
        weighted_sum(counts.drop_last(), areas) + counts.last() * areas[counts.len() - 1]
    }
}

/// Whether a region surely holds its presents: nine cells suffice for any
/// shape, so this is the generous bound the filter keeps.
pub open spec fn region_good(r: (int, int, Seq<int>)) -> bool {
    r.0 * r.1 >= 9 * seq_sum(r.2)
}

pub open spec fn count_good(rs: Seq<(int, int, Seq<int>)>) -> int
    decreases rs.len(),
{
    if rs.len() == 0 {
        0
    } else {
        count_good(rs.drop_last()) + if region_good(rs.last()) {
            1int
        } else {
            0int
        }
    }
}

pub open spec fn part1_of(s: Seq<char>) -> int {
    count_good(regions_of(s))
}

/// Parse the shape areas and the region lines.
pub fn prepare(input: &str) -> (r: (Vec<u64>, Vec<Region>))
    requires
        input_wf(input@),
    ensures
        r.0@.len() == areas_of(input@).len(),
        forall|i: int| 0 <= i < r.0@.len() ==> #[trigger] r.0@[i] as int == areas_of(input@)[i],
        r.1@.len() == regions_of(input@).len(),
        forall|i: int|
            0 <= i < r.1@.len() ==> (#[trigger] r.1@[i]).width as int == regions_of(input@)[i].0
                && r.1@[i].height as int == regions_of(input@)[i].1 && r.1@[i].shapes@.len()
                == regions_of(input@)[i].2.len() && forall|k: int|
                0 <= k < r.1@[i].shapes@.len() ==> #[trigger] r.1@[i].shapes@[k] as int
                    == regions_of(input@)[i].2[k],
{
    let chars = chars_vec(input);
    let areas = scan_areas(&chars);
    let lines = split_lines(&chars);
    let ghost glines = lines_of(input@);
    let mut regions: Vec<Region> = Vec::new();
    let mut li: usize = 0;
    proof {
        assert(glines.skip(0) =~= glines);
        assert(regions_of(input@) == regions_from(glines));
    }
    while li < lines.len()
        invariant
            li <= lines@.len(),
            crate::text::views(lines@) == glines,
            input_wf(input@),
            regions_of(input@) == regions_from(glines),
            regions_from(glines) == mapped(regions@) + regions_from(glines.skip(li as int)),
        decreases lines@.len() - li,
    {
        let line = &lines[li];
        proof {
            assert(line@ == glines[li as int]);
            assert(glines.skip(li as int)[0] == glines[li as int]);
            assert(glines.skip(li as int).skip(1) =~= glines.skip(li + 1));
        }
        let t = trim(line);
        let ghost old_regions = regions@;
        let parsed = parse_region(&t);
        proof {
            if is_region_line(trim_spec(line@)) {
                let this = region_of(trim_spec(line@));
                assert(regions_from(glines.skip(li as int)) == seq![this] + regions_from(
                    glines.skip(li + 1),
                ));
                assert(regions_of(input@)[old_regions.len() as int] == this) by {
                    assert(regions_from(glines)[old_regions.len() as int] == (mapped(old_regions)
                        + regions_from(glines.skip(li as int)))[old_regions.len() as int]);
                }
                assert(region_fits(this, areas_of(input@)));
            } else {
                assert(regions_from(glines.skip(li as int)) == regions_from(glines.skip(li + 1)));
            }
        }
        if let Some(region) = parsed {
            regions.push(region);
            proof {
                assert(mapped(regions@) =~= mapped(old_regions).push(
                    region_of(trim_spec(line@)),
                ));
                assert(mapped(regions@) + regions_from(glines.skip(li + 1)) =~= (mapped(
                    old_regions,
                ).push(region_of(trim_spec(line@)))) + regions_from(glines.skip(li + 1)));
                assert((seq![region_of(trim_spec(line@))] + regions_from(glines.skip(li + 1)))
                    =~= regions_from(glines.skip(li as int)));
            }
        } else {
            proof {
                if is_region_line(trim_spec(line@)) {
                    let this = region_of(trim_spec(line@));
                    assert(0 <= this.0 <= 1000000 && 0 <= this.1 <= 1000000);
                    assert(forall|k: int| 0 <= k < this.2.len() ==> 0 <= #[trigger] this.2[k]
                        <= 1000000);
                    assert(false);
                }
            }
        }
        li = li + 1;
    }
    proof {
        assert(glines.skip(li as int) =~= Seq::<Seq<char>>::empty());
        assert(regions_from(glines) =~= mapped(regions@));
    }
    (areas, regions)
}

/// The mathematical values of a list of parsed regions.
pub open spec fn mapped(rs: Seq<Region>) -> Seq<(int, int, Seq<int>)> {
    rs.map_values(
        |r: Region|
            (
                r.width as int,
                r.height as int,
                r.shapes@.map_values(|x: u64| x as int),
            ),
    )
}

/// Parse one region line if it has the region shape, after trimming.
fn parse_region(t: &Vec<char>) -> (r: Option<Region>)
    ensures
        match r {
            Some(region) => is_region_line(t@) && region.width as int == region_of(t@).0
                && region.height as int == region_of(t@).1 && region.shapes@.map_values(
                |x: u64| x as int,
            ) == region_of(t@).2 && region_of(t@).0 <= u64::MAX && region_of(t@).1 <= u64::MAX,
            None => !is_region_line(t@) || region_of(t@).0 > u64::MAX || region_of(t@).1
                > u64::MAX || exists|k: int|
                0 <= k < region_of(t@).2.len() && #[trigger] region_of(t@).2[k] > u64::MAX,
        },
{
    let n = t.len();
    let mut x: usize = 0;
    while x < n && t[x] != 'x'
        invariant
            x <= n == t@.len(),
            forall|k: int| 0 <= k < x ==> t@[k] != 'x',
        decreases n - x,
    {
        x = x + 1;
    }
    let mut c: usize = 0;
    while c < n && t[c] != ':'
        invariant
            c <= n == t@.len(),
            forall|k: int| 0 <= k < c ==> t@[k] != ':',
        decreases n - c,
    {
        c = c + 1;
    }
    proof {
        crate::text::lemma_sep_pos_le(t@, 'x');
        crate::text::lemma_sep_pos_le(t@, ':');
        if x < n {
            assert(sep_pos(t@, 'x') == x) by {
                if sep_pos(t@, 'x') < x {
                    assert(t@[sep_pos(t@, 'x') as int] == 'x');
                }
            }
        } else {
            assert(sep_pos(t@, 'x') == n);
        }
        if c < n {
            assert(sep_pos(t@, ':') == c) by {
                if sep_pos(t@, ':') < c {
                    assert(t@[sep_pos(t@, ':') as int] == ':');
                }
            }
        } else {
            assert(sep_pos(t@, ':') == n);
        }
    }
    if !(1 <= x && x < c && c < n) {
        return None;
    }
    if n - c < 2 {
        return None;
    }
    if !(x + 1 < c) {
        return None;
    }
    if t[c + 1] != ' ' {
        return None;
    }
    let wtext = copy_range(t, 0, x);
    proof {
        assert(wtext@ =~= t@.take(x as int));
    }
    let width = match parse_u64(&wtext) {
        Some(v) => v,
        None => {
            return None;
        },
    };
    let htext = copy_range(t, x + 1, c);
    proof {
        assert(htext@ =~= t@.subrange(x + 1, c as int));
    }
    let height = match parse_u64(&htext) {
        Some(v) => v,
        None => {
            return None;
        },
    };
    let rest = copy_range(t, c + 2, n);
    proof {
        assert(rest@ =~= t@.skip(c + 2));
    }
    let mut all_ok = true;
    let mut k: usize = 0;
    while k < rest.len()
        invariant
            k <= rest@.len(),
            all_ok <==> (forall|q: int| 0 <= q < k ==> is_digit(#[trigger] rest@[q]) || rest@[q]
                == ' '),
        decreases rest@.len() - k,
    {
        let ch = rest[k];
        if !(('0' <= ch && ch <= '9') || ch == ' ') {
            all_ok = false;
        }
        k = k + 1;
    }
    if !all_ok {
        return None;
    }
    let toks = split_tokens(&rest);
    if toks.len() == 0 {
        return None;
    }
    let ghost gtoks = tokens(t@.skip(c + 2));
    proof {
        assert(crate::text::views(toks@) == gtoks);
        assert(all_digits(t@.take(x as int)));
        assert(all_digits(t@.subrange(x + 1, c as int)));
        assert forall|k2: int| c + 2 <= k2 < t@.len() implies is_digit(#[trigger] t@[k2]) || t@[k2]
            == ' ' by {
            assert(rest@[k2 - (c + 2)] == t@[k2]);
        }
        assert(is_region_line(t@));
        assert forall|w: int| 0 <= w < gtoks.len() implies dec_val(#[trigger] gtoks[w]) >= 0
            && all_digits(gtoks[w]) && gtoks[w].len() > 0 by {
            lemma_token_digits(t@.skip(c + 2), w);
            lemma_token_nonempty(t@.skip(c + 2), w);
            crate::text::lemma_dec_val_nonneg(gtoks[w]);
        }
    }
    let mut shapes: Vec<u64> = Vec::new();
    let mut q: usize = 0;
    while q < toks.len()
        invariant
            q <= toks@.len(),
            crate::text::views(toks@) == gtoks,
            is_region_line(t@),
            gtoks == tokens(t@.skip(c + 2)),
            x as int == sep_pos(t@, 'x') && c as int == sep_pos(t@, ':'),
            shapes@.len() == q,
            forall|w: int| 0 <= w < q ==> #[trigger] shapes@[w] as int == dec_val(gtoks[w]),
            forall|w: int|
                0 <= w < gtoks.len() ==> dec_val(#[trigger] gtoks[w]) >= 0 && all_digits(
                    gtoks[w],
                ) && gtoks[w].len() > 0,
        decreases toks@.len() - q,
    {
        let tok = &toks[q];
        proof {
            assert(tok@ == gtoks[q as int]);
        }
        match parse_u64(tok) {
            Some(v) => {
                shapes.push(v);
            },
            None => {
                proof {
                    assert(region_of(t@).2[q as int] == dec_val(gtoks[q as int]));
                }
                return None;
            },
        }
        q = q + 1;
    }
    proof {
        assert(shapes@.map_values(|v: u64| v as int) =~= gtoks.map_values(
            |w: Seq<char>| dec_val(w),
        ));
    }
    Some(Region { width, height, shapes })
}

/// Tokens are nonempty runs of non-whitespace characters.
pub proof fn lemma_token_nonempty(s: Seq<char>, i: int)
    requires
        0 <= i < tokens(s).len(),
    ensures
        tokens(s)[i].len() > 0,
    decreases s.len(),
{
    lemma_token_facts(s, i);
}

/// Each token's characters come from the string, and none is whitespace.
pub proof fn lemma_token_digits(s: Seq<char>, i: int)
    requires
        0 <= i < tokens(s).len(),
        forall|k: int| 0 <= k < s.len() ==> is_digit(#[trigger] s[k]) || s[k] == ' ',
    ensures
        all_digits(tokens(s)[i]),
    decreases s.len(),
{
    lemma_token_facts(s, i);
    assert forall|k: int| 0 <= k < tokens(s)[i].len() implies is_digit(
        #[trigger] tokens(s)[i][k],
    ) by {
        assert(!crate::text::is_ws(tokens(s)[i][k]));
    }
}

/// Every character of every token occurs in the string and is not
/// whitespace.
pub proof fn lemma_token_facts(s: Seq<char>, i: int)
    requires
        0 <= i < tokens(s).len(),
    ensures
        tokens(s)[i].len() > 0,
        forall|k: int|
            0 <= k < tokens(s)[i].len() ==> !crate::text::is_ws(#[trigger] tokens(s)[i][k])
                && exists|j: int| 0 <= j < s.len() && s[j] == tokens(s)[i][k],
    decreases s.len(),
{
    if s.len() == 0 {
    } else if crate::text::is_ws(s[0]) {
        lemma_token_facts(s.skip(1), i);
        assert(forall|k: int|
            0 <= k < s.skip(1).len() ==> #[trigger] s.skip(1)[k] == s[k + 1]);
    } else {
        crate::text::lemma_run_len_le(s);
        let r = crate::text::run_len(s) as int;
        if i == 0 {
            assert(tokens(s)[0] == s.take(r));
            lemma_run_chars(s, r);
        } else {
            lemma_token_facts(s.skip(r), i - 1);
            assert(tokens(s)[i] == tokens(s.skip(r))[i - 1]);
            assert(forall|k: int|
                0 <= k < s.skip(r).len() ==> #[trigger] s.skip(r)[k] == s[k + r]);
        }
    }
}

/// The leading run contains no whitespace.
pub proof fn lemma_run_chars(s: Seq<char>, r: int)
    requires
        r == crate::text::run_len(s) as int,
    ensures
        forall|k: int| 0 <= k < r ==> !crate::text::is_ws(#[trigger] s[k]),
    decreases s.len(),
{
    crate::text::lemma_run_len_le(s);
    if s.len() > 0 && !crate::text::is_ws(s[0]) {
        lemma_run_chars(s.skip(1), r - 1);
        assert forall|k: int| 0 <= k < r implies !crate::text::is_ws(#[trigger] s[k]) by {
            if k > 0 {
                assert(s.skip(1)[k - 1] == s[k]);
            }
        }
    }
}

/// Scan the input for shape pieces and add up each shape's filled cells.
fn scan_areas(v: &Vec<char>) -> (r: Vec<u64>)
    ensures
        r@.len() == areas_of(v@).len(),
        forall|i: int| 0 <= i < r@.len() ==> #[trigger] r@[i] as int == areas_of(v@)[i],
{
    let mut counts: Vec<u64> = Vec::new();
    let ghost mut gchunks: Seq<Seq<char>> = Seq::empty();
    let mut i: usize = 0;
    proof {
        assert(v@.skip(0) =~= v@);
        assert(gchunks + chunks(v@) =~= chunks(v@));
    }
    while i < v.len()
        invariant
            i <= v@.len(),
            chunks(v@) == gchunks + chunks(v@.skip(i as int)),
            counts@.len() == gchunks.len(),
            forall|q: int|
                0 <= q < counts@.len() ==> #[trigger] counts@[q] as int == hashes(gchunks[q])
                    && counts@[q] <= 9,
        decreases v@.len() - i,
    {
        let c = v[i];
        if (c == '#' || c == '.') {
            let start = i;
            while i < v.len() && (v[i] == '#' || v[i] == '.')
                invariant
                    start <= i <= v@.len(),
                    hd_run(v@.skip(start as int)) == (i - start) + hd_run(v@.skip(i as int)),
                decreases v@.len() - i,
            {
                proof {
                    assert(v@.skip(i as int)[0] == v@[i as int]);
                    assert(v@.skip(i as int).skip(1) =~= v@.skip(i + 1));
                }
                i = i + 1;
            }
            proof {
                if i < v@.len() {
                    assert(v@.skip(i as int)[0] == v@[i as int]);
                }
                assert(hd_run(v@.skip(i as int)) == 0);
                assert(hd_run(v@.skip(start as int)) == i - start);
            }
            let ghost run = v@.subrange(start as int, i as int);
            proof {
                let s = v@.skip(start as int);
                assert(s[0] == v@[start as int]);
                assert(is_hashdot(s[0]));
                assert(s.take(hd_run(s) as int) =~= run);
                assert(s.skip(hd_run(s) as int) =~= v@.skip(i as int));
                assert(chunks(s) == chunk_run(run) + chunks(v@.skip(i as int)));
                assert(gchunks + chunk_run(run) + chunks(v@.skip(i as int)) =~= gchunks + chunks(
                    s,
                ));
                assert(run.skip(0) =~= run);
            }
            let mut j: usize = start;
            while i - j >= 3
                invariant
                    start <= j <= i <= v@.len(),
                    run == v@.subrange(start as int, i as int),
                    chunks(v@) == gchunks + chunk_run(run.skip(j - start)) + chunks(
                        v@.skip(i as int),
                    ),
                    counts@.len() == gchunks.len(),
                    forall|q: int|
                        0 <= q < counts@.len() ==> #[trigger] counts@[q] as int == hashes(
                            gchunks[q],
                        ) && counts@[q] <= 9,
                decreases i - j,
            {
                let mut h: u64 = 0;
                let mut w: usize = 0;
                while w < 3
                    invariant
                        w <= 3,
                        j + 3 <= i <= v@.len(),
                        start <= j,
                        run == v@.subrange(start as int, i as int),
                        h as int == hashes(run.skip(j - start).take(3).take(w as int)),
                        h <= w,
                    decreases 3 - w,
                {
                    proof {
                        let piece = run.skip(j - start).take(3);
                        assert(piece.take(w + 1).drop_last() =~= piece.take(w as int));
                        assert(piece.take(w + 1).last() == piece[w as int]);
                        assert(piece[w as int] == v@[j + w]);
                    }
                    if v[j + w] == '#' {
                        h = h + 1;
                    }
                    w = w + 1;
                }
                counts.push(h);
                proof {
                    let rs = run.skip(j - start);
                    assert(rs.len() >= 3);
                    assert(chunk_run(rs) == seq![rs.take(3)] + chunk_run(rs.skip(3)));
                    assert(rs.take(3).take(3) =~= rs.take(3));
                    gchunks = gchunks.push(rs.take(3));
                    assert(rs.skip(3) =~= run.skip(j + 3 - start));
                    assert(gchunks + chunk_run(run.skip(j + 3 - start)) + chunks(
                        v@.skip(i as int),
                    ) =~= gchunks.drop_last() + chunk_run(rs) + chunks(v@.skip(i as int)));
                }
                j = j + 3;
            }
            proof {
                assert(run.skip(j - start).len() < 3);
                assert(chunk_run(run.skip(j - start)) =~= Seq::<Seq<char>>::empty());
                assert(gchunks + Seq::<Seq<char>>::empty() + chunks(v@.skip(i as int)) =~= gchunks
                    + chunks(v@.skip(i as int)));
            }
        } else {
            proof {
                assert(v@.skip(i as int)[0] == v@[i as int]);
                assert(v@.skip(i as int).skip(1) =~= v@.skip(i + 1));
            }
            i = i + 1;
        }
    }
    proof {
        assert(v@.skip(i as int) =~= Seq::<char>::empty());
        assert(chunks(v@) =~= gchunks);
        lemma_group3_props(gchunks);
    }
    let mut areas: Vec<u64> = Vec::new();
    let mut q: usize = 0;
    while counts.len() - q >= 3
        invariant
            q <= counts@.len(),
            chunks(v@) == gchunks,
            counts@.len() == gchunks.len(),
            forall|w: int|
                0 <= w < counts@.len() ==> #[trigger] counts@[w] as int == hashes(gchunks[w])
                    && counts@[w] <= 9,
            areas@.len() * 3 == q,
            group3(gchunks).len() == gchunks.len() / 3,
            forall|w: int|
                0 <= w < group3(gchunks).len() ==> #[trigger] group3(gchunks)[w] == hashes(
                    gchunks[3 * w],
                ) + hashes(gchunks[3 * w + 1]) + hashes(gchunks[3 * w + 2]),
            forall|w: int|
                0 <= w < areas@.len() ==> #[trigger] areas@[w] as int == group3(gchunks)[w],
        decreases counts@.len() - q,
    {
        let a = counts[q] + counts[q + 1] + counts[q + 2];
        proof {
            assert(areas@.len() < group3(gchunks).len()) by {
                assert(q + 3 <= gchunks.len());
            }
            assert(3 * areas@.len() == q);
        }
        areas.push(a);
        q = q + 3;
    }
    proof {
        assert(areas@.len() == group3(gchunks).len()) by {
            assert(q + 3 > gchunks.len());
            assert(3 * areas@.len() == q);
        }
    }
    areas
}

/// The shape areas come three chunks at a time.
pub proof fn lemma_group3_props(cs: Seq<Seq<char>>)
    ensures
        group3(cs).len() == cs.len() / 3,
        forall|w: int|
            0 <= w < group3(cs).len() ==> #[trigger] group3(cs)[w] == hashes(cs[3 * w]) + hashes(
                cs[3 * w + 1],
            ) + hashes(cs[3 * w + 2]),
    decreases cs.len(),
{
    if cs.len() >= 3 {
        let rest = cs.skip(3);
        lemma_group3_props(rest);
        assert(group3(cs) == seq![hashes(cs[0]) + hashes(cs[1]) + hashes(cs[2])] + group3(rest));
        assert(cs.len() / 3 == 1 + rest.len() / 3) by (nonlinear_arith)
            requires
                cs.len() >= 3,
                rest.len() == cs.len() - 3,
        ;
        assert forall|w: int| 0 <= w < group3(cs).len() implies #[trigger] group3(cs)[w]
            == hashes(cs[3 * w]) + hashes(cs[3 * w + 1]) + hashes(cs[3 * w + 2]) by {
            if w > 0 {
                assert(group3(cs)[w] == group3(rest)[w - 1]);
                assert(rest[3 * (w - 1)] == cs[3 * w]);
                assert(rest[3 * (w - 1) + 1] == cs[3 * w + 1]);
                assert(rest[3 * (w - 1) + 2] == cs[3 * w + 2]);
            }
        }
    }
}

pub fn solve_part1(input: &str) -> (r: usize)
    requires
        input_wf(input@),
    ensures
        r as int == part1_of(input@),
{
    let (areas, regions) = prepare(input);
    let ghost grs = regions_of(input@);
    let mut count: usize = 0;
    let mut i: usize = 0;
    while i < regions.len()
        invariant
            i <= regions@.len(),
            regions@.len() == grs.len(),
            grs.len() <= 1000000,
            input_wf(input@),
            grs == regions_of(input@),
            forall|k: int|
                0 <= k < regions@.len() ==> (#[trigger] regions@[k]).width as int == grs[k].0
                    && regions@[k].height as int == grs[k].1 && regions@[k].shapes@.len()
                    == grs[k].2.len() && forall|w: int|
                    0 <= w < regions@[k].shapes@.len() ==> #[trigger] regions@[k].shapes@[w] as int
                        == grs[k].2[w],
            count as int == count_good(grs.take(i as int)),
            count <= i,
        decreases regions@.len() - i,
    {
        let region = &regions[i];
        proof {
            assert(region_fits(grs[i as int], areas_of(input@)));
            assert(region.width as int == grs[i as int].0);
            assert(region.height as int == grs[i as int].1);
            assert(region.width <= 1000000 && region.height <= 1000000);
            assert(region.width * region.height <= 1000000000000) by (nonlinear_arith)
                requires
                    region.width <= 1000000,
                    region.height <= 1000000,
            ;
            assert(region.shapes@.len() <= 1000000) by {
                assert(grs[i as int].2.len() <= areas_of(input@).len());
            }
        }
        let area = region.width * region.height;
        let mut total: u64 = 0;
        let mut k: usize = 0;
        while k < region.shapes.len()
            invariant
                k <= region.shapes@.len() <= 1000000,
                region.shapes@.len() == grs[i as int].2.len(),
                i < grs.len(),
                forall|w: int|
                    0 <= w < region.shapes@.len() ==> #[trigger] region.shapes@[w] as int
                        == grs[i as int].2[w] && 0 <= grs[i as int].2[w] <= 1000000,
                total as int == seq_sum(grs[i as int].2.take(k as int)),
                total <= k * 1000000,
            decreases region.shapes@.len() - k,
        {
            proof {
                assert(grs[i as int].2.take(k + 1).drop_last() =~= grs[i as int].2.take(
                    k as int,
                ));
                assert(grs[i as int].2.take(k + 1).last() == grs[i as int].2[k as int]);
                assert(total + region.shapes@[k as int] <= (k + 1) * 1000000) by (nonlinear_arith)
                    requires
                        total <= k * 1000000,
                        region.shapes@[k as int] <= 1000000,
                        k >= 0,
                ;
            }
            total = total + region.shapes[k];
            k = k + 1;
        }
        proof {
            assert(grs[i as int].2.take(grs[i as int].2.len() as int) =~= grs[i as int].2);
            assert(grs.take(i + 1).drop_last() =~= grs.take(i as int));
            assert(grs.take(i + 1).last() == grs[i as int]);
        }
        if area >= 9 * total {
            count = count + 1;
        }
        i = i + 1;
    }
    proof {
        assert(grs.take(i as int) =~= grs);
    }
    count
}

/// There is no second puzzle on the final day.
pub fn solve_part2(input: &str) -> (r: u64)
    ensures
        r == 0,
{
    0
}

pub fn solve(input: String) -> (r: SolutionPair)
    requires
        input_wf(input@),
    ensures
        r.0 matches Solution::Usize(a) && a as int == part1_of(input@),
        r.1 matches Solution::U64(b) && b == 0,
{
    let sol1 = solve_part1(&input);
    let sol2 = solve_part2(&input);
    (Solution::from(sol1), Solution::from(sol2))
}

} // verus!
