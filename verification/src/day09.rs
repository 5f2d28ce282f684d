use crate::arith::lemma_to_multiset_insert;
use crate::solution::Solution;
use crate::text::{chars_vec, copy_range, parse_i64, sep_pos, signed_val, split_tokens, tokens};
use crate::SolutionPair;
use vstd::prelude::*;

verus! {

/// A red floor tile, by its (x, y) coordinates.
#[derive(Debug, Clone, Copy, PartialEq, Eq, Structural)]
pub struct Tile(pub i64, pub i64);

/// A tile token: `<signed>,<signed>` with both coordinates within a
/// comfortable range.
pub open spec fn tile_wf(t: Seq<char>) -> bool {
    let p = sep_pos(t, ',') as int;
    &&& p < t.len()
    &&& signed_val(t.take(p)) is Some
    &&& signed_val(t.skip(p + 1)) is Some
    &&& -1000000000 <= signed_val(t.take(p)).unwrap() <= 1000000000
    &&& -1000000000 <= signed_val(t.skip(p + 1)).unwrap() <= 1000000000
}

pub open spec fn tile_of(t: Seq<char>) -> (int, int) {
    let p = sep_pos(t, ',') as int;
    (signed_val(t.take(p)).unwrap(), signed_val(t.skip(p + 1)).unwrap())
}

pub open spec fn tiles_of(s: Seq<char>) -> Seq<(int, int)> {
    tokens(s).map_values(|t: Seq<char>| tile_of(t))
}

pub open spec fn input_wf(s: Seq<char>) -> bool {
    &&& tokens(s).len() >= 1
    &&& forall|i: int| 0 <= i < tokens(s).len() ==> tile_wf(#[trigger] tokens(s)[i])
}

/// Top-left and bottom-right corners of the rectangle two tiles span.
pub open spec fn norm(a: (int, int), b: (int, int)) -> ((int, int), (int, int)) {
    (
        (if a.0 <= b.0 { a.0 } else { b.0 }, if a.1 <= b.1 { a.1 } else { b.1 }),
        (if a.0 >= b.0 { a.0 } else { b.0 }, if a.1 >= b.1 { a.1 } else { b.1 }),
    )
}

/// The number of tiles the rectangle spanned by two tiles covers.
pub open spec fn pair_area(a: (int, int), b: (int, int)) -> int {
    (norm(a, b).1.0 - norm(a, b).0.0 + 1) * (norm(a, b).1.1 - norm(a, b).0.1 + 1)
}

/// The k-th border segment of the outer shape: consecutive tiles, and the
/// closing segment from the first tile to the last.
pub open spec fn seg(ts: Seq<(int, int)>, k: int) -> ((int, int), (int, int)) {
    if k < ts.len() - 1 {
        norm(ts[k], ts[k + 1])
    } else {
        norm(ts[0], ts[ts.len() - 1])
    }
}

/// Strict intersection of a normalized axis-parallel segment with the open
/// interior of the rectangle with corners `c1` (top-left) and `c2`
/// (bottom-right).
pub open spec fn crosses(s: ((int, int), (int, int)), c1: (int, int), c2: (int, int)) -> bool {
    ||| (s.0.1 == s.1.1 && s.0.1 > c1.1 && s.1.1 < c2.1 && s.0.0 < c2.0 && s.1.0 > c1.0)
    ||| (s.0.0 == s.1.0 && s.0.0 > c1.0 && s.1.0 < c2.0 && s.0.1 < c2.1 && s.1.1 > c1.1)
}

/// Whether no border segment strictly crosses the rectangle with the given
/// corners.
pub open spec fn clear(ts: Seq<(int, int)>, c1: (int, int), c2: (int, int)) -> bool {
    forall|k: int| 0 <= k < ts.len() ==> !crosses(#[trigger] seg(ts, k), c1, c2)
}

/// Parse the red tiles.
pub fn prepare(input: &str) -> (r: Vec<Tile>)
    requires
        input_wf(input@),
    ensures
        r@.len() == tiles_of(input@).len(),
        forall|i: int|
            0 <= i < r@.len() ==> (#[trigger] r@[i]).0 as int == tiles_of(input@)[i].0
                && r@[i].1 as int == tiles_of(input@)[i].1,
{
    let chars = chars_vec(input);
    let toks = split_tokens(&chars);
    let mut r: Vec<Tile> = Vec::new();
    let mut i: usize = 0;
    while i < toks.len()
        invariant
            i <= toks@.len(),
            crate::text::views(toks@) == tokens(input@),
            input_wf(input@),
            r@.len() == i,
            forall|k: int|
                0 <= k < i ==> (#[trigger] r@[k]).0 as int == tiles_of(input@)[k].0 && r@[k].1 as int
                    == tiles_of(input@)[k].1,
        decreases toks@.len() - i,
    {
        let t = &toks[i];
        proof {
            assert(t@ == crate::text::views(toks@)[i as int]);
            assert(tile_wf(tokens(input@)[i as int]));
        }
        let n = t.len();
        let mut p: usize = 0;
        while p < n && t[p] != ','
            invariant
                p <= n == t@.len(),
                forall|k: int| 0 <= k < p ==> t@[k] != ',',
            decreases n - p,
        {
            p = p + 1;
        }
        proof {
            crate::text::lemma_sep_pos_le(t@, ',');
            if p < n {
                assert(sep_pos(t@, ',') == p) by {
                    if sep_pos(t@, ',') < p {
                        assert(t@[sep_pos(t@, ',') as int] == ',');
                    }
                }
            } else {
                assert(sep_pos(t@, ',') == n);
                assert(false);
            }
        }
        let xs = copy_range(t, 0, p);
        let ys = copy_range(t, p + 1, n);
        proof {
            assert(xs@ =~= t@.take(p as int));
            assert(ys@ =~= t@.skip(p + 1));
        }
        let x = match parse_i64(&xs) {
            Some(v) => v,
            None => {
                proof {
                    assert(false);
                }
                0
            },
        };
        let y = match parse_i64(&ys) {
            Some(v) => v,
            None => {
                proof {
                    assert(false);
                }
                0
            },
        };
        proof {
            assert(tiles_of(input@)[i as int] == tile_of(t@));
        }
        r.push(Tile(x, y));
        i = i + 1;
    }
    r
}

/// Take two opposite corners of a rectangle and return the top-left and
/// bottom-right corners.
pub fn normalize_corners(a: &Tile, b: &Tile) -> (r: (Tile, Tile))
    ensures
        r.0.0 as int == norm((a.0 as int, a.1 as int), (b.0 as int, b.1 as int)).0.0,
        r.0.1 as int == norm((a.0 as int, a.1 as int), (b.0 as int, b.1 as int)).0.1,
        r.1.0 as int == norm((a.0 as int, a.1 as int), (b.0 as int, b.1 as int)).1.0,
        r.1.1 as int == norm((a.0 as int, a.1 as int), (b.0 as int, b.1 as int)).1.1,
{
    let tl = Tile(if a.0 <= b.0 { a.0 } else { b.0 }, if a.1 <= b.1 { a.1 } else { b.1 });
    let br = Tile(if a.0 >= b.0 { a.0 } else { b.0 }, if a.1 >= b.1 { a.1 } else { b.1 });
    (tl, br)
}

/// The normalized rectangle of a tile pair together with its area, as a
/// value over the parsed coordinates.
pub open spec fn rect_val(ts: Seq<(int, int)>, i: int, j: int) -> (
    (int, int),
    (int, int),
    int,
) {
    (norm(ts[i], ts[j]).0, norm(ts[i], ts[j]).1, pair_area(ts[i], ts[j]))
}

/// Some tile pair spans a rectangle of exactly this area.
pub open spec fn achieved(ts: Seq<(int, int)>, n: int, v: int) -> bool {
    exists|a: int, b: int|
        0 <= a <= b < n && v == #[trigger] pair_area(ts[a], ts[b])
}

/// Some tile pair spans an uncrossed rectangle of exactly this area.
pub open spec fn achieved_clear(ts: Seq<(int, int)>, n: int, v: int) -> bool {
    exists|a: int, b: int|
        0 <= a <= b < n && v == #[trigger] pair_area(ts[a], ts[b]) && clear(
            ts,
            norm(ts[a], ts[b]).0,
            norm(ts[a], ts[b]).1,
        )
}

/// The stored rectangle of one tile pair: normalized corners and area.
pub open spec fn rect_entry(a: Tile, b: Tile) -> (Tile, Tile, u64) {
    let tl = Tile(
        (if a.0 <= b.0 {
            a.0
        } else {
            b.0
        }),
        (if a.1 <= b.1 {
            a.1
        } else {
            b.1
        }),
    );
    let br = Tile(
        (if a.0 >= b.0 {
            a.0
        } else {
            b.0
        }),
        (if a.1 >= b.1 {
            a.1
        } else {
            b.1
        }),
    );
    (tl, br, ((br.0 - tl.0 + 1) * (br.1 - tl.1 + 1)) as u64)
}

/// One row of rectangle entries: tile `i` paired with every tile from `j` on.
pub open spec fn rect_row(tiles: Seq<Tile>, i: int, j: int) -> Seq<(Tile, Tile, u64)>
    decreases tiles.len() - j,
{
    if j >= tiles.len() {
        Seq::empty()
    } else {
        seq![rect_entry(tiles[i], tiles[j])] + rect_row(tiles, i, j + 1)
    }
}

/// All rectangle entries: one per pair (i, j) with i <= j and i below the
/// last tile, in pair order.
pub open spec fn rect_list_from(tiles: Seq<Tile>, i: int) -> Seq<(Tile, Tile, u64)>
    decreases tiles.len() - i,
{
    if i >= tiles.len() - 1 {
        Seq::empty()
    } else {
        rect_row(tiles, i, i) + rect_list_from(tiles, i + 1)
    }
}

pub open spec fn rect_list(tiles: Seq<Tile>) -> Seq<(Tile, Tile, u64)> {
    rect_list_from(tiles, 0)
}

pub open spec fn sorted_rects(s: Seq<(Tile, Tile, u64)>) -> bool {
    forall|k1: int, k2: int| 0 <= k1 <= k2 < s.len() ==> (#[trigger] s[k1]).2 <= (#[trigger] s[k2]).2
}

/// All coordinates of the parsed tiles are small.
pub open spec fn tiles_bounded(ts: Seq<(int, int)>) -> bool {
    forall|k: int|
        0 <= k < ts.len() ==> -1000000000 <= (#[trigger] ts[k]).0 <= 1000000000 && -1000000000
            <= ts[k].1 <= 1000000000
}

/// Generate all the rectangles as coordinates of the top-left and
/// bottom-right corners and its area `(corner1, corner2, area)`: exactly one
/// entry per tile pair (i, j) with i <= j and i before the last tile, sorted
/// by increasing area.
pub fn all_rectangles(red_tiles: &Vec<Tile>) -> (r: Vec<(Tile, Tile, u64)>)
    requires
        red_tiles@.len() >= 1,
        forall|k: int|
            0 <= k < red_tiles@.len() ==> -1000000000 <= (#[trigger] red_tiles@[k]).0
                <= 1000000000 && -1000000000 <= red_tiles@[k].1 <= 1000000000,
    ensures
        sorted_rects(r@),
        r@.to_multiset() == rect_list(red_tiles@).to_multiset(),
{
    let tiles = red_tiles;
    let n = tiles.len();
    let mut gen: Vec<(Tile, Tile, u64)> = Vec::new();
    let mut i: usize = 0;
    proof {
        assert(gen@ + rect_list_from(tiles@, 0) =~= rect_list(tiles@));
    }
    while i < n - 1
        invariant
            i <= n - 1 || (i == 0 && n == 1),
            n == tiles@.len() >= 1,
            forall|k: int|
                0 <= k < tiles@.len() ==> -1000000000 <= (#[trigger] tiles@[k]).0 <= 1000000000
                    && -1000000000 <= tiles@[k].1 <= 1000000000,
            rect_list(tiles@) == gen@ + rect_list_from(tiles@, i as int),
        decreases n - i,
    {
        let mut j: usize = i;
        proof {
            assert(rect_list_from(tiles@, i as int) == rect_row(tiles@, i as int, i as int)
                + rect_list_from(tiles@, i + 1));
            assert(gen@ + (rect_row(tiles@, i as int, i as int) + rect_list_from(tiles@, i + 1))
                =~= (gen@ + rect_row(tiles@, i as int, i as int)) + rect_list_from(
                tiles@,
                i + 1,
            ));
        }
        while j < n
            invariant
                i <= j <= n == tiles@.len(),
                i < n - 1,
                forall|k: int|
                    0 <= k < tiles@.len() ==> -1000000000 <= (#[trigger] tiles@[k]).0
                        <= 1000000000 && -1000000000 <= tiles@[k].1 <= 1000000000,
                rect_list(tiles@) == (gen@ + rect_row(tiles@, i as int, j as int))
                    + rect_list_from(tiles@, i + 1),
            decreases n - j,
        {
            let a = tiles[i];
            let b = tiles[j];
            let (tl, br) = normalize_corners(&a, &b);
            proof {
                assert((br.0 - tl.0 + 1) * (br.1 - tl.1 + 1) <= 0x7fffffffffffffff
                    && (br.0 - tl.0 + 1) * (br.1 - tl.1 + 1) >= 1) by (nonlinear_arith)
                    requires
                        0 <= br.0 - tl.0 <= 2000000000,
                        0 <= br.1 - tl.1 <= 2000000000,
                ;
            }
            let area = ((br.0 - tl.0 + 1) * (br.1 - tl.1 + 1)) as u64;
            let entry = (tl, br, area);
            proof {
                assert(entry == rect_entry(tiles@[i as int], tiles@[j as int]));
                assert(rect_row(tiles@, i as int, j as int) == seq![entry] + rect_row(
                    tiles@,
                    i as int,
                    j + 1,
                ));
            }
            let ghost old_gen = gen@;
            gen.push(entry);
            proof {
                assert((old_gen + rect_row(tiles@, i as int, j as int)) =~= gen@ + rect_row(
                    tiles@,
                    i as int,
                    j + 1,
                ));
            }
            j = j + 1;
        }
        proof {
            assert(rect_row(tiles@, i as int, n as int) =~= Seq::<(Tile, Tile, u64)>::empty());
            assert(gen@ + rect_row(tiles@, i as int, n as int) =~= gen@);
        }
        i = i + 1;
    }
    proof {
        assert(rect_list_from(tiles@, i as int) =~= Seq::<(Tile, Tile, u64)>::empty());
        assert(gen@ =~= rect_list(tiles@));
    }
    let r = sort_rects(gen);
    r
}

/// The coordinate values of the stored tiles.
pub open spec fn tile_vals(ts: Seq<Tile>) -> Seq<(int, int)> {
    ts.map_values(|t: Tile| (t.0 as int, t.1 as int))
}

/// Sort rectangles by increasing area, keeping exactly the same entries.
fn sort_rects(v: Vec<(Tile, Tile, u64)>) -> (r: Vec<(Tile, Tile, u64)>)
    ensures
        sorted_rects(r@),
        r@.to_multiset() == v@.to_multiset(),
{
    let mut out: Vec<(Tile, Tile, u64)> = Vec::new();
    let mut i: usize = 0;
    proof {
        broadcast use vstd::seq_lib::group_to_multiset_ensures;

        assert(v@.take(0) =~= Seq::<(Tile, Tile, u64)>::empty());
        assert(out@.to_multiset() =~= v@.take(0).to_multiset());
    }
    while i < v.len()
        invariant
            i <= v@.len(),
            sorted_rects(out@),
            out@.to_multiset() == v@.take(i as int).to_multiset(),
        decreases v@.len() - i,
    {
        let e = v[i];
        let mut pos: usize = 0;
        while pos < out.len() && out[pos].2 <= e.2
            invariant
                pos <= out@.len(),
                forall|k: int| 0 <= k < pos ==> (#[trigger] out@[k]).2 <= e.2,
                sorted_rects(out@),
            decreases out@.len() - pos,
        {
            pos = pos + 1;
        }
        let ghost old_out = out@;
        out.insert(pos, e);
        proof {
            broadcast use vstd::seq_lib::group_to_multiset_ensures;

            lemma_to_multiset_insert(old_out, pos as int, e);
            assert(v@.take(i + 1).drop_last() =~= v@.take(i as int));
            assert(v@.take(i + 1) =~= v@.take(i as int).push(v@[i as int]));
            assert(out@.to_multiset() =~= v@.take(i + 1).to_multiset());
            assert forall|k1: int, k2: int| 0 <= k1 <= k2 < out@.len() implies (
            #[trigger] out@[k1]).2 <= (#[trigger] out@[k2]).2 by {
                if k1 < pos && k2 == pos {
                    assert(out@[k1] == old_out[k1]);
                } else if k1 == pos && k2 > pos {
                    assert(out@[k2] == old_out[k2 - 1]);
                    assert(old_out[pos as int].2 > e.2);
                } else if k1 < pos && k2 > pos {
                    assert(out@[k1] == old_out[k1]);
                    assert(out@[k2] == old_out[k2 - 1]);
                } else if k1 != pos && k2 != pos {
                    assert(out@[k1] == old_out[if k1 < pos {
                        k1
                    } else {
                        k1 - 1
                    }]);
                    assert(out@[k2] == old_out[if k2 < pos {
                        k2
                    } else {
                        k2 - 1
                    }]);
                }
            }
        }
        i = i + 1;
    }
    proof {
        assert(v@.take(v@.len() as int) =~= v@);
    }
    out
}

/// The area of the largest rectangle two red tiles span.
pub fn solve_part1(input: &str) -> (r: u64)
    requires
        input_wf(input@),
    ensures
        exists|i: int, j: int|
            0 <= i <= j < tiles_of(input@).len() && r as int == pair_area(
                #[trigger] tiles_of(input@)[i],
                #[trigger] tiles_of(input@)[j],
            ),
        forall|i: int, j: int|
            0 <= i <= j < tiles_of(input@).len() ==> pair_area(
                #[trigger] tiles_of(input@)[i],
                #[trigger] tiles_of(input@)[j],
            ) <= r,
{
    let red_tiles = prepare(input);
    let ghost ts = tiles_of(input@);
    proof {
        lemma_tiles_bounded(input@);
        assert(tile_vals(red_tiles@) =~= ts);
    }
    let n = red_tiles.len();
    let mut best: u64 = 1;
    proof {
        let t0 = ts[0];
        assert(norm(t0, t0).0 == t0 && norm(t0, t0).1 == t0);
        assert((t0.0 - t0.0 + 1) * (t0.1 - t0.1 + 1) == 1) by (nonlinear_arith);
        assert(pair_area(t0, t0) == (t0.0 - t0.0 + 1) * (t0.1 - t0.1 + 1));
        assert(pair_area(ts[0], ts[0]) == 1);
        assert(achieved(ts, n as int, 1));
    }
    let mut i: usize = 0;
    while i < n
        invariant
            i <= n == red_tiles@.len(),
            n >= 1,
            ts == tiles_of(input@),
            ts == tile_vals(red_tiles@),
            tiles_bounded(ts),
            achieved(ts, n as int, best as int),
            forall|a: int, b: int|
                0 <= a <= b < n && a < i ==> pair_area(#[trigger] ts[a], #[trigger] ts[b])
                    <= best,
        decreases n - i,
    {
        let mut j: usize = i;
        while j < n
            invariant
                i <= j <= n == red_tiles@.len(),
                i < n,
                ts == tiles_of(input@),
                ts == tile_vals(red_tiles@),
                tiles_bounded(ts),
                achieved(ts, n as int, best as int),
                forall|a: int, b: int|
                    0 <= a <= b < n && a < i ==> pair_area(#[trigger] ts[a], #[trigger] ts[b])
                        <= best,
                forall|b: int|
                    i <= b < j ==> pair_area(ts[i as int], #[trigger] ts[b]) <= best,
            decreases n - j,
        {
            let a = red_tiles[i];
            let b = red_tiles[j];
            let (tl, br) = normalize_corners(&a, &b);
            proof {
                assert(ts[i as int] == (a.0 as int, a.1 as int));
                assert(ts[j as int] == (b.0 as int, b.1 as int));
                assert((br.0 - tl.0 + 1) * (br.1 - tl.1 + 1) <= 0x7fffffffffffffff
                    && (br.0 - tl.0 + 1) * (br.1 - tl.1 + 1) >= 1) by (nonlinear_arith)
                    requires
                        0 <= br.0 - tl.0 <= 2000000000,
                        0 <= br.1 - tl.1 <= 2000000000,
                ;
            }
            let area = ((br.0 - tl.0 + 1) * (br.1 - tl.1 + 1)) as u64;
            proof {
                assert(area as int == pair_area(ts[i as int], ts[j as int]));
            }
            if area > best {
                best = area;
                proof {
                    assert(achieved(ts, n as int, best as int));
                }
            }
            j = j + 1;
        }
        i = i + 1;
    }
    proof {
        let (a, b) = choose|a: int, b: int|
            0 <= a <= b < n && best as int == #[trigger] pair_area(ts[a], ts[b]);
        assert(best as int == pair_area(ts[a], ts[b]));
    }
    best
}

pub proof fn lemma_tiles_bounded(s: Seq<char>)
    requires
        input_wf(s),
    ensures
        tiles_bounded(tiles_of(s)),
{
    assert forall|k: int| 0 <= k < tiles_of(s).len() implies -1000000000 <= (
    #[trigger] tiles_of(s)[k]).0 <= 1000000000 && -1000000000 <= tiles_of(s)[k].1
        <= 1000000000 by {
        assert(tile_wf(tokens(s)[k]));
        assert(tiles_of(s)[k] == tile_of(tokens(s)[k]));
    }
}

/// Generate all the segments of the outer shape.
///
/// Segment's endpoint are normalized as `(top-left, bottom-right)`.
pub fn all_segments(red_tiles: &Vec<Tile>) -> (r: Vec<(Tile, Tile)>)
    requires
        red_tiles@.len() >= 1,
    ensures
        r@.len() == red_tiles@.len(),
        forall|k: int|
            0 <= k < r@.len() ==> ((#[trigger] r@[k]).0.0 as int, r@[k].0.1 as int) == seg(
                tile_vals(red_tiles@),
                k,
            ).0 && (r@[k].1.0 as int, r@[k].1.1 as int) == seg(tile_vals(red_tiles@), k).1,
{
    let ghost ts = tile_vals(red_tiles@);
    let n = red_tiles.len();
    let mut segments: Vec<(Tile, Tile)> = Vec::new();
    let mut k: usize = 0;
    while k + 1 < n
        invariant
            k < n == red_tiles@.len() || (k == 0 && n == 1),
            ts == tile_vals(red_tiles@),
            segments@.len() == k,
            forall|q: int|
                0 <= q < k ==> ((#[trigger] segments@[q]).0.0 as int, segments@[q].0.1 as int)
                    == seg(ts, q).0 && (segments@[q].1.0 as int, segments@[q].1.1 as int) == seg(
                    ts,
                    q,
                ).1,
        decreases n - k,
    {
        let a = red_tiles[k];
        let b = red_tiles[k + 1];
        let s = normalize_corners(&a, &b);
        proof {
            assert(ts[k as int] == (a.0 as int, a.1 as int));
            assert(ts[k + 1] == (b.0 as int, b.1 as int));
        }
        segments.push(s);
        k = k + 1;
    }
    let first = red_tiles[0];
    let last = red_tiles[n - 1];
    let s = normalize_corners(&first, &last);
    proof {
        assert(ts[0] == (first.0 as int, first.1 as int));
        assert(ts[n - 1] == (last.0 as int, last.1 as int));
    }
    segments.push(s);
    segments
}

/// Test strict intersection of segment with a rectangle.
///
/// Segments are expected to be either vertical or horizontal.
pub fn segment_intersects_rectangle(segment: &(Tile, Tile), c1: &Tile, c2: &Tile) -> (r: bool)
    ensures
        r == crosses(
            ((segment.0.0 as int, segment.0.1 as int), (segment.1.0 as int, segment.1.1 as int)),
            (c1.0 as int, c1.1 as int),
            (c2.0 as int, c2.1 as int),
        ),
{
    let s1 = &segment.0;
    let s2 = &segment.1;
    if s1.1 == s2.1 && s1.1 > c1.1 && s2.1 < c2.1 && s1.0 < c2.0 && s2.0 > c1.0 {
        return true;
    }
    if s1.0 == s2.0 && s1.0 > c1.0 && s2.0 < c2.0 && s1.1 < c2.1 && s2.1 > c1.1 {
        return true;
    }
    false
}

/// No border segment crosses a rectangle that is a single tile.
pub proof fn lemma_degenerate_clear(ts: Seq<(int, int)>, c: (int, int))
    ensures
        clear(ts, c, c),
{
}

/// Every already-examined pair whose rectangle is uncrossed has area at
/// most `v`; examined means row below `i`, or row `i` before column `jj`.
pub open spec fn clear_bound(ts: Seq<(int, int)>, n: int, i: int, jj: int, v: int) -> bool {
    forall|a: int, b: int|
        #![trigger norm(ts[a], ts[b])]
        0 <= a <= b < n && (a < i || (a == i && b < jj)) && clear(
            ts,
            norm(ts[a], ts[b]).0,
            norm(ts[a], ts[b]).1,
        ) ==> pair_area(ts[a], ts[b]) <= v
}

proof fn lemma_clear_bound_step(ts: Seq<(int, int)>, n: int, i: int, j: int, b0: int, b1: int)
    requires
        0 <= i <= j < n,
        clear_bound(ts, n, i, j, b0),
        b0 <= b1,
        clear(ts, norm(ts[i], ts[j]).0, norm(ts[i], ts[j]).1) ==> pair_area(ts[i], ts[j]) <= b1,
    ensures
        clear_bound(ts, n, i, j + 1, b1),
{
    assert forall|a: int, b: int|
        #![trigger norm(ts[a], ts[b])]
        0 <= a <= b < n && (a < i || (a == i && b < j + 1)) && clear(
            ts,
            norm(ts[a], ts[b]).0,
            norm(ts[a], ts[b]).1,
        ) implies pair_area(ts[a], ts[b]) <= b1 by {
        if !(a == i && b == j) {
            assert(pair_area(ts[a], ts[b]) <= b0);
        }
    }
}

proof fn lemma_clear_bound_row(ts: Seq<(int, int)>, n: int, i: int, v: int)
    requires
        0 <= i,
        clear_bound(ts, n, i, n, v),
    ensures
        clear_bound(ts, n, i + 1, i + 1, v),
{
    assert forall|a: int, b: int|
        #![trigger norm(ts[a], ts[b])]
        0 <= a <= b < n && (a < i + 1 || (a == i + 1 && b < i + 1)) && clear(
            ts,
            norm(ts[a], ts[b]).0,
            norm(ts[a], ts[b]).1,
        ) implies pair_area(ts[a], ts[b]) <= v by {
        assert(a < i || (a == i && b < n));
    }
}

/// Whether no stored segment crosses the rectangle with the given corners.
fn rect_is_clear(segments: &Vec<(Tile, Tile)>, ts: Ghost<Seq<(int, int)>>, tl: &Tile, br: &Tile) -> (r: bool)
    requires
        segments@.len() == ts@.len(),
        forall|k: int|
            0 <= k < segments@.len() ==> ((#[trigger] segments@[k]).0.0 as int,
            segments@[k].0.1 as int) == seg(ts@, k).0 && (segments@[k].1.0 as int,
            segments@[k].1.1 as int) == seg(ts@, k).1,
    ensures
        r == clear(ts@, (tl.0 as int, tl.1 as int), (br.0 as int, br.1 as int)),
{
    let mut k: usize = 0;
    while k < segments.len()
        invariant
            k <= segments@.len(),
            segments@.len() == ts@.len(),
            forall|q: int|
                0 <= q < segments@.len() ==> ((#[trigger] segments@[q]).0.0 as int,
                segments@[q].0.1 as int) == seg(ts@, q).0 && (segments@[q].1.0 as int,
                segments@[q].1.1 as int) == seg(ts@, q).1,
            forall|q: int|
                0 <= q < k ==> !crosses(
                    #[trigger] seg(ts@, q),
                    (tl.0 as int, tl.1 as int),
                    (br.0 as int, br.1 as int),
                ),
        decreases segments@.len() - k,
    {
        let segment = segments[k];
        if segment_intersects_rectangle(&segment, tl, br) {
            return false;
        }
        k = k + 1;
    }
    true
}

/// The area of the largest rectangle whose border no outer-shape segment
/// strictly crosses.
#[verifier::rlimit(100)]
pub fn solve_part2(input: &str) -> (r: u64)
    requires
        input_wf(input@),
    ensures
        exists|i: int, j: int|
            0 <= i <= j < tiles_of(input@).len() && r as int == pair_area(
                #[trigger] tiles_of(input@)[i],
                #[trigger] tiles_of(input@)[j],
            ) && clear(
                tiles_of(input@),
                norm(tiles_of(input@)[i], tiles_of(input@)[j]).0,
                norm(tiles_of(input@)[i], tiles_of(input@)[j]).1,
            ),
        forall|i: int, j: int|
            0 <= i <= j < tiles_of(input@).len() && clear(
                tiles_of(input@),
                norm(#[trigger] tiles_of(input@)[i], #[trigger] tiles_of(input@)[j]).0,
                norm(tiles_of(input@)[i], tiles_of(input@)[j]).1,
            ) ==> pair_area(tiles_of(input@)[i], tiles_of(input@)[j]) <= r,
{
    let red_tiles = prepare(input);
    let ghost ts = tiles_of(input@);
    proof {
        lemma_tiles_bounded(input@);
        assert(tile_vals(red_tiles@) =~= ts);
    }
    let segments = all_segments(&red_tiles);
    let n = red_tiles.len();
    let mut best: u64 = 1;
    proof {
        let t0 = ts[0];
        assert(norm(t0, t0).0 == t0 && norm(t0, t0).1 == t0);
        assert((t0.0 - t0.0 + 1) * (t0.1 - t0.1 + 1) == 1) by (nonlinear_arith);
        assert(pair_area(t0, t0) == (t0.0 - t0.0 + 1) * (t0.1 - t0.1 + 1));
        assert(pair_area(ts[0], ts[0]) == 1);
        lemma_degenerate_clear(ts, t0);
        assert(norm(t0, t0).0 == t0);
        assert(achieved_clear(ts, n as int, 1));
    }
    let mut i: usize = 0;
    while i < n
        invariant
            i <= n == red_tiles@.len(),
            n >= 1,
            ts == tiles_of(input@),
            ts == tile_vals(red_tiles@),
            tiles_bounded(ts),
            segments@.len() == ts.len(),
            forall|k: int|
                0 <= k < segments@.len() ==> ((#[trigger] segments@[k]).0.0 as int,
                segments@[k].0.1 as int) == seg(ts, k).0 && (segments@[k].1.0 as int,
                segments@[k].1.1 as int) == seg(ts, k).1,
            achieved_clear(ts, n as int, best as int),
            clear_bound(ts, n as int, i as int, i as int, best as int),
        decreases n - i,
    {
        let mut j: usize = i;
        while j < n
            invariant
                i <= j <= n == red_tiles@.len(),
                i < n,
                ts == tiles_of(input@),
                ts == tile_vals(red_tiles@),
                tiles_bounded(ts),
                segments@.len() == ts.len(),
                forall|k: int|
                    0 <= k < segments@.len() ==> ((#[trigger] segments@[k]).0.0 as int,
                    segments@[k].0.1 as int) == seg(ts, k).0 && (segments@[k].1.0 as int,
                    segments@[k].1.1 as int) == seg(ts, k).1,
                achieved_clear(ts, n as int, best as int),
                clear_bound(ts, n as int, i as int, j as int, best as int),
            decreases n - j,
        {
            let a = red_tiles[i];
            let b = red_tiles[j];
            let (tl, br) = normalize_corners(&a, &b);
            proof {
                assert(ts[i as int] == (a.0 as int, a.1 as int));
                assert(ts[j as int] == (b.0 as int, b.1 as int));
                assert((br.0 - tl.0 + 1) * (br.1 - tl.1 + 1) <= 0x7fffffffffffffff
                    && (br.0 - tl.0 + 1) * (br.1 - tl.1 + 1) >= 1) by (nonlinear_arith)
                    requires
                        0 <= br.0 - tl.0 <= 2000000000,
                        0 <= br.1 - tl.1 <= 2000000000,
                ;
            }
            let area = ((br.0 - tl.0 + 1) * (br.1 - tl.1 + 1)) as u64;
            let clear_here = rect_is_clear(&segments, Ghost(ts), &tl, &br);
            proof {
                assert(area as int == pair_area(ts[i as int], ts[j as int]));
            }
            if clear_here && area > best {
                best = area;
                proof {
                    assert(clear(
                        ts,
                        norm(ts[i as int], ts[j as int]).0,
                        norm(ts[i as int], ts[j as int]).1,
                    ));
                    assert(achieved_clear(ts, n as int, best as int));
                }
            }
            j = j + 1;
        }
        i = i + 1;
    }
    proof {
        let (a, b) = choose|a: int, b: int|
            0 <= a <= b < n && best as int == #[trigger] pair_area(ts[a], ts[b]) && clear(
                ts,
                norm(ts[a], ts[b]).0,
                norm(ts[a], ts[b]).1,
            );
        assert(best as int == pair_area(ts[a], ts[b]) && clear(
            ts,
            norm(ts[a], ts[b]).0,
            norm(ts[a], ts[b]).1,
        ));
        assert(clear_bound(ts, n as int, n as int, n as int, best as int));
    }
    best
}

pub fn solve(input: String) -> (r: SolutionPair)
    requires
        input_wf(input@),
    ensures
        r.0 matches Solution::U64(a) && exists|i: int, j: int|
            0 <= i <= j < tiles_of(input@).len() && a as int == pair_area(
                #[trigger] tiles_of(input@)[i],
                #[trigger] tiles_of(input@)[j],
            ),
        r.0 matches Solution::U64(a) ==> forall|i: int, j: int|
            0 <= i <= j < tiles_of(input@).len() ==> pair_area(
                #[trigger] tiles_of(input@)[i],
                #[trigger] tiles_of(input@)[j],
            ) <= a,
        r.1 matches Solution::U64(b) && exists|i: int, j: int|
            0 <= i <= j < tiles_of(input@).len() && b as int == pair_area(
                #[trigger] tiles_of(input@)[i],
                #[trigger] tiles_of(input@)[j],
            ) && clear(
                tiles_of(input@),
                norm(tiles_of(input@)[i], tiles_of(input@)[j]).0,
                norm(tiles_of(input@)[i], tiles_of(input@)[j]).1,
            ),
        r.1 matches Solution::U64(b) ==> forall|i: int, j: int|
            0 <= i <= j < tiles_of(input@).len() && clear(
                tiles_of(input@),
                norm(#[trigger] tiles_of(input@)[i], #[trigger] tiles_of(input@)[j]).0,
                norm(tiles_of(input@)[i], tiles_of(input@)[j]).1,
            ) ==> pair_area(tiles_of(input@)[i], tiles_of(input@)[j]) <= b,
{
    let sol1 = solve_part1(&input);
    let sol2 = solve_part2(&input);
    (Solution::from(sol1), Solution::from(sol2))
}

/// Decide the condition the solvers assume of the input: at least one
/// tile, each a comma-separated pair of signed coordinates within range.
pub fn input_ok(input: &str) -> (r: bool)
    ensures
        r == input_wf(input@),
{
    let chars = chars_vec(input);
    let toks = split_tokens(&chars);
    proof {
        assert(crate::text::views(toks@) == tokens(input@));
    }
    if toks.len() < 1 {
        return false;
    }
    let mut i: usize = 0;
    while i < toks.len()
        invariant
            i <= toks@.len(),
            crate::text::views(toks@) == tokens(input@),
            1 <= toks@.len() == tokens(input@).len(),
            forall|q: int| 0 <= q < i ==> tile_wf(#[trigger] tokens(input@)[q]),
        decreases toks@.len() - i,
    {
        let t = &toks[i];
        proof {
            assert(tokens(input@)[i as int] == toks@[i as int]@);
        }
        let n = t.len();
        let mut p: usize = 0;
        while p < n && t[p] != ','
            invariant
                p <= n == t@.len(),
                forall|k: int| 0 <= k < p ==> t@[k] != ',',
            decreases n - p,
        {
            p = p + 1;
        }
        proof {
            crate::text::lemma_sep_pos_le(t@, ',');
            if p < n {
                assert(sep_pos(t@, ',') == p) by {
                    if sep_pos(t@, ',') < p {
                        assert(t@[sep_pos(t@, ',') as int] == ',');
                    }
                }
            } else {
                assert(sep_pos(t@, ',') == n);
            }
        }
        if p >= n {
            proof {
                assert(!tile_wf(t@));
            }
            return false;
        }
        let xs = copy_range(t, 0, p);
        let ys = copy_range(t, p + 1, n);
        proof {
            assert(xs@ =~= t@.take(p as int));
            assert(ys@ =~= t@.skip(p + 1));
        }
        match parse_i64(&xs) {
            Some(v) => {
                if v < -1000000000 || v > 1000000000 {
                    return false;
                }
            },
            None => {
                return false;
            },
        }
        match parse_i64(&ys) {
            Some(v) => {
                if v < -1000000000 || v > 1000000000 {
                    return false;
                }
            },
            None => {
                return false;
            },
        }
        proof {
            assert(tile_wf(t@));
        }
        i = i + 1;
    }
    true
}

} // verus!
