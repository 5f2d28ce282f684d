use crate::arith::lemma_to_multiset_insert;
use crate::solution::Solution;
use crate::text::{chars_vec, copy_range, parse_i64, sep_pos, signed_val, split_tokens, tokens};
use crate::SolutionPair;
use vstd::prelude::*;

verus! {

/// A junction box, by its three coordinates.
#[derive(Debug, Clone, Copy, PartialEq, Eq, Structural)]
pub struct Point3(pub i64, pub i64, pub i64);

/// A box token: three comma-separated signed coordinates within range.
pub open spec fn box_wf(t: Seq<char>) -> bool {
    let p = sep_pos(t, ',') as int;
    let rest = t.skip(p + 1);
    let q = sep_pos(rest, ',') as int;
    &&& p < t.len()
    &&& q < rest.len()
    &&& signed_val(t.take(p)) is Some
    &&& signed_val(rest.take(q)) is Some
    &&& signed_val(rest.skip(q + 1)) is Some
    &&& -1000000 <= signed_val(t.take(p)).unwrap() <= 1000000
    &&& -1000000 <= signed_val(rest.take(q)).unwrap() <= 1000000
    &&& -1000000 <= signed_val(rest.skip(q + 1)).unwrap() <= 1000000
}

pub open spec fn box_of(t: Seq<char>) -> (int, int, int) {
    let p = sep_pos(t, ',') as int;
    let rest = t.skip(p + 1);
    let q = sep_pos(rest, ',') as int;
    (
        signed_val(t.take(p)).unwrap(),
        signed_val(rest.take(q)).unwrap(),
        signed_val(rest.skip(q + 1)).unwrap(),
    )
}

pub open spec fn boxes_of(s: Seq<char>) -> Seq<(int, int, int)> {
    tokens(s).map_values(|t: Seq<char>| box_of(t))
}

pub open spec fn input_wf(s: Seq<char>) -> bool {
    &&& tokens(s).len() >= 2
    &&& tokens(s).len() <= 1000
    &&& forall|i: int| 0 <= i < tokens(s).len() ==> box_wf(#[trigger] tokens(s)[i])
}

/// The squared Euclidean distance between two boxes; ordering by it orders
/// by distance.
pub open spec fn dist2(p: (int, int, int), q: (int, int, int)) -> int {
    (p.0 - q.0) * (p.0 - q.0) + (p.1 - q.1) * (p.1 - q.1) + (p.2 - q.2) * (p.2 - q.2)
}

// ---------------------------------------------------------------------------
// The union-find structure of the partitions crate, under trusted contracts.
// ---------------------------------------------------------------------------

#[verifier::external_type_specification]
#[verifier::external_body]
#[verifier::reject_recursive_types(T)]
pub struct ExPartitionVec<T>(partitions::PartitionVec<T>);

/// The union-find structure over element indices.
pub type UnionFind = partitions::PartitionVec<usize>;

/// The partition a union-find value holds: each element index maps to the
/// least index of its set.
pub uninterp spec fn uf_classes(p: UnionFind) -> Map<int, int>;

/// How many elements a union-find value holds.
pub uninterp spec fn uf_len(p: UnionFind) -> nat;

/// The empty partition.
pub open spec fn empty_classes() -> Map<int, int> {
    Map::empty()
}

/// Relies on partitions::PartitionVec::new: the empty structure.
#[verifier::external_body]
fn uf_new() -> (r: UnionFind)
    ensures
        uf_len(r) == 0,
        uf_classes(r) == empty_classes(),
{
    partitions::PartitionVec::new()
}

/// Relies on partitions::PartitionVec::push: the new element forms its own
/// singleton set at the next index.
#[verifier::external_body]
fn uf_push(p: &mut UnionFind, v: usize)
    ensures
        uf_len(*final(p)) == uf_len(*old(p)) + 1,
        uf_classes(*final(p)) == uf_classes(*old(p)).insert(
            uf_len(*old(p)) as int,
            uf_len(*old(p)) as int,
        ),
{
    p.push(v)
}

/// Relies on partitions::PartitionVec::union: the sets of the two indices
/// are joined; every member of either maps to the joined set's least index.
#[verifier::external_body]
fn uf_union(p: &mut UnionFind, i: usize, j: usize)
    requires
        i < uf_len(*old(p)),
        j < uf_len(*old(p)),
    ensures
        uf_len(*final(p)) == uf_len(*old(p)),
        uf_classes(*final(p)) == merge(uf_classes(*old(p)), i as int, j as int),
{
    p.union(i, j)
}

/// The partition after the sets of `i` and `j` are joined: members of
/// either set map to the smaller of the two least indices.
pub open spec fn merge(m: Map<int, int>, i: int, j: int) -> Map<int, int> {
    let ri = m[i];
    let rj = m[j];
    let rm = if ri <= rj {
        ri
    } else {
        rj
    };
    Map::new(
        |k: int| m.dom().contains(k),
        |k: int|
            if m[k] == ri || m[k] == rj {
                rm
            } else {
                m[k]
            },
    )
}

/// Relies on partitions::PartitionVec::amount_of_sets: the number of
/// distinct sets.
#[verifier::external_body]
fn uf_amount_of_sets(p: &UnionFind) -> (r: usize)
    ensures
        r == uf_classes(*p).values().len(),
{
    p.amount_of_sets()
}

/// Relies on partitions::PartitionVec::all_sets: the sets come ordered by
/// their least member, and each is counted out in full.
#[verifier::external_body]
fn uf_set_sizes(p: &UnionFind) -> (r: Vec<usize>)
    ensures
        r@.len() == uf_classes(*p).values().len(),
        forall|q: int| 0 <= q < r@.len() ==> #[trigger] r@[q] <= uf_len(*p),
        exists|reps: Seq<int>|
            #![trigger reps.len()]
            reps.len() == r@.len() && reps.to_set() == uf_classes(*p).values() && (forall|
                q1: int,
                q2: int,
            |
                0 <= q1 < q2 < reps.len() ==> reps[q1] < reps[q2]) && forall|q: int|
                0 <= q < r@.len() ==> #[trigger] r@[q] as int == class_size(
                    uf_classes(*p),
                    reps[q],
                ),
{
    p.all_sets().map(|set| set.count()).collect()
}

/// How many elements map to the given least member.
pub open spec fn class_size(m: Map<int, int>, rep: int) -> int {
    m.dom().filter(|k: int| m[k] == rep).len() as int
}

/// The partition of `0..n` after the given unions are applied in order.
pub open spec fn uf_after(n: nat, pairs: Seq<(int, int)>) -> Map<int, int>
    decreases pairs.len(),
{
    if pairs.len() == 0 {
        Map::new(|k: int| 0 <= k < n, |k: int| k)
    } else {
        merge(uf_after(n, pairs.drop_last()), pairs.last().0, pairs.last().1)
    }
}

/// Parse the junction boxes.
pub fn prepare(input: &str) -> (r: Vec<Point3>)
    requires
        input_wf(input@),
    ensures
        r@.len() == boxes_of(input@).len(),
        forall|i: int|
            0 <= i < r@.len() ==> (#[trigger] r@[i]).0 as int == boxes_of(input@)[i].0
                && r@[i].1 as int == boxes_of(input@)[i].1 && r@[i].2 as int == boxes_of(
                input@,
            )[i].2,
{
    let chars = chars_vec(input);
    let toks = split_tokens(&chars);
    let mut r: Vec<Point3> = Vec::new();
    let mut i: usize = 0;
    while i < toks.len()
        invariant
            i <= toks@.len(),
            crate::text::views(toks@) == tokens(input@),
            input_wf(input@),
            r@.len() == i,
            forall|k: int|
                0 <= k < i ==> (#[trigger] r@[k]).0 as int == boxes_of(input@)[k].0
                    && r@[k].1 as int == boxes_of(input@)[k].1 && r@[k].2 as int == boxes_of(
                    input@,
                )[k].2,
        decreases toks@.len() - i,
    {
        let t = &toks[i];
        proof {
            assert(t@ == crate::text::views(toks@)[i as int]);
            assert(box_wf(tokens(input@)[i as int]));
        }
        let n = t.len();
        let p = scan_comma(t);
        proof {
            crate::text::lemma_sep_pos_le(t@, ',');
            assert(p == sep_pos(t@, ','));
            assert(p < n);
        }
        let rest = copy_range(t, p + 1, n);
        proof {
            assert(rest@ =~= t@.skip(p + 1));
        }
        let q = scan_comma(&rest);
        proof {
            crate::text::lemma_sep_pos_le(rest@, ',');
            assert(q == sep_pos(rest@, ','));
            assert(q < rest@.len());
        }
        let xs = copy_range(t, 0, p);
        let ys = copy_range(&rest, 0, q);
        let zs = copy_range(&rest, q + 1, rest.len());
        proof {
            assert(xs@ =~= t@.take(p as int));
            assert(ys@ =~= rest@.take(q as int));
            assert(zs@ =~= rest@.skip(q + 1));
        }
        let x = match parse_i64(&xs) {
            Some(v) => v,
            None => {
                proof {
                    assert(false);
                }
                0
            },
        };
        let y = match parse_i64(&ys) {
            Some(v) => v,
            None => {
                proof {
                    assert(false);
                }
                0
            },
        };
        let z = match parse_i64(&zs) {
            Some(v) => v,
            None => {
                proof {
                    assert(false);
                }
                0
            },
        };
        proof {
            assert(boxes_of(input@)[i as int] == box_of(t@));
        }
        r.push(Point3(x, y, z));
        i = i + 1;
    }
    r
}

/// Index of the first comma, or the length: a plain forward scan.
fn scan_comma(t: &Vec<char>) -> (r: usize)
    ensures
        r == sep_pos(t@, ','),
{
    let n = t.len();
    let mut p: usize = 0;
    while p < n && t[p] != ','
        invariant
            p <= n == t@.len(),
            forall|k: int| 0 <= k < p ==> t@[k] != ',',
        decreases n - p,
    {
        p = p + 1;
    }
    proof {
        crate::text::lemma_sep_pos_le(t@, ',');
        if p < n {
            if sep_pos(t@, ',') < p {
                assert(t@[sep_pos(t@, ',') as int] == ',');
            }
        }
    }
    p
}

/// The distances of all box pairs `i < j`, each as `(d2, i, j)`.
pub open spec fn is_dist_entry(bs: Seq<(int, int, int)>, e: (u64, usize, usize)) -> bool {
    exists|i: int, j: int|
        0 <= i < j < bs.len() && (e.1 as int, e.2 as int) == (i, j) && e.0 as int
            == #[trigger] dist2(bs[i], bs[j])
}

/// Some entry carries exactly this index pair.
pub open spec fn has_pair(sd: Seq<(u64, usize, usize)>, i: int, j: int) -> bool {
    exists|x: int| 0 <= x < sd.len() && (#[trigger] sd[x]).1 == i && sd[x].2 == j
}

pub open spec fn sorted_dists(s: Seq<(u64, usize, usize)>) -> bool {
    forall|k1: int, k2: int|
        0 <= k1 <= k2 < s.len() ==> lex_le(#[trigger] s[k1], #[trigger] s[k2])
}

pub open spec fn lex_le(a: (u64, usize, usize), b: (u64, usize, usize)) -> bool {
    a.0 < b.0 || (a.0 == b.0 && (a.1 < b.1 || (a.1 == b.1 && a.2 <= b.2)))
}

/// All pair distances, sorted by increasing distance, ties by pair order.
fn pair_distances(boxes: &Vec<Point3>, gb: Ghost<Seq<(int, int, int)>>) -> (r: Vec<
    (u64, usize, usize),
>)
    requires
        gb@.len() == boxes@.len() <= 1000,
        boxes@.len() >= 2,
        forall|k: int|
            0 <= k < boxes@.len() ==> (#[trigger] boxes@[k]).0 as int == gb@[k].0
                && boxes@[k].1 as int == gb@[k].1 && boxes@[k].2 as int == gb@[k].2,
        forall|k: int|
            0 <= k < gb@.len() ==> -1000000 <= (#[trigger] gb@[k]).0 <= 1000000 && -1000000
                <= gb@[k].1 <= 1000000 && -1000000 <= gb@[k].2 <= 1000000,
    ensures
        sorted_dists(r@),
        r@.len() * 2 == boxes@.len() * (boxes@.len() - 1),
        forall|x: int| 0 <= x < r@.len() ==> is_dist_entry(gb@, #[trigger] r@[x]),
        forall|i: int, j: int| 0 <= i < j < gb@.len() ==> #[trigger] has_pair(r@, i, j),
{
    let n = boxes.len();
    let mut gen: Vec<(u64, usize, usize)> = Vec::new();
    let mut i: usize = 0;
    while i < n
        invariant
            i <= n == boxes@.len() == gb@.len(),
            n <= 1000,
            forall|k: int|
                0 <= k < boxes@.len() ==> (#[trigger] boxes@[k]).0 as int == gb@[k].0
                    && boxes@[k].1 as int == gb@[k].1 && boxes@[k].2 as int == gb@[k].2,
            forall|k: int|
                0 <= k < gb@.len() ==> -1000000 <= (#[trigger] gb@[k]).0 <= 1000000 && -1000000
                    <= gb@[k].1 <= 1000000 && -1000000 <= gb@[k].2 <= 1000000,
            gen@.len() * 2 == i * (2 * n - i - 1),
            forall|x: int| 0 <= x < gen@.len() ==> is_dist_entry(gb@, #[trigger] gen@[x]),
            forall|a: int, b: int| 0 <= a < i && a < b < n ==> #[trigger] has_pair(gen@, a, b),
        decreases n - i,
    {
        let mut j: usize = i + 1;
        while j < n
            invariant
                i < j <= n == boxes@.len() == gb@.len(),
                n <= 1000,
                forall|k: int|
                    0 <= k < boxes@.len() ==> (#[trigger] boxes@[k]).0 as int == gb@[k].0
                        && boxes@[k].1 as int == gb@[k].1 && boxes@[k].2 as int == gb@[k].2,
                forall|k: int|
                    0 <= k < gb@.len() ==> -1000000 <= (#[trigger] gb@[k]).0 <= 1000000
                        && -1000000 <= gb@[k].1 <= 1000000 && -1000000 <= gb@[k].2 <= 1000000,
                gen@.len() * 2 == i * (2 * n - i - 1) + 2 * (j - i - 1),
                forall|x: int| 0 <= x < gen@.len() ==> is_dist_entry(gb@, #[trigger] gen@[x]),
                forall|a: int, b: int|
                    0 <= a < i && a < b < n ==> #[trigger] has_pair(gen@, a, b),
                forall|b: int| i < b < j ==> #[trigger] has_pair(gen@, i as int, b),
            decreases n - j,
        {
            let p = boxes[i];
            let q = boxes[j];
            proof {
                assert(-1000000 <= p.0 <= 1000000 && -1000000 <= q.0 <= 1000000 && -1000000 <= p.1
                    <= 1000000 && -1000000 <= q.1 <= 1000000 && -1000000 <= p.2 <= 1000000
                    && -1000000 <= q.2 <= 1000000) by {
                    assert(boxes@[i as int].0 as int == gb@[i as int].0);
                    assert(boxes@[j as int].0 as int == gb@[j as int].0);
                }
                assert(0 <= (p.0 - q.0) * (p.0 - q.0) <= 4000000000000 && 0 <= (p.1 - q.1) * (p.1
                    - q.1) <= 4000000000000 && 0 <= (p.2 - q.2) * (p.2 - q.2) <= 4000000000000)
                    by (nonlinear_arith)
                    requires
                        -2000000 <= p.0 - q.0 <= 2000000,
                        -2000000 <= p.1 - q.1 <= 2000000,
                        -2000000 <= p.2 - q.2 <= 2000000,
                ;
            }
            let d = ((p.0 - q.0) * (p.0 - q.0) + (p.1 - q.1) * (p.1 - q.1) + (p.2 - q.2) * (p.2
                - q.2)) as u64;
            let ghost old_gen = gen@;
            gen.push((d, i, j));
            proof {
                assert(gb@[i as int] == (p.0 as int, p.1 as int, p.2 as int));
                assert(gb@[j as int] == (q.0 as int, q.1 as int, q.2 as int));
                assert(d as int == dist2(gb@[i as int], gb@[j as int]));
                assert(is_dist_entry(gb@, gen@[gen@.len() - 1]));
                assert forall|x: int| 0 <= x < gen@.len() implies is_dist_entry(
                    gb@,
                    #[trigger] gen@[x],
                ) by {
                    if x < gen@.len() - 1 {
                        assert(gen@[x] == old_gen[x]);
                        assert(is_dist_entry(gb@, old_gen[x]));
                    }
                }
                assert(gen@[gen@.len() - 1].1 == i as int && gen@[gen@.len() - 1].2 == j as int);
                assert(has_pair(gen@, i as int, j as int));
                assert forall|a: int, b: int|
                    0 <= a < i && a < b < n implies #[trigger] has_pair(gen@, a, b) by {
                    assert(has_pair(old_gen, a, b));
                    let x = choose|x: int|
                        0 <= x < old_gen.len() && (#[trigger] old_gen[x]).1 == a && old_gen[x].2
                            == b;
                    assert(gen@[x] == old_gen[x]);
                    assert(has_pair(gen@, a, b));
                }
                assert forall|b: int| i < b < j + 1 implies #[trigger] has_pair(
                    gen@,
                    i as int,
                    b,
                ) by {
                    if b < j {
                        assert(has_pair(old_gen, i as int, b));
                        let x = choose|x: int|
                            0 <= x < old_gen.len() && (#[trigger] old_gen[x]).1 == i as int
                                && old_gen[x].2 == b;
                        assert(gen@[x] == old_gen[x]);
                        assert(has_pair(gen@, i as int, b));
                    } else {
                        assert(has_pair(gen@, i as int, j as int));
                    }
                }
            }
            j = j + 1;
        }
        proof {
            assert((i + 1) * (2 * n - i - 2) == i * (2 * n - i - 1) + 2 * (n - i - 1))
                by (nonlinear_arith);
            assert forall|a: int, b: int|
                0 <= a < i + 1 && a < b < n implies #[trigger] has_pair(gen@, a, b) by {
                if a == i {
                    assert(has_pair(gen@, i as int, b));
                }
            }
        }
        i = i + 1;
    }
    proof {
        assert(gen@.len() * 2 == n * (n - 1)) by (nonlinear_arith)
            requires
                gen@.len() * 2 == n * (2 * n - n - 1),
        ;
    }
    let r = sort_dists(gen);
    proof {
        broadcast use vstd::seq_lib::group_to_multiset_ensures;

        assert(r@.len() == gen@.len()) by {
            assert(r@.to_multiset().len() == gen@.to_multiset().len());
        }
        assert forall|x: int| 0 <= x < r@.len() implies is_dist_entry(gb@, #[trigger] r@[x]) by {
            assert(r@.to_multiset().count(r@[x]) > 0);
            assert(gen@.contains(r@[x]));
            let g = choose|g: int| 0 <= g < gen@.len() && gen@[g] == r@[x];
            assert(is_dist_entry(gb@, gen@[g]));
        }
        assert forall|i2: int, j2: int| 0 <= i2 < j2 < gb@.len() implies #[trigger] has_pair(
            r@,
            i2,
            j2,
        ) by {
            assert(has_pair(gen@, i2, j2));
            let g = choose|g: int|
                0 <= g < gen@.len() && (#[trigger] gen@[g]).1 == i2 && gen@[g].2 == j2;
            assert(gen@.to_multiset().count(gen@[g]) > 0);
            assert(r@.contains(gen@[g]));
            let x = choose|x: int| 0 <= x < r@.len() && r@[x] == gen@[g];
            assert(r@[x].1 == i2 && r@[x].2 == j2);
        }
    }
    r
}

/// Sort distance entries lexicographically, keeping exactly the same
/// entries.
fn sort_dists(v: Vec<(u64, usize, usize)>) -> (r: Vec<(u64, usize, usize)>)
    ensures
        sorted_dists(r@),
        r@.to_multiset() == v@.to_multiset(),
{
    let mut out: Vec<(u64, usize, usize)> = Vec::new();
    let mut i: usize = 0;
    proof {
        broadcast use vstd::seq_lib::group_to_multiset_ensures;

        assert(v@.take(0) =~= Seq::<(u64, usize, usize)>::empty());
        assert(out@.to_multiset() =~= v@.take(0).to_multiset());
    }
    while i < v.len()
        invariant
            i <= v@.len(),
            sorted_dists(out@),
            out@.to_multiset() == v@.take(i as int).to_multiset(),
        decreases v@.len() - i,
    {
        let e = v[i];
        let mut pos: usize = 0;
        while pos < out.len() && !lex_le_exec(&e, &out[pos])
            invariant
                pos <= out@.len(),
                forall|k: int| 0 <= k < pos ==> lex_le(#[trigger] out@[k], e),
                sorted_dists(out@),
            decreases out@.len() - pos,
        {
            proof {
                assert(lex_le(out@[pos as int], e));
            }
            pos = pos + 1;
        }
        let ghost old_out = out@;
        out.insert(pos, e);
        proof {
            broadcast use vstd::seq_lib::group_to_multiset_ensures;

            lemma_to_multiset_insert(old_out, pos as int, e);
            assert(v@.take(i + 1) =~= v@.take(i as int).push(v@[i as int]));
            assert(out@.to_multiset() =~= v@.take(i + 1).to_multiset());
            assert forall|k1: int, k2: int| 0 <= k1 <= k2 < out@.len() implies lex_le(
                #[trigger] out@[k1],
                #[trigger] out@[k2],
            ) by {
                if k1 < pos && k2 == pos {
                    assert(out@[k1] == old_out[k1]);
                } else if k1 == pos && k2 > pos {
                    assert(out@[k2] == old_out[k2 - 1]);
                } else if k1 < pos && k2 > pos {
                    assert(out@[k1] == old_out[k1]);
                    assert(out@[k2] == old_out[k2 - 1]);
                } else if k1 != pos && k2 != pos {
                    assert(out@[k1] == old_out[if k1 < pos {
                        k1
                    } else {
                        k1 - 1
                    }]);
                    assert(out@[k2] == old_out[if k2 < pos {
                        k2
                    } else {
                        k2 - 1
                    }]);
                }
            }
        }
        i = i + 1;
    }
    proof {
        assert(v@.take(v@.len() as int) =~= v@);
    }
    out
}

fn lex_le_exec(a: &(u64, usize, usize), b: &(u64, usize, usize)) -> (r: bool)
    ensures
        r == lex_le(*a, *b),
{
    a.0 < b.0 || (a.0 == b.0 && (a.1 < b.1 || (a.1 == b.1 && a.2 <= b.2)))
}

/// The first `cables` union pairs of a sorted distance list, as indices.
pub open spec fn union_pairs(sd: Seq<(u64, usize, usize)>, upto: int) -> Seq<(int, int)> {
    sd.take(upto).map_values(|e: (u64, usize, usize)| (e.1 as int, e.2 as int))
}

/// Connect the closest `cables` pairs and multiply the three largest
/// circuit sizes.
pub fn solve_part1(input: &str, cables: usize) -> (r: usize)
    requires
        input_wf(input@),
    ensures
        exists|sd: Seq<(u64, usize, usize)>|
            #![trigger sorted_dists(sd)]
            valid_dist_listing(boxes_of(input@), sd) && part1_result(
                boxes_of(input@),
                sd,
                cables as int,
                r as int,
            ),
{
    let boxes = prepare(input);
    let ghost gb = boxes_of(input@);
    proof {
        lemma_boxes_bounded(input@);
        assert(gb.len() == boxes@.len());
    }
    let dists = pair_distances(&boxes, Ghost(gb));
    let n = boxes.len();
    let mut uf = uf_new();
    let mut k: usize = 0;
    while k < n
        invariant
            k <= n,
            uf_len(uf) == k,
            uf_classes(uf) =~= Map::<int, int>::new(|q: int| 0 <= q < k, |q: int| q),
        decreases n - k,
    {
        uf_push(&mut uf, k);
        proof {
            assert(uf_classes(uf) =~= Map::<int, int>::new(|q: int| 0 <= q < k + 1, |q: int| q));
        }
        k = k + 1;
    }
    proof {
        assert(uf_classes(uf) =~= uf_after(n as nat, Seq::empty()));
        assert(union_pairs(dists@, 0) =~= Seq::<(int, int)>::empty());
    }
    let take = if cables < dists.len() {
        cables
    } else {
        dists.len()
    };
    let mut c: usize = 0;
    while c < take
        invariant
            c <= take <= dists@.len(),
            n == boxes@.len() == gb.len(),
            take == if cables < dists@.len() { cables as int } else { dists@.len() as int },
            uf_len(uf) == n,
            sorted_dists(dists@),
            dists@.len() * 2 == gb.len() * (gb.len() - 1),
            forall|x: int| 0 <= x < dists@.len() ==> is_dist_entry(gb, #[trigger] dists@[x]),
            forall|i2: int, j2: int|
                0 <= i2 < j2 < gb.len() ==> #[trigger] has_pair(dists@, i2, j2),
            uf_classes(uf) == uf_after(n as nat, union_pairs(dists@, c as int)),
        decreases take - c,
    {
        let entry = dists[c];
        let i = entry.1;
        let j = entry.2;
        proof {
            assert(is_dist_entry(gb, dists@[c as int]));
            assert(union_pairs(dists@, c + 1) =~= union_pairs(dists@, c as int).push(
                (dists@[c as int].1 as int, dists@[c as int].2 as int),
            ));
            assert(union_pairs(dists@, c + 1).drop_last() =~= union_pairs(dists@, c as int));
        }
        uf_union(&mut uf, i, j);
        c = c + 1;
    }
    let sizes = uf_set_sizes(&uf);
    let ghost m = uf_classes(uf);
    let ghost raw = sizes@;
    let sizes_sorted = sort_sizes(sizes);
    let len = sizes_sorted.len();
    proof {
        broadcast use vstd::seq_lib::group_to_multiset_ensures;

        assert(sizes_sorted@.len() == raw.len()) by {
            assert(sizes_sorted@.to_multiset().len() == raw.to_multiset().len());
        }
        let reps = choose|reps: Seq<int>|
            #![trigger reps.len()]
            reps.len() == raw.len() && reps.to_set() == m.values() && (forall|q1: int, q2: int|
                0 <= q1 < q2 < reps.len() ==> reps[q1] < reps[q2]) && forall|q: int|
                0 <= q < raw.len() ==> #[trigger] raw[q] as int == class_size(m, reps[q]);
        assert(raw =~= size_list(m, reps)) by {
            assert forall|q: int| 0 <= q < raw.len() implies raw[q] == size_list(m, reps)[q] by {
                assert(raw[q] as int == class_size(m, reps[q]));
                assert(size_list(m, reps)[q] == class_size(m, reps[q]) as usize);
            }
        }
        assert(sizes_sorted@.to_multiset() == size_list(m, reps).to_multiset());
        assert(is_sorted_sizes(m, sizes_sorted@));
        assert(uf_after(n as nat, union_pairs(dists@, take as int)) == m);
    }
    if len < 3 {
        proof {
            assert(part1_result(gb, dists@, cables as int, 0));
            assert(valid_dist_listing(gb, dists@));
        }
        return 0;
    }
    let a = sizes_sorted[len - 1];
    let b = sizes_sorted[len - 2];
    let d = sizes_sorted[len - 3];
    proof {
        assert(a <= 1000 && b <= 1000 && d <= 1000) by {
            broadcast use vstd::seq_lib::group_to_multiset_ensures;

            assert(sizes_sorted@.contains(sizes_sorted@[len - 1]));
            assert(sizes_sorted@.contains(sizes_sorted@[len - 2]));
            assert(sizes_sorted@.contains(sizes_sorted@[len - 3]));
            assert(sizes_sorted@.to_multiset().count(sizes_sorted@[len - 1]) > 0);
            assert(sizes_sorted@.to_multiset().count(sizes_sorted@[len - 2]) > 0);
            assert(sizes_sorted@.to_multiset().count(sizes_sorted@[len - 3]) > 0);
            assert(raw.contains(sizes_sorted@[len - 1]));
            assert(raw.contains(sizes_sorted@[len - 2]));
            assert(raw.contains(sizes_sorted@[len - 3]));
            assert(forall|q: int| 0 <= q < raw.len() ==> #[trigger] raw[q] <= 1000);
        }
        assert(a as int * b as int * d as int <= 1000000000 && a as int * b as int >= 0 && a as int
            * b as int <= 1000000 && a as int * b as int * d as int >= 0) by (nonlinear_arith)
            requires
                0 <= a <= 1000,
                0 <= b <= 1000,
                0 <= d <= 1000,
        ;
    }
    let prod = a * b * d;
    proof {
        assert(valid_dist_listing(gb, dists@));
        let ghost ss = sizes_sorted@;
        assert(ss.len() >= 3 && prod as int == ss[ss.len() - 1] as int * ss[ss.len() - 2] as int
            * ss[ss.len() - 3] as int);
        assert(part1_result(gb, dists@, cables as int, prod as int));
    }
    prod
}

/// A sorted listing of all pair distances.
pub open spec fn valid_dist_listing(gb: Seq<(int, int, int)>, sd: Seq<(u64, usize, usize)>) -> bool {
    &&& sorted_dists(sd)
    &&& sd.len() * 2 == gb.len() * (gb.len() - 1)
    &&& forall|x: int| 0 <= x < sd.len() ==> is_dist_entry(gb, #[trigger] sd[x])
    &&& forall|i: int, j: int| 0 <= i < j < gb.len() ==> #[trigger] has_pair(sd, i, j)
}

/// The first answer, given a sorted distance listing: the partition after
/// the first `cables` unions has its three largest set sizes multiplied.
pub open spec fn part1_result(
    gb: Seq<(int, int, int)>,
    sd: Seq<(u64, usize, usize)>,
    cables: int,
    r: int,
) -> bool {
    let upto = if cables < sd.len() {
        cables
    } else {
        sd.len() as int
    };
    let m = uf_after(gb.len() as nat, union_pairs(sd, upto));
    if m.values().len() >= 3 {
        exists|sizes: Seq<usize>|
            #![trigger sizes.len()]
            is_sorted_sizes(m, sizes) && r == sizes[sizes.len() - 1] as int * sizes[sizes.len()
                - 2] as int * sizes[sizes.len() - 3] as int
    } else {
        r == 0
    }
}

/// The sizes of the partition's sets, one per representative in the given
/// order.
pub open spec fn size_list(m: Map<int, int>, reps: Seq<int>) -> Seq<usize> {
    reps.map_values(|rep: int| class_size(m, rep) as usize)
}

/// An ascending listing of all set sizes of a partition: exactly one size
/// per distinct set, multiplicity kept.
pub open spec fn is_sorted_sizes(m: Map<int, int>, sizes: Seq<usize>) -> bool {
    &&& sizes.len() == m.values().len()
    &&& forall|q1: int, q2: int| 0 <= q1 <= q2 < sizes.len() ==> sizes[q1] <= sizes[q2]
    &&& exists|reps: Seq<int>|
        #![trigger reps.len()]
        reps.len() == sizes.len() && reps.to_set() == m.values() && (forall|q1: int, q2: int|
            0 <= q1 < q2 < reps.len() ==> reps[q1] < reps[q2]) && sizes.to_multiset()
            == size_list(m, reps).to_multiset()
}

/// Sort set sizes ascending, keeping exactly the same values.
fn sort_sizes(v: Vec<usize>) -> (r: Vec<usize>)
    ensures
        r@.to_multiset() == v@.to_multiset(),
        r@.len() == v@.len(),
        forall|k1: int, k2: int| 0 <= k1 <= k2 < r@.len() ==> r@[k1] <= r@[k2],
{
    let mut out: Vec<usize> = Vec::new();
    let mut i: usize = 0;
    proof {
        broadcast use vstd::seq_lib::group_to_multiset_ensures;

        assert(v@.take(0) =~= Seq::<usize>::empty());
        assert(out@.to_multiset() =~= v@.take(0).to_multiset());
    }
    while i < v.len()
        invariant
            i <= v@.len(),
            out@.len() == i,
            forall|k1: int, k2: int| 0 <= k1 <= k2 < out@.len() ==> out@[k1] <= out@[k2],
            out@.to_multiset() == v@.take(i as int).to_multiset(),
        decreases v@.len() - i,
    {
        let e = v[i];
        let mut pos: usize = 0;
        while pos < out.len() && out[pos] <= e
            invariant
                pos <= out@.len(),
                forall|k: int| 0 <= k < pos ==> out@[k] <= e,
                forall|k1: int, k2: int| 0 <= k1 <= k2 < out@.len() ==> out@[k1] <= out@[k2],
            decreases out@.len() - pos,
        {
            pos = pos + 1;
        }
        let ghost old_out = out@;
        out.insert(pos, e);
        proof {
            broadcast use vstd::seq_lib::group_to_multiset_ensures;

            lemma_to_multiset_insert(old_out, pos as int, e);
            assert(v@.take(i + 1) =~= v@.take(i as int).push(v@[i as int]));
            assert(out@.to_multiset() =~= v@.take(i + 1).to_multiset());
            assert forall|k1: int, k2: int| 0 <= k1 <= k2 < out@.len() implies out@[k1]
                <= out@[k2] by {
                if k1 < pos && k2 == pos {
                    assert(out@[k1] == old_out[k1]);
                } else if k1 == pos && k2 > pos {
                    assert(out@[k2] == old_out[k2 - 1]);
                } else if k1 < pos && k2 > pos {
                    assert(out@[k1] == old_out[k1]);
                    assert(out@[k2] == old_out[k2 - 1]);
                } else if k1 != pos && k2 != pos {
                    assert(out@[k1] == old_out[if k1 < pos {
                        k1
                    } else {
                        k1 - 1
                    }]);
                    assert(out@[k2] == old_out[if k2 < pos {
                        k2
                    } else {
                        k2 - 1
                    }]);
                }
            }
        }
        i = i + 1;
    }
    proof {
        assert(v@.take(v@.len() as int) =~= v@);
    }
    out
}

pub proof fn lemma_boxes_bounded(s: Seq<char>)
    requires
        input_wf(s),
    ensures
        forall|k: int|
            0 <= k < boxes_of(s).len() ==> -1000000 <= (#[trigger] boxes_of(s)[k]).0 <= 1000000
                && -1000000 <= boxes_of(s)[k].1 <= 1000000 && -1000000 <= boxes_of(s)[k].2
                <= 1000000,
        boxes_of(s).len() == tokens(s).len(),
{
    assert forall|k: int|
        0 <= k < boxes_of(s).len() implies -1000000 <= (#[trigger] boxes_of(s)[k]).0 <= 1000000
        && -1000000 <= boxes_of(s)[k].1 <= 1000000 && -1000000 <= boxes_of(s)[k].2
        <= 1000000 by {
        assert(box_wf(tokens(s)[k]));
        assert(boxes_of(s)[k] == box_of(tokens(s)[k]));
    }
}

/// Keep connecting closest pairs until one circuit remains; the answer is
/// the product of the x coordinates of the last pair joined.
pub fn solve_part2(input: &str) -> (r: u64)
    requires
        input_wf(input@),
    ensures
        exists|sd: Seq<(u64, usize, usize)>|
            #![trigger sorted_dists(sd)]
            valid_dist_listing(boxes_of(input@), sd) && part2_result(boxes_of(input@), sd, r as int),
{
    let boxes = prepare(input);
    let ghost gb = boxes_of(input@);
    proof {
        lemma_boxes_bounded(input@);
        assert(gb.len() == boxes@.len());
    }
    let dists = pair_distances(&boxes, Ghost(gb));
    let n = boxes.len();
    let mut uf = uf_new();
    let mut k: usize = 0;
    while k < n
        invariant
            k <= n,
            uf_len(uf) == k,
            uf_classes(uf) =~= Map::<int, int>::new(|q: int| 0 <= q < k, |q: int| q),
        decreases n - k,
    {
        uf_push(&mut uf, k);
        proof {
            assert(uf_classes(uf) =~= Map::<int, int>::new(|q: int| 0 <= q < k + 1, |q: int| q));
        }
        k = k + 1;
    }
    proof {
        assert(uf_classes(uf) =~= uf_after(n as nat, Seq::empty()));
        assert(union_pairs(dists@, 0) =~= Seq::<(int, int)>::empty());
    }
    let mut c: usize = 0;
    while c < dists.len()
        invariant
            c <= dists@.len(),
            n == boxes@.len() == gb.len(),
            gb == boxes_of(input@),
            input_wf(input@),
            n >= 2,
            uf_len(uf) == n,
            sorted_dists(dists@),
            dists@.len() * 2 == gb.len() * (gb.len() - 1),
            forall|x: int| 0 <= x < dists@.len() ==> is_dist_entry(gb, #[trigger] dists@[x]),
            forall|i2: int, j2: int|
                0 <= i2 < j2 < gb.len() ==> #[trigger] has_pair(dists@, i2, j2),
            forall|q: int|
                0 <= q < boxes@.len() ==> (#[trigger] boxes@[q]).0 as int == gb[q].0,
            forall|k: int|
                0 <= k < gb.len() ==> -1000000 <= (#[trigger] gb[k]).0 <= 1000000,
            uf_classes(uf) == uf_after(n as nat, union_pairs(dists@, c as int)),
            forall|x: int|
                0 <= x < c ==> (#[trigger] uf_after(
                    n as nat,
                    union_pairs(dists@, x + 1),
                )).values().len() != 1,
        decreases dists@.len() - c,
    {
        let entry = dists[c];
        let i = entry.1;
        let j = entry.2;
        proof {
            assert(is_dist_entry(gb, dists@[c as int]));
            assert(union_pairs(dists@, c + 1) =~= union_pairs(dists@, c as int).push(
                (dists@[c as int].1 as int, dists@[c as int].2 as int),
            ));
            assert(union_pairs(dists@, c + 1).drop_last() =~= union_pairs(dists@, c as int));
        }
        uf_union(&mut uf, i, j);
        if uf_amount_of_sets(&uf) == 1 {
            let xi = boxes[i].0;
            let xj = boxes[j].0;
            proof {
                assert(boxes@[i as int].0 as int == gb[i as int].0);
                assert(boxes@[j as int].0 as int == gb[j as int].0);
                assert(-1000000 <= xi <= 1000000 && -1000000 <= xj <= 1000000);
                assert(-1000000000000 <= (xi as int) * (xj as int) <= 1000000000000)
                    by (nonlinear_arith)
                    requires
                        -1000000 <= xi <= 1000000,
                        -1000000 <= xj <= 1000000,
                ;
            }
            let prod = (xi as i128) * (xj as i128);
            proof {
                assert(uf_after(n as nat, union_pairs(dists@, c + 1)).values().len() == 1);
                lemma_first_is_chosen(gb, dists@, c as int);
                assert((gb[dists@[c as int].1 as int].0 * gb[dists@[c as int].2 as int].0)
                    == (xi as int) * (xj as int)) by {
                    assert(gb[dists@[c as int].1 as int].0 == xi as int);
                    assert(gb[dists@[c as int].2 as int].0 == xj as int);
                }
            }
            if prod >= 0 {
                proof {
                    assert(valid_dist_listing(gb, dists@));
                    assert(part2_result(gb, dists@, prod as int));
                    assert((prod as u64) as int == prod as int);
                    assert(sorted_dists(dists@));
                    assert(gb == boxes_of(input@));
                }
                return prod as u64;
            } else {
                proof {
                    assert(part2_result(gb, dists@, 0));
                    assert(valid_dist_listing(gb, dists@));
                    assert(sorted_dists(dists@));
                }
                return 0;
            }
        }
        c = c + 1;
    }
    proof {
        assert(part2_result(gb, dists@, 0));
        assert(valid_dist_listing(gb, dists@));
    }
    0
}

/// The first index after which one circuit remains is the one the answer
/// speaks of.
proof fn lemma_first_is_chosen(gb: Seq<(int, int, int)>, sd: Seq<(u64, usize, usize)>, c: int)
    requires
        0 <= c < sd.len(),
        uf_after(gb.len() as nat, union_pairs(sd, c + 1)).values().len() == 1,
        forall|x: int|
            0 <= x < c ==> (#[trigger] uf_after(
                gb.len() as nat,
                union_pairs(sd, x + 1),
            )).values().len() != 1,
    ensures
        (choose|cc: int|
            0 <= cc < sd.len() && (#[trigger] uf_after(
                gb.len() as nat,
                union_pairs(sd, cc + 1),
            )).values().len() == 1 && forall|x: int|
                0 <= x < cc ==> (#[trigger] uf_after(
                    gb.len() as nat,
                    union_pairs(sd, x + 1),
                )).values().len() != 1) == c,
{
    let cc = choose|cc: int|
        0 <= cc < sd.len() && (#[trigger] uf_after(
            gb.len() as nat,
            union_pairs(sd, cc + 1),
        )).values().len() == 1 && forall|x: int|
            0 <= x < cc ==> (#[trigger] uf_after(
                gb.len() as nat,
                union_pairs(sd, x + 1),
            )).values().len() != 1;
    if cc < c {
        assert(uf_after(gb.len() as nat, union_pairs(sd, cc + 1)).values().len() != 1);
    } else if cc > c {
        assert(uf_after(gb.len() as nat, union_pairs(sd, c + 1)).values().len() != 1);
    }
}

/// The second answer, given a sorted distance listing: at the first union
/// that leaves a single circuit, the product of the x coordinates of the
/// pair just joined, when that union exists and the product is not
/// negative; otherwise zero.
pub open spec fn part2_result(
    gb: Seq<(int, int, int)>,
    sd: Seq<(u64, usize, usize)>,
    r: int,
) -> bool {
    if exists|c: int|
        0 <= c < sd.len() && (#[trigger] uf_after(
            gb.len() as nat,
            union_pairs(sd, c + 1),
        )).values().len() == 1 {
        let c = choose|c: int|
            0 <= c < sd.len() && (#[trigger] uf_after(
                gb.len() as nat,
                union_pairs(sd, c + 1),
            )).values().len() == 1 && forall|x: int|
                0 <= x < c ==> (#[trigger] uf_after(
                    gb.len() as nat,
                    union_pairs(sd, x + 1),
                )).values().len() != 1;
        let prod = gb[sd[c].1 as int].0 * gb[sd[c].2 as int].0;
        if prod >= 0 {
            r == prod
        } else {
            r == 0
        }
    } else {
        r == 0
    }
}

pub fn solve(input: String) -> (r: SolutionPair)
    requires
        input_wf(input@),
    ensures
        r.0 matches Solution::Usize(a) && exists|sd: Seq<(u64, usize, usize)>|
            #![trigger sorted_dists(sd)]
            valid_dist_listing(boxes_of(input@), sd) && part1_result(
                boxes_of(input@),
                sd,
                1000,
                a as int,
            ),
        r.1 matches Solution::U64(b) && exists|sd: Seq<(u64, usize, usize)>|
            #![trigger sorted_dists(sd)]
            valid_dist_listing(boxes_of(input@), sd) && part2_result(boxes_of(input@), sd, b as int),
{
    let sol1 = solve_part1(&input, 1000);
    let sol2 = solve_part2(&input);
    (Solution::from(sol1), Solution::from(sol2))
}

/// Find the first comma, with its place pinned to the separator spec.
fn comma_pos(t: &Vec<char>) -> (r: usize)
    ensures
        r == sep_pos(t@, ','),
        r <= t@.len(),
{
    let n = t.len();
    let mut p: usize = 0;
    while p < n && t[p] != ','
        invariant
            p <= n == t@.len(),
            forall|k: int| 0 <= k < p ==> t@[k] != ',',
        decreases n - p,
    {
        p = p + 1;
    }
    proof {
        crate::text::lemma_sep_pos_le(t@, ',');
        if p < n {
            assert(sep_pos(t@, ',') == p) by {
                if sep_pos(t@, ',') < p {
                    assert(t@[sep_pos(t@, ',') as int] == ',');
                }
            }
        } else {
            assert(sep_pos(t@, ',') == n);
        }
    }
    p
}

/// One signed coordinate within the boxes' range.
fn coord_ok(t: &Vec<char>) -> (r: bool)
    ensures
        r == (signed_val(t@) is Some && -1000000 <= signed_val(t@).unwrap() <= 1000000),
{
    match parse_i64(t) {
        Some(v) => -1000000 <= v && v <= 1000000,
        None => false,
    }
}

/// Decide the condition the solvers assume of the input: two to a thousand
/// boxes, each a comma-separated triple of signed coordinates within range.
pub fn input_ok(input: &str) -> (r: bool)
    ensures
        r == input_wf(input@),
{
    let chars = chars_vec(input);
    let toks = split_tokens(&chars);
    proof {
        assert(crate::text::views(toks@) == tokens(input@));
    }
    if toks.len() < 2 || toks.len() > 1000 {
        return false;
    }
    let mut i: usize = 0;
    while i < toks.len()
        invariant
            i <= toks@.len(),
            crate::text::views(toks@) == tokens(input@),
            2 <= toks@.len() == tokens(input@).len() <= 1000,
            forall|q: int| 0 <= q < i ==> box_wf(#[trigger] tokens(input@)[q]),
        decreases toks@.len() - i,
    {
        let t = &toks[i];
        proof {
            assert(tokens(input@)[i as int] == toks@[i as int]@);
        }
        let n = t.len();
        let p = comma_pos(t);
        if p >= n {
            proof {
                assert(!box_wf(t@));
            }
            return false;
        }
        let xs = copy_range(t, 0, p);
        let rest = copy_range(t, p + 1, n);
        proof {
            assert(xs@ =~= t@.take(p as int));
            assert(rest@ =~= t@.skip(p + 1));
        }
        let m = rest.len();
        let q = comma_pos(&rest);
        if q >= m {
            proof {
                assert(!box_wf(t@));
            }
            return false;
        }
        let ys = copy_range(&rest, 0, q);
        let zs = copy_range(&rest, q + 1, m);
        proof {
            assert(ys@ =~= rest@.take(q as int));
            assert(zs@ =~= rest@.skip(q + 1));
        }
        if !coord_ok(&xs) {
            return false;
        }
        if !coord_ok(&ys) {
            return false;
        }
        if !coord_ok(&zs) {
            return false;
        }
        proof {
            assert(box_wf(t@));
        }
        i = i + 1;
    }
    true
}

} // verus!
