use crate::solution::Solution;
use crate::text::{
    all_digits, chars_vec, copy_range, dec_val, is_digit, lines_of, parse_u64, sep_pos,
    split_lines, split_on, trim, trim_spec, views,
};
use crate::SolutionPair;
use vstd::prelude::*;

verus! {

/// One machine's initialization procedure.
#[derive(Debug, PartialEq)]
pub struct InitProcedure {
    /// required indicator lights stored as a binary representation where the
    /// i-th bit is ON if the i-th indicator light is required to be ON.
    pub required_indicator_lights: u64,
    /// each button is stored as a binary representation where the i-th bit is
    /// ON if this button toggles the i-th indicator light.
    pub toggle_buttons: Vec<u64>,
    pub specified_joltage_levels: Vec<u64>,
}

// ---------------------------------------------------------------------------
// Parsing
// ---------------------------------------------------------------------------

/// The value of a light diagram, leftmost cell in the lowest bit.
pub open spec fn bits_val(t: Seq<char>) -> int
    decreases t.len(),
{
    if t.len() == 0 {
        0
    } else {
        (if t[0] == '#' {
            1int
        } else {
            0int
        }) + 2 * bits_val(t.skip(1))
    }
}

/// The bit mask of a button: one bit per listed light, repeats added again.
pub open spec fn mask_val(nums: Seq<int>) -> int
    decreases nums.len(),
{
    if nums.len() == 0 {
        0
    } else {
        mask_val(nums.drop_last()) + pow2n(nums.last())
    }
}

pub open spec fn pow2n(n: int) -> int
    decreases n,
{
    if n <= 0 {
        1
    } else {
        2 * pow2n(n - 1)
    }
}

/// The numbers of a comma-separated group.
pub open spec fn nums_of(t: Seq<char>) -> Seq<int> {
    crate::text::split_at(t, ',').map_values(|p: Seq<char>| dec_val(p))
}

/// A comma-separated group of decimal numbers, each one small.
pub open spec fn group_wf(t: Seq<char>) -> bool {
    &&& crate::text::split_at(t, ',').len() <= 64
    &&& 0 <= mask_val(nums_of(t)) < 0x1000
    &&& forall|k: int|
        0 <= k < crate::text::split_at(t, ',').len() ==> all_digits(
            #[trigger] crate::text::split_at(t, ',')[k],
        ) && crate::text::split_at(t, ',')[k].len() >= 1 && dec_val(
            crate::text::split_at(t, ',')[k],
        ) <= 11
}

/// The parenthesized groups of a line, in order.
pub open spec fn paren_groups(t: Seq<char>) -> Seq<Seq<char>>
    decreases t.len(),
    via paren_groups_decreases
{
    if t.len() == 0 {
        Seq::empty()
    } else if t[0] == '(' {
        let q = sep_pos(t.skip(1), ')') as int;
        if q < t.skip(1).len() {
            seq![t.skip(1).take(q)] + paren_groups(t.skip(q + 2))
        } else {
            Seq::empty()
        }
    } else {
        paren_groups(t.skip(1))
    }
}

#[via_fn]
proof fn paren_groups_decreases(t: Seq<char>) {
    if t.len() > 0 && t[0] == '(' {
        crate::text::lemma_sep_pos_le(t.skip(1), ')');
    }
}

/// The first brace-delimited group of a line.
pub open spec fn brace_group(t: Seq<char>) -> Seq<char> {
    let b = sep_pos(t, '{') as int;
    let rest = t.skip(b + 1);
    rest.take(sep_pos(rest, '}') as int)
}

/// A procedure line is well formed: a light diagram in brackets, buttons in
/// parentheses, levels in braces, everything within machine ranges.
pub open spec fn line_wf(t: Seq<char>) -> bool {
    let r = sep_pos(t, ']') as int;
    &&& 1 <= r < t.len()
    &&& forall|k: int| 1 <= k < r ==> t[k] == '.' || t[k] == '#'
    &&& r - 1 <= 12
    &&& forall|g: int|
        0 <= g < paren_groups(t).len() ==> group_wf(#[trigger] paren_groups(t)[g])
    &&& sep_pos(t, '{') < t.len()
    &&& sep_pos(t.skip(sep_pos(t, '{') as int + 1), '}') < t.skip(
        sep_pos(t, '{') as int + 1,
    ).len()
    &&& forall|k: int|
        0 <= k < crate::text::split_at(brace_group(t), ',').len() ==> all_digits(
            #[trigger] crate::text::split_at(brace_group(t), ',')[k],
        ) && crate::text::split_at(brace_group(t), ',')[k].len() >= 1 && dec_val(
            crate::text::split_at(brace_group(t), ',')[k],
        ) <= 0xffffffff
}

/// The parsed values of one procedure line.
pub open spec fn proc_of(t: Seq<char>) -> (int, Seq<int>, Seq<int>) {
    let r = sep_pos(t, ']') as int;
    (
        bits_val(t.subrange(1, r)),
        paren_groups(t).map_values(|g: Seq<char>| mask_val(nums_of(g))),
        crate::text::split_at(brace_group(t), ',').map_values(|p: Seq<char>| dec_val(p)),
    )
}

pub open spec fn procs_of(s: Seq<char>) -> Seq<(int, Seq<int>, Seq<int>)> {
    procs_from(lines_of(s))
}

pub open spec fn procs_from(lines: Seq<Seq<char>>) -> Seq<(int, Seq<int>, Seq<int>)>
    decreases lines.len(),
{
    if lines.len() == 0 {
        Seq::empty()
    } else {
        let head: Seq<(int, Seq<int>, Seq<int>)> = if lines[0].len() == 0 {
            Seq::empty()
        } else {
            seq![proc_of(trim_spec(lines[0]))]
        };
        head + procs_from(lines.skip(1))
    }
}

pub open spec fn input_wf(s: Seq<char>) -> bool {
    &&& forall|i: int|
        0 <= i < lines_of(s).len() ==> (#[trigger] lines_of(s)[i]).len() == 0 || line_wf(
            trim_spec(lines_of(s)[i]),
        )
    &&& procs_of(s).len() <= 1000
    &&& forall|i: int|
        0 <= i < procs_of(s).len() ==> (#[trigger] procs_of(s)[i]).1.len() <= 64 && procs_of(
            s,
        )[i].2.len() <= 64
}

/// Parse the initialization procedures.
pub fn prepare(input: &str) -> (r: Vec<InitProcedure>)
    requires
        input_wf(input@),
    ensures
        r@.len() == procs_of(input@).len(),
        forall|i: int|
            0 <= i < r@.len() ==> (#[trigger] r@[i]).required_indicator_lights as int == procs_of(
                input@,
            )[i].0 && r@[i].toggle_buttons@.map_values(|x: u64| x as int) == procs_of(
                input@,
            )[i].1 && r@[i].specified_joltage_levels@.map_values(|x: u64| x as int) == procs_of(
                input@,
            )[i].2,
{
    let chars = chars_vec(input);
    let lines = split_lines(&chars);
    let ghost glines = lines_of(input@);
    let mut r: Vec<InitProcedure> = Vec::new();
    let mut li: usize = 0;
    proof {
        assert(glines.skip(0) =~= glines);
        assert(proc_views(r@) =~= Seq::<(int, Seq<int>, Seq<int>)>::empty());
        assert(proc_views(r@) + procs_from(glines) =~= procs_from(glines));
    }
    while li < lines.len()
        invariant
            li <= lines@.len(),
            views(lines@) == glines,
            glines == lines_of(input@),
            input_wf(input@),
            procs_from(glines) == proc_views(r@) + procs_from(glines.skip(li as int)),
        decreases lines@.len() - li,
    {
        let line = &lines[li];
        proof {
            assert(line@ == glines[li as int]);
            assert(glines.skip(li as int)[0] == glines[li as int]);
            assert(glines.skip(li as int).skip(1) =~= glines.skip(li + 1));
        }
        let ghost old_r = r@;
        if line.len() > 0 {
            let t = trim(line);
            proof {
                assert(line_wf(t@));
            }
            let proc = parse_line(&t);
            r.push(proc);
            proof {
                assert(proc_views(r@) =~= proc_views(old_r).push(proc_of(trim_spec(line@))));
                assert(proc_views(r@) + procs_from(glines.skip(li + 1)) =~= proc_views(old_r)
                    + procs_from(glines.skip(li as int)));
            }
        }
        li = li + 1;
    }
    proof {
        assert(glines.skip(li as int) =~= Seq::<Seq<char>>::empty());
        assert(procs_from(glines) =~= proc_views(r@));
    }
    r
}

pub open spec fn proc_views(r: Seq<InitProcedure>) -> Seq<(int, Seq<int>, Seq<int>)> {
    r.map_values(
        |p: InitProcedure|
            (
                p.required_indicator_lights as int,
                p.toggle_buttons@.map_values(|x: u64| x as int),
                p.specified_joltage_levels@.map_values(|x: u64| x as int),
            ),
    )
}

/// Parse one well-formed procedure line.
fn parse_line(t: &Vec<char>) -> (r: InitProcedure)
    requires
        line_wf(t@),
    ensures
        r.required_indicator_lights as int == proc_of(t@).0,
        r.toggle_buttons@.map_values(|x: u64| x as int) == proc_of(t@).1,
        r.specified_joltage_levels@.map_values(|x: u64| x as int) == proc_of(t@).2,
{
    let n = t.len();
    // The light diagram between the brackets.
    let mut rb: usize = 0;
    while rb < n && t[rb] != ']'
        invariant
            rb <= n == t@.len(),
            forall|k: int| 0 <= k < rb ==> t@[k] != ']',
        decreases n - rb,
    {
        rb = rb + 1;
    }
    proof {
        crate::text::lemma_sep_pos_le(t@, ']');
        if rb < n {
            if sep_pos(t@, ']') < rb {
                assert(t@[sep_pos(t@, ']') as int] == ']');
            }
        }
        assert(rb == sep_pos(t@, ']'));
        assert(1 <= rb < n);
    }
    let mut lights: u64 = 0;
    let mut k: usize = rb;
    while k > 1
        invariant
            1 <= k <= rb < n == t@.len(),
            rb == sep_pos(t@, ']'),
            line_wf(t@),
            rb - 1 <= 12,
            lights as int == bits_val(t@.subrange(k as int, rb as int)),
            lights < 0x1000,
        decreases k,
    {
        k = k - 1;
        proof {
            let sub = t@.subrange(k as int, rb as int);
            assert(sub[0] == t@[k as int]);
            assert(sub.skip(1) =~= t@.subrange(k + 1, rb as int));
            assert(t@[k as int] == '.' || t@[k as int] == '#');
            lemma_bits_bound(sub, rb - k);
            lemma_pow2n_12(rb - k);
        }
        if t[k] == '#' {
            lights = 2 * lights + 1;
        } else {
            lights = 2 * lights;
        }
    }
    proof {
        assert(t@.subrange(1, rb as int) == proc_snippet(t@));
    }
    // The toggle buttons from the parenthesized groups.
    let mut toggles: Vec<u64> = Vec::new();
    let mut i: usize = 0;
    let ghost groups = paren_groups(t@);
    let ghost mut gdone: Seq<Seq<char>> = Seq::empty();
    proof {
        assert(t@.skip(0) =~= t@);
        assert(gdone + paren_groups(t@) =~= paren_groups(t@));
        assert(toggles@.map_values(|x: u64| x as int) =~= gdone.map_values(
            |g: Seq<char>| mask_val(nums_of(g)),
        ));
    }
    while i < n
        invariant
            i <= n == t@.len(),
            line_wf(t@),
            groups == paren_groups(t@),
            groups_ok(t@),
            groups == gdone + paren_groups(t@.skip(i as int)),
            toggles@.map_values(|x: u64| x as int) =~= gdone.map_values(
                |g: Seq<char>| mask_val(nums_of(g)),
            ),
        decreases n - i,
    {
        if t[i] == '(' {
            let mut q: usize = i + 1;
            while q < n && t[q] != ')'
                invariant
                    i + 1 <= q <= n == t@.len(),
                    forall|w: int| i + 1 <= w < q ==> t@[w] != ')',
                decreases n - q,
            {
                q = q + 1;
            }
            proof {
                crate::text::lemma_sep_pos_le(t@.skip(i + 1), ')');
                assert(forall|w: int|
                    0 <= w < q - i - 1 ==> #[trigger] t@.skip(i + 1)[w] == t@[w + i + 1]);
                if q < n {
                    assert(t@.skip(i + 1)[q - i - 1] == t@[q as int]);
                    if sep_pos(t@.skip(i + 1), ')') < q - i - 1 {
                        assert(t@.skip(i + 1)[sep_pos(t@.skip(i + 1), ')') as int] == ')');
                    }
                    assert(sep_pos(t@.skip(i + 1), ')') == q - i - 1);
                } else {
                    assert(sep_pos(t@.skip(i + 1), ')') == q - i - 1);
                }
            }
            if q >= n {
                proof {
                    let s = t@.skip(i as int);
                    assert(s[0] == t@[i as int]);
                    assert(s.skip(1) =~= t@.skip(i + 1));
                    assert(sep_pos(s.skip(1), ')') >= s.skip(1).len());
                    assert(paren_groups(t@.skip(i as int)) =~= Seq::<Seq<char>>::empty());
                    assert(t@.skip(n as int) =~= Seq::<char>::empty());
                    assert(paren_groups(t@.skip(n as int)) =~= Seq::<Seq<char>>::empty());
                    assert(gdone + paren_groups(t@.skip(n as int)) =~= gdone + paren_groups(
                        t@.skip(i as int),
                    ));
                }
                i = n;
            } else {
                let group = copy_range(t, i + 1, q);
                proof {
                    let s = t@.skip(i as int);
                    assert(s[0] == t@[i as int]);
                    assert(s.skip(1) =~= t@.skip(i + 1));
                    assert(group@ =~= s.skip(1).take(q - i - 1));
                    assert(s.skip(q - i - 1 + 2) =~= t@.skip(q + 1));
                    assert(paren_groups(s) == seq![group@] + paren_groups(t@.skip(q + 1)));
                    assert(groups == (gdone.push(group@)) + paren_groups(t@.skip(q + 1))) by {
                        assert(gdone + (seq![group@] + paren_groups(t@.skip(q + 1))) =~= (
                        gdone.push(group@)) + paren_groups(t@.skip(q + 1)));
                    }
                    assert(groups[gdone.len() as int] == group@);
                    assert(group_wf(group@));
                }
                let mask = parse_mask(&group, Ghost(t@));
                let ghost old_toggles = toggles@;
                toggles.push(mask);
                proof {
                    gdone = gdone.push(group@);
                    assert(toggles@.map_values(|x: u64| x as int) =~= old_toggles.map_values(
                        |x: u64| x as int,
                    ).push(mask_val(nums_of(group@))));
                    assert(toggles@.map_values(|x: u64| x as int) =~= gdone.map_values(
                        |g: Seq<char>| mask_val(nums_of(g)),
                    ));
                }
                i = q + 1;
            }
        } else {
            proof {
                let s = t@.skip(i as int);
                assert(s[0] == t@[i as int]);
                assert(s.skip(1) =~= t@.skip(i + 1));
            }
            i = i + 1;
        }
    }
    proof {
        assert(t@.skip(i as int) =~= Seq::<char>::empty());
        assert(paren_groups(t@.skip(i as int)) =~= Seq::<Seq<char>>::empty());
        assert(gdone =~= groups);
        assert(toggles@.map_values(|x: u64| x as int) =~= groups.map_values(
            |g: Seq<char>| mask_val(nums_of(g)),
        ));
    }
    // The joltage levels from the braces.
    let mut b: usize = 0;
    while b < n && t[b] != '{'
        invariant
            b <= n == t@.len(),
            forall|w: int| 0 <= w < b ==> t@[w] != '{',
        decreases n - b,
    {
        b = b + 1;
    }
    proof {
        crate::text::lemma_sep_pos_le(t@, '{');
        if b < n {
            if sep_pos(t@, '{') < b {
                assert(t@[sep_pos(t@, '{') as int] == '{');
            }
        }
        assert(b == sep_pos(t@, '{'));
        assert(b < n);
    }
    let mut e: usize = b + 1;
    while e < n && t[e] != '}'
        invariant
            b + 1 <= e <= n == t@.len(),
            forall|w: int| b + 1 <= w < e ==> t@[w] != '}',
        decreases n - e,
    {
        e = e + 1;
    }
    proof {
        crate::text::lemma_sep_pos_le(t@.skip(b + 1), '}');
        assert(forall|w: int|
            0 <= w < e - b - 1 ==> #[trigger] t@.skip(b + 1)[w] == t@[w + b + 1]);
        if e < n {
            assert(t@.skip(b + 1)[e - b - 1] == t@[e as int]);
            if sep_pos(t@.skip(b + 1), '}') < e - b - 1 {
                assert(t@.skip(b + 1)[sep_pos(t@.skip(b + 1), '}') as int] == '}');
            }
            assert(sep_pos(t@.skip(b + 1), '}') == e - b - 1);
        } else {
            assert(sep_pos(t@.skip(b + 1), '}') == e - b - 1);
            assert(false);
        }
    }
    let braces = copy_range(t, b + 1, e);
    proof {
        assert(braces@ =~= t@.skip(b + 1).take(e - b - 1));
        assert(braces@ == brace_group(t@));
    }
    let pieces = split_on(&braces, ',');
    let mut levels: Vec<u64> = Vec::new();
    let mut w: usize = 0;
    proof {
        assert(views(pieces@) == crate::text::split_at(braces@, ','));
    }
    while w < pieces.len()
        invariant
            w <= pieces@.len(),
            views(pieces@) == crate::text::split_at(braces@, ','),
            braces@ == brace_group(t@),
            line_wf(t@),
            levels@.len() == w,
            forall|x: int|
                0 <= x < w ==> #[trigger] levels@[x] as int == dec_val(
                    crate::text::split_at(braces@, ',')[x],
                ),
        decreases pieces@.len() - w,
    {
        let piece = &pieces[w];
        proof {
            assert(piece@ == views(pieces@)[w as int]);
            assert(all_digits(crate::text::split_at(brace_group(t@), ',')[w as int]));
            assert(dec_val(crate::text::split_at(brace_group(t@), ',')[w as int]) <= 0xffffffff);
        }
        let v = match parse_u64(piece) {
            Some(x) => x,
            None => {
                proof {
                    assert(false);
                }
                0
            },
        };
        levels.push(v);
        w = w + 1;
    }
    proof {
        assert(levels@.map_values(|x: u64| x as int) =~= crate::text::split_at(
            brace_group(t@),
            ',',
        ).map_values(|p: Seq<char>| dec_val(p)));
        assert(toggles@.map_values(|x: u64| x as int) =~= paren_groups(t@).map_values(
            |g: Seq<char>| mask_val(nums_of(g)),
        ));
    }
    InitProcedure {
        required_indicator_lights: lights,
        toggle_buttons: toggles,
        specified_joltage_levels: levels,
    }
}

/// The light diagram inside the brackets.
pub open spec fn proc_snippet(t: Seq<char>) -> Seq<char> {
    t.subrange(1, sep_pos(t, ']') as int)
}

/// All groups of a line are well formed.
pub open spec fn groups_ok(t: Seq<char>) -> bool {
    forall|g: int|
        0 <= g < paren_groups(t).len() ==> group_wf(#[trigger] paren_groups(t)[g])
}

/// A light diagram's value is below two to its length.
pub proof fn lemma_bits_bound(sub: Seq<char>, len: int)
    requires
        sub.len() == len,
    ensures
        bits_val(sub) < pow2n(len),
        bits_val(sub) >= 0,
    decreases len,
{
    if len > 0 {
        lemma_bits_bound(sub.skip(1), len - 1);
    }
}

/// Parse one parenthesized group into its toggle mask.
fn parse_mask(group: &Vec<char>, t: Ghost<Seq<char>>) -> (r: u64)
    requires
        group_wf(group@),
    ensures
        r as int == mask_val(nums_of(group@)),
{
    let pieces = split_on(group, ',');
    let ghost gnums = nums_of(group@);
    let mut mask: u64 = 0;
    let mut w: usize = 0;
    proof {
        assert(views(pieces@) == crate::text::split_at(group@, ','));
        assert(gnums.take(0) =~= Seq::<int>::empty());
        assert(gnums.len() == pieces@.len());
    }
    while w < pieces.len()
        invariant
            w <= pieces@.len() == gnums.len(),
            views(pieces@) == crate::text::split_at(group@, ','),
            gnums == nums_of(group@),
            group_wf(group@),
            mask as int == mask_val(gnums.take(w as int)),
            mask <= w * 0x800,
        decreases pieces@.len() - w,
    {
        let piece = &pieces[w];
        proof {
            assert(piece@ == views(pieces@)[w as int]);
            assert(all_digits(crate::text::split_at(group@, ',')[w as int]));
            assert(dec_val(crate::text::split_at(group@, ',')[w as int]) <= 11);
            assert(gnums[w as int] == dec_val(crate::text::split_at(group@, ',')[w as int]));
        }
        let v = match parse_u64(piece) {
            Some(x) => x,
            None => {
                proof {
                    assert(false);
                }
                0
            },
        };
        proof {
            assert(gnums.take(w + 1).drop_last() =~= gnums.take(w as int));
            assert(gnums.take(w + 1).last() == gnums[w as int]);
            lemma_pow2n_small(gnums[w as int]);
            assert(mask + pow2n(gnums[w as int]) <= (w + 1) * 0x800) by (nonlinear_arith)
                requires
                    mask <= w * 0x800,
                    pow2n(gnums[w as int]) <= 0x800,
                    w >= 0,
            ;
        }
        let bit: u64 = 1u64 << (v as u32);
        proof {
            lemma_shift_is_pow2(v as u32);
            assert(bit as int == pow2n(v as int));
        }
        mask = mask + bit;
        w = w + 1;
    }
    proof {
        assert(gnums.take(gnums.len() as int) =~= gnums);
    }
    mask
}

pub proof fn lemma_pow2n_pos(n: int)
    ensures
        pow2n(n) >= 1,
    decreases (if n >= 0 {
        n
    } else {
        0
    }),
{
    if n > 0 {
        lemma_pow2n_pos(n - 1);
    }
}

pub proof fn lemma_pow2n_mono(a: int, b: int)
    requires
        a <= b,
    ensures
        pow2n(a) <= pow2n(b),
    decreases (if b >= 0 {
        b
    } else {
        0
    }),
{
    lemma_pow2n_pos(a);
    if a < b && b > 0 {
        lemma_pow2n_mono(a, b - 1);
        lemma_pow2n_pos(b - 1);
    }
}

pub proof fn lemma_pow2n_small(n: int)
    requires
        n <= 11,
    ensures
        pow2n(n) <= 0x800,
        pow2n(n) >= 1,
{
    lemma_pow2n_pos(n);
    lemma_pow2n_mono(n, 11);
    assert(pow2n(11) == 0x800) by {
        reveal_with_fuel(pow2n, 13);
    }
}

pub proof fn lemma_pow2n_12(n: int)
    requires
        n <= 12,
    ensures
        pow2n(n) <= 0x1000,
        pow2n(n) >= 1,
{
    lemma_pow2n_pos(n);
    lemma_pow2n_mono(n, 12);
    assert(pow2n(12) == 0x1000) by {
        reveal_with_fuel(pow2n, 14);
    }
}

/// A left shift of one is the matching power of two.
pub proof fn lemma_shift_is_pow2(v: u32)
    requires
        v <= 11,
    ensures
        (1u64 << v) as int == pow2n(v as int),
    decreases v,
{
    if v == 0 {
        assert(1u64 << 0u32 == 1) by (bit_vector);
    } else {
        lemma_shift_is_pow2((v - 1) as u32);
        assert(1u64 << v == 2 * (1u64 << ((v - 1) as u32))) by (bit_vector)
            requires
                1 <= v <= 11,
        ;
    }
}

// ---------------------------------------------------------------------------
// The light initialization search
// ---------------------------------------------------------------------------

/// Whether `k` button presses turn state `a` into state `b`.
pub open spec fn reaches(toggles: Seq<u64>, a: u64, b: u64, k: nat) -> bool
    decreases k,
{
    if k == 0 {
        a == b
    } else {
        exists|i: int| 0 <= i < toggles.len() && reaches(toggles, a ^ toggles[i], b, (k - 1) as nat)
    }
}

/// One more press extends a press sequence.
pub proof fn lemma_reaches_extend(toggles: Seq<u64>, a: u64, b: u64, k: nat, i: int)
    requires
        reaches(toggles, a, b, k),
        0 <= i < toggles.len(),
    ensures
        reaches(toggles, a, b ^ toggles[i], k + 1),
    decreases k,
{
    if k == 0 {
        assert(reaches(toggles, a ^ toggles[i], b ^ toggles[i], 0));
    } else {
        let w = choose|w: int|
            0 <= w < toggles.len() && reaches(toggles, a ^ toggles[w], b, (k - 1) as nat);
        lemma_reaches_extend(toggles, a ^ toggles[w], b, (k - 1) as nat, i);
    }
}

/// The least number of presses that lights the target.
pub open spec fn is_least_presses(toggles: Seq<u64>, target: u64, k: nat) -> bool {
    reaches(toggles, 0, target, k) && forall|k2: nat| k2 < k ==> !reaches(toggles, 0, target, k2)
}

/// Every neighbor of the state is already marked.
pub open spec fn nbrs_seen(seen: Seq<bool>, toggles: Seq<u64>, s: u64) -> bool {
    forall|i: int| 0 <= i < toggles.len() ==> seen[(s ^ #[trigger] toggles[i]) as int]
}

/// A press sequence splits off its last press.
pub proof fn lemma_reaches_last(toggles: Seq<u64>, a: u64, b: u64, k: nat)
    requires
        reaches(toggles, a, b, k),
        k >= 1,
    ensures
        exists|i: int, c: u64|
            #![trigger reaches(toggles, a, c, (k - 1) as nat), toggles[i]]
            0 <= i < toggles.len() && reaches(toggles, a, c, (k - 1) as nat) && (c ^ toggles[i])
                == b,
    decreases k,
{
    if k == 1 {
        let i = choose|i: int|
            0 <= i < toggles.len() && reaches(toggles, a ^ toggles[i], b, 0);
        assert(reaches(toggles, a, a, 0));
        assert((a ^ toggles[i]) == b);
    } else {
        let i0 = choose|i0: int|
            0 <= i0 < toggles.len() && reaches(toggles, a ^ toggles[i0], b, (k - 1) as nat);
        lemma_reaches_last(toggles, a ^ toggles[i0], b, (k - 1) as nat);
        let (i, c) = choose|i: int, c: u64|
            #![trigger reaches(toggles, a ^ toggles[i0], c, (k - 2) as nat), toggles[i]]
            0 <= i < toggles.len() && reaches(toggles, a ^ toggles[i0], c, (k - 2) as nat) && (c
                ^ toggles[i]) == b;
        assert(reaches(toggles, a, c, (k - 1) as nat));
    }
}

/// A state set that holds the start and every neighbor of its members holds
/// every reachable state.
pub proof fn lemma_closed_reach(toggles: Seq<u64>, seen: Seq<bool>, s: u64, k: nat)
    requires
        seen.len() == 4096,
        seen[0],
        forall|i: int| 0 <= i < toggles.len() ==> (#[trigger] toggles[i]) < 0x1000,
        forall|q: u64| q < 4096 && seen[q as int] ==> #[trigger] nbrs_seen(seen, toggles, q),
        reaches(toggles, 0, s, k),
    ensures
        s < 4096,
        seen[s as int],
    decreases k,
{
    if k == 0 {
        assert(s == 0);
    } else {
        lemma_reaches_last(toggles, 0, s, k);
        let (i, c) = choose|i: int, c: u64|
            #![trigger reaches(toggles, 0, c, (k - 1) as nat), toggles[i]]
            0 <= i < toggles.len() && reaches(toggles, 0, c, (k - 1) as nat) && (c ^ toggles[i])
                == s;
        lemma_closed_reach(toggles, seen, c, (k - 1) as nat);
        assert(nbrs_seen(seen, toggles, c));
        assert(seen[(c ^ toggles[i]) as int]);
        let t = toggles[i];
        assert(s < 4096) by (bit_vector)
            requires
                c < 4096,
                t < 0x1000,
                s == c ^ t,
        ;
    }
}

/// Return the smallest number of buttons to push in order to perform the
/// initialization procedure: a breadth-first exploration, one light-state
/// level at a time. `None` exactly when the target cannot be lit.
#[verifier::rlimit(100)]
pub fn init_steps(init: &InitProcedure) -> (r: Option<u64>)
    requires
        init.required_indicator_lights < 0x1000,
        forall|i: int|
            0 <= i < init.toggle_buttons@.len() ==> (#[trigger] init.toggle_buttons@[i]) < 0x1000,
    ensures
        match r {
            Some(k) => is_least_presses(
                init.toggle_buttons@,
                init.required_indicator_lights,
                k as nat,
            ) && k <= 4096,
            None => forall|k: nat|
                !(#[trigger] reaches(init.toggle_buttons@, 0, init.required_indicator_lights, k)),
        },
{
    let ghost toggles = init.toggle_buttons@;
    let target = init.required_indicator_lights;
    let mut shortest_path: Vec<u64> = Vec::new();
    let mut seen: Vec<bool> = Vec::new();
    let mut q: usize = 0;
    while q < 4096
        invariant
            q <= 4096,
            shortest_path@.len() == q,
            seen@.len() == q,
            forall|x: int| 0 <= x < q ==> #[trigger] shortest_path@[x] == 0u64,
            forall|x: int| 0 <= x < q ==> #[trigger] seen@[x] == false,
        decreases 4096 - q,
    {
        shortest_path.push(0);
        seen.push(false);
        q = q + 1;
    }
    let ghost pre = seen@;
    seen.set(0, true);
    let ghost mut nseen: int = 1;
    proof {
        lemma_count_zeros(pre, 4096);
        lemma_count_update(pre, 4096, 0);
        assert(count_seen(seen@, 4096) == 1);
        assert(reaches(toggles, 0, 0, 0));
    }
    let mut frontier: Vec<u64> = Vec::new();
    frontier.push(0);
    let mut d: u64 = 0;
    proof {
        assert(frontier@[0] == 0u64);
        assert(in_list(frontier@, 0u64));
    }
    while frontier.len() > 0
        invariant
            shortest_path@.len() == 4096,
            seen@.len() == 4096,
            target < 0x1000,
            target == init.required_indicator_lights,
            toggles == init.toggle_buttons@,
            forall|i: int| 0 <= i < toggles.len() ==> (#[trigger] toggles[i]) < 0x1000,
            seen@[0],
            nseen == count_seen(seen@, 4096),
            nseen <= 4096,
            frontier@.len() >= 1 ==> d + 1 <= nseen,
            d <= 4096,
            // every marked state carries its exact least press count
            forall|s: u64|
                s < 4096 && seen@[s as int] ==> #[trigger] shortest_path@[s as int] <= d
                    && reaches(toggles, 0, s, shortest_path@[s as int] as nat),
            forall|s: u64, k: nat|
                s < 4096 && seen@[s as int] && k < shortest_path@[s as int] ==> !(
                #[trigger] reaches(toggles, 0, s, k)),
            // every state within d presses is marked
            forall|s: u64, k: nat|
                k <= d && #[trigger] reaches(toggles, 0, s, k) ==> s < 4096 && seen@[s as int],
            // the frontier is exactly the level-d states
            forall|x: int|
                0 <= x < frontier@.len() ==> (#[trigger] frontier@[x]) < 4096
                    && seen@[frontier@[x] as int] && shortest_path@[frontier@[x] as int] == d,
            forall|s: u64|
                s < 4096 && seen@[s as int] && shortest_path@[s as int] == d ==> in_list(
                    frontier@,
                    s,
                ),
            // all earlier levels already spread to their neighbors
            forall|s: u64|
                s < 4096 && seen@[s as int] && #[trigger] shortest_path@[s as int] < d
                    ==> nbrs_seen(seen@, toggles, s),
        decreases 4096 - nseen + frontier@.len(),
    {
        if seen[target as usize] {
            let sp = shortest_path[target as usize];
            proof {
                assert(reaches(toggles, 0, target, sp as nat));
                assert(forall|k2: nat| k2 < sp as nat ==> !reaches(toggles, 0, target, k2));
            }
            return Some(sp);
        }
        let ghost entry_seen = seen@;
        let ghost entry_sp = shortest_path@;
        let ghost entry_nseen = nseen;
        let mut next: Vec<u64> = Vec::new();
        let mut x: usize = 0;
        while x < frontier.len()
            invariant
                x <= frontier@.len(),
                shortest_path@.len() == 4096,
                seen@.len() == 4096,
                target < 0x1000,
                toggles == init.toggle_buttons@,
                forall|i: int| 0 <= i < toggles.len() ==> (#[trigger] toggles[i]) < 0x1000,
                seen@[0],
                d <= 4095,
                nseen == count_seen(seen@, 4096),
                nseen <= 4096,
                nseen == entry_nseen + next@.len(),
                // marking only grows, and old levels keep their counts
                forall|s: int| 0 <= s < 4096 && entry_seen[s] ==> seen@[s],
                forall|s: int|
                    0 <= s < 4096 && entry_seen[s] ==> #[trigger] shortest_path@[s]
                        == entry_sp[s],
                forall|s: int|
                    0 <= s < 4096 && !entry_seen[s] && seen@[s] ==> #[trigger] shortest_path@[s]
                        == d + 1,
                // soundness and minimality per marked state
                forall|s: u64|
                    s < 4096 && seen@[s as int] ==> #[trigger] shortest_path@[s as int] <= d + 1
                        && reaches(toggles, 0, s, shortest_path@[s as int] as nat),
                forall|s: u64, k: nat|
                    s < 4096 && seen@[s as int] && k < shortest_path@[s as int] ==> !(
                    #[trigger] reaches(toggles, 0, s, k)),
                // completeness up to level d still holds
                forall|s: u64, k: nat|
                    k <= d && #[trigger] reaches(toggles, 0, s, k) ==> s < 4096 && seen@[
                        s as int
                    ],
                // the frontier itself is unchanged
                forall|y: int|
                    0 <= y < frontier@.len() ==> (#[trigger] frontier@[y]) < 4096
                        && entry_seen[frontier@[y] as int] && shortest_path@[frontier@[y] as int]
                        == d,
                forall|s: u64|
                    s < 4096 && entry_seen[s as int] && shortest_path@[s as int] == d
                        ==> in_list(frontier@, s),
                // the processed part of the frontier has spread
                forall|y: int|
                    0 <= y < x ==> nbrs_seen(seen@, toggles, #[trigger] frontier@[y]),
                // what this level marked sits in `next`, and only that
                forall|y: int|
                    0 <= y < next@.len() ==> (#[trigger] next@[y]) < 4096
                        && seen@[next@[y] as int] && shortest_path@[next@[y] as int] == d + 1,
                forall|s: u64|
                    s < 4096 && seen@[s as int] && shortest_path@[s as int] == d + 1 ==> in_list(
                        next@,
                        s,
                    ),
                // old levels stay spread
                forall|s: u64|
                    s < 4096 && seen@[s as int] && #[trigger] shortest_path@[s as int] < d
                        ==> nbrs_seen(seen@, toggles, s),
            decreases frontier@.len() - x,
        {
            let f = frontier[x];
            let ghost sp_f = shortest_path@[f as int];
            let mut ti: usize = 0;
            while ti < init.toggle_buttons.len()
                invariant
                    ti <= init.toggle_buttons@.len(),
                    x < frontier@.len(),
                    f == frontier@[x as int],
                    f < 4096,
                    shortest_path@.len() == 4096,
                    seen@.len() == 4096,
                    target < 0x1000,
                    toggles == init.toggle_buttons@,
                    forall|i: int| 0 <= i < toggles.len() ==> (#[trigger] toggles[i]) < 0x1000,
                    seen@[0],
                    d <= 4095,
                    nseen == count_seen(seen@, 4096),
                    nseen <= 4096,
                    nseen == entry_nseen + next@.len(),
                    seen@[f as int] && shortest_path@[f as int] == d,
                    reaches(toggles, 0, f, d as nat),
                    forall|s: int| 0 <= s < 4096 && entry_seen[s] ==> seen@[s],
                    forall|s: int|
                        0 <= s < 4096 && entry_seen[s] ==> #[trigger] shortest_path@[s]
                            == entry_sp[s],
                    forall|s: int|
                        0 <= s < 4096 && !entry_seen[s] && seen@[s]
                            ==> #[trigger] shortest_path@[s] == d + 1,
                    forall|s: u64|
                        s < 4096 && seen@[s as int] ==> #[trigger] shortest_path@[s as int] <= d
                            + 1 && reaches(toggles, 0, s, shortest_path@[s as int] as nat),
                    forall|s: u64, k: nat|
                        s < 4096 && seen@[s as int] && k < shortest_path@[s as int] ==> !(
                        #[trigger] reaches(toggles, 0, s, k)),
                    forall|s: u64, k: nat|
                        k <= d && #[trigger] reaches(toggles, 0, s, k) ==> s < 4096 && seen@[
                            s as int
                        ],
                    forall|y: int|
                        0 <= y < frontier@.len() ==> (#[trigger] frontier@[y]) < 4096
                            && entry_seen[frontier@[y] as int] && shortest_path@[frontier@[
                        y as int] as int] == d,
                    forall|s: u64|
                        s < 4096 && entry_seen[s as int] && shortest_path@[s as int] == d
                            ==> in_list(frontier@, s),
                    forall|y: int|
                        0 <= y < x ==> nbrs_seen(seen@, toggles, #[trigger] frontier@[y]),
                    forall|i: int| 0 <= i < ti ==> seen@[(f ^ #[trigger] toggles[i]) as int],
                    forall|y: int|
                        0 <= y < next@.len() ==> (#[trigger] next@[y]) < 4096
                            && seen@[next@[y] as int] && shortest_path@[next@[y] as int] == d + 1,
                    forall|s: u64|
                        s < 4096 && seen@[s as int] && shortest_path@[s as int] == d + 1
                            ==> in_list(next@, s),
                    forall|s: u64|
                        s < 4096 && seen@[s as int] && #[trigger] shortest_path@[s as int] < d
                            ==> nbrs_seen(seen@, toggles, s),
                decreases init.toggle_buttons@.len() - ti,
            {
                let toggle = init.toggle_buttons[ti];
                let n = f ^ toggle;
                proof {
                    assert(n < 4096) by (bit_vector)
                        requires
                            f < 4096,
                            toggle < 0x1000,
                            n == f ^ toggle,
                    ;
                }
                if !seen[n as usize] {
                    proof {
                        lemma_count_update(seen@, 4096, n as int);
                        lemma_reaches_extend(toggles, 0, f, d as nat, ti as int);
                        assert(f ^ toggles[ti as int] == n);
                        assert(reaches(toggles, 0, n, (d + 1) as nat));
                        assert(forall|k: nat| k <= d ==> !reaches(toggles, 0, n, k));
                    }
                    let ghost before_seen = seen@;
                    seen.set(n as usize, true);
                    shortest_path.set(n as usize, d + 1);
                    let ghost old_next = next@;
                    next.push(n);
                    proof {
                        nseen = nseen + 1;
                        lemma_count_le(seen@, 4096);
                        assert(next@[next@.len() - 1] == n);
                        assert(in_list(next@, n));
                        assert forall|s: u64|
                            s < 4096 && seen@[s as int] && shortest_path@[s as int] == d + 1
                                implies in_list(next@, s) by {
                            if s != n {
                                assert(in_list(old_next, s));
                                let y = choose|y: int|
                                    0 <= y < old_next.len() && old_next[y] == s;
                                assert(next@[y] == s);
                            }
                        }
                        assert forall|s: u64|
                            s < 4096 && entry_seen[s as int] && shortest_path@[s as int] == d
                                implies in_list(frontier@, s) by {
                            assert(s != n);
                        }
                        assert forall|y: int| 0 <= y < x implies nbrs_seen(
                            seen@,
                            toggles,
                            #[trigger] frontier@[y],
                        ) by {
                            let q = frontier@[y];
                            assert(nbrs_seen(before_seen, toggles, q));
                            assert forall|i: int| 0 <= i < toggles.len() implies seen@[(q
                                ^ #[trigger] toggles[i]) as int] by {
                                let t = toggles[i];
                                let m = q ^ t;
                                assert(m < 4096) by (bit_vector)
                                    requires
                                        q < 4096,
                                        t < 0x1000,
                                        m == q ^ t,
                                ;
                                if m != n {
                                    assert(before_seen[m as int]);
                                    assert(seen@[m as int] == before_seen[m as int]);
                                } else {
                                    assert(seen@[n as int]);
                                }
                            }
                        }
                        assert forall|i: int| 0 <= i < ti + 1 implies seen@[(f
                            ^ #[trigger] toggles[i]) as int] by {
                            let t2 = toggles[i];
                            let m = f ^ t2;
                            assert(m < 4096) by (bit_vector)
                                requires
                                    f < 4096,
                                    t2 < 0x1000,
                                    m == f ^ t2,
                            ;
                            if i == ti {
                                assert(m == n);
                                assert(seen@[n as int]);
                            } else if m != n {
                                assert(before_seen[m as int]);
                                assert(seen@[m as int] == before_seen[m as int]);
                            } else {
                                assert(seen@[n as int]);
                            }
                        }
                        assert forall|s: u64|
                            s < 4096 && seen@[s as int] && #[trigger] shortest_path@[s as int]
                                < d implies nbrs_seen(seen@, toggles, s) by {
                            assert(s != n);
                            assert(before_seen[s as int]);
                            assert(nbrs_seen(before_seen, toggles, s));
                            assert forall|i: int| 0 <= i < toggles.len() implies seen@[(s
                                ^ #[trigger] toggles[i]) as int] by {
                                let t = toggles[i];
                                let m = s ^ t;
                                assert(m < 4096) by (bit_vector)
                                    requires
                                        s < 4096,
                                        t < 0x1000,
                                        m == s ^ t,
                                ;
                                if m != n {
                                    assert(before_seen[m as int]);
                                    assert(seen@[m as int] == before_seen[m as int]);
                                } else {
                                    assert(seen@[n as int]);
                                }
                            }
                        }
                    }
                }
                ti = ti + 1;
            }
            proof {
                assert(nbrs_seen(seen@, toggles, f));
            }
            x = x + 1;
        }
        proof {
            // completeness moves up one level
            assert forall|s: u64, k: nat|
                k <= d + 1 && #[trigger] reaches(toggles, 0, s, k) implies s < 4096 && seen@[
                s as int] by {
                if k <= d {
                } else {
                    lemma_reaches_last(toggles, 0, s, k);
                    let (i, c) = choose|i: int, c: u64|
                        #![trigger reaches(toggles, 0, c, (k - 1) as nat), toggles[i]]
                        0 <= i < toggles.len() && reaches(toggles, 0, c, (k - 1) as nat) && (c
                            ^ toggles[i]) == s;
                    assert(c < 4096 && seen@[c as int]);
                    let t = toggles[i];
                    assert(s < 4096) by (bit_vector)
                        requires
                            c < 4096,
                            t < 0x1000,
                            s == c ^ t,
                    ;
                    if entry_seen[c as int] {
                        if shortest_path@[c as int] == d {
                            assert(in_list(frontier@, c));
                            let y = choose|y: int|
                                0 <= y < frontier@.len() && frontier@[y] == c;
                            assert(nbrs_seen(seen@, toggles, c));
                            assert(seen@[(c ^ toggles[i]) as int]);
                        } else {
                            assert(shortest_path@[c as int] < d);
                            assert(nbrs_seen(seen@, toggles, c));
                            assert(seen@[(c ^ toggles[i]) as int]);
                        }
                    } else {
                        assert(shortest_path@[c as int] == d + 1);
                        assert(k - 1 < shortest_path@[c as int]  ==> !reaches(
                            toggles,
                            0,
                            c,
                            (k - 1) as nat,
                        ));
                        assert(k == d + 1 && shortest_path@[c as int] == d + 1);
                        assert(false);
                    }
                }
            }
            // every settled level has spread
            assert forall|s: u64|
                s < 4096 && seen@[s as int] && #[trigger] shortest_path@[s as int] < d + 1
                    implies nbrs_seen(seen@, toggles, s) by {
                if shortest_path@[s as int] == d {
                    assert(entry_seen[s as int]);
                    assert(in_list(frontier@, s));
                    let y = choose|y: int| 0 <= y < frontier@.len() && frontier@[y] == s;
                }
            }
        }
        d = d + 1;
        frontier = next;
    }
    if seen[target as usize] {
        let sp = shortest_path[target as usize];
        proof {
            assert(reaches(toggles, 0, target, sp as nat));
            assert(forall|k2: nat| k2 < sp as nat ==> !reaches(toggles, 0, target, k2));
        }
        return Some(sp);
    }
    proof {
        assert forall|s: u64| s < 4096 && seen@[s as int] implies #[trigger] nbrs_seen(
            seen@,
            toggles,
            s,
        ) by {
            assert(shortest_path@[s as int] <= d);
            if shortest_path@[s as int] == d {
                assert(in_list(frontier@, s));
                assert(false);
            }
        }
        assert forall|k: nat|
            !(#[trigger] reaches(toggles, 0, target, k)) by {
            if reaches(toggles, 0, target, k) {
                lemma_closed_reach(toggles, seen@, target, k);
            }
        }
    }
    None
}

/// Membership in a worklist.
pub open spec fn in_list(l: Seq<u64>, s: u64) -> bool {
    exists|x: int| 0 <= x < l.len() && l[x] == s
}

/// How many states are marked seen.
/// How many states are marked seen.
pub open spec fn count_seen(seen: Seq<bool>, hi: int) -> int
    decreases hi,
{
    if hi <= 0 {
        0
    } else {
        count_seen(seen, hi - 1) + (if seen[hi - 1] {
            1int
        } else {
            0int
        })
    }
}

/// Marking an unseen state raises the count by one.
pub proof fn lemma_count_set(seen: Seq<bool>, i: int)
    requires
        0 <= i < seen.len(),
    ensures
        !seen[i] ==> count_seen(seen.update(i, true), seen.len() as int) == count_seen(
            seen,
            seen.len() as int,
        ) + 1,
        seen[i] ==> count_seen(seen.update(i, true), seen.len() as int) == count_seen(
            seen,
            seen.len() as int,
        ),
        count_seen(seen, seen.len() as int) >= 0,
{
    lemma_count_update(seen, seen.len() as int, i);
    lemma_count_nonneg(seen, seen.len() as int);
}

pub proof fn lemma_count_update(seen: Seq<bool>, hi: int, i: int)
    requires
        0 <= i < hi <= seen.len(),
    ensures
        count_seen(seen.update(i, true), hi) == count_seen(seen, hi) + (if seen[i] {
            0int
        } else {
            1int
        }),
    decreases hi,
{
    let t = seen.update(i, true);
    if i == hi - 1 {
        lemma_count_same(seen, t, hi - 1);
    } else {
        lemma_count_update(seen, hi - 1, i);
        assert(t[hi - 1] == seen[hi - 1]);
    }
}

pub proof fn lemma_count_same(a: Seq<bool>, b: Seq<bool>, hi: int)
    requires
        forall|k: int| 0 <= k < hi ==> a[k] == b[k],
    ensures
        count_seen(a, hi) == count_seen(b, hi),
    decreases hi,
{
    if hi > 0 {
        lemma_count_same(a, b, hi - 1);
    }
}

pub proof fn lemma_count_le(seen: Seq<bool>, hi: int)
    requires
        hi >= 0,
    ensures
        count_seen(seen, hi) <= hi,
    decreases hi,
{
    if hi > 0 {
        lemma_count_le(seen, hi - 1);
    }
}

pub proof fn lemma_count_nonneg(seen: Seq<bool>, hi: int)
    ensures
        count_seen(seen, hi) >= 0,
    decreases hi,
{
    if hi > 0 {
        lemma_count_nonneg(seen, hi - 1);
    }
}

pub proof fn lemma_count_zeros(seen: Seq<bool>, hi: int)
    requires
        forall|k: int| 0 <= k < hi ==> !(#[trigger] seen[k]),
    ensures
        count_seen(seen, hi) == 0,
    decreases hi,
{
    if hi > 0 {
        lemma_count_zeros(seen, hi - 1);
    }
}

/// The toggle masks of the i-th procedure, as machine words.
pub open spec fn toggles_of(s: Seq<char>, i: int) -> Seq<u64> {
    procs_of(s)[i].1.map_values(|x: int| x as u64)
}

/// The required lights of the i-th procedure, as a machine word.
pub open spec fn target_of(s: Seq<char>, i: int) -> u64 {
    procs_of(s)[i].0 as u64
}

/// The i-th procedure's answer: the least press count when its lights can
/// be lit, and zero otherwise.
pub open spec fn proc_presses(s: Seq<char>, i: int, k: int) -> bool {
    if exists|kk: nat| #[trigger] reaches(toggles_of(s, i), 0, target_of(s, i), kk) {
        k >= 0 && is_least_presses(toggles_of(s, i), target_of(s, i), k as nat)
    } else {
        k == 0
    }
}

/// Sum the least press counts over the procedures; a procedure whose lights
/// cannot be lit contributes nothing.
pub fn solve_part1(input: &str) -> (r: u64)
    requires
        input_wf(input@),
    ensures
        exists|ks: Seq<int>|
            #![trigger ks.len()]
            ks.len() == procs_of(input@).len() && r as int == sum_ints(ks) && forall|i: int|
                0 <= i < ks.len() ==> #[trigger] proc_presses(input@, i, ks[i]),
{
    let inits = prepare(input);
    let ghost gprocs = procs_of(input@);
    let mut total: u64 = 0;
    let mut i: usize = 0;
    let ghost mut ks: Seq<int> = Seq::empty();
    proof {
        assert(sum_ints(ks) == 0);
    }
    while i < inits.len()
        invariant
            i <= inits@.len(),
            inits@.len() == gprocs.len() <= 1000,
            input_wf(input@),
            gprocs == procs_of(input@),
            forall|k: int|
                0 <= k < inits@.len() ==> (#[trigger] inits@[k]).required_indicator_lights as int
                    == gprocs[k].0 && inits@[k].toggle_buttons@.map_values(|x: u64| x as int)
                    == gprocs[k].1,
            ks.len() == i,
            forall|k: int| 0 <= k < ks.len() ==> #[trigger] proc_presses(input@, k, ks[k]),
            forall|k: int| 0 <= k < ks.len() ==> 0 <= #[trigger] ks[k],
            total as int == sum_ints(ks),
            total <= i * 4096,
        decreases inits@.len() - i,
    {
        let init = &inits[i];
        proof {
            lemma_proc_bounds(input@, i as int);
            assert(init.required_indicator_lights as int == gprocs[i as int].0);
            assert forall|k: int| 0 <= k < init.toggle_buttons@.len() implies (
            #[trigger] init.toggle_buttons@[k]) < 0x1000 by {
                assert(init.toggle_buttons@[k] as int == gprocs[i as int].1[k]);
            }
            assert(toggles_of(input@, i as int) =~= init.toggle_buttons@) by {
                assert forall|k: int|
                    0 <= k < toggles_of(input@, i as int).len() implies toggles_of(
                    input@,
                    i as int,
                )[k] == init.toggle_buttons@[k] by {
                    assert(init.toggle_buttons@[k] as int == gprocs[i as int].1[k]);
                    assert(0 <= gprocs[i as int].1[k] < 0x1000);
                }
            }
            assert(target_of(input@, i as int) == init.required_indicator_lights);
        }
        let answer = init_steps(init);
        let steps = match answer {
            Some(k) => k,
            None => 0,
        };
        proof {
            match answer {
                Some(k) => {
                    assert(reaches(toggles_of(input@, i as int), 0, target_of(input@, i as int), k as nat));
                    assert(proc_presses(input@, i as int, steps as int));
                },
                None => {
                    assert(forall|kk: nat|
                        !(#[trigger] reaches(
                            toggles_of(input@, i as int),
                            0,
                            target_of(input@, i as int),
                            kk,
                        )));
                    assert(proc_presses(input@, i as int, 0));
                },
            }
            let old_ks = ks;
            ks = ks.push(steps as int);
            assert(ks.drop_last() =~= old_ks);
            assert(sum_ints(ks) == sum_ints(old_ks) + steps as int);
            assert(total + steps <= (i + 1) * 4096) by (nonlinear_arith)
                requires
                    total <= i * 4096,
                    steps <= 4096,
                    i >= 0,
            ;
        }
        total = total + steps;
        i = i + 1;
    }
    total
}

pub open spec fn sum_ints(s: Seq<int>) -> int
    decreases s.len(),
{
    if s.len() == 0 {
        0
    } else {
        sum_ints(s.drop_last()) + s.last()
    }
}

/// Every parsed light target is below the state-space bound, and every
/// toggle mask too.
pub proof fn lemma_proc_bounds(s: Seq<char>, i: int)
    requires
        input_wf(s),
        0 <= i < procs_of(s).len(),
    ensures
        0 <= procs_of(s)[i].0 < 0x1000,
        forall|k: int| 0 <= k < procs_of(s)[i].1.len() ==> 0 <= #[trigger] procs_of(s)[i].1[k]
            < 0x1000,
        forall|k: int| 0 <= k < procs_of(s)[i].2.len() ==> 0 <= #[trigger] procs_of(s)[i].2[k]
            <= 0xffffffff,
{
    lemma_procs_from_wf(lines_of(s), i);
}

/// Each parsed procedure comes from a well-formed line, so its numbers are
/// in range.
pub proof fn lemma_procs_from_wf(lines: Seq<Seq<char>>, i: int)
    requires
        0 <= i < procs_from(lines).len(),
        forall|k: int|
            0 <= k < lines.len() ==> (#[trigger] lines[k]).len() == 0 || line_wf(
                trim_spec(lines[k]),
            ),
    ensures
        0 <= procs_from(lines)[i].0 < 0x1000,
        forall|k: int|
            0 <= k < procs_from(lines)[i].1.len() ==> 0 <= #[trigger] procs_from(lines)[i].1[k]
                < 0x1000,
        forall|k: int|
            0 <= k < procs_from(lines)[i].2.len() ==> 0 <= #[trigger] procs_from(lines)[i].2[k]
                <= 0xffffffff,
    decreases lines.len(),
{
    if lines.len() > 0 {
        if lines[0].len() == 0 {
            lemma_procs_from_wf(lines.skip(1), i);
            assert(forall|k: int|
                0 <= k < lines.skip(1).len() ==> #[trigger] lines.skip(1)[k] == lines[k + 1]);
        } else {
            if i == 0 {
                lemma_line_values(trim_spec(lines[0]));
            } else {
                lemma_procs_from_wf(lines.skip(1), i - 1);
                assert(forall|k: int|
                    0 <= k < lines.skip(1).len() ==> #[trigger] lines.skip(1)[k] == lines[k + 1]);
            }
        }
    }
}

/// The values of one well-formed line are in range.
pub proof fn lemma_line_values(t: Seq<char>)
    requires
        line_wf(t),
    ensures
        0 <= proc_of(t).0 < 0x1000,
        forall|k: int| 0 <= k < proc_of(t).1.len() ==> 0 <= #[trigger] proc_of(t).1[k] < 0x1000,
        forall|k: int| 0 <= k < proc_of(t).2.len() ==> 0 <= #[trigger] proc_of(t).2[k]
            <= 0xffffffff,
{
    let r = sep_pos(t, ']') as int;
    lemma_bits_bound(t.subrange(1, r), r - 1);
    lemma_pow2n_12(r - 1);
    assert forall|k: int| 0 <= k < proc_of(t).1.len() implies 0 <= #[trigger] proc_of(t).1[k]
        < 0x1000 by {
        assert(group_wf(paren_groups(t)[k]));
        assert(proc_of(t).1[k] == mask_val(nums_of(paren_groups(t)[k])));
    }
    assert forall|k: int| 0 <= k < proc_of(t).2.len() implies 0 <= #[trigger] proc_of(t).2[k]
        <= 0xffffffff by {
        crate::text::lemma_dec_val_nonneg(crate::text::split_at(brace_group(t), ',')[k]);
    }
}

// ---------------------------------------------------------------------------
// The joltage search
// ---------------------------------------------------------------------------

/// Equation of a counter.
#[derive(Debug)]
pub struct Equation {
    /// Counter's target joltage.
    pub joltage: u64,
    /// buttons that increment this counter.
    pub buttons: Vec<usize>,
}

/// How many variables are still unassigned.
pub open spec fn free_count(env: Seq<Option<u64>>, hi: int) -> int
    decreases hi,
{
    if hi <= 0 {
        0
    } else {
        free_count(env, hi - 1) + (if env[hi - 1] is None {
            1int
        } else {
            0int
        })
    }
}

pub proof fn lemma_free_update(env: Seq<Option<u64>>, hi: int, i: int, v: u64)
    requires
        0 <= i < hi <= env.len(),
        env[i] is None,
    ensures
        free_count(env.update(i, Some(v)), hi) == free_count(env, hi) - 1,
    decreases hi,
{
    let t = env.update(i, Some(v));
    if i == hi - 1 {
        lemma_free_same(env, t, hi - 1);
    } else {
        lemma_free_update(env, hi - 1, i, v);
        assert(t[hi - 1] == env[hi - 1]);
    }
}

pub proof fn lemma_free_same(a: Seq<Option<u64>>, b: Seq<Option<u64>>, hi: int)
    requires
        forall|k: int| 0 <= k < hi ==> a[k] == b[k],
    ensures
        free_count(a, hi) == free_count(b, hi),
    decreases hi,
{
    if hi > 0 {
        lemma_free_same(a, b, hi - 1);
    }
}

pub proof fn lemma_free_nonneg(env: Seq<Option<u64>>, hi: int)
    ensures
        free_count(env, hi) >= 0,
        free_count(env, hi) <= (if hi >= 0 {
            hi
        } else {
            0
        }),
    decreases hi,
{
    if hi > 0 {
        lemma_free_nonneg(env, hi - 1);
    }
}

/// A free variable somewhere below `hi` keeps the count positive.
pub proof fn lemma_free_pos(env: Seq<Option<u64>>, hi: int, i: int)
    requires
        0 <= i < hi <= env.len(),
        env[i] is None,
    ensures
        free_count(env, hi) >= 1,
    decreases hi,
{
    lemma_free_nonneg(env, hi - 1);
    if i < hi - 1 {
        lemma_free_pos(env, hi - 1, i);
    }
}

/// The press counts of all buttons, bound ones as assigned and free ones
/// as given by the completion.
pub open spec fn extends(env: Seq<Option<u64>>, full: Seq<u64>) -> bool {
    &&& full.len() == env.len()
    &&& forall|k: int| 0 <= k < env.len() && env[k] is Some ==> full[k] == env[k].unwrap()
}

pub open spec fn sum_u64s(s: Seq<u64>) -> int
    decreases s.len(),
{
    if s.len() == 0 {
        0
    } else {
        sum_u64s(s.drop_last()) + s.last()
    }
}

pub proof fn lemma_sum_u64s_bound(s: Seq<u64>)
    requires
        forall|k: int| 0 <= k < s.len() ==> #[trigger] s[k] <= 0xffffffff,
    ensures
        0 <= sum_u64s(s) <= s.len() * 0x100000000,
    decreases s.len(),
{
    if s.len() > 0 {
        assert(forall|k: int|
            0 <= k < s.drop_last().len() ==> #[trigger] s.drop_last()[k] == s[k]);
        lemma_sum_u64s_bound(s.drop_last());
        assert(sum_u64s(s) <= s.len() * 0x100000000) by (nonlinear_arith)
            requires
                sum_u64s(s) == sum_u64s(s.drop_last()) + s.last(),
                sum_u64s(s.drop_last()) <= (s.len() - 1) * 0x100000000,
                s.last() <= 0xffffffff,
                s.len() >= 1,
        ;
    }
}

/// All equations and assignments stay within the 32-bit joltage range, and
/// no equation lists a button twice.
pub open spec fn problem_wf(equations: Seq<Equation>, env: Seq<Option<u64>>) -> bool {
    &&& equations.len() <= 64
    &&& env.len() <= 64
    &&& forall|e: int|
        0 <= e < equations.len() ==> (#[trigger] equations[e]).joltage <= 0xffffffff
            && equations[e].buttons@.len() <= 64 && (forall|b: int|
            0 <= b < equations[e].buttons@.len() ==> (#[trigger] equations[e].buttons@[b])
                < env.len()) && forall|b1: int, b2: int|
            0 <= b1 < b2 < equations[e].buttons@.len() ==> equations[e].buttons@[b1]
                != equations[e].buttons@[b2]
    &&& forall|k: int|
        0 <= k < env.len() && (#[trigger] env[k]) is Some ==> env[k].unwrap() <= 0xffffffff
}

/// The equation mentions the button.
pub open spec fn names_var(eq: Equation, var: int) -> bool {
    exists|b: int| 0 <= b < eq.buttons@.len() && (#[trigger] eq.buttons@[b]) as int == var
}

/// The presses an assignment gives the first `j` buttons of an equation.
pub open spec fn eq_sum(e: Seq<u64>, buttons: Seq<usize>, j: int) -> int
    decreases j,
{
    if j <= 0 {
        0
    } else {
        eq_sum(e, buttons, j - 1) + e[buttons[j - 1] as int]
    }
}

/// The assignment meets every counter's target exactly.
pub open spec fn satisfies(equations: Seq<Equation>, e: Seq<u64>) -> bool {
    forall|q: int|
        0 <= q < equations.len() ==> eq_sum(
            e,
            (#[trigger] equations[q]).buttons@,
            equations[q].buttons@.len() as int,
        ) == equations[q].joltage as int
}

/// A complete in-range assignment that honors the bound entries and every
/// equation.
pub open spec fn sat_extension(
    equations: Seq<Equation>,
    env: Seq<Option<u64>>,
    e: Seq<u64>,
) -> bool {
    &&& extends(env, e)
    &&& forall|k: int| 0 <= k < e.len() ==> #[trigger] e[k] <= 0xffffffff
    &&& satisfies(equations, e)
}

/// Some unassigned button occurs in no equation at all.
pub open spec fn orphan_var(equations: Seq<Equation>, env: Seq<Option<u64>>) -> bool {
    exists|k: int|
        0 <= k < env.len() && (#[trigger] env[k]) is None && forall|q: int|
            0 <= q < equations.len() ==> !names_var(#[trigger] equations[q], k)
}

/// The presses of the non-`var` buttons among the first `j`.
pub open spec fn nv_sum(e: Seq<u64>, buttons: Seq<usize>, j: int, var: int) -> int
    decreases j,
{
    if j <= 0 {
        0
    } else {
        nv_sum(e, buttons, j - 1, var) + (if buttons[j - 1] as int == var {
            0int
        } else {
            e[buttons[j - 1] as int] as int
        })
    }
}

/// The already-bound presses of the non-`var` buttons among the first `j`.
pub open spec fn bound_sum(
    env: Seq<Option<u64>>,
    buttons: Seq<usize>,
    j: int,
    var: int,
) -> int
    decreases j,
{
    if j <= 0 {
        0
    } else {
        bound_sum(env, buttons, j - 1, var) + (if buttons[j - 1] as int == var {
            0int
        } else {
            match env[buttons[j - 1] as int] {
                Some(v) => v as int,
                None => 0,
            }
        })
    }
}

/// The bound presses of an equation's buttons, unbound ones counting zero.
pub open spec fn env_sum(env: Seq<Option<u64>>, buttons: Seq<usize>, j: int) -> int
    decreases j,
{
    if j <= 0 {
        0
    } else {
        env_sum(env, buttons, j - 1) + (match env[buttons[j - 1] as int] {
            Some(v) => v as int,
            None => 0,
        })
    }
}

/// Every button of the equation is bound.
pub open spec fn eq_bound(env: Seq<Option<u64>>, buttons: Seq<usize>) -> bool {
    forall|b: int| 0 <= b < buttons.len() ==> env[(#[trigger] buttons[b]) as int] is Some
}

/// The partial assignment keeps every counter within budget and meets every
/// fully-bound counter exactly; the search preserves this along every
/// branch it explores.
pub open spec fn hygienic(equations: Seq<Equation>, env: Seq<Option<u64>>) -> bool {
    forall|q: int|
        0 <= q < equations.len() ==> env_sum(
            env,
            (#[trigger] equations[q]).buttons@,
            equations[q].buttons@.len() as int,
        ) <= equations[q].joltage as int && (eq_bound(env, equations[q].buttons@) ==> env_sum(
            env,
            equations[q].buttons@,
            equations[q].buttons@.len() as int,
        ) == equations[q].joltage as int)
}

pub proof fn lemma_env_sum_nonneg(env: Seq<Option<u64>>, buttons: Seq<usize>, j: int)
    ensures
        env_sum(env, buttons, j) >= 0,
    decreases j,
{
    if j > 0 {
        lemma_env_sum_nonneg(env, buttons, j - 1);
    }
}

/// With the variable unbound, the bound total and the non-variable bound
/// total agree.
pub proof fn lemma_env_sum_is_bound_sum(
    env: Seq<Option<u64>>,
    buttons: Seq<usize>,
    j: int,
    var: int,
)
    requires
        0 <= var < env.len(),
        env[var] is None,
    ensures
        env_sum(env, buttons, j) == bound_sum(env, buttons, j, var),
    decreases j,
{
    if j > 0 {
        lemma_env_sum_is_bound_sum(env, buttons, j - 1, var);
    }
}

/// Binding a variable that the buttons do not mention leaves the bound
/// total alone.
pub proof fn lemma_env_sum_update_out(
    env: Seq<Option<u64>>,
    buttons: Seq<usize>,
    j: int,
    var: int,
    p: u64,
)
    requires
        forall|b: int| 0 <= b < j ==> (#[trigger] buttons[b]) as int != var,
        forall|b: int| 0 <= b < j ==> (#[trigger] buttons[b]) < env.len(),
        0 <= var < env.len(),
    ensures
        env_sum(env.update(var, Some(p)), buttons, j) == env_sum(env, buttons, j),
    decreases j,
{
    if j > 0 {
        lemma_env_sum_update_out(env, buttons, j - 1, var, p);
    }
}

/// Binding a variable that occurs once among duplicate-free buttons adds
/// its presses to the bound total.
pub proof fn lemma_env_sum_update_in(
    env: Seq<Option<u64>>,
    buttons: Seq<usize>,
    j: int,
    pos: int,
    var: int,
    p: u64,
)
    requires
        0 <= pos < j <= buttons.len(),
        buttons[pos] as int == var,
        0 <= var < env.len(),
        env[var] is None,
        forall|b: int| 0 <= b < buttons.len() ==> (#[trigger] buttons[b]) < env.len(),
        forall|b1: int, b2: int| 0 <= b1 < b2 < buttons.len() ==> buttons[b1] != buttons[b2],
    ensures
        env_sum(env.update(var, Some(p)), buttons, j) == env_sum(env, buttons, j) + p,
    decreases j,
{
    if j - 1 == pos {
        assert(forall|b: int| 0 <= b < j - 1 ==> (#[trigger] buttons[b]) as int != var);
        lemma_env_sum_update_out(env, buttons, j - 1, var, p);
    } else {
        assert(buttons[j - 1] as int != var);
        lemma_env_sum_update_in(env, buttons, j - 1, pos, var, p);
    }
}

/// On a fully bound equation, any honoring assignment's presses add up to
/// the bound total.
pub proof fn lemma_eq_sum_is_env_sum(
    env: Seq<Option<u64>>,
    e: Seq<u64>,
    buttons: Seq<usize>,
    j: int,
)
    requires
        extends(env, e),
        forall|b: int| 0 <= b < buttons.len() ==> (#[trigger] buttons[b]) < env.len(),
        j <= buttons.len(),
        forall|b: int| 0 <= b < j ==> env[(#[trigger] buttons[b]) as int] is Some,
    ensures
        eq_sum(e, buttons, j) == env_sum(env, buttons, j),
    decreases j,
{
    if j > 0 {
        lemma_eq_sum_is_env_sum(env, e, buttons, j - 1);
    }
}

/// Without the variable among the buttons, the full and non-variable sums
/// agree.
pub proof fn lemma_no_var_sum(e: Seq<u64>, buttons: Seq<usize>, j: int, var: int)
    requires
        forall|b: int| 0 <= b < j ==> (#[trigger] buttons[b]) as int != var,
    ensures
        eq_sum(e, buttons, j) == nv_sum(e, buttons, j, var),
    decreases j,
{
    if j > 0 {
        lemma_no_var_sum(e, buttons, j - 1, var);
    }
}

/// With the variable at one position of a duplicate-free button list, the
/// full sum is the variable's presses plus everything else.
pub proof fn lemma_split_var(e: Seq<u64>, buttons: Seq<usize>, j: int, p: int, var: int)
    requires
        0 <= p < j <= buttons.len(),
        buttons[p] as int == var,
        forall|b1: int, b2: int| 0 <= b1 < b2 < buttons.len() ==> buttons[b1] != buttons[b2],
        0 <= var < e.len(),
    ensures
        eq_sum(e, buttons, j) == e[var] + nv_sum(e, buttons, j, var),
    decreases j,
{
    if j - 1 == p {
        assert(forall|b: int| 0 <= b < j - 1 ==> (#[trigger] buttons[b]) as int != var);
        lemma_no_var_sum(e, buttons, j - 1, var);
    } else {
        assert(buttons[j - 1] as int != var);
        lemma_split_var(e, buttons, j - 1, p, var);
    }
}

/// The bound part never exceeds any extension's non-variable total.
pub proof fn lemma_bound_le_nv(
    env: Seq<Option<u64>>,
    e: Seq<u64>,
    buttons: Seq<usize>,
    j: int,
    var: int,
)
    requires
        extends(env, e),
        forall|b: int| 0 <= b < buttons.len() ==> (#[trigger] buttons[b]) < env.len(),
        j <= buttons.len(),
    ensures
        bound_sum(env, buttons, j, var) <= nv_sum(e, buttons, j, var),
    decreases j,
{
    if j > 0 {
        lemma_bound_le_nv(env, e, buttons, j - 1, var);
    }
}

/// When every non-variable button is bound, the bound part is the whole
/// non-variable total.
pub proof fn lemma_bound_eq_nv(
    env: Seq<Option<u64>>,
    e: Seq<u64>,
    buttons: Seq<usize>,
    j: int,
    var: int,
)
    requires
        extends(env, e),
        forall|b: int| 0 <= b < buttons.len() ==> (#[trigger] buttons[b]) < env.len(),
        j <= buttons.len(),
        forall|b: int|
            0 <= b < j ==> (#[trigger] buttons[b]) as int == var || env[buttons[b] as int] is Some,
    ensures
        bound_sum(env, buttons, j, var) == nv_sum(e, buttons, j, var),
    decreases j,
{
    if j > 0 {
        lemma_bound_eq_nv(env, e, buttons, j - 1, var);
    }
}

/// Every button of the equation other than the variable is bound.
pub open spec fn others_bound(env: Seq<Option<u64>>, buttons: Seq<usize>, var: int) -> bool {
    forall|b: int|
        0 <= b < buttons.len() ==> (#[trigger] buttons[b]) as int == var || env[buttons[b] as int] is Some
}

/// Return the allowed range for the variable: the unassigned budget of the
/// tightest equation naming it caps it above, and an equation whose other
/// buttons are all bound forces it below; every satisfying completion keeps
/// the variable inside the returned range.
#[verifier::rlimit(100)]
pub fn variable_range(equations: &Vec<Equation>, environ: &Vec<Option<u64>>, var: usize) -> (r:
    Option<(usize, u64, u64)>)
    requires
        problem_wf(equations@, environ@),
        var < environ@.len(),
    ensures
        match r {
            Some(t) => t.0 == var && t.1 <= t.2 <= 0xffffffff && (forall|e: Seq<u64>|
                #[trigger] sat_extension(equations@, environ@, e) ==> t.1 <= e[var as int] <= t.2)
                && (forall|q: int|
                0 <= q < equations@.len() && names_var(#[trigger] equations@[q], var as int)
                    && bound_sum(
                    environ@,
                    equations@[q].buttons@,
                    equations@[q].buttons@.len() as int,
                    var as int,
                ) <= equations@[q].joltage as int ==> t.2 as int <= equations@[q].joltage as int
                    - bound_sum(
                    environ@,
                    equations@[q].buttons@,
                    equations@[q].buttons@.len() as int,
                    var as int,
                )) && (forall|q: int|
                0 <= q < equations@.len() && names_var(#[trigger] equations@[q], var as int)
                    && others_bound(environ@, equations@[q].buttons@, var as int) && bound_sum(
                    environ@,
                    equations@[q].buttons@,
                    equations@[q].buttons@.len() as int,
                    var as int,
                ) <= equations@[q].joltage as int ==> t.1 as int >= equations@[q].joltage as int
                    - bound_sum(
                    environ@,
                    equations@[q].buttons@,
                    equations@[q].buttons@.len() as int,
                    var as int,
                )),
            None => (forall|q: int|
                0 <= q < equations@.len() ==> !names_var(#[trigger] equations@[q], var as int))
                || forall|e: Seq<u64>| !(#[trigger] sat_extension(equations@, environ@, e)),
        },
{
    let mut min: Option<u64> = None;
    let mut max: Option<u64> = None;
    let ghost mut dead = false;
    let mut ei: usize = 0;
    while ei < equations.len()
        invariant
            ei <= equations@.len(),
            problem_wf(equations@, environ@),
            var < environ@.len(),
            dead ==> forall|e: Seq<u64>| !(#[trigger] sat_extension(equations@, environ@, e)),
            (max is None && exists|q: int|
                0 <= q < ei && names_var(#[trigger] equations@[q], var as int)) ==> dead,
            min is Some ==> max is Some,
            match max {
                Some(mx) => mx <= 0xffffffff && (forall|e: Seq<u64>|
                    #[trigger] sat_extension(equations@, environ@, e) ==> e[var as int] <= mx)
                    && forall|q: int|
                    0 <= q < ei && names_var(#[trigger] equations@[q], var as int) && bound_sum(
                        environ@,
                        equations@[q].buttons@,
                        equations@[q].buttons@.len() as int,
                        var as int,
                    ) <= equations@[q].joltage as int ==> mx as int
                        <= equations@[q].joltage as int - bound_sum(
                        environ@,
                        equations@[q].buttons@,
                        equations@[q].buttons@.len() as int,
                        var as int,
                    ),
                None => forall|q: int|
                    0 <= q < ei && names_var(#[trigger] equations@[q], var as int) && bound_sum(
                        environ@,
                        equations@[q].buttons@,
                        equations@[q].buttons@.len() as int,
                        var as int,
                    ) <= equations@[q].joltage as int ==> false,
            },
            match min {
                Some(mn) => mn <= 0xffffffff && forall|e: Seq<u64>|
                    #[trigger] sat_extension(equations@, environ@, e) ==> e[var as int] >= mn,
                None => forall|q: int|
                    0 <= q < ei && names_var(#[trigger] equations@[q], var as int)
                        && others_bound(environ@, equations@[q].buttons@, var as int)
                        && bound_sum(
                        environ@,
                        equations@[q].buttons@,
                        equations@[q].buttons@.len() as int,
                        var as int,
                    ) <= equations@[q].joltage as int ==> false,
            },
            match min {
                Some(mn) => forall|q: int|
                    0 <= q < ei && names_var(#[trigger] equations@[q], var as int)
                        && others_bound(environ@, equations@[q].buttons@, var as int)
                        && bound_sum(
                        environ@,
                        equations@[q].buttons@,
                        equations@[q].buttons@.len() as int,
                        var as int,
                    ) <= equations@[q].joltage as int ==> mn as int
                        >= equations@[q].joltage as int - bound_sum(
                        environ@,
                        equations@[q].buttons@,
                        equations@[q].buttons@.len() as int,
                        var as int,
                    ),
                None => true,
            },
        decreases equations@.len() - ei,
    {
        let eq = &equations[ei];
        let mut has_var = false;
        let mut all_bound = true;
        let mut sum: u64 = 0;
        let mut b: usize = 0;
        while b < eq.buttons.len()
            invariant
                b <= eq.buttons@.len(),
                eq == equations@[ei as int],
                ei < equations@.len(),
                problem_wf(equations@, environ@),
                var < environ@.len(),
                sum <= b * 0x100000000,
                eq.buttons@.len() <= 64,
                sum as int == bound_sum(environ@, eq.buttons@, b as int, var as int),
                has_var == exists|bb: int|
                    0 <= bb < b && (#[trigger] eq.buttons@[bb]) as int == var as int,
                all_bound == forall|bb: int|
                    0 <= bb < b ==> (#[trigger] eq.buttons@[bb]) as int == var as int
                        || environ@[eq.buttons@[bb] as int] is Some,
            decreases eq.buttons@.len() - b,
        {
            let bt = eq.buttons[b];
            proof {
                assert(eq.buttons@[b as int] < environ@.len());
            }
            if bt == var {
                has_var = true;
            } else {
                match environ[bt] {
                    Some(v) => {
                        proof {
                            assert(environ@[bt as int].unwrap() <= 0xffffffff);
                            assert(sum + v <= (b + 1) * 0x100000000) by (nonlinear_arith)
                                requires
                                    sum <= b * 0x100000000,
                                    v <= 0xffffffff,
                                    b >= 0,
                            ;
                        }
                        sum = sum + v;
                    },
                    None => {
                        all_bound = false;
                    },
                }
            }
            b = b + 1;
        }
        if has_var {
            let ghost p = choose|bb: int|
                0 <= bb < eq.buttons@.len() && (#[trigger] eq.buttons@[bb]) as int == var as int;
            proof {
                assert(names_var(equations@[ei as int], var as int));
                assert(sum as int == bound_sum(
                    environ@,
                    equations@[ei as int].buttons@,
                    equations@[ei as int].buttons@.len() as int,
                    var as int,
                ));
            }
            if eq.joltage >= sum {
                let local_max = eq.joltage - sum;
                proof {
                    assert forall|e: Seq<u64>|
                        #[trigger] sat_extension(equations@, environ@, e) implies e[var as int]
                        <= local_max by {
                        lemma_split_var(e, eq.buttons@, eq.buttons@.len() as int, p, var as int);
                        lemma_bound_le_nv(
                            environ@,
                            e,
                            eq.buttons@,
                            eq.buttons@.len() as int,
                            var as int,
                        );
                        assert(eq_sum(e, eq.buttons@, eq.buttons@.len() as int)
                            == eq.joltage as int);
                    }
                }
                max = match max {
                    Some(m) => if m < local_max {
                        Some(m)
                    } else {
                        Some(local_max)
                    },
                    None => Some(local_max),
                };
                if all_bound {
                    proof {
                        assert(others_bound(environ@, equations@[ei as int].buttons@, var as int));
                        assert forall|e: Seq<u64>|
                            #[trigger] sat_extension(equations@, environ@, e) implies e[
                            var as int] >= local_max by {
                            lemma_split_var(
                                e,
                                eq.buttons@,
                                eq.buttons@.len() as int,
                                p,
                                var as int,
                            );
                            lemma_bound_eq_nv(
                                environ@,
                                e,
                                eq.buttons@,
                                eq.buttons@.len() as int,
                                var as int,
                            );
                        }
                    }
                    min = match min {
                        Some(m) => if m > local_max {
                            Some(m)
                        } else {
                            Some(local_max)
                        },
                        None => Some(local_max),
                    };
                }
            } else {
                proof {
                    assert forall|e: Seq<u64>| !(#[trigger] sat_extension(
                        equations@,
                        environ@,
                        e,
                    )) by {
                        if sat_extension(equations@, environ@, e) {
                            lemma_split_var(
                                e,
                                eq.buttons@,
                                eq.buttons@.len() as int,
                                p,
                                var as int,
                            );
                            lemma_bound_le_nv(
                                environ@,
                                e,
                                eq.buttons@,
                                eq.buttons@.len() as int,
                                var as int,
                            );
                            assert(eq_sum(e, eq.buttons@, eq.buttons@.len() as int)
                                == eq.joltage as int);
                        }
                    }
                    dead = true;
                }
            }
        }
        ei = ei + 1;
    }
    match (min, max) {
        (None, None) => {
            proof {
                if exists|q: int|
                    0 <= q < equations@.len() && names_var(#[trigger] equations@[q], var as int) {
                    assert(dead);
                }
            }
            None
        },
        (None, Some(hi)) => Some((var, 0, hi)),
        (Some(lo), Some(hi)) => if lo <= hi {
            Some((var, lo, hi))
        } else {
            proof {
                assert forall|e: Seq<u64>| !(#[trigger] sat_extension(
                    equations@,
                    environ@,
                    e,
                )) by {
                    if sat_extension(equations@, environ@, e) {
                        assert(e[var as int] >= lo && e[var as int] <= hi);
                    }
                }
            }
            None
        },
        (Some(_), None) => {
            proof {
                assert(false);
            }
            None
        },
    }
}

/// Binding the variable to a count inside its allowed range keeps every
/// counter within budget and every fully-bound counter met.
proof fn lemma_hygiene_bind(
    equations: Seq<Equation>,
    env: Seq<Option<u64>>,
    var: usize,
    p: u64,
    lo: u64,
    hi: u64,
)
    requires
        problem_wf(equations, env),
        (var as int) < env.len(),
        env[var as int] is None,
        hygienic(equations, env),
        lo <= p <= hi,
        forall|q: int|
            0 <= q < equations.len() && names_var(#[trigger] equations[q], var as int)
                && bound_sum(
                env,
                equations[q].buttons@,
                equations[q].buttons@.len() as int,
                var as int,
            ) <= equations[q].joltage as int ==> hi as int <= equations[q].joltage as int
                - bound_sum(
                env,
                equations[q].buttons@,
                equations[q].buttons@.len() as int,
                var as int,
            ),
        forall|q: int|
            0 <= q < equations.len() && names_var(#[trigger] equations[q], var as int)
                && others_bound(env, equations[q].buttons@, var as int) && bound_sum(
                env,
                equations[q].buttons@,
                equations[q].buttons@.len() as int,
                var as int,
            ) <= equations[q].joltage as int ==> lo as int >= equations[q].joltage as int
                - bound_sum(
                env,
                equations[q].buttons@,
                equations[q].buttons@.len() as int,
                var as int,
            ),
    ensures
        hygienic(equations, env.update(var as int, Some(p))),
{
    let envp = env.update(var as int, Some(p));
    assert forall|q: int| 0 <= q < equations.len() implies env_sum(
        envp,
        (#[trigger] equations[q]).buttons@,
        equations[q].buttons@.len() as int,
    ) <= equations[q].joltage as int && (eq_bound(envp, equations[q].buttons@) ==> env_sum(
        envp,
        equations[q].buttons@,
        equations[q].buttons@.len() as int,
    ) == equations[q].joltage as int) by {
        let buttons = equations[q].buttons@;
        let len = buttons.len() as int;
        if names_var(equations[q], var as int) {
            let pos = choose|bb: int|
                0 <= bb < buttons.len() && (#[trigger] buttons[bb]) as int == var as int;
            lemma_env_sum_is_bound_sum(env, buttons, len, var as int);
            lemma_env_sum_update_in(env, buttons, len, pos, var as int, p);
            assert(env_sum(envp, buttons, len) == env_sum(env, buttons, len) + p);
            assert(bound_sum(env, buttons, len, var as int) <= equations[q].joltage as int);
            if eq_bound(envp, buttons) {
                assert(others_bound(env, buttons, var as int)) by {
                    assert forall|b: int|
                        0 <= b < buttons.len() implies (#[trigger] buttons[b]) as int
                            == var as int || env[buttons[b] as int] is Some by {
                        if buttons[b] as int != var as int {
                            assert(envp[buttons[b] as int] is Some);
                            assert(env[buttons[b] as int] == envp[buttons[b] as int]);
                        }
                    }
                }
            }
        } else {
            assert(forall|b: int|
                0 <= b < len ==> (#[trigger] buttons[b]) as int != var as int);
            lemma_env_sum_update_out(env, buttons, len, var as int, p);
            if eq_bound(envp, buttons) {
                assert(eq_bound(env, buttons)) by {
                    assert forall|b: int|
                        0 <= b < buttons.len() implies env[(#[trigger] buttons[b]) as int] is Some by {
                        assert(buttons[b] as int != var as int);
                        assert(env[buttons[b] as int] == envp[buttons[b] as int]);
                    }
                }
            }
        }
    }
}

/// The range returned for a variable: capped above by every naming
/// equation's remaining budget, and from below by every equation the
/// variable alone still leaves open.
pub open spec fn range_caps(
    equations: Seq<Equation>,
    env: Seq<Option<u64>>,
    var: int,
    lo: u64,
    hi: u64,
) -> bool {
    &&& forall|q: int|
        0 <= q < equations.len() && names_var(#[trigger] equations[q], var) && bound_sum(
            env,
            equations[q].buttons@,
            equations[q].buttons@.len() as int,
            var,
        ) <= equations[q].joltage as int ==> hi as int <= equations[q].joltage as int - bound_sum(
            env,
            equations[q].buttons@,
            equations[q].buttons@.len() as int,
            var,
        )
    &&& forall|q: int|
        0 <= q < equations.len() && names_var(#[trigger] equations[q], var) && others_bound(
            env,
            equations[q].buttons@,
            var,
        ) && bound_sum(
            env,
            equations[q].buttons@,
            equations[q].buttons@.len() as int,
            var,
        ) <= equations[q].joltage as int ==> lo as int >= equations[q].joltage as int - bound_sum(
            env,
            equations[q].buttons@,
            equations[q].buttons@.len() as int,
            var,
        )
}

/// Recursively find the least number of button presses that solves the
/// equations: pick the free button with the tightest range and try each
/// count in it; when none is free, the assignment's total is a candidate.
/// Along hygienic states (budgets kept, fully-bound counters met) the
/// result is the minimum total over all satisfying completions.
#[verifier::rlimit(100)]
pub fn search_least_presses(equations: &Vec<Equation>, environ: &mut Vec<Option<u64>>) -> (r:
    Option<u64>)
    requires
        problem_wf(equations@, old(environ)@),
    ensures
        final(environ)@ == old(environ)@,
        match r {
            Some(v) => (exists|full: Seq<u64>|
                #![trigger full.len()]
                extends(old(environ)@, full) && (forall|k: int|
                    0 <= k < full.len() ==> #[trigger] full[k] <= 0xffffffff) && v as int
                    == sum_u64s(full) && (hygienic(equations@, old(environ)@) ==> satisfies(
                    equations@,
                    full,
                ))) && ((hygienic(equations@, old(environ)@) && !orphan_var(
                equations@,
                old(environ)@,
            )) ==> forall|e: Seq<u64>|
                #[trigger] sat_extension(equations@, old(environ)@, e) ==> v as int <= sum_u64s(
                    e,
                )),
            None => orphan_var(equations@, old(environ)@) || forall|e: Seq<u64>| !(
            #[trigger] sat_extension(equations@, old(environ)@, e)),
        },
    decreases free_count(environ@, environ@.len() as int),
{
    let n = environ.len();
    let mut best: Option<(usize, u64, u64)> = None;
    let mut var: usize = 0;
    while var < n
        invariant
            var <= n == environ@.len(),
            environ@ == old(environ)@,
            problem_wf(equations@, environ@),
            match best {
                Some(t) => t.0 < n && environ@[t.0 as int] is None && t.1 <= t.2 <= 0xffffffff
                    && (forall|e: Seq<u64>|
                    #[trigger] sat_extension(equations@, environ@, e) ==> t.1 <= e[t.0 as int]
                        <= t.2) && range_caps(equations@, environ@, t.0 as int, t.1, t.2),
                None => forall|q: int| 0 <= q < var ==> !((#[trigger] environ@[q]) is None),
            },
        decreases n - var,
    {
        if environ[var].is_none() {
            match variable_range(equations, environ, var) {
                Some((v, lo, hi)) => {
                    proof {
                        assert(range_caps(equations@, environ@, var as int, lo, hi));
                    }
                    best = match best {
                        Some((bv, blo, bhi)) => {
                            if bhi - blo > hi - lo {
                                Some((v, lo, hi))
                            } else {
                                Some((bv, blo, bhi))
                            }
                        },
                        None => Some((v, lo, hi)),
                    };
                },
                None => {
                    proof {
                        if forall|q: int|
                            0 <= q < equations@.len() ==> !names_var(
                                #[trigger] equations@[q],
                                var as int,
                            ) {
                            assert(environ@[var as int] is None);
                            assert(orphan_var(equations@, old(environ)@));
                        }
                    }
                    return None;
                },
            }
        }
        var = var + 1;
    }
    if let Some((v, lo, hi)) = best {
        let mut local_least: Option<u64> = None;
        let ghost mut witness: Seq<u64> = Seq::empty();
        let mut presses = hi + 1;
        while presses > lo
            invariant
                lo <= presses <= hi + 1,
                hi <= 0xffffffff,
                v < environ@.len(),
                environ@ == old(environ)@,
                environ@[v as int] is None,
                problem_wf(equations@, environ@),
                range_caps(equations@, old(environ)@, v as int, lo, hi),
                forall|e: Seq<u64>|
                    #[trigger] sat_extension(equations@, environ@, e) ==> lo <= e[v as int]
                        <= hi,
                match local_least {
                    Some(w) => extends(old(environ)@, witness) && (forall|k: int|
                        0 <= k < witness.len() ==> #[trigger] witness[k] <= 0xffffffff)
                        && w as int == sum_u64s(witness) && (hygienic(equations@, old(environ)@)
                        ==> satisfies(equations@, witness)) && ((hygienic(
                        equations@,
                        old(environ)@,
                    ) && !orphan_var(equations@, old(environ)@)) ==> forall|e: Seq<u64>|
                        #[trigger] sat_extension(equations@, old(environ)@, e) && presses as int
                            <= e[v as int] ==> w as int <= sum_u64s(e)),
                    None => orphan_var(equations@, old(environ)@) || forall|e: Seq<u64>|
                        !(#[trigger] sat_extension(equations@, old(environ)@, e) && presses as int
                            <= e[v as int]),
                },
            decreases presses,
        {
            presses = presses - 1;
            let ghost before = environ@;
            environ.set(v, Some(presses));
            proof {
                lemma_free_update(before, before.len() as int, v as int, presses);
                lemma_free_same(environ@, before.update(v as int, Some(presses)), environ@.len() as int);
                assert(environ@ =~= before.update(v as int, Some(presses)));
                lemma_free_nonneg(environ@, environ@.len() as int);
                lemma_free_nonneg(old(environ)@, old(environ)@.len() as int);
                assert(free_count(environ@, environ@.len() as int) >= 0);
                assert(free_count(environ@, environ@.len() as int) < free_count(
                    old(environ)@,
                    old(environ)@.len() as int,
                ));
            }
            let sub = search_least_presses(equations, environ);
            environ.set(v, None);
            let ghost envp = before.update(v as int, Some(presses));
            proof {
                assert(environ@ =~= before);
                if hygienic(equations@, old(environ)@) {
                    lemma_hygiene_bind(equations@, before, v, presses, lo, hi);
                    assert(hygienic(equations@, envp));
                }
                if !orphan_var(equations@, old(environ)@) {
                    assert(!orphan_var(equations@, envp)) by {
                        if orphan_var(equations@, envp) {
                            let k = choose|k: int|
                                0 <= k < envp.len() && (#[trigger] envp[k]) is None && forall|
                                    q: int,
                                | 0 <= q < equations@.len() ==> !names_var(
                                    #[trigger] equations@[q],
                                    k,
                                );
                            assert(k != v as int);
                            assert(before[k] is None);
                            assert(orphan_var(equations@, before));
                        }
                    }
                }
            }
            if let Some(other) = sub {
                let ghost old_least = local_least;
                let ghost full = choose|full: Seq<u64>|
                    #![trigger full.len()]
                    extends(envp, full) && (forall|k: int|
                        0 <= k < full.len() ==> #[trigger] full[k] <= 0xffffffff) && other as int
                        == sum_u64s(full) && (hygienic(equations@, envp) ==> satisfies(
                        equations@,
                        full,
                    ));
                match local_least {
                    Some(w) => {
                        if other < w {
                            local_least = Some(other);
                            proof {
                                witness = full;
                            }
                        }
                    },
                    None => {
                        local_least = Some(other);
                        proof {
                            witness = full;
                        }
                    },
                }
                proof {
                    assert(extends(old(environ)@, full));
                    if hygienic(equations@, old(environ)@) {
                        assert(satisfies(equations@, full) || !hygienic(equations@, envp));
                        assert(hygienic(equations@, envp));
                    }
                    if hygienic(equations@, old(environ)@) && !orphan_var(
                        equations@,
                        old(environ)@,
                    ) {
                        let lw = local_least.unwrap();
                        assert(lw <= other);
                        assert forall|e: Seq<u64>|
                            #[trigger] sat_extension(equations@, old(environ)@, e)
                                && presses as int <= e[v as int] implies lw as int <= sum_u64s(
                            e,
                        ) by {
                            if e[v as int] == presses {
                                assert(extends(envp, e));
                                assert(sat_extension(equations@, envp, e));
                                assert(other as int <= sum_u64s(e));
                            } else {
                                assert(presses as int + 1 <= e[v as int]);
                                match old_least {
                                    Some(w0) => {
                                        assert(w0 as int <= sum_u64s(e));
                                        assert(lw <= w0);
                                    },
                                    None => {
                                        assert(!(sat_extension(equations@, old(environ)@, e)
                                            && presses as int + 1 <= e[v as int]));
                                    },
                                }
                            }
                        }
                    }
                }
            } else {
                proof {
                    if local_least is None {
                        if orphan_var(equations@, envp) {
                            let k = choose|k: int|
                                0 <= k < envp.len() && (#[trigger] envp[k]) is None && forall|
                                    q: int,
                                | 0 <= q < equations@.len() ==> !names_var(
                                    #[trigger] equations@[q],
                                    k,
                                );
                            assert(k != v as int);
                            assert(before[k] is None);
                            assert(orphan_var(equations@, before));
                        } else {
                            assert(forall|e: Seq<u64>|
                                !(#[trigger] sat_extension(equations@, envp, e)));
                            if !orphan_var(equations@, old(environ)@) {
                                assert forall|e: Seq<u64>|
                                    !(#[trigger] sat_extension(equations@, old(environ)@, e)
                                        && presses as int <= e[v as int]) by {
                                    if sat_extension(equations@, old(environ)@, e)
                                        && presses as int <= e[v as int] {
                                        if e[v as int] == presses {
                                            assert(extends(envp, e));
                                            assert(sat_extension(equations@, envp, e));
                                        }
                                    }
                                }
                            }
                        }
                    } else {
                        if !orphan_var(equations@, old(environ)@) && orphan_var(
                            equations@,
                            envp,
                        ) {
                            let k = choose|k: int|
                                0 <= k < envp.len() && (#[trigger] envp[k]) is None && forall|
                                    q: int,
                                | 0 <= q < equations@.len() ==> !names_var(
                                    #[trigger] equations@[q],
                                    k,
                                );
                            assert(k != v as int);
                            assert(before[k] is None);
                            assert(orphan_var(equations@, before));
                        }
                        if hygienic(equations@, old(environ)@) && !orphan_var(
                            equations@,
                            old(environ)@,
                        ) {
                            let w = local_least.unwrap();
                            assert forall|e: Seq<u64>|
                                #[trigger] sat_extension(equations@, old(environ)@, e)
                                    && presses as int <= e[v as int] implies w as int
                                <= sum_u64s(e) by {
                                if e[v as int] == presses {
                                    assert(extends(envp, e));
                                    assert(sat_extension(equations@, envp, e));
                                    assert(false);
                                } else {
                                    assert(presses as int + 1 <= e[v as int]);
                                }
                            }
                        }
                    }
                }
            }
        }
        proof {
            match local_least {
                Some(w) => {
                    if hygienic(equations@, old(environ)@) && !orphan_var(
                        equations@,
                        old(environ)@,
                    ) {
                        assert forall|e: Seq<u64>|
                            #[trigger] sat_extension(equations@, old(environ)@, e) implies w as int
                            <= sum_u64s(e) by {
                            assert(lo <= e[v as int]);
                        }
                    }
                },
                None => {
                    if !orphan_var(equations@, old(environ)@) {
                        assert forall|e: Seq<u64>| !(#[trigger] sat_extension(
                            equations@,
                            old(environ)@,
                            e,
                        )) by {
                            if sat_extension(equations@, old(environ)@, e) {
                                assert(lo <= e[v as int] <= hi);
                            }
                        }
                    }
                },
            }
        }
        local_least
    } else {
        // no free variable, we are done
        let mut score: u64 = 0;
        let ghost mut w: Seq<u64> = Seq::empty();
        let mut k: usize = 0;
        while k < n
            invariant
                k <= n == environ@.len() <= 64,
                environ@ == old(environ)@,
                problem_wf(equations@, environ@),
                forall|q: int| 0 <= q < environ@.len() ==> !((#[trigger] environ@[q]) is None),
                w.len() == k,
                forall|q: int| 0 <= q < k ==> #[trigger] w[q] == environ@[q].unwrap(),
                forall|q: int| 0 <= q < k ==> #[trigger] w[q] <= 0xffffffff,
                score as int == sum_u64s(w),
                score <= k * 0x100000000,
            decreases n - k,
        {
            let val = match environ[k] {
                Some(x) => x,
                None => {
                    proof {
                        assert(false);
                    }
                    0
                },
            };
            proof {
                assert(environ@[k as int].unwrap() <= 0xffffffff);
                let old_w = w;
                w = w.push(val);
                assert(w.drop_last() =~= old_w);
                assert(score + val <= (k + 1) * 0x100000000) by (nonlinear_arith)
                    requires
                        score <= k * 0x100000000,
                        val <= 0xffffffff,
                        k >= 0,
                ;
            }
            score = score + val;
            k = k + 1;
        }
        proof {
            assert(extends(old(environ)@, w));
            if hygienic(equations@, old(environ)@) {
                assert forall|q: int| 0 <= q < equations@.len() implies eq_sum(
                    w,
                    (#[trigger] equations@[q]).buttons@,
                    equations@[q].buttons@.len() as int,
                ) == equations@[q].joltage as int by {
                    assert(eq_bound(environ@, equations@[q].buttons@));
                    lemma_eq_sum_is_env_sum(
                        environ@,
                        w,
                        equations@[q].buttons@,
                        equations@[q].buttons@.len() as int,
                    );
                }
                assert(satisfies(equations@, w));
            }
            assert forall|e: Seq<u64>|
                #[trigger] sat_extension(equations@, old(environ)@, e) implies score as int
                <= sum_u64s(e) by {
                assert(e =~= w) by {
                    assert forall|q: int| 0 <= q < e.len() implies e[q] == w[q] by {
                        assert(environ@[q] is Some);
                        assert(e[q] == environ@[q].unwrap());
                    }
                }
            }
        }
        Some(score)
    }
}

/// A button occurs in the list.
pub open spec fn button_in(buttons: Seq<usize>, b: int) -> bool {
    exists|x: int| 0 <= x < buttons.len() && (#[trigger] buttons[x]) as int == b
}

/// The assignment with every button still free.
pub open spec fn blank_env(n: int) -> Seq<Option<u64>> {
    Seq::new(n as nat, |i: int| None::<u64>)
}

/// The counter equations a procedure induces: one per joltage level, naming
/// exactly the buttons whose toggle mask sets that counter's bit.
pub open spec fn eqs_of_proc(toggles: Seq<u64>, levels: Seq<u64>, eqs: Seq<Equation>) -> bool {
    &&& eqs.len() == levels.len()
    &&& forall|q: int| 0 <= q < eqs.len() ==> (#[trigger] eqs[q]).joltage == levels[q]
    &&& forall|q: int, b: int|
        #![trigger eqs[q].buttons@, toggles[b]]
        0 <= q < eqs.len() && 0 <= b < toggles.len() ==> (button_in(eqs[q].buttons@, b) <==> (q
            < 64 && toggles[b] & (1u64 << (q as u32)) != 0))
    &&& forall|q: int, b: int|
        #![trigger eqs[q].buttons@[b]]
        0 <= q < eqs.len() && 0 <= b < eqs[q].buttons@.len() ==> (eqs[q].buttons@[b] as int)
            < toggles.len()
}

/// Turn a procedure into counter equations and search for the least total
/// presses; a procedure whose counters cannot all be met counts zero.
pub fn solve_joltages(init: &InitProcedure) -> (r: u64)
    requires
        init.specified_joltage_levels@.len() <= 64,
        init.toggle_buttons@.len() <= 64,
        forall|k: int|
            0 <= k < init.specified_joltage_levels@.len() ==> (
            #[trigger] init.specified_joltage_levels@[k]) <= 0xffffffff,
    ensures
        exists|eqs: Seq<Equation>|
            #![trigger eqs.len()]
            eqs_of_proc(init.toggle_buttons@, init.specified_joltage_levels@, eqs) && ((exists|
                full: Seq<u64>,
            |
                #![trigger full.len()]
                full.len() == init.toggle_buttons@.len() && (forall|k: int|
                    0 <= k < full.len() ==> #[trigger] full[k] <= 0xffffffff) && r as int
                    == sum_u64s(full) && (hygienic(
                    eqs,
                    blank_env(init.toggle_buttons@.len() as int),
                ) ==> satisfies(eqs, full))) && ((hygienic(
                eqs,
                blank_env(init.toggle_buttons@.len() as int),
            ) && !orphan_var(eqs, blank_env(init.toggle_buttons@.len() as int))) ==> forall|
                e: Seq<u64>,
            |
                #[trigger] sat_extension(
                    eqs,
                    blank_env(init.toggle_buttons@.len() as int),
                    e,
                ) ==> r as int <= sum_u64s(e)) || (r == 0 && (orphan_var(
                eqs,
                blank_env(init.toggle_buttons@.len() as int),
            ) || forall|e: Seq<u64>| !(#[trigger] sat_extension(
                eqs,
                blank_env(init.toggle_buttons@.len() as int),
                e,
            ))))),
        r <= 0x4000000000,
{
    let button_count = init.toggle_buttons.len();
    let mut equations: Vec<Equation> = Vec::new();
    let mut e: usize = 0;
    while e < init.specified_joltage_levels.len()
        invariant
            e <= init.specified_joltage_levels@.len() <= 64,
            forall|k: int|
                0 <= k < init.specified_joltage_levels@.len() ==> (
                #[trigger] init.specified_joltage_levels@[k]) <= 0xffffffff,
            equations@.len() == e,
            forall|q: int|
                0 <= q < e ==> (#[trigger] equations@[q]).joltage <= 0xffffffff
                    && equations@[q].joltage == init.specified_joltage_levels@[q]
                    && equations@[q].buttons@.len() == 0,
        decreases init.specified_joltage_levels@.len() - e,
    {
        let joltage = init.specified_joltage_levels[e];
        equations.push(Equation { joltage, buttons: Vec::new() });
        e = e + 1;
    }
    let mut button: usize = 0;
    while button < button_count
        invariant
            button <= button_count == init.toggle_buttons@.len() <= 64,
            equations@.len() == init.specified_joltage_levels@.len() <= 64,
            forall|q: int|
                0 <= q < equations@.len() ==> (#[trigger] equations@[q]).joltage <= 0xffffffff
                    && equations@[q].buttons@.len() <= button && forall|b: int|
                    0 <= b < equations@[q].buttons@.len() ==> (
                    #[trigger] equations@[q].buttons@[b]) < button_count,
            forall|q: int, b: int|
                #![trigger equations@[q].buttons@[b]]
                0 <= q < equations@.len() && 0 <= b < equations@[q].buttons@.len()
                    ==> equations@[q].buttons@[b] < button,
            forall|q: int, b1: int, b2: int|
                #![trigger equations@[q].buttons@[b1], equations@[q].buttons@[b2]]
                0 <= q < equations@.len() && 0 <= b1 < b2 < equations@[q].buttons@.len()
                    ==> equations@[q].buttons@[b1] < equations@[q].buttons@[b2],
            forall|q: int|
                0 <= q < equations@.len() ==> (#[trigger] equations@[q]).joltage
                    == init.specified_joltage_levels@[q],
            forall|q: int, b: int|
                #![trigger equations@[q].buttons@, init.toggle_buttons@[b]]
                0 <= q < equations@.len() && 0 <= b < button ==> (button_in(
                    equations@[q].buttons@,
                    b,
                ) <==> (q < 64 && init.toggle_buttons@[b] & (1u64 << (q as u32)) != 0)),
        decreases button_count - button,
    {
        let pattern = init.toggle_buttons[button];
        let mut eqi: usize = 0;
        while eqi < equations.len()
            invariant
                eqi <= equations@.len() <= 64,
                button < button_count,
                equations@.len() == init.specified_joltage_levels@.len(),
                forall|q: int|
                    0 <= q < equations@.len() ==> (#[trigger] equations@[q]).joltage
                        <= 0xffffffff && equations@[q].buttons@.len() <= (if q < eqi {
                        button + 1
                    } else {
                        button as int
                    }) && forall|b: int|
                        0 <= b < equations@[q].buttons@.len() ==> (
                        #[trigger] equations@[q].buttons@[b]) < button_count,
                forall|q: int, b: int|
                    #![trigger equations@[q].buttons@[b]]
                    0 <= q < equations@.len() && 0 <= b < equations@[q].buttons@.len()
                        ==> equations@[q].buttons@[b] as int <= button as int,
                forall|q: int, b: int|
                    #![trigger equations@[q].buttons@[b]]
                    eqi <= q < equations@.len() && 0 <= b < equations@[q].buttons@.len()
                        ==> equations@[q].buttons@[b] < button,
                forall|q: int, b1: int, b2: int|
                    #![trigger equations@[q].buttons@[b1], equations@[q].buttons@[b2]]
                    0 <= q < equations@.len() && 0 <= b1 < b2 < equations@[q].buttons@.len()
                        ==> equations@[q].buttons@[b1] < equations@[q].buttons@[b2],
                forall|q: int|
                    0 <= q < equations@.len() ==> (#[trigger] equations@[q]).joltage
                        == init.specified_joltage_levels@[q],
                pattern == init.toggle_buttons@[button as int],
                forall|q: int, b: int|
                    #![trigger equations@[q].buttons@, init.toggle_buttons@[b]]
                    0 <= q < equations@.len() && 0 <= b < button ==> (button_in(
                        equations@[q].buttons@,
                        b,
                    ) <==> (q < 64 && init.toggle_buttons@[b] & (1u64 << (q as u32)) != 0)),
                forall|q: int|
                    0 <= q < eqi ==> (button_in(
                        (#[trigger] equations@[q]).buttons@,
                        button as int,
                    ) <==> (q < 64 && pattern & (1u64 << (q as u32)) != 0)),
            decreases equations@.len() - eqi,
        {
            let ghost eqs_before = equations@;
            if eqi < 64 && (pattern & (1u64 << (eqi as u32))) != 0 {
                let mut eq = equations.remove(eqi);
                eq.buttons.push(button);
                equations.insert(eqi, eq);
                proof {
                    assert(equations@ =~= eqs_before.update(
                        eqi as int,
                        equations@[eqi as int],
                    ));
                    assert(equations@[eqi as int].buttons@ =~= eqs_before[eqi as int].buttons@.push(
                        button,
                    ));
                    assert(equations@[eqi as int].buttons@[equations@[eqi as int].buttons@.len()
                        - 1] == button);
                    assert(button_in(equations@[eqi as int].buttons@, button as int));
                    assert forall|q: int, b: int|
                        #![trigger equations@[q].buttons@, init.toggle_buttons@[b]]
                        0 <= q < equations@.len() && 0 <= b < button implies (button_in(
                        equations@[q].buttons@,
                        b,
                    ) <==> (q < 64 && init.toggle_buttons@[b] & (1u64 << (q as u32)) != 0)) by {
                        if q == eqi {
                            if button_in(equations@[q].buttons@, b) {
                                let x = choose|x: int|
                                    0 <= x < equations@[q].buttons@.len() && (
                                    #[trigger] equations@[q].buttons@[x]) as int == b;
                                assert(x < equations@[q].buttons@.len() - 1);
                                assert(eqs_before[q].buttons@[x] as int == b);
                                assert(button_in(eqs_before[q].buttons@, b));
                            }
                            if button_in(eqs_before[q].buttons@, b) {
                                let x = choose|x: int|
                                    0 <= x < eqs_before[q].buttons@.len() && (
                                    #[trigger] eqs_before[q].buttons@[x]) as int == b;
                                assert(equations@[q].buttons@[x] as int == b);
                                assert(button_in(equations@[q].buttons@, b));
                            }
                        }
                    }
                }
            } else {
                proof {
                    if eqi < 64 {
                        assert(!(pattern & (1u64 << (eqi as u32)) != 0));
                    }
                    if button_in(equations@[eqi as int].buttons@, button as int) {
                        let x = choose|x: int|
                            0 <= x < equations@[eqi as int].buttons@.len() && (
                            #[trigger] equations@[eqi as int].buttons@[x]) as int
                                == button as int;
                        assert(equations@[eqi as int].buttons@[x] < button);
                        assert(false);
                    }
                }
            }
            eqi = eqi + 1;
        }
        button = button + 1;
    }
    let mut environ: Vec<Option<u64>> = Vec::new();
    let mut k: usize = 0;
    while k < button_count
        invariant
            k <= button_count <= 64,
            environ@.len() == k,
            forall|q: int| 0 <= q < k ==> (#[trigger] environ@[q]) is None,
        decreases button_count - k,
    {
        environ.push(None);
        k = k + 1;
    }
    proof {
        assert(environ@ =~= blank_env(init.toggle_buttons@.len() as int));
        assert(eqs_of_proc(init.toggle_buttons@, init.specified_joltage_levels@, equations@)) by {
            assert forall|q: int, b: int|
                #![trigger equations@[q].buttons@[b]]
                0 <= q < equations@.len() && 0 <= b < equations@[q].buttons@.len() implies (
            equations@[q].buttons@[b] as int) < init.toggle_buttons@.len() by {
                assert(equations@[q].buttons@[b] < button_count);
            }
        }
    }
    let ghost pre_env = environ@;
    let best = search_least_presses(&equations, &mut environ);
    proof {
        assert(environ@ == pre_env);
    }
    match best {
        Some(v) => {
            proof {
                let full = choose|full: Seq<u64>|
                    #![trigger full.len()]
                    extends(pre_env, full) && (forall|k: int|
                        0 <= k < full.len() ==> #[trigger] full[k] <= 0xffffffff) && v as int
                        == sum_u64s(full) && (hygienic(equations@, pre_env) ==> satisfies(
                        equations@,
                        full,
                    ));
                assert(full.len() == init.toggle_buttons@.len());
                lemma_sum_u64s_bound(full);
                assert(v as int <= 64 * 0x100000000);
            }
            v
        },
        None => {
            proof {
                assert(orphan_var(equations@, pre_env) || forall|e: Seq<u64>| !(
                #[trigger] sat_extension(equations@, pre_env, e)));
            }
            0
        },
    }
}

/// The joltage levels of the i-th procedure, as machine words.
pub open spec fn levels_of(s: Seq<char>, i: int) -> Seq<u64> {
    procs_of(s)[i].2.map_values(|x: int| x as u64)
}

/// The i-th procedure's second answer: a complete assignment's total, or
/// zero when its counter equations admit no bounded assignment at all (or
/// some button is in no equation).
pub open spec fn proc_total(s: Seq<char>, i: int, k: int) -> bool {
    exists|eqs: Seq<Equation>|
        #![trigger eqs.len()]
        eqs_of_proc(toggles_of(s, i), levels_of(s, i), eqs) && (((exists|full: Seq<u64>|
            #![trigger full.len()]
            full.len() == toggles_of(s, i).len() && (forall|w: int|
                0 <= w < full.len() ==> #[trigger] full[w] <= 0xffffffff) && k == sum_u64s(full)
                && (hygienic(eqs, blank_env(toggles_of(s, i).len() as int)) ==> satisfies(
                eqs,
                full,
            ))) && ((hygienic(eqs, blank_env(toggles_of(s, i).len() as int)) && !orphan_var(
            eqs,
            blank_env(toggles_of(s, i).len() as int),
        )) ==> forall|e: Seq<u64>|
            #[trigger] sat_extension(eqs, blank_env(toggles_of(s, i).len() as int), e) ==> k
                <= sum_u64s(e))) || (k == 0 && (orphan_var(
            eqs,
            blank_env(toggles_of(s, i).len() as int),
        ) || forall|e: Seq<u64>| !(#[trigger] sat_extension(
            eqs,
            blank_env(toggles_of(s, i).len() as int),
            e,
        )))))
}

/// Sum the least press totals over the procedures.
pub fn solve_part2(input: &str) -> (r: u64)
    requires
        input_wf(input@),
    ensures
        exists|ks: Seq<int>|
            #![trigger ks.len()]
            ks.len() == procs_of(input@).len() && r as int == sum_ints(ks) && forall|i: int|
                0 <= i < ks.len() ==> 0 <= #[trigger] ks[i] && proc_total(input@, i, ks[i]),
{
    let inits = prepare(input);
    let ghost gprocs = procs_of(input@);
    let mut total: u64 = 0;
    let mut i: usize = 0;
    let ghost mut ks: Seq<int> = Seq::empty();
    proof {
        assert(sum_ints(ks) == 0);
    }
    while i < inits.len()
        invariant
            i <= inits@.len(),
            inits@.len() == gprocs.len() <= 1000,
            input_wf(input@),
            gprocs == procs_of(input@),
            forall|k: int|
                0 <= k < inits@.len() ==> (#[trigger] inits@[k]).toggle_buttons@.map_values(
                    |x: u64| x as int,
                ) == gprocs[k].1 && inits@[k].specified_joltage_levels@.map_values(
                    |x: u64| x as int,
                ) == gprocs[k].2,
            ks.len() == i,
            forall|k: int| 0 <= k < ks.len() ==> 0 <= #[trigger] ks[k] && proc_total(
                input@,
                k,
                ks[k],
            ),
            total as int == sum_ints(ks),
            total <= i * 0x4000000000,
        decreases inits@.len() - i,
    {
        let init = &inits[i];
        proof {
            lemma_proc_bounds(input@, i as int);
            assert(gprocs[i as int].1.len() <= 64 && gprocs[i as int].2.len() <= 64);
            assert(init.toggle_buttons@.len() == gprocs[i as int].1.len());
            assert(init.specified_joltage_levels@.len() == gprocs[i as int].2.len());
            assert forall|k: int|
                0 <= k < init.specified_joltage_levels@.len() implies (
            #[trigger] init.specified_joltage_levels@[k]) <= 0xffffffff by {
                assert(init.specified_joltage_levels@[k] as int == gprocs[i as int].2[k]);
            }
            assert(toggles_of(input@, i as int) =~= init.toggle_buttons@) by {
                assert forall|k: int|
                    0 <= k < toggles_of(input@, i as int).len() implies toggles_of(
                    input@,
                    i as int,
                )[k] == init.toggle_buttons@[k] by {
                    assert(init.toggle_buttons@[k] as int == gprocs[i as int].1[k]);
                    assert(0 <= gprocs[i as int].1[k] < 0x1000);
                }
            }
            assert(levels_of(input@, i as int) =~= init.specified_joltage_levels@) by {
                assert forall|k: int|
                    0 <= k < levels_of(input@, i as int).len() implies levels_of(
                    input@,
                    i as int,
                )[k] == init.specified_joltage_levels@[k] by {
                    assert(init.specified_joltage_levels@[k] as int == gprocs[i as int].2[k]);
                    assert(0 <= gprocs[i as int].2[k] <= 0xffffffff);
                }
            }
        }
        let presses = solve_joltages(init);
        proof {
            assert(proc_total(input@, i as int, presses as int));
            let old_ks = ks;
            ks = ks.push(presses as int);
            assert(ks.drop_last() =~= old_ks);
            assert(sum_ints(ks) == sum_ints(old_ks) + presses as int);
            assert(total + presses <= (i + 1) * 0x4000000000) by (nonlinear_arith)
                requires
                    total <= i * 0x4000000000,
                    presses <= 0x4000000000,
                    i >= 0,
            ;
        }
        total = total + presses;
        i = i + 1;
    }
    total
}

pub fn solve(input: String) -> (r: SolutionPair)
    requires
        input_wf(input@),
    ensures
        r.0 matches Solution::U64(a) && exists|ks: Seq<int>|
            #![trigger ks.len()]
            ks.len() == procs_of(input@).len() && a as int == sum_ints(ks) && forall|i: int|
                0 <= i < ks.len() ==> #[trigger] proc_presses(input@, i, ks[i]),
        r.1 matches Solution::U64(b) && exists|ks: Seq<int>|
            #![trigger ks.len()]
            ks.len() == procs_of(input@).len() && b as int == sum_ints(ks) && forall|i: int|
                0 <= i < ks.len() ==> 0 <= #[trigger] ks[i] && proc_total(input@, i, ks[i]),
{
    let sol1 = solve_part1(&input);
    let sol2 = solve_part2(&input);
    (Solution::from(sol1), Solution::from(sol2))
}

} // verus!
