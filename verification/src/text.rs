use vstd::prelude::*;

verus! {

// ---------------------------------------------------------------------------
// Character classes
// ---------------------------------------------------------------------------

pub open spec fn is_ws(c: char) -> bool {
    c == ' ' || c == '\n' || c == '\t' || c == '\r'
}

pub open spec fn is_digit(c: char) -> bool {
    '0' <= c && c <= '9'
}

pub open spec fn digit_val(c: char) -> int {
    c as int - '0' as int
}

pub open spec fn all_digits(s: Seq<char>) -> bool {
    forall|i: int| 0 <= i < s.len() ==> is_digit(#[trigger] s[i])
}

/// Value of a decimal digit string, most significant digit first.
pub open spec fn dec_val(s: Seq<char>) -> int
    decreases s.len(),
{
    if s.len() == 0 {
        0
    } else {
        dec_val(s.drop_last()) * 10 + digit_val(s.last())
    }
}

pub proof fn lemma_dec_val_nonneg(s: Seq<char>)
    requires
        all_digits(s),
    ensures
        dec_val(s) >= 0,
    decreases s.len(),
{
    if s.len() > 0 {
        assert(all_digits(s.drop_last()));
        lemma_dec_val_nonneg(s.drop_last());
    }
}

/// Every digit prefix is worth no more than the whole string.
pub proof fn lemma_dec_val_prefix(s: Seq<char>, k: int)
    requires
        all_digits(s),
        0 <= k <= s.len(),
    ensures
        dec_val(s.take(k)) <= dec_val(s),
    decreases s.len() - k,
{
    if k < s.len() {
        assert(s.take(k + 1).drop_last() =~= s.take(k));
        assert(s.take(k + 1).last() == s[k]);
        assert(all_digits(s.take(k)));
        lemma_dec_val_nonneg(s.take(k));
        lemma_dec_val_prefix(s, k + 1);
    } else {
        assert(s.take(k) =~= s);
    }
}

// ---------------------------------------------------------------------------
// Whitespace tokenization
// ---------------------------------------------------------------------------

/// Length of the leading run of non-whitespace characters.
pub open spec fn run_len(s: Seq<char>) -> nat
    decreases s.len(),
{
    if s.len() == 0 || is_ws(s[0]) {
        0
    } else {
        1 + run_len(s.skip(1))
    }
}

pub proof fn lemma_run_len_le(s: Seq<char>)
    ensures
        run_len(s) <= s.len(),
    decreases s.len(),
{
    if s.len() > 0 && !is_ws(s[0]) {
        lemma_run_len_le(s.skip(1));
    }
}

/// The maximal non-whitespace runs of `s`, in order.
pub open spec fn tokens(s: Seq<char>) -> Seq<Seq<char>>
    decreases s.len(),
    via tokens_decreases
{
    if s.len() == 0 {
        Seq::empty()
    } else if is_ws(s[0]) {
        tokens(s.skip(1))
    } else {
        seq![s.take(run_len(s) as int)] + tokens(s.skip(run_len(s) as int))
    }
}

#[via_fn]
proof fn tokens_decreases(s: Seq<char>) {
    lemma_run_len_le(s);
}

// ---------------------------------------------------------------------------
// Splitting on a separator character
// ---------------------------------------------------------------------------

/// Index of the first occurrence of `sep`, or the length of `s` if absent.
pub open spec fn sep_pos(s: Seq<char>, sep: char) -> nat
    decreases s.len(),
{
    if s.len() == 0 || s[0] == sep {
        0
    } else {
        1 + sep_pos(s.skip(1), sep)
    }
}

pub proof fn lemma_sep_pos_le(s: Seq<char>, sep: char)
    ensures
        sep_pos(s, sep) <= s.len(),
        sep_pos(s, sep) < s.len() ==> s[sep_pos(s, sep) as int] == sep,
        forall|i: int| 0 <= i < sep_pos(s, sep) ==> s[i] != sep,
    decreases s.len(),
{
    if s.len() > 0 && s[0] != sep {
        lemma_sep_pos_le(s.skip(1), sep);
        assert forall|i: int| 0 <= i < sep_pos(s, sep) implies s[i] != sep by {
            if i > 0 {
                assert(s.skip(1)[i - 1] == s[i]);
            }
        }
    }
}

/// The pieces of `s` split on `sep`: one more piece than separators.
pub open spec fn split_at(s: Seq<char>, sep: char) -> Seq<Seq<char>>
    decreases s.len(),
    via split_at_decreases
{
    let k = sep_pos(s, sep) as int;
    if k == s.len() {
        seq![s]
    } else {
        seq![s.take(k)] + split_at(s.skip(k + 1), sep)
    }
}

#[via_fn]
proof fn split_at_decreases(s: Seq<char>, sep: char) {
    lemma_sep_pos_le(s, sep);
}

/// The lines of `s`: pieces split on a newline, without a final empty piece.
pub open spec fn lines_of(s: Seq<char>) -> Seq<Seq<char>> {
    let p = split_at(s, '\n');
    if p.len() > 0 && p.last().len() == 0 {
        p.drop_last()
    } else {
        p
    }
}

// ---------------------------------------------------------------------------
// Trimming
// ---------------------------------------------------------------------------

/// Length of the leading run of whitespace characters.
pub open spec fn ws_lead(s: Seq<char>) -> nat
    decreases s.len(),
{
    if s.len() == 0 || !is_ws(s[0]) {
        0
    } else {
        1 + ws_lead(s.skip(1))
    }
}

/// Length of the trailing run of whitespace characters.
pub open spec fn ws_trail(s: Seq<char>) -> nat
    decreases s.len(),
{
    if s.len() == 0 || !is_ws(s.last()) {
        0
    } else {
        1 + ws_trail(s.drop_last())
    }
}

pub proof fn lemma_ws_lead_le(s: Seq<char>)
    ensures
        ws_lead(s) <= s.len(),
        forall|i: int| 0 <= i < ws_lead(s) ==> is_ws(#[trigger] s[i]),
        ws_lead(s) < s.len() ==> !is_ws(s[ws_lead(s) as int]),
    decreases s.len(),
{
    if s.len() > 0 && is_ws(s[0]) {
        lemma_ws_lead_le(s.skip(1));
        assert forall|i: int| 0 <= i < ws_lead(s) implies is_ws(#[trigger] s[i]) by {
            if i > 0 {
                assert(s.skip(1)[i - 1] == s[i]);
            }
        }
        if ws_lead(s) < s.len() {
            assert(s.skip(1)[ws_lead(s) - 1] == s[ws_lead(s) as int]);
        }
    }
}

pub proof fn lemma_ws_trail_le(s: Seq<char>)
    ensures
        ws_trail(s) <= s.len(),
        forall|i: int| s.len() - ws_trail(s) <= i < s.len() ==> is_ws(#[trigger] s[i]),
        ws_trail(s) < s.len() ==> !is_ws(s[s.len() - ws_trail(s) - 1]),
    decreases s.len(),
{
    if s.len() > 0 && is_ws(s.last()) {
        lemma_ws_trail_le(s.drop_last());
        assert forall|i: int| s.len() - ws_trail(s) <= i < s.len() implies is_ws(
            #[trigger] s[i],
        ) by {
            if i < s.len() - 1 {
                assert(s.drop_last()[i] == s[i]);
            }
        }
        if ws_trail(s) < s.len() {
            assert(s.drop_last()[s.len() - ws_trail(s) - 1] == s[s.len() - ws_trail(s) - 1]);
        }
    }
}

/// `s` without leading and trailing whitespace.
pub open spec fn trim_spec(s: Seq<char>) -> Seq<char> {
    if ws_lead(s) == s.len() {
        Seq::empty()
    } else {
        s.subrange(ws_lead(s) as int, s.len() - ws_trail(s))
    }
}

// ---------------------------------------------------------------------------
// Executable scanning
// ---------------------------------------------------------------------------

/// The character sequences held by a sequence of vectors.
pub open spec fn views(r: Seq<Vec<char>>) -> Seq<Seq<char>> {
    r.map_values(|t: Vec<char>| t@)
}

pub proof fn lemma_views_push(r: Seq<Vec<char>>, t: Vec<char>)
    ensures
        views(r.push(t)) == views(r) + seq![t@],
{
    assert(views(r.push(t)) =~= views(r) + seq![t@]);
}

/// Relies on str::chars: yields the characters of the slice in order.
#[verifier::external_body]
pub fn chars_vec(s: &str) -> (r: Vec<char>)
    ensures
        r@ == s@,
{
    s.chars().collect()
}

pub fn exec_is_ws(c: char) -> (r: bool)
    ensures
        r == is_ws(c),
{
    c == ' ' || c == '\n' || c == '\t' || c == '\r'
}

pub fn exec_is_digit(c: char) -> (r: bool)
    ensures
        r == is_digit(c),
{
    '0' <= c && c <= '9'
}

/// Copy `v[from..to]` into a fresh vector.
pub fn copy_range(v: &Vec<char>, from: usize, to: usize) -> (r: Vec<char>)
    requires
        from <= to <= v@.len(),
    ensures
        r@ == v@.subrange(from as int, to as int),
{
    let mut r: Vec<char> = Vec::new();
    let mut k: usize = from;
    while k < to
        invariant
            from <= k <= to <= v@.len(),
            r@ == v@.subrange(from as int, k as int),
        decreases to - k,
    {
        r.push(v[k]);
        k = k + 1;
        proof {
            assert(v@.subrange(from as int, k as int) =~= v@.subrange(
                from as int,
                k - 1,
            ).push(v@[k - 1]));
        }
    }
    r
}

/// Split `v` into its maximal non-whitespace runs.
pub fn split_tokens(v: &Vec<char>) -> (r: Vec<Vec<char>>)
    ensures
        views(r@) == tokens(v@),
{
    let mut r: Vec<Vec<char>> = Vec::new();
    let mut i: usize = 0;
    proof {
        assert(v@.skip(0) =~= v@);
        assert(views(r@) =~= Seq::<Seq<char>>::empty());
        assert(views(r@) + tokens(v@) =~= tokens(v@));
    }
    while i < v.len()
        invariant
            i <= v@.len(),
            tokens(v@) == views(r@) + tokens(v@.skip(i as int)),
        decreases v@.len() - i,
    {
        if exec_is_ws(v[i]) {
            proof {
                assert(v@.skip(i as int).skip(1) =~= v@.skip(i + 1));
            }
            i = i + 1;
        } else {
            let start = i;
            while i < v.len() && !exec_is_ws(v[i])
                invariant
                    start <= i <= v@.len(),
                    run_len(v@.skip(start as int)) == (i - start) + run_len(v@.skip(i as int)),
                decreases v@.len() - i,
            {
                proof {
                    assert(v@.skip(i as int)[0] == v@[i as int]);
                    assert(v@.skip(i as int).skip(1) =~= v@.skip(i + 1));
                }
                i = i + 1;
            }
            proof {
                if i < v@.len() {
                    assert(v@.skip(i as int)[0] == v@[i as int]);
                }
                assert(run_len(v@.skip(i as int)) == 0);
                assert(run_len(v@.skip(start as int)) == i - start);
            }
            let tok = copy_range(v, start, i);
            proof {
                let s = v@.skip(start as int);
                assert(s[0] == v@[start as int]);
                assert(!is_ws(s[0]));
                assert(s.take(run_len(s) as int) =~= v@.subrange(start as int, i as int));
                assert(s.skip(run_len(s) as int) =~= v@.skip(i as int));
                assert(tokens(s) == seq![tok@] + tokens(v@.skip(i as int)));
            }
            let ghost old_r = r@;
            r.push(tok);
            proof {
                lemma_views_push(old_r, r@[r@.len() - 1]);
                assert(views(r@) + tokens(v@.skip(i as int)) =~= (views(old_r) + seq![tok@])
                    + tokens(v@.skip(i as int)));
            }
        }
    }
    proof {
        assert(v@.skip(i as int) =~= Seq::<char>::empty());
        assert(tokens(v@) =~= views(r@));
    }
    r
}

/// Split `v` on the separator `sep`: one more piece than separators.
pub fn split_on(v: &Vec<char>, sep: char) -> (r: Vec<Vec<char>>)
    ensures
        views(r@) == split_at(v@, sep),
{
    let mut r: Vec<Vec<char>> = Vec::new();
    let mut i: usize = 0;
    let mut start: usize = 0;
    proof {
        assert(v@.skip(0) =~= v@);
        assert(views(r@) =~= Seq::<Seq<char>>::empty());
        assert(views(r@) + split_at(v@, sep) =~= split_at(v@, sep));
    }
    while i < v.len()
        invariant
            start <= i <= v@.len(),
            sep_pos(v@.skip(start as int), sep) == i - start + sep_pos(v@.skip(i as int), sep),
            split_at(v@, sep) == views(r@) + split_at(v@.skip(start as int), sep),
            forall|j: int| start <= j < i ==> v@[j] != sep,
        decreases v@.len() - i,
    {
        if v[i] == sep {
            proof {
                assert(v@.skip(i as int)[0] == v@[i as int]);
                assert(sep_pos(v@.skip(i as int), sep) == 0);
                let s = v@.skip(start as int);
                lemma_sep_pos_le(s, sep);
                assert(sep_pos(s, sep) == i - start);
                assert(s.take(i - start) =~= v@.subrange(start as int, i as int));
                assert(s.skip(i - start + 1) =~= v@.skip(i + 1));
                assert(split_at(s, sep) == seq![v@.subrange(start as int, i as int)] + split_at(
                    v@.skip(i + 1),
                    sep,
                ));
            }
            let piece = copy_range(v, start, i);
            let ghost old_r = r@;
            r.push(piece);
            proof {
                lemma_views_push(old_r, r@[r@.len() - 1]);
                assert(views(r@) + split_at(v@.skip(i + 1), sep) =~= (views(old_r) + seq![
                    r@[r@.len() - 1]@,
                ]) + split_at(v@.skip(i + 1), sep));
            }
            i = i + 1;
            start = i;
        } else {
            proof {
                assert(v@.skip(i as int)[0] == v@[i as int]);
                assert(v@.skip(i as int).skip(1) =~= v@.skip(i + 1));
            }
            i = i + 1;
        }
    }
    proof {
        let s = v@.skip(start as int);
        assert(v@.skip(i as int) =~= Seq::<char>::empty());
        assert(sep_pos(s, sep) == i - start);
        assert(s.take(i - start) =~= s);
        assert(split_at(s, sep) == seq![s]);
        assert(s =~= v@.subrange(start as int, i as int));
    }
    let piece = copy_range(v, start, v.len());
    let ghost old_r = r@;
    r.push(piece);
    proof {
        lemma_views_push(old_r, r@[r@.len() - 1]);
        assert(views(r@) =~= split_at(v@, sep));
    }
    r
}

/// The lines of `v`: pieces split on a newline, without a final empty piece.
pub fn split_lines(v: &Vec<char>) -> (r: Vec<Vec<char>>)
    ensures
        views(r@) == lines_of(v@),
{
    let mut r = split_on(v, '\n');
    proof {
        assert(views(r@).len() == r@.len());
        if r@.len() > 0 {
            assert(views(r@).last() == r@[r@.len() - 1]@);
        }
    }
    if r.len() > 0 && r[r.len() - 1].len() == 0 {
        let ghost old_r = r@;
        r.pop();
        proof {
            assert(views(r@) =~= views(old_r).drop_last());
        }
    }
    r
}

/// `v` without leading and trailing whitespace.
pub fn trim(v: &Vec<char>) -> (r: Vec<char>)
    ensures
        r@ == trim_spec(v@),
{
    let mut lo: usize = 0;
    proof {
        assert(v@.skip(0) =~= v@);
    }
    while lo < v.len() && exec_is_ws(v[lo])
        invariant
            lo <= v@.len(),
            ws_lead(v@.skip(lo as int)) == ws_lead(v@) - lo,
            forall|i: int| 0 <= i < lo ==> is_ws(#[trigger] v@[i]),
        decreases v@.len() - lo,
    {
        proof {
            assert(v@.skip(lo as int)[0] == v@[lo as int]);
            assert(v@.skip(lo as int).skip(1) =~= v@.skip(lo + 1));
        }
        lo = lo + 1;
    }
    proof {
        if lo < v@.len() {
            assert(v@.skip(lo as int)[0] == v@[lo as int]);
        }
        assert(ws_lead(v@.skip(lo as int)) == 0);
        assert(ws_lead(v@) == lo);
    }
    if lo == v.len() {
        proof {
            lemma_ws_lead_le(v@);
        }
        return Vec::new();
    }
    let mut hi: usize = v.len();
    proof {
        assert(v@.take(v@.len() as int) =~= v@);
    }
    while hi > lo && exec_is_ws(v[hi - 1])
        invariant
            lo < hi <= v@.len() || hi == lo,
            lo < v@.len(),
            !is_ws(v@[lo as int]),
            ws_lead(v@) == lo,
            ws_trail(v@.take(hi as int)) == ws_trail(v@) - (v@.len() - hi),
        decreases hi,
    {
        proof {
            assert(v@.take(hi as int).last() == v@[hi - 1]);
            assert(v@.take(hi as int).drop_last() =~= v@.take(hi - 1));
        }
        hi = hi - 1;
    }
    proof {
        lemma_ws_lead_le(v@);
        lemma_ws_trail_le(v@);
        if hi > lo {
            assert(v@.take(hi as int).last() == v@[hi - 1]);
            assert(ws_trail(v@.take(hi as int)) == 0);
        } else {
            assert(hi == lo);
            assert(ws_trail(v@.take(hi as int)) == 0) by {
                if ws_trail(v@.take(hi as int)) > 0 {
                    assert(is_ws(v@.take(hi as int).last()));
                    assert(v@.take(hi as int).last() == v@[lo as int]);
                }
            }
        }
        assert(ws_trail(v@) == v@.len() - hi);
        assert(hi > lo);
    }
    copy_range(v, lo, hi)
}

/// Parse an unsigned decimal number; `None` on empty, non-digit, or overflow.
pub fn parse_u64(t: &Vec<char>) -> (r: Option<u64>)
    ensures
        match r {
            Some(x) => t@.len() > 0 && all_digits(t@) && x as int == dec_val(t@),
            None => t@.len() == 0 || !all_digits(t@) || dec_val(t@) > u64::MAX,
        },
{
    if t.len() == 0 {
        return None;
    }
    let mut acc: u64 = 0;
    let mut k: usize = 0;
    while k < t.len()
        invariant
            k <= t@.len(),
            all_digits(t@.take(k as int)),
            acc as int == dec_val(t@.take(k as int)),
        decreases t@.len() - k,
    {
        let c = t[k];
        if !exec_is_digit(c) {
            return None;
        }
        let d: u64 = (c as u32 - '0' as u32) as u64;
        proof {
            assert(t@.take(k + 1).drop_last() =~= t@.take(k as int));
            assert(t@.take(k + 1).last() == t@[k as int]);
        }
        if acc > (u64::MAX - d) / 10 {
            proof {
                assert(all_digits(t@.take(k + 1)));
                assert(dec_val(t@.take(k + 1)) > u64::MAX);
                assert(forall|i: int| 0 <= i < t@.len() && !is_digit(t@[i]) ==> !all_digits(t@));
                if all_digits(t@) {
                    lemma_dec_val_prefix(t@, k + 1);
                }
            }
            return None;
        }
        acc = acc * 10 + d;
        k = k + 1;
    }
    proof {
        assert(t@.take(k as int) =~= t@);
    }
    Some(acc)
}

/// Parse a signed decimal number with an optional leading minus sign.
pub fn parse_i64(t: &Vec<char>) -> (r: Option<i64>)
    ensures
        match r {
            Some(x) => signed_val(t@) is Some && x as int == signed_val(t@).unwrap(),
            None => signed_val(t@) is None,
        },
{
    if t.len() > 0 && t[0] == '-' {
        let digits = copy_range(t, 1, t.len());
        proof {
            assert(digits@ =~= t@.skip(1));
        }
        match parse_u64(&digits) {
            Some(x) => {
                if x <= 0x8000_0000_0000_0000u64 {
                    if x == 0x8000_0000_0000_0000u64 {
                        Some(i64::MIN)
                    } else {
                        Some(-(x as i64))
                    }
                } else {
                    None
                }
            },
            None => None,
        }
    } else {
        match parse_u64(t) {
            Some(x) => {
                if x <= i64::MAX as u64 {
                    Some(x as i64)
                } else {
                    None
                }
            },
            None => None,
        }
    }
}

/// The value of an optionally minus-signed digit string, when well formed
/// and within the signed 64-bit range.
pub open spec fn signed_val(s: Seq<char>) -> Option<int> {
    if s.len() > 0 && s[0] == '-' {
        let m = s.skip(1);
        if m.len() > 0 && all_digits(m) && -dec_val(m) >= i64::MIN {
            Some(-dec_val(m))
        } else {
            None
        }
    } else {
        if s.len() > 0 && all_digits(s) && dec_val(s) <= i64::MAX {
            Some(dec_val(s))
        } else {
            None
        }
    }
}

} // verus!
