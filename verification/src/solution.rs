use vstd::prelude::*;

verus! {

/// A uniform answer type: a day-solver returns an unsigned number, a string,
/// or marks the part as not yet solved.
#[derive(Clone, Debug)]
pub enum Solution {
    U64(u64),
    Usize(usize),
    Str(String),
    Unimplemented,
}

/// The decimal digit character of a value below ten.
pub open spec fn digit_char(d: int) -> char {
    ((48 + d) as u8) as char
}

/// The decimal text of a number, most significant digit first.
pub open spec fn dec_chars(n: int) -> Seq<char>
    decreases n,
{
    if n < 10 {
        seq![digit_char(n)]
    } else {
        dec_chars(n / 10).push(digit_char(n % 10))
    }
}

/// The text an answer shows.
pub open spec fn spec_text(s: Solution) -> Seq<char> {
    match s {
        Solution::U64(x) => dec_chars(x as int),
        Solution::Usize(x) => dec_chars(x as int),
        Solution::Str(x) => x@,
        Solution::Unimplemented => "TODO"@,
    }
}

/// Relies on String::from_iter over std's char iterator: the string holds
/// exactly the given characters in order.
#[verifier::external_body]
fn string_of(v: &Vec<char>) -> (r: String)
    ensures
        r@ == v@,
{
    v.iter().collect()
}

/// The decimal text of a number.
fn dec_string(n: u64) -> (r: String)
    ensures
        r@ == dec_chars(n as int),
{
    let mut rev: Vec<char> = Vec::new();
    let mut m = n;
    let mut done = false;
    while !done
        invariant
            rev@.len() >= 1 || !done,
            done ==> rev@.len() >= 1,
            done ==> dec_chars(n as int) =~= rev_chars(rev@),
            !done ==> dec_chars(n as int) =~= dec_chars(m as int) + rev_chars(rev@),
            m <= n,
        decreases m, (if done {
            0int
        } else {
            1int
        }),
    {
        let d = m % 10;
        let c = (48 + (d as u8)) as char;
        let ghost old_rev = rev@;
        proof {
            assert(c == digit_char(d as int));
            lemma_rev_push(old_rev, c);
        }
        rev.push(c);
        proof {
            assert(rev_chars(rev@) == seq![c] + rev_chars(old_rev));
            if m >= 10 {
                assert(dec_chars(m as int) == dec_chars(m as int / 10).push(
                    digit_char(m as int % 10),
                ));
                assert(dec_chars(m as int / 10).push(c) + rev_chars(old_rev) =~= dec_chars(
                    m as int / 10,
                ) + rev_chars(rev@));
            } else {
                assert(dec_chars(m as int) =~= seq![c]);
                assert(seq![c] + rev_chars(old_rev) =~= rev_chars(rev@));
            }
        }
        if m < 10 {
            done = true;
        } else {
            m = m / 10;
        }
    }
    let mut out: Vec<char> = Vec::new();
    let len = rev.len();
    let mut i: usize = 0;
    while i < len
        invariant
            i <= len == rev@.len(),
            out@.len() == i,
            forall|k: int| 0 <= k < i ==> #[trigger] out@[k] == rev@[len - 1 - k],
        decreases len - i,
    {
        out.push(rev[len - 1 - i]);
        i = i + 1;
    }
    proof {
        assert(out@ =~= rev_chars(rev@)) by {
            lemma_rev_chars(rev@);
        }
    }
    string_of(&out)
}

/// The characters read back to front.
pub open spec fn rev_chars(v: Seq<char>) -> Seq<char>
    decreases v.len(),
{
    if v.len() == 0 {
        Seq::empty()
    } else {
        rev_chars(v.skip(1)).push(v[0])
    }
}

/// Appending a character prepends it to the reversal.
pub proof fn lemma_rev_push(v: Seq<char>, c: char)
    ensures
        rev_chars(v.push(c)) == seq![c] + rev_chars(v),
    decreases v.len(),
{
    if v.len() == 0 {
        assert(v =~= Seq::<char>::empty());
        assert(v.push(c).skip(1) =~= v);
        assert(rev_chars(v) == Seq::<char>::empty());
        assert(rev_chars(v.push(c)) == rev_chars(v).push(c));
        assert(rev_chars(v).push(c) =~= seq![c] + rev_chars(v));
    } else {
        assert(v.push(c).skip(1) =~= v.skip(1).push(c));
        lemma_rev_push(v.skip(1), c);
        assert(rev_chars(v.push(c)) == rev_chars(v.skip(1).push(c)).push(v[0]));
        assert((seq![c] + rev_chars(v.skip(1))).push(v[0]) =~= seq![c] + rev_chars(v.skip(1)).push(
            v[0],
        ));
    }
}

pub proof fn lemma_rev_chars(v: Seq<char>)
    ensures
        rev_chars(v).len() == v.len(),
        forall|k: int| 0 <= k < v.len() ==> #[trigger] rev_chars(v)[k] == v[v.len() - 1 - k],
    decreases v.len(),
{
    if v.len() > 0 {
        lemma_rev_chars(v.skip(1));
        assert forall|k: int| 0 <= k < v.len() implies #[trigger] rev_chars(v)[k] == v[v.len() - 1
            - k] by {
            if k < v.len() - 1 {
                assert(rev_chars(v)[k] == rev_chars(v.skip(1))[k]);
                assert(v.skip(1)[v.skip(1).len() - 1 - k] == v[v.len() - 1 - k]);
            }
        }
    }
}

impl Solution {
    /// The answer as text: the number in decimal, the string itself, or the
    /// unsolved marker.
    pub fn text(&self) -> (r: String)
        ensures
            r@ == spec_text(*self),
    {
        match self {
            Solution::U64(x) => dec_string(*x),
            Solution::Usize(x) => dec_string(*x as u64),
            Solution::Str(x) => x.clone(),
            Solution::Unimplemented => "TODO".to_owned(),
        }
    }
}

impl From<u64> for Solution {
    fn from(sol: u64) -> (r: Self) {
        Solution::U64(sol)
    }
}

impl vstd::std_specs::convert::FromSpecImpl<u64> for Solution {
    open spec fn obeys_from_spec() -> bool {
        true
    }

    open spec fn from_spec(sol: u64) -> Self {
        Solution::U64(sol)
    }
}

impl From<usize> for Solution {
    fn from(sol: usize) -> (r: Self) {
        Solution::Usize(sol)
    }
}

impl vstd::std_specs::convert::FromSpecImpl<usize> for Solution {
    open spec fn obeys_from_spec() -> bool {
        true
    }

    open spec fn from_spec(sol: usize) -> Self {
        Solution::Usize(sol)
    }
}

impl From<String> for Solution {
    fn from(sol: String) -> (r: Self) {
        Solution::Str(sol)
    }
}

impl vstd::std_specs::convert::FromSpecImpl<String> for Solution {
    open spec fn obeys_from_spec() -> bool {
        true
    }

    open spec fn from_spec(sol: String) -> Self {
        Solution::Str(sol)
    }
}

} // verus!
