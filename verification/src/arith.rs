use vstd::multiset::Multiset;
use vstd::prelude::*;

verus! {

/// Sum of the elements `s[lo..hi]`.
pub open spec fn sum_range(s: Seq<int>, lo: int, hi: int) -> int
    decreases hi - lo,
{
    if hi <= lo {
        0
    } else {
        sum_range(s, lo, hi - 1) + s[hi - 1]
    }
}

/// Every element of `s[lo..hi]` is nonnegative.
pub open spec fn nonneg_range(s: Seq<int>, lo: int, hi: int) -> bool {
    forall|k: int| lo <= k < hi ==> #[trigger] s[k] >= 0
}

pub proof fn lemma_sum_range_nonneg(s: Seq<int>, lo: int, hi: int)
    requires
        nonneg_range(s, lo, hi),
    ensures
        sum_range(s, lo, hi) >= 0,
    decreases hi - lo,
{
    if hi > lo {
        lemma_sum_range_nonneg(s, lo, hi - 1);
    }
}

pub proof fn lemma_sum_range_split(s: Seq<int>, lo: int, mid: int, hi: int)
    requires
        lo <= mid <= hi,
    ensures
        sum_range(s, lo, hi) == sum_range(s, lo, mid) + sum_range(s, mid, hi),
    decreases hi - mid,
{
    if mid < hi {
        lemma_sum_range_split(s, lo, mid, hi - 1);
    }
}

pub proof fn lemma_elem_le_sum_range(s: Seq<int>, lo: int, hi: int, i: int)
    requires
        lo <= i < hi,
        nonneg_range(s, lo, hi),
    ensures
        s[i] <= sum_range(s, lo, hi),
        s[i] >= 0,
{
    lemma_sum_range_split(s, lo, i, hi);
    lemma_sum_range_split(s, i, i + 1, hi);
    assert(sum_range(s, i, i) == 0);
    assert(sum_range(s, i, i + 1) == s[i]);
    assert(nonneg_range(s, lo, i));
    assert(nonneg_range(s, i + 1, hi));
    lemma_sum_range_nonneg(s, lo, i);
    lemma_sum_range_nonneg(s, i + 1, hi);
    assert(s[i] >= 0);
}

pub proof fn lemma_sum_range_update(s: Seq<int>, lo: int, hi: int, i: int, x: int)
    requires
        0 <= lo <= i < hi <= s.len(),
    ensures
        sum_range(s.update(i, x), lo, hi) == sum_range(s, lo, hi) - s[i] + x,
    decreases hi,
{
    let t = s.update(i, x);
    if i == hi - 1 {
        lemma_sum_range_same(s, t, lo, hi - 1);
    } else {
        lemma_sum_range_update(s, lo, hi - 1, i, x);
        assert(t[hi - 1] == s[hi - 1]);
    }
}

/// Two sequences agreeing on a range have the same sum there.
pub proof fn lemma_sum_range_same(s: Seq<int>, t: Seq<int>, lo: int, hi: int)
    requires
        forall|k: int| lo <= k < hi ==> s[k] == t[k],
    ensures
        sum_range(s, lo, hi) == sum_range(t, lo, hi),
    decreases hi - lo,
{
    if hi > lo {
        lemma_sum_range_same(s, t, lo, hi - 1);
    }
}

/// Inserting anywhere in a sequence adds one occurrence to its multiset.
pub proof fn lemma_to_multiset_insert<A>(s: Seq<A>, i: int, x: A)
    requires
        0 <= i <= s.len(),
    ensures
        s.insert(i, x).to_multiset() == s.to_multiset().insert(x),
{
    broadcast use vstd::seq_lib::group_to_multiset_ensures;
    broadcast use vstd::multiset::group_multiset_axioms;

    let a = s.take(i);
    let b = s.skip(i);
    assert(s.insert(i, x) =~= a + (seq![x] + b));
    assert(s =~= a + b);
    vstd::seq_lib::lemma_multiset_commutative(a, seq![x] + b);
    vstd::seq_lib::lemma_multiset_commutative(seq![x], b);
    vstd::seq_lib::lemma_multiset_commutative(a, b);
    assert(seq![x] =~= Seq::<A>::empty().push(x));
    assert(seq![x].to_multiset() =~= Multiset::<A>::empty().insert(x)) by {
        Seq::<A>::empty().to_multiset_ensures();
    }
    assert(s.insert(i, x).to_multiset() =~= s.to_multiset().insert(x));
}

/// Powers of two.
pub open spec fn pow2(n: nat) -> int
    decreases n,
{
    if n == 0 {
        1
    } else {
        2 * pow2((n - 1) as nat)
    }
}

pub proof fn lemma_pow2_pos(n: nat)
    ensures
        pow2(n) >= 1,
    decreases n,
{
    if n > 0 {
        lemma_pow2_pos((n - 1) as nat);
    }
}

pub proof fn lemma_pow2_mono(a: nat, b: nat)
    requires
        a <= b,
    ensures
        1 <= pow2(a) <= pow2(b),
    decreases b,
{
    lemma_pow2_pos(a);
    if a < b {
        lemma_pow2_mono(a, (b - 1) as nat);
        lemma_pow2_pos((b - 1) as nat);
    }
}

/// Sort words ascending, keeping exactly the same values.
pub fn sort_u64s(v: Vec<u64>) -> (r: Vec<u64>)
    ensures
        r@.to_multiset() == v@.to_multiset(),
        r@.len() == v@.len(),
        forall|k1: int, k2: int| 0 <= k1 <= k2 < r@.len() ==> r@[k1] <= r@[k2],
{
    let mut out: Vec<u64> = Vec::new();
    let mut i: usize = 0;
    proof {
        broadcast use vstd::seq_lib::group_to_multiset_ensures;

        assert(v@.take(0) =~= Seq::<u64>::empty());
        assert(out@.to_multiset() =~= v@.take(0).to_multiset());
    }
    while i < v.len()
        invariant
            i <= v@.len(),
            out@.len() == i,
            forall|k1: int, k2: int| 0 <= k1 <= k2 < out@.len() ==> out@[k1] <= out@[k2],
            out@.to_multiset() == v@.take(i as int).to_multiset(),
        decreases v@.len() - i,
    {
        let e = v[i];
        let mut pos: usize = 0;
        while pos < out.len() && out[pos] <= e
            invariant
                pos <= out@.len(),
                forall|k: int| 0 <= k < pos ==> out@[k] <= e,
                forall|k1: int, k2: int| 0 <= k1 <= k2 < out@.len() ==> out@[k1] <= out@[k2],
            decreases out@.len() - pos,
        {
            pos = pos + 1;
        }
        let ghost old_out = out@;
        out.insert(pos, e);
        proof {
            broadcast use vstd::seq_lib::group_to_multiset_ensures;

            lemma_to_multiset_insert(old_out, pos as int, e);
            assert(v@.take(i + 1) =~= v@.take(i as int).push(v@[i as int]));
            assert(out@.to_multiset() =~= v@.take(i + 1).to_multiset());
            assert forall|k1: int, k2: int| 0 <= k1 <= k2 < out@.len() implies out@[k1]
                <= out@[k2] by {
                if k1 < pos && k2 == pos {
                    assert(out@[k1] == old_out[k1]);
                } else if k1 == pos && k2 > pos {
                    assert(out@[k2] == old_out[k2 - 1]);
                } else if k1 < pos && k2 > pos {
                    assert(out@[k1] == old_out[k1]);
                    assert(out@[k2] == old_out[k2 - 1]);
                } else if k1 != pos && k2 != pos {
                    assert(out@[k1] == old_out[if k1 < pos {
                        k1
                    } else {
                        k1 - 1
                    }]);
                    assert(out@[k2] == old_out[if k2 < pos {
                        k2
                    } else {
                        k2 - 1
                    }]);
                }
            }
        }
        i = i + 1;
    }
    proof {
        assert(v@.take(v@.len() as int) =~= v@);
    }
    out
}

} // verus!
