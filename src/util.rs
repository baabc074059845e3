use vstd::prelude::*;

verus! {

pub open spec fn is_digit(c: char) -> bool {
    '0' <= c && c <= '9'
}

/// Non-empty and made of ASCII digits only.
pub open spec fn spec_is_number(s: Seq<char>) -> bool {
    s.len() > 0 && forall|i: int| 0 <= i < s.len() ==> is_digit(#[trigger] s[i])
}

pub fn is_number(s: &str) -> (r: bool)
    ensures
        r == spec_is_number(s@),
{
    let n = s.unicode_len();
    if n == 0 {
        return false;
    }
    let mut i: usize = 0;
    while i < n
        invariant
            n == s@.len(),
            i <= n,
            forall|k: int| 0 <= k < i ==> is_digit(#[trigger] s@[k]),
        decreases n - i,
    {
        let c = s.get_char(i);
        if !('0' <= c && c <= '9') {
            return false;
        }
        i = i + 1;
    }
    true
}

pub open spec fn seq_sum(s: Seq<i64>) -> int
    decreases s.len(),
{
    if s.len() == 0 {
        0
    } else {
        seq_sum(s.drop_last()) + s.last()
    }
}

/// Floor of the mean; none for an empty sequence.
pub open spec fn spec_avg(s: Seq<i64>) -> Option<int> {
    if s.len() == 0 {
        None
    } else {
        Some(seq_sum(s) / (s.len() as int))
    }
}

pub(crate) proof fn lemma_avg_bounds(s: Seq<i64>, lo: int, hi: int)
    requires
        s.len() > 0,
        forall|i: int| 0 <= i < s.len() ==> lo <= #[trigger] s[i] <= hi,
    ensures
        lo <= spec_avg(s)->Some_0 <= hi,
{
    lemma_sum_bounds(s, lo, hi);
    let n = s.len() as int;
    let t = seq_sum(s);
    assert(lo * n <= t <= hi * n);
    assert(lo <= t / n <= hi) by (nonlinear_arith)
        requires
            lo * n <= t <= hi * n,
            n > 0,
    {
        vstd::arithmetic::div_mod::lemma_div_is_ordered(lo * n, t, n);
        vstd::arithmetic::div_mod::lemma_div_is_ordered(t, hi * n, n);
        vstd::arithmetic::div_mod::lemma_div_multiples_vanish(lo, n);
        vstd::arithmetic::div_mod::lemma_div_multiples_vanish(hi, n);
    }
}

proof fn lemma_sum_bounds(s: Seq<i64>, lo: int, hi: int)
    requires
        forall|i: int| 0 <= i < s.len() ==> lo <= #[trigger] s[i] <= hi,
    ensures
        lo * s.len() <= seq_sum(s) <= hi * s.len(),
    decreases s.len(),
{
    if s.len() > 0 {
        let d = s.drop_last();
        assert forall|i: int| 0 <= i < d.len() implies lo <= #[trigger] d[i] <= hi by {
            assert(d[i] == s[i]);
        }
        lemma_sum_bounds(d, lo, hi);
        assert(lo * s.len() == lo * d.len() + lo) by (nonlinear_arith)
            requires
                s.len() == d.len() + 1,
        ;
        assert(hi * s.len() == hi * d.len() + hi) by (nonlinear_arith)
            requires
                s.len() == d.len() + 1,
        ;
    }
}

/// Floor of `a / n` for a positive `n`.
pub(crate) fn floor_div(a: i128, n: i128) -> (q: i128)
    requires
        n > 0,
        -0x4000_0000_0000_0000_0000_0000_0000_0000 <= a <= 0x4000_0000_0000_0000_0000_0000_0000_0000,
    ensures
        q == a as int / n as int,
{
    if a >= 0 {
        let q = ((a as u128) / (n as u128)) as i128;
        q
    } else {
        let m = (-a) as u128;
        let c = (m + (n as u128) - 1) / (n as u128);
        proof {
            let ai = a as int;
            let ni = n as int;
            let ci = c as int;
            let x = -ai + ni - 1;
            assert(ci == x / ni);
            vstd::arithmetic::div_mod::lemma_fundamental_div_mod(x, ni);
            vstd::arithmetic::div_mod::lemma_mod_pos_bound(x, ni);
            assert(ci * ni == ni * ci) by (nonlinear_arith);
            assert(-ci * ni == -(ci * ni)) by (nonlinear_arith);
            vstd::arithmetic::div_mod::lemma_fundamental_div_mod_converse(ai, ni, -ci, ai + ci * ni);
            assert(ci <= -ai) by (nonlinear_arith)
                requires ci * ni <= -ai + ni - 1, ni >= 1, ci >= 0, ai < 0;
        }
        -(c as i128)
    }
}

/// Floor of the mean of values of magnitude at most 2^62.
pub fn avg(v: &Vec<i64>) -> (r: Option<i64>)
    requires
        forall|i: int| 0 <= i < v@.len() ==> -0x4000_0000_0000_0000 <= #[trigger] v@[i] <= 0x4000_0000_0000_0000,
    ensures
        r.is_some() == (v@.len() > 0),
        r.is_some() ==> r->Some_0 == spec_avg(v@)->Some_0,
{
    if v.len() == 0 {
        return None;
    }
    let mut sum: i128 = 0;
    let mut i: usize = 0;
    while i < v.len()
        invariant
            i <= v@.len(),
            sum == seq_sum(v@.subrange(0, i as int)),
            forall|k: int| 0 <= k < v@.len() ==> -0x4000_0000_0000_0000 <= #[trigger] v@[k] <= 0x4000_0000_0000_0000,
        decreases v@.len() - i,
    {
        proof {
            let s = v@.subrange(0, i as int);
            assert(v@.subrange(0, i + 1).drop_last() =~= s);
            lemma_sum_bounds(s, -0x4000_0000_0000_0000, 0x4000_0000_0000_0000);
            assert(s.len() <= usize::MAX);
            assert(-0x4000_0000_0000_0000 * s.len() >= -0x4000_0000_0000_0000 * 0x1_0000_0000_0000_0000) by (nonlinear_arith)
                requires s.len() <= 0x1_0000_0000_0000_0000;
            assert(0x4000_0000_0000_0000 * s.len() <= 0x4000_0000_0000_0000 * 0x1_0000_0000_0000_0000) by (nonlinear_arith)
                requires s.len() <= 0x1_0000_0000_0000_0000;
        }
        sum = sum + v[i] as i128;
        i = i + 1;
    }
    proof {
        assert(v@.subrange(0, v@.len() as int) =~= v@);
        lemma_avg_bounds(v@, -0x4000_0000_0000_0000, 0x4000_0000_0000_0000);
        lemma_sum_bounds(v@, -0x4000_0000_0000_0000, 0x4000_0000_0000_0000);
        let l = v@.len();
        assert(-0x4000_0000_0000_0000 * l >= -0x4000_0000_0000_0000 * 0x1_0000_0000_0000_0000) by (nonlinear_arith)
            requires l <= 0x1_0000_0000_0000_0000;
        assert(0x4000_0000_0000_0000 * l <= 0x4000_0000_0000_0000 * 0x1_0000_0000_0000_0000) by (nonlinear_arith)
            requires l <= 0x1_0000_0000_0000_0000;
    }
    let n = v.len() as i128;
    let q = floor_div(sum, n);
    Some(q as i64)
}

} // verus!
