//! Magnitudes as little-endian sequences of base-10^18 limbs: their value,
//! canonical form, and the facts about them that the arithmetic relies on.

use vstd::prelude::*;
use vstd::arithmetic::div_mod::lemma_fundamental_div_mod;

verus! {

/// The radix of one limb.
pub const BASE: u64 = 1_000_000_000_000_000_000;

/// `BASE` raised to the power `k`.
pub open spec fn base_pow(k: nat) -> nat
    decreases k,
{
    if k == 0 {
        1
    } else {
        BASE as nat * base_pow((k - 1) as nat)
    }
}

/// The number that a little-endian limb sequence stands for.
pub open spec fn limbs_value(s: Seq<u64>) -> nat
    decreases s.len(),
{
    if s.len() == 0 {
        0
    } else {
        limbs_value(s.drop_last()) + s.last() as nat * base_pow((s.len() - 1) as nat)
    }
}

/// Every limb is below `BASE`.
pub open spec fn limbs_bounded(s: Seq<u64>) -> bool {
    forall|i: int| 0 <= i < s.len() ==> #[trigger] s[i] < BASE
}

/// Bounded, and with no zero limb at the most significant end.
pub open spec fn limbs_canonical(s: Seq<u64>) -> bool {
    &&& limbs_bounded(s)
    &&& s.len() > 0 ==> s.last() != 0
}

pub proof fn lemma_base_pow_positive(k: nat)
    ensures
        base_pow(k) >= 1,
    decreases k,
{
    if k > 0 {
        lemma_base_pow_positive((k - 1) as nat);
        assert(BASE as nat * base_pow((k - 1) as nat) >= 1) by (nonlinear_arith)
            requires
                base_pow((k - 1) as nat) >= 1,
        ;
    }
}

pub proof fn lemma_base_pow_monotonic(j: nat, k: nat)
    requires
        j <= k,
    ensures
        base_pow(j) <= base_pow(k),
    decreases k,
{
    if j < k {
        lemma_base_pow_monotonic(j, (k - 1) as nat);
        lemma_base_pow_positive((k - 1) as nat);
        assert(base_pow((k - 1) as nat) <= BASE as nat * base_pow((k - 1) as nat))
            by (nonlinear_arith)
            requires
                base_pow((k - 1) as nat) >= 1,
        ;
    }
}

pub proof fn lemma_base_pow_adds(j: nat, k: nat)
    ensures
        base_pow(j + k) == base_pow(j) * base_pow(k),
    decreases k,
{
    if k == 0 {
        assert(j + k == j);
        assert(base_pow(k) == 1);
    } else {
        lemma_base_pow_adds(j, (k - 1) as nat);
        let a = base_pow(j);
        let b = base_pow((k - 1) as nat);
        assert((j + k - 1) as nat == j + (k - 1) as nat);
        assert(base_pow(j + k) == BASE as nat * (a * b));
        assert(base_pow(k) == BASE as nat * b);
        assert(BASE as nat * (a * b) == a * (BASE as nat * b)) by (nonlinear_arith);
    }
}

/// A bounded sequence of `n` limbs stands for less than `BASE^n`.
pub proof fn lemma_value_upper(s: Seq<u64>)
    requires
        limbs_bounded(s),
    ensures
        limbs_value(s) < base_pow(s.len()),
    decreases s.len(),
{
    if s.len() > 0 {
        let p = base_pow((s.len() - 1) as nat);
        let r = s.drop_last();
        assert(limbs_bounded(r)) by {
            assert forall|i: int| 0 <= i < r.len() implies r[i] < BASE by {
                assert(r[i] == s[i]);
            }
        }
        lemma_value_upper(r);
        assert(s.last() < BASE);
        let x = s.last() as nat;
        let v = limbs_value(r);
        assert(v + x * p < BASE as nat * p) by (nonlinear_arith)
            requires
                v < p,
                x < BASE as nat,
        ;
    }
}

/// A canonical nonempty sequence of `n` limbs stands for at least `BASE^(n-1)`.
pub proof fn lemma_value_lower(s: Seq<u64>)
    requires
        limbs_canonical(s),
        s.len() > 0,
    ensures
        limbs_value(s) >= base_pow((s.len() - 1) as nat),
{
    let p = base_pow((s.len() - 1) as nat);
    let x = s.last() as nat;
    assert(x * p >= p) by (nonlinear_arith)
        requires
            x >= 1,
    ;
}

/// Appending a limb adds it at the next power of `BASE`.
pub proof fn lemma_value_push(s: Seq<u64>, x: u64)
    ensures
        limbs_value(s.push(x)) == limbs_value(s) + x as nat * base_pow(s.len()),
{
    assert(s.push(x).drop_last() =~= s);
}

/// Extending a prefix by one limb adds that limb at its power of `BASE`.
pub proof fn lemma_value_prefix(s: Seq<u64>, i: int)
    requires
        0 <= i < s.len(),
    ensures
        limbs_value(s.subrange(0, i + 1)) == limbs_value(s.subrange(0, i)) + s[i] as nat
            * base_pow(i as nat),
{
    assert(s.subrange(0, i + 1) =~= s.subrange(0, i).push(s[i]));
    lemma_value_push(s.subrange(0, i), s[i]);
}

/// Overwriting one limb changes the value by the difference at that limb's weight.
pub proof fn lemma_value_update(s: Seq<u64>, k: int, x: u64)
    requires
        0 <= k < s.len(),
    ensures
        limbs_value(s.update(k, x)) + s[k] as nat * base_pow(k as nat) == limbs_value(s)
            + x as nat * base_pow(k as nat),
    decreases s.len(),
{
    let t = s.update(k, x);
    if k == s.len() - 1 {
        assert(t.drop_last() =~= s.drop_last());
    } else {
        assert(t.drop_last() =~= s.drop_last().update(k, x));
        lemma_value_update(s.drop_last(), k, x);
    }
}

proof fn lemma_split_unique(a1: nat, b1: nat, a2: nat, b2: nat, p: nat)
    requires
        a1 < p,
        a2 < p,
        a1 + b1 * p == a2 + b2 * p,
    ensures
        a1 == a2,
        b1 == b2,
{
    if b1 < b2 {
        assert(b1 * p + p <= b2 * p) by (nonlinear_arith)
            requires
                b1 < b2,
        ;
    } else if b2 < b1 {
        assert(b2 * p + p <= b1 * p) by (nonlinear_arith)
            requires
                b2 < b1,
        ;
    }
}

proof fn lemma_bounded_drop_last(s: Seq<u64>)
    requires
        limbs_bounded(s),
        s.len() > 0,
    ensures
        limbs_bounded(s.drop_last()),
        s.last() < BASE,
{
    let r = s.drop_last();
    assert forall|i: int| 0 <= i < r.len() implies r[i] < BASE by {
        assert(r[i] == s[i]);
    }
}

/// Two bounded sequences of one length with one value are equal.
pub proof fn lemma_value_injective_same_len(s: Seq<u64>, t: Seq<u64>)
    requires
        limbs_bounded(s),
        limbs_bounded(t),
        s.len() == t.len(),
        limbs_value(s) == limbs_value(t),
    ensures
        s == t,
    decreases s.len(),
{
    if s.len() == 0 {
        assert(s =~= t);
    } else {
        lemma_bounded_drop_last(s);
        lemma_bounded_drop_last(t);
        lemma_value_upper(s.drop_last());
        lemma_value_upper(t.drop_last());
        lemma_split_unique(
            limbs_value(s.drop_last()),
            s.last() as nat,
            limbs_value(t.drop_last()),
            t.last() as nat,
            base_pow((s.len() - 1) as nat),
        );
        lemma_value_injective_same_len(s.drop_last(), t.drop_last());
        assert(s =~= s.drop_last().push(s.last()));
        assert(t =~= t.drop_last().push(t.last()));
    }
}

/// A canonical sequence with more limbs stands for a larger number.
pub proof fn lemma_value_longer(s: Seq<u64>, t: Seq<u64>)
    requires
        limbs_canonical(s),
        limbs_canonical(t),
        s.len() < t.len(),
    ensures
        limbs_value(s) < limbs_value(t),
{
    lemma_value_upper(s);
    lemma_base_pow_monotonic(s.len(), (t.len() - 1) as nat);
    lemma_value_lower(t);
}

/// Each number has exactly one canonical limb sequence.
pub proof fn lemma_canonical_unique(s: Seq<u64>, t: Seq<u64>)
    requires
        limbs_canonical(s),
        limbs_canonical(t),
        limbs_value(s) == limbs_value(t),
    ensures
        s == t,
{
    if s.len() < t.len() {
        lemma_value_longer(s, t);
    } else if t.len() < s.len() {
        lemma_value_longer(t, s);
    } else {
        lemma_value_injective_same_len(s, t);
    }
}

/// Of two bounded sequences of one length that agree above limb `i`, the one
/// with the larger limb at `i` stands for the larger number.
pub proof fn lemma_value_first_difference(s: Seq<u64>, t: Seq<u64>, i: int)
    requires
        limbs_bounded(s),
        limbs_bounded(t),
        s.len() == t.len(),
        0 <= i < s.len(),
        s.subrange(i + 1, s.len() as int) == t.subrange(i + 1, t.len() as int),
        s[i] > t[i],
    ensures
        limbs_value(s) > limbs_value(t),
    decreases s.len(),
{
    lemma_bounded_drop_last(s);
    lemma_bounded_drop_last(t);
    let p = base_pow((s.len() - 1) as nat);
    let vs = limbs_value(s.drop_last());
    let vt = limbs_value(t.drop_last());
    let x = s.last() as nat;
    let y = t.last() as nat;
    if i == s.len() - 1 {
        lemma_value_upper(t.drop_last());
        assert(vs + x * p > vt + y * p) by (nonlinear_arith)
            requires
                vt < p,
                x > y,
        ;
    } else {
        assert(s.last() == s.subrange(i + 1, s.len() as int)[s.len() - i - 2]);
        assert(t.last() == t.subrange(i + 1, t.len() as int)[t.len() - i - 2]);
        assert(s.drop_last().subrange(i + 1, s.len() - 1) =~= s.subrange(i + 1, s.len() - 1));
        assert(t.drop_last().subrange(i + 1, t.len() - 1) =~= t.subrange(i + 1, t.len() - 1));
        assert(s.subrange(i + 1, s.len() - 1) =~= s.subrange(i + 1, s.len() as int).drop_last());
        assert(t.subrange(i + 1, t.len() - 1) =~= t.subrange(i + 1, t.len() as int).drop_last());
        lemma_value_first_difference(s.drop_last(), t.drop_last(), i);
    }
}

/// The limb of `s` at position `i`, with zero past the end.
pub open spec fn limb_at(s: Seq<u64>, i: int) -> nat {
    if 0 <= i < s.len() {
        s[i] as nat
    } else {
        0
    }
}

/// The value of the lowest `i` limbs of `s` (all of them once `i` passes the end).
pub open spec fn low_value(s: Seq<u64>, i: int) -> nat {
    if i < s.len() {
        limbs_value(s.subrange(0, i))
    } else {
        limbs_value(s)
    }
}

proof fn lemma_low_value_step(s: Seq<u64>, i: int)
    requires
        0 <= i,
    ensures
        low_value(s, i + 1) == low_value(s, i) + limb_at(s, i) * base_pow(i as nat),
{
    if i < s.len() {
        lemma_value_prefix(s, i);
        if i + 1 == s.len() {
            assert(s.subrange(0, i + 1) =~= s);
        }
    }
}

proof fn lemma_split_at_base(x: nat)
    ensures
        x == (x % BASE as nat) + (x / BASE as nat) * BASE as nat,
        x % (BASE as nat) < BASE,
{
    lemma_fundamental_div_mod(x as int, BASE as int);
}

/// Limb-wise sum with carry. The result is bounded but may end in a zero limb.
pub fn add_limbs(a: &Vec<u64>, b: &Vec<u64>) -> (r: Vec<u64>)
    requires
        limbs_bounded(a@),
        limbs_bounded(b@),
    ensures
        limbs_bounded(r@),
        limbs_value(r@) == limbs_value(a@) + limbs_value(b@),
{
    let max_len: usize = if a.len() >= b.len() {
        a.len()
    } else {
        b.len()
    };
    let mut result: Vec<u64> = Vec::new();
    let mut carry: u64 = 0;
    let mut i: usize = 0;
    while i < max_len
        invariant
            limbs_bounded(a@),
            limbs_bounded(b@),
            max_len >= a.len(),
            max_len >= b.len(),
            i <= max_len,
            result@.len() == i,
            limbs_bounded(result@),
            carry <= 1,
            limbs_value(result@) + carry as nat * base_pow(i as nat) == low_value(a@, i as int)
                + low_value(b@, i as int),
        decreases max_len - i,
    {
        let x: u64 = if i < a.len() {
            a[i]
        } else {
            0
        };
        let y: u64 = if i < b.len() {
            b[i]
        } else {
            0
        };
        assert(x as nat == limb_at(a@, i as int) && x < BASE);
        assert(y as nat == limb_at(b@, i as int) && y < BASE);
        let sum: u128 = x as u128 + y as u128 + carry as u128;
        let low: u64 = (sum % BASE as u128) as u64;
        let high: u64 = (sum / BASE as u128) as u64;
        proof {
            let p = base_pow(i as nat);
            lemma_low_value_step(a@, i as int);
            lemma_low_value_step(b@, i as int);
            lemma_value_push(result@, low);
            assert(base_pow((i + 1) as nat) == BASE as nat * p);
            lemma_split_at_base(sum as nat);
            assert(high as nat * (BASE as nat * p) == (high as nat * BASE as nat) * p)
                by (nonlinear_arith);
            assert(low as nat * p + (high as nat * BASE as nat) * p == sum as nat * p)
                by (nonlinear_arith)
                requires
                    sum as nat == low as nat + high as nat * BASE as nat,
            ;
            assert(sum as nat * p == x as nat * p + y as nat * p + carry as nat * p)
                by (nonlinear_arith)
                requires
                    sum as nat == x as nat + y as nat + carry as nat,
            ;
            assert(result@.push(low)[i as int] == low);
        }
        result.push(low);
        carry = high;
        i = i + 1;
    }
    proof {
        assert(low_value(a@, i as int) == limbs_value(a@));
        assert(low_value(b@, i as int) == limbs_value(b@));
    }
    if carry > 0 {
        proof {
            lemma_value_push(result@, carry);
        }
        result.push(carry);
    }
    result
}

/// Limb-wise difference with borrow, for `a` at least `b`. The result is
/// bounded but may end in zero limbs.
pub fn sub_limbs(a: &Vec<u64>, b: &Vec<u64>) -> (r: Vec<u64>)
    requires
        limbs_canonical(a@),
        limbs_canonical(b@),
        limbs_value(a@) >= limbs_value(b@),
    ensures
        limbs_bounded(r@),
        limbs_value(r@) == limbs_value(a@) - limbs_value(b@),
{
    proof {
        if a@.len() < b@.len() {
            lemma_value_longer(a@, b@);
        }
    }
    let mut result: Vec<u64> = Vec::new();
    let mut borrow: u64 = 0;
    let mut i: usize = 0;
    while i < a.len()
        invariant
            limbs_canonical(a@),
            limbs_canonical(b@),
            b.len() <= a.len(),
            i <= a.len(),
            result@.len() == i,
            limbs_bounded(result@),
            borrow <= 1,
            limbs_value(result@) + low_value(b@, i as int) == low_value(a@, i as int) + borrow as nat
                * base_pow(i as nat),
        decreases a.len() - i,
    {
        let x: u64 = a[i];
        let y: u64 = if i < b.len() {
            b[i]
        } else {
            0
        };
        assert(x as nat == limb_at(a@, i as int) && x < BASE);
        assert(y as nat == limb_at(b@, i as int) && y < BASE);
        let d: u64;
        let next: u64;
        if x >= y + borrow {
            d = x - y - borrow;
            next = 0;
        } else {
            d = x + (BASE - y - borrow);
            next = 1;
        }
        proof {
            let p = base_pow(i as nat);
            lemma_low_value_step(a@, i as int);
            lemma_low_value_step(b@, i as int);
            lemma_value_push(result@, d);
            assert(base_pow((i + 1) as nat) == BASE as nat * p);
            assert(d as nat + y as nat + borrow as nat == x as nat + next as nat * BASE as nat);
            assert(next as nat * (BASE as nat * p) == (next as nat * BASE as nat) * p)
                by (nonlinear_arith);
            assert(d as nat * p + y as nat * p + borrow as nat * p == x as nat * p + (next as nat
                * BASE as nat) * p) by (nonlinear_arith)
                requires
                    d as nat + y as nat + borrow as nat == x as nat + next as nat * BASE as nat,
            ;
            assert(result@.push(d)[i as int] == d);
        }
        result.push(d);
        borrow = next;
        i = i + 1;
    }
    proof {
        assert(low_value(a@, i as int) == limbs_value(a@));
        assert(low_value(b@, i as int) == limbs_value(b@));
        lemma_value_upper(result@);
        if borrow == 1 {
            assert(limbs_value(result@) >= base_pow(i as nat));
        }
    }
    result
}

proof fn lemma_value_zeros(s: Seq<u64>)
    requires
        forall|k: int| 0 <= k < s.len() ==> #[trigger] s[k] == 0,
    ensures
        limbs_value(s) == 0,
    decreases s.len(),
{
    if s.len() > 0 {
        lemma_value_zeros(s.drop_last());
    }
}

/// Schoolbook product. The result is bounded but may end in zero limbs.
pub fn mul_limbs(a: &Vec<u64>, b: &Vec<u64>) -> (r: Vec<u64>)
    requires
        limbs_bounded(a@),
        limbs_bounded(b@),
    ensures
        limbs_bounded(r@),
        limbs_value(r@) == limbs_value(a@) * limbs_value(b@),
{
    let mut result: Vec<u64> = Vec::new();
    for _k in 0..a.len()
        invariant
            forall|q: int| 0 <= q < result@.len() ==> #[trigger] result@[q] == 0,
            result@.len() == _k,
    {
        result.push(0);
    }
    for _k in 0..b.len()
        invariant
            forall|q: int| 0 <= q < result@.len() ==> #[trigger] result@[q] == 0,
            result@.len() == a.len() + _k,
    {
        result.push(0);
    }
    let total: usize = result.len();
    let n: usize = a.len();
    let m: usize = b.len();
    proof {
        lemma_value_zeros(result@);
        assert(low_value(a@, 0) == 0);
    }
    let mut i: usize = 0;
    while i < n
        invariant
            n == a.len(),
            m == b.len(),
            total == n + m,
            limbs_bounded(a@),
            limbs_bounded(b@),
            i <= n,
            result@.len() == total,
            limbs_bounded(result@),
            forall|k: int| i + m <= k < total ==> #[trigger] result@[k] == 0,
            limbs_value(result@) == low_value(a@, i as int) * limbs_value(b@),
        decreases n - i,
    {
        let x: u64 = a[i];
        assert(x < BASE);
        let ghost la = low_value(a@, i as int);
        let ghost vb = limbs_value(b@);
        let ghost pi = base_pow(i as nat);
        let mut carry: u64 = 0;
        let mut j: usize = 0;
        proof {
            assert(low_value(b@, 0) == 0);
            assert(x as nat * 0 * pi == 0) by (nonlinear_arith);
        }
        while j < m
            invariant
                n == a.len(),
                m == b.len(),
                total == n + m,
                limbs_bounded(b@),
                i < n,
                j <= m,
                x < BASE,
                la == low_value(a@, i as int),
                vb == limbs_value(b@),
                pi == base_pow(i as nat),
                result@.len() == total,
                limbs_bounded(result@),
                forall|k: int| i + m <= k < total ==> #[trigger] result@[k] == 0,
                carry < BASE,
                limbs_value(result@) + carry as nat * base_pow((i + j) as nat) == la * vb + x as nat
                    * low_value(b@, j as int) * pi,
            decreases m - j,
        {
            let y: u64 = b[j];
            let old_limb: u64 = result[i + j];
            assert(y < BASE && old_limb < BASE);
            assert((x as nat) * (y as nat) <= (BASE as nat - 1) * (BASE as nat - 1))
                by (nonlinear_arith)
                requires
                    x < BASE,
                    y < BASE,
            ;
            let cur: u128 = old_limb as u128 + (x as u128) * (y as u128) + carry as u128;
            let low: u64 = (cur % BASE as u128) as u64;
            let high: u64 = (cur / BASE as u128) as u64;
            proof {
                let c = cur as nat;
                let bb = BASE as nat;
                lemma_split_at_base(c);
                assert(high < BASE) by (nonlinear_arith)
                    requires
                        c == low as nat + high as nat * bb,
                        c <= bb * bb - 1,
                        bb == BASE,
                ;
                let p = base_pow((i + j) as nat);
                let pj = base_pow(j as nat);
                lemma_base_pow_adds(i as nat, j as nat);
                assert(p == pi * pj);
                assert(base_pow((i + j + 1) as nat) == bb * p);
                lemma_value_update(result@, (i + j) as int, low);
                lemma_low_value_step(b@, j as int);
                assert(limb_at(b@, j as int) == y as nat);
                let lb = low_value(b@, j as int);
                assert(high as nat * (bb * p) + low as nat * p == c * p) by (nonlinear_arith)
                    requires
                        c == low as nat + high as nat * bb,
                ;
                assert(c * p == old_limb as nat * p + x as nat * y as nat * p + carry as nat * p)
                    by (nonlinear_arith)
                    requires
                        c == old_limb as nat + x as nat * y as nat + carry as nat,
                ;
                assert(x as nat * lb * pi + x as nat * y as nat * p == x as nat * (lb + y as nat
                    * pj) * pi) by (nonlinear_arith)
                    requires
                        p == pi * pj,
                ;
            }
            result.set(i + j, low);
            carry = high;
            j = j + 1;
        }
        proof {
            let p = base_pow((i + m) as nat);
            assert(low_value(b@, m as int) == vb);
            assert(result@[(i + m) as int] == 0);
            lemma_value_update(result@, (i + m) as int, carry);
            lemma_base_pow_adds(i as nat, m as nat);
            lemma_low_value_step(a@, i as int);
            assert(limb_at(a@, i as int) == x as nat);
            assert(la * vb + x as nat * vb * pi == (la + x as nat * pi) * vb) by (nonlinear_arith);
        }
        result.set(i + m, carry);
        i = i + 1;
    }
    proof {
        assert(low_value(a@, n as int) == limbs_value(a@));
    }
    result
}

/// A limb below a sequence shifts the sequence up by one place.
pub proof fn lemma_value_prepend(x: u64, t: Seq<u64>)
    ensures
        limbs_value(seq![x] + t) == x as nat + BASE as nat * limbs_value(t),
    decreases t.len(),
{
    let s = seq![x] + t;
    if t.len() == 0 {
        assert(s =~= Seq::<u64>::empty().push(x));
        lemma_value_push(Seq::<u64>::empty(), x);
        assert(base_pow(0) == 1);
        assert(limbs_value(t) == 0);
        assert(limbs_value(Seq::<u64>::empty()) == 0);
        assert(x as nat * 1 == x as nat);
        assert(BASE as nat * 0 == 0);
    } else {
        lemma_value_prepend(x, t.drop_last());
        assert(s.drop_last() =~= seq![x] + t.drop_last());
        assert(s.last() == t.last());
        assert(s.len() - 1 == t.len());
        assert(limbs_value(s) == limbs_value(s.drop_last()) + s.last() as nat * base_pow(t.len()));
        let p = base_pow((t.len() - 1) as nat);
        assert(base_pow(t.len()) == BASE as nat * p);
        let a = limbs_value(t.drop_last());
        let y = t.last() as nat;
        assert(BASE as nat * a + y * (BASE as nat * p) == BASE as nat * (a + y * p))
            by (nonlinear_arith);
    }
}

} // verus!
