//! Laws that relate the operations to one another.

use vstd::prelude::*;
use core::cmp::Ordering;
use crate::bigint::{BigInt, ordering_of};
use crate::decimal::{
    all_digits,
    decimal_text,
    is_white_space,
    nat_text,
    parse_accepts,
    parse_value,
    strip_zeros,
    trim_end,
    trim_start,
    lemma_strip_zeros,
    lemma_nat_text_of_digits,
    is_digit,
    digit_char,
    digit_value,
    digits_value,
};
use vstd::arithmetic::div_mod::lemma_fundamental_div_mod;

verus! {

/// The digits of text in literal form: the text after an optional leading `-`.
pub open spec fn literal_digits(s: Seq<char>) -> Seq<char> {
    if s.len() > 0 && s[0] == '-' {
        s.drop_first()
    } else {
        s
    }
}

/// An optional `-` followed by one or more decimal digits.
pub open spec fn is_decimal_literal(s: Seq<char>) -> bool {
    literal_digits(s).len() > 0 && all_digits(literal_digits(s))
}

/// The literal with leading zeros dropped, `"0"` for any zero, and the sign
/// kept on nonzero values.
pub open spec fn canonical_form(s: Seq<char>) -> Seq<char> {
    let d = strip_zeros(literal_digits(s));
    if d.len() == 0 {
        seq!['0']
    } else if s[0] == '-' {
        seq!['-'] + d
    } else {
        d
    }
}

/// Reading a decimal literal and writing the value back gives the literal's
/// canonical form.
pub proof fn lemma_round_trip(s: Seq<char>)
    requires
        is_decimal_literal(s),
    ensures
        parse_accepts(s),
        decimal_text(parse_value(s)) == canonical_form(s),
{
    let body = literal_digits(s);
    assert(!is_white_space(s[0])) by {
        if s[0] != '-' {
            assert(s[0] == body[0]);
        }
    }
    assert(s.last() == body.last());
    assert(!is_white_space(s.last())) by {
        assert(all_digits(body));
        assert(body.last() == body[body.len() - 1]);
    }
    assert(trim_start(s) == s);
    assert(trim_end(s) == s);
    lemma_strip_zeros(body);
    let d = strip_zeros(body);
    if d.len() > 0 {
        lemma_nat_text_of_digits(d);
    } else {
        assert(nat_text(0) =~= seq!['0']);
    }
}

/// Addition does not depend on the order of its operands.
pub proof fn lemma_add_commutative(a: BigInt, b: BigInt, ab: BigInt, ba: BigInt)
    requires
        a.wf(),
        b.wf(),
        ab.wf(),
        ba.wf(),
        ab@ == a@ + b@,
        ba@ == b@ + a@,
    ensures
        ab.identical(&ba),
{
    BigInt::lemma_identical_iff_equal_value(ab, ba);
}

/// Multiplication does not depend on the order of its operands.
pub proof fn lemma_mul_commutative(a: BigInt, b: BigInt, ab: BigInt, ba: BigInt)
    requires
        a.wf(),
        b.wf(),
        ab.wf(),
        ba.wf(),
        ab@ == a@ * b@,
        ba@ == b@ * a@,
    ensures
        ab.identical(&ba),
{
    assert(a@ * b@ == b@ * a@) by (nonlinear_arith);
    BigInt::lemma_identical_iff_equal_value(ab, ba);
}

/// A value plus its negation is the canonical zero: no limbs, no sign.
pub proof fn lemma_additive_inverse(a: BigInt, n: BigInt, z: BigInt)
    requires
        a.wf(),
        n.wf(),
        z.wf(),
        n@ == -a@,
        z@ == a@ + n@,
    ensures
        z.limbs().len() == 0,
        !z.sign_negative(),
{
    BigInt::lemma_zero_is_empty(z);
}

/// Subtracting is adding the negation.
pub proof fn lemma_sub_is_add_negated(a: BigInt, b: BigInt, d: BigInt, nb: BigInt, s: BigInt)
    requires
        a.wf(),
        b.wf(),
        d.wf(),
        nb.wf(),
        s.wf(),
        d@ == a@ - b@,
        nb@ == -b@,
        s@ == a@ + nb@,
    ensures
        d.identical(&s),
{
    BigInt::lemma_identical_iff_equal_value(d, s);
}

/// One is the identity of multiplication.
pub proof fn lemma_mul_identity(a: BigInt, one: BigInt, p: BigInt)
    requires
        a.wf(),
        one.wf(),
        p.wf(),
        one@ == 1,
        p@ == a@ * one@,
    ensures
        p.identical(&a),
{
    BigInt::lemma_identical_iff_equal_value(p, a);
}

/// Multiplying by zero gives zero.
pub proof fn lemma_mul_zero(a: BigInt, z: BigInt, p: BigInt)
    requires
        a.wf(),
        z.wf(),
        p.wf(),
        z@ == 0,
        p@ == a@ * z@,
    ensures
        p.identical(&z),
{
    BigInt::lemma_identical_iff_equal_value(p, z);
}

/// The order that `compare` reports is a strict total order on values:
/// equal exactly on identical values, reversed when the operands swap, and
/// transitive.
pub proof fn lemma_compare_total_order(a: BigInt, b: BigInt, c: BigInt)
    requires
        a.wf(),
        b.wf(),
        c.wf(),
    ensures
        ordering_of(a@, a@) == Ordering::Equal,
        ordering_of(a@, b@) == Ordering::Equal <==> a.identical(&b),
        ordering_of(a@, b@) == Ordering::Less <==> ordering_of(b@, a@) == Ordering::Greater,
        ordering_of(a@, b@) == Ordering::Less && ordering_of(b@, c@) == Ordering::Less
            ==> ordering_of(a@, c@) == Ordering::Less,
        ordering_of(a@, b@) == Ordering::Greater && ordering_of(b@, c@) == Ordering::Greater
            ==> ordering_of(a@, c@) == Ordering::Greater,
{
    BigInt::lemma_identical_iff_equal_value(a, b);
}

proof fn lemma_nat_text_digits(n: nat)
    ensures
        nat_text(n).len() > 0,
        all_digits(nat_text(n)),
        digits_value(nat_text(n)) == n,
    decreases n,
{
    let t = nat_text(n);
    if n < 10 {
        assert(t.drop_last() =~= Seq::<char>::empty());
        assert(digit_value(digit_char(n)) == n);
        assert(t.last() == digit_char(n));
        assert(digits_value(Seq::<char>::empty()) == 0);
        assert(digits_value(t) == 0 * 10 + n);
    } else {
        let r = nat_text(n / 10);
        lemma_nat_text_digits(n / 10);
        assert(t.drop_last() =~= r);
        assert(digit_value(digit_char(n % 10)) == n % 10);
        assert forall|i: int| 0 <= i < t.len() implies is_digit(#[trigger] t[i]) by {
            if i < r.len() {
                assert(t[i] == r[i]);
            }
        }
        lemma_fundamental_div_mod(n as int, 10);
        assert(t.last() == digit_char(n % 10));
        assert(digits_value(t) == (n / 10) * 10 + n % 10);
    }
}

/// Writing a value and reading the text back gives the same value.
pub proof fn lemma_text_reads_back(v: int)
    ensures
        parse_accepts(decimal_text(v)),
        parse_value(decimal_text(v)) == v,
{
    let m: nat = if v < 0 {
        (-v) as nat
    } else {
        v as nat
    };
    let digits = nat_text(m);
    lemma_nat_text_digits(m);
    let s = decimal_text(v);
    assert(is_digit(digits[0]) && is_digit(digits[digits.len() - 1]));
    if v < 0 {
        assert(s[0] == '-');
        assert(s.drop_first() =~= digits);
        assert(s.last() == digits.last());
    } else {
        assert(s == digits);
    }
    assert(trim_start(s) == s);
    assert(trim_end(s) == s);
}

} // verus!
