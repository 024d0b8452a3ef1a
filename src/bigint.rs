//! The signed arbitrary-precision integer: sign and canonical magnitude.

use vstd::prelude::*;
use core::cmp::Ordering;
use crate::decimal::{
    ParseError,
    parse_accepts,
    parse_value,
    number_body,
    has_minus,
    all_digits,
    is_digit,
    bad_group,
    strip_zeros,
    digits_value,
    ten_pow,
    LIMB_DIGITS,
    chars_of,
    push_char,
    push_nat_text,
    push_padded_text,
    nat_text,
    decimal_text,
    lemma_nat_text_shift,
    trim_bounds,
    group_value,
    text_between,
    lemma_strip_zeros,
    lemma_digits_value_concat,
    lemma_base_pow_is_ten_pow,
    lemma_group_of_last_non_digit,
};
use crate::limbs::{
    BASE,
    limbs_value,
    limbs_bounded,
    limbs_canonical,
    add_limbs,
    sub_limbs,
    mul_limbs,
    lemma_value_push,
    lemma_value_prepend,
    lemma_value_longer,
    lemma_value_first_difference,
    lemma_canonical_unique,
};

verus! {

/// The order of two integers.
pub open spec fn ordering_of(x: int, y: int) -> Ordering {
    if x < y {
        Ordering::Less
    } else if x == y {
        Ordering::Equal
    } else {
        Ordering::Greater
    }
}

proof fn lemma_positive_when_nonempty(s: Seq<u64>)
    requires
        limbs_canonical(s),
    ensures
        s.len() > 0 <==> limbs_value(s) > 0,
{
    if s.len() > 0 {
        crate::limbs::lemma_value_lower(s);
        crate::limbs::lemma_base_pow_positive((s.len() - 1) as nat);
    }
}

/// A signed integer of any size: little-endian limbs below `BASE` and a sign.
#[derive(Debug, Clone, PartialEq, Eq)]
pub struct BigInt {
    digits: Vec<u64>,
    is_negative: bool,
}

impl View for BigInt {
    type V = int;

    closed spec fn view(&self) -> int {
        if self.is_negative {
            -(limbs_value(self.digits@) as int)
        } else {
            limbs_value(self.digits@) as int
        }
    }
}

impl BigInt {
    /// The limbs of the magnitude, least significant first.
    pub closed spec fn limbs(&self) -> Seq<u64> {
        self.digits@
    }

    /// The sign flag.
    pub closed spec fn sign_negative(&self) -> bool {
        self.is_negative
    }

    /// Canonical form: limbs below `BASE`, no zero limb at the top, and zero
    /// held only as the empty, non-negative value.
    pub closed spec fn wf(&self) -> bool {
        &&& limbs_canonical(self.digits@)
        &&& self.digits@.len() == 0 ==> !self.is_negative
    }

    /// The magnitude as a number.
    pub closed spec fn magnitude(&self) -> nat {
        limbs_value(self.digits@)
    }

    /// Same limbs and same sign: what `==` on two values compares.
    pub open spec fn identical(&self, other: &BigInt) -> bool {
        self.limbs() == other.limbs() && self.sign_negative() == other.sign_negative()
    }

    /// Canonical form makes the representation exact: two well-formed values
    /// are identical exactly when they stand for one integer.
    pub proof fn lemma_identical_iff_equal_value(a: BigInt, b: BigInt)
        requires
            a.wf(),
            b.wf(),
        ensures
            a.identical(&b) <==> a@ == b@,
    {
        lemma_positive_when_nonempty(a.digits@);
        lemma_positive_when_nonempty(b.digits@);
        if a@ == b@ {
            assert(limbs_value(a.digits@) == limbs_value(b.digits@));
            lemma_canonical_unique(a.digits@, b.digits@);
        }
    }

    /// The well-formed value of zero is the empty, non-negative one.
    pub proof fn lemma_zero_is_empty(a: BigInt)
        requires
            a.wf(),
            a@ == 0,
        ensures
            a.limbs().len() == 0,
            !a.sign_negative(),
    {
        if a.digits@.len() > 0 {
            crate::limbs::lemma_value_lower(a.digits@);
            crate::limbs::lemma_base_pow_positive((a.digits@.len() - 1) as nat);
        }
    }

    /// The integer `n`, for `n` below `BASE`.
    pub fn from_u64(n: u64) -> (r: BigInt)
        requires
            n < BASE,
        ensures
            r.wf(),
            r@ == n as int,
    {
        if n == 0 {
            BigInt { digits: Vec::new(), is_negative: false }
        } else {
            let mut digits: Vec<u64> = Vec::new();
            digits.push(n);
            proof {
                lemma_value_push(Seq::<u64>::empty(), n);
                assert(crate::limbs::base_pow(0) == 1);
                assert(limbs_value(Seq::<u64>::empty()) == 0);
                assert(n as nat * crate::limbs::base_pow(0) == n as nat);
                assert(Seq::<u64>::empty().push(n) =~= digits@);
            }
            BigInt { digits, is_negative: false }
        }
    }

    /// Whether the value is zero.
    pub fn is_zero(&self) -> (r: bool)
        requires
            self.wf(),
        ensures
            r == (self@ == 0),
    {
        proof {
            if self.digits@.len() > 0 {
                crate::limbs::lemma_value_lower(self.digits@);
                crate::limbs::lemma_base_pow_positive((self.digits@.len() - 1) as nat);
            }
        }
        self.digits.len() == 0
    }

    /// Drops zero limbs at the top, and clears the sign if nothing is left.
    fn trim_leading_zeros(&mut self)
        requires
            limbs_bounded(old(self).digits@),
        ensures
            final(self).wf(),
            limbs_value(final(self).digits@) == limbs_value(old(self).digits@),
            final(self).is_negative == (old(self).is_negative && limbs_value(old(self).digits@)
                != 0),
    {
        while self.digits.len() > 0 && self.digits[self.digits.len() - 1] == 0
            invariant
                limbs_bounded(self.digits@),
                limbs_value(self.digits@) == limbs_value(old(self).digits@),
                self.is_negative == old(self).is_negative,
            decreases self.digits@.len(),
        {
            let ghost before = self.digits@;
            self.digits.pop();
            proof {
                assert(self.digits@ =~= before.drop_last());
                assert(before.last() == 0);
                assert(0 * crate::limbs::base_pow((before.len() - 1) as nat) == 0);
                assert(limbs_bounded(self.digits@)) by {
                    assert forall|i: int| 0 <= i < self.digits@.len() implies self.digits@[i]
                        < BASE by {
                        assert(self.digits@[i] == before[i]);
                    }
                }
            }
        }
        if self.digits.len() == 0 {
            self.is_negative = false;
        } else {
            proof {
                crate::limbs::lemma_value_lower(self.digits@);
                crate::limbs::lemma_base_pow_positive((self.digits@.len() - 1) as nat);
            }
        }
    }

    /// Whether the magnitude of `self` exceeds that of `other`.
    fn greater_than_unsigned(&self, other: &Self) -> (r: bool)
        requires
            self.wf(),
            other.wf(),
        ensures
            r == (limbs_value(self.digits@) > limbs_value(other.digits@)),
    {
        if self.digits.len() != other.digits.len() {
            proof {
                if self.digits@.len() < other.digits@.len() {
                    lemma_value_longer(self.digits@, other.digits@);
                } else {
                    lemma_value_longer(other.digits@, self.digits@);
                }
            }
            return self.digits.len() > other.digits.len();
        }
        let n: usize = self.digits.len();
        let mut i: usize = n;
        while i > 0
            invariant
                self.wf(),
                other.wf(),
                n == self.digits@.len(),
                n == other.digits@.len(),
                i <= n,
                self.digits@.subrange(i as int, n as int) == other.digits@.subrange(
                    i as int,
                    n as int,
                ),
            decreases i,
        {
            let k: usize = i - 1;
            if self.digits[k] > other.digits[k] {
                proof {
                    lemma_value_first_difference(self.digits@, other.digits@, k as int);
                }
                return true;
            } else if self.digits[k] < other.digits[k] {
                proof {
                    lemma_value_first_difference(other.digits@, self.digits@, k as int);
                }
                return false;
            }
            proof {
                assert(self.digits@.subrange(k as int, n as int) =~= seq![self.digits@[k as int]]
                    + self.digits@.subrange(i as int, n as int));
                assert(other.digits@.subrange(k as int, n as int) =~= seq![other.digits@[k as int]]
                    + other.digits@.subrange(i as int, n as int));
            }
            i = k;
        }
        proof {
            assert(self.digits@ =~= self.digits@.subrange(0, n as int));
            assert(other.digits@ =~= other.digits@.subrange(0, n as int));
        }
        false
    }

    /// Signed comparison.
    pub fn compare(&self, other: &Self) -> (r: Ordering)
        requires
            self.wf(),
            other.wf(),
        ensures
            r == ordering_of(self@, other@),
    {
        proof {
            lemma_positive_when_nonempty(self.digits@);
            lemma_positive_when_nonempty(other.digits@);
        }
        if self.is_negative != other.is_negative {
            if self.is_negative {
                Ordering::Less
            } else {
                Ordering::Greater
            }
        } else {
            let (big, small) = if self.is_negative {
                (other, self)
            } else {
                (self, other)
            };
            if big.greater_than_unsigned(small) {
                Ordering::Greater
            } else if small.greater_than_unsigned(big) {
                Ordering::Less
            } else {
                Ordering::Equal
            }
        }
    }

    /// The value with magnitude `digits` and the sign `negative`, brought to
    /// canonical form.
    fn from_magnitude(digits: Vec<u64>, negative: bool) -> (r: BigInt)
        requires
            limbs_bounded(digits@),
        ensures
            r.wf(),
            r@ == (if negative {
                -(limbs_value(digits@) as int)
            } else {
                limbs_value(digits@) as int
            }),
    {
        let mut r = BigInt { digits, is_negative: negative };
        r.trim_leading_zeros();
        r
    }

    /// `|x| + |y|`, negated when `negative`.
    fn magnitude_sum(x: &BigInt, y: &BigInt, negative: bool) -> (r: BigInt)
        requires
            x.wf(),
            y.wf(),
        ensures
            r.wf(),
            r@ == (if negative {
                -(x.magnitude() + y.magnitude())
            } else {
                (x.magnitude() + y.magnitude()) as int
            }),
    {
        BigInt::from_magnitude(add_limbs(&x.digits, &y.digits), negative)
    }

    /// `|x| - |y|`.
    fn magnitude_difference(x: &BigInt, y: &BigInt) -> (r: BigInt)
        requires
            x.wf(),
            y.wf(),
        ensures
            r.wf(),
            r@ == x.magnitude() - y.magnitude(),
    {
        if y.greater_than_unsigned(x) {
            BigInt::from_magnitude(sub_limbs(&y.digits, &x.digits), true)
        } else {
            BigInt::from_magnitude(sub_limbs(&x.digits, &y.digits), false)
        }
    }

    /// The value with the opposite sign.
    pub fn negate(&self) -> (r: BigInt)
        requires
            self.wf(),
        ensures
            r.wf(),
            r@ == -self@,
    {
        let mut digits: Vec<u64> = Vec::new();
        for i in 0..self.digits.len()
            invariant
                digits@ == self.digits@.subrange(0, i as int),
        {
            digits.push(self.digits[i]);
            proof {
                assert(digits@ =~= self.digits@.subrange(0, i + 1));
            }
        }
        proof {
            assert(digits@ =~= self.digits@);
        }
        BigInt { digits, is_negative: !self.is_negative && self.digits.len() > 0 }
    }

    /// The sum `self + other`.
    pub fn add(&self, other: &Self) -> (r: BigInt)
        requires
            self.wf(),
            other.wf(),
        ensures
            r.wf(),
            r@ == self@ + other@,
    {
        match (self.is_negative, other.is_negative) {
            (false, false) => BigInt::magnitude_sum(self, other, false),
            (true, true) => BigInt::magnitude_sum(self, other, true),
            (false, true) => BigInt::magnitude_difference(self, other),
            (true, false) => BigInt::magnitude_difference(other, self),
        }
    }

    /// The difference `self - other`.
    pub fn sub(&self, other: &Self) -> (r: BigInt)
        requires
            self.wf(),
            other.wf(),
        ensures
            r.wf(),
            r@ == self@ - other@,
    {
        match (self.is_negative, other.is_negative) {
            (false, false) => BigInt::magnitude_difference(self, other),
            (true, true) => BigInt::magnitude_difference(other, self),
            (false, true) => BigInt::magnitude_sum(self, other, false),
            (true, false) => BigInt::magnitude_sum(self, other, true),
        }
    }

    /// The product `self * other`.
    pub fn mul(&self, other: &Self) -> (r: BigInt)
        requires
            self.wf(),
            other.wf(),
        ensures
            r.wf(),
            r@ == self@ * other@,
    {
        let product = mul_limbs(&self.digits, &other.digits);
        let negative = self.is_negative != other.is_negative;
        proof {
            let x = limbs_value(self.digits@) as int;
            let y = limbs_value(other.digits@) as int;
            assert((-x) * y == -(x * y) && x * (-y) == -(x * y) && (-x) * (-y) == x * y)
                by (nonlinear_arith);
        }
        BigInt::from_magnitude(product, negative)
    }

    /// Reads an integer from decimal text: surrounding white space is
    /// ignored, a leading `-` makes it negative, and the digits are read in
    /// groups of 18 from the least significant end.
    pub fn from_str(s: &str) -> (r: Result<BigInt, ParseError>)
        ensures
            match r {
                Ok(v) => parse_accepts(s@) && v.wf() && v@ == parse_value(s@),
                Err(ParseError::EmptyOrSignOnly) => number_body(s@).len() == 0,
                Err(ParseError::InvalidDigits { segment }) => {
                    &&& number_body(s@).len() > 0
                    &&& !all_digits(number_body(s@))
                    &&& segment@ == bad_group(s@)
                },
            },
    {
        let v = chars_of(s);
        let (first, b) = trim_bounds(&v);
        let mut start: usize = first;
        let mut negative: bool = false;
        if start < b && v[start] == '-' {
            negative = true;
            start = start + 1;
        }
        let ghost body = v@.subrange(start as int, b as int);
        proof {
            let t = v@.subrange(first as int, b as int);
            if negative {
                assert(t.drop_first() =~= body);
            } else {
                assert(t =~= body);
            }
            assert(negative == has_minus(s@));
            assert(body == number_body(s@));
        }
        if start == b {
            return Err(ParseError::EmptyOrSignOnly);
        }
        let mut z: usize = start;
        while z < b && v[z] == '0'
            invariant
                start <= z <= b <= v@.len(),
                strip_zeros(body) == strip_zeros(v@.subrange(z as int, b as int)),
            decreases b - z,
        {
            proof {
                let t = v@.subrange(z as int, b as int);
                assert(t.drop_first() =~= v@.subrange(z + 1, b as int));
            }
            z = z + 1;
        }
        let ghost d = v@.subrange(z as int, b as int);
        proof {
            assert(strip_zeros(d) == d);
            lemma_strip_zeros(body);
        }
        if z == b {
            proof {
                assert(digits_value(d) == 0);
            }
            return Ok(BigInt { digits: Vec::new(), is_negative: false });
        }
        let mut digits: Vec<u64> = Vec::new();
        let mut end: usize = b;
        proof {
            assert(v@.subrange(b as int, b as int) =~= Seq::<char>::empty());
        }
        while end > z
            invariant
                z <= end <= b <= v@.len(),
                d == v@.subrange(z as int, b as int),
                strip_zeros(number_body(s@)) == d,
                all_digits(d) <==> all_digits(number_body(s@)),
                digits_value(d) == digits_value(number_body(s@)),
                number_body(s@).len() > 0,
                negative == has_minus(s@),
                end > z ==> digits@.len() * LIMB_DIGITS == b - end,
                limbs_bounded(digits@),
                all_digits(v@.subrange(end as int, b as int)),
                limbs_value(digits@) == digits_value(v@.subrange(end as int, b as int)),
            decreases end - z,
        {
            let gs: usize = if end - z >= LIMB_DIGITS {
                end - LIMB_DIGITS
            } else {
                z
            };
            match group_value(&v, gs, end) {
                None => {
                    proof {
                        assert(d.subrange(gs - z, end - z) =~= v@.subrange(gs as int, end as int));
                        assert(d.subrange(end - z, d.len() as int) =~= v@.subrange(
                            end as int,
                            b as int,
                        ));
                        assert(!all_digits(d)) by {
                            let g = v@.subrange(gs as int, end as int);
                            let q = choose|i: int| 0 <= i < g.len() && !is_digit(#[trigger] g[i]);
                            assert(d[gs - z + q] == g[q]);
                        }
                        lemma_group_of_last_non_digit(
                            d,
                            gs - z,
                            end - z,
                            digits@.len() as int,
                        );
                    }
                    let segment = text_between(&v, gs, end);
                    proof {
                        assert(segment@ == d.subrange(gs - z, end - z));
                    }
                    return Err(ParseError::InvalidDigits { segment });
                },
                Some(x) => {
                    proof {
                        let g = v@.subrange(gs as int, end as int);
                        let rest = v@.subrange(end as int, b as int);
                        assert(g + rest =~= v@.subrange(gs as int, b as int));
                        lemma_digits_value_concat(g, rest);
                        lemma_value_push(digits@, x);
                        lemma_base_pow_is_ten_pow(digits@.len());
                        assert(x as nat * ten_pow(rest.len()) == digits_value(g) * ten_pow(
                            rest.len(),
                        ));
                        assert(all_digits(g + rest)) by {
                            assert forall|i: int| 0 <= i < (g + rest).len() implies is_digit(
                                #[trigger] (g + rest)[i],
                            ) by {
                                if i < g.len() {
                                    assert((g + rest)[i] == g[i]);
                                } else {
                                    assert((g + rest)[i] == rest[i - g.len()]);
                                }
                            }
                        }
                    }
                    digits.push(x);
                    end = gs;
                },
            }
        }
        Ok(BigInt::from_magnitude(digits, negative))
    }

    /// Canonical decimal text: `"0"` for zero, otherwise an optional `-`,
    /// the top limb unpadded, and every lower limb as exactly 18 digits.
    pub fn to_decimal_string(&self) -> (r: String)
        requires
            self.wf(),
        ensures
            r@ == decimal_text(self@),
    {
        let mut out: String = String::new();
        let n: usize = self.digits.len();
        if n == 0 {
            push_nat_text(&mut out, 0);
            proof {
                assert(out@ =~= decimal_text(self@));
            }
            return out;
        }
        proof {
            lemma_positive_when_nonempty(self.digits@);
        }
        let ghost prefix: Seq<char> = if self.is_negative {
            seq!['-']
        } else {
            Seq::empty()
        };
        if self.is_negative {
            push_char(&mut out, '-');
        }
        assert(out@ =~= prefix);
        let top: u64 = self.digits[n - 1];
        push_nat_text(&mut out, top);
        let mut k: usize = n - 1;
        proof {
            assert(self.digits@.subrange(k as int, n as int) =~= seq![top] + Seq::<u64>::empty());
            lemma_value_prepend(top, Seq::<u64>::empty());
        }
        while k > 0
            invariant
                self.wf(),
                n == self.digits@.len(),
                k < n,
                out@ == prefix + nat_text(limbs_value(self.digits@.subrange(k as int, n as int))),
                limbs_value(self.digits@.subrange(k as int, n as int)) > 0,
            decreases k,
        {
            let x: u64 = self.digits[k - 1];
            let ghost high = limbs_value(self.digits@.subrange(k as int, n as int));
            proof {
                assert(self.digits@.subrange(k - 1, n as int) =~= seq![x] + self.digits@.subrange(
                    k as int,
                    n as int,
                ));
                lemma_value_prepend(x, self.digits@.subrange(k as int, n as int));
                reveal_with_fuel(ten_pow, 19);
                assert(ten_pow(18) == BASE);
                assert(x < BASE);
                lemma_nat_text_shift(high, x as nat, 18);
                assert(BASE as nat * high == high * ten_pow(18));
                assert(BASE as nat * high >= high) by (nonlinear_arith)
                    requires
                        high > 0,
                ;
            }
            push_padded_text(&mut out, x, LIMB_DIGITS);
            k = k - 1;
            proof {
                assert(out@ =~= prefix + nat_text(limbs_value(self.digits@.subrange(k as int, n as int))));
            }
        }
        proof {
            assert(self.digits@.subrange(0, n as int) =~= self.digits@);
        }
        out
    }
}

} // verus!
