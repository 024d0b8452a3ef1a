//! Decimal text: what a string means as an integer, and how an integer is written.

use vstd::prelude::*;
use vstd::arithmetic::div_mod::{lemma_fundamental_div_mod, lemma_fundamental_div_mod_converse};
use crate::limbs::{BASE, base_pow};

verus! {

/// The number of decimal digits in one limb.
pub const LIMB_DIGITS: usize = 18;

/// Unicode `White_Space`, the property that `char::is_whitespace` reports.
pub open spec fn is_white_space(c: char) -> bool {
    let u = c as u32;
    ||| 0x9 <= u <= 0xd
    ||| u == 0x20
    ||| u == 0x85
    ||| u == 0xa0
    ||| u == 0x1680
    ||| 0x2000 <= u <= 0x200a
    ||| u == 0x2028
    ||| u == 0x2029
    ||| u == 0x202f
    ||| u == 0x205f
    ||| u == 0x3000
}

/// `s` without its leading white space.
pub open spec fn trim_start(s: Seq<char>) -> Seq<char>
    decreases s.len(),
{
    if s.len() > 0 && is_white_space(s[0]) {
        trim_start(s.drop_first())
    } else {
        s
    }
}

/// `s` without its trailing white space.
pub open spec fn trim_end(s: Seq<char>) -> Seq<char>
    decreases s.len(),
{
    if s.len() > 0 && is_white_space(s.last()) {
        trim_end(s.drop_last())
    } else {
        s
    }
}

/// `s` without white space at either end.
pub open spec fn trimmed(s: Seq<char>) -> Seq<char> {
    trim_end(trim_start(s))
}

/// The trimmed text starts with a minus sign.
pub open spec fn has_minus(s: Seq<char>) -> bool {
    let t = trimmed(s);
    t.len() > 0 && t[0] == '-'
}

/// The trimmed text after its sign, if any: the part that must be digits.
pub open spec fn number_body(s: Seq<char>) -> Seq<char> {
    let t = trimmed(s);
    if has_minus(s) {
        t.drop_first()
    } else {
        t
    }
}

pub open spec fn is_digit(c: char) -> bool {
    '0' <= c <= '9'
}

pub open spec fn all_digits(s: Seq<char>) -> bool {
    forall|i: int| 0 <= i < s.len() ==> is_digit(#[trigger] s[i])
}

pub open spec fn digit_value(c: char) -> nat {
    (c as u32 - '0' as u32) as nat
}

pub open spec fn digit_char(d: nat) -> char {
    (d + '0' as u32) as char
}

pub open spec fn ten_pow(k: nat) -> nat
    decreases k,
{
    if k == 0 {
        1
    } else {
        10 * ten_pow((k - 1) as nat)
    }
}

/// The number that a run of digits stands for, most significant first.
pub open spec fn digits_value(s: Seq<char>) -> nat
    decreases s.len(),
{
    if s.len() == 0 {
        0
    } else {
        digits_value(s.drop_last()) * 10 + digit_value(s.last())
    }
}

/// `s` without its leading `'0'` characters.
pub open spec fn strip_zeros(s: Seq<char>) -> Seq<char>
    decreases s.len(),
{
    if s.len() > 0 && s[0] == '0' {
        strip_zeros(s.drop_first())
    } else {
        s
    }
}

/// Text that parses: a nonempty run of digits after the optional sign.
pub open spec fn parse_accepts(s: Seq<char>) -> bool {
    number_body(s).len() > 0 && all_digits(number_body(s))
}

/// The integer that accepted text stands for.
pub open spec fn parse_value(s: Seq<char>) -> int {
    let v = digits_value(number_body(s)) as int;
    if has_minus(s) {
        -v
    } else {
        v
    }
}

/// Position of the last character of `s` that is not a digit, or -1.
pub open spec fn last_non_digit(s: Seq<char>) -> int
    decreases s.len(),
{
    if s.len() == 0 {
        -1
    } else if !is_digit(s.last()) {
        s.len() - 1
    } else {
        last_non_digit(s.drop_last())
    }
}

/// The group of up to 18 characters, counted from the least significant
/// end of `d`, that holds position `p`.
pub open spec fn group_holding(d: Seq<char>, p: int) -> Seq<char> {
    let k = (d.len() - 1 - p) / (LIMB_DIGITS as int);
    let end = d.len() - k * LIMB_DIGITS;
    let start = if end >= LIMB_DIGITS {
        end - LIMB_DIGITS
    } else {
        0
    };
    d.subrange(start, end)
}

/// The group reported for rejected digits: the first one, from the least
/// significant end, that holds a character other than a digit.
pub open spec fn bad_group(s: Seq<char>) -> Seq<char> {
    let d = strip_zeros(number_body(s));
    group_holding(d, last_non_digit(d))
}

/// Decimal text of a natural number, without leading zeros.
pub open spec fn nat_text(n: nat) -> Seq<char>
    decreases n,
{
    if n < 10 {
        seq![digit_char(n)]
    } else {
        nat_text(n / 10).push(digit_char(n % 10))
    }
}

/// The lowest `w` decimal digits of `n`, padded with zeros.
pub open spec fn padded_text(n: nat, w: nat) -> Seq<char>
    decreases w,
{
    if w == 0 {
        Seq::empty()
    } else {
        padded_text(n / 10, (w - 1) as nat).push(digit_char(n % 10))
    }
}

/// Canonical decimal text of an integer.
pub open spec fn decimal_text(v: int) -> Seq<char> {
    if v < 0 {
        seq!['-'] + nat_text((-v) as nat)
    } else {
        nat_text(v as nat)
    }
}

pub proof fn lemma_ten_pow_positive(k: nat)
    ensures
        ten_pow(k) >= 1,
    decreases k,
{
    if k > 0 {
        lemma_ten_pow_positive((k - 1) as nat);
    }
}

pub proof fn lemma_ten_pow_adds(j: nat, k: nat)
    ensures
        ten_pow(j + k) == ten_pow(j) * ten_pow(k),
    decreases k,
{
    if k == 0 {
        assert(j + k == j);
        assert(ten_pow(k) == 1);
    } else {
        lemma_ten_pow_adds(j, (k - 1) as nat);
        let a = ten_pow(j);
        let b = ten_pow((k - 1) as nat);
        assert((j + k - 1) as nat == j + (k - 1) as nat);
        assert(ten_pow(j + k) == 10 * (a * b));
        assert(ten_pow(k) == 10 * b);
        assert(10 * (a * b) == a * (10 * b)) by (nonlinear_arith);
    }
}

/// One limb holds exactly eighteen decimal digits.
pub proof fn lemma_base_pow_is_ten_pow(k: nat)
    ensures
        base_pow(k) == ten_pow(LIMB_DIGITS as nat * k),
    decreases k,
{
    reveal_with_fuel(ten_pow, 19);
    assert(ten_pow(18) == BASE);
    if k > 0 {
        lemma_base_pow_is_ten_pow((k - 1) as nat);
        assert(LIMB_DIGITS as nat * k == 18 + LIMB_DIGITS as nat * (k - 1) as nat) by (
        nonlinear_arith)
            requires
                k > 0,
        ;
        lemma_ten_pow_adds(18, LIMB_DIGITS as nat * (k - 1) as nat);
    }
}

/// Digits after digits: the first run is shifted by the length of the second.
pub proof fn lemma_digits_value_concat(x: Seq<char>, y: Seq<char>)
    ensures
        digits_value(x + y) == digits_value(x) * ten_pow(y.len()) + digits_value(y),
    decreases y.len(),
{
    if y.len() == 0 {
        assert(x + y =~= x);
        assert(ten_pow(0) == 1);
        assert(digits_value(x) * 1 == digits_value(x));
    } else {
        lemma_digits_value_concat(x, y.drop_last());
        assert(ten_pow(y.len()) == 10 * ten_pow((y.len() - 1) as nat));
        assert((x + y).drop_last() =~= x + y.drop_last());
        assert((x + y).last() == y.last());
        let a = digits_value(x);
        let p = ten_pow((y.len() - 1) as nat);
        let b = digits_value(y.drop_last());
        assert((a * p + b) * 10 == a * (10 * p) + b * 10) by (nonlinear_arith);
        assert(digits_value(x + y) == digits_value(x + y.drop_last()) * 10 + digit_value(y.last()));
    }
}

/// A run of `n` digits stands for less than `10^n`.
pub proof fn lemma_digits_value_upper(s: Seq<char>)
    requires
        all_digits(s),
    ensures
        digits_value(s) < ten_pow(s.len()),
    decreases s.len(),
{
    if s.len() > 0 {
        let r = s.drop_last();
        assert(all_digits(r)) by {
            assert forall|i: int| 0 <= i < r.len() implies is_digit(r[i]) by {
                assert(r[i] == s[i]);
            }
        }
        lemma_digits_value_upper(r);
        assert(is_digit(s[s.len() - 1]));
        let v = digits_value(r);
        let p = ten_pow((s.len() - 1) as nat);
        assert(v * 10 + digit_value(s.last()) < 10 * p) by (nonlinear_arith)
            requires
                v < p,
                digit_value(s.last()) < 10,
        ;
    }
}

/// Leading zeros change neither the value nor whether the text is all digits.
pub proof fn lemma_strip_zeros(s: Seq<char>)
    ensures
        digits_value(strip_zeros(s)) == digits_value(s),
        all_digits(strip_zeros(s)) <==> all_digits(s),
        strip_zeros(s).len() > 0 ==> strip_zeros(s)[0] != '0',
        strip_zeros(s).len() <= s.len(),
    decreases s.len(),
{
    if s.len() > 0 && s[0] == '0' {
        let r = s.drop_first();
        lemma_strip_zeros(r);
        assert(s =~= seq![s[0]] + r);
        lemma_digits_value_concat(seq![s[0]], r);
        assert(digits_value(seq![s[0]]) == 0) by {
            assert(seq![s[0]].drop_last() =~= Seq::<char>::empty());
            assert(seq![s[0]].last() == '0');
            assert(digit_value('0') == 0);
            assert(digits_value(Seq::<char>::empty()) == 0);
        }
        assert(0 * ten_pow(r.len()) == 0);
        if all_digits(r) {
            assert forall|i: int| 0 <= i < s.len() implies is_digit(s[i]) by {
                if i > 0 {
                    assert(s[i] == r[i - 1]);
                }
            }
        }
        if all_digits(s) {
            assert forall|i: int| 0 <= i < r.len() implies is_digit(r[i]) by {
                assert(r[i] == s[i + 1]);
            }
        }
    }
}

/// Text of a number whose low `w` digits are `x`, above a nonzero `a`.
pub proof fn lemma_nat_text_shift(a: nat, x: nat, w: nat)
    requires
        a > 0,
        x < ten_pow(w),
    ensures
        nat_text(a * ten_pow(w) + x) == nat_text(a) + padded_text(x, w),
    decreases w,
{
    if w == 0 {
        assert(nat_text(a) + padded_text(x, w) =~= nat_text(a));
    } else {
        let p = ten_pow((w - 1) as nat);
        let n = a * ten_pow(w) + x;
        lemma_fundamental_div_mod(x as int, 10);
        let q = x / 10;
        let r = x % 10;
        lemma_ten_pow_positive((w - 1) as nat);
        assert(q < p) by (nonlinear_arith)
            requires
                x == 10 * q + r,
                x < 10 * p,
                r >= 0,
        ;
        assert(n == 10 * (a * p + q) + r) by (nonlinear_arith)
            requires
                n == a * (10 * p) + x,
                x == 10 * q + r,
        ;
        assert(a * p >= 1) by (nonlinear_arith)
            requires
                a >= 1,
                p >= 1,
        ;
        lemma_fundamental_div_mod_converse(n as int, 10, (a * p + q) as int, r as int);
        lemma_nat_text_shift(a, q, (w - 1) as nat);
        assert(nat_text(n) == nat_text(a * p + q).push(digit_char(r)));
        assert(padded_text(x, w) == padded_text(q, (w - 1) as nat).push(digit_char(r)));
        assert(nat_text(a) + padded_text(x, w) =~= (nat_text(a) + padded_text(q, (w - 1) as nat)).push(
            digit_char(r),
        ));
    }
}

/// Digits without a leading zero are the text of the number they stand for.
pub proof fn lemma_nat_text_of_digits(d: Seq<char>)
    requires
        d.len() > 0,
        all_digits(d),
        d[0] != '0',
    ensures
        nat_text(digits_value(d)) == d,
        digits_value(d) > 0,
    decreases d.len(),
{
    let c = d.last();
    assert(is_digit(d[d.len() - 1]));
    assert(digit_char(digit_value(c)) == c);
    if d.len() == 1 {
        assert(d.drop_last() =~= Seq::<char>::empty());
        assert(nat_text(digits_value(d)) =~= d);
    } else {
        let r = d.drop_last();
        assert(all_digits(r)) by {
            assert forall|i: int| 0 <= i < r.len() implies is_digit(r[i]) by {
                assert(r[i] == d[i]);
            }
        }
        assert(r[0] == d[0]);
        lemma_nat_text_of_digits(r);
        let v = digits_value(r);
        let n = digits_value(d);
        lemma_fundamental_div_mod_converse(n as int, 10, v as int, digit_value(c) as int);
        assert(r.push(c) =~= d);
    }
}

/// Relies on `char::is_whitespace`, which reports Unicode `White_Space`.
#[verifier::external_body]
fn char_is_white_space(c: char) -> (r: bool)
    ensures
        r == is_white_space(c),
{
    c.is_whitespace()
}

/// Relies on `String::push`, which appends one character.
#[verifier::external_body]
pub(crate) fn push_char(s: &mut String, c: char)
    ensures
        final(s)@ == old(s)@.push(c),
{
    s.push(c)
}

/// The characters of `s`, in order.
pub fn chars_of(s: &str) -> (r: Vec<char>)
    ensures
        r@ == s@,
{
    let mut r: Vec<char> = Vec::new();
    for c in it: s.chars()
        invariant
            r@ == it.seq().subrange(0, it.index() as int),
            it.seq() == s@,
    {
        r.push(c);
        proof {
            assert(r@ =~= it.seq().subrange(0, it.index() + 1));
        }
    }
    r
}

/// Where the text of `v` starts and ends once white space at both ends is dropped.
pub fn trim_bounds(v: &Vec<char>) -> (r: (usize, usize))
    ensures
        r.0 <= r.1 <= v@.len(),
        v@.subrange(r.0 as int, r.1 as int) == trimmed(v@),
{
    let n: usize = v.len();
    let mut start: usize = 0;
    assert(v@.subrange(0, n as int) =~= v@);
    while start < n && char_is_white_space(v[start])
        invariant
            n == v@.len(),
            start <= n,
            trim_start(v@) == trim_start(v@.subrange(start as int, n as int)),
        decreases n - start,
    {
        proof {
            let t = v@.subrange(start as int, n as int);
            assert(t.drop_first() =~= v@.subrange(start + 1, n as int));
        }
        start = start + 1;
    }
    let ghost front = v@.subrange(start as int, n as int);
    assert(trim_start(v@) == front);
    let mut end: usize = n;
    while end > start && char_is_white_space(v[end - 1])
        invariant
            n == v@.len(),
            start <= end <= n,
            front == v@.subrange(start as int, n as int),
            trim_end(front) == trim_end(v@.subrange(start as int, end as int)),
        decreases end,
    {
        proof {
            let t = v@.subrange(start as int, end as int);
            assert(t.drop_last() =~= v@.subrange(start as int, end - 1));
        }
        end = end - 1;
    }
    (start, end)
}

/// The value of the digits `d[start..end]`, or `None` where one is not a digit.
pub fn group_value(d: &Vec<char>, start: usize, end: usize) -> (r: Option<u64>)
    requires
        start <= end <= d@.len(),
        end - start <= LIMB_DIGITS,
    ensures
        r is Some <==> all_digits(d@.subrange(start as int, end as int)),
        r matches Some(x) ==> x as nat == digits_value(d@.subrange(start as int, end as int))
            && x < BASE,
{
    let mut acc: u64 = 0;
    let mut i: usize = start;
    while i < end
        invariant
            start <= i <= end <= d@.len(),
            end - start <= LIMB_DIGITS,
            all_digits(d@.subrange(start as int, i as int)),
            acc as nat == digits_value(d@.subrange(start as int, i as int)),
            acc < ten_pow((i - start) as nat),
        decreases end - i,
    {
        let c: char = d[i];
        if !('0' <= c && c <= '9') {
            proof {
                let g = d@.subrange(start as int, end as int);
                assert(g[i - start] == c);
            }
            return None;
        }
        proof {
            let g = d@.subrange(start as int, i + 1);
            assert(g.drop_last() =~= d@.subrange(start as int, i as int));
            assert(g.last() == c);
            assert(all_digits(g)) by {
                assert forall|k: int| 0 <= k < g.len() implies is_digit(g[k]) by {
                    if k < g.len() - 1 {
                        assert(g[k] == d@.subrange(start as int, i as int)[k]);
                    }
                }
            }
            lemma_digits_value_upper(g);
            assert(ten_pow((i + 1 - start) as nat) == 10 * ten_pow((i - start) as nat));
            lemma_ten_pow_positive((i - start) as nat);
            lemma_ten_pow_adds((i + 1 - start) as nat, (LIMB_DIGITS - (i + 1 - start)) as nat);
            reveal_with_fuel(ten_pow, 19);
            lemma_ten_pow_positive((LIMB_DIGITS - (i + 1 - start)) as nat);
            assert(ten_pow((i + 1 - start) as nat) <= ten_pow(18)) by (nonlinear_arith)
                requires
                    ten_pow(18) == ten_pow((i + 1 - start) as nat) * ten_pow(
                        (LIMB_DIGITS - (i + 1 - start)) as nat,
                    ),
                    ten_pow((LIMB_DIGITS - (i + 1 - start)) as nat) >= 1,
            ;
        }
        acc = acc * 10 + (c as u64 - '0' as u64);
        i = i + 1;
    }
    proof {
        reveal_with_fuel(ten_pow, 19);
        lemma_ten_pow_adds((end - start) as nat, (LIMB_DIGITS - (end - start)) as nat);
        lemma_ten_pow_positive((LIMB_DIGITS - (end - start)) as nat);
        assert(ten_pow((end - start) as nat) <= ten_pow(18)) by (nonlinear_arith)
            requires
                ten_pow(18) == ten_pow((end - start) as nat) * ten_pow(
                    (LIMB_DIGITS - (end - start)) as nat,
                ),
                ten_pow((LIMB_DIGITS - (end - start)) as nat) >= 1,
        ;
    }
    Some(acc)
}

/// The characters `d[start..end]` as a string.
pub fn text_between(d: &Vec<char>, start: usize, end: usize) -> (r: String)
    requires
        start <= end <= d@.len(),
    ensures
        r@ == d@.subrange(start as int, end as int),
{
    let mut r: String = String::new();
    let mut i: usize = start;
    while i < end
        invariant
            start <= i <= end <= d@.len(),
            r@ == d@.subrange(start as int, i as int),
        decreases end - i,
    {
        push_char(&mut r, d[i]);
        proof {
            assert(r@ =~= d@.subrange(start as int, i + 1));
        }
        i = i + 1;
    }
    r
}

fn digit_to_char(d: u64) -> (c: char)
    requires
        d < 10,
    ensures
        c == digit_char(d as nat),
{
    ((d as u8) + 48u8) as char
}

/// Appends the decimal text of `n`.
pub fn push_nat_text(out: &mut String, n: u64)
    ensures
        final(out)@ == old(out)@ + nat_text(n as nat),
    decreases n,
{
    if n < 10 {
        push_char(out, digit_to_char(n));
        proof {
            assert(final(out)@ =~= old(out)@ + nat_text(n as nat));
        }
    } else {
        push_nat_text(out, n / 10);
        push_char(out, digit_to_char(n % 10));
        proof {
            assert(final(out)@ =~= old(out)@ + nat_text(n as nat));
        }
    }
}

/// Appends the lowest `w` decimal digits of `n`, padded with zeros.
pub fn push_padded_text(out: &mut String, n: u64, w: usize)
    ensures
        final(out)@ == old(out)@ + padded_text(n as nat, w as nat),
    decreases w,
{
    if w == 0 {
        proof {
            assert(final(out)@ =~= old(out)@ + padded_text(n as nat, w as nat));
        }
    } else {
        push_padded_text(out, n / 10, w - 1);
        push_char(out, digit_to_char(n % 10));
        proof {
            assert(final(out)@ =~= old(out)@ + padded_text(n as nat, w as nat));
        }
    }
}

/// Why text is refused as a number.
#[derive(Debug, Clone, PartialEq, Eq)]
pub enum ParseError {
    /// Nothing but an optional sign after trimming.
    EmptyOrSignOnly,
    /// A group of characters that are not all decimal digits.
    InvalidDigits { segment: String },
}

/// `last_non_digit` is -1 on all-digit text, and otherwise the position of a
/// non-digit with only digits after it.
pub proof fn lemma_last_non_digit(d: Seq<char>)
    ensures
        last_non_digit(d) == -1 <==> all_digits(d),
        last_non_digit(d) != -1 ==> {
            let p = last_non_digit(d);
            &&& 0 <= p < d.len()
            &&& !is_digit(d[p])
            &&& forall|i: int| p < i < d.len() ==> is_digit(#[trigger] d[i])
        },
    decreases d.len(),
{
    if d.len() > 0 {
        let r = d.drop_last();
        lemma_last_non_digit(r);
        if is_digit(d.last()) {
            if all_digits(r) {
                assert forall|i: int| 0 <= i < d.len() implies is_digit(d[i]) by {
                    if i < r.len() {
                        assert(d[i] == r[i]);
                    }
                }
            } else {
                assert(!all_digits(d)) by {
                    let q = choose|i: int| 0 <= i < r.len() && !is_digit(#[trigger] r[i]);
                    assert(d[q] == r[q]);
                }
                let p = last_non_digit(r);
                assert forall|i: int| p < i < d.len() implies is_digit(#[trigger] d[i]) by {
                    if i < r.len() {
                        assert(d[i] == r[i]);
                    }
                }
            }
        }
    }
}

/// The group that the parser reports, located by the positions it scans.
pub proof fn lemma_group_of_last_non_digit(d: Seq<char>, lo: int, hi: int, m: int)
    requires
        0 <= lo < hi <= d.len(),
        lo == (if hi >= LIMB_DIGITS {
            hi - LIMB_DIGITS
        } else {
            0
        }),
        m >= 0,
        d.len() - hi == LIMB_DIGITS * m,
        all_digits(d.subrange(hi, d.len() as int)),
        !all_digits(d.subrange(lo, hi)),
    ensures
        group_holding(d, last_non_digit(d)) == d.subrange(lo, hi),
{
    lemma_last_non_digit(d);
    let q = choose|i: int| 0 <= i < hi - lo && !is_digit(#[trigger] d.subrange(lo, hi)[i]);
    assert(d[lo + q] == d.subrange(lo, hi)[q]);
    let p = last_non_digit(d);
    assert(!all_digits(d)) by {
        assert(!is_digit(d[lo + q]));
    }
    if p >= hi {
        assert(d[p] == d.subrange(hi, d.len() as int)[p - hi]);
    }
    assert(p >= lo + q);
    let x = d.len() - 1 - p;
    lemma_fundamental_div_mod_converse(x, LIMB_DIGITS as int, m, x - LIMB_DIGITS * m);
}

} // verus!
