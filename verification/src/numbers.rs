use vstd::prelude::*;
use crate::text::push_char;

verus! {

/// Two to the power `e`.
pub open spec fn two_pow(e: nat) -> nat
    decreases e,
{
    if e == 0 {
        1
    } else {
        2 * two_pow((e - 1) as nat)
    }
}

/// The character of a decimal digit.
pub open spec fn digit_char(d: nat) -> char {
    (48 + d) as char
}

/// Whether a character is an ASCII decimal digit (`char::is_ascii_digit`).
pub open spec fn is_digit(c: char) -> bool {
    48 <= (c as int) <= 57
}

/// The decimal digits of `n`, most significant first, with no leading zero:
/// the text that `Display` writes for an unsigned integer.
pub open spec fn decimal(n: nat) -> Seq<char>
    decreases n,
{
    if n < 10 {
        seq![digit_char(n)]
    } else {
        decimal(n / 10).push(digit_char(n % 10))
    }
}

/// The decimal text of a number is a nonempty run of ASCII digits.
pub proof fn lemma_decimal_digits(n: nat)
    ensures
        decimal(n).len() >= 1,
        forall|i: int| 0 <= i < decimal(n).len() ==> is_digit(#[trigger] decimal(n)[i]),
    decreases n,
{
    if n >= 10 {
        lemma_decimal_digits(n / 10);
    }
}

/// Reading the decimal text of a number gives the number back.
pub proof fn lemma_decimal_value(n: nat)
    ensures
        digits_value(decimal(n)) == n,
    decreases n,
{
    let d = (n % 10) as nat;
    assert((digit_char(d) as int) == 48 + d);
    if n >= 10 {
        lemma_decimal_value(n / 10);
        assert(decimal(n).drop_last() =~= decimal(n / 10));
        assert(decimal(n).last() == digit_char(d));
        assert(digits_value(decimal(n)) == digits_value(decimal(n / 10)) * 10 + d);
        assert((n / 10) * 10 + d == n);
    } else {
        assert(decimal(n).drop_last() =~= Seq::<char>::empty());
        assert(digits_value(Seq::<char>::empty()) == 0);
        assert(decimal(n).last() == digit_char(d));
    }
}

/// Ten to the power `k`.
pub open spec fn ten_pow(k: nat) -> nat
    decreases k,
{
    if k == 0 {
        1
    } else {
        10 * ten_pow((k - 1) as nat)
    }
}

/// A number below `10^k` has at most `k` digits (and always one).
pub proof fn lemma_decimal_len(n: nat, k: nat)
    requires
        n < ten_pow(k),
        k >= 1,
    ensures
        1 <= decimal(n).len() <= k,
    decreases n,
{
    if n >= 10 {
        assert(k >= 2) by {
            if k == 1 {
                assert(ten_pow(1) == 10) by {
                    reveal_with_fuel(ten_pow, 2);
                }
            }
        }
        lemma_decimal_len(n / 10, (k - 1) as nat);
    }
}

/// Every `u64` has at most twenty digits.
pub proof fn lemma_decimal_len_u64(n: nat)
    requires
        n <= 0x1_0000_0000_0000_0000,
    ensures
        1 <= decimal(n).len() <= 20,
{
    assert(ten_pow(20) == 100_000_000_000_000_000_000) by {
        reveal_with_fuel(ten_pow, 21);
    }
    lemma_decimal_len(n, 20);
}

/// Appends the decimal text of `n` to `out`.
pub fn push_decimal(out: &mut String, n: u64)
    ensures
        final(out)@ == old(out)@ + decimal(n as nat),
    decreases n,
{
    if n >= 10 {
        push_decimal(out, n / 10);
    }
    let d: u8 = (n % 10) as u8;
    let c: char = (48u8 + d) as char;
    assert(c == digit_char((n % 10) as nat));
    push_char(out, c);
    assert(n < 10 ==> decimal(n as nat) =~= seq![digit_char(n as nat)]);
}

/// The decimal text of `n` (what `n.to_string()` gives).
pub fn decimal_string(n: u64) -> (s: String)
    ensures
        s@ == decimal(n as nat),
{
    let mut s = String::new();
    push_decimal(&mut s, n);
    assert(s@ =~= decimal(n as nat));
    s
}

/// How many ASCII digits the sequence starts with.
pub open spec fn digits_len(s: Seq<char>) -> nat
    decreases s.len(),
{
    if s.len() > 0 && is_digit(s[0]) {
        1 + digits_len(s.drop_first())
    } else {
        0
    }
}

/// The longest prefix made of ASCII digits (`take_while(is_ascii_digit)`).
pub open spec fn digit_prefix(s: Seq<char>) -> Seq<char> {
    s.take(digits_len(s) as int)
}

/// What follows the leading ASCII digits (`skip_while(is_ascii_digit)`).
pub open spec fn digit_rest(s: Seq<char>) -> Seq<char> {
    s.skip(digits_len(s) as int)
}

/// The number that a sequence of ASCII digits denotes in base ten.
pub open spec fn digits_value(d: Seq<char>) -> nat
    decreases d.len(),
{
    if d.len() == 0 {
        0
    } else {
        digits_value(d.drop_last()) * 10 + ((d.last() as int) - 48) as nat
    }
}

pub proof fn lemma_digits_len_bound(s: Seq<char>)
    ensures
        digits_len(s) <= s.len(),
        forall|i: int| 0 <= i < digits_len(s) ==> is_digit(#[trigger] s[i]),
        digits_len(s) < s.len() ==> !is_digit(s[digits_len(s) as int]),
    decreases s.len(),
{
    if s.len() > 0 && is_digit(s[0]) {
        lemma_digits_len_bound(s.drop_first());
        assert forall|i: int| 0 <= i < digits_len(s) implies is_digit(#[trigger] s[i]) by {
            if i > 0 {
                assert(s[i] == s.drop_first()[i - 1]);
            }
        }
    }
}

/// A run of digits followed by text that does not start with a digit: the
/// leading digits are exactly the run.
pub proof fn lemma_digits_len_of_run(d: Seq<char>, rest: Seq<char>)
    requires
        forall|i: int| 0 <= i < d.len() ==> is_digit(#[trigger] d[i]),
        rest.len() == 0 || !is_digit(rest[0]),
    ensures
        digits_len(d + rest) == d.len(),
        digit_prefix(d + rest) == d,
        digit_rest(d + rest) == rest,
    decreases d.len(),
{
    if d.len() > 0 {
        lemma_digits_len_of_run(d.drop_first(), rest);
        assert((d + rest).drop_first() =~= d.drop_first() + rest);
    }
    assert((d + rest).take(d.len() as int) =~= d);
    assert((d + rest).skip(d.len() as int) =~= rest);
}

/// The split of `s` at the end of its leading digits: the position where the
/// digits end.
pub fn leading_digits(s: &Vec<char>) -> (k: usize)
    ensures
        k == digits_len(s@),
{
    proof {
        lemma_digits_len_bound(s@);
    }
    let mut k: usize = 0;
    while k < s.len() && ('0' <= s[k] && s[k] <= '9')
        invariant
            k <= s.len(),
            k <= digits_len(s@),
            forall|i: int| 0 <= i < k ==> is_digit(#[trigger] s@[i]),
            digits_len(s@) <= s@.len(),
            forall|i: int| 0 <= i < digits_len(s@) ==> is_digit(#[trigger] s@[i]),
            digits_len(s@) < s@.len() ==> !is_digit(s@[digits_len(s@) as int]),
        decreases s.len() - k,
    {
        k = k + 1;
    }
    k
}

proof fn lemma_digits_value_prefix(d: Seq<char>, i: int)
    requires
        0 <= i <= d.len(),
    ensures
        digits_value(d.take(i)) <= digits_value(d),
    decreases d.len(),
{
    if i < d.len() {
        lemma_digits_value_prefix(d.drop_last(), i);
        assert(d.drop_last().take(i) =~= d.take(i));
    } else {
        assert(d.take(i) =~= d);
    }
}

/// The value of a run of ASCII digits, or `None` when it exceeds `limit`.
pub fn digits_value_up_to(d: &Vec<char>, start: usize, end: usize, limit: u64) -> (r: Option<u64>)
    requires
        start <= end <= d.len(),
        forall|i: int| start <= i < end ==> is_digit(#[trigger] d@[i]),
        limit >= 9,
    ensures
        match r {
            Some(v) => v == digits_value(d@.subrange(start as int, end as int)) && v <= limit,
            None => digits_value(d@.subrange(start as int, end as int)) > limit,
        },
{
    let ghost ds = d@.subrange(start as int, end as int);
    let mut acc: u64 = 0;
    let mut i: usize = start;
    assert(ds.take(0) =~= Seq::<char>::empty());
    while i < end
        invariant
            start <= i <= end <= d.len(),
            ds == d@.subrange(start as int, end as int),
            forall|j: int| start <= j < end ==> is_digit(#[trigger] d@[j]),
            acc == digits_value(ds.take(i - start)),
            acc <= limit,
            limit >= 9,
        decreases end - i,
    {
        let c = d[i];
        assert(is_digit(d@[i as int]));
        let digit: u64 = (c as u32 - 48) as u64;
        assert(ds.take(i + 1 - start).drop_last() =~= ds.take(i - start));
        assert(ds.take(i + 1 - start).last() == c);
        if acc > (limit - digit) / 10 {
            proof {
                assert(acc * 10 + digit > limit) by (nonlinear_arith)
                    requires
                        acc > (limit - digit) / 10,
                        digit <= limit,
                ;
                lemma_digits_value_prefix(ds, i + 1 - start);
            }
            return None;
        }
        assert(acc * 10 + digit <= limit) by (nonlinear_arith)
            requires
                acc <= (limit - digit) / 10,
                digit <= limit,
        ;
        acc = acc * 10 + digit;
        i = i + 1;
    }
    assert(ds.take(end - start) =~= ds);
    Some(acc)
}

/// The number of low bits that a binary64 significand (53 bits) cannot hold
/// of `v`.
pub open spec fn dropped_bits(v: nat) -> nat
    decreases v,
{
    if v < 0x20_0000_0000_0000 {
        0
    } else {
        1 + dropped_bits(v / 2)
    }
}

/// `n / d` rounded to the nearest integer, ties to the even one.
pub open spec fn div_round_even(n: nat, d: nat) -> nat
    recommends
        d > 0,
{
    let q = n / d;
    let r = n % d;
    if 2 * r > d || (2 * r == d && q % 2 == 1) {
        q + 1
    } else {
        q
    }
}

/// The binary64 value nearest to the integer `v`, ties to even: what
/// `v as f64` gives for an integer, and what `str::parse::<f64>` gives for
/// its decimal digits.
pub open spec fn f64_round(v: nat) -> nat {
    div_round_even(v, two_pow(dropped_bits(v))) * two_pow(dropped_bits(v))
}

/// Every integer up to 2^53 is a binary64 value: rounding keeps it.
pub proof fn lemma_f64_round_exact(v: nat)
    requires
        v <= 0x20_0000_0000_0000,
    ensures
        f64_round(v) == v,
{
    if v == 0x20_0000_0000_0000 {
        assert(dropped_bits(v) == 1) by {
            reveal_with_fuel(dropped_bits, 2);
        }
        assert(two_pow(1) == 2) by {
            reveal_with_fuel(two_pow, 2);
        }
        assert(div_round_even(v, 2) == 0x10_0000_0000_0000);
    } else {
        assert(dropped_bits(v) == 0);
        assert(two_pow(0) == 1);
        assert(div_round_even(v, 1) == v);
    }
}

proof fn lemma_two_pow_mono(a: nat, b: nat)
    requires
        a <= b,
    ensures
        two_pow(a) <= two_pow(b),
    decreases b,
{
    if a < b {
        lemma_two_pow_mono(a, (b - 1) as nat);
    }
}

proof fn lemma_two_pow_11()
    ensures
        two_pow(11) == 0x800,
{
    reveal_with_fuel(two_pow, 12);
}

/// `f64_round` on a `u64`, computed in integers.
pub fn round_to_f64(v: u64) -> (r: u128)
    ensures
        r == f64_round(v as nat),
        r <= 0x1_0000_0000_0000_0000,
{
    let mut w: u64 = v;
    let mut p: u64 = 1;
    let ghost mut s: nat = 0;
    while w >= 0x20_0000_0000_0000
        invariant
            p == two_pow(s),
            p > 0,
            w == v / p,
            dropped_bits(v as nat) == s + dropped_bits(w as nat),
            p * w <= v,
            s <= 11,
            p <= 0x800,
        decreases w,
    {
        proof {
            vstd::arithmetic::div_mod::lemma_div_denominator(v as int, p as int, 2);
            vstd::arithmetic::div_mod::lemma_fundamental_div_mod(v as int, p as int);
            assert(p < 0x800) by (nonlinear_arith)
                requires
                    p * w <= v,
                    w >= 0x20_0000_0000_0000,
                    v <= 0xffff_ffff_ffff_ffff,
            ;
            lemma_two_pow_11();
            if s >= 11 {
                lemma_two_pow_mono(11, s);
            }
        }
        w = w / 2;
        p = p * 2;
        proof {
            s = s + 1;
            lemma_two_pow_mono(s, 11);
            vstd::arithmetic::div_mod::lemma_fundamental_div_mod(v as int, p as int);
            assert(p * w <= v) by (nonlinear_arith)
                requires
                    w == v / p,
                    p > 0,
                    v == p * (v / p) + v % p,
                    v % p >= 0,
            ;
        }
    }
    let r: u64 = v % p;
    let q: u128 = w as u128;
    let pp: u128 = p as u128;
    let rounded: u128 = if 2 * r > p || (2 * r == p && w % 2 == 1) {
        q + 1
    } else {
        q
    };
    assert(rounded * pp <= 0x1_0000_0000_0000_0000) by (nonlinear_arith)
        requires
            rounded <= q + 1,
            q < 0x20_0000_0000_0000,
            pp <= 0x800,
    ;
    rounded * pp
}

} // verus!
