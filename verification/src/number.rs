//! Decimal notation: writing numbers, reading them, and rounding.
use crate::text::is_ascii_digit;
use vstd::prelude::*;

verus! {

/// The character of a digit from 0 to 9.
pub open spec fn digit_char(d: nat) -> char {
    (0x30 + d) as char
}

/// The decimal notation of a natural number.
pub open spec fn decimal(n: nat) -> Seq<char>
    decreases n,
{
    if n < 10 {
        seq![digit_char(n)]
    } else {
        decimal(n / 10).push(digit_char(n % 10))
    }
}

/// The decimal notation of an integer.
pub open spec fn signed_decimal(n: int) -> Seq<char> {
    if n < 0 {
        seq!['-'] + decimal((-n) as nat)
    } else {
        decimal(n as nat)
    }
}

/// The character of a digit.
fn digit(d: u8) -> (r: char)
    requires
        d < 10,
    ensures
        r == digit_char(d as nat),
{
    let c: u8 = 0x30 + d;
    c as char
}

/// Writes a natural number in decimal notation.
pub fn to_decimal(n: u128) -> (r: String)
    ensures
        r@ == decimal(n as nat),
    decreases n,
{
    if n < 10 {
        let mut s = String::new();
        s.push(digit(n as u8));
        assert(s@ == seq![digit_char(n as nat)]);
        s
    } else {
        let mut s = to_decimal(n / 10);
        s.push(digit((n % 10) as u8));
        s
    }
}

/// Writes an integer in decimal notation.
pub fn to_signed_decimal(n: i64) -> (r: String)
    ensures
        r@ == signed_decimal(n as int),
{
    if n < 0 {
        let mut s = String::new();
        s.push('-');
        let m: i128 = -(n as i128);
        let d = to_decimal(m as u128);
        s.append(d.as_str());
        assert(s@ == seq!['-'] + decimal((-n) as nat));
        s
    } else {
        to_decimal(n as u128)
    }
}

/// The number that a sequence of digits denotes.
pub open spec fn digits_value(s: Seq<char>) -> nat
    decreases s.len(),
{
    if s.len() == 0 {
        0
    } else {
        (10 * digits_value(s.drop_last()) + (s.last() as nat - 0x30)) as nat
    }
}

/// Whether a text is one or more ASCII digits.
pub open spec fn all_digits(s: Seq<char>) -> bool {
    s.len() > 0 && forall|i: int| 0 <= i < s.len() ==> is_ascii_digit(#[trigger] s[i])
}

/// The integer that a text denotes: an optional sign and one or more digits.
pub open spec fn int_value(s: Seq<char>) -> Option<int> {
    if s.len() > 0 && s[0] == '-' && all_digits(s.drop_first()) {
        Some(-digits_value(s.drop_first()))
    } else if s.len() > 0 && s[0] == '+' && all_digits(s.drop_first()) {
        Some(digits_value(s.drop_first()) as int)
    } else if all_digits(s) {
        Some(digits_value(s) as int)
    } else {
        None
    }
}

/// [`int_value`], if it fits in 64 bits.
pub open spec fn i64_value(s: Seq<char>) -> Option<i64> {
    match int_value(s) {
        Some(n) => if i64::MIN <= n <= i64::MAX {
            Some(n as i64)
        } else {
            None
        },
        None => None,
    }
}

/// Reading a number back gives the number that was written.
pub proof fn decimal_reads_back(n: nat)
    ensures
        all_digits(decimal(n)),
        digits_value(decimal(n)) == n,
        int_value(decimal(n)) == Some(n as int),
    decreases n,
{
    if n < 10 {
        assert(decimal(n).drop_last() == Seq::<char>::empty());
        assert(digits_value(decimal(n).drop_last()) == 0);
        assert(decimal(n)[0] == digit_char(n));
    } else {
        decimal_reads_back(n / 10);
        let s = decimal(n);
        assert(s.drop_last() == decimal(n / 10));
        assert(s.last() == digit_char(n % 10));
        assert forall|i: int| 0 <= i < s.len() implies is_ascii_digit(#[trigger] s[i]) by {
            if i < s.len() - 1 {
                assert(s[i] == decimal(n / 10)[i]);
            }
        }
        assert(digits_value(s) == 10 * digits_value(decimal(n / 10)) + n % 10);
    }
    assert(is_ascii_digit(decimal(n)[0]));
}

/// The value of a run of digits, if it stays below two to the power of 64.
fn read_digits(s: &Vec<char>, from: usize) -> (r: Option<u128>)
    requires
        from <= s@.len(),
        forall|i: int| from <= i < s@.len() ==> is_ascii_digit(#[trigger] s@[i]),
    ensures
        match r {
            Some(v) => v == digits_value(s@.skip(from as int)) && v <= u64::MAX,
            None => digits_value(s@.skip(from as int)) > u64::MAX,
        },
{
    let ghost d = s@.skip(from as int);
    let mut acc: u128 = 0;
    let mut big = false;
    let mut i: usize = from;
    assert(d.take(0) == Seq::<char>::empty());
    while i < s.len()
        invariant
            from <= i <= s@.len(),
            d == s@.skip(from as int),
            forall|k: int| from <= k < s@.len() ==> is_ascii_digit(#[trigger] s@[k]),
            big ==> digits_value(d.take(i - from)) > u64::MAX,
            !big ==> acc == digits_value(d.take(i - from)) && acc <= u64::MAX,
        decreases s@.len() - i,
    {
        let c = s[i];
        assert(is_ascii_digit(s@[i as int]));
        assert(d.take(i - from + 1).drop_last() == d.take(i - from));
        assert(d.take(i - from + 1).last() == c);
        if !big {
            let v: u128 = (c as u32 - 0x30) as u128;
            acc = acc * 10 + v;
            if acc > u64::MAX as u128 {
                big = true;
            }
        }
        i += 1;
    }
    assert(d.take(s@.len() - from) == d);
    if big {
        None
    } else {
        Some(acc)
    }
}

/// Decides [`all_digits`] of what follows `from`.
fn digits_from(s: &Vec<char>, from: usize) -> (r: bool)
    requires
        from <= s@.len(),
    ensures
        r == all_digits(s@.skip(from as int)),
{
    if from == s.len() {
        return false;
    }
    let mut i: usize = from;
    while i < s.len()
        invariant
            from <= i <= s@.len(),
            from < s@.len(),
            forall|k: int| from <= k < i ==> is_ascii_digit(#[trigger] s@[k]),
        decreases s@.len() - i,
    {
        let c = s[i];
        if !('0' <= c && c <= '9') {
            assert(s@.skip(from as int)[i - from] == c);
            return false;
        }
        i += 1;
    }
    assert forall|k: int| 0 <= k < s@.skip(from as int).len() implies is_ascii_digit(
        #[trigger] s@.skip(from as int)[k],
    ) by {
        assert(s@.skip(from as int)[k] == s@[from + k]);
    }
    true
}

/// Reads an integer of 64 bits.
pub fn parse_i64(s: &Vec<char>) -> (r: Option<i64>)
    ensures
        r == i64_value(s@),
{
    if s.len() == 0 {
        return None;
    }
    let c = s[0];
    let signed = c == '-' || c == '+';
    let from: usize = if signed { 1 } else { 0 };
    assert(s@.skip(1) == s@.drop_first());
    assert(s@.skip(0) == s@);
    assert(signed ==> !is_ascii_digit(s@[0]));
    if !digits_from(s, from) {
        return None;
    }
    assert forall|i: int| from <= i < s@.len() implies is_ascii_digit(#[trigger] s@[i]) by {
        assert(s@.skip(from as int)[i - from] == s@[i]);
    }
    match read_digits(s, from) {
        None => None,
        Some(v) => {
            if c == '-' {
                if v <= 0x8000_0000_0000_0000 {
                    Some((-(v as i128)) as i64)
                } else {
                    None
                }
            } else if v <= 0x7fff_ffff_ffff_ffff {
                Some(v as i64)
            } else {
                None
            }
        },
    }
}

/// `n / d` rounded to the nearest integer, a tie going to the even one.
pub open spec fn round_half_even(n: nat, d: nat) -> nat
    recommends
        d > 0,
{
    let q = n / d;
    let r = n % d;
    if 2 * r > d || (2 * r == d && q % 2 == 1) {
        q + 1
    } else {
        q
    }
}

/// Divides and rounds to the nearest integer.
pub fn divide_rounded(n: u128, d: u128) -> (r: u128)
    requires
        0 < d < 0x1_0000_0000,
    ensures
        r == round_half_even(n as nat, d as nat),
{
    let q: u128 = n / d;
    let rem: u128 = n % d;
    if 2 * rem > d || (2 * rem == d && q % 2 == 1) {
        assert(q < u128::MAX) by (nonlinear_arith)
            requires
                q == n / d,
                rem == n % d,
                d > 0,
                2 * rem >= d,
                n <= u128::MAX,
        {
            if d == 1 {
                assert(n % 1 == 0);
            } else {
                assert(q <= n / 2);
            }
        }
        q + 1
    } else {
        q
    }
}

/// A division is rounded to the nearest whole number, and from halfway to the even
/// one.
pub proof fn rounding_goes_to_the_nearest(n: nat, d: nat)
    requires
        d > 0,
    ensures
        2 * n <= (2 * round_half_even(n, d) + 1) * d,
        2 * n >= (2 * round_half_even(n, d) - 1) * d,
        2 * n == (2 * round_half_even(n, d) + 1) * d || 2 * n == (2 * round_half_even(n, d) - 1) * d
            ==> round_half_even(n, d) % 2 == 0,
{
    let (a, b) = (n as int, d as int);
    vstd::arithmetic::div_mod::lemma_fundamental_div_mod(a, b);
    vstd::arithmetic::div_mod::lemma_mod_bound(a, b);
    let q = a / b;
    let r = a % b;
    assert((2 * q + 1) * b == 2 * (b * q) + b) by (nonlinear_arith);
    assert((2 * q - 1) * b == 2 * (b * q) - b) by (nonlinear_arith);
    assert((2 * (q + 1) + 1) * b == 2 * (b * q) + 3 * b) by (nonlinear_arith);
    assert((2 * (q + 1) - 1) * b == 2 * (b * q) + b) by (nonlinear_arith);
    assert(n / d == q && n % d == r);
}

/// A multiple is divided without rest.
pub proof fn whole_multiples_are_not_rounded(k: nat, d: nat)
    requires
        d > 0,
    ensures
        round_half_even(k * d, d) == k,
{
    vstd::arithmetic::div_mod::lemma_div_multiples_vanish(k as int, d as int);
    vstd::arithmetic::div_mod::lemma_mod_multiples_basic(k as int, d as int);
    assert(d * k == k * d) by (nonlinear_arith);
}

/// A number that is written out, with its sign or with a plus, is read back; what is
/// empty or holds anything but digits behind its sign is no number.
pub proof fn integers_read_back(n: i64, s: Seq<char>, i: int)
    ensures
        i64_value(signed_decimal(n as int)) == Some(n),
        n >= 0 ==> i64_value(seq!['+'] + decimal(n as nat)) == Some(n),
        i64_value(Seq::empty()) is None,
        0 < i < s.len() && !('0' <= s[i] <= '9') ==> i64_value(s) is None,
        s.len() > 0 && s[0] != '-' && s[0] != '+' && !('0' <= s[0] <= '9') ==> i64_value(s) is None,
        s.len() == 1 && !('0' <= s[0] <= '9') ==> i64_value(s) is None,
{
    let m = (if n < 0 {
        -(n as int)
    } else {
        n as int
    }) as nat;
    decimal_reads_back(m);
    let d = decimal(m);
    assert((seq!['-'] + d).drop_first() =~= d);
    assert((seq!['+'] + d).drop_first() =~= d);
    assert(is_ascii_digit(d[0]));
    if 0 < i < s.len() && !('0' <= s[i] <= '9') {
        assert(s.drop_first()[i - 1] == s[i]);
        assert(!is_ascii_digit(s[i]));
    }
    if s.len() > 0 && !('0' <= s[0] <= '9') {
        assert(!is_ascii_digit(s[0]));
    }
}

/// A number is written without leading zeros.
pub proof fn no_leading_zeros(n: nat)
    ensures
        decimal(n).len() > 0,
        n > 0 ==> decimal(n)[0] != '0',
        n == 0 ==> decimal(n) == seq!['0'],
    decreases n,
{
    if n >= 10 {
        no_leading_zeros(n / 10);
        assert(decimal(n)[0] == decimal(n / 10)[0]);
    } else {
        assert(decimal(n)[0] == digit_char(n));
        if n > 0 {
            assert((0x30 + n) as char != '0');
        }
    }
}

/// Only a number below zero has a sign.
pub proof fn only_negative_numbers_have_a_sign(n: int)
    ensures
        signed_decimal(n)[0] == '-' <==> n < 0,
        n >= 0 ==> signed_decimal(n) == decimal(n as nat),
        n < 0 ==> signed_decimal(n) == seq!['-'] + decimal((0 - n) as nat),
{
    decimal_reads_back(n as nat);
    if n >= 0 {
        assert(is_ascii_digit(decimal(n as nat)[0]));
    }
}

} // verus!
