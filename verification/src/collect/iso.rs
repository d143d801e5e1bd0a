//! Timestamps such as `2026-07-15T15:03:44.818Z` as seconds of the Unix epoch.
use crate::number::{all_digits, digits_value, i64_value, parse_i64};
use crate::order::{lemma_text_le_total, text_le};
use crate::text::{is_ascii_digit, lemma_encode_both};
use vstd::prelude::*;
use vstd::utf8::{encode_utf8, is_ascii_chars, is_ascii_chars_encode_utf8};

verus! {

/// How many days a month has.
pub open spec fn days_in_month(y: int, mo: int) -> int {
    if mo == 2 {
        if y % 4 == 0 && (y % 100 != 0 || y % 400 == 0) {
            29
        } else {
            28
        }
    } else if mo == 4 || mo == 6 || mo == 9 || mo == 11 {
        30
    } else {
        31
    }
}

/// The number of days from 1970-01-01 to a date of the Gregorian calendar. The
/// year is taken to begin in March, so that a leap day comes last.
pub open spec fn day_number(y: int, mo: int, d: int) -> int {
    let year = if mo <= 2 {
        y - 1
    } else {
        y
    };
    let era = year / 400;
    let of_era = year % 400;
    let month = (mo + 9) % 12;
    let of_year = (153 * month + 2) / 5 + d - 1;
    era * 146097 + of_era * 365 + of_era / 4 - of_era / 100 + of_year - 719468
}

/// The seconds of the Unix epoch at a date and time.
pub open spec fn epoch_seconds(y: int, mo: int, d: int, h: int, mi: int, s: int) -> int {
    day_number(y, mo, d) * 86400 + h * 3600 + mi * 60 + s
}

/// The number that the bytes from `lo` up to `hi` spell.
pub open spec fn field(b: Seq<u8>, lo: int, hi: int) -> Option<i64> {
    i64_value(Seq::new((hi - lo) as nat, |k: int| b[lo + k] as char))
}

/// The seconds that a timestamp stands for: its fields are read at their fixed
/// places, and what stands between and after them does not matter.
pub open spec fn iso_seconds(ts: Seq<char>) -> Option<int> {
    let b = encode_utf8(ts);
    if b.len() < 19 {
        None
    } else {
        match (
            field(b, 0, 4),
            field(b, 5, 7),
            field(b, 8, 10),
            field(b, 11, 13),
            field(b, 14, 16),
            field(b, 17, 19),
        ) {
            (Some(y), Some(mo), Some(d), Some(h), Some(mi), Some(s)) => Some(
                epoch_seconds(y as int, mo as int, d as int, h as int, mi as int, s as int),
            ),
            _ => None,
        }
    }
}

/// A number of few digits is small.
proof fn lemma_short(s: Seq<char>)
    ensures
        s.len() <= 4 && i64_value(s) is Some ==> -999 <= i64_value(s)->0 <= 9999,
        s.len() <= 2 && i64_value(s) is Some ==> -9 <= i64_value(s)->0 <= 99,
{
    lemma_digits_bound(s);
    if s.len() > 0 {
        lemma_digits_bound(s.skip(1));
        lemma_digits_bound(s.drop_first());
    }
}

/// Bounds on the value of a few digits.
proof fn lemma_digits_bound(s: Seq<char>)
    ensures
        s.len() == 0 ==> digits_value(s) == 0,
        all_digits(s) && s.len() <= 1 ==> digits_value(s) <= 9,
        all_digits(s) && s.len() <= 2 ==> digits_value(s) <= 99,
        all_digits(s) && s.len() <= 3 ==> digits_value(s) <= 999,
        all_digits(s) && s.len() <= 4 ==> digits_value(s) <= 9999,
    decreases s.len(),
{
    if s.len() > 0 {
        lemma_digits_bound(s.drop_last());
        if all_digits(s) {
            assert(is_ascii_digit(s[s.len() - 1]));
            assert forall|i: int| 0 <= i < s.len() - 1 implies is_ascii_digit(
                #[trigger] s.drop_last()[i],
            ) by {
                assert(is_ascii_digit(s[i]));
            }
        }
    }
}

/// Reads the field from `lo` up to `hi`.
fn read_field(b: &[u8], lo: usize, hi: usize) -> (r: Option<i64>)
    requires
        lo <= hi <= b@.len(),
        hi - lo <= 4,
    ensures
        r == field(b@, lo as int, hi as int),
        r is Some ==> -999 <= r->0 <= 9999,
        r is Some && hi - lo <= 2 ==> -9 <= r->0 <= 99,
{
    let mut chars: Vec<char> = Vec::new();
    let mut i: usize = lo;
    while i < hi
        invariant
            lo <= i <= hi <= b@.len(),
            chars@.len() == i - lo,
            forall|k: int| 0 <= k < chars@.len() ==> #[trigger] chars@[k] == b@[lo + k] as char,
        decreases hi - i,
    {
        chars.push(b[i] as char);
        i += 1;
    }
    assert(chars@ =~= Seq::new((hi - lo) as nat, |k: int| b@[lo + k] as char));
    proof {
        lemma_short(chars@);
    }
    parse_i64(&chars)
}

/// Computes [`day_number`].
fn day(y: i64, mo: i64, d: i64) -> (r: i64)
    requires
        -999 <= y <= 9999,
        -9 <= mo <= 99,
        -9 <= d <= 99,
    ensures
        r == day_number(y as int, mo as int, d as int),
        -2_000_000 <= r <= 4_000_000,
{
    let year: i64 = if mo <= 2 {
        y - 1
    } else {
        y
    };
    // ten eras later, so that the division is of positive numbers
    let later: i64 = year + 4000;
    let era: i64 = later / 400 - 10;
    let of_era: i64 = later % 400;
    let month: i64 = (mo + 9) % 12;
    let of_year: i64 = (153 * month + 2) / 5 + d - 1;
    assert(era == year as int / 400 && of_era == year as int % 400);
    assert(-3 <= era <= 24 && 0 <= of_era < 400 && 0 <= month < 12);
    assert(-10 <= of_year <= 500);
    let eras: i64 = era * 146097;
    assert(-438291 <= eras <= 3506328);
    eras + of_era * 365 + of_era / 4 - of_era / 100 + of_year - 719468
}

/// The seconds of the Unix epoch that a timestamp stands for.
pub fn parse_iso(ts: &str) -> (r: Option<i64>)
    ensures
        (match r {
            Some(t) => Some(t as int),
            None => None,
        }) == iso_seconds(ts@),
{
    let b = ts.as_bytes();
    if b.len() < 19 {
        return None;
    }
    let y = match read_field(b, 0, 4) {
        Some(n) => n,
        None => return None,
    };
    let mo = match read_field(b, 5, 7) {
        Some(n) => n,
        None => return None,
    };
    let d = match read_field(b, 8, 10) {
        Some(n) => n,
        None => return None,
    };
    let h = match read_field(b, 11, 13) {
        Some(n) => n,
        None => return None,
    };
    let mi = match read_field(b, 14, 16) {
        Some(n) => n,
        None => return None,
    };
    let s = match read_field(b, 17, 19) {
        Some(n) => n,
        None => return None,
    };
    let days = day(y, mo, d);
    Some(days * 86400 + h * 3600 + mi * 60 + s)
}

/// Day numbers count the days of the Gregorian calendar: they are zero on
/// 1970-01-01, grow by one from day to day, and by the length of a month from
/// the first of one month to the first of the next.
pub proof fn day_numbers_count_days(y: int, mo: int, d: int)
    requires
        1 <= mo <= 12,
    ensures
        day_number(1970, 1, 1) == 0,
        day_number(y, mo, d + 1) == day_number(y, mo, d) + 1,
        mo < 12 ==> day_number(y, mo + 1, 1) == day_number(y, mo, 1) + days_in_month(y, mo),
        mo == 12 ==> day_number(y + 1, 1, 1) == day_number(y, 12, 1) + days_in_month(y, 12),
{
    if mo == 2 {
        lemma_february(y);
    }
}

/// From the first of February to the first of March.
#[verifier::spinoff_prover]
#[verifier::rlimit(60)]
proof fn lemma_february(y: int)
    ensures
        day_number(y, 3, 1) == day_number(y, 2, 1) + days_in_month(y, 2),
{
    let a = y - 1;
    let (q, r) = (y / 400, y % 400);
    assert(q * 400 + r == y && 0 <= r < 400);
    assert(y % 4 == r % 4 && y % 100 == r % 100);
    if r == 0 {
        assert(a % 400 == 399 && a / 400 == q - 1);
    } else {
        assert(a % 400 == r - 1 && a / 400 == q);
        assert(r % 100 == 0 ==> r == 100 || r == 200 || r == 300);
    }
}

// ---------------------------------------------------------------------------
// Timestamps sort as texts
// ---------------------------------------------------------------------------

/// The value of the digit at `i`.
pub open spec fn digit_at(ts: Seq<char>, i: int) -> int {
    ts[i] as int - 0x30
}

/// The two digits from `i` on.
pub open spec fn two_at(ts: Seq<char>, i: int) -> int {
    10 * digit_at(ts, i) + digit_at(ts, i + 1)
}

/// The year that a timestamp begins with.
pub open spec fn year_of(ts: Seq<char>) -> int {
    100 * two_at(ts, 0) + two_at(ts, 2)
}

/// Whether a timestamp has a separator, not a digit, at `i`.
pub open spec fn is_mark(i: int) -> bool {
    i == 4 || i == 7 || i == 10 || i == 13 || i == 16 || i == 19
}

/// A timestamp `YYYY-MM-DDThh:mm:ssZ` of a day that exists and a time of day.
pub open spec fn is_timestamp(ts: Seq<char>) -> bool {
    &&& ts.len() == 20
    &&& forall|i: int| 0 <= i < 20 && !is_mark(i) ==> is_ascii_digit(#[trigger] ts[i])
    &&& ts[4] == '-' && ts[7] == '-' && ts[10] == 'T' && ts[13] == ':' && ts[16] == ':' && ts[19]
        == 'Z'
    &&& 1 <= two_at(ts, 5) <= 12
    &&& 1 <= two_at(ts, 8) <= days_in_month(year_of(ts), two_at(ts, 5))
    &&& two_at(ts, 11) < 24 && two_at(ts, 14) < 60 && two_at(ts, 17) < 60
}

/// A field of two digits.
proof fn lemma_two(b: Seq<u8>, ts: Seq<char>, lo: int)
    requires
        0 <= lo,
        lo + 2 <= ts.len() == b.len(),
        forall|i: int| 0 <= i < ts.len() ==> #[trigger] b[i] as char == ts[i],
        is_ascii_digit(ts[lo]),
        is_ascii_digit(ts[lo + 1]),
    ensures
        field(b, lo, lo + 2) == Some(two_at(ts, lo) as i64),
        0 <= two_at(ts, lo) <= 99,
{
    let f = Seq::new(2, |k: int| b[lo + k] as char);
    assert(f =~= seq![ts[lo], ts[lo + 1]]);
    assert(all_digits(f));
    assert(f.drop_last() =~= seq![ts[lo]]);
    assert(f.drop_last().drop_last() =~= Seq::<char>::empty());
    reveal_with_fuel(digits_value, 3);
    assert(digits_value(f) == two_at(ts, lo));
}

/// The field of the year.
proof fn lemma_year(b: Seq<u8>, ts: Seq<char>)
    requires
        4 <= ts.len() == b.len(),
        forall|i: int| 0 <= i < ts.len() ==> #[trigger] b[i] as char == ts[i],
        forall|i: int| 0 <= i < 4 ==> is_ascii_digit(#[trigger] ts[i]),
    ensures
        field(b, 0, 4) == Some(year_of(ts) as i64),
        0 <= year_of(ts) <= 9999,
{
    let f = Seq::new(4, |k: int| b[0 + k] as char);
    assert(f =~= seq![ts[0], ts[1], ts[2], ts[3]]);
    assert(all_digits(f));
    let f3 = f.drop_last();
    let f2 = f3.drop_last();
    let f1 = f2.drop_last();
    assert(f3 =~= seq![ts[0], ts[1], ts[2]]);
    assert(f2 =~= seq![ts[0], ts[1]]);
    assert(f1 =~= seq![ts[0]]);
    assert(f1.drop_last() =~= Seq::<char>::empty());
    reveal_with_fuel(digits_value, 5);
    assert(digits_value(f) == year_of(ts));
}

/// What a timestamp stands for.
proof fn lemma_timestamp(ts: Seq<char>)
    requires
        is_timestamp(ts),
    ensures
        iso_seconds(ts) == Some(
            epoch_seconds(
                year_of(ts),
                two_at(ts, 5),
                two_at(ts, 8),
                two_at(ts, 11),
                two_at(ts, 14),
                two_at(ts, 17),
            ),
        ),
        0 <= two_at(ts, 11),
        0 <= two_at(ts, 14),
        0 <= two_at(ts, 17),
{
    let b = encode_utf8(ts);
    assert forall|i: int| 0 <= i < ts.len() implies '\0' <= #[trigger] ts[i] <= '\u{7f}' by {
        if !is_mark(i) {
            assert(is_ascii_digit(ts[i]));
        }
    }
    assert(is_ascii_chars(ts));
    is_ascii_chars_encode_utf8(ts);
    assert forall|i: int| 0 <= i < ts.len() implies #[trigger] b[i] as char == ts[i] by {
        assert('\0' <= ts[i] <= '\u{7f}');
        assert(ts[i] as u8 == b[i]);
    }
    lemma_year(b, ts);
    lemma_two(b, ts, 5);
    lemma_two(b, ts, 8);
    lemma_two(b, ts, 11);
    lemma_two(b, ts, 14);
    lemma_two(b, ts, 17);
}

/// A day of a month comes before the first of the next.
proof fn lemma_day_in_month(y: int, mo: int, d: int)
    ensures
        day_number(y, mo, d) == day_number(y, mo, 1) + d - 1,
{
}

/// The first of a month comes after the first of every earlier month.
proof fn lemma_months_ascend(y: int, a: int, b: int)
    requires
        1 <= a < b <= 12,
    ensures
        day_number(y, a, 1) + days_in_month(y, a) <= day_number(y, b, 1),
    decreases b - a,
{
    day_numbers_count_days(y, b - 1, 1);
    if a < b - 1 {
        lemma_months_ascend(y, a, b - 1);
    }
}

/// A year begins after every day of the years before.
proof fn lemma_years_ascend(a: int, b: int, mo: int, d: int)
    requires
        a < b,
        1 <= mo <= 12,
        1 <= d <= days_in_month(a, mo),
    ensures
        day_number(a, mo, d) < day_number(b, 1, 1),
    decreases b - a,
{
    if a + 1 < b {
        lemma_years_ascend(a, b - 1, mo, d);
        lemma_months_ascend(b - 1, 1, 12);
    } else {
        lemma_day_in_month(a, mo, d);
        if mo < 12 {
            lemma_months_ascend(a, mo, 12);
        }
    }
    day_numbers_count_days(b - 1, 12, 1);
}

/// Dates are numbered in the order of year, month and day.
pub proof fn day_numbers_ascend(y1: int, mo1: int, d1: int, y2: int, mo2: int, d2: int)
    requires
        1 <= mo1 <= 12,
        1 <= d1 <= days_in_month(y1, mo1),
        1 <= mo2 <= 12,
        1 <= d2 <= days_in_month(y2, mo2),
        y1 < y2 || (y1 == y2 && (mo1 < mo2 || (mo1 == mo2 && d1 < d2))),
    ensures
        day_number(y1, mo1, d1) < day_number(y2, mo2, d2),
{
    lemma_day_in_month(y1, mo1, d1);
    lemma_day_in_month(y2, mo2, d2);
    if y1 < y2 {
        lemma_years_ascend(y1, y2, mo1, d1);
        if mo2 > 1 {
            lemma_months_ascend(y2, 1, mo2);
        }
    } else if mo1 < mo2 {
        lemma_months_ascend(y1, mo1, mo2);
    }
}

/// The first place at which two texts of one length differ.
proof fn lemma_first_difference(a: Seq<char>, b: Seq<char>) -> (p: int)
    requires
        a.len() == b.len(),
        a != b,
        text_le(a, b),
    ensures
        0 <= p < a.len(),
        a[p] < b[p],
        forall|i: int| 0 <= i < p ==> #[trigger] a[i] == b[i],
    decreases a.len(),
{
    if a.len() == 0 {
        assert(a =~= b);
        0
    } else if a[0] != b[0] {
        0
    } else {
        let (x, y) = (a.drop_first(), b.drop_first());
        if x == y {
            assert(a =~= seq![a[0]] + x);
            assert(b =~= seq![b[0]] + y);
        }
        let q = lemma_first_difference(x, y);
        assert forall|i: int| 0 <= i < q + 1 implies #[trigger] a[i] == b[i] by {
            if i > 0 {
                assert(x[i - 1] == y[i - 1]);
            }
        }
        assert(x[q] == a[q + 1] && y[q] == b[q + 1]);
        q + 1
    }
}

/// The earlier of two timestamps as texts is the earlier one in time.
#[verifier::spinoff_prover]
proof fn lemma_earlier_text(a: Seq<char>, b: Seq<char>)
    requires
        is_timestamp(a),
        is_timestamp(b),
        a != b,
        text_le(a, b),
    ensures
        iso_seconds(a)->0 < iso_seconds(b)->0,
{
    lemma_timestamp(a);
    lemma_timestamp(b);
    let p = lemma_first_difference(a, b);
    assert(!is_mark(p));
    assert forall|i: int| 0 <= i < 20 && !is_mark(i) implies 0 <= #[trigger] digit_at(a, i) <= 9
        && 0 <= digit_at(b, i) <= 9 by {
        assert(is_ascii_digit(a[i]) && is_ascii_digit(b[i]));
    }
    assert(digit_at(a, p) < digit_at(b, p));
    assert forall|i: int| 0 <= i < p implies #[trigger] digit_at(a, i) == digit_at(b, i) by {
        assert(a[i] == b[i]);
    }
    let (y1, mo1, d1) = (year_of(a), two_at(a, 5), two_at(a, 8));
    let (y2, mo2, d2) = (year_of(b), two_at(b, 5), two_at(b, 8));
    if p < 4 {
        assert(y1 < y2) by {
            assert(0 <= digit_at(a, 1) <= 9 && 0 <= digit_at(a, 2) <= 9 && 0 <= digit_at(a, 3) <= 9);
            assert(0 <= digit_at(b, 1) <= 9 && 0 <= digit_at(b, 2) <= 9 && 0 <= digit_at(b, 3) <= 9);
        }
    } else {
        assert(y1 == y2) by {
            assert(digit_at(a, 0) == digit_at(b, 0) && digit_at(a, 1) == digit_at(b, 1));
            assert(digit_at(a, 2) == digit_at(b, 2) && digit_at(a, 3) == digit_at(b, 3));
        }
        if p < 7 {
            assert(mo1 < mo2) by {
                assert(0 <= digit_at(a, 6) <= 9 && 0 <= digit_at(b, 6) <= 9);
            }
        } else {
            assert(mo1 == mo2) by {
                assert(digit_at(a, 5) == digit_at(b, 5) && digit_at(a, 6) == digit_at(b, 6));
            }
            if p < 10 {
                assert(d1 < d2) by {
                    assert(0 <= digit_at(a, 9) <= 9 && 0 <= digit_at(b, 9) <= 9);
                }
            } else {
                assert(d1 == d2) by {
                    assert(digit_at(a, 8) == digit_at(b, 8) && digit_at(a, 9) == digit_at(b, 9));
                }
                assert(0 <= digit_at(a, 12) <= 9 && 0 <= digit_at(b, 12) <= 9);
                assert(0 <= digit_at(a, 15) <= 9 && 0 <= digit_at(b, 15) <= 9);
                assert(0 <= digit_at(a, 18) <= 9 && 0 <= digit_at(b, 18) <= 9);
                if p >= 13 {
                    assert(digit_at(a, 11) == digit_at(b, 11) && digit_at(a, 12) == digit_at(b, 12));
                }
                if p >= 16 {
                    assert(digit_at(a, 14) == digit_at(b, 14) && digit_at(a, 15) == digit_at(b, 15));
                }
            }
        }
    }
    if p < 10 {
        day_numbers_ascend(y1, mo1, d1, y2, mo2, d2);
    }
}

/// Timestamps sort as texts in the order of time: of two timestamps the one that
/// comes first in the order of their bytes is the earlier one.
pub proof fn timestamps_sort_by_time(a: Seq<char>, b: Seq<char>)
    requires
        is_timestamp(a),
        is_timestamp(b),
    ensures
        iso_seconds(a) is Some && iso_seconds(b) is Some,
        (text_le(a, b) && a != b) <==> iso_seconds(a)->0 < iso_seconds(b)->0,
        a == b <==> iso_seconds(a) == iso_seconds(b),
{
    lemma_timestamp(a);
    lemma_timestamp(b);
    lemma_text_le_total(a, b);
    if a != b {
        if text_le(a, b) {
            lemma_earlier_text(a, b);
        } else {
            lemma_earlier_text(b, a);
        }
    }
}

/// A timestamp is read as the seconds from the beginning of 1970 to its day and into
/// the day.
pub proof fn a_timestamp_is_its_seconds_since_1970(ts: Seq<char>)
    requires
        is_timestamp(ts),
    ensures
        iso_seconds(ts) == Some(
            86_400 * day_number(year_of(ts), two_at(ts, 5), two_at(ts, 8)) + 3_600 * two_at(ts, 11)
                + 60 * two_at(ts, 14) + two_at(ts, 17),
        ),
{
    lemma_timestamp(ts);
}

/// Only the first nineteen bytes of a timestamp count, and fewer are none.
pub proof fn only_the_first_nineteen_bytes_count(ts: Seq<char>, more: Seq<char>)
    ensures
        encode_utf8(ts).len() >= 19 ==> iso_seconds(ts + more) == iso_seconds(ts),
        encode_utf8(ts).len() < 19 ==> iso_seconds(ts) is None,
{
    lemma_encode_both(ts, more);
    let (a, b) = (encode_utf8(ts), encode_utf8(ts + more));
    if a.len() >= 19 {
        lemma_same_field(a, b, 0, 4);
        lemma_same_field(a, b, 5, 7);
        lemma_same_field(a, b, 8, 10);
        lemma_same_field(a, b, 11, 13);
        lemma_same_field(a, b, 14, 16);
        lemma_same_field(a, b, 17, 19);
    }
}

/// A field is read from its own bytes.
proof fn lemma_same_field(a: Seq<u8>, b: Seq<u8>, lo: int, hi: int)
    requires
        0 <= lo <= hi <= a.len(),
        a.is_prefix_of(b),
    ensures
        field(a, lo, hi) == field(b, lo, hi),
{
    assert forall|k: int| 0 <= k < hi - lo implies #[trigger] a[lo + k] == b[lo + k] by {}
    assert(Seq::new((hi - lo) as nat, |k: int| a[lo + k] as char) =~= Seq::new(
        (hi - lo) as nat,
        |k: int| b[lo + k] as char,
    ));
}

/// A timestamp without a number at one of its six fields is not read.
pub proof fn a_timestamp_has_six_numbers(ts: Seq<char>)
    ensures
        ({
            let b = encode_utf8(ts);
            iso_seconds(ts) is Some <==> b.len() >= 19 && field(b, 0, 4) is Some && field(b, 5, 7)
                is Some && field(b, 8, 10) is Some && field(b, 11, 13) is Some && field(b, 14, 16)
                is Some && field(b, 17, 19) is Some
        }),
{
}

} // verus!
