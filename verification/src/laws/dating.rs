//! Laws of dates and of how times are written.

use crate::calendar::{
    date_of, date_time_text, day_number, day_of_year, iso8601_text, leap, month_and_day,
    month_length, months_length, padded_text, valid_date, year_length, year_of, years_length,
};
use crate::laws::numerals::{law_padded_reads_back, number_of};
use crate::text::{bytes_le, decimal, digit, lemma_text_le_total, padded, text_le};
use vstd::arithmetic::div_mod::lemma_fundamental_div_mod_converse;
use vstd::prelude::*;
use vstd::utf8::{encode_utf8, is_ascii_chars, is_ascii_chars_encode_utf8};

verus! {

proof fn lemma_years_from_front(year: int, count: int)
    requires
        0 <= count,
    ensures
        years_length(year, count + 1) == year_length(year) + years_length(year + 1, count),
    decreases count,
{
    if count > 0 {
        lemma_years_from_front(year, count - 1);
    } else {
        assert(years_length(year, 0) == 0);
    }
}

proof fn lemma_year_of(days: int, year: int)
    requires
        0 <= days,
    ensures
        year <= year_of(days, year),
        0 <= day_of_year(days, year) < year_length(year_of(days, year)),
        years_length(year, year_of(days, year) - year) + day_of_year(days, year) == days,
    decreases days,
{
    if days >= year_length(year) {
        lemma_year_of(days - year_length(year), year + 1);
        lemma_years_from_front(year, year_of(days, year) - year - 1);
    }
}

proof fn lemma_whole_year(year: int)
    ensures
        months_length(year, 13) == year_length(year),
        months_length(year, 12) + 31 == year_length(year),
{
    reveal_with_fuel(months_length, 14);
}

proof fn lemma_month_and_day(days: int, year: int, month: int)
    requires
        1 <= month <= 12,
        0 <= days,
        months_length(year, month) + days < year_length(year),
    ensures
        ({
            let (m, d) = month_and_day(days, year, month);
            &&& month <= m <= 12
            &&& 1 <= d <= month_length(year, m)
            &&& months_length(year, m) + d - 1 == months_length(year, month) + days
        }),
    decreases 12 - month,
{
    lemma_whole_year(year);
    if month < 12 && days >= month_length(year, month) {
        lemma_month_and_day(days - month_length(year, month), year, month + 1);
    }
}

/// Every day has a date, and the date tells which day it is.
pub proof fn law_date_names_day(days: int)
    requires
        0 <= days,
    ensures
        ({
            let (year, month, day) = date_of(days);
            &&& valid_date(year, month, day)
            &&& day_number(year, month, day) == days
        }),
{
    lemma_year_of(days, 1970);
    lemma_month_and_day(day_of_year(days, 1970), year_of(days, 1970), 1);
}

proof fn lemma_years_grow(year: int, count: int, more: int)
    requires
        0 <= count <= more,
    ensures
        years_length(year, count) <= years_length(year, more),
    decreases more,
{
    if count < more {
        lemma_years_grow(year, count, more - 1);
    }
}

proof fn lemma_months_grow(year: int, month: int, later: int)
    requires
        1 <= month <= later,
    ensures
        months_length(year, month) <= months_length(year, later),
    decreases later,
{
    if month < later {
        lemma_months_grow(year, month, later - 1);
    }
}

/// Whether one date comes before another.
pub open spec fn date_before(a: (int, int, int), b: (int, int, int)) -> bool {
    ||| a.0 < b.0
    ||| a.0 == b.0 && a.1 < b.1
    ||| a.0 == b.0 && a.1 == b.1 && a.2 < b.2
}

/// A date that comes before another names an earlier day.
pub proof fn law_dates_in_order(a: (int, int, int), b: (int, int, int))
    requires
        valid_date(a.0, a.1, a.2),
        valid_date(b.0, b.1, b.2),
        date_before(a, b),
    ensures
        day_number(a.0, a.1, a.2) < day_number(b.0, b.1, b.2),
{
    lemma_whole_year(a.0);
    lemma_months_grow(a.0, a.1 + 1, 13);
    lemma_months_grow(b.0, 1, b.1);
    if a.0 < b.0 {
        lemma_years_grow(1970, a.0 - 1970 + 1, b.0 - 1970);
    } else if a.1 < b.1 {
        lemma_months_grow(a.0, a.1 + 1, b.1);
    }
}

/// Every date is the date of the day that it names.
pub proof fn law_day_has_one_date(year: int, month: int, day: int)
    requires
        valid_date(year, month, day),
    ensures
        date_of(day_number(year, month, day)) == (year, month, day),
{
    let days = day_number(year, month, day);
    lemma_years_grow(1970, 0, year - 1970);
    lemma_months_grow(year, 1, month);
    law_date_names_day(days);
    let other = date_of(days);
    if date_before(other, (year, month, day)) {
        law_dates_in_order(other, (year, month, day));
    } else if date_before((year, month, day), other) {
        law_dates_in_order((year, month, day), other);
    }
}

/// Ten to the power of `width`.
spec fn limit(width: nat) -> nat
    decreases width,
{
    if width == 0 {
        1
    } else {
        10 * limit((width - 1) as nat)
    }
}

/// A number with at most `width` digits, filled up, consists of the same without
/// its last digit, filled up to one less, and the last digit.
proof fn lemma_padded_step(n: nat, width: nat)
    requires
        n < limit(width),
        width > 1,
    ensures
        padded(n, width) == padded(n / 10, (width - 1) as nat).push(digit(n % 10)),
{
    lemma_decimal_len(n, width);
    if n < 10 {
        assert(n / 10 == 0);
        assert(decimal(0) =~= seq![digit(0)]);
        assert(padded(n, width) =~= padded(n / 10, (width - 1) as nat).push(digit(n % 10)));
    } else {
        assert(padded(n, width) =~= padded(n / 10, (width - 1) as nat).push(digit(n % 10)));
    }
}

proof fn lemma_decimal_len(n: nat, width: nat)
    requires
        n < limit(width),
        width > 0,
    ensures
        1 <= decimal(n).len() <= width,
    decreases width,
{
    if n >= 10 {
        if width == 1 {
            assert(limit(0) == 1);
        }
        lemma_decimal_len(n / 10, (width - 1) as nat);
    }
}

proof fn lemma_padded_len(n: nat, width: nat)
    requires
        n < limit(width),
        width > 0,
    ensures
        padded(n, width).len() == width,
{
    lemma_decimal_len(n, width);
}

proof fn lemma_decimal_digits(n: nat, i: int)
    requires
        0 <= i < decimal(n).len(),
    ensures
        '0' <= decimal(n)[i] <= '9',
    decreases n,
{
    if n >= 10 && i < decimal(n / 10).len() {
        lemma_decimal_digits(n / 10, i);
    }
}

proof fn lemma_padded_digits(n: nat, width: nat)
    ensures
        forall|i: int| 0 <= i < padded(n, width).len() ==> '0' <= #[trigger] padded(n, width)[i]
            <= '9',
{
    assert forall|i: int| 0 <= i < padded(n, width).len() implies '0' <= #[trigger] padded(
        n,
        width,
    )[i] <= '9' by {
        let digits = decimal(n);
        let zeros = if digits.len() < width {
            width - digits.len()
        } else {
            0
        };
        if i >= zeros {
            assert(padded(n, width)[i] == digits[i - zeros]);
            lemma_decimal_digits(n, i - zeros);
        }
    }
}

/// Whether two texts of the same length agree up to a place where the first has
/// the smaller character.
spec fn below(a: Seq<char>, b: Seq<char>) -> bool {
    &&& a.len() == b.len()
    &&& exists|i: int| 0 <= i < a.len() && #[trigger] differs_at(a, b, i)
}

/// Whether the texts agree before place `i`, and `a` has the smaller character there.
spec fn differs_at(a: Seq<char>, b: Seq<char>, i: int) -> bool {
    &&& a.take(i) == b.take(i)
    &&& a[i] < b[i]
}

/// Smaller numbers, filled up, come before greater ones.
proof fn lemma_padded_below(n: nat, m: nat, width: nat)
    requires
        n < m < limit(width),
        width > 0,
    ensures
        below(padded(n, width), padded(m, width)),
    decreases width,
{
    lemma_padded_len(n, width);
    lemma_padded_len(m, width);
    let a = padded(n, width);
    let b = padded(m, width);
    if width == 1 {
        assert(limit(0) == 1);
        assert(a =~= seq![digit(n)]);
        assert(b =~= seq![digit(m)]);
        assert(a.take(0) =~= b.take(0));
        assert(differs_at(a, b, 0));
    } else {
        lemma_padded_step(n, width);
        lemma_padded_step(m, width);
        let w = (width - 1) as nat;
        lemma_padded_len(n / 10, w);
        lemma_padded_len(m / 10, w);
        if n / 10 < m / 10 {
            lemma_padded_below(n / 10, m / 10, w);
            let i = choose|i: int|
                0 <= i < w && #[trigger] differs_at(padded(n / 10, w), padded(m / 10, w), i);
            assert(a.take(i) =~= padded(n / 10, w).take(i));
            assert(b.take(i) =~= padded(m / 10, w).take(i));
            assert(differs_at(a, b, i));
        } else {
            assert(n / 10 == m / 10);
            assert(n % 10 < m % 10);
            assert(a.take(w as int) =~= b.take(w as int));
            assert(differs_at(a, b, w as int));
        }
    }
}

/// Texts that start alike are ordered by what follows; texts that start
/// differently by their starts.
proof fn lemma_below_parts(
    before: Seq<char>,
    a: Seq<char>,
    b: Seq<char>,
    after_a: Seq<char>,
    after_b: Seq<char>,
)
    requires
        below(a, b),
        after_a.len() == after_b.len(),
    ensures
        below(before + a + after_a, before + b + after_b),
{
    let i = choose|i: int| 0 <= i < a.len() && #[trigger] differs_at(a, b, i);
    let x = before + a + after_a;
    let y = before + b + after_b;
    let k = before.len() + i;
    assert(x.take(k) =~= before + a.take(i));
    assert(y.take(k) =~= before + b.take(i));
    assert(differs_at(x, y, k));
}

proof fn lemma_bytes_le_at(a: Seq<u8>, b: Seq<u8>, i: int)
    requires
        0 <= i < a.len(),
        i < b.len(),
        a.take(i) == b.take(i),
        a[i] < b[i],
    ensures
        bytes_le(a, b),
    decreases i,
{
    if i > 0 {
        assert(a[0] == a.take(i)[0]);
        assert(b[0] == b.take(i)[0]);
        assert(a.drop_first().take(i - 1) =~= a.take(i).drop_first());
        assert(b.drop_first().take(i - 1) =~= b.take(i).drop_first());
        lemma_bytes_le_at(a.drop_first(), b.drop_first(), i - 1);
    }
}

proof fn lemma_below_is_before(a: Seq<char>, b: Seq<char>)
    requires
        below(a, b),
        is_ascii_chars(a),
        is_ascii_chars(b),
    ensures
        text_le(a, b),
{
    is_ascii_chars_encode_utf8(a);
    is_ascii_chars_encode_utf8(b);
    let i = choose|i: int| 0 <= i < a.len() && #[trigger] differs_at(a, b, i);
    let x = encode_utf8(a);
    let y = encode_utf8(b);
    assert forall|k: int| 0 <= k < i implies x[k] == y[k] by {
        assert(a.take(i)[k] == b.take(i)[k]);
        assert(a[k] == b[k]);
    }
    assert(x.take(i) =~= y.take(i));
    assert(0 <= a[i] as u32 <= 127);
    assert(0 <= b[i] as u32 <= 127);
    assert(x[i] == a[i] as u8);
    assert(y[i] == b[i] as u8);
    lemma_bytes_le_at(x, y, i);
}

/// Whether the year of the second `secs` has no more than four digits.
pub open spec fn four_digit_year(secs: nat) -> bool {
    date_of((secs / 86_400) as int).0 < 10_000
}

/// Date and time of day in one text.
spec fn stamp(
    year: int,
    month: int,
    day: int,
    hour: int,
    minute: int,
    second: int,
    between: char,
) -> Seq<char> {
    padded_text(year, 4) + seq!['-'] + padded_text(month, 2) + seq!['-'] + padded_text(day, 2)
        + seq![between] + padded_text(hour, 2) + seq![':'] + padded_text(minute, 2) + seq![':']
        + padded_text(second, 2)
}

proof fn lemma_limits()
    ensures
        limit(1) == 10,
        limit(2) == 100,
        limit(4) == 10_000,
{
    reveal_with_fuel(limit, 5);
}

/// The seconds of a day, as hour, minute and second.
proof fn lemma_time_of_day(secs: nat)
    ensures
        (secs / 3600) % 24 == (secs % 86_400) / 3600,
        (secs / 60) % 60 == (secs % 3600) / 60,
        secs % 86_400 == 3600 * ((secs / 3600) % 24) + 60 * ((secs / 60) % 60) + secs % 60,
        secs == 86_400 * (secs / 86_400) + secs % 86_400,
{
    let n = secs as int;
    let days = n / 86_400;
    let passed = n % 86_400;
    let hour = passed / 3600;
    let in_hour = passed % 3600;
    let minute = in_hour / 60;
    let second = in_hour % 60;
    assert(n == 86_400 * days + passed);
    assert(passed == 3600 * hour + in_hour);
    assert(in_hour == 60 * minute + second);
    assert(0 <= hour < 24 && 0 <= minute < 60 && 0 <= second < 60);
    lemma_fundamental_div_mod_converse(n, 3600, 24 * days + hour, in_hour);
    lemma_fundamental_div_mod_converse(24 * days + hour, 24, days, hour);
    lemma_fundamental_div_mod_converse(n, 60, 1440 * days + 60 * hour + minute, second);
    lemma_fundamental_div_mod_converse(
        1440 * days + 60 * hour + minute,
        60,
        24 * days + hour,
        minute,
    );
}

proof fn lemma_stamp_fields(
    year: int,
    month: int,
    day: int,
    hour: int,
    minute: int,
    second: int,
    between: char,
)
    requires
        0 <= year < 10_000,
        0 <= month < 100,
        0 <= day < 100,
        0 <= hour < 100,
        0 <= minute < 100,
        0 <= second < 100,
    ensures
        padded_text(year, 4).len() == 4,
        padded_text(month, 2).len() == 2,
        padded_text(day, 2).len() == 2,
        padded_text(hour, 2).len() == 2,
        padded_text(minute, 2).len() == 2,
        padded_text(second, 2).len() == 2,
        stamp(year, month, day, hour, minute, second, between).len() == 19,
        stamp(year, month, day, hour, minute, second, between)[4] == '-',
        stamp(year, month, day, hour, minute, second, between)[7] == '-',
        stamp(year, month, day, hour, minute, second, between)[10] == between,
        stamp(year, month, day, hour, minute, second, between)[13] == ':',
        stamp(year, month, day, hour, minute, second, between)[16] == ':',
{
    lemma_limits();
    lemma_padded_len(year as nat, 4);
    lemma_padded_len(month as nat, 2);
    lemma_padded_len(day as nat, 2);
    lemma_padded_len(hour as nat, 2);
    lemma_padded_len(minute as nat, 2);
    lemma_padded_len(second as nat, 2);
}

proof fn lemma_stamp_ascii(
    year: int,
    month: int,
    day: int,
    hour: int,
    minute: int,
    second: int,
)
    ensures
        is_ascii_chars(stamp(year, month, day, hour, minute, second, 'T')),
{
    lemma_padded_digits(year as nat, 4);
    lemma_padded_digits(month as nat, 2);
    lemma_padded_digits(day as nat, 2);
    lemma_padded_digits(hour as nat, 2);
    lemma_padded_digits(minute as nat, 2);
    lemma_padded_digits(second as nat, 2);
    let a = padded_text(year, 4) + seq!['-'];
    let b = a + padded_text(month, 2) + seq!['-'];
    let c = b + padded_text(day, 2) + seq!['T'];
    let d = c + padded_text(hour, 2) + seq![':'];
    let e = d + padded_text(minute, 2) + seq![':'];
    assert(is_ascii_chars(a));
    assert(is_ascii_chars(b));
    assert(is_ascii_chars(c));
    assert(is_ascii_chars(d));
    assert(is_ascii_chars(e));
}

/// A time in a year of four digits is written with twenty characters, with the
/// separators in their places.
pub proof fn law_written_time_shape(secs: nat)
    requires
        four_digit_year(secs),
    ensures
        iso8601_text(secs).len() == 20,
        iso8601_text(secs)[4] == '-',
        iso8601_text(secs)[7] == '-',
        iso8601_text(secs)[10] == 'T',
        iso8601_text(secs)[13] == ':',
        iso8601_text(secs)[16] == ':',
        iso8601_text(secs)[19] == 'Z',
        date_time_text(secs, ' ').len() == 19,
        date_time_text(secs, ' ')[10] == ' ',
{
    let days = (secs / 86_400) as int;
    law_date_names_day(days);
    let (year, month, day) = date_of(days);
    let hour = ((secs / 3600) % 24) as int;
    let minute = ((secs / 60) % 60) as int;
    let second = (secs % 60) as int;
    lemma_stamp_fields(year, month, day, hour, minute, second, 'T');
    lemma_stamp_fields(year, month, day, hour, minute, second, ' ');
    assert(date_time_text(secs, 'T') == stamp(year, month, day, hour, minute, second, 'T'));
    assert(date_time_text(secs, ' ') == stamp(year, month, day, hour, minute, second, ' '));
}

/// Stamps are ordered by the first field in which they differ.
#[verifier::rlimit(40)]
proof fn lemma_stamp_below(
    a: (int, int, int, int, int, int),
    b: (int, int, int, int, int, int),
    between: char,
)
    requires
        0 <= a.0 < 10_000,
        0 <= a.1 < 100,
        0 <= a.2 < 100,
        0 <= a.3 < 100,
        0 <= a.4 < 100,
        0 <= a.5 < 100,
        0 <= b.0 < 10_000,
        0 <= b.1 < 100,
        0 <= b.2 < 100,
        0 <= b.3 < 100,
        0 <= b.4 < 100,
        0 <= b.5 < 100,
        date_before((a.0, a.1, a.2), (b.0, b.1, b.2)) || ((a.0, a.1, a.2) == (b.0, b.1, b.2)
            && date_before((a.3, a.4, a.5), (b.3, b.4, b.5))),
    ensures
        below(
            stamp(a.0, a.1, a.2, a.3, a.4, a.5, between),
            stamp(b.0, b.1, b.2, b.3, b.4, b.5, between),
        ),
{
    let x = stamp(a.0, a.1, a.2, a.3, a.4, a.5, between);
    let y = stamp(b.0, b.1, b.2, b.3, b.4, b.5, between);
    lemma_limits();
    lemma_stamp_fields(a.0, a.1, a.2, a.3, a.4, a.5, between);
    lemma_stamp_fields(b.0, b.1, b.2, b.3, b.4, b.5, between);
    let (at, p, q): (int, Seq<char>, Seq<char>) = if a.0 != b.0 {
        lemma_padded_below(a.0 as nat, b.0 as nat, 4);
        (0, padded_text(a.0, 4), padded_text(b.0, 4))
    } else if a.1 != b.1 {
        lemma_padded_below(a.1 as nat, b.1 as nat, 2);
        (5, padded_text(a.1, 2), padded_text(b.1, 2))
    } else if a.2 != b.2 {
        lemma_padded_below(a.2 as nat, b.2 as nat, 2);
        (8, padded_text(a.2, 2), padded_text(b.2, 2))
    } else if a.3 != b.3 {
        lemma_padded_below(a.3 as nat, b.3 as nat, 2);
        (11, padded_text(a.3, 2), padded_text(b.3, 2))
    } else if a.4 != b.4 {
        lemma_padded_below(a.4 as nat, b.4 as nat, 2);
        (14, padded_text(a.4, 2), padded_text(b.4, 2))
    } else {
        lemma_padded_below(a.5 as nat, b.5 as nat, 2);
        (17, padded_text(a.5, 2), padded_text(b.5, 2))
    };
    let end = at + p.len();
    assert(x.take(at) =~= y.take(at));
    assert(x =~= x.take(at) + p + x.skip(end));
    assert(y =~= x.take(at) + q + y.skip(end));
    lemma_below_parts(x.take(at), p, q, x.skip(end), y.skip(end));
}

/// Times in years of four digits are ordered as texts as they are in time; so
/// sessions, which are ordered by the text, come in the order of their last change.
pub proof fn law_written_times_in_order(a: nat, b: nat)
    requires
        a <= b,
        four_digit_year(a),
        four_digit_year(b),
    ensures
        text_le(iso8601_text(a), iso8601_text(b)),
        a < b ==> iso8601_text(a) != iso8601_text(b),
{
    if a == b {
        lemma_text_le_total(iso8601_text(a), iso8601_text(b));
    } else {
        let days_a = (a / 86_400) as int;
        let days_b = (b / 86_400) as int;
        law_date_names_day(days_a);
        law_date_names_day(days_b);
        let (ya, ma, da) = date_of(days_a);
        let (yb, mb, db) = date_of(days_b);
        let x = (
            ya,
            ma,
            da,
            ((a / 3600) % 24) as int,
            ((a / 60) % 60) as int,
            (a % 60) as int,
        );
        let y = (
            yb,
            mb,
            db,
            ((b / 3600) % 24) as int,
            ((b / 60) % 60) as int,
            (b % 60) as int,
        );
        lemma_time_of_day(a);
        lemma_time_of_day(b);
        if days_a < days_b {
            if !date_before((ya, ma, da), (yb, mb, db)) {
                if (ya, ma, da) != (yb, mb, db) {
                    law_dates_in_order((yb, mb, db), (ya, ma, da));
                }
            }
        }
        lemma_stamp_below(x, y, 'T');
        let s = stamp(x.0, x.1, x.2, x.3, x.4, x.5, 'T');
        let t = stamp(y.0, y.1, y.2, y.3, y.4, y.5, 'T');
        assert(date_time_text(a, 'T') == s);
        assert(date_time_text(b, 'T') == t);
        lemma_below_parts(Seq::empty(), s, t, seq!['Z'], seq!['Z']);
        assert(iso8601_text(a) =~= Seq::<char>::empty() + s + seq!['Z']);
        assert(iso8601_text(b) =~= Seq::<char>::empty() + t + seq!['Z']);
        lemma_stamp_ascii(x.0, x.1, x.2, x.3, x.4, x.5);
        lemma_stamp_ascii(y.0, y.1, y.2, y.3, y.4, y.5);
        lemma_below_is_before(iso8601_text(a), iso8601_text(b));
    }
}

/// A year has a leap day if four divides it, but hundred only if four hundred does.
pub proof fn law_leap_years(year: int)
    ensures
        year % 4 != 0 ==> !leap(year),
        year % 4 == 0 && year % 100 != 0 ==> leap(year),
        year % 100 == 0 ==> (leap(year) <==> year % 400 == 0),
{
}

/// Days are counted from 1 January 1970, and each has the date that follows the date
/// of the day before in the Gregorian calendar.
pub proof fn law_next_day(days: int)
    requires
        0 <= days,
    ensures
        date_of(0) == (1970int, 1int, 1int),
        ({
            let (year, month, day) = date_of(days);
            let length: int = if month == 2 {
                if (year % 4 == 0 && year % 100 != 0) || year % 400 == 0 {
                    29
                } else {
                    28
                }
            } else if month == 4 || month == 6 || month == 9 || month == 11 {
                30
            } else {
                31
            };
            date_of(days + 1) == if day < length {
                (year, month, day + 1)
            } else if month < 12 {
                (year, month + 1, 1int)
            } else {
                (year + 1, 1int, 1int)
            }
        }),
{
    let (year, month, day) = date_of(days);
    law_date_names_day(days);
    lemma_whole_year(year);
    if day < month_length(year, month) {
        law_day_has_one_date(year, month, day + 1);
    } else if month < 12 {
        law_day_has_one_date(year, month + 1, 1);
    } else {
        law_day_has_one_date(year + 1, 1, 1);
    }
    law_day_has_one_date(1970, 1, 1);
    assert(years_length(1970, 0) == 0);
}

/// A written time can be read: the digits before the first hyphen give the year, and
/// the others the month, the day, the hour, the minute and the second, of the date of
/// the day and of the time that has passed of it.
pub proof fn law_written_time_reads_back(secs: nat, between: char)
    ensures
        ({
            let text = date_time_text(secs, between);
            let w = text.len() - 15;
            let (year, month, day) = date_of((secs / 86_400) as int);
            let passed = secs % 86_400;
            &&& w >= 4
            &&& number_of(text.subrange(0, w)) == year
            &&& text[w] == '-'
            &&& number_of(text.subrange(w + 1, w + 3)) == month
            &&& text[w + 3] == '-'
            &&& number_of(text.subrange(w + 4, w + 6)) == day
            &&& text[w + 6] == between
            &&& number_of(text.subrange(w + 7, w + 9)) == passed / 3600
            &&& text[w + 9] == ':'
            &&& number_of(text.subrange(w + 10, w + 12)) == passed % 3600 / 60
            &&& text[w + 12] == ':'
            &&& number_of(text.subrange(w + 13, w + 15)) == passed % 60
            &&& w > 4 ==> year >= 10_000
            &&& iso8601_text(secs) == date_time_text(secs, 'T') + seq!['Z']
        }),
{
    let text = date_time_text(secs, between);
    let days = (secs / 86_400) as int;
    law_date_names_day(days);
    let (year, month, day) = date_of(days);
    let hour = ((secs / 3600) % 24) as int;
    let minute = ((secs / 60) % 60) as int;
    let second = (secs % 60) as int;
    let passed = secs % 86_400;
    lemma_time_of_day(secs);
    assert(hour == passed / 3600);
    assert(minute == passed % 3600 / 60);
    assert(second == passed % 60);
    lemma_limits();
    law_padded_reads_back(year as nat, 4);
    law_padded_reads_back(month as nat, 2);
    law_padded_reads_back(day as nat, 2);
    law_padded_reads_back(hour as nat, 2);
    law_padded_reads_back(minute as nat, 2);
    law_padded_reads_back(second as nat, 2);
    lemma_padded_len(month as nat, 2);
    lemma_padded_len(day as nat, 2);
    lemma_padded_len(hour as nat, 2);
    lemma_padded_len(minute as nat, 2);
    lemma_padded_len(second as nat, 2);
    let w = padded_text(year, 4).len() as int;
    if year < 10_000 {
        lemma_padded_len(year as nat, 4);
    }
    assert(text == stamp(year, month, day, hour, minute, second, between));
    assert(text.len() == w + 15);
    assert(text.subrange(0, w) =~= padded_text(year, 4));
    assert(text.subrange(w + 1, w + 3) =~= padded_text(month, 2));
    assert(text.subrange(w + 4, w + 6) =~= padded_text(day, 2));
    assert(text.subrange(w + 7, w + 9) =~= padded_text(hour, 2));
    assert(text.subrange(w + 10, w + 12) =~= padded_text(minute, 2));
    assert(text.subrange(w + 13, w + 15) =~= padded_text(second, 2));
    assert(iso8601_text(secs) =~= date_time_text(secs, 'T') + seq!['Z']);
}

} // verus!
