//! Calendar arithmetic for report timestamps: seconds since the Unix epoch
//! to a UTC date and time, and the text forms the report uses.

use vstd::prelude::*;
use vstd::string::StrSliceExecFns;
use vstd::string::StringExecFns;

verus! {

// ── Calendar ─────────────────────────────────────────────────────────────────

/// Gregorian leap years.
pub open spec fn leap_year(y: int) -> bool {
    (y % 4 == 0 && y % 100 != 0) || y % 400 == 0
}

pub open spec fn days_in_year(y: int) -> int {
    if leap_year(y) {
        366
    } else {
        365
    }
}

/// The number of days from 1 January 1970 to 1 January of year `y`.
pub open spec fn days_before_year(y: int) -> int
    decreases y - 1970,
{
    if y <= 1970 {
        0
    } else {
        days_before_year(y - 1) + days_in_year(y - 1)
    }
}

/// The length of month `m` (1 to 12) of year `y`.
pub open spec fn days_in_month(y: int, m: int) -> int {
    if m == 2 {
        if leap_year(y) {
            29
        } else {
            28
        }
    } else if m == 4 || m == 6 || m == 9 || m == 11 {
        30
    } else {
        31
    }
}

/// The number of days in year `y` before month `m` starts.
pub open spec fn days_before_month(y: int, m: int) -> int
    decreases m,
{
    if m <= 1 {
        0
    } else {
        days_before_month(y, m - 1) + days_in_month(y, m - 1)
    }
}

/// `(year, month, day)` is the date that lies `days` days after
/// 1 January 1970.
pub open spec fn is_date_of_day(days: int, year: int, month: int, day: int) -> bool {
    &&& year >= 1970
    &&& 1 <= month <= 12
    &&& 1 <= day <= days_in_month(year, month)
    &&& days == days_before_year(year) + days_before_month(year, month) + day - 1
}

pub proof fn lemma_days_in_year_is_sum_of_months(y: int)
    ensures
        days_before_month(y, 13) == days_in_year(y),
{
    reveal_with_fuel(days_before_month, 13);
}

/// The months of the Gregorian calendar: April, June, September and
/// November have 30 days, February 29 in a leap year and 28 otherwise, and
/// every other month 31.
pub proof fn law_month_lengths(y: int)
    ensures
        days_in_month(y, 1) == 31,
        days_in_month(y, 2) == (if leap_year(y) {
            29int
        } else {
            28int
        }),
        days_in_month(y, 3) == 31,
        days_in_month(y, 4) == 30,
        days_in_month(y, 5) == 31,
        days_in_month(y, 6) == 30,
        days_in_month(y, 7) == 31,
        days_in_month(y, 8) == 31,
        days_in_month(y, 9) == 30,
        days_in_month(y, 10) == 31,
        days_in_month(y, 11) == 30,
        days_in_month(y, 12) == 31,
{
}

pub fn is_leap(y: u64) -> (r: bool)
    ensures
        r == leap_year(y as int),
{
    (y % 4 == 0 && y % 100 != 0) || y % 400 == 0
}

fn month_length(y: u64, m: u64) -> (r: u64)
    requires
        1 <= m <= 12,
    ensures
        r == days_in_month(y as int, m as int),
{
    if m == 2 {
        if is_leap(y) {
            29
        } else {
            28
        }
    } else if m == 4 || m == 6 || m == 9 || m == 11 {
        30
    } else {
        31
    }
}

/// The date that lies `days` days after 1 January 1970.
pub fn days_to_ymd(days: u64) -> (r: (u64, u64, u64))
    ensures
        is_date_of_day(days as int, r.0 as int, r.1 as int, r.2 as int),
{
    let mut rest = days;
    let mut year: u64 = 1970;
    loop
        invariant
            year >= 1970,
            rest <= days,
            days == days_before_year(year as int) + rest,
            days_before_year(year as int) >= 365 * (year - 1970),
        ensures
            year >= 1970,
            days == days_before_year(year as int) + rest,
            rest < days_in_year(year as int),
        decreases rest,
    {
        let dy: u64 = if is_leap(year) {
            366
        } else {
            365
        };
        if rest < dy {
            break;
        }
        rest = rest - dy;
        year = year + 1;
    }
    proof {
        lemma_days_in_year_is_sum_of_months(year as int);
        assert(rest < days_in_year(year as int));
    }
    let mut month: u64 = 1;
    loop
        invariant
            1 <= month <= 12,
            rest < days_in_year(year as int) - days_before_month(year as int, month as int),
            days == days_before_year(year as int) + days_before_month(year as int, month as int)
                + rest,
            days_before_month(year as int, 13) == days_in_year(year as int),
        ensures
            1 <= month <= 12,
            days == days_before_year(year as int) + days_before_month(year as int, month as int)
                + rest,
            rest < days_in_month(year as int, month as int),
        decreases 12 - month,
    {
        let dm = month_length(year, month);
        if rest < dm {
            break;
        }
        rest = rest - dm;
        proof {
            if month == 12 {
                assert(days_before_month(year as int, 13) == days_before_month(year as int, 12)
                    + days_in_month(year as int, 12));
            }
        }
        month = month + 1;
    }
    (year, month, rest + 1)
}

/// The date and time of `secs` seconds after the epoch:
/// `(year, month, day, hour, minute, second)`.
pub fn secs_to_parts(secs: u64) -> (r: (u64, u64, u64, u64, u64, u64))
    ensures
        is_date_of_day(secs as int / 86400, r.0 as int, r.1 as int, r.2 as int),
        r.3 == (secs / 3600) % 24,
        r.4 == (secs / 60) % 60,
        r.5 == secs % 60,
{
    let sec = secs % 60;
    let min = (secs / 60) % 60;
    let hour = (secs / 3600) % 24;
    let days = secs / 86400;
    let (year, month, day) = days_to_ymd(days);
    (year, month, day, hour, min, sec)
}

/// Years before `y` take at least as many days as the years from `x` on.
pub proof fn lemma_days_before_year_step(x: int, y: int)
    requires
        1970 <= x < y,
    ensures
        days_before_year(x) + days_in_year(x) <= days_before_year(y),
    decreases y - x,
{
    if x + 1 < y {
        lemma_days_before_year_step(x, y - 1);
    }
}

pub proof fn lemma_days_before_month_step(y: int, a: int, b: int)
    requires
        1 <= a < b <= 13,
    ensures
        days_before_month(y, a) + days_in_month(y, a) <= days_before_month(y, b),
    decreases b - a,
{
    if a + 1 < b {
        lemma_days_before_month_step(y, a, b - 1);
    }
}

/// Each day since the epoch has exactly one date.
pub proof fn law_date_of_day_unique(days: int, y1: int, m1: int, d1: int, y2: int, m2: int, d2: int)
    requires
        is_date_of_day(days, y1, m1, d1),
        is_date_of_day(days, y2, m2, d2),
    ensures
        y1 == y2 && m1 == m2 && d1 == d2,
{
    lemma_days_in_year_is_sum_of_months(y1);
    lemma_days_in_year_is_sum_of_months(y2);
    lemma_days_before_month_step(y1, m1, 13);
    lemma_days_before_month_step(y2, m2, 13);
    if m1 > 1 {
        lemma_days_before_month_step(y1, 1, m1);
    }
    if m2 > 1 {
        lemma_days_before_month_step(y2, 1, m2);
    }
    assert(days_before_month(y1, m1) + days_in_month(y1, m1) <= days_before_month(y1, 13));
    assert(days < days_before_year(y1) + days_in_year(y1));
    assert(days < days_before_year(y2) + days_in_year(y2));
    if y1 < y2 {
        lemma_days_before_year_step(y1, y2);
    } else if y2 < y1 {
        lemma_days_before_year_step(y2, y1);
    } else {
        if m1 < m2 {
            lemma_days_before_month_step(y1, m1, m2);
        } else if m2 < m1 {
            lemma_days_before_month_step(y1, m2, m1);
        }
    }
}

/// The date of day `days` after the epoch, as `(year, month, day)`.
pub open spec fn date_of_day(days: int) -> (int, int, int) {
    choose|t: (int, int, int)| is_date_of_day(days, t.0, t.1, t.2)
}

pub proof fn lemma_date_of_day(days: int, y: int, m: int, d: int)
    requires
        is_date_of_day(days, y, m, d),
    ensures
        date_of_day(days) == (y, m, d),
{
    let t = date_of_day(days);
    assert(is_date_of_day(days, (y, m, d).0, (y, m, d).1, (y, m, d).2));
    law_date_of_day_unique(days, y, m, d, t.0, t.1, t.2);
}

// ── Text forms ───────────────────────────────────────────────────────────────

pub open spec fn digit_char(d: int) -> char {
    if d == 0 {
        '0'
    } else if d == 1 {
        '1'
    } else if d == 2 {
        '2'
    } else if d == 3 {
        '3'
    } else if d == 4 {
        '4'
    } else if d == 5 {
        '5'
    } else if d == 6 {
        '6'
    } else if d == 7 {
        '7'
    } else if d == 8 {
        '8'
    } else {
        '9'
    }
}

/// The decimal digits of `v`, without leading zeros.
pub open spec fn decimal(v: nat) -> Seq<char>
    decreases v,
{
    if v < 10 {
        seq![digit_char(v as int)]
    } else {
        decimal(v / 10).push(digit_char((v % 10) as int))
    }
}

/// The decimal digits of `v`, left-padded with zeros to `width` characters.
pub open spec fn padded_decimal(v: nat, width: nat) -> Seq<char> {
    let d = decimal(v);
    if d.len() < width {
        Seq::new((width - d.len()) as nat, |i: int| '0') + d
    } else {
        d
    }
}

pub open spec fn pow10(k: nat) -> nat
    decreases k,
{
    if k == 0 {
        1
    } else {
        10 * pow10((k - 1) as nat)
    }
}

/// A number below `10^k` has at most `k` digits.
pub proof fn lemma_decimal_len(v: nat, k: nat)
    requires
        1 <= k,
        v < pow10(k),
    ensures
        1 <= decimal(v).len() <= k,
    decreases v,
{
    if v >= 10 {
        assert(pow10(1) == 10) by {
            reveal_with_fuel(pow10, 2);
        }
        let p = pow10((k - 1) as nat);
        assert(pow10(k) == 10 * p);
        assert(v / 10 < p) by (nonlinear_arith)
            requires
                v < 10 * p,
        ;
        lemma_decimal_len(v / 10, (k - 1) as nat);
    }
}

pub proof fn lemma_u64_digits(v: u64)
    ensures
        1 <= decimal(v as nat).len() <= 20,
{
    assert(pow10(20) == 100_000_000_000_000_000_000) by {
        reveal_with_fuel(pow10, 21);
    }
    lemma_decimal_len(v as nat, 20);
}

/// Appends the decimal digits of `v` to `out`.
fn push_decimal(out: &mut String, v: u64)
    ensures
        final(out)@ == old(out)@ + decimal(v as nat),
    decreases v,
{
    if v >= 10 {
        push_decimal(out, v / 10);
    }
    let d = (v % 10) as usize;
    let digits = "0123456789";
    proof {
        reveal_strlit("0123456789");
    }
    let piece = digits.substring_char(d, d + 1);
    proof {
        assert(piece@ =~= seq![digit_char(d as int)]);
    }
    out.append(piece);
    proof {
        if v >= 10 {
            assert(decimal(v as nat) == decimal((v / 10) as nat).push(digit_char((v % 10) as int)));
        }
    }
}

/// The number of decimal digits of `v`.
fn decimal_len(v: u64) -> (n: usize)
    ensures
        n == decimal(v as nat).len(),
    decreases v,
{
    proof {
        lemma_u64_digits(v);
        if v >= 10 {
            lemma_u64_digits(v / 10);
        }
    }
    if v >= 10 {
        decimal_len(v / 10) + 1
    } else {
        1
    }
}

/// Appends `v` in decimal, left-padded with zeros to `width` characters.
fn push_padded(out: &mut String, v: u64, width: usize)
    ensures
        final(out)@ == old(out)@ + padded_decimal(v as nat, width as nat),
{
    let n = decimal_len(v);
    let ghost start = out@;
    let zero = "0";
    proof {
        reveal_strlit("0");
    }
    if n < width {
        let mut k: usize = 0;
        while k < width - n
            invariant
                n < width,
                k <= width - n,
                zero@ == seq!['0'],
                out@ == start + Seq::new(k as nat, |i: int| '0'),
            decreases width - n - k,
        {
            out.append(zero);
            assert(start + Seq::new((k + 1) as nat, |i: int| '0') =~= start + Seq::new(
                k as nat,
                |i: int| '0',
            ) + seq!['0']);
            k = k + 1;
        }
    }
    let ghost mid = out@;
    push_decimal(out, v);
    proof {
        if n < width {
            assert(out@ =~= start + padded_decimal(v as nat, width as nat));
        } else {
            assert(out@ =~= start + padded_decimal(v as nat, width as nat));
        }
    }
}

/// `YYYY-MM-DDTHH:MM:SSZ` for the given parts.
pub open spec fn iso8601_text(y: nat, mo: nat, d: nat, h: nat, mi: nat, s: nat) -> Seq<char> {
    padded_decimal(y, 4) + seq!['-'] + padded_decimal(mo, 2) + seq!['-'] + padded_decimal(d, 2) + seq![
        'T',
    ] + padded_decimal(h, 2) + seq![':'] + padded_decimal(mi, 2) + seq![':'] + padded_decimal(s, 2)
        + seq!['Z']
}

/// `YYYY-MM-DD_HH_MM_SS` for the given parts.
pub open spec fn filename_text(y: nat, mo: nat, d: nat, h: nat, mi: nat, s: nat) -> Seq<char> {
    padded_decimal(y, 4) + seq!['-'] + padded_decimal(mo, 2) + seq!['-'] + padded_decimal(d, 2) + seq![
        '_',
    ] + padded_decimal(h, 2) + seq!['_'] + padded_decimal(mi, 2) + seq!['_'] + padded_decimal(s, 2)
}

/// The calendar parts of `secs`: the date of its day, then hour, minute and
/// second.
pub open spec fn parts_of(secs: nat) -> (nat, nat, nat, nat, nat, nat) {
    let date = date_of_day(secs as int / 86400);
    (
        date.0 as nat,
        date.1 as nat,
        date.2 as nat,
        (secs / 3600) % 24,
        (secs / 60) % 60,
        secs % 60,
    )
}

/// The two decimal digits of `v` (below 100), tens first.
pub open spec fn two_digits(v: nat) -> Seq<char> {
    seq![digit_char((v / 10) as int), digit_char((v % 10) as int)]
}

/// Padding a number below 100 to two digits gives its tens and its units.
pub proof fn lemma_padded_two_digits(v: nat)
    requires
        v < 100,
    ensures
        padded_decimal(v, 2) == two_digits(v),
{
    reveal_with_fuel(decimal, 2);
    if v < 10 {
        assert(decimal(v) == seq![digit_char(v as int)]);
        assert(padded_decimal(v, 2) =~= two_digits(v));
    } else {
        assert(decimal(v) =~= seq![digit_char((v / 10) as int), digit_char((v % 10) as int)]);
        assert(padded_decimal(v, 2) =~= two_digits(v));
    }
}

/// A number padded to `width` digits takes at least `width` characters.
pub proof fn lemma_padded_len(v: nat, width: nat)
    ensures
        padded_decimal(v, width).len() >= width,
{
}

/// `r` holds the date of the day of `secs` as `YYYY-MM-DD`, then `T`, the
/// hour, minute and second of `secs` as two digits each, separated by `:`,
/// and `Z`.
pub open spec fn iso8601_fields(r: Seq<char>, secs: nat) -> bool {
    &&& r.len() >= 20
    &&& r.skip(r.len() - 10) == seq!['T'] + two_digits((secs / 3600) % 24) + seq![':'] + two_digits(
        (secs / 60) % 60,
    ) + seq![':'] + two_digits(secs % 60) + seq!['Z']
    &&& forall|y: int, m: int, d: int|
        #[trigger] is_date_of_day(secs as int / 86400, y, m, d) ==> r.take(r.len() - 10) == padded_decimal(y as nat, 4)
            + seq!['-'] + two_digits(m as nat) + seq!['-'] + two_digits(d as nat)
}

/// `r` holds the date of the day of `secs` as `YYYY-MM-DD`, then `_`, the
/// hour, minute and second of `secs` as two digits each, separated by `_`.
pub open spec fn filename_fields(r: Seq<char>, secs: nat) -> bool {
    &&& r.len() >= 19
    &&& r.skip(r.len() - 9) == seq!['_'] + two_digits((secs / 3600) % 24) + seq!['_'] + two_digits(
        (secs / 60) % 60,
    ) + seq!['_'] + two_digits(secs % 60)
    &&& forall|y: int, m: int, d: int|
        #[trigger] is_date_of_day(secs as int / 86400, y, m, d) ==> r.take(r.len() - 9) == padded_decimal(y as nat, 4)
            + seq!['-'] + two_digits(m as nat) + seq!['-'] + two_digits(d as nat)
}

/// Every date has a month and a day of at most two digits.
proof fn lemma_date_bounds(days: int, y: int, m: int, d: int)
    requires
        is_date_of_day(days, y, m, d),
    ensures
        0 < m < 100,
        0 < d < 100,
{
}

/// The ISO 8601 text of `secs` is the date of its day, `T`, and the hour
/// (`secs / 3600 % 24`), minute (`secs / 60 % 60`) and second (`secs % 60`)
/// of `secs`, in that order, followed by `Z`.
pub proof fn law_iso8601_fields(secs: nat, y: int, m: int, d: int)
    requires
        is_date_of_day(secs as int / 86400, y, m, d),
    ensures
        ({
            let p = parts_of(secs);
            iso8601_fields(iso8601_text(p.0, p.1, p.2, p.3, p.4, p.5), secs)
        }),
{
    let p = parts_of(secs);
    let r = iso8601_text(p.0, p.1, p.2, p.3, p.4, p.5);
    lemma_date_of_day(secs as int / 86400, y, m, d);
    lemma_date_bounds(secs as int / 86400, y, m, d);
    lemma_padded_two_digits(p.1);
    lemma_padded_two_digits(p.2);
    lemma_padded_two_digits(p.3);
    lemma_padded_two_digits(p.4);
    lemma_padded_two_digits(p.5);
    lemma_padded_len(p.0, 4);
    let head = padded_decimal(p.0, 4) + seq!['-'] + two_digits(p.1) + seq!['-'] + two_digits(p.2);
    let tail = seq!['T'] + two_digits(p.3) + seq![':'] + two_digits(p.4) + seq![':'] + two_digits(p.5)
        + seq!['Z'];
    assert(r =~= head + tail);
    assert(r.skip(r.len() - 10) =~= tail);
    assert(r.take(r.len() - 10) =~= head);
    assert forall|y2: int, m2: int, d2: int| #[trigger] is_date_of_day(secs as int / 86400, y2, m2, d2) implies r.take(
        r.len() - 10,
    ) == padded_decimal(y2 as nat, 4) + seq!['-'] + two_digits(m2 as nat) + seq!['-'] + two_digits(
        d2 as nat,
    ) by {
        law_date_of_day_unique(secs as int / 86400, y, m, d, y2, m2, d2);
    }
}

/// The file-name text of `secs` is the date of its day, then the hour,
/// minute and second of `secs`, in that order, each after a `_`.
pub proof fn law_filename_fields(secs: nat, y: int, m: int, d: int)
    requires
        is_date_of_day(secs as int / 86400, y, m, d),
    ensures
        ({
            let p = parts_of(secs);
            filename_fields(filename_text(p.0, p.1, p.2, p.3, p.4, p.5), secs)
        }),
{
    let p = parts_of(secs);
    let r = filename_text(p.0, p.1, p.2, p.3, p.4, p.5);
    lemma_date_of_day(secs as int / 86400, y, m, d);
    lemma_date_bounds(secs as int / 86400, y, m, d);
    lemma_padded_two_digits(p.1);
    lemma_padded_two_digits(p.2);
    lemma_padded_two_digits(p.3);
    lemma_padded_two_digits(p.4);
    lemma_padded_two_digits(p.5);
    lemma_padded_len(p.0, 4);
    let head = padded_decimal(p.0, 4) + seq!['-'] + two_digits(p.1) + seq!['-'] + two_digits(p.2);
    let tail = seq!['_'] + two_digits(p.3) + seq!['_'] + two_digits(p.4) + seq!['_'] + two_digits(p.5);
    assert(r =~= head + tail);
    assert(r.skip(r.len() - 9) =~= tail);
    assert(r.take(r.len() - 9) =~= head);
    assert forall|y2: int, m2: int, d2: int| #[trigger] is_date_of_day(secs as int / 86400, y2, m2, d2) implies r.take(
        r.len() - 9,
    ) == padded_decimal(y2 as nat, 4) + seq!['-'] + two_digits(m2 as nat) + seq!['-'] + two_digits(
        d2 as nat,
    ) by {
        law_date_of_day_unique(secs as int / 86400, y, m, d, y2, m2, d2);
    }
}

fn append_piece(out: &mut String, piece: &str)
    ensures
        final(out)@ == old(out)@ + piece@,
{
    out.append(piece);
}

/// The UTC time of `secs` seconds after the epoch in ISO 8601 form,
/// `YYYY-MM-DDTHH:MM:SSZ`.
pub fn iso8601(secs: u64) -> (r: String)
    ensures
        ({
            let p = parts_of(secs as nat);
            r@ == iso8601_text(p.0, p.1, p.2, p.3, p.4, p.5)
        }),
        iso8601_fields(r@, secs as nat),
{
    let (year, month, day, hour, min, sec) = secs_to_parts(secs);
    proof {
        lemma_date_of_day(secs as int / 86400, year as int, month as int, day as int);
        reveal_strlit("-");
        reveal_strlit("T");
        reveal_strlit(":");
        reveal_strlit("Z");
    }
    let mut out = String::new();
    push_padded(&mut out, year, 4);
    append_piece(&mut out, "-");
    push_padded(&mut out, month, 2);
    append_piece(&mut out, "-");
    push_padded(&mut out, day, 2);
    append_piece(&mut out, "T");
    push_padded(&mut out, hour, 2);
    append_piece(&mut out, ":");
    push_padded(&mut out, min, 2);
    append_piece(&mut out, ":");
    push_padded(&mut out, sec, 2);
    append_piece(&mut out, "Z");
    proof {
        let p = parts_of(secs as nat);
        assert(out@ =~= iso8601_text(p.0, p.1, p.2, p.3, p.4, p.5));
        law_iso8601_fields(secs as nat, year as int, month as int, day as int);
    }
    out
}

/// The UTC time of `secs` seconds after the epoch in the form used in
/// report file names, `YYYY-MM-DD_HH_MM_SS`.
pub fn filename_ts(secs: u64) -> (r: String)
    ensures
        ({
            let p = parts_of(secs as nat);
            r@ == filename_text(p.0, p.1, p.2, p.3, p.4, p.5)
        }),
        filename_fields(r@, secs as nat),
{
    let (year, month, day, hour, min, sec) = secs_to_parts(secs);
    proof {
        lemma_date_of_day(secs as int / 86400, year as int, month as int, day as int);
        reveal_strlit("-");
        reveal_strlit("_");
    }
    let mut out = String::new();
    push_padded(&mut out, year, 4);
    append_piece(&mut out, "-");
    push_padded(&mut out, month, 2);
    append_piece(&mut out, "-");
    push_padded(&mut out, day, 2);
    append_piece(&mut out, "_");
    push_padded(&mut out, hour, 2);
    append_piece(&mut out, "_");
    push_padded(&mut out, min, 2);
    append_piece(&mut out, "_");
    push_padded(&mut out, sec, 2);
    proof {
        let p = parts_of(secs as nat);
        assert(out@ =~= filename_text(p.0, p.1, p.2, p.3, p.4, p.5));
        law_filename_fields(secs as nat, year as int, month as int, day as int);
    }
    out
}

/// `HH:MM:SS` for a duration: hours (at least two digits), minutes and
/// seconds.
pub open spec fn elapsed_text(secs: nat) -> Seq<char> {
    padded_decimal(secs / 3600, 2) + seq![':'] + padded_decimal((secs % 3600) / 60, 2) + seq![':']
        + padded_decimal(secs % 60, 2)
}

/// `r` holds the whole hours of `secs` (at least two digits), then `:`,
/// the minutes past the hour and `:`, the seconds past the minute, two
/// digits each.
pub open spec fn elapsed_fields(r: Seq<char>, secs: nat) -> bool {
    &&& r.len() >= 8
    &&& r.take(r.len() - 6) == padded_decimal(secs / 3600, 2)
    &&& r.skip(r.len() - 6) == seq![':'] + two_digits((secs % 3600) / 60) + seq![':'] + two_digits(
        secs % 60,
    )
}

/// The elapsed text of `secs` is its hours, then its minutes past the hour
/// (`secs % 3600 / 60`), then its seconds past the minute (`secs % 60`).
pub proof fn law_elapsed_fields(secs: nat)
    ensures
        elapsed_fields(elapsed_text(secs), secs),
{
    let r = elapsed_text(secs);
    lemma_padded_two_digits((secs % 3600) / 60);
    lemma_padded_two_digits(secs % 60);
    lemma_padded_len(secs / 3600, 2);
    let tail = seq![':'] + two_digits((secs % 3600) / 60) + seq![':'] + two_digits(secs % 60);
    assert(r =~= padded_decimal(secs / 3600, 2) + tail);
    assert(r.skip(r.len() - 6) =~= tail);
    assert(r.take(r.len() - 6) =~= padded_decimal(secs / 3600, 2));
}

/// A duration in seconds as `HH:MM:SS`.
pub fn format_elapsed(secs: u64) -> (r: String)
    ensures
        r@ == elapsed_text(secs as nat),
        elapsed_fields(r@, secs as nat),
{
    proof {
        reveal_strlit(":");
    }
    let mut out = String::new();
    push_padded(&mut out, secs / 3600, 2);
    append_piece(&mut out, ":");
    push_padded(&mut out, (secs % 3600) / 60, 2);
    append_piece(&mut out, ":");
    push_padded(&mut out, secs % 60, 2);
    proof {
        assert(out@ =~= elapsed_text(secs as nat));
        law_elapsed_fields(secs as nat);
    }
    out
}

} // verus!
