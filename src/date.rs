//! Calendar dates: the `M.D.YY` date token of a post and its printed form.

use chrono::Datelike;
use vstd::prelude::*;

verus! {

/// A calendar day. Dates made by this library are real Gregorian days.
#[derive(Clone, Copy, Debug, PartialEq, Eq, Structural)]
pub struct Date {
    pub year: i32,
    pub month: u32,
    pub day: u32,
}

pub open spec fn is_leap_year(y: int) -> bool {
    (y % 4 == 0 && y % 100 != 0) || y % 400 == 0
}

pub open spec fn days_in_month(y: int, m: int) -> int {
    if m == 2 {
        if is_leap_year(y) { 29 } else { 28 }
    } else if m == 4 || m == 6 || m == 9 || m == 11 {
        30
    } else {
        31
    }
}

/// A day of the proleptic Gregorian calendar.
pub open spec fn is_calendar_date(y: int, m: int, d: int) -> bool {
    1 <= m <= 12 && 1 <= d <= days_in_month(y, m)
}

/// Relies on chrono's `NaiveDate::from_ymd_opt`: it returns a date exactly when
/// month and day form a real day of that year (years here lie well inside its
/// range), and that date has the year, month and day it was made from.
#[verifier::external_body]
fn from_ymd_opt(year: i32, month: u32, day: u32) -> (r: Option<Date>)
    requires
        0 <= year <= 9999,
    ensures
        r == (if is_calendar_date(year as int, month as int, day as int) {
            Some(Date { year, month, day })
        } else {
            None::<Date>
        }),
{
    chrono::NaiveDate::from_ymd_opt(year, month, day).map(
        |d| Date { year: d.year(), month: d.month(), day: d.day() },
    )
}


pub open spec fn is_digit(c: char) -> bool {
    '0' <= c && c <= '9'
}

pub open spec fn digit_value(c: char) -> nat {
    ((c as u32) - ('0' as u32)) as nat
}

/// A non-empty run of decimal digits.
pub open spec fn is_numeral(s: Seq<char>) -> bool {
    s.len() > 0 && forall|i: int| 0 <= i < s.len() ==> is_digit(#[trigger] s[i])
}

/// The number that a run of decimal digits spells.
pub open spec fn numeral_value(s: Seq<char>) -> nat
    decreases s.len(),
{
    if s.len() == 0 {
        0
    } else {
        numeral_value(s.drop_last()) * 10 + digit_value(s.last())
    }
}

/// Index of the first `.` in `s`, or its length when there is none.
pub open spec fn dot_index(s: Seq<char>) -> int
    decreases s.len(),
{
    if s.len() == 0 {
        0
    } else if s[0] == '.' {
        0
    } else {
        1 + dot_index(s.drop_first())
    }
}

/// Reads the fields of an `M.D.YY` token: month and day numerals of any width,
/// a year of exactly two digits counted from 2000, and a real calendar day.
pub open spec fn date_of_fields(month: Seq<char>, day: Seq<char>, year: Seq<char>) -> Option<Date> {
    let y: int = 2000 + numeral_value(year) as int;
    if is_numeral(month) && is_numeral(day) && is_numeral(year) && year.len() == 2
        && is_calendar_date(y, numeral_value(month) as int, numeral_value(day) as int) {
        Some(Date { year: y as i32, month: numeral_value(month) as u32, day: numeral_value(day) as u32 })
    } else {
        None
    }
}

/// The date that a token of the form `M.D.YY` names: the token is split at its
/// dots into exactly three fields.
pub open spec fn date_of_token(s: Seq<char>) -> Option<Date> {
    let i = dot_index(s);
    if i >= s.len() {
        None
    } else {
        let rest = s.subrange(i + 1, s.len() as int);
        let j = dot_index(rest);
        if j >= rest.len() {
            None
        } else {
            date_of_fields(s.subrange(0, i), rest.subrange(0, j), rest.subrange(j + 1, rest.len() as int))
        }
    }
}

proof fn lemma_dot_index_exact(s: Seq<char>, i: int)
    requires
        0 <= i <= s.len(),
        i < s.len() ==> s[i] == '.',
        forall|k: int| 0 <= k < i ==> s[k] != '.',
    ensures
        dot_index(s) == i,
    decreases s.len(),
{
    if s.len() > 0 && i > 0 {
        let t = s.drop_first();
        assert forall|k: int| 0 <= k < i - 1 implies t[k] != '.' by {
            assert(t[k] == s[k + 1]);
        }
        lemma_dot_index_exact(t, i - 1);
    }
}

/// Index of the first `.` in `s` at or after `from`, or the length of `s`.
fn find_dot(s: &str, from: usize, n: usize) -> (r: usize)
    requires
        n == s@.len(),
        from <= n,
    ensures
        from <= r <= n,
        r < n ==> s@[r as int] == '.',
        forall|k: int| from <= k < r ==> s@[k] != '.',
{
    let mut i: usize = from;
    while i < n
        invariant
            n == s@.len(),
            from <= i <= n,
            forall|k: int| from <= k < i ==> s@[k] != '.',
        decreases n - i,
    {
        if s.get_char(i) == '.' {
            return i;
        }
        i = i + 1;
    }
    i
}

/// The value of the numeral `s[from..to]` when it is one and is below 1000.
fn small_numeral(s: &str, from: usize, to: usize) -> (r: Option<u32>)
    requires
        from <= to <= s@.len(),
    ensures
        r == (if is_numeral(s@.subrange(from as int, to as int))
            && numeral_value(s@.subrange(from as int, to as int)) < 1000 {
            Some(numeral_value(s@.subrange(from as int, to as int)) as u32)
        } else {
            None::<u32>
        }),
{
    if from == to {
        return None;
    }
    let mut v: u32 = 0;
    let mut big = false;
    let mut i: usize = from;
    while i < to
        invariant
            from <= i <= to <= s@.len(),
            forall|k: int| from <= k < i ==> is_digit(#[trigger] s@[k]),
            !big ==> v == numeral_value(s@.subrange(from as int, i as int)) && v < 1000,
            big ==> numeral_value(s@.subrange(from as int, i as int)) >= 1000,
        decreases to - i,
    {
        let c = s.get_char(i);
        if !('0' <= c && c <= '9') {
            proof {
                let sub = s@.subrange(from as int, to as int);
                assert(sub[i - from] == c);
            }
            return None;
        }
        proof {
            let p = s@.subrange(from as int, i as int);
            let q = s@.subrange(from as int, i + 1);
            assert(q.drop_last() =~= p);
            assert(q.last() == c);
        }
        if !big {
            let d = (c as u32) - ('0' as u32);
            if v * 10 + d >= 1000 {
                big = true;
            } else {
                v = v * 10 + d;
            }
        }
        i = i + 1;
    }
    proof {
        let sub = s@.subrange(from as int, to as int);
        assert forall|k: int| 0 <= k < sub.len() implies is_digit(#[trigger] sub[k]) by {
            assert(sub[k] == s@[from + k]);
        }
    }
    if big {
        None
    } else {
        Some(v)
    }
}

/// Reads a date token of the form `M.D.YY`; `None` when the token has another
/// shape or names no real day.
pub fn parse_date(token: &str) -> (r: Option<Date>)
    ensures
        r == date_of_token(token@),
{
    let n = token.unicode_len();
    let ghost s = token@;
    let i = find_dot(token, 0, n);
    proof {
        lemma_dot_index_exact(s, i as int);
    }
    if i >= n {
        return None;
    }
    let j = find_dot(token, i + 1, n);
    let ghost rest = s.subrange(i + 1, n as int);
    proof {
        assert forall|k: int| 0 <= k < j - (i + 1) implies rest[k] != '.' by {
            assert(rest[k] == s[k + i + 1]);
        }
        if j < n {
            assert(rest[j - (i + 1)] == s[j as int]);
        }
        lemma_dot_index_exact(rest, j - (i + 1));
        assert(s.subrange(i + 1, j as int) =~= rest.subrange(0, j - (i + 1)));
        if j < n {
            assert(s.subrange(j + 1, n as int) =~= rest.subrange(j - (i + 1) + 1, rest.len() as int));
        }
    }
    if j >= n {
        return None;
    }
    let month = small_numeral(token, 0, i);
    let day = small_numeral(token, i + 1, j);
    let year = small_numeral(token, j + 1, n);
    if n - (j + 1) != 2 {
        return None;
    }
    proof {
        assert(date_of_token(s) == date_of_fields(
            s.subrange(0, i as int),
            s.subrange(i + 1, j as int),
            s.subrange(j + 1, n as int),
        ));
        assert(forall|y: int, m: int| days_in_month(y, m) <= 31);
        let yf = s.subrange(j + 1, n as int);
        if yf.len() == 2 && is_numeral(yf) {
            assert(is_digit(yf[0]) && is_digit(yf[1]));
            assert(yf.drop_last().drop_last().len() == 0);
            assert(yf.drop_last().last() == yf[0]);
            assert(numeral_value(yf.drop_last().drop_last()) == 0);
            assert(digit_value(yf[0]) < 10);
            assert(numeral_value(yf.drop_last()) < 10);
            assert(numeral_value(yf) < 100);
        }
    }
    match (month, day, year) {
        (Some(m), Some(d), Some(y)) => from_ymd_opt(2000 + y as i32, m, d),
        _ => None,
    }
}


pub open spec fn digit_char(d: nat) -> char {
    if d == 0 { '0' }
    else if d == 1 { '1' }
    else if d == 2 { '2' }
    else if d == 3 { '3' }
    else if d == 4 { '4' }
    else if d == 5 { '5' }
    else if d == 6 { '6' }
    else if d == 7 { '7' }
    else if d == 8 { '8' }
    else { '9' }
}

/// Decimal digits of `n`, without leading zeros.
pub open spec fn decimal(n: nat) -> Seq<char>
    decreases n,
{
    if n < 10 {
        seq![digit_char(n)]
    } else {
        decimal(n / 10) + seq![digit_char(n % 10)]
    }
}

/// The last two decimal digits of `n`, a leading zero kept.
pub open spec fn two_digits(n: nat) -> Seq<char> {
    seq![digit_char((n / 10) % 10), digit_char(n % 10)]
}

/// `M.D.YY`: month and day without leading zeros, the year of the century in two digits.
pub open spec fn short_date_text(d: Date) -> Seq<char> {
    decimal(d.month as nat) + seq!['.'] + decimal(d.day as nat) + seq!['.'] + two_digits(
        (d.year % 100) as nat,
    )
}

fn digit_str(d: u32) -> (r: &'static str)
    requires
        d < 10,
    ensures
        r@ == seq![digit_char(d as nat)],
{
    proof {
        reveal_strlit("0");
        reveal_strlit("1");
        reveal_strlit("2");
        reveal_strlit("3");
        reveal_strlit("4");
        reveal_strlit("5");
        reveal_strlit("6");
        reveal_strlit("7");
        reveal_strlit("8");
        reveal_strlit("9");
    }
    let r = match d {
        0 => "0",
        1 => "1",
        2 => "2",
        3 => "3",
        4 => "4",
        5 => "5",
        6 => "6",
        7 => "7",
        8 => "8",
        _ => "9",
    };
    assert(r@ =~= seq![digit_char(d as nat)]);
    r
}

fn push_decimal(out: &mut String, n: u32)
    ensures
        final(out)@ == old(out)@ + decimal(n as nat),
    decreases n,
{
    if n >= 10 {
        push_decimal(out, n / 10);
    }
    out.append(digit_str(n % 10));
    proof {
        assert(decimal(n as nat) == if n < 10 {
            seq![digit_char(n as nat)]
        } else {
            decimal((n / 10) as nat) + seq![digit_char((n % 10) as nat)]
        });
        assert(out@ =~= old(out)@ + decimal(n as nat));
    }
}

/// Prints a date as `M.D.YY`, the form that the index shows.
pub fn format_date(date: Date) -> (r: String)
    ensures
        r@ == short_date_text(date),
{
    let mut out = String::new();
    push_decimal(&mut out, date.month);
    proof {
        reveal_strlit(".");
    }
    out.append(".");
    push_decimal(&mut out, date.day);
    out.append(".");
    let rem = date.year % 100;
    let yy: u32 = if rem < 0 { (rem + 100) as u32 } else { rem as u32 };
    assert(yy as int == date.year as int % 100);
    out.append(digit_str(yy / 10));
    out.append(digit_str(yy % 10));
    assert(out@ =~= short_date_text(date));
    out
}

} // verus!
