//! Time access and the textual forms derived from timestamps.
//!
//! The clock and the calendar come from the `chrono` crate through two
//! trusted items; everything built on top of them is verified.

use vstd::prelude::*;

verus! {

/// The calendar date that `to_human_date` renders for a given timestamp.
pub uninterp spec fn date_string_of(ts: int) -> Seq<char>;

/// Relies on chrono's `Utc::now`: the number of non-leap seconds since the
/// Unix epoch. `Utc::now` panics when the system clock is set before the
/// epoch; when it returns, the count is non-negative.
#[verifier::external_body]
pub fn current_timestamp() -> (r: i64)
    ensures
        0 <= r,
{
    chrono::Utc::now().timestamp()
}

/// Relies on chrono's `DateTime::from_timestamp` and its `%d-%m-%Y`
/// formatting: the rendered date is a function of the timestamp alone.
/// Timestamps outside chrono's representable range render as the empty
/// string.
#[verifier::external_body]
pub fn to_human_date(timestamp: i64) -> (r: String)
    ensures
        r@ == date_string_of(timestamp as int),
{
    match chrono::DateTime::from_timestamp(timestamp, 0) {
        Some(dt) => dt.format("%d-%m-%Y").to_string(),
        None => String::new(),
    }
}

/// Seconds elapsed from `from` to `to`, for a `to` that is known to be set.
pub fn time_delta(from: i64, to: Option<i64>) -> (r: i64)
    requires
        to is Some,
        i64::MIN <= to->0 - from <= i64::MAX,
    ensures
        r == to->0 - from,
{
    let t = match to {
        Some(t) => t,
        None => 0,
    };
    t - from
}

/// The decimal digits of `n`, most significant first.
pub open spec fn dec_digits(n: nat) -> Seq<char>
    decreases n,
{
    if n < 10 {
        seq![digit_char(n)]
    } else {
        dec_digits(n / 10) + seq![digit_char(n % 10)]
    }
}

/// The character for one decimal digit.
pub open spec fn digit_char(n: nat) -> char
    recommends
        n < 10,
{
    if n == 0 {
        '0'
    } else if n == 1 {
        '1'
    } else if n == 2 {
        '2'
    } else if n == 3 {
        '3'
    } else if n == 4 {
        '4'
    } else if n == 5 {
        '5'
    } else if n == 6 {
        '6'
    } else if n == 7 {
        '7'
    } else if n == 8 {
        '8'
    } else {
        '9'
    }
}

/// The decimal rendering of an integer, with a leading minus sign when
/// negative.
pub open spec fn int_str(i: int) -> Seq<char> {
    if i < 0 {
        seq!['-'] + dec_digits((-i) as nat)
    } else {
        dec_digits(i as nat)
    }
}

/// The elapsed-time string for a signed number of seconds: whole days, the
/// hour remainder and the minute remainder, each truncated toward zero as a
/// division of the absolute value with the sign of the input re-applied.
pub open spec fn duration_of(seconds: int) -> Seq<char> {
    let a = if seconds < 0 {
        -seconds
    } else {
        seconds
    };
    let sgn: int = if seconds < 0 {
        -1
    } else {
        1
    };
    int_str(sgn * (a / 86400)) + "-d "@ + int_str(sgn * ((a / 3600) % 24)) + "-h "@ + int_str(
        sgn * ((a / 60) % 60),
    ) + "-m"@
}

/// The literal for one decimal digit.
fn digit_str(d: u64) -> (r: &'static str)
    requires
        d < 10,
    ensures
        r@ == seq![digit_char(d as nat)],
{
    proof {
        reveal_strlit("0");
        reveal_strlit("1");
        reveal_strlit("2");
        reveal_strlit("3");
        reveal_strlit("4");
        reveal_strlit("5");
        reveal_strlit("6");
        reveal_strlit("7");
        reveal_strlit("8");
        reveal_strlit("9");
    }
    match d {
        0 => "0",
        1 => "1",
        2 => "2",
        3 => "3",
        4 => "4",
        5 => "5",
        6 => "6",
        7 => "7",
        8 => "8",
        _ => "9",
    }
}

/// The decimal rendering of an unsigned number.
fn u64_to_string(v: u64) -> (r: String)
    ensures
        r@ == dec_digits(v as nat),
    decreases v,
{
    if v < 10 {
        let mut s = String::new();
        s.append(digit_str(v));
        s
    } else {
        let mut s = u64_to_string(v / 10);
        s.append(digit_str(v % 10));
        s
    }
}

/// The decimal rendering of a magnitude `v` that carries the sign `neg`.
fn signed_part_string(neg: bool, v: u64) -> (r: String)
    ensures
        r@ == int_str(
            if neg {
                -(v as int)
            } else {
                v as int
            },
        ),
{
    if neg && v > 0 {
        proof {
            reveal_strlit("-");
        }
        let mut s = String::new();
        s.append("-");
        let digits = u64_to_string(v);
        s.append(digits.as_str());
        s
    } else {
        u64_to_string(v)
    }
}

/// Formats an elapsed number of seconds as `"{days}-d {hours}-h {minutes}-m"`,
/// where the hours and minutes are the remainders past whole days and hours.
pub fn duration(seconds: i64) -> (r: String)
    ensures
        r@ == duration_of(seconds as int),
{
    let neg = seconds < 0;
    let a: u64 = if seconds == i64::MIN {
        9223372036854775808u64
    } else if neg {
        (-seconds) as u64
    } else {
        seconds as u64
    };
    let d: u64 = a / 86400;
    let h: u64 = (a / 3600) % 24;
    let m: u64 = (a / 60) % 60;
    proof {
        let s_int = seconds as int;
        let a_int: int = if s_int < 0 {
            -s_int
        } else {
            s_int
        };
        let sgn: int = if s_int < 0 {
            -1
        } else {
            1
        };
        assert(a as int == a_int);
        assert(sgn * (a_int / 86400) == (if neg {
            -(d as int)
        } else {
            d as int
        }));
        assert(sgn * ((a_int / 3600) % 24) == (if neg {
            -(h as int)
        } else {
            h as int
        }));
        assert(sgn * ((a_int / 60) % 60) == (if neg {
            -(m as int)
        } else {
            m as int
        }));
    }
    let mut s = signed_part_string(neg, d);
    s.append("-d ");
    let hs = signed_part_string(neg, h);
    s.append(hs.as_str());
    s.append("-h ");
    let ms = signed_part_string(neg, m);
    s.append(ms.as_str());
    s.append("-m");
    s
}

} // verus!
