use vstd::prelude::*;

use crate::entry::OrganizeFSEntry;
use crate::path::normalized;

verus! {

/// The text that humansize gives for `n` bytes in decimal units, without a
/// space before the unit and with two decimals.
pub uninterp spec fn human_size(n: u64) -> Seq<char>;

/// The UTC calendar date (year, month, day) of the Unix timestamp `secs`, as
/// the time crate computes it; none outside the range it supports.
pub uninterp spec fn utc_calendar_date(secs: i64) -> Option<(i32, u8, u8)>;

/// Relies on `humansize::format_size`: the size `n` in decimal units, two
/// decimals, no space before the unit. The text depends on `n` alone.
#[verifier::external_body]
fn format_size(n: u64) -> (r: String)
    ensures
        r@ == human_size(n),
{
    humansize::format_size(n, humansize::DECIMAL.space_after_value(false).decimal_zeroes(2))
}

/// Relies on `time::OffsetDateTime::from_unix_timestamp` and the date's
/// `year`, `month` and `day`: the UTC calendar date of a timestamp, with a
/// month from 1 to 12 and a day from 1 to 31; none where the timestamp is out
/// of range.
#[verifier::external_body]
fn utc_date(secs: i64) -> (r: Option<(i32, u8, u8)>)
    ensures
        r == utc_calendar_date(secs),
        r matches Some((_, m, d)) ==> 1 <= m <= 12 && 1 <= d <= 31,
{
    match time::OffsetDateTime::from_unix_timestamp(secs) {
        Ok(t) => Some((t.year(), u8::from(t.month()), t.day())),
        Err(_) => None,
    }
}

/// The decimal digit `d`.
pub open spec fn digit_char(d: nat) -> char {
    seq!['0', '1', '2', '3', '4', '5', '6', '7', '8', '9'][d as int % 10]
}

/// The decimal digits of `n`, padded with zeros on the left to `w` digits.
pub open spec fn padded(n: nat, w: nat) -> Seq<char>
    decreases n + w,
{
    if n < 10 && w <= 1 {
        seq![digit_char(n)]
    } else {
        padded(n / 10, if w > 0 {
            (w - 1) as nat
        } else {
            0
        }) + seq![digit_char(n % 10)]
    }
}

/// A date as `YYYY-MM-DD`, the year with a `-` before it when negative.
pub open spec fn date_text(y: i32, m: u8, d: u8) -> Seq<char> {
    let year = if y < 0 {
        seq!['-'] + padded((-y) as nat, 4)
    } else {
        padded(y as nat, 4)
    };
    year + seq!['-'] + padded(m as nat, 2) + seq!['-'] + padded(d as nat, 2)
}

/// The day of the timestamp `secs` as `YYYY-MM-DD`; `1970-01-01` where the
/// timestamp is out of range.
pub open spec fn day_text(secs: i64) -> Seq<char> {
    match utc_calendar_date(secs) {
        Some((y, m, d)) => date_text(y, m, d),
        None => seq!['1', '9', '7', '0', '-', '0', '1', '-', '0', '1'],
    }
}

/// A content type as a single path segment: each `/` becomes `_`.
pub open spec fn mime_segment(s: Seq<char>) -> Seq<char> {
    s.map_values(|c: char| if c == '/' {
        '_'
    } else {
        c
    })
}

/// Appends the decimal digit `d`.
fn push_digit(s: &mut String, d: u64)
    requires
        d < 10,
    ensures
        final(s)@ == old(s)@.push(digit_char(d as nat)),
{
    proof {
        reveal_strlit("0");
        reveal_strlit("1");
        reveal_strlit("2");
        reveal_strlit("3");
        reveal_strlit("4");
        reveal_strlit("5");
        reveal_strlit("6");
        reveal_strlit("7");
        reveal_strlit("8");
        reveal_strlit("9");
    }
    let t = if d == 0 {
        "0"
    } else if d == 1 {
        "1"
    } else if d == 2 {
        "2"
    } else if d == 3 {
        "3"
    } else if d == 4 {
        "4"
    } else if d == 5 {
        "5"
    } else if d == 6 {
        "6"
    } else if d == 7 {
        "7"
    } else if d == 8 {
        "8"
    } else {
        "9"
    };
    proof {
        assert(t@ =~= seq![digit_char(d as nat)]);
    }
    s.append(t);
}

/// Appends the decimal digits of `n`, padded with zeros to `w` digits.
fn push_padded(s: &mut String, n: u64, w: u64)
    ensures
        final(s)@ == old(s)@ + padded(n as nat, w as nat),
    decreases n + w,
{
    if n < 10 && w <= 1 {
        push_digit(s, n);
        proof {
            assert(old(s)@.push(digit_char(n as nat)) =~= old(s)@ + seq![digit_char(n as nat)]);
        }
    } else {
        let w2 = if w > 0 {
            w - 1
        } else {
            0
        };
        push_padded(s, n / 10, w2);
        push_digit(s, n % 10);
        proof {
            assert(final(s)@ =~= old(s)@ + (padded((n / 10) as nat, w2 as nat) + seq![
                digit_char((n % 10) as nat),
            ]));
        }
    }
}

/// The day `(y, m, d)` as `YYYY-MM-DD`.
pub fn format_date(y: i32, m: u8, d: u8) -> (r: String)
    ensures
        r@ == date_text(y, m, d),
{
    let mut r = String::new();
    if y < 0 {
        r.append("-");
        proof {
            reveal_strlit("-");
        }
        let a: u64 = (-(y as i64)) as u64;
        push_padded(&mut r, a, 4);
    } else {
        push_padded(&mut r, y as u64, 4);
    }
    r.append("-");
    push_padded(&mut r, m as u64, 2);
    r.append("-");
    push_padded(&mut r, d as u64, 2);
    proof {
        reveal_strlit("-");
        assert(r@ =~= date_text(y, m, d));
    }
    r
}

/// The day of the timestamp `secs` as `YYYY-MM-DD`, or `1970-01-01` where it
/// is out of range.
pub fn format_day(secs: i64) -> (r: String)
    ensures
        r@ == day_text(secs),
{
    match utc_date(secs) {
        Some((y, m, d)) => format_date(y, m, d),
        None => {
            proof {
                reveal_strlit("1970-01-01");
            }
            let r = "1970-01-01".to_owned();
            proof {
                assert(r@ =~= seq!['1', '9', '7', '0', '-', '0', '1', '-', '0', '1']);
            }
            r
        },
    }
}

/// `s` with each `/` written as `_`.
pub fn mime_to_segment(s: &str) -> (r: String)
    ensures
        r@ == mime_segment(s@),
{
    let n = s.unicode_len();
    let mut r = String::new();
    let mut i: usize = 0;
    proof {
        reveal_strlit("_");
    }
    while i < n
        invariant
            n == s@.len(),
            i <= n,
            r@ =~= mime_segment(s@.take(i as int)),
        decreases n - i,
    {
        if s.get_char(i) == '/' {
            r.append("_");
        } else {
            r.append(s.substring_char(i, i + 1));
        }
        proof {
            reveal_strlit("_");
            assert(s@.take(i + 1) =~= s@.take(i as int).push(s@[i as int]));
            assert(mime_segment(s@.take(i + 1)) =~= mime_segment(s@.take(i as int)).push(
                if s@[i as int] == '/' {
                    '_'
                } else {
                    s@[i as int]
                },
            ));
        }
        i = i + 1;
    }
    proof {
        assert(s@.take(n as int) =~= s@);
    }
    r
}

impl OrganizeFSEntry {
    /// The entry for the host file at `host_path`, listed as `name`, of
    /// `len` bytes, with the content type `mime` (none where it could not
    /// be told) and modified at the Unix time `modified` (none where the
    /// host gave none: the epoch is taken).
    pub fn new(
        host_path: &str,
        name: String,
        len: u64,
        mime: Option<String>,
        modified: Option<i64>,
    ) -> (r: Self)
        ensures
            r.host_path@ == normalized(host_path@),
            r.name@ == name@,
            r.size@ == human_size(len),
            r.mime@ == match mime {
                Some(m) => mime_segment(m@),
                None => Seq::<char>::empty(),
            },
            r.modified_date@ == day_text(
                match modified {
                    Some(t) => t,
                    None => 0,
                },
            ),
    {
        let host = crate::path::normalize(host_path);
        let size = format_size(len);
        let mime = match mime {
            Some(m) => mime_to_segment(m.as_str()),
            None => String::new(),
        };
        let secs = match modified {
            Some(t) => t,
            None => 0,
        };
        let modified_date = format_day(secs);
        OrganizeFSEntry { name, host_path: host, size, mime, modified_date }
    }
}

} // verus!
