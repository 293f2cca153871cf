//! Board export timestamps: ISO 8601 UTC text to seconds since the Unix epoch,
//! and durations back to short human-readable text.
use vstd::prelude::*;
use crate::text::{
    is_ws, all_ws, is_digit, digit_value, digit_char, nat_decimal, push_u64_decimal, collect_chars, is_whitespace,
    is_ascii_digit,
};
use crate::json::{scan_ws, lemma_scan_ws, lemma_scan_ws_skip, lemma_scan_ws_all};

verus! {

broadcast use vstd::std_specs::vec::group_vec_axioms, vstd::seq::group_seq_axioms;

// ----- Text positions -----

/// The end of `[lo, hi)` once trailing whitespace is dropped.
pub open spec fn back_ws(s: Seq<char>, lo: int, hi: int) -> int
    decreases hi - lo,
{
    if lo < hi && is_ws(s[hi - 1]) {
        back_ws(s, lo, hi - 1)
    } else {
        hi
    }
}

/// The first position in `[from, hi)` holding `c`, or `hi` when there is none.
pub open spec fn find_in(s: Seq<char>, c: char, from: int, hi: int) -> int
    decreases hi - from,
{
    if from < hi && s[from] != c {
        find_in(s, c, from + 1, hi)
    } else {
        from
    }
}

/// The `k`-th field (from 0) of `[lo, hi)` when split at every `c`, as a range.
pub open spec fn piece_range(s: Seq<char>, lo: int, hi: int, c: char, k: nat) -> Option<(int, int)>
    decreases k,
{
    let i = find_in(s, c, lo, hi);
    if k == 0 {
        Some((lo, i))
    } else if i >= hi {
        None
    } else {
        piece_range(s, i + 1, hi, c, (k - 1) as nat)
    }
}

// ----- Integers -----

/// The value of a run of decimal digits.
pub open spec fn digits_value(t: Seq<char>) -> int
    decreases t.len(),
{
    if t.len() == 0 {
        0
    } else {
        digits_value(t.drop_last()) * 10 + digit_value(t.last())
    }
}

/// Every character is an ASCII digit.
pub open spec fn all_digits(t: Seq<char>) -> bool {
    forall|i: int| 0 <= i < t.len() ==> is_digit(#[trigger] t[i])
}

/// What `str::parse::<i64>` accepts: an optional `+` or `-`, then one or more
/// ASCII digits, with a value in the range of `i64`.
pub open spec fn int_literal(t: Seq<char>) -> Option<int> {
    if t.len() == 0 {
        None
    } else {
        let ds = if t[0] == '-' || t[0] == '+' {
            t.drop_first()
        } else {
            t
        };
        if ds.len() == 0 || !all_digits(ds) {
            None
        } else {
            let v = if t[0] == '-' {
                -digits_value(ds)
            } else {
                digits_value(ds)
            };
            if i64::MIN <= v <= i64::MAX {
                Some(v)
            } else {
                None
            }
        }
    }
}

/// The integer written in `[a, b)` of `s`, if any.
pub open spec fn int_in(s: Seq<char>, r: Option<(int, int)>) -> Option<int> {
    match r {
        Some((a, b)) => int_literal(s.subrange(a, b)),
        None => None,
    }
}

/// Digits are worth zero or more.
pub proof fn lemma_digits_nonneg(t: Seq<char>)
    requires
        all_digits(t),
    ensures
        digits_value(t) >= 0,
    decreases t.len(),
{
    if t.len() > 0 {
        assert(is_digit(t[t.len() - 1]));
        assert(all_digits(t.drop_last())) by {
            assert forall|i: int| 0 <= i < t.drop_last().len() implies is_digit(#[trigger] t.drop_last()[i]) by {
                assert(t.drop_last()[i] == t[i]);
            }
        }
        lemma_digits_nonneg(t.drop_last());
    }
}

/// A run of digits is worth at least any of its prefixes.
pub proof fn lemma_digits_prefix(t: Seq<char>, k: int)
    requires
        all_digits(t),
        0 <= k <= t.len(),
    ensures
        digits_value(t) >= digits_value(t.subrange(0, k)),
    decreases t.len() - k,
{
    if k < t.len() {
        lemma_digits_prefix(t, k + 1);
        let p = t.subrange(0, k + 1);
        assert(p.drop_last() =~= t.subrange(0, k));
        assert(is_digit(t[k]));
        assert(all_digits(t.subrange(0, k))) by {
            assert forall|i: int| 0 <= i < k implies is_digit(#[trigger] t.subrange(0, k)[i]) by {
                assert(t.subrange(0, k)[i] == t[i]);
            }
        }
        lemma_digits_nonneg(t.subrange(0, k));
    } else {
        assert(t.subrange(0, k) =~= t);
    }
}

/// `str::parse::<i64>` on the characters `[a, b)` of `chars`.
fn parse_i64(chars: &Vec<char>, a: usize, b: usize) -> (r: Option<i64>)
    requires
        a <= b <= chars.len(),
    ensures
        match int_literal(chars@.subrange(a as int, b as int)) {
            Some(v) => r matches Some(x) && x as int == v,
            None => r is None,
        },
{
    let ghost t = chars@.subrange(a as int, b as int);
    if a >= b {
        return None;
    }
    let neg = chars[a] == '-';
    let start = if chars[a] == '-' || chars[a] == '+' {
        a + 1
    } else {
        a
    };
    let ghost ds = if t[0] == '-' || t[0] == '+' {
        t.drop_first()
    } else {
        t
    };
    assert(ds =~= chars@.subrange(start as int, b as int));
    if start >= b {
        return None;
    }
    let mut acc: u128 = 0;
    let mut i = start;
    while i < b
        invariant
            a <= start <= i <= b <= chars.len(),
            ds == chars@.subrange(start as int, b as int),
            t == chars@.subrange(a as int, b as int),
            t.len() > 0,
            neg == (t[0] == '-'),
            ds == (if t[0] == '-' || t[0] == '+' {
                t.drop_first()
            } else {
                t
            }),
            ds.len() > 0,
            acc == digits_value(ds.subrange(0, i - start)),
            all_digits(ds.subrange(0, i - start)),
            acc <= 0x8000_0000_0000_0000,
        decreases b - i,
    {
        let c = chars[i];
        if !is_ascii_digit(c) {
            assert(!all_digits(ds)) by {
                assert(ds[i - start] == c);
            }
            return None;
        }
        let ghost pre = ds.subrange(0, i - start);
        let ghost next = ds.subrange(0, i - start + 1);
        assert(next.drop_last() =~= pre);
        assert(next.last() == c);
        acc = acc * 10 + (c as u32 - 48) as u128;
        assert(all_digits(next)) by {
            assert forall|j: int| 0 <= j < next.len() implies is_digit(#[trigger] next[j]) by {
                if j < next.len() - 1 {
                    assert(next[j] == pre[j]);
                }
            }
        }
        i = i + 1;
        if acc > 0x8000_0000_0000_0000 {
            proof {
                if all_digits(ds) {
                    lemma_digits_prefix(ds, i - start);
                }
            }
            return None;
        }
    }
    assert(ds.subrange(0, i - start) =~= ds);
    if neg {
        if acc == 0x8000_0000_0000_0000 {
            Some(i64::MIN)
        } else {
            Some(-(acc as i64))
        }
    } else if acc <= 0x7FFF_FFFF_FFFF_FFFF {
        Some(acc as i64)
    } else {
        None
    }
}

// ----- Calendar -----

/// Howard Hinnant's days-from-civil count: days from 1970-01-01 to the proleptic
/// Gregorian date `y`-`m`-`d` (floor division throughout).
pub open spec fn civil_days(y: int, m: int, d: int) -> int {
    let y1 = if m <= 2 { y - 1 } else { y };
    let era = y1 / 400;
    let yoe = y1 - era * 400;
    let mp = (m + 9) % 12;
    let doy = (153 * mp + 2) / 5 + d - 1;
    let doe = yoe * 365 + yoe / 4 - yoe / 100 + doy;
    era * 146097 + doe - 719468
}

/// Days from 1970-01-01 to `y`-`m`-`d`, wrapping at 64 bits (only years beyond
/// about 2.5e16 wrap).
pub fn days_from_civil(y: i64, m: i64, d: i64) -> (r: i64)
    requires
        1 <= m <= 12,
        1 <= d <= 31,
        i64::MIN + 400 <= y,
    ensures
        r == civil_days(y as int, m as int, d as int) as i64,
{
    let y1: i128 = if m <= 2 { y as i128 - 1 } else { y as i128 };
    let era: i128 = if y1 >= 0 { y1 / 400 } else { -((-y1 + 399) / 400) };
    assert(era == y1 / 400) by (nonlinear_arith)
        requires
            era == (if y1 >= 0 { y1 / 400 } else { -((-y1 + 399) / 400) }),
    ;
    let yoe: i128 = y1 - era * 400;
    assert(0 <= yoe < 400) by (nonlinear_arith)
        requires
            era == y1 / 400,
            yoe == y1 - era * 400,
    ;
    let mp: i128 = (m as i128 + 9) % 12;
    let doy: i128 = (153 * mp + 2) / 5 + d as i128 - 1;
    let doe: i128 = yoe * 365 + yoe / 4 - yoe / 100 + doy;
    assert(-0x10000000000000000 < era < 0x10000000000000000);
    let days: i128 = era * 146097 + doe - 719468;
    #[verifier::truncate] (days as i64)
}

/// The seconds of a date and time, wrapping at 64 bits: the day count wrapped,
/// then the whole sum wrapped.
pub open spec fn epoch_seconds(y: int, m: int, d: int, h: int, mi: int, sec: int) -> i64 {
    ((civil_days(y, m, d) as i64) * 86400 + h * 3600 + mi * 60 + sec) as i64
}

// ----- Timestamps -----

/// The pieces of an export timestamp, as ranges of `s`: surrounding whitespace
/// dropped, then one trailing `Z`; the date is the text before the first `T`,
/// split at `-` into year, month and day; the time is the text after it, split at
/// `:` into hour, minute and a seconds field whose part before `.` is the seconds.
pub open spec fn iso_pieces(s: Seq<char>) -> Option<(int, int, int, int, int, int)> {
    let lo = scan_ws(s, 0);
    let hi0 = back_ws(s, lo, s.len() as int);
    let hi = if hi0 > lo && s[hi0 - 1] == 'Z' { hi0 - 1 } else { hi0 };
    let t = find_in(s, 'T', lo, hi);
    if t >= hi {
        None
    } else {
        let sec_field = piece_range(s, t + 1, hi, ':', 2);
        match (
            int_in(s, piece_range(s, lo, t, '-', 0)),
            int_in(s, piece_range(s, lo, t, '-', 1)),
            int_in(s, piece_range(s, lo, t, '-', 2)),
            int_in(s, piece_range(s, t + 1, hi, ':', 0)),
            int_in(s, piece_range(s, t + 1, hi, ':', 1)),
            sec_field,
        ) {
            (Some(y), Some(mo), Some(d), Some(h), Some(mi), Some((sa, sb))) => match int_in(
                s,
                piece_range(s, sa, sb, '.', 0),
            ) {
                Some(sec) => Some((y, mo, d, h, mi, sec)),
                None => None,
            },
            _ => None,
        }
    }
}

/// Seconds since the Unix epoch of an ISO 8601 UTC timestamp such as
/// `2024-01-15T09:30:00.000Z`; `None` when a piece is missing or not an integer,
/// the month is outside 1..=12, the day outside 1..=31, or the result negative.
pub open spec fn iso8601_utc(s: Seq<char>) -> Option<u64> {
    match iso_pieces(s) {
        Some((y, mo, d, h, mi, sec)) => if 1 <= mo <= 12 && 1 <= d <= 31 {
            let total = epoch_seconds(y, mo, d, h, mi, sec);
            if total < 0 {
                None
            } else {
                Some(total as u64)
            }
        } else {
            None
        },
        None => None,
    }
}

/// Where a search stops, and that it skips no match.
proof fn lemma_find_in(s: Seq<char>, c: char, from: int, hi: int)
    requires
        0 <= from <= hi <= s.len(),
    ensures
        from <= find_in(s, c, from, hi) <= hi,
        find_in(s, c, from, hi) < hi ==> s[find_in(s, c, from, hi)] == c,
        forall|j: int| from <= j < find_in(s, c, from, hi) ==> s[j] != c,
    decreases hi - from,
{
    if from < hi && s[from] != c {
        lemma_find_in(s, c, from + 1, hi);
    }
}

/// A field lies within its range and holds no separator.
proof fn lemma_piece_range(s: Seq<char>, lo: int, hi: int, c: char, k: nat)
    requires
        0 <= lo <= hi <= s.len(),
    ensures
        piece_range(s, lo, hi, c, k) matches Some((a, b)) ==> {
            &&& lo <= a <= b <= hi
            &&& forall|j: int| a <= j < b ==> s[j] != c
        },
    decreases k,
{
    lemma_find_in(s, c, lo, hi);
    let i = find_in(s, c, lo, hi);
    if k > 0 && i < hi {
        lemma_piece_range(s, i + 1, hi, c, (k - 1) as nat);
    }
}

/// The first position in `[from, hi)` holding `c`, or `hi`.
fn find_char(chars: &Vec<char>, c: char, from: usize, hi: usize) -> (r: usize)
    requires
        from <= hi <= chars.len(),
    ensures
        r == find_in(chars@, c, from as int, hi as int),
{
    let mut i = from;
    while i < hi && chars[i] != c
        invariant
            from <= i <= hi <= chars.len(),
            find_in(chars@, c, i as int, hi as int) == find_in(chars@, c, from as int, hi as int),
        decreases hi - i,
    {
        i = i + 1;
    }
    i
}

/// The `k`-th field of `[lo, hi)` split at `c`.
fn piece(chars: &Vec<char>, lo: usize, hi: usize, c: char, k: usize) -> (r: Option<(usize, usize)>)
    requires
        lo <= hi <= chars.len(),
    ensures
        match piece_range(chars@, lo as int, hi as int, c, k as nat) {
            Some((a, b)) => r matches Some((x, y)) && x == a && y == b,
            None => r is None,
        },
{
    let mut start = lo;
    let mut left = k;
    loop
        invariant
            lo <= start <= hi <= chars.len(),
            piece_range(chars@, lo as int, hi as int, c, k as nat) == piece_range(
                chars@,
                start as int,
                hi as int,
                c,
                left as nat,
            ),
        decreases left,
    {
        let i = find_char(chars, c, start, hi);
        proof {
            lemma_find_in(chars@, c, start as int, hi as int);
        }
        if left == 0 {
            return Some((start, i));
        }
        if i >= hi {
            return None;
        }
        start = i + 1;
        left = left - 1;
    }
}

/// The integer written in a field, if any.
fn int_at(chars: &Vec<char>, r: Option<(usize, usize)>) -> (v: Option<i64>)
    requires
        r matches Some((a, b)) ==> a <= b <= chars.len(),
    ensures
        match int_in(chars@, match r { Some((a, b)) => Some((a as int, b as int)), None => None }) {
            Some(x) => v matches Some(y) && y as int == x,
            None => v is None,
        },
{
    match r {
        Some((a, b)) => parse_i64(chars, a, b),
        None => None,
    }
}

/// An integer without a leading minus sign is not negative.
proof fn lemma_int_literal_nonneg(t: Seq<char>)
    requires
        t.len() > 0 ==> t[0] != '-',
    ensures
        int_literal(t) matches Some(v) ==> v >= 0,
{
    if t.len() > 0 {
        let ds = if t[0] == '+' { t.drop_first() } else { t };
        if ds.len() > 0 && all_digits(ds) {
            lemma_digits_nonneg(ds);
        }
    }
}

/// The six integers of a timestamp, as `iso_pieces` reads them.
fn read_pieces(chars: &Vec<char>) -> (r: Option<(i64, i64, i64, i64, i64, i64)>)
    ensures
        match iso_pieces(chars@) {
            Some((y, mo, d, h, mi, sec)) => r matches Some((y2, mo2, d2, h2, mi2, sec2)) && y2 == y
                && mo2 == mo && d2 == d && h2 == h && mi2 == mi && sec2 == sec,
            None => r is None,
        },
        iso_pieces(chars@) matches Some((y, mo, d, h, mi, sec)) ==> y >= 0,
{
    let ghost q = chars@;
    let n = chars.len();
    let mut lo: usize = 0;
    while lo < n && is_whitespace(chars[lo])
        invariant
            lo <= n == chars.len(),
            scan_ws(chars@, lo as int) == scan_ws(chars@, 0),
        decreases n - lo,
    {
        lo = lo + 1;
    }
    let mut hi: usize = n;
    while hi > lo && is_whitespace(chars[hi - 1])
        invariant
            lo <= hi <= n == chars.len(),
            back_ws(chars@, lo as int, hi as int) == back_ws(chars@, lo as int, n as int),
        decreases hi - lo,
    {
        hi = hi - 1;
    }
    if hi > lo && chars[hi - 1] == 'Z' {
        hi = hi - 1;
    }
    let t = find_char(chars, 'T', lo, hi);
    proof {
        lemma_find_in(q, 'T', lo as int, hi as int);
    }
    if t >= hi {
        return None;
    }
    proof {
        lemma_piece_range(q, lo as int, t as int, '-', 0);
        lemma_piece_range(q, lo as int, t as int, '-', 1);
        lemma_piece_range(q, lo as int, t as int, '-', 2);
        lemma_piece_range(q, t + 1, hi as int, ':', 0);
        lemma_piece_range(q, t + 1, hi as int, ':', 1);
        lemma_piece_range(q, t + 1, hi as int, ':', 2);
        let (ya, yb) = piece_range(q, lo as int, t as int, '-', 0)->Some_0;
        let yt = q.subrange(ya, yb);
        if yt.len() > 0 {
            assert(yt[0] == q[ya]);
        }
        lemma_int_literal_nonneg(yt);
    }
    let year = int_at(chars, piece(chars, lo, t, '-', 0));
    let month = int_at(chars, piece(chars, lo, t, '-', 1));
    let day = int_at(chars, piece(chars, lo, t, '-', 2));
    let hour = int_at(chars, piece(chars, t + 1, hi, ':', 0));
    let minute = int_at(chars, piece(chars, t + 1, hi, ':', 1));
    let sec_field = piece(chars, t + 1, hi, ':', 2);
    let second = match sec_field {
        Some((sa, sb)) => {
            proof {
                lemma_piece_range(q, sa as int, sb as int, '.', 0);
            }
            int_at(chars, piece(chars, sa, sb, '.', 0))
        },
        None => None,
    };
    match (year, month, day, hour, minute, second) {
        (Some(year), Some(month), Some(day), Some(hour), Some(minute), Some(second)) => Some(
            (year, month, day, hour, minute, second),
        ),
        _ => None,
    }
}

/// Seconds since the Unix epoch of a board export timestamp (ISO 8601 UTC, such
/// as `2024-01-15T09:30:00.000Z`).
pub fn parse_iso8601_utc(s: &str) -> (r: Option<u64>)
    ensures
        r == iso8601_utc(s@),
{
    let chars = collect_chars(s);
    match read_pieces(&chars) {
        Some((year, month, day, hour, minute, second)) => {
            if !(1 <= month && month <= 12) || !(1 <= day && day <= 31) {
                return None;
            }
            let days = days_from_civil(year, month, day);
            let total: i128 = days as i128 * 86400 + hour as i128 * 3600 + minute as i128 * 60
                + second as i128;
            let total = #[verifier::truncate] (total as i64);
            if total < 0 {
                None
            } else {
                Some(total as u64)
            }
        },
        None => None,
    }
}

// ----- Durations -----

/// A duration as `"<d>d <h>h"`, `"<h>h <m>m"` or `"<m>m"`, by its largest non-zero
/// unit; negative durations read as zero.
pub open spec fn duration_text(total: int) -> Seq<char> {
    let secs = if total < 0 { 0 } else { total };
    let days = secs / 86400;
    let hours = (secs % 86400) / 3600;
    let minutes = (secs % 3600) / 60;
    if days > 0 {
        nat_decimal(days as nat) + seq!['d', ' '] + nat_decimal(hours as nat) + seq!['h']
    } else if hours > 0 {
        nat_decimal(hours as nat) + seq!['h', ' '] + nat_decimal(minutes as nat) + seq!['m']
    } else {
        nat_decimal(minutes as nat) + seq!['m']
    }
}

/// Renders a duration in seconds for people: days and hours, hours and minutes,
/// or minutes alone.
pub fn format_duration(total_seconds: i64) -> (r: String)
    ensures
        r@ == duration_text(total_seconds as int),
{
    let seconds: u64 = if total_seconds < 0 { 0 } else { total_seconds as u64 };
    let days = seconds / 86400;
    let hours = (seconds % 86400) / 3600;
    let minutes = (seconds % 3600) / 60;
    let mut out = String::new();
    if days > 0 {
        push_u64_decimal(&mut out, days);
        out.append("d ");
        push_u64_decimal(&mut out, hours);
        out.append("h");
    } else if hours > 0 {
        push_u64_decimal(&mut out, hours);
        out.append("h ");
        push_u64_decimal(&mut out, minutes);
        out.append("m");
    } else {
        push_u64_decimal(&mut out, minutes);
        out.append("m");
    }
    proof {
        reveal_strlit("d ");
        reveal_strlit("h ");
        reveal_strlit("h");
        reveal_strlit("m");
    }
    assert(out@ =~= duration_text(total_seconds as int));
    out
}

// ----- The calendar laws -----

/// Gregorian leap years.
pub open spec fn is_leap(y: int) -> bool {
    (y % 4 == 0 && y % 100 != 0) || y % 400 == 0
}

/// The number of days in month `m` of year `y`.
pub open spec fn month_length(y: int, m: int) -> int {
    if m == 2 {
        if is_leap(y) {
            29
        } else {
            28
        }
    } else if m == 4 || m == 6 || m == 9 || m == 11 {
        30
    } else {
        31
    }
}

/// Days before March 1 of year `y`, counted in whole shifted years (March to February).
pub open spec fn shifted_year_days(y: int) -> int {
    365 * y + y / 4 - y / 100 + y / 400
}

/// The era arithmetic of the day count adds up to whole shifted years.
proof fn lemma_era_split(y: int)
    ensures
        (y / 400) * 146097 + (y - (y / 400) * 400) * 365 + (y - (y / 400) * 400) / 4 - (y - (y / 400)
            * 400) / 100 == shifted_year_days(y),
{
    let era = y / 400;
    let yoe = y - era * 400;
    assert(0 <= yoe < 400) by (nonlinear_arith)
        requires
            era == y / 400,
            yoe == y - era * 400,
    ;
    assert(y / 4 == era * 100 + yoe / 4) by (nonlinear_arith)
        requires
            y == era * 400 + yoe,
            0 <= yoe < 400,
    ;
    assert(y / 100 == era * 4 + yoe / 100) by (nonlinear_arith)
        requires
            y == era * 400 + yoe,
            0 <= yoe < 400,
    ;
}

/// The day count as whole shifted years plus the day in the shifted year.
proof fn lemma_civil_days_shifted(y: int, m: int, d: int)
    requires
        1 <= m <= 12,
    ensures
        civil_days(y, m, d) == shifted_year_days(if m <= 2 { y - 1 } else { y }) + (153 * ((m + 9) % 12)
            + 2) / 5 + d - 1 - 719468,
{
    lemma_era_split(if m <= 2 { y - 1 } else { y });
}

/// A shifted year has 365 days, and 366 when the February it ends with is a leap one.
proof fn lemma_shifted_year_step(y: int)
    ensures
        shifted_year_days(y) == shifted_year_days(y - 1) + 365 + if is_leap(y) { 1int } else { 0 },
{
    assert((y / 4 - (y - 1) / 4 == 1) == (y % 4 == 0)) by (nonlinear_arith);
    assert(0 <= y / 4 - (y - 1) / 4 <= 1) by (nonlinear_arith);
    assert((y / 100 - (y - 1) / 100 == 1) == (y % 100 == 0)) by (nonlinear_arith);
    assert(0 <= y / 100 - (y - 1) / 100 <= 1) by (nonlinear_arith);
    assert((y / 400 - (y - 1) / 400 == 1) == (y % 400 == 0)) by (nonlinear_arith);
    assert(0 <= y / 400 - (y - 1) / 400 <= 1) by (nonlinear_arith);
    assert(y % 400 == 0 ==> y % 100 == 0) by (nonlinear_arith);
    assert(y % 100 == 0 ==> y % 4 == 0) by (nonlinear_arith);
}

/// Calendar law: the day count is zero on the Unix epoch, 1970-01-01.
pub proof fn law_epoch_is_day_zero()
    ensures
        civil_days(1970, 1, 1) == 0,
{
    lemma_civil_days_shifted(1970, 1, 1);
}

/// Calendar law: within a month, each next day counts one more.
pub proof fn law_next_day(y: int, m: int, d: int)
    requires
        1 <= m <= 12,
    ensures
        civil_days(y, m, d + 1) == civil_days(y, m, d) + 1,
{
    lemma_civil_days_shifted(y, m, d);
    lemma_civil_days_shifted(y, m, d + 1);
}

/// Calendar law: within a month, day `d` counts `d - 1` days on from the first,
/// whatever the month's length (a day past its end counts on into the next month).
pub proof fn law_day_of_month(y: int, m: int, d: int)
    requires
        1 <= m <= 12,
    ensures
        civil_days(y, m, d) == civil_days(y, m, 1) + (d - 1),
{
    lemma_civil_days_shifted(y, m, d);
    lemma_civil_days_shifted(y, m, 1);
}

/// Calendar law: the first of a month comes one day after the last day of the
/// month before, with February 29 days long in Gregorian leap years.
pub proof fn law_next_month(y: int, m: int)
    requires
        1 <= m <= 11,
    ensures
        civil_days(y, m + 1, 1) == civil_days(y, m, month_length(y, m)) + 1,
{
    lemma_civil_days_shifted(y, m, month_length(y, m));
    lemma_civil_days_shifted(y, m + 1, 1);
    if m == 2 {
        lemma_shifted_year_step(y);
    }
}

/// Calendar law: January 1 comes one day after December 31 of the year before.
pub proof fn law_next_year(y: int)
    ensures
        civil_days(y + 1, 1, 1) == civil_days(y, 12, 31) + 1,
{
    lemma_civil_days_shifted(y + 1, 1, 1);
    lemma_civil_days_shifted(y, 12, 31);
}

/// A real calendar date: a month of the year and a day of that month.
pub open spec fn valid_date(y: int, m: int, d: int) -> bool {
    1 <= m <= 12 && 1 <= d <= month_length(y, m)
}

/// A day comes no earlier than the first of any month `m0` up to its own.
proof fn lemma_after_month_start(y: int, m0: int, m: int, d: int)
    requires
        1 <= m0 <= m,
        valid_date(y, m, d),
    ensures
        civil_days(y, m0, 1) <= civil_days(y, m, d),
    decreases m - m0,
{
    law_day_of_month(y, m, d);
    if m0 < m {
        law_next_month(y, m - 1);
        law_day_of_month(y, m - 1, month_length(y, m - 1));
        lemma_after_month_start(y, m0, m - 1, month_length(y, m - 1));
    }
}

/// A day comes no later than December 31 of its year.
proof fn lemma_before_year_end(y: int, m: int, d: int)
    requires
        valid_date(y, m, d),
    ensures
        civil_days(y, m, d) <= civil_days(y, 12, 31),
    decreases 12 - m,
{
    law_day_of_month(y, m, d);
    law_day_of_month(y, m, month_length(y, m));
    if m < 12 {
        law_next_month(y, m);
        lemma_before_year_end(y, m + 1, 1);
    } else {
        law_day_of_month(y, 12, 31);
    }
}

/// The last day of a year comes before the first day of any later year.
proof fn lemma_year_end_before(y: int, y2: int)
    requires
        y < y2,
    ensures
        civil_days(y, 12, 31) < civil_days(y2, 1, 1),
    decreases y2 - y,
{
    law_next_year(y);
    if y + 1 < y2 {
        lemma_before_year_end(y + 1, 1, 1);
        lemma_year_end_before(y + 1, y2);
    }
}

/// Calendar law: an earlier date has a smaller day count.
pub proof fn law_earlier_date_fewer_days(y: int, m: int, d: int, y2: int, m2: int, d2: int)
    requires
        valid_date(y, m, d),
        valid_date(y2, m2, d2),
        y < y2 || (y == y2 && (m < m2 || (m == m2 && d < d2))),
    ensures
        civil_days(y, m, d) < civil_days(y2, m2, d2),
{
    if y < y2 {
        lemma_before_year_end(y, m, d);
        lemma_year_end_before(y, y2);
        lemma_after_month_start(y2, 1, m2, d2);
    } else if m < m2 {
        law_day_of_month(y, m, d);
        law_day_of_month(y, m, month_length(y, m));
        law_next_month(y, m);
        lemma_after_month_start(y, m + 1, m2, d2);
    } else {
        law_day_of_month(y, m, d);
        law_day_of_month(y, m, d2);
    }
}

/// A later instant has more seconds: for real dates in years 0 to 1,000,000,000
/// and times of day within range, an instant earlier in (year, month, day, hour,
/// minute, second) order has fewer seconds since the epoch.
pub proof fn law_later_instant_more_seconds(
    y: int,
    m: int,
    d: int,
    h: int,
    mi: int,
    sec: int,
    y2: int,
    m2: int,
    d2: int,
    h2: int,
    mi2: int,
    sec2: int,
)
    requires
        0 <= y <= 1_000_000_000,
        0 <= y2 <= 1_000_000_000,
        valid_date(y, m, d),
        valid_date(y2, m2, d2),
        0 <= h < 24 && 0 <= mi < 60 && 0 <= sec < 60,
        0 <= h2 < 24 && 0 <= mi2 < 60 && 0 <= sec2 < 60,
        (y, m, d) != (y2, m2, d2) ==> (y < y2 || (y == y2 && (m < m2 || (m == m2 && d < d2)))),
        (y, m, d) == (y2, m2, d2) ==> (h < h2 || (h == h2 && (mi < mi2 || (mi == mi2 && sec < sec2)))),
    ensures
        epoch_seconds(y, m, d, h, mi, sec) < epoch_seconds(y2, m2, d2, h2, mi2, sec2),
{
    law_epoch_seconds_exact(y, m, d, h, mi, sec);
    law_epoch_seconds_exact(y2, m2, d2, h2, mi2, sec2);
    let days = civil_days(y, m, d);
    let days2 = civil_days(y2, m2, d2);
    let tod = h * 3600 + mi * 60 + sec;
    let tod2 = h2 * 3600 + mi2 * 60 + sec2;
    assert(0 <= tod < 86400 && 0 <= tod2 < 86400);
    if (y, m, d) != (y2, m2, d2) {
        law_earlier_date_fewer_days(y, m, d, y2, m2, d2);
        assert(days * 86400 + tod < days2 * 86400 + tod2) by (nonlinear_arith)
            requires
                days < days2,
                0 <= tod < 86400,
                0 <= tod2,
        ;
    } else {
        assert(tod < tod2);
    }
}

/// The canonical text of an instant, `YYYY-MM-DDTHH:MM:SSZ`, each field in
/// fixed-width decimal digits.
pub open spec fn canonical_timestamp(y: int, m: int, d: int, h: int, mi: int, sec: int) -> Seq<char> {
    seq![
        digit_char(y / 1000), digit_char(y / 100 % 10), digit_char(y / 10 % 10), digit_char(y % 10), '-',
        digit_char(m / 10), digit_char(m % 10), '-',
        digit_char(d / 10), digit_char(d % 10), 'T',
        digit_char(h / 10), digit_char(h % 10), ':',
        digit_char(mi / 10), digit_char(mi % 10), ':',
        digit_char(sec / 10), digit_char(sec % 10), 'Z'
    ]
}

/// A digit character is an ASCII digit with its value.
proof fn lemma_digit_char(x: int)
    requires
        0 <= x < 10,
    ensures
        is_digit(digit_char(x)),
        digit_value(digit_char(x)) == x,
        !is_ws(digit_char(x)),
        digit_char(x) != '-' && digit_char(x) != '+' && digit_char(x) != 'T' && digit_char(x) != ':'
            && digit_char(x) != '.' && digit_char(x) != 'Z',
{
}

/// Two digit characters read as their two-digit number.
proof fn lemma_two_digits(n: int)
    requires
        0 <= n < 100,
    ensures
        int_literal(seq![digit_char(n / 10), digit_char(n % 10)]) == Some(n),
{
    let t = seq![digit_char(n / 10), digit_char(n % 10)];
    lemma_digit_char(n / 10);
    lemma_digit_char(n % 10);
    assert(t.drop_last() =~= seq![digit_char(n / 10)]);
    assert(t.drop_last().drop_last() =~= Seq::<char>::empty());
    assert(digits_value(t.drop_last().drop_last()) == 0);
    assert(digits_value(t.drop_last()) == n / 10);
    assert(digits_value(t) == (n / 10) * 10 + n % 10);
    assert(all_digits(t));
}

/// Four digit characters read as their four-digit number.
proof fn lemma_four_digits(n: int)
    requires
        0 <= n < 10000,
    ensures
        int_literal(seq![digit_char(n / 1000), digit_char(n / 100 % 10), digit_char(n / 10 % 10), digit_char(n % 10)])
            == Some(n),
{
    let t = seq![digit_char(n / 1000), digit_char(n / 100 % 10), digit_char(n / 10 % 10), digit_char(n % 10)];
    lemma_digit_char(n / 1000);
    lemma_digit_char(n / 100 % 10);
    lemma_digit_char(n / 10 % 10);
    lemma_digit_char(n % 10);
    assert(t.drop_last() =~= seq![digit_char(n / 1000), digit_char(n / 100 % 10), digit_char(n / 10 % 10)]);
    assert(t.drop_last().drop_last() =~= seq![digit_char(n / 1000), digit_char(n / 100 % 10)]);
    assert(t.drop_last().drop_last().drop_last() =~= seq![digit_char(n / 1000)]);
    assert(t.drop_last().drop_last().drop_last().drop_last() =~= Seq::<char>::empty());
    assert(((n / 1000 * 10 + n / 100 % 10) * 10 + n / 10 % 10) * 10 + n % 10 == n) by (nonlinear_arith)
        requires
            0 <= n < 10000,
    ;
    let t1 = t.drop_last();
    let t2 = t1.drop_last();
    let t3 = t2.drop_last();
    assert(digits_value(t3.drop_last()) == 0);
    assert(digits_value(t3) == n / 1000);
    assert(digits_value(t2) == n / 1000 * 10 + n / 100 % 10);
    assert(digits_value(t1) == (n / 1000 * 10 + n / 100 % 10) * 10 + n / 10 % 10);
    assert(digits_value(t) == n);
    assert(all_digits(t));
}

/// The canonical text of an instant reads back as its fields.
#[verifier::spinoff_prover]
#[verifier::rlimit(60)]
proof fn lemma_canonical_pieces(y: int, m: int, d: int, h: int, mi: int, sec: int)
    requires
        0 <= y < 10000,
        0 <= m < 100 && 0 <= d < 100 && 0 <= h < 100 && 0 <= mi < 100 && 0 <= sec < 100,
    ensures
        iso_pieces(canonical_timestamp(y, m, d, h, mi, sec)) == Some((y, m, d, h, mi, sec)),
{
    let s = canonical_timestamp(y, m, d, h, mi, sec);
    lemma_digit_char(y / 1000);
    lemma_digit_char(y / 100 % 10);
    lemma_digit_char(y / 10 % 10);
    lemma_digit_char(y % 10);
    lemma_digit_char(m / 10);
    lemma_digit_char(m % 10);
    lemma_digit_char(d / 10);
    lemma_digit_char(d % 10);
    lemma_digit_char(h / 10);
    lemma_digit_char(h % 10);
    lemma_digit_char(mi / 10);
    lemma_digit_char(mi % 10);
    lemma_digit_char(sec / 10);
    lemma_digit_char(sec % 10);
    assert(s.len() == 20);
    assert(s[4] == '-' && s[7] == '-' && s[10] == 'T' && s[13] == ':' && s[16] == ':' && s[19] == 'Z');
    let digit_at = |i: int| 0 <= i < 20 && i != 4 && i != 7 && i != 10 && i != 13 && i != 16 && i != 19;
    assert forall|i: int| #[trigger] digit_at(i) implies is_digit(s[i]) && !is_ws(s[i]) && s[i] != '-'
        && s[i] != 'T' && s[i] != ':' && s[i] != '.' && s[i] != 'Z' by {
        if i == 0 { assert(s[0] == digit_char(y / 1000)); }
        else if i == 1 { assert(s[1] == digit_char(y / 100 % 10)); }
        else if i == 2 { assert(s[2] == digit_char(y / 10 % 10)); }
        else if i == 3 { assert(s[3] == digit_char(y % 10)); }
        else if i == 5 { assert(s[5] == digit_char(m / 10)); }
        else if i == 6 { assert(s[6] == digit_char(m % 10)); }
        else if i == 8 { assert(s[8] == digit_char(d / 10)); }
        else if i == 9 { assert(s[9] == digit_char(d % 10)); }
        else if i == 11 { assert(s[11] == digit_char(h / 10)); }
        else if i == 12 { assert(s[12] == digit_char(h % 10)); }
        else if i == 14 { assert(s[14] == digit_char(mi / 10)); }
        else if i == 15 { assert(s[15] == digit_char(mi % 10)); }
        else if i == 17 { assert(s[17] == digit_char(sec / 10)); }
        else { assert(s[18] == digit_char(sec % 10)); }
    }
    assert(digit_at(0));
    assert(scan_ws(s, 0) == 0);
    assert(back_ws(s, 0, 20) == 20);
    // The date ends at the `T`.
    assert forall|i: int| 0 <= i < 10 implies #[trigger] s[i] != 'T' by {
        if i != 4 && i != 7 { assert(digit_at(i)); }
    }
    lemma_find_first(s, 'T', 0, 10, 19);
    // Year, month and day.
    assert forall|i: int| 0 <= i < 4 implies #[trigger] s[i] != '-' by { assert(digit_at(i)); }
    lemma_find_first(s, '-', 0, 4, 10);
    assert forall|i: int| 5 <= i < 7 implies #[trigger] s[i] != '-' by { assert(digit_at(i)); }
    lemma_find_first(s, '-', 5, 7, 10);
    assert forall|i: int| 8 <= i < 10 implies #[trigger] s[i] != '-' by { assert(digit_at(i)); }
    lemma_find_first(s, '-', 8, 10, 10);
    assert(piece_range(s, 8, 10, '-', 0) == Some((8int, 10int)));
    assert(piece_range(s, 5, 10, '-', 1) == Some((8int, 10int)));
    assert(piece_range(s, 0, 10, '-', 2) == Some((8int, 10int)));
    assert(piece_range(s, 5, 10, '-', 0) == Some((5int, 7int)));
    assert(piece_range(s, 0, 10, '-', 1) == Some((5int, 7int)));
    assert(piece_range(s, 0, 10, '-', 0) == Some((0int, 4int)));
    // Hour, minute and seconds.
    assert forall|i: int| 11 <= i < 13 implies #[trigger] s[i] != ':' by { assert(digit_at(i)); }
    lemma_find_first(s, ':', 11, 13, 19);
    assert forall|i: int| 14 <= i < 16 implies #[trigger] s[i] != ':' by { assert(digit_at(i)); }
    lemma_find_first(s, ':', 14, 16, 19);
    assert forall|i: int| 17 <= i < 19 implies #[trigger] s[i] != ':' && s[i] != '.' by { assert(digit_at(i)); }
    lemma_find_first(s, ':', 17, 19, 19);
    lemma_find_first(s, '.', 17, 19, 19);
    assert(piece_range(s, 17, 19, ':', 0) == Some((17int, 19int)));
    assert(piece_range(s, 14, 19, ':', 1) == Some((17int, 19int)));
    assert(piece_range(s, 11, 19, ':', 2) == Some((17int, 19int)));
    assert(piece_range(s, 14, 19, ':', 0) == Some((14int, 16int)));
    assert(piece_range(s, 11, 19, ':', 1) == Some((14int, 16int)));
    assert(piece_range(s, 11, 19, ':', 0) == Some((11int, 13int)));
    assert(piece_range(s, 17, 19, '.', 0) == Some((17int, 19int)));
    // The digits of each field.
    assert(s.subrange(0, 4) =~= seq![digit_char(y / 1000), digit_char(y / 100 % 10), digit_char(y / 10 % 10), digit_char(y % 10)]);
    assert(s.subrange(5, 7) =~= seq![digit_char(m / 10), digit_char(m % 10)]);
    assert(s.subrange(8, 10) =~= seq![digit_char(d / 10), digit_char(d % 10)]);
    assert(s.subrange(11, 13) =~= seq![digit_char(h / 10), digit_char(h % 10)]);
    assert(s.subrange(14, 16) =~= seq![digit_char(mi / 10), digit_char(mi % 10)]);
    assert(s.subrange(17, 19) =~= seq![digit_char(sec / 10), digit_char(sec % 10)]);
    lemma_four_digits(y);
    lemma_two_digits(m);
    lemma_two_digits(d);
    lemma_two_digits(h);
    lemma_two_digits(mi);
    lemma_two_digits(sec);
}

/// The canonical text of a real instant from 1970 on reads as its seconds since
/// the epoch.
pub proof fn law_canonical_timestamp_reads_back(y: int, m: int, d: int, h: int, mi: int, sec: int)
    requires
        1970 <= y <= 9999,
        valid_date(y, m, d),
        0 <= h < 24 && 0 <= mi < 60 && 0 <= sec < 60,
    ensures
        iso8601_utc(canonical_timestamp(y, m, d, h, mi, sec)) == Some(
            (civil_days(y, m, d) * 86400 + h * 3600 + mi * 60 + sec) as u64,
        ),
        civil_days(y, m, d) * 86400 + h * 3600 + mi * 60 + sec >= 0,
{
    lemma_canonical_pieces(y, m, d, h, mi, sec);
    law_epoch_seconds_exact(y, m, d, h, mi, sec);
    law_epoch_is_day_zero();
    if (y, m, d) != (1970int, 1int, 1int) {
        law_earlier_date_fewer_days(1970, 1, 1, y, m, d);
    }
    assert(civil_days(y, m, d) >= 0);
}

/// Later timestamp texts read as larger values: for two real instants from 1970
/// to 9999 written canonically (`YYYY-MM-DDTHH:MM:SSZ`, which sorts as text in
/// the order of the instants), the later one reads as more seconds.
pub proof fn law_later_timestamp_text_larger_value(
    y: int,
    m: int,
    d: int,
    h: int,
    mi: int,
    sec: int,
    y2: int,
    m2: int,
    d2: int,
    h2: int,
    mi2: int,
    sec2: int,
)
    requires
        1970 <= y <= 9999,
        1970 <= y2 <= 9999,
        valid_date(y, m, d),
        valid_date(y2, m2, d2),
        0 <= h < 24 && 0 <= mi < 60 && 0 <= sec < 60,
        0 <= h2 < 24 && 0 <= mi2 < 60 && 0 <= sec2 < 60,
        (y, m, d) != (y2, m2, d2) ==> (y < y2 || (y == y2 && (m < m2 || (m == m2 && d < d2)))),
        (y, m, d) == (y2, m2, d2) ==> (h < h2 || (h == h2 && (mi < mi2 || (mi == mi2 && sec < sec2)))),
    ensures
        iso8601_utc(canonical_timestamp(y, m, d, h, mi, sec)) matches Some(v1) && iso8601_utc(
            canonical_timestamp(y2, m2, d2, h2, mi2, sec2),
        ) matches Some(v2) && v1 < v2,
{
    law_canonical_timestamp_reads_back(y, m, d, h, mi, sec);
    law_canonical_timestamp_reads_back(y2, m2, d2, h2, mi2, sec2);
    law_later_instant_more_seconds(y, m, d, h, mi, sec, y2, m2, d2, h2, mi2, sec2);
    law_epoch_seconds_exact(y, m, d, h, mi, sec);
    law_epoch_seconds_exact(y2, m2, d2, h2, mi2, sec2);
    let t1 = civil_days(y, m, d) * 86400 + h * 3600 + mi * 60 + sec;
    let t2 = civil_days(y2, m2, d2) * 86400 + h2 * 3600 + mi2 * 60 + sec2;
    assert(0 <= t1 < t2 <= 40_000_000_000_000_000);
}

/// For dates in years 0 to 1,000,000,000 and times of day within range, the
/// timestamp arithmetic wraps nowhere: the seconds are exactly the days since
/// the epoch times 86400 plus the time of day.
pub proof fn law_epoch_seconds_exact(y: int, m: int, d: int, h: int, mi: int, sec: int)
    requires
        0 <= y <= 1_000_000_000,
        1 <= m <= 12,
        1 <= d <= 31,
        0 <= h < 24,
        0 <= mi < 60,
        0 <= sec <= 60,
    ensures
        epoch_seconds(y, m, d, h, mi, sec) == civil_days(y, m, d) * 86400 + h * 3600 + mi * 60 + sec,
{
    lemma_civil_days_shifted(y, m, d);
    let y1 = if m <= 2 { y - 1 } else { y };
    assert(-1 <= y1 <= 1_000_000_000);
    assert(-400 <= shifted_year_days(y1) <= 366 * 1_000_000_000) by (nonlinear_arith)
        requires
            -1 <= y1 <= 1_000_000_000,
    ;
    assert(0 <= (153 * ((m + 9) % 12) + 2) / 5 <= 400);
    let days = civil_days(y, m, d);
    assert(-1_000_000 <= days <= 400_000_000_000);
    assert(days as i64 == days);
    let total = days * 86400 + h * 3600 + mi * 60 + sec;
    assert(-1_000_000_000_000 <= total <= 40_000_000_000_000_000) by (nonlinear_arith)
        requires
            -1_000_000 <= days <= 400_000_000_000,
            total == days * 86400 + h * 3600 + mi * 60 + sec,
            0 <= h < 24,
            0 <= mi < 60,
            0 <= sec <= 60,
    ;
}

// ----- What surrounds a timestamp -----

/// `n` characters of `a` from `oa` are those of `b` from `ob`.
pub open spec fn same_run(a: Seq<char>, oa: int, b: Seq<char>, ob: int, n: int) -> bool {
    &&& 0 <= oa && 0 <= ob && 0 <= n
    &&& oa + n <= a.len() && ob + n <= b.len()
    &&& forall|j: int| 0 <= j < n ==> #[trigger] a[oa + j] == b[ob + j]
}

/// A search reads only its range.
proof fn lemma_find_in_run(a: Seq<char>, oa: int, b: Seq<char>, ob: int, n: int, c: char, from: int, hi: int)
    requires
        same_run(a, oa, b, ob, n),
        0 <= from <= hi <= n,
    ensures
        find_in(a, c, oa + from, oa + hi) - oa == find_in(b, c, ob + from, ob + hi) - ob,
    decreases hi - from,
{
    if from < hi {
        assert(a[oa + from] == b[ob + from]);
        lemma_find_in_run(a, oa, b, ob, n, c, from + 1, hi);
    }
}

/// A field reads only its range.
proof fn lemma_piece_range_run(a: Seq<char>, oa: int, b: Seq<char>, ob: int, n: int, lo: int, hi: int, c: char, k: nat)
    requires
        same_run(a, oa, b, ob, n),
        0 <= lo <= hi <= n,
    ensures
        match piece_range(b, ob + lo, ob + hi, c, k) {
            Some((x, y)) => ob <= x <= y <= ob + n && piece_range(a, oa + lo, oa + hi, c, k) == Some(
                (x - ob + oa, y - ob + oa),
            ),
            None => piece_range(a, oa + lo, oa + hi, c, k) is None,
        },
    decreases k,
{
    lemma_find_in_run(a, oa, b, ob, n, c, lo, hi);
    lemma_find_in(b, c, ob + lo, ob + hi);
    let i = find_in(b, c, ob + lo, ob + hi);
    if k > 0 && i < ob + hi {
        lemma_piece_range_run(a, oa, b, ob, n, i + 1 - ob, hi, c, (k - 1) as nat);
    }
}

/// An integer field reads only its range.
proof fn lemma_int_in_run(a: Seq<char>, oa: int, b: Seq<char>, ob: int, n: int, x: int, y: int)
    requires
        same_run(a, oa, b, ob, n),
        ob <= x <= y <= ob + n,
    ensures
        int_in(a, Some((x - ob + oa, y - ob + oa))) == int_in(b, Some((x, y))),
{
    assert forall|j: int| 0 <= j < y - x implies #[trigger] a.subrange(x - ob + oa, y - ob + oa)[j]
        == b.subrange(x, y)[j] by {
        assert(a[oa + (x - ob + j)] == b[ob + (x - ob + j)]);
    }
    assert(a.subrange(x - ob + oa, y - ob + oa) =~= b.subrange(x, y));
}

/// Dropping trailing whitespace reads only its range.
proof fn lemma_back_ws_run(a: Seq<char>, oa: int, b: Seq<char>, ob: int, n: int, lo: int, hi: int)
    requires
        same_run(a, oa, b, ob, n),
        0 <= lo <= hi <= n,
    ensures
        back_ws(a, oa + lo, oa + hi) - oa == back_ws(b, ob + lo, ob + hi) - ob,
        lo <= back_ws(b, ob + lo, ob + hi) - ob <= hi,
    decreases hi - lo,
{
    if lo < hi {
        assert(a[oa + (hi - 1)] == b[ob + (hi - 1)]);
        lemma_back_ws_run(a, oa, b, ob, n, lo, hi - 1);
    }
}

/// Trailing whitespace after `mid` is dropped first.
proof fn lemma_back_ws_tail(t: Seq<char>, lo: int, mid: int, hi: int)
    requires
        lo <= mid <= hi <= t.len(),
        forall|j: int| mid <= j < hi ==> is_ws(#[trigger] t[j]),
    ensures
        back_ws(t, lo, hi) == back_ws(t, lo, mid),
    decreases hi - mid,
{
    if mid < hi {
        assert(is_ws(t[hi - 1]));
        lemma_back_ws_tail(t, lo, mid, hi - 1);
    }
}

/// Skipping whitespace that stops inside a run stops at the same place.
proof fn lemma_scan_ws_run(a: Seq<char>, oa: int, b: Seq<char>, ob: int, n: int, p: int)
    requires
        same_run(a, oa, b, ob, n),
        0 <= p <= n,
        scan_ws(b, ob + p) < ob + n,
    ensures
        scan_ws(a, oa + p) - oa == scan_ws(b, ob + p) - ob,
    decreases n - p,
{
    lemma_scan_ws(b, ob + p);
    if p < n {
        assert(a[oa + p] == b[ob + p]);
        if is_ws(b[ob + p]) {
            lemma_scan_ws_run(a, oa, b, ob, n, p + 1);
        }
    }
}

/// Skipping whitespace stops no later than a character that is not whitespace.
proof fn lemma_scan_ws_stops(t: Seq<char>, p: int, j: int)
    requires
        0 <= p <= j < t.len(),
        !is_ws(t[j]),
    ensures
        scan_ws(t, p) <= j,
    decreases j - p,
{
    if p < j && is_ws(t[p]) {
        lemma_scan_ws_stops(t, p + 1, j);
    }
}

/// The pieces of a timestamp read only the trimmed text: two texts whose trimmed
/// ranges hold the same characters give the same pieces.
#[verifier::spinoff_prover]
#[verifier::rlimit(50)]
proof fn lemma_iso_pieces_run(a: Seq<char>, oa: int, b: Seq<char>, ob: int, n: int)
    requires
        same_run(a, oa, b, ob, n),
        n > 0,
        scan_ws(a, 0) == oa,
        scan_ws(b, 0) == ob,
        back_ws(a, oa, a.len() as int) == oa + n,
        back_ws(b, ob, b.len() as int) == ob + n,
    ensures
        iso_pieces(a) == iso_pieces(b),
{
    let hb = if b[ob + n - 1] == 'Z' { n - 1 } else { n };
    assert(a[oa + (n - 1)] == b[ob + (n - 1)]);
    lemma_find_in_run(a, oa, b, ob, n, 'T', 0, hb);
    lemma_find_in(b, 'T', ob, ob + hb);
    let tb = find_in(b, 'T', ob, ob + hb);
    if tb < ob + hb {
        let t = tb - ob;
        lemma_piece_range_run(a, oa, b, ob, n, 0, t, '-', 0);
        lemma_piece_range_run(a, oa, b, ob, n, 0, t, '-', 1);
        lemma_piece_range_run(a, oa, b, ob, n, 0, t, '-', 2);
        lemma_piece_range_run(a, oa, b, ob, n, t + 1, hb, ':', 0);
        lemma_piece_range_run(a, oa, b, ob, n, t + 1, hb, ':', 1);
        lemma_piece_range_run(a, oa, b, ob, n, t + 1, hb, ':', 2);
        if let Some((x, y)) = piece_range(b, ob, tb, '-', 0) {
            lemma_int_in_run(a, oa, b, ob, n, x, y);
        }
        if let Some((x, y)) = piece_range(b, ob, tb, '-', 1) {
            lemma_int_in_run(a, oa, b, ob, n, x, y);
        }
        if let Some((x, y)) = piece_range(b, ob, tb, '-', 2) {
            lemma_int_in_run(a, oa, b, ob, n, x, y);
        }
        if let Some((x, y)) = piece_range(b, tb + 1, ob + hb, ':', 0) {
            lemma_int_in_run(a, oa, b, ob, n, x, y);
        }
        if let Some((x, y)) = piece_range(b, tb + 1, ob + hb, ':', 1) {
            lemma_int_in_run(a, oa, b, ob, n, x, y);
        }
        if let Some((sa, sb)) = piece_range(b, tb + 1, ob + hb, ':', 2) {
            lemma_piece_range_run(a, oa, b, ob, n, sa - ob, sb - ob, '.', 0);
            if let Some((x, y)) = piece_range(b, sa, sb, '.', 0) {
                lemma_int_in_run(a, oa, b, ob, n, x, y);
            }
        }
    }
}

/// A timestamp reads the same with whitespace around it.
pub proof fn law_timestamp_ignores_surrounding_whitespace(w1: Seq<char>, s: Seq<char>, w2: Seq<char>)
    requires
        all_ws(w1),
        all_ws(w2),
    ensures
        iso8601_utc(w1 + s + w2) == iso8601_utc(s),
{
    let t = w1 + s + w2;
    let k = w1.len() as int;
    assert(same_run(t, k, s, 0, s.len() as int)) by {
        assert forall|j: int| 0 <= j < s.len() implies #[trigger] t[k + j] == s[0 + j] by {}
    }
    assert forall|j: int| 0 <= j < k implies is_ws(#[trigger] t[j]) by {
        assert(t[j] == w1[j]);
    }
    lemma_scan_ws_skip(t, 0, k);
    lemma_scan_ws(s, 0);
    let lo = scan_ws(s, 0);
    if lo < s.len() {
        lemma_scan_ws_run(t, k, s, 0, s.len() as int, 0);
        assert forall|j: int| k + s.len() <= j < t.len() implies is_ws(#[trigger] t[j]) by {
            assert(t[j] == w2[j - k - s.len()]);
        }
        lemma_back_ws_tail(t, k + lo, k + s.len(), t.len() as int);
        lemma_back_ws_run(t, k, s, 0, s.len() as int, lo, s.len() as int);
        let hi0 = back_ws(s, lo, s.len() as int);
        assert(hi0 > lo) by {
            if hi0 == lo {
                lemma_back_ws_stop(s, lo, s.len() as int);
            }
        }
        let n = hi0 - lo;
        assert(same_run(t, k + lo, s, lo, n)) by {
            assert forall|j: int| 0 <= j < n implies #[trigger] t[k + lo + j] == s[lo + j] by {
                assert(t[k + (lo + j)] == s[0 + (lo + j)]);
            }
        }
        lemma_iso_pieces_run(t, k + lo, s, lo, n);
    } else {
        assert forall|j: int| k <= j < k + s.len() implies is_ws(#[trigger] t[j]) by {
            lemma_scan_ws_all(s, 0, j - k);
            assert(t[j] == s[j - k]);
        }
        lemma_scan_ws_skip(t, k, k + s.len());
        assert forall|j: int| k + s.len() <= j < t.len() implies is_ws(#[trigger] t[j]) by {
            assert(t[j] == w2[j - k - s.len()]);
        }
        lemma_scan_ws_skip(t, k + s.len(), t.len() as int);
        assert(scan_ws(t, t.len() as int) == t.len());
    }
}

/// Dropping trailing whitespace keeps a character that is not whitespace.
proof fn lemma_back_ws_stop(s: Seq<char>, lo: int, hi: int)
    requires
        0 <= lo < hi <= s.len(),
        !is_ws(s[lo]),
    ensures
        back_ws(s, lo, hi) > lo,
    decreases hi - lo,
{
    if hi - 1 > lo && is_ws(s[hi - 1]) {
        lemma_back_ws_stop(s, lo, hi - 1);
    }
}

/// A final `Z` after the timestamp changes nothing.
#[verifier::spinoff_prover]
#[verifier::rlimit(50)]
pub proof fn law_timestamp_final_z(s: Seq<char>)
    requires
        s.len() > 0,
        !is_ws(s.last()),
        s.last() != 'Z',
    ensures
        iso8601_utc(s + seq!['Z']) == iso8601_utc(s),
{
    let u = s + seq!['Z'];
    let len = s.len() as int;
    assert(same_run(u, 0, s, 0, len)) by {
        assert forall|j: int| 0 <= j < len implies #[trigger] u[0 + j] == s[0 + j] by {}
    }
    lemma_scan_ws_stops(s, 0, len - 1);
    lemma_scan_ws(s, 0);
    let lo = scan_ws(s, 0);
    lemma_scan_ws_run(u, 0, s, 0, len, 0);
    assert(u[len] == 'Z');
    assert(!is_ws('Z'));
    assert(back_ws(u, lo, len + 1) == len + 1);
    assert(back_ws(s, lo, len) == len);
    let n = len - lo;
    assert(same_run(u, lo, s, lo, n)) by {
        assert forall|j: int| 0 <= j < n implies #[trigger] u[lo + j] == s[lo + j] by {
            assert(u[0 + (lo + j)] == s[0 + (lo + j)]);
        }
    }
    // Both trim to `[lo, len)` once the final `Z` of `u` is dropped.
    let hb = len;
    assert(s[len - 1] != 'Z');
    lemma_find_in_run(u, lo, s, lo, n, 'T', 0, n);
    lemma_find_in(s, 'T', lo, len);
    let tb = find_in(s, 'T', lo, len);
    if tb < len {
        let t = tb - lo;
        lemma_piece_range_run(u, lo, s, lo, n, 0, t, '-', 0);
        lemma_piece_range_run(u, lo, s, lo, n, 0, t, '-', 1);
        lemma_piece_range_run(u, lo, s, lo, n, 0, t, '-', 2);
        lemma_piece_range_run(u, lo, s, lo, n, t + 1, n, ':', 0);
        lemma_piece_range_run(u, lo, s, lo, n, t + 1, n, ':', 1);
        lemma_piece_range_run(u, lo, s, lo, n, t + 1, n, ':', 2);
        if let Some((x, y)) = piece_range(s, lo, tb, '-', 0) {
            lemma_int_in_run(u, lo, s, lo, n, x, y);
        }
        if let Some((x, y)) = piece_range(s, lo, tb, '-', 1) {
            lemma_int_in_run(u, lo, s, lo, n, x, y);
        }
        if let Some((x, y)) = piece_range(s, lo, tb, '-', 2) {
            lemma_int_in_run(u, lo, s, lo, n, x, y);
        }
        if let Some((x, y)) = piece_range(s, tb + 1, len, ':', 0) {
            lemma_int_in_run(u, lo, s, lo, n, x, y);
        }
        if let Some((x, y)) = piece_range(s, tb + 1, len, ':', 1) {
            lemma_int_in_run(u, lo, s, lo, n, x, y);
        }
        if let Some((sa, sb)) = piece_range(s, tb + 1, len, ':', 2) {
            lemma_piece_range_run(u, lo, s, lo, n, sa - lo, sb - lo, '.', 0);
            if let Some((x, y)) = piece_range(s, sa, sb, '.', 0) {
                lemma_int_in_run(u, lo, s, lo, n, x, y);
            }
        }
    }
}

/// A search stops at the first match.
proof fn lemma_find_first(s: Seq<char>, c: char, from: int, j: int, hi: int)
    requires
        0 <= from <= j <= hi <= s.len(),
        forall|i: int| from <= i < j ==> #[trigger] s[i] != c,
        j < hi ==> s[j] == c,
    ensures
        find_in(s, c, from, hi) == j,
    decreases j - from,
{
    if from < j {
        assert(s[from] != c);
        lemma_find_first(s, c, from + 1, j, hi);
    }
}

/// A search that runs on into an extension holding no match ends at its end.
proof fn lemma_find_ext(u: Seq<char>, s: Seq<char>, c: char, from: int)
    requires
        same_run(u, 0, s, 0, s.len() as int),
        0 <= from <= s.len(),
        forall|j: int| s.len() <= j < u.len() ==> #[trigger] u[j] != c,
    ensures
        find_in(u, c, from, u.len() as int) == if find_in(s, c, from, s.len() as int) < s.len() {
            find_in(s, c, from, s.len() as int)
        } else {
            u.len() as int
        },
{
    lemma_find_in(s, c, from, s.len() as int);
    let r = find_in(s, c, from, s.len() as int);
    if r < s.len() {
        assert forall|i: int| from <= i < r implies #[trigger] u[i] != c by {
            assert(u[0 + i] == s[0 + i]);
        }
        assert(u[0 + r] == s[0 + r]);
        lemma_find_first(u, c, from, r, u.len() as int);
    } else {
        assert forall|i: int| from <= i < u.len() implies #[trigger] u[i] != c by {
            if i < s.len() {
                assert(u[0 + i] == s[0 + i]);
            }
        }
        lemma_find_first(u, c, from, u.len() as int, u.len() as int);
    }
}

/// Fields of a text that runs on into an extension holding no separator: the
/// same fields, the last one running on to the end.
proof fn lemma_piece_ext(u: Seq<char>, s: Seq<char>, lo: int, c: char, k: nat)
    requires
        same_run(u, 0, s, 0, s.len() as int),
        0 <= lo <= s.len(),
        forall|j: int| s.len() <= j < u.len() ==> #[trigger] u[j] != c,
    ensures
        match piece_range(s, lo, s.len() as int, c, k) {
            Some((x, y)) => piece_range(u, lo, u.len() as int, c, k) == Some(
                (x, if y == s.len() { u.len() as int } else { y }),
            ) && lo <= x <= y <= s.len(),
            None => piece_range(u, lo, u.len() as int, c, k) is None,
        },
    decreases k,
{
    lemma_find_ext(u, s, c, lo);
    lemma_find_in(s, c, lo, s.len() as int);
    let i = find_in(s, c, lo, s.len() as int);
    if k > 0 && i < s.len() {
        lemma_piece_ext(u, s, i + 1, c, (k - 1) as nat);
    }
}

/// After a field that runs to the end of its range there is none.
proof fn lemma_piece_last(s: Seq<char>, lo: int, hi: int, c: char, k: nat)
    requires
        0 <= lo <= hi <= s.len(),
        piece_range(s, lo, hi, c, k) matches Some((x, y)) && y == hi,
    ensures
        piece_range(s, lo, hi, c, k + 1) is None,
    decreases k,
{
    lemma_find_in(s, c, lo, hi);
    let i = find_in(s, c, lo, hi);
    if k > 0 {
        lemma_piece_last(s, i + 1, hi, c, (k - 1) as nat);
    }
}

/// A fraction of a second after the seconds changes nothing: the seconds are
/// read up to the `.`.
#[verifier::spinoff_prover]
#[verifier::rlimit(50)]
pub proof fn law_timestamp_fraction(s: Seq<char>, f: Seq<char>)
    requires
        s.len() > 0,
        !is_ws(s.last()),
        s.last() != 'Z',
        forall|i: int| 0 <= i < s.len() ==> #[trigger] s[i] != '.',
        f.len() > 0,
        all_digits(f),
    ensures
        iso8601_utc(s + seq!['.'] + f) == iso8601_utc(s),
{
    let u = s + seq!['.'] + f;
    let len = s.len() as int;
    assert(same_run(u, 0, s, 0, len)) by {
        assert forall|j: int| 0 <= j < len implies #[trigger] u[0 + j] == s[0 + j] by {}
    }
    assert forall|j: int| len <= j < u.len() implies #[trigger] u[j] != 'T' && u[j] != ':' && !is_ws(u[j])
        && u[j] != 'Z' by {
        if j > len {
            assert(u[j] == f[j - len - 1]);
            assert(is_digit(f[j - len - 1]));
        }
    }
    lemma_scan_ws_stops(s, 0, len - 1);
    lemma_scan_ws(s, 0);
    let lo = scan_ws(s, 0);
    lemma_scan_ws_run(u, 0, s, 0, len, 0);
    let ul = u.len() as int;
    assert(u[ul - 1] == f[f.len() - 1]);
    assert(is_digit(f[f.len() - 1]));
    assert(back_ws(u, lo, ul) == ul);
    assert(back_ws(s, lo, len) == len);
    lemma_find_ext(u, s, 'T', lo);
    lemma_find_in(s, 'T', lo, len);
    let tb = find_in(s, 'T', lo, len);
    if tb < len {
        lemma_piece_range_run(u, 0, s, 0, len, lo, tb, '-', 0);
        lemma_piece_range_run(u, 0, s, 0, len, lo, tb, '-', 1);
        lemma_piece_range_run(u, 0, s, 0, len, lo, tb, '-', 2);
        if let Some((x, y)) = piece_range(s, lo, tb, '-', 0) {
            lemma_int_in_run(u, 0, s, 0, len, x, y);
        }
        if let Some((x, y)) = piece_range(s, lo, tb, '-', 1) {
            lemma_int_in_run(u, 0, s, 0, len, x, y);
        }
        if let Some((x, y)) = piece_range(s, lo, tb, '-', 2) {
            lemma_int_in_run(u, 0, s, 0, len, x, y);
        }
        lemma_piece_ext(u, s, tb + 1, ':', 0);
        lemma_piece_ext(u, s, tb + 1, ':', 1);
        lemma_piece_ext(u, s, tb + 1, ':', 2);
        if let Some((x, y)) = piece_range(s, tb + 1, len, ':', 0) {
            if y == len {
                lemma_piece_last(s, tb + 1, len, ':', 0);
            } else {
                lemma_int_in_run(u, 0, s, 0, len, x, y);
            }
        }
        if let Some((x, y)) = piece_range(s, tb + 1, len, ':', 1) {
            if y == len {
                lemma_piece_last(s, tb + 1, len, ':', 1);
            } else {
                lemma_int_in_run(u, 0, s, 0, len, x, y);
            }
        }
        if let Some((sa, sb)) = piece_range(s, tb + 1, len, ':', 2) {
            lemma_find_first(s, '.', sa, sb, sb);
            if sb == len {
                assert forall|i: int| sa <= i < len implies #[trigger] u[i] != '.' by {
                    assert(u[0 + i] == s[0 + i]);
                }
                lemma_find_first(u, '.', sa, len, ul);
            } else {
                lemma_find_in_run(u, 0, s, 0, len, '.', sa, sb);
            }
            lemma_int_in_run(u, 0, s, 0, len, sa, sb);
        }
    }
}

/// Decimal text reads back as its number: it is all digits, and their value is `n`.
pub proof fn law_decimal_reads_back(n: nat)
    ensures
        all_digits(nat_decimal(n)),
        nat_decimal(n).len() > 0,
        digits_value(nat_decimal(n)) == n,
    decreases n,
{
    if n < 10 {
        let t = nat_decimal(n);
        lemma_digit_char(n as int);
        assert(t == seq![digit_char(n as int)]);
        assert(t.drop_last() =~= Seq::<char>::empty());
        assert(digits_value(t.drop_last()) == 0);
        assert(t.last() == digit_char(n as int));
        assert(digits_value(t) == n);
    } else {
        law_decimal_reads_back(n / 10);
        lemma_digit_char((n % 10) as int);
        let t = nat_decimal(n);
        assert(t.drop_last() =~= nat_decimal(n / 10));
        assert(t.last() == digit_char((n % 10) as int));
        assert forall|i: int| 0 <= i < t.len() implies is_digit(#[trigger] t[i]) by {
            if i < t.len() - 1 {
                assert(t[i] == nat_decimal(n / 10)[i]);
            }
        }
    }
}

/// A duration reads back from its text: the text names whole units that the
/// duration reaches and not one more of the smallest shown. Past a day it is
/// `<d>d <h>h` with `d * 86400 + h * 3600 <= s < d * 86400 + (h + 1) * 3600`
/// (`h < 24`); from an hour it is `<h>h <m>m` with
/// `h * 3600 + m * 60 <= s < h * 3600 + (m + 1) * 60` (`m < 60`); below an hour
/// it is `<m>m` with `m * 60 <= s < (m + 1) * 60`.
pub proof fn law_duration_text_reads_back(s: int)
    requires
        s >= 0,
    ensures
        s >= 86400 ==> exists|d: nat, h: nat|
            #![trigger nat_decimal(d), nat_decimal(h)]
            d >= 1 && h < 24 && d * 86400 + h * 3600 <= s < d * 86400 + (h + 1) * 3600 && duration_text(s)
                == nat_decimal(d) + seq!['d', ' '] + nat_decimal(h) + seq!['h'],
        3600 <= s < 86400 ==> exists|h: nat, m: nat|
            #![trigger nat_decimal(h), nat_decimal(m)]
            1 <= h < 24 && m < 60 && h * 3600 + m * 60 <= s < h * 3600 + (m + 1) * 60 && duration_text(s)
                == nat_decimal(h) + seq!['h', ' '] + nat_decimal(m) + seq!['m'],
        s < 3600 ==> exists|m: nat|
            #![trigger nat_decimal(m)]
            m < 60 && m * 60 <= s < (m + 1) * 60 && duration_text(s) == nat_decimal(m) + seq!['m'],
{
    let d = s / 86400;
    let h = (s % 86400) / 3600;
    let m = (s % 3600) / 60;
    assert(s == d * 86400 + h * 3600 + (s % 3600)) by (nonlinear_arith)
        requires
            s >= 0,
            d == s / 86400,
            h == (s % 86400) / 3600,
    ;
    assert(s % 3600 == m * 60 + s % 60) by (nonlinear_arith)
        requires
            s >= 0,
            m == (s % 3600) / 60,
    ;
    assert(0 <= s % 60 < 60 && 0 <= h < 24 && 0 <= m < 60);
    if s >= 86400 {
        assert(nat_decimal(d as nat) == nat_decimal(d as nat) && nat_decimal(h as nat) == nat_decimal(h as nat));
    } else if s >= 3600 {
        assert(d == 0);
        assert(nat_decimal(h as nat) == nat_decimal(h as nat) && nat_decimal(m as nat) == nat_decimal(m as nat));
    } else {
        assert(d == 0 && h == 0);
        assert(nat_decimal(m as nat) == nat_decimal(m as nat));
    }
}

/// A negative duration reads as no time at all.
pub proof fn law_negative_duration_is_zero(t: int)
    requires
        t < 0,
    ensures
        duration_text(t) == duration_text(0),
{
}

} // verus!
