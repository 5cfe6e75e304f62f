//! Cron expression engine: 6-field expressions (seconds, minutes, hours,
//! day-of-month, month, day-of-week), evaluated over epoch-second timestamps.
//!
//! A compiled expression is a bit mask per field.  `next_after` returns the
//! smallest timestamp strictly greater than its argument that satisfies every
//! field (day-of-month and day-of-week are OR'd when both are restricted),
//! searching a bounded horizon of five years.

use vstd::prelude::*;

use crate::CronError;

verus! {

/// Largest timestamp `next_after` accepts, so that the bounded search and the
/// calendar arithmetic stay well inside `u64` (around the year 5138).
pub const MAX_TIMESTAMP: u64 = 100000000000;

/// Search horizon of five 366-day years, in seconds.
pub const HORIZON_SECONDS: u64 = 158112000;

/// A compiled 6-field cron expression.  Bit `i` of a mask is set exactly when
/// value `i` is allowed for that field.
#[derive(Clone, Copy, Debug, PartialEq, Eq, Structural)]
pub struct CronExpr {
    pub sec_mask: u64,
    pub min_mask: u64,
    pub hour_mask: u64,
    pub dom_mask: u64,
    pub month_mask: u64,
    pub dow_mask: u64,
    /// The day-of-month field was written as a plain `*`.
    pub dom_star: bool,
    /// The day-of-week field was written as a plain `*`.
    pub dow_star: bool,
}

/// Bit `i` of `m`, out-of-range bits reading as clear.
pub open spec fn bit_set(m: u64, i: int) -> bool {
    0 <= i < 64 && ((m >> (i as u64)) & 1) == 1
}

/// Executable bit test, total over all indices.
pub fn bit_test(m: u64, i: u64) -> (r: bool)
    ensures
        r == bit_set(m, i as int),
{
    if i >= 64 {
        false
    } else {
        ((m >> i) & 1) == 1
    }
}

/// Proleptic Gregorian leap-year rule.
pub open spec fn is_leap(y: int) -> bool {
    y % 4 == 0 && (y % 100 != 0 || y % 400 == 0)
}

/// Days in year `y`.
pub open spec fn days_in_year(y: int) -> int {
    if is_leap(y) {
        366
    } else {
        365
    }
}

/// Days in month `m` (1-based) of year `y`.
pub open spec fn days_in_month(y: int, m: int) -> int {
    if m == 2 {
        if is_leap(y) {
            29
        } else {
            28
        }
    } else if m == 4 || m == 6 || m == 9 || m == 11 {
        30
    } else {
        31
    }
}

/// Walks years forward from `y`: returns the year containing day offset `d`
/// and the remaining 0-based day within that year.
pub open spec fn year_of(y: int, d: int) -> (int, int)
    decreases d,
{
    if d >= days_in_year(y) {
        year_of(y + 1, d - days_in_year(y))
    } else {
        (y, d)
    }
}

/// Walks months forward from `m` within year `y`: returns the month
/// containing day offset `d` and the remaining 0-based day within it.
pub open spec fn month_of(y: int, m: int, d: int) -> (int, int)
    decreases 12 - m,
{
    if m < 12 && d >= days_in_month(y, m) {
        month_of(y, m + 1, d - days_in_month(y, m))
    } else {
        (m, d)
    }
}

/// Calendar date of a day number counted from 1970-01-01: year, month
/// (1-based) and day-of-month (1-based).
pub open spec fn civil_of_day(day: int) -> (int, int, int) {
    let yp = year_of(1970, day);
    let mp = month_of(yp.0, 1, yp.1);
    (yp.0, mp.0, mp.1 + 1)
}

/// Day of week of a day number; 0 is Sunday (1970-01-01 was a Thursday).
pub open spec fn weekday_of_day(day: int) -> int {
    (day + 4) % 7
}

/// The day-of-month / day-of-week rule: OR'd when both fields are
/// restricted, otherwise the restricted one decides; `*` on both allows all.
pub open spec fn dom_dow_ok(c: CronExpr, dom: int, dow: int) -> bool {
    if c.dom_star && c.dow_star {
        true
    } else if c.dom_star {
        bit_set(c.dow_mask, dow)
    } else if c.dow_star {
        bit_set(c.dom_mask, dom)
    } else {
        bit_set(c.dom_mask, dom) || bit_set(c.dow_mask, dow)
    }
}

/// Whether a whole day satisfies the date fields of `c`.
pub open spec fn day_matches(c: CronExpr, day: int) -> bool {
    let ymd = civil_of_day(day);
    bit_set(c.month_mask, ymd.1) && dom_dow_ok(c, ymd.2, weekday_of_day(day))
}

/// Whether timestamp `t` (epoch seconds) satisfies every field of `c`.
pub open spec fn cron_matches(c: CronExpr, t: u64) -> bool {
    &&& bit_set(c.sec_mask, (t % 60) as int)
    &&& bit_set(c.min_mask, ((t / 60) % 60) as int)
    &&& bit_set(c.hour_mask, ((t / 3600) % 24) as int)
    &&& day_matches(c, (t / 86400) as int)
}

/// Executable leap-year test.
fn is_leap_x(y: u64) -> (r: bool)
    ensures
        r == is_leap(y as int),
{
    y % 4 == 0 && (y % 100 != 0 || y % 400 == 0)
}

/// Executable days-in-month.
fn days_in_month_x(y: u64, m: u64) -> (r: u64)
    ensures
        r as int == days_in_month(y as int, m as int),
{
    if m == 2 {
        if is_leap_x(y) {
            29
        } else {
            28
        }
    } else if m == 4 || m == 6 || m == 9 || m == 11 {
        30
    } else {
        31
    }
}

/// Executable year walk, mirroring `year_of` from 1970.
fn year_from(day: u64) -> (r: (u64, u64))
    requires
        day <= 1250000,
    ensures
        (r.0 as int, r.1 as int) == year_of(1970, day as int),
        r.1 < days_in_year(r.0 as int),
        1970 <= r.0 <= 5500,
{
    let mut y: u64 = 1970;
    let mut d: u64 = day;
    loop
        invariant_except_break
            1970 <= y,
            d <= day <= 1250000,
            (y - 1970) * 365 <= day - d,
            year_of(1970, day as int) == year_of(y as int, d as int),
        ensures
            (y as int, d as int) == year_of(1970, day as int),
            d < days_in_year(y as int),
            1970 <= y <= 5500,
        decreases d,
    {
        let diy: u64 = if is_leap_x(y) {
            366
        } else {
            365
        };
        if d < diy {
            break;
        }
        d = d - diy;
        y = y + 1;
    }
    (y, d)
}

/// Executable month walk, mirroring `month_of`.
fn month_from(y: u64, dy: u64) -> (r: (u64, u64))
    requires
        dy <= 366,
    ensures
        (r.0 as int, r.1 as int) == month_of(y as int, 1, dy as int),
        1 <= r.0 <= 12,
        r.1 <= 366,
{
    let mut m: u64 = 1;
    let mut d: u64 = dy;
    loop
        invariant_except_break
            1 <= m <= 12,
            d <= dy <= 366,
            month_of(y as int, 1, dy as int) == month_of(y as int, m as int, d as int),
        ensures
            (m as int, d as int) == month_of(y as int, 1, dy as int),
            1 <= m <= 12,
            d <= 366,
        decreases 12 - m,
    {
        let dim = days_in_month_x(y, m);
        if m >= 12 || d < dim {
            break;
        }
        d = d - dim;
        m = m + 1;
    }
    (m, d)
}

/// Executable day predicate, mirroring `day_matches`.
fn day_matches_x(c: &CronExpr, day: u64) -> (r: bool)
    requires
        day <= 1250000,
    ensures
        r == day_matches(*c, day as int),
{
    let yd = year_from(day);
    let md = month_from(yd.0, yd.1);
    let dow: u64 = (day + 4) % 7;
    let month_ok = bit_test(c.month_mask, md.0);
    let dom: u64 = md.1 + 1;
    let dd_ok = if c.dom_star && c.dow_star {
        true
    } else if c.dom_star {
        bit_test(c.dow_mask, dow)
    } else if c.dow_star {
        bit_test(c.dom_mask, dom)
    } else {
        bit_test(c.dom_mask, dom) || bit_test(c.dow_mask, dow)
    };
    month_ok && dd_ok
}

/// Division by 86400 pins the day of every second of that day.
proof fn lemma_day_of(t: int, day: int)
    requires
        0 <= day,
        day * 86400 <= t < (day + 1) * 86400,
    ensures
        t / 86400 == day,
{
    assert(t / 86400 == day) by (nonlinear_arith)
        requires
            0 <= day,
            day * 86400 <= t < (day + 1) * 86400,
    ;
}

/// The smallest timestamp strictly after `from` that satisfies `c`, if one
/// exists within the search horizon; `NoMatchFound` exactly when no
/// timestamp in the horizon matches.
pub fn next_after(c: &CronExpr, from: u64) -> (r: Result<u64, CronError>)
    requires
        from <= MAX_TIMESTAMP,
    ensures
        match r {
            Ok(t) => from < t <= from + HORIZON_SECONDS && cron_matches(*c, t) && (forall|u: u64|
                from < u < t ==> !cron_matches(*c, u)),
            Err(err) => err == CronError::NoMatchFound && (forall|u: u64|
                from < u <= from + HORIZON_SECONDS ==> !cron_matches(*c, u)),
        },
{
    let end: u64 = from + HORIZON_SECONDS;
    let mut cur: u64 = from + 1;
    while cur <= end
        invariant
            from < cur,
            cur <= end + 86400,
            end == from + HORIZON_SECONDS,
            from <= MAX_TIMESTAMP,
            forall|u: u64| from < u < cur ==> !cron_matches(*c, u),
        decreases end + 86400 - cur,
    {
        let day: u64 = cur / 86400;
        proof {
            assert(day * 86400 <= cur < (day + 1) * 86400) by (nonlinear_arith)
                requires
                    day == cur / 86400,
                    cur >= 0,
            ;
        }
        if day_matches_x(c, day) {
            let day_last: u64 = day * 86400 + 86399;
            let stop: u64 = if day_last < end {
                day_last
            } else {
                end
            };
            let mut t: u64 = cur;
            while t <= stop
                invariant
                    from < cur <= t,
                    t <= stop + 1,
                    stop <= end,
                    stop < (day + 1) * 86400,
                    end == from + HORIZON_SECONDS,
                    from <= MAX_TIMESTAMP,
                    day == cur / 86400,
                    day * 86400 <= cur,
                    day_matches(*c, day as int),
                    forall|u: u64| from < u < t ==> !cron_matches(*c, u),
                decreases stop + 1 - t,
            {
                let sec_ok = bit_test(c.sec_mask, t % 60);
                let min_ok = bit_test(c.min_mask, (t / 60) % 60);
                let hour_ok = bit_test(c.hour_mask, (t / 3600) % 24);
                if sec_ok && min_ok && hour_ok {
                    proof {
                        lemma_day_of(t as int, day as int);
                    }
                    return Ok(t);
                }
                t = t + 1;
            }
            if stop == end {
                cur = end + 1;
            } else {
                cur = day_last + 1;
            }
        } else {
            let next_day_start: u64 = (day + 1) * 86400;
            proof {
                assert forall|u: u64| from < u < next_day_start implies !cron_matches(*c, u) by {
                    if u >= cur {
                        lemma_day_of(u as int, day as int);
                    }
                }
            }
            cur = next_day_start;
        }
    }
    Err(CronError::NoMatchFound)
}


/// Field-separating whitespace: space or tab.
pub open spec fn is_ws(b: u8) -> bool {
    b == 32 || b == 9
}

/// Index of the first non-whitespace byte at or after `pos`.
pub open spec fn ws_run_end(s: Seq<u8>, pos: int) -> int
    decreases s.len() - pos,
{
    if pos >= s.len() || pos < 0 || !is_ws(s[pos]) {
        pos
    } else {
        ws_run_end(s, pos + 1)
    }
}

/// Index of the first whitespace byte at or after `pos`.
pub open spec fn nonws_run_end(s: Seq<u8>, pos: int) -> int
    decreases s.len() - pos,
{
    if pos >= s.len() || pos < 0 || is_ws(s[pos]) {
        pos
    } else {
        nonws_run_end(s, pos + 1)
    }
}

proof fn lemma_ws_run_end(s: Seq<u8>, pos: int, e: int)
    requires
        0 <= pos <= e <= s.len(),
        forall|i: int| pos <= i < e ==> is_ws(#[trigger] s[i]),
        e == s.len() || !is_ws(s[e]),
    ensures
        ws_run_end(s, pos) == e,
    decreases e - pos,
{
    if pos < e {
        lemma_ws_run_end(s, pos + 1, e);
    }
}

proof fn lemma_nonws_run_end(s: Seq<u8>, pos: int, e: int)
    requires
        0 <= pos <= e <= s.len(),
        forall|i: int| pos <= i < e ==> !is_ws(#[trigger] s[i]),
        e == s.len() || is_ws(s[e]),
    ensures
        nonws_run_end(s, pos) == e,
    decreases e - pos,
{
    if pos < e {
        lemma_nonws_run_end(s, pos + 1, e);
    }
}

/// Skips whitespace, as `ws_run_end` describes.
fn ws_skip(s: &Vec<u8>, pos: usize) -> (r: usize)
    requires
        pos <= s@.len(),
    ensures
        r as int == ws_run_end(s@, pos as int),
        pos <= r <= s@.len(),
{
    let mut e: usize = pos;
    while e < s.len() && (s[e] == 32 || s[e] == 9)
        invariant
            pos <= e <= s@.len(),
            forall|i: int| pos <= i < e ==> is_ws(#[trigger] s@[i]),
        decreases s@.len() - e,
    {
        e = e + 1;
    }
    proof {
        lemma_ws_run_end(s@, pos as int, e as int);
    }
    e
}

/// Skips a token, as `nonws_run_end` describes.
fn token_skip(s: &Vec<u8>, pos: usize) -> (r: usize)
    requires
        pos <= s@.len(),
    ensures
        r as int == nonws_run_end(s@, pos as int),
        pos <= r <= s@.len(),
{
    let mut e: usize = pos;
    while e < s.len() && s[e] != 32 && s[e] != 9
        invariant
            pos <= e <= s@.len(),
            forall|i: int| pos <= i < e ==> !is_ws(#[trigger] s@[i]),
        decreases s@.len() - e,
    {
        e = e + 1;
    }
    proof {
        lemma_nonws_run_end(s@, pos as int, e as int);
    }
    e
}

/// Copies the bytes `s[a..b]`.
fn copy_range(s: &Vec<u8>, a: usize, b: usize) -> (r: Vec<u8>)
    requires
        a <= b <= s@.len(),
    ensures
        r@ == s@.subrange(a as int, b as int),
{
    let mut out: Vec<u8> = Vec::new();
    let mut j: usize = a;
    while j < b
        invariant
            a <= j <= b <= s@.len(),
            out@ == s@.subrange(a as int, j as int),
        decreases b - j,
    {
        out.push(s[j]);
        assert(out@ =~= s@.subrange(a as int, j + 1));
        j = j + 1;
    }
    out
}

/// The mask with bits `a`, `a+step`, ... up to `b` set.
pub open spec fn mask_range(a: int, b: int, step: int) -> u64
    decreases b + 1 - a,
{
    if a > b || step < 1 || a < 0 {
        0
    } else if a + step > b {
        1u64 << (a as u64)
    } else {
        (1u64 << (a as u64)) | mask_range(a + step, b, step)
    }
}

/// Executable `mask_range`.
fn mask_range_x(a: u64, b: u64, step: u64) -> (r: u64)
    requires
        step >= 1,
        b <= 63,
    ensures
        r == mask_range(a as int, b as int, step as int),
    decreases b + 1 - a,
{
    if a > b {
        0
    } else if step > b - a {
        1u64 << a
    } else {
        (1u64 << a) | mask_range_x(a + step, b, step)
    }
}

/// Parses one part of a field at `pos`: `*`, `*/step`, `a`, `a-b`, `a/step`
/// or `a-b/step`, with every value inside `[lo, hi]` and `step >= 1`.
pub open spec fn spec_parse_part(tok: Seq<u8>, pos: int, lo: u64, hi: u64) -> Option<(u64, int)> {
    if pos < 0 || pos >= tok.len() {
        None
    } else if tok[pos] == 42 {
        if pos + 1 < tok.len() && tok[pos + 1] == 47 {
            match crate::wire::spec_parse_num(tok, pos + 2) {
                Some((st, p)) => if st >= 1 {
                    Some((mask_range(lo as int, hi as int, st as int), p))
                } else {
                    None
                },
                None => None,
            }
        } else {
            Some((mask_range(lo as int, hi as int, 1), pos + 1))
        }
    } else {
        match crate::wire::spec_parse_num(tok, pos) {
            Some((a, p)) => if lo <= a && a <= hi {
                if p < tok.len() && tok[p] == 45 {
                    match crate::wire::spec_parse_num(tok, p + 1) {
                        Some((b, p2)) => if a <= b && b <= hi {
                            if p2 < tok.len() && tok[p2] == 47 {
                                match crate::wire::spec_parse_num(tok, p2 + 1) {
                                    Some((st, p3)) => if st >= 1 {
                                        Some((mask_range(a as int, b as int, st as int), p3))
                                    } else {
                                        None
                                    },
                                    None => None,
                                }
                            } else {
                                Some((mask_range(a as int, b as int, 1), p2))
                            }
                        } else {
                            None
                        },
                        None => None,
                    }
                } else if p < tok.len() && tok[p] == 47 {
                    match crate::wire::spec_parse_num(tok, p + 1) {
                        Some((st, p2)) => if st >= 1 {
                            Some((mask_range(a as int, hi as int, st as int), p2))
                        } else {
                            None
                        },
                        None => None,
                    }
                } else {
                    Some((mask_range(a as int, a as int, 1), p))
                }
            } else {
                None
            },
            None => None,
        }
    }
}

/// Parses a whole field from `pos` to the end of the token: one or more
/// parts separated by commas, OR'd together.
pub open spec fn spec_parse_parts(tok: Seq<u8>, pos: int, lo: u64, hi: u64) -> Option<u64>
    decreases tok.len() - pos,
{
    match spec_parse_part(tok, pos, lo, hi) {
        Some((m, p)) => if p == tok.len() {
            Some(m)
        } else if pos < p && p < tok.len() && tok[p] == 44 {
            match spec_parse_parts(tok, p + 1, lo, hi) {
                Some(m2) => Some(m | m2),
                None => None,
            }
        } else {
            None
        },
        None => None,
    }
}

/// Parses one whole field token.
pub open spec fn spec_parse_field(tok: Seq<u8>, lo: u64, hi: u64) -> Option<u64> {
    spec_parse_parts(tok, 0, lo, hi)
}

/// Parses a 6-field cron expression: seconds 0-59, minutes 0-59, hours 0-23,
/// day-of-month 1-31, month 1-12, day-of-week 0-6, whitespace-separated,
/// nothing else in the string.
pub open spec fn spec_parse_cron(s: Seq<u8>) -> Option<CronExpr> {
    let a0 = ws_run_end(s, 0);
    let b0 = nonws_run_end(s, a0);
    let a1 = ws_run_end(s, b0);
    let b1 = nonws_run_end(s, a1);
    let a2 = ws_run_end(s, b1);
    let b2 = nonws_run_end(s, a2);
    let a3 = ws_run_end(s, b2);
    let b3 = nonws_run_end(s, a3);
    let a4 = ws_run_end(s, b3);
    let b4 = nonws_run_end(s, a4);
    let a5 = ws_run_end(s, b4);
    let b5 = nonws_run_end(s, a5);
    let rest = ws_run_end(s, b5);
    if b0 > a0 && b1 > a1 && b2 > a2 && b3 > a3 && b4 > a4 && b5 > a5 && rest == s.len() {
        let t0 = s.subrange(a0, b0);
        let t1 = s.subrange(a1, b1);
        let t2 = s.subrange(a2, b2);
        let t3 = s.subrange(a3, b3);
        let t4 = s.subrange(a4, b4);
        let t5 = s.subrange(a5, b5);
        match spec_parse_field(t0, 0, 59) {
            Some(sec) => match spec_parse_field(t1, 0, 59) {
                Some(minute) => match spec_parse_field(t2, 0, 23) {
                    Some(hour) => match spec_parse_field(t3, 1, 31) {
                        Some(dom) => match spec_parse_field(t4, 1, 12) {
                            Some(month) => match spec_parse_field(t5, 0, 6) {
                                Some(dow) => Some(
                                    CronExpr {
                                        sec_mask: sec,
                                        min_mask: minute,
                                        hour_mask: hour,
                                        dom_mask: dom,
                                        month_mask: month,
                                        dow_mask: dow,
                                        dom_star: t3 == seq![42u8],
                                        dow_star: t5 == seq![42u8],
                                    },
                                ),
                                None => None,
                            },
                            None => None,
                        },
                        None => None,
                    },
                    None => None,
                },
                None => None,
            },
            None => None,
        }
    } else {
        None
    }
}

/// Executable part parse, as `spec_parse_part` describes.
fn parse_part(tok: &Vec<u8>, pos: usize, lo: u64, hi: u64) -> (r: Option<(u64, usize)>)
    requires
        pos <= tok@.len(),
        lo <= hi <= 59,
    ensures
        match r {
            Some(t) => spec_parse_part(tok@, pos as int, lo, hi) == Some((t.0, t.1 as int))
                && pos < t.1 <= tok@.len(),
            None => spec_parse_part(tok@, pos as int, lo, hi) is None,
        },
{
    if pos >= tok.len() {
        return None;
    }
    if tok[pos] == 42 {
        if pos + 1 < tok.len() && tok[pos + 1] == 47 {
            match crate::wire::parse_num(tok, pos + 2) {
                Some((st, p)) => {
                    if st >= 1 {
                        Some((mask_range_x(lo, hi, st), p))
                    } else {
                        None
                    }
                },
                None => None,
            }
        } else {
            Some((mask_range_x(lo, hi, 1), pos + 1))
        }
    } else {
        match crate::wire::parse_num(tok, pos) {
            Some((a, p)) => {
                if lo <= a && a <= hi {
                    if p < tok.len() && tok[p] == 45 {
                        match crate::wire::parse_num(tok, p + 1) {
                            Some((b, p2)) => {
                                if a <= b && b <= hi {
                                    if p2 < tok.len() && tok[p2] == 47 {
                                        match crate::wire::parse_num(tok, p2 + 1) {
                                            Some((st, p3)) => {
                                                if st >= 1 {
                                                    Some((mask_range_x(a, b, st), p3))
                                                } else {
                                                    None
                                                }
                                            },
                                            None => None,
                                        }
                                    } else {
                                        Some((mask_range_x(a, b, 1), p2))
                                    }
                                } else {
                                    None
                                }
                            },
                            None => None,
                        }
                    } else if p < tok.len() && tok[p] == 47 {
                        match crate::wire::parse_num(tok, p + 1) {
                            Some((st, p2)) => {
                                if st >= 1 {
                                    Some((mask_range_x(a, hi, st), p2))
                                } else {
                                    None
                                }
                            },
                            None => None,
                        }
                    } else {
                        Some((mask_range_x(a, a, 1), p))
                    }
                } else {
                    None
                }
            },
            None => None,
        }
    }
}

/// Executable field parse, as `spec_parse_parts` describes.
fn parse_parts(tok: &Vec<u8>, pos: usize, lo: u64, hi: u64) -> (r: Option<u64>)
    requires
        pos <= tok@.len(),
        lo <= hi <= 59,
    ensures
        match r {
            Some(m) => spec_parse_parts(tok@, pos as int, lo, hi) == Some(m),
            None => spec_parse_parts(tok@, pos as int, lo, hi) is None,
        },
    decreases tok@.len() - pos,
{
    match parse_part(tok, pos, lo, hi) {
        Some((m, p)) => {
            if p == tok.len() {
                Some(m)
            } else if tok[p] == 44 {
                match parse_parts(tok, p + 1, lo, hi) {
                    Some(m2) => Some(m | m2),
                    None => None,
                }
            } else {
                None
            }
        },
        None => None,
    }
}

/// Compiles a 6-field cron expression, exactly as `spec_parse_cron`
/// describes; fails with `InvalidExpression` on anything else.
pub fn parse(expr: &Vec<u8>) -> (r: Result<CronExpr, CronError>)
    ensures
        match r {
            Ok(c) => spec_parse_cron(expr@) == Some(c),
            Err(err) => spec_parse_cron(expr@) is None && err == CronError::InvalidExpression,
        },
{
    let a0 = ws_skip(expr, 0);
    let b0 = token_skip(expr, a0);
    let a1 = ws_skip(expr, b0);
    let b1 = token_skip(expr, a1);
    let a2 = ws_skip(expr, b1);
    let b2 = token_skip(expr, a2);
    let a3 = ws_skip(expr, b2);
    let b3 = token_skip(expr, a3);
    let a4 = ws_skip(expr, b3);
    let b4 = token_skip(expr, a4);
    let a5 = ws_skip(expr, b4);
    let b5 = token_skip(expr, a5);
    let rest = ws_skip(expr, b5);
    if !(b0 > a0 && b1 > a1 && b2 > a2 && b3 > a3 && b4 > a4 && b5 > a5 && rest == expr.len()) {
        return Err(CronError::InvalidExpression);
    }
    let t0 = copy_range(expr, a0, b0);
    let t1 = copy_range(expr, a1, b1);
    let t2 = copy_range(expr, a2, b2);
    let t3 = copy_range(expr, a3, b3);
    let t4 = copy_range(expr, a4, b4);
    let t5 = copy_range(expr, a5, b5);
    let sec = match parse_parts(&t0, 0, 0, 59) {
        Some(m) => m,
        None => {
            return Err(CronError::InvalidExpression);
        },
    };
    let minute = match parse_parts(&t1, 0, 0, 59) {
        Some(m) => m,
        None => {
            return Err(CronError::InvalidExpression);
        },
    };
    let hour = match parse_parts(&t2, 0, 0, 23) {
        Some(m) => m,
        None => {
            return Err(CronError::InvalidExpression);
        },
    };
    let dom = match parse_parts(&t3, 0, 1, 31) {
        Some(m) => m,
        None => {
            return Err(CronError::InvalidExpression);
        },
    };
    let month = match parse_parts(&t4, 0, 1, 12) {
        Some(m) => m,
        None => {
            return Err(CronError::InvalidExpression);
        },
    };
    let dow = match parse_parts(&t5, 0, 0, 6) {
        Some(m) => m,
        None => {
            return Err(CronError::InvalidExpression);
        },
    };
    let dom_star = t3.len() == 1 && t3[0] == 42;
    let dow_star = t5.len() == 1 && t5[0] == 42;
    proof {
        if dom_star {
            assert(t3@ =~= seq![42u8]);
        }
        if dow_star {
            assert(t5@ =~= seq![42u8]);
        }
        if t3@ == seq![42u8] {
            assert(t3@.len() == 1 && t3@[0] == 42);
        }
        if t5@ == seq![42u8] {
            assert(t5@.len() == 1 && t5@[0] == 42);
        }
    }
    Ok(
        CronExpr {
            sec_mask: sec,
            min_mask: minute,
            hour_mask: hour,
            dom_mask: dom,
            month_mask: month,
            dow_mask: dow,
            dom_star,
            dow_star,
        },
    )
}

} // verus!
