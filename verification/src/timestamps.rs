//! UTC timestamps `YYYY-MM-DD HH:MM:SS` of scheduled events: formatting Unix seconds,
//! parsing them back, and adding schedule intervals.
use vstd::prelude::*;
use crate::text::{
    ascii_upper_seq, decimal, parse_in_range, parse_int_in_range, parse_u64, str_chars, str_eq,
    string_from_chars, sub_chars, to_ascii_uppercase, trim, trim_seq, u64_to_string,
};

verus! {

/// Days from 1970-01-01 to the proleptic Gregorian date `y-m-d` (negative before it).
pub open spec fn days_from_civil_spec(y: int, m: int, d: int) -> int {
    let yy = if m <= 2 {
        y - 1
    } else {
        y
    };
    let era = yy / 400;
    let yoe = yy - era * 400;
    let mp = if m > 2 {
        m - 3
    } else {
        m + 9
    };
    let doy = (153 * mp + 2) / 5 + d - 1;
    let doe = yoe * 365 + yoe / 4 - yoe / 100 + doy;
    era * 146097 + doe - 719468
}

/// The proleptic Gregorian date `(year, month, day)` that is `z` days after 1970-01-01.
pub open spec fn civil_from_days_spec(z: int) -> (int, int, int) {
    let zz = z + 719468;
    let era = zz / 146097;
    let doe = zz - era * 146097;
    let yoe = (doe - doe / 1460 + doe / 36524 - doe / 146096) / 365;
    let y = yoe + era * 400;
    let doy = doe - (365 * yoe + yoe / 4 - yoe / 100);
    let mp = (5 * doy + 2) / 153;
    let d = doy - (153 * mp + 2) / 5 + 1;
    let m = if mp < 10 {
        mp + 3
    } else {
        mp - 9
    };
    (if m <= 2 {
        y + 1
    } else {
        y
    }, m, d)
}

/// The decimal form of `n`, zero-padded on the left to `w` characters.
pub open spec fn padded(n: nat, w: nat) -> Seq<char> {
    if decimal(n).len() >= w {
        decimal(n)
    } else {
        Seq::new((w - decimal(n).len()) as nat, |i: int| '0') + decimal(n)
    }
}

/// `YYYY-MM-DD HH:MM:SS` for `secs` seconds after the Unix epoch.
#[verifier::opaque]
pub open spec fn format_timestamp_spec(secs: nat) -> Seq<char> {
    let (y, m, d) = civil_from_days_spec((secs / 86400) as int);
    let t = secs % 86400;
    padded(y as nat, 4) + "-"@ + padded(m as nat, 2) + "-"@ + padded(d as nat, 2) + " "@ + padded(
        (t / 3600) as nat,
        2,
    ) + ":"@ + padded(((t % 3600) / 60) as nat, 2) + ":"@ + padded((t % 60) as nat, 2)
}

fn push_chars(out: &mut Vec<char>, more: &Vec<char>)
    ensures
        final(out)@ == old(out)@ + more@,
{
    let mut i: usize = 0;
    while i < more.len()
        invariant
            i <= more@.len(),
            out@ == old(out)@ + more@.take(i as int),
        decreases more@.len() - i,
    {
        out.push(more[i]);
        i = i + 1;
        proof {
            assert(out@ =~= old(out)@ + more@.take(i as int));
        }
    }
    proof {
        assert(more@.take(i as int) =~= more@);
    }
}

fn push_padded(out: &mut Vec<char>, n: u64, w: usize)
    ensures
        final(out)@ == old(out)@ + padded(n as nat, w as nat),
{
    let digits = str_chars(u64_to_string(n).as_str());
    let ghost dec = decimal(n as nat);
    if digits.len() < w {
        let mut k: usize = 0;
        let pad = w - digits.len();
        let ghost base = out@;
        while k < pad
            invariant
                k <= pad,
                out@ == base + Seq::new(k as nat, |i: int| '0'),
            decreases pad - k,
        {
            out.push('0');
            k = k + 1;
            proof {
                assert(out@ =~= base + Seq::new(k as nat, |i: int| '0'));
            }
        }
    }
    push_chars(out, &digits);
    proof {
        assert(final(out)@ =~= old(out)@ + padded(n as nat, w as nat));
    }
}

/// The date `z` days after 1970-01-01.
pub fn civil_from_days(z: u64) -> (r: (u64, u64, u64))
    requires
        z <= u64::MAX / 2,
    ensures
        r.0 as int == civil_from_days_spec(z as int).0,
        r.1 as int == civil_from_days_spec(z as int).1,
        r.2 as int == civil_from_days_spec(z as int).2,
{
    let zz = z + 719468;
    let era = zz / 146097;
    let doe = zz - era * 146097;
    assert(doe < 146097) by (nonlinear_arith)
        requires
            era == zz / 146097,
            doe == zz - era * 146097,
    ;
    let yoe = (doe - doe / 1460 + doe / 36524 - doe / 146096) / 365;
    assert(yoe <= 399) by (nonlinear_arith)
        requires
            doe < 146097,
            yoe == (doe - doe / 1460 + doe / 36524 - doe / 146096) / 365,
    ;
    assert(era <= u64::MAX / 146097) by (nonlinear_arith)
        requires
            era == zz / 146097,
    ;
    let y = yoe + era * 400;
    assert(365 * yoe + yoe / 4 - yoe / 100 <= doe) by (nonlinear_arith)
        requires
            doe < 146097,
            yoe == (doe - doe / 1460 + doe / 36524 - doe / 146096) / 365,
    ;
    let doy = doe - (365 * yoe + yoe / 4 - yoe / 100);
    assert(doy < 366) by (nonlinear_arith)
        requires
            doe < 146097,
            yoe == (doe - doe / 1460 + doe / 36524 - doe / 146096) / 365,
            doy == doe - (365 * yoe + yoe / 4 - yoe / 100),
    ;
    let mp = (5 * doy + 2) / 153;
    assert(mp <= 11 && (153 * mp + 2) / 5 <= doy) by (nonlinear_arith)
        requires
            doy < 366,
            mp == (5 * doy + 2) / 153,
    ;
    let d = doy - (153 * mp + 2) / 5 + 1;
    let m = if mp < 10 {
        mp + 3
    } else {
        mp - 9
    };
    let year = if m <= 2 {
        y + 1
    } else {
        y
    };
    (year, m, d)
}

/// Days from 1970-01-01 to `y-m-d`, for years from -1000 and months 1 to 12.
pub fn days_from_civil(y: i64, m: i64, d: i64) -> (r: i64)
    requires
        -1000 <= y <= 10000,
        1 <= m <= 12,
        1 <= d <= 31,
    ensures
        r as int == days_from_civil_spec(y as int, m as int, d as int),
{
    let yy: i64 = if m <= 2 {
        y - 1
    } else {
        y
    };
    let shifted: i64 = yy + 1200;
    let era3: i64 = shifted / 400;
    let era: i64 = era3 - 3;
    let yoe: i64 = shifted - era3 * 400;
    assert(era == yy / 400 && yoe == yy - (yy / 400) * 400) by (nonlinear_arith)
        requires
            shifted == yy + 1200,
            shifted >= 0,
            era3 == shifted / 400,
            era == era3 - 3,
            yoe == shifted - era3 * 400,
    ;
    let mp: i64 = if m > 2 {
        m - 3
    } else {
        m + 9
    };
    let doy: i64 = (153 * mp + 2) / 5 + d - 1;
    let doe: i64 = yoe * 365 + yoe / 4 - yoe / 100 + doy;
    era * 146097 + doe - 719468
}

/// Formats Unix seconds as `YYYY-MM-DD HH:MM:SS` (UTC).
pub fn format_timestamp(secs: u64) -> (r: String)
    ensures
        r@ == format_timestamp_spec(secs as nat),
{
    let days = secs / 86400;
    let time = secs % 86400;
    let (y, m, d) = civil_from_days(days);
    let mut out: Vec<char> = Vec::new();
    push_padded(&mut out, y, 4);
    out.push('-');
    push_padded(&mut out, m, 2);
    out.push('-');
    push_padded(&mut out, d, 2);
    out.push(' ');
    push_padded(&mut out, time / 3600, 2);
    out.push(':');
    push_padded(&mut out, (time % 3600) / 60, 2);
    out.push(':');
    push_padded(&mut out, time % 60, 2);
    proof {
        reveal(format_timestamp_spec);
        reveal_strlit("-");
        reveal_strlit(" ");
        reveal_strlit(":");
        assert(out@ =~= format_timestamp_spec(secs as nat));
    }
    string_from_chars(out.as_slice())
}

/// The current UTC stamp, given the current Unix time in seconds.
pub fn utc_now_stamp(now_secs: u64) -> (r: String)
    ensures
        r@ == format_timestamp_spec(now_secs as nat),
{
    format_timestamp(now_secs)
}

/// Whether the first 19 characters of `t` exist and are ASCII (then they are its first 19
/// bytes).
pub open spec fn ascii_head(t: Seq<char>) -> bool {
    t.len() >= 19 && forall|i: int| 0 <= i < 19 ==> (t[i] as u32) < 128
}

/// Parsing `YYYY-MM-DD HH:MM:SS` (surrounding white space allowed) into Unix seconds: the six
/// fields must parse, the month be 1 to 12, the day 1 to 31, the time of day in range and the
/// date not before 1970.
pub open spec fn parse_stamp_spec(stamp: Seq<char>) -> Option<nat> {
    let t = trim_seq(stamp);
    if !ascii_head(t) {
        None
    } else {
        match (
            parse_in_range(t.subrange(0, 4), i64::MIN as int, i64::MAX as int),
            parse_in_range(t.subrange(5, 7), i64::MIN as int, i64::MAX as int),
            parse_in_range(t.subrange(8, 10), i64::MIN as int, i64::MAX as int),
            parse_in_range(t.subrange(11, 13), 0, u64::MAX as int),
            parse_in_range(t.subrange(14, 16), 0, u64::MAX as int),
            parse_in_range(t.subrange(17, 19), 0, u64::MAX as int),
        ) {
            (Some(y), Some(mo), Some(d), Some(h), Some(mi), Some(s)) => if !(1 <= mo <= 12 && 1 <= d
                <= 31 && h <= 23 && mi <= 59 && s <= 59) {
                None
            } else if days_from_civil_spec(y, mo, d) < 0 {
                None
            } else {
                Some((days_from_civil_spec(y, mo, d) * 86400 + h * 3600 + mi * 60 + s) as nat)
            },
            _ => None,
        }
    }
}

fn field(cs: &Vec<char>, lo: usize, hi: usize) -> (r: String)
    requires
        lo <= hi <= cs@.len(),
    ensures
        r@ == cs@.subrange(lo as int, hi as int),
{
    let v = sub_chars(cs, lo, hi);
    string_from_chars(v.as_slice())
}

proof fn lemma_short_parse(t: Seq<char>)
    requires
        t.len() <= 4,
    ensures
        parse_in_range(t, 0, u64::MAX as int) == parse_in_range(t, 0, i64::MAX as int),
        parse_in_range(t, i64::MIN as int, i64::MAX as int) matches Some(v) ==> -999 <= v <= 9999,
{
    crate::text::lemma_short_digits(t);
}

/// Parses `YYYY-MM-DD HH:MM:SS` into Unix seconds.
pub fn parse_stamp_secs(stamp: &str) -> (r: Option<u64>)
    ensures
        r matches Some(x) ==> parse_stamp_spec(stamp@) == Some(x as nat),
        r is None ==> parse_stamp_spec(stamp@) is None,
{
    let t = trim(stamp);
    let cs = str_chars(t.as_str());
    if cs.len() < 19 {
        return None;
    }
    let mut i: usize = 0;
    while i < 19
        invariant
            i <= 19 <= cs@.len(),
            cs@ == trim_seq(stamp@),
            forall|j: int| 0 <= j < i ==> (cs@[j] as u32) < 128,
        decreases 19 - i,
    {
        if (cs[i] as u32) >= 128 {
            return None;
        }
        i = i + 1;
    }
    let ys = field(&cs, 0, 4);
    let mos = field(&cs, 5, 7);
    let ds = field(&cs, 8, 10);
    let hs = field(&cs, 11, 13);
    let mis = field(&cs, 14, 16);
    let ss = field(&cs, 17, 19);
    proof {
        lemma_short_parse(ys@);
        lemma_short_parse(mos@);
        lemma_short_parse(ds@);
        lemma_short_parse(hs@);
        lemma_short_parse(mis@);
        lemma_short_parse(ss@);
    }
    let y = match parse_int_in_range(ys.as_str(), i64::MIN, i64::MAX) {
        Some(v) => v,
        None => {
            return None;
        },
    };
    let mo = match parse_int_in_range(mos.as_str(), i64::MIN, i64::MAX) {
        Some(v) => v,
        None => {
            return None;
        },
    };
    let d = match parse_int_in_range(ds.as_str(), i64::MIN, i64::MAX) {
        Some(v) => v,
        None => {
            return None;
        },
    };
    let h = match parse_int_in_range(hs.as_str(), 0, i64::MAX) {
        Some(v) => v as u64,
        None => {
            return None;
        },
    };
    let mi = match parse_int_in_range(mis.as_str(), 0, i64::MAX) {
        Some(v) => v as u64,
        None => {
            return None;
        },
    };
    let s = match parse_int_in_range(ss.as_str(), 0, i64::MAX) {
        Some(v) => v as u64,
        None => {
            return None;
        },
    };
    if !(1 <= mo && mo <= 12) || !(1 <= d && d <= 31) || h > 23 || mi > 59 || s > 59 {
        return None;
    }
    let days = days_from_civil(y, mo, d);
    if days < 0 {
        return None;
    }
    assert(days <= 3000000) by (nonlinear_arith)
        requires
            days == days_from_civil_spec(y as int, mo as int, d as int),
            y <= 9999,
            1 <= mo <= 12,
            1 <= d <= 31,
    ;
    Some(days as u64 * 86400 + h * 3600 + mi * 60 + s)
}

/// Seconds per schedule unit (`MONTH` and `YEAR` are 30 and 365 days).
pub open spec fn unit_seconds(upper: Seq<char>) -> Option<nat> {
    if upper == "SECOND"@ {
        Some(1)
    } else if upper == "MINUTE"@ {
        Some(60)
    } else if upper == "HOUR"@ {
        Some(3600)
    } else if upper == "DAY"@ {
        Some(86400)
    } else if upper == "WEEK"@ {
        Some(604800)
    } else if upper == "MONTH"@ {
        Some(2592000)
    } else if upper == "YEAR"@ {
        Some(31536000)
    } else {
        None
    }
}

/// `u64` addition and multiplication that stop at `u64::MAX`.
pub open spec fn sat(n: int) -> nat {
    if n > u64::MAX {
        u64::MAX as nat
    } else {
        n as nat
    }
}

/// The next due stamp after `last` for `EVERY value field`: `None` when `last` or `value`
/// does not parse or the unit is unknown.
pub open spec fn add_interval_spec(last: Seq<char>, value: Seq<char>, field: Seq<char>) -> Option<Seq<char>> {
    match (parse_stamp_spec(last), parse_in_range(value, 0, u64::MAX as int), unit_seconds(ascii_upper_seq(field))) {
        (Some(secs), Some(n), Some(unit)) => Some(format_timestamp_spec(sat((secs as int) + (sat((n as int) * (unit as int)) as int)))),
        _ => None,
    }
}

fn unit_secs(u: &str) -> (r: Option<u64>)
    ensures
        match unit_seconds(u@) {
            Some(n) => r == Some(n as u64),
            None => r is None,
        },
{
    if str_eq(u, "SECOND") {
        Some(1)
    } else if str_eq(u, "MINUTE") {
        Some(60)
    } else if str_eq(u, "HOUR") {
        Some(3600)
    } else if str_eq(u, "DAY") {
        Some(86400)
    } else if str_eq(u, "WEEK") {
        Some(604800)
    } else if str_eq(u, "MONTH") {
        Some(2592000)
    } else if str_eq(u, "YEAR") {
        Some(31536000)
    } else {
        None
    }
}

/// The next due stamp after `last` for `EVERY value field`.
pub fn add_schedule_interval(last: &str, value: &str, field: &str) -> (r: Option<String>)
    ensures
        match add_interval_spec(last@, value@, field@) {
            Some(s) => r matches Some(t) && t@ == s,
            None => r is None,
        },
{
    let secs = match parse_stamp_secs(last) {
        Some(s) => s,
        None => {
            return None;
        },
    };
    let n = match parse_u64(value) {
        Some(v) => v,
        None => {
            return None;
        },
    };
    let upper = to_ascii_uppercase(field);
    let unit = match unit_secs(upper.as_str()) {
        Some(u) => u,
        None => {
            return None;
        },
    };
    let add = match n.checked_mul(unit) {
        Some(v) => v,
        None => u64::MAX,
    };
    let total = match secs.checked_add(add) {
        Some(v) => v,
        None => u64::MAX,
    };
    proof {
        assert(add as nat == sat((n as int) * (unit as int)));
        assert(total as nat == sat((secs as int) + (add as int)));
        assert(parse_stamp_spec(last@) == Some(secs as nat));
        assert(parse_in_range(value@, 0, u64::MAX as int) == Some(n as int));
        assert(unit_seconds(ascii_upper_seq(field@)) == Some(unit as nat));
    }
    Some(format_timestamp(total))
}

} // verus!
