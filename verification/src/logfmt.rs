//! Lines of the log file: UTC timestamps and one-line messages.
use vstd::prelude::*;

use crate::dedent::append_chars;
use crate::text::{chars_of, decimal, push_decimal, push_str, string_of, text_less};

verus! {

// ---------------------------------------------------------------------------
// Log lines
// ---------------------------------------------------------------------------

/// Line breaks become spaces so that a message stays on one line.
pub open spec fn flatten_char(c: char) -> char {
    if c == '\n' || c == '\r' {
        ' '
    } else {
        c
    }
}

pub open spec fn flatten(s: Seq<char>) -> Seq<char> {
    Seq::new(s.len(), |i: int| flatten_char(s[i]))
}

/// `"{timestamp} [{level}] {message}\n"` with the message on one line.
pub fn format_log_line(timestamp: &str, level: &str, message: &str) -> (r: String)
    ensures
        r@ == timestamp@ + " ["@ + level@ + "] "@ + flatten(message@) + "\n"@,
{
    let mut out: Vec<char> = Vec::new();
    push_str(&mut out, timestamp);
    push_str(&mut out, " [");
    push_str(&mut out, level);
    push_str(&mut out, "] ");
    let ghost head = out@;
    let cs = chars_of(message);
    let mut i: usize = 0;
    while i < cs.len()
        invariant
            i <= cs@.len(),
            cs@ == message@,
            out@ == head + flatten(cs@.take(i as int)),
        decreases cs@.len() - i,
    {
        let c = cs[i];
        if c == '\n' || c == '\r' {
            out.push(' ');
        } else {
            out.push(c);
        }
        assert(flatten(cs@.take(i + 1)) =~= flatten(cs@.take(i as int)).push(flatten_char(c)));
        i += 1;
    }
    assert(cs@.take(cs@.len() as int) =~= cs@);
    push_str(&mut out, "\n");
    string_of(out.as_slice())
}

// ---------------------------------------------------------------------------
// Timestamps
// ---------------------------------------------------------------------------

/// The civil date `(year, month, day)` of a day count from 1970-01-01, by
/// eras of 400 Gregorian years counted from 0000-03-01.
pub open spec fn civil_spec(days: int) -> (int, int, int) {
    let z = days + 719468;
    let era = z / 146097;
    let doe = z - era * 146097;
    let yoe = (doe - doe / 1460 + doe / 36524 - doe / 146096) / 365;
    let y = yoe + era * 400;
    let doy = doe - (365 * yoe + yoe / 4 - yoe / 100);
    let mp = (5 * doy + 2) / 153;
    let d = doy - (153 * mp + 2) / 5 + 1;
    let m = if mp < 10 {
        mp + 3
    } else {
        mp - 9
    };
    (if m <= 2 {
        y + 1
    } else {
        y
    }, m, d)
}

proof fn lemma_civil_steps(doe: int)
    requires
        0 <= doe < 146097,
    ensures
        ({
            let yoe = (doe - doe / 1460 + doe / 36524 - doe / 146096) / 365;
            let doy = doe - (365 * yoe + yoe / 4 - yoe / 100);
            let mp = (5 * doy + 2) / 153;
            &&& 0 <= yoe < 400
            &&& 0 <= doy < 366
            &&& 0 <= mp < 12
            &&& 0 <= doy - (153 * mp + 2) / 5 < 31
        }),
{
    let yoe = (doe - doe / 1460 + doe / 36524 - doe / 146096) / 365;
    assert(0 <= doe / 1460 <= 100);
    assert(0 <= doe / 36524 <= 4);
    assert(0 <= doe / 146096 <= 1);
    assert(doe / 146096 == 1 ==> doe == 146096);
    assert(0 <= yoe < 400) by (nonlinear_arith)
        requires
            0 <= doe < 146097,
            yoe == (doe - doe / 1460 + doe / 36524 - doe / 146096) / 365,
    ;
    let doy = doe - (365 * yoe + yoe / 4 - yoe / 100);
    assert(0 <= doy < 366) by (nonlinear_arith)
        requires
            0 <= doe < 146097,
            yoe == (doe - doe / 1460 + doe / 36524 - doe / 146096) / 365,
            doy == doe - (365 * yoe + yoe / 4 - yoe / 100),
    ;
    let mp = (5 * doy + 2) / 153;
    assert(0 <= mp < 12);
    assert(0 <= doy - (153 * mp + 2) / 5 < 31);
}

/// `(year, month, day)` of the day `days` after 1970-01-01.
fn civil_from_days(days: i64) -> (r: (i64, u32, u32))
    requires
        days <= i64::MAX - 719468,
    ensures
        r.0 == civil_spec(days as int).0,
        r.1 == civil_spec(days as int).1,
        r.2 == civil_spec(days as int).2,
        1 <= r.1 <= 12,
        1 <= r.2 <= 31,
{
    let z = days + 719468;
    let era: i64 = if z >= 0 {
        z / 146097
    } else {
        -1 - (-1 - z) / 146097
    };
    assert(era == z / 146097) by (nonlinear_arith)
        requires
            era == if z >= 0 {
                z / 146097
            } else {
                -1 - (-1 - z) / 146097
            },
    ;
    assert(0 <= z - era * 146097 < 146097) by (nonlinear_arith)
        requires
            era == z / 146097,
    ;
    let doe = (z - era * 146097) as u64;
    proof {
        lemma_civil_steps(doe as int);
    }
    let yoe = (doe - doe / 1460 + doe / 36524 - doe / 146096) / 365;
    let y = yoe as i64 + era * 400;
    let doy = doe - (365 * yoe + yoe / 4 - yoe / 100);
    let mp = (5 * doy + 2) / 153;
    let day = (doy - (153 * mp + 2) / 5 + 1) as u32;
    let month = if mp < 10 {
        mp + 3
    } else {
        mp - 9
    } as u32;
    (if month <= 2 {
        y + 1
    } else {
        y
    }, month, day)
}

/// `n` in decimal, padded with zeros on the left to `width` digits.
pub open spec fn padded(n: nat, width: nat) -> Seq<char> {
    let d = decimal(n);
    if d.len() >= width {
        d
    } else {
        Seq::new((width - d.len()) as nat, |i: int| '0') + d
    }
}

fn push_padded(out: &mut Vec<char>, n: u64, width: usize)
    ensures
        final(out)@ == old(out)@ + padded(n as nat, width as nat),
{
    let mut digits: Vec<char> = Vec::new();
    push_decimal(&mut digits, n);
    assert(digits@ == decimal(n as nat));
    if digits.len() < width {
        let ghost start = out@;
        let fill = width - digits.len();
        let mut k: usize = 0;
        while k < fill
            invariant
                k <= fill,
                out@ == start + Seq::new(k as nat, |i: int| '0'),
            decreases fill - k,
        {
            out.push('0');
            assert(Seq::new((k + 1) as nat, |i: int| '0') =~= Seq::new(k as nat, |i: int| '0').push('0'));
            k += 1;
        }
    }
    append_chars(out, &digits);
}

/// RFC 3339 UTC text (`YYYY-MM-DDTHH:MM:SSZ`) of a Unix time.
pub open spec fn timestamp_spec(secs: nat) -> Seq<char> {
    let (y, m, d) = civil_spec((secs / 86400) as int);
    let sod = secs % 86400;
    padded(y as nat, 4) + "-"@ + padded(m as nat, 2) + "-"@ + padded(d as nat, 2) + "T"@ + padded(
        sod / 3600,
        2,
    ) + ":"@ + padded((sod % 3600) / 60, 2) + ":"@ + padded(sod % 60, 2) + "Z"@
}

/// Seconds since the Unix epoch as `YYYY-MM-DDTHH:MM:SSZ`.
pub fn format_timestamp(unix_seconds: u64) -> (r: String)
    ensures
        r@ == timestamp_spec(unix_seconds as nat),
{
    let days = (unix_seconds / 86400) as i64;
    let (year, month, day) = civil_from_days(days);
    assert(year >= 0) by (nonlinear_arith)
        requires
            days >= 0,
            year == civil_spec(days as int).0,
    ;
    let sod = unix_seconds % 86400;
    let mut out: Vec<char> = Vec::new();
    push_padded(&mut out, year as u64, 4);
    push_str(&mut out, "-");
    push_padded(&mut out, month as u64, 2);
    push_str(&mut out, "-");
    push_padded(&mut out, day as u64, 2);
    push_str(&mut out, "T");
    push_padded(&mut out, sod / 3600, 2);
    push_str(&mut out, ":");
    push_padded(&mut out, (sod % 3600) / 60, 2);
    push_str(&mut out, ":");
    push_padded(&mut out, sod % 60, 2);
    push_str(&mut out, "Z");
    string_of(out.as_slice())
}

} // verus!

verus! {

pub open spec fn no_line_break(s: Seq<char>) -> bool {
    forall|i: int| 0 <= i < s.len() ==> #[trigger] s[i] != '\n' && s[i] != '\r'
}

/// A log line is one line: when the timestamp and the level hold no line
/// break, the only line break is the final `"\n"`, whatever the message.
pub proof fn lemma_log_line_is_one_line(timestamp: Seq<char>, level: Seq<char>, message: Seq<char>)
    requires
        no_line_break(timestamp),
        no_line_break(level),
    ensures
        ({
            let r = timestamp + " ["@ + level + "] "@ + flatten(message) + "\n"@;
            &&& r.last() == '\n'
            &&& no_line_break(r.drop_last())
        }),
{
    reveal_strlit(" [");
    reveal_strlit("] ");
    reveal_strlit("\n");
    let head = timestamp + " ["@ + level + "] "@;
    let body = head + flatten(message);
    let r = body + "\n"@;
    assert(no_line_break(flatten(message)));
    assert(no_line_break(head));
    assert(no_line_break(body));
    assert(r.drop_last() =~= body);
}

} // verus!

verus! {

// ---------------------------------------------------------------------------
// Timestamps sort as the times they name
// ---------------------------------------------------------------------------

proof fn lemma_text_less_prefix(a: Seq<char>, b: Seq<char>, x: Seq<char>, y: Seq<char>)
    requires
        a.len() == b.len(),
        text_less(a, b),
    ensures
        text_less(a + x, b + y),
    decreases a.len(),
{
    assert((a + x)[0] == a[0]);
    assert((b + y)[0] == b[0]);
    if a[0] == b[0] {
        assert((a + x).drop_first() =~= a.drop_first() + x);
        assert((b + y).drop_first() =~= b.drop_first() + y);
        lemma_text_less_prefix(a.drop_first(), b.drop_first(), x, y);
    }
}

proof fn lemma_text_less_common(a: Seq<char>, x: Seq<char>, y: Seq<char>)
    requires
        text_less(x, y),
    ensures
        text_less(a + x, a + y),
    decreases a.len(),
{
    if a.len() == 0 {
        assert(a + x =~= x);
        assert(a + y =~= y);
    } else {
        assert((a + x)[0] == a[0]);
        assert((a + y)[0] == a[0]);
        assert((a + x).drop_first() =~= a.drop_first() + x);
        assert((a + y).drop_first() =~= a.drop_first() + y);
        lemma_text_less_common(a.drop_first(), x, y);
    }
}

/// Either the heads differ in order, or they are equal and the tails are
/// in order.
proof fn lemma_text_less_field(a: Seq<char>, b: Seq<char>, x: Seq<char>, y: Seq<char>)
    requires
        a.len() == b.len(),
        text_less(a, b) || (a == b && text_less(x, y)),
    ensures
        text_less(a + x, b + y),
{
    if text_less(a, b) {
        lemma_text_less_prefix(a, b, x, y);
    } else {
        lemma_text_less_common(a, x, y);
    }
}

pub open spec fn pow10(w: nat) -> nat
    decreases w,
{
    if w == 0 {
        1
    } else {
        10 * pow10((w - 1) as nat)
    }
}

/// The last `w` decimal digits of `n`, most significant first.
pub open spec fn digits(n: nat, w: nat) -> Seq<char>
    decreases w,
{
    if w == 0 {
        seq![]
    } else {
        digits(n / 10, (w - 1) as nat).push(crate::text::digit_char(n % 10))
    }
}

proof fn lemma_digit_order(a: nat, b: nat)
    requires
        a < b < 10,
    ensures
        crate::text::digit_char(a) < crate::text::digit_char(b),
{
}

proof fn lemma_digits_len(n: nat, w: nat)
    ensures
        digits(n, w).len() == w,
    decreases w,
{
    if w > 0 {
        lemma_digits_len(n / 10, (w - 1) as nat);
    }
}

proof fn lemma_digits_order(n: nat, m: nat, w: nat)
    requires
        n < m < pow10(w),
    ensures
        text_less(digits(n, w), digits(m, w)),
    decreases w,
{
    let w1 = (w - 1) as nat;
    assert(w > 0);
    lemma_digits_len(n / 10, w1);
    lemma_digits_len(m / 10, w1);
    assert(digits(n, w) =~= digits(n / 10, w1) + seq![crate::text::digit_char(n % 10)]);
    assert(digits(m, w) =~= digits(m / 10, w1) + seq![crate::text::digit_char(m % 10)]);
    assert(n / 10 <= m / 10 < pow10(w1)) by (nonlinear_arith)
        requires
            n < m < pow10(w),
            pow10(w) == 10 * pow10(w1),
    ;
    if n / 10 < m / 10 {
        lemma_digits_order(n / 10, m / 10, w1);
        lemma_text_less_prefix(
            digits(n / 10, w1),
            digits(m / 10, w1),
            seq![crate::text::digit_char(n % 10)],
            seq![crate::text::digit_char(m % 10)],
        );
    } else {
        assert(n % 10 < m % 10) by (nonlinear_arith)
            requires
                n < m,
                n / 10 == m / 10,
        ;
        lemma_digit_order(n % 10, m % 10);
        let d = seq![crate::text::digit_char(n % 10)];
        let e = seq![crate::text::digit_char(m % 10)];
        assert(text_less(d, e)) by {
            assert(d.drop_first().len() == 0);
        }
        lemma_text_less_common(digits(n / 10, w1), d, e);
    }
}

/// Zero padding writes the last `w` digits when the number has at most `w`.
proof fn lemma_padded_digits(n: nat, w: nat)
    requires
        n < pow10(w),
        w >= 1,
    ensures
        crate::logfmt::padded(n, w) == digits(n, w),
    decreases w,
{
    let dn = crate::text::decimal(n);
    let w1 = (w - 1) as nat;
    assert(crate::text::digit_char(0) == '0');
    if n < 10 {
        assert(dn == seq![crate::text::digit_char(n)]);
        lemma_zero_digits(w1);
        assert(n / 10 == 0);
        assert(n % 10 == n);
        assert(digits(n, w) == digits(0, w1).push(crate::text::digit_char(n)));
        assert(crate::logfmt::padded(n, w) =~= digits(n, w));
    } else {
        assert(w1 >= 1 && n / 10 < pow10(w1)) by (nonlinear_arith)
            requires
                10 <= n < pow10(w),
                w >= 1,
                pow10(w) == 10 * pow10(w1),
                w1 == w - 1,
                w1 == 0 ==> pow10(w1) == 1,
        ;
        lemma_padded_digits(n / 10, w1);
        assert(dn == crate::text::decimal(n / 10).push(crate::text::digit_char(n % 10)));
        lemma_decimal_short(n / 10, w1);
        assert(crate::logfmt::padded(n, w) =~= crate::logfmt::padded(n / 10, w1).push(
            crate::text::digit_char(n % 10),
        ));
    }
}

proof fn lemma_zero_digits(w: nat)
    ensures
        digits(0, w) == Seq::new(w, |i: int| '0'),
    decreases w,
{
    assert(crate::text::digit_char(0) == '0');
    if w > 0 {
        lemma_zero_digits((w - 1) as nat);
        assert(digits(0, w) =~= Seq::new(w, |i: int| '0'));
    } else {
        assert(digits(0, w) =~= Seq::new(w, |i: int| '0'));
    }
}

proof fn lemma_decimal_short(n: nat, w: nat)
    requires
        n < pow10(w),
        w >= 1,
    ensures
        crate::text::decimal(n).len() <= w,
    decreases w,
{
    if n >= 10 {
        let w1 = (w - 1) as nat;
        assert(w1 >= 1 && n / 10 < pow10(w1)) by (nonlinear_arith)
            requires
                10 <= n < pow10(w),
                w >= 1,
                pow10(w) == 10 * pow10(w1),
                w1 == w - 1,
                w1 == 0 ==> pow10(w1) == 1,
        ;
        lemma_decimal_short(n / 10, w1);
    }
}

} // verus!

verus! {

/// The timestamp text of a date and a time of day, read left to right.
pub open spec fn stamp(y: nat, m: nat, d: nat, h: nat, mi: nat, se: nat) -> Seq<char> {
    padded(y, 4) + ("-"@ + (padded(m, 2) + ("-"@ + (padded(d, 2) + ("T"@ + (padded(h, 2) + (
    ":"@ + (padded(mi, 2) + (":"@ + (padded(se, 2) + "Z"@))))))))))
}

proof fn lemma_field_then(a: nat, b: nat, w: nat, x: Seq<char>, y: Seq<char>)
    requires
        w >= 1,
        a <= b < pow10(w),
        a < b || text_less(x, y),
    ensures
        text_less(padded(a, w) + x, padded(b, w) + y),
{
    lemma_padded_digits(a, w);
    lemma_padded_digits(b, w);
    lemma_digits_len(a, w);
    lemma_digits_len(b, w);
    if a < b {
        lemma_digits_order(a, b, w);
    }
    lemma_text_less_field(padded(a, w), padded(b, w), x, y);
}

proof fn lemma_stamp_order(
    y1: nat, m1: nat, d1: nat, h1: nat, i1: nat, s1: nat,
    y2: nat, m2: nat, d2: nat, h2: nat, i2: nat, s2: nat,
)
    requires
        y1 < 10000 && y2 < 10000,
        m1 < 100 && m2 < 100 && d1 < 100 && d2 < 100 && h1 < 100 && h2 < 100,
        i1 < 100 && i2 < 100 && s1 < 100 && s2 < 100,
        y1 < y2 || (y1 == y2 && (m1 < m2 || (m1 == m2 && (d1 < d2 || (d1 == d2 && (h1 < h2 || (
        h1 == h2 && (i1 < i2 || (i1 == i2 && s1 < s2))))))))),
    ensures
        text_less(stamp(y1, m1, d1, h1, i1, s1), stamp(y2, m2, d2, h2, i2, s2)),
{
    assert(pow10(2) == 100 && pow10(4) == 10000) by {
        reveal_with_fuel(pow10, 5);
    }
    let z = "Z"@;
    let t6a = padded(s1, 2) + z;
    let t6b = padded(s2, 2) + z;
    let t5a = padded(i1, 2) + (":"@ + t6a);
    let t5b = padded(i2, 2) + (":"@ + t6b);
    let t4a = padded(h1, 2) + (":"@ + t5a);
    let t4b = padded(h2, 2) + (":"@ + t5b);
    let t3a = padded(d1, 2) + ("T"@ + t4a);
    let t3b = padded(d2, 2) + ("T"@ + t4b);
    let t2a = padded(m1, 2) + ("-"@ + t3a);
    let t2b = padded(m2, 2) + ("-"@ + t3b);
    if y1 == y2 && m1 == m2 && d1 == d2 && h1 == h2 && i1 == i2 {
        lemma_field_then(s1, s2, 2, z, z);
    }
    if y1 == y2 && m1 == m2 && d1 == d2 && h1 == h2 && i1 <= i2 {
        if i1 == i2 {
            lemma_text_less_common(":"@, t6a, t6b);
        }
        lemma_field_then(i1, i2, 2, ":"@ + t6a, ":"@ + t6b);
    }
    if y1 == y2 && m1 == m2 && d1 == d2 && h1 <= h2 {
        if h1 == h2 {
            lemma_text_less_common(":"@, t5a, t5b);
        }
        lemma_field_then(h1, h2, 2, ":"@ + t5a, ":"@ + t5b);
    }
    if y1 == y2 && m1 == m2 && d1 <= d2 {
        if d1 == d2 {
            lemma_text_less_common("T"@, t4a, t4b);
        }
        lemma_field_then(d1, d2, 2, "T"@ + t4a, "T"@ + t4b);
    }
    if y1 == y2 && m1 <= m2 {
        if m1 == m2 {
            lemma_text_less_common("-"@, t3a, t3b);
        }
        lemma_field_then(m1, m2, 2, "-"@ + t3a, "-"@ + t3b);
    }
    if y1 == y2 {
        lemma_text_less_common("-"@, t2a, t2b);
    }
    lemma_field_then(y1, y2, 4, "-"@ + t2a, "-"@ + t2b);
}

proof fn lemma_civil_end()
    ensures
        civil_spec(2932897) == (10000int, 1int, 1int),
{
}

/// The dates of the days before the year 10000.
proof fn lemma_date_bounds(d: int)
    requires
        0 <= d <= 2932896,
    ensures
        1970 <= civil_spec(d).0 < 10000,
        1 <= civil_spec(d).1 <= 12,
        1 <= civil_spec(d).2 <= 31,
{
    crate::calendar::lemma_civil_is_gregorian(0);
    crate::calendar::lemma_civil_is_gregorian(d);
    lemma_civil_end();
    crate::calendar::lemma_civil_increasing(d, 2932897);
    if d > 0 {
        crate::calendar::lemma_civil_increasing(0, d);
    }
}

proof fn lemma_time_parts(sa: nat, sb: nat)
    requires
        sa < 86400,
        sb < 86400,
    ensures
        sa / 3600 < 24 && (sa % 3600) / 60 < 60 && sa % 60 < 60,
        sa < sb ==> (sa / 3600 < sb / 3600 || (sa / 3600 == sb / 3600 && ((sa % 3600) / 60 < (
        sb % 3600) / 60 || ((sa % 3600) / 60 == (sb % 3600) / 60 && sa % 60 < sb % 60)))),
{
    assert(sa / 3600 < 24 && (sa % 3600) / 60 < 60 && sa % 60 < 60) by (nonlinear_arith)
        requires
            sa < 86400,
    ;
    assert(sa < sb ==> (sa / 3600 < sb / 3600 || (sa / 3600 == sb / 3600 && ((sa % 3600) / 60 < (
    sb % 3600) / 60 || ((sa % 3600) / 60 == (sb % 3600) / 60 && sa % 60 < sb % 60)))))
        by (nonlinear_arith);
}

/// The date of the day an instant falls on.
#[verifier::opaque]
pub open spec fn date_of(s: nat) -> (int, int, int) {
    civil_spec((s / 86400) as int)
}

proof fn lemma_reassoc(
    p1: Seq<char>, p2: Seq<char>, p3: Seq<char>, p4: Seq<char>, p5: Seq<char>, p6: Seq<char>,
    p7: Seq<char>, p8: Seq<char>, p9: Seq<char>, p10: Seq<char>, p11: Seq<char>, p12: Seq<char>,
)
    ensures
        p1 + p2 + p3 + p4 + p5 + p6 + p7 + p8 + p9 + p10 + p11 + p12 == p1 + (p2 + (p3 + (p4 + (p5
            + (p6 + (p7 + (p8 + (p9 + (p10 + (p11 + p12)))))))))),
{
    assert(p1 + p2 + p3 + p4 + p5 + p6 + p7 + p8 + p9 + p10 + p11 + p12 =~= p1 + (p2 + (p3 + (p4
        + (p5 + (p6 + (p7 + (p8 + (p9 + (p10 + (p11 + p12)))))))))));
}

proof fn lemma_stamp_of(s: nat)
    ensures
        timestamp_spec(s) == stamp(
            date_of(s).0 as nat,
            date_of(s).1 as nat,
            date_of(s).2 as nat,
            (s % 86400) / 3600,
            ((s % 86400) % 3600) / 60,
            (s % 86400) % 60,
        ),
{
    reveal(date_of);
    let c = date_of(s);
    let sod = s % 86400;
    lemma_reassoc(
        padded(c.0 as nat, 4), "-"@, padded(c.1 as nat, 2), "-"@, padded(c.2 as nat, 2), "T"@,
        padded(sod / 3600, 2), ":"@, padded((sod % 3600) / 60, 2), ":"@, padded(sod % 60, 2), "Z"@,
    );
}

proof fn lemma_dates_of(a: nat, b: nat)
    requires
        a < b < 253402300800,
    ensures
        1970 <= date_of(a).0 < 10000 && 1 <= date_of(a).1 <= 12 && 1 <= date_of(a).2 <= 31,
        1970 <= date_of(b).0 < 10000 && 1 <= date_of(b).1 <= 12 && 1 <= date_of(b).2 <= 31,
        crate::calendar::date_before(date_of(a), date_of(b)) || (date_of(a) == date_of(b)
            && a % 86400 < b % 86400),
{
    reveal(date_of);
    let da = (a / 86400) as int;
    let db = (b / 86400) as int;
    assert(0 <= da <= db <= 2932896 && (da == db ==> a % 86400 < b % 86400)) by (nonlinear_arith)
        requires
            a < b < 253402300800,
            da == a / 86400,
            db == b / 86400,
    ;
    lemma_date_bounds(da);
    lemma_date_bounds(db);
    if da < db {
        crate::calendar::lemma_civil_increasing(da, db);
    }
}

/// Timestamps sort as the times they name: of two instants before the year
/// 10000, the earlier one's text comes first in string order.
pub proof fn lemma_timestamps_sort_in_time_order(a: nat, b: nat)
    requires
        a < b < 253402300800,
    ensures
        text_less(timestamp_spec(a), timestamp_spec(b)),
{
    let sa = a % 86400;
    let sb = b % 86400;
    lemma_dates_of(a, b);
    lemma_time_parts(sa, sb);
    lemma_time_parts(sb, sa);
    lemma_stamp_of(a);
    lemma_stamp_of(b);
    let ca = date_of(a);
    let cb = date_of(b);
    lemma_stamp_order(
        ca.0 as nat, ca.1 as nat, ca.2 as nat, sa / 3600, (sa % 3600) / 60, sa % 60,
        cb.0 as nat, cb.1 as nat, cb.2 as nat, sb / 3600, (sb % 3600) / 60, sb % 60,
    );
}

} // verus!
