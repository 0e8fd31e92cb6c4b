//! Helpers for the macOS clipboard, which is read and written through
//! `osascript`: decoding the image data it prints and quoting text for it.
use vstd::prelude::*;

use crate::text::{chars_of, string_of, trim_chars, trim_ws};

verus! {

/// The marker `osascript` prints before the hex digits of PNG data.
pub const PNG_DATA_PREFIX: &'static str = "«data PNGf";

pub open spec fn is_hex_digit(c: char) -> bool {
    ('0' <= c && c <= '9') || ('a' <= c && c <= 'f') || ('A' <= c && c <= 'F')
}

pub open spec fn hex_value(c: char) -> nat {
    if '0' <= c && c <= '9' {
        (c as u32 - 48) as nat
    } else if 'a' <= c && c <= 'f' {
        (c as u32 - 87) as nat
    } else {
        (c as u32 - 55) as nat
    }
}

/// The hex digits between `«data PNGf` and `»` in trimmed output.
pub open spec fn png_payload(s: Seq<char>) -> Option<Seq<char>> {
    let t = trim_ws(s);
    let p = PNG_DATA_PREFIX@;
    if t.len() >= p.len() + 1 && t.take(p.len() as int) == p && t.last() == '»' {
        Some(t.subrange(p.len() as int, t.len() - 1))
    } else {
        None
    }
}

/// The bytes written by pairs of hex digits.
pub open spec fn hex_bytes(h: Seq<char>) -> Seq<u8> {
    Seq::new(h.len() / 2, |i: int| (hex_value(h[2 * i]) * 16 + hex_value(h[2 * i + 1])) as u8)
}

/// What `parse_osascript_image_data` gives for the output `s`.
pub open spec fn osascript_image_spec(s: Seq<char>) -> Option<Seq<u8>> {
    match png_payload(s) {
        Some(h) => if h.len() > 0 && h.len() % 2 == 0 && (forall|i: int|
            0 <= i < h.len() ==> is_hex_digit(#[trigger] h[i])) {
            Some(hex_bytes(h))
        } else {
            None
        },
        None => None,
    }
}

fn hex_digit_value(c: char) -> (r: Option<u8>)
    ensures
        match r {
            Some(v) => is_hex_digit(c) && v as nat == hex_value(c) && v < 16,
            None => !is_hex_digit(c),
        },
{
    if '0' <= c && c <= '9' {
        Some((c as u32 - 48) as u8)
    } else if 'a' <= c && c <= 'f' {
        Some((c as u32 - 87) as u8)
    } else if 'A' <= c && c <= 'F' {
        Some((c as u32 - 55) as u8)
    } else {
        None
    }
}

/// The PNG bytes in `osascript`'s printout of clipboard data
/// (`«data PNGf89504E47…»`), if that is what it printed.
pub fn parse_osascript_image_data(stdout: &str) -> (r: Option<Vec<u8>>)
    ensures
        match osascript_image_spec(stdout@) {
            Some(b) => r matches Some(v) && v@ == b,
            None => r is None,
        },
{
    let cs = chars_of(stdout);
    let t = trim_chars(&cs);
    let p = chars_of(PNG_DATA_PREFIX);
    proof {
        reveal_strlit("«data PNGf");
    }
    let plen = p.len();
    assert(plen == 10);
    if t.len() < plen + 1 {
        return None;
    }
    let mut k: usize = 0;
    while k < plen
        invariant
            k <= plen,
            plen == p@.len(),
            plen + 1 <= t@.len(),
            t@ == trim_ws(stdout@),
            p@ == PNG_DATA_PREFIX@,
            forall|j: int| 0 <= j < k ==> t@[j] == p@[j],
        decreases plen - k,
    {
        if t[k] != p[k] {
            assert(t@.take(plen as int)[k as int] != p@[k as int]);
            assert(t@.take(plen as int) != p@);
            assert(png_payload(stdout@) is None);
            return None;
        }
        k += 1;
    }
    assert(t@.take(plen as int) =~= p@);
    if t[t.len() - 1] != '»' {
        return None;
    }
    let end = t.len() - 1;
    let ghost h = t@.subrange(plen as int, end as int);
    let n = end - plen;
    assert(png_payload(stdout@) == Some(h));
    if n == 0 || n % 2 != 0 {
        return None;
    }
    let mut out: Vec<u8> = Vec::new();
    let mut i: usize = 0;
    while i < n / 2
        invariant
            n == h.len(),
            n % 2 == 0,
            plen + n + 1 == t@.len(),
            t@.len() <= usize::MAX,
            png_payload(stdout@) == Some(h),
            h == t@.subrange(plen as int, plen + n),
            i <= n / 2,
            forall|j: int| 0 <= j < 2 * i ==> is_hex_digit(#[trigger] h[j]),
            out@ =~= hex_bytes(h).take(i as int),
        decreases n / 2 - i,
    {
        assert(2 * i + 1 < n);
        let a = t[plen + 2 * i];
        let b = t[plen + 2 * i + 1];
        assert(h[2 * i as int] == a);
        assert(h[2 * i + 1] == b);
        let hi = match hex_digit_value(a) {
            Some(v) => v,
            None => return None,
        };
        let lo = match hex_digit_value(b) {
            Some(v) => v,
            None => return None,
        };
        out.push(hi * 16 + lo);
        proof {
            assert(hex_bytes(h).take(i + 1) =~= hex_bytes(h).take(i as int).push(
                (hex_value(h[2 * i as int]) * 16 + hex_value(h[2 * i + 1])) as u8,
            ));
            assert forall|j: int| 0 <= j < 2 * (i + 1) implies is_hex_digit(#[trigger] h[j]) by {
                if j >= 2 * i {
                    if j == 2 * i {
                    } else {
                    }
                }
            }
        }
        i += 1;
    }
    assert(hex_bytes(h).take(i as int) =~= hex_bytes(h));
    Some(out)
}

/// How `applescript_string_literal` writes one character.
pub open spec fn applescript_escape(c: char) -> Seq<char> {
    if c == '"' || c == '\\' {
        seq!['\\', c]
    } else if c == '\n' || c == '\r' {
        seq![' ']
    } else {
        seq![c]
    }
}

pub open spec fn applescript_body(s: Seq<char>) -> Seq<char>
    decreases s.len(),
{
    if s.len() == 0 {
        seq![]
    } else {
        applescript_body(s.drop_last()) + applescript_escape(s.last())
    }
}

/// `text` as an AppleScript string literal: quoted, with `"` and `\`
/// escaped and line breaks turned into spaces.
pub fn applescript_string_literal(text: &str) -> (r: String)
    ensures
        r@ == seq!['"'] + applescript_body(text@) + seq!['"'],
{
    let cs = chars_of(text);
    let mut out: Vec<char> = Vec::new();
    out.push('"');
    let mut i: usize = 0;
    while i < cs.len()
        invariant
            i <= cs@.len(),
            out@ == seq!['"'] + applescript_body(cs@.take(i as int)),
        decreases cs@.len() - i,
    {
        let c = cs[i];
        if c == '"' || c == '\\' {
            out.push('\\');
            out.push(c);
        } else if c == '\n' || c == '\r' {
            out.push(' ');
        } else {
            out.push(c);
        }
        assert(cs@.take(i + 1).drop_last() =~= cs@.take(i as int));
        assert(out@ =~= seq!['"'] + applescript_body(cs@.take(i + 1)));
        i += 1;
    }
    assert(cs@.take(cs@.len() as int) =~= cs@);
    out.push('"');
    string_of(out.as_slice())
}

} // verus!

verus! {

/// An AppleScript literal never spans lines: it is quoted, and nothing
/// between the quotes is a line break.
pub proof fn lemma_applescript_literal_is_one_line(s: Seq<char>)
    ensures
        forall|i: int|
            0 <= i < applescript_body(s).len() ==> #[trigger] applescript_body(s)[i] != '\n'
                && applescript_body(s)[i] != '\r',
    decreases s.len(),
{
    if s.len() > 0 {
        lemma_applescript_literal_is_one_line(s.drop_last());
        let a = applescript_body(s.drop_last());
        let e = applescript_escape(s.last());
        assert forall|i: int| 0 <= i < (a + e).len() implies #[trigger] (a + e)[i] != '\n' && (a
            + e)[i] != '\r' by {
            if i >= a.len() {
                assert(e[i - a.len()] != '\n');
            }
        }
    }
}

} // verus!

verus! {

/// The usual value of a hexadecimal digit: `0`-`9`, then `A`/`a` = 10 up
/// to `F`/`f` = 15.
pub open spec fn usual_hex_value(c: char) -> int {
    if '0' <= c && c <= '9' {
        c as int - '0' as int
    } else if 'A' <= c && c <= 'F' {
        c as int - 'A' as int + 10
    } else {
        c as int - 'a' as int + 10
    }
}

pub open spec fn is_usual_hex_digit(c: char) -> bool {
    ('0' <= c && c <= '9') || ('a' <= c && c <= 'f') || ('A' <= c && c <= 'F')
}

/// The image data in `osascript`'s printout: when the payload between
/// `«data PNGf` and `»` is an even, non-zero number of hexadecimal digits of
/// either case, each pair of digits gives one byte, the first digit the high
/// half; any other character in the payload gives no image.
pub proof fn lemma_payload_hex_pairs_are_bytes(s: Seq<char>, h: Seq<char>)
    requires
        png_payload(s) == Some(h),
    ensures
        (h.len() > 0 && h.len() % 2 == 0 && forall|i: int|
            0 <= i < h.len() ==> is_usual_hex_digit(#[trigger] h[i])) ==> (osascript_image_spec(
            s,
        ) matches Some(b) && b.len() * 2 == h.len() && forall|i: int|
            0 <= i < b.len() ==> (#[trigger] b[i]) as int == 16 * usual_hex_value(h[2 * i])
                + usual_hex_value(h[2 * i + 1])),
        (exists|i: int| 0 <= i < h.len() && !is_usual_hex_digit(#[trigger] h[i]))
            ==> osascript_image_spec(s) is None,
{
    if h.len() > 0 && h.len() % 2 == 0 && forall|i: int|
        0 <= i < h.len() ==> is_usual_hex_digit(#[trigger] h[i]) {
        assert forall|i: int| 0 <= i < h.len() implies is_hex_digit(#[trigger] h[i]) by {
            assert(is_usual_hex_digit(h[i]));
        }
        let b = hex_bytes(h);
        assert forall|i: int| 0 <= i < b.len() implies (#[trigger] b[i]) as int == 16
            * usual_hex_value(h[2 * i]) + usual_hex_value(h[2 * i + 1]) by {
            assert(is_usual_hex_digit(h[2 * i]));
            assert(is_usual_hex_digit(h[2 * i + 1]));
            assert(hex_value(h[2 * i]) == usual_hex_value(h[2 * i]));
            assert(hex_value(h[2 * i + 1]) == usual_hex_value(h[2 * i + 1]));
        }
    }
    if exists|i: int| 0 <= i < h.len() && !is_usual_hex_digit(#[trigger] h[i]) {
        let i = choose|i: int| 0 <= i < h.len() && !is_usual_hex_digit(#[trigger] h[i]);
        assert(!is_hex_digit(h[i]));
    }
}

} // verus!
