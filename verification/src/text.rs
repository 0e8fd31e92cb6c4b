//! Character-level text helpers: conversions between `str` and `Vec<char>`,
//! trimming, searching, replacing, splitting and decimal digits.
use vstd::prelude::*;

verus! {

/// Appends one character to a `String`.
///
/// Trusted: `String::push`, documented to append the given `char` to the end
/// of the string; the contract says exactly that of the character view.
#[verifier::external_body]
pub(crate) fn push_char(s: &mut String, c: char)
    ensures
        final(s)@ == old(s)@.push(c),
{
    s.push(c);
}

/// The characters of `s`, in order.
pub fn chars_of(s: &str) -> (r: Vec<char>)
    ensures
        r@ == s@,
{
    let mut out: Vec<char> = Vec::new();
    for c in it: s.chars()
        invariant
            out@ == it.seq().take(it.index()),
            it.seq() == s@,
    {
        out.push(c);
    }
    out
}

/// Builds a `String` whose character view is `cs`.
pub fn string_of(cs: &[char]) -> (r: String)
    ensures
        r@ == cs@,
{
    let mut out = String::new();
    let mut i: usize = 0;
    while i < cs.len()
        invariant
            i <= cs@.len(),
            out@ == cs@.take(i as int),
        decreases cs@.len() - i,
    {
        push_char(&mut out, cs[i]);
        assert(cs@.take(i + 1) == cs@.take(i as int).push(cs@[i as int]));
        i += 1;
    }
    assert(cs@.take(cs@.len() as int) == cs@);
    out
}

} // verus!

verus! {

/// `char::is_whitespace`: the Unicode `White_Space` property.
pub open spec fn is_whitespace_spec(c: char) -> bool {
    let u = c as u32;
    (0x09 <= u && u <= 0x0D) || u == 0x20 || u == 0x85 || u == 0xA0 || u == 0x1680 || (0x2000
        <= u && u <= 0x200A) || u == 0x2028 || u == 0x2029 || u == 0x202F || u == 0x205F || u
        == 0x3000
}

pub open spec fn whitespace_pred() -> spec_fn(char) -> bool {
    |c: char| is_whitespace_spec(c)
}

pub fn is_whitespace(c: char) -> (r: bool)
    ensures
        r == is_whitespace_spec(c),
{
    let u = c as u32;
    (0x09 <= u && u <= 0x0D) || u == 0x20 || u == 0x85 || u == 0xA0 || u == 0x1680 || (0x2000
        <= u && u <= 0x200A) || u == 0x2028 || u == 0x2029 || u == 0x202F || u == 0x205F || u
        == 0x3000
}

/// `str::trim`: leading and trailing whitespace removed.
pub open spec fn trim_ws(s: Seq<char>) -> Seq<char> {
    let l = crate::dedent::prefix_len(s, whitespace_pred());
    if l == s.len() {
        seq![]
    } else {
        s.subrange(l as int, s.len() - crate::dedent::suffix_len(s, whitespace_pred()))
    }
}

/// Every character is whitespace (so the trimmed text is empty).
pub open spec fn all_whitespace(s: Seq<char>) -> bool {
    forall|i: int| 0 <= i < s.len() ==> is_whitespace_spec(#[trigger] s[i])
}

pub proof fn lemma_trim_ws_empty(s: Seq<char>)
    ensures
        (trim_ws(s).len() == 0) == all_whitespace(s),
{
    crate::dedent::lemma_prefix_len_props(s, whitespace_pred());
    crate::dedent::lemma_suffix_len_props(s, whitespace_pred());
    let l = crate::dedent::prefix_len(s, whitespace_pred());
    if l < s.len() {
        assert(!is_whitespace_spec(s[l as int]));
    }
}

pub fn trim_chars(s: &Vec<char>) -> (r: Vec<char>)
    ensures
        r@ == trim_ws(s@),
{
    let mut l: usize = 0;
    while l < s.len() && is_whitespace(s[l])
        invariant
            l <= s@.len(),
            forall|i: int| 0 <= i < l ==> is_whitespace_spec(#[trigger] s@[i]),
        decreases s@.len() - l,
    {
        l += 1;
    }
    proof {
        crate::dedent::lemma_prefix_len(s@, whitespace_pred(), l as int);
    }
    if l == s.len() {
        return Vec::new();
    }
    let mut t: usize = 0;
    while t < s.len() - l && is_whitespace(s[s.len() - 1 - t])
        invariant
            l < s@.len(),
            t <= s@.len() - l,
            forall|i: int| s@.len() - t <= i < s@.len() ==> is_whitespace_spec(#[trigger] s@[i]),
        decreases s@.len() - l - t,
    {
        t += 1;
    }
    proof {
        if t == s@.len() - l {
            assert(is_whitespace_spec(s@[l as int]));
        }
        crate::dedent::lemma_suffix_len(s@, whitespace_pred(), t as int);
    }
    let mut out: Vec<char> = Vec::new();
    let mut i = l;
    while i < s.len() - t
        invariant
            l <= i <= s@.len() - t,
            t <= s@.len(),
            out@ == s@.subrange(l as int, i as int),
        decreases s@.len() - t - i,
    {
        out.push(s[i]);
        assert(s@.subrange(l as int, i + 1) == s@.subrange(l as int, i as int).push(s@[i as int]));
        i += 1;
    }
    out
}

/// Character-wise equality of two strings.
pub fn str_eq(a: &str, b: &str) -> (r: bool)
    ensures
        r == (a@ == b@),
{
    let x = chars_of(a);
    let y = chars_of(b);
    chars_eq(&x, &y)
}

pub fn chars_eq(x: &Vec<char>, y: &Vec<char>) -> (r: bool)
    ensures
        r == (x@ == y@),
{
    if x.len() != y.len() {
        return false;
    }
    let mut i: usize = 0;
    while i < x.len()
        invariant
            i <= x@.len() == y@.len(),
            forall|k: int| 0 <= k < i ==> x@[k] == y@[k],
        decreases x@.len() - i,
    {
        if x[i] != y[i] {
            return false;
        }
        i += 1;
    }
    assert(x@ == y@);
    true
}

/// `needle` occurs in `s` at position `i`.
pub open spec fn occurs_at(s: Seq<char>, needle: Seq<char>, i: int) -> bool {
    0 <= i && i + needle.len() <= s.len() && s.subrange(i, i + needle.len()) == needle
}

/// `str::contains` with a string pattern.
pub open spec fn contains_seq(s: Seq<char>, needle: Seq<char>) -> bool {
    exists|i: int| occurs_at(s, needle, i)
}

fn occurs_at_exec(s: &Vec<char>, needle: &Vec<char>, i: usize) -> (r: bool)
    requires
        i + needle@.len() <= s@.len(),
    ensures
        r == occurs_at(s@, needle@, i as int),
{
    let slen = s.len();
    let mut k: usize = 0;
    while k < needle.len()
        invariant
            k <= needle@.len(),
            slen == s@.len(),
            i + needle@.len() <= s@.len(),
            forall|j: int| 0 <= j < k ==> s@[i + j] == needle@[j],
        decreases needle@.len() - k,
    {
        if s[i + k] != needle[k] {
            assert(s@.subrange(i as int, i + needle@.len())[k as int] != needle@[k as int]);
            return false;
        }
        k += 1;
    }
    assert(s@.subrange(i as int, i + needle@.len()) == needle@);
    true
}

pub fn contains_chars(s: &Vec<char>, needle: &Vec<char>) -> (r: bool)
    ensures
        r == contains_seq(s@, needle@),
{
    if needle.len() > s.len() {
        return false;
    }
    if needle.len() == 0 {
        assert(s@.subrange(0, 0) =~= needle@);
        assert(occurs_at(s@, needle@, 0));
        return true;
    }
    let mut i: usize = 0;
    while i <= s.len() - needle.len()
        invariant
            0 < needle@.len() <= s@.len(),
            i <= s@.len() - needle@.len() + 1,
            forall|j: int| 0 <= j < i ==> !occurs_at(s@, needle@, j),
        decreases s@.len() - needle@.len() + 1 - i,
    {
        if occurs_at_exec(s, needle, i) {
            return true;
        }
        i += 1;
    }
    false
}

/// `str::contains` on strings.
pub fn str_contains(s: &str, needle: &str) -> (r: bool)
    ensures
        r == contains_seq(s@, needle@),
{
    let x = chars_of(s);
    let y = chars_of(needle);
    contains_chars(&x, &y)
}

/// The decimal digits of `n`, as `Display` writes an unsigned integer.
pub open spec fn decimal(n: nat) -> Seq<char>
    decreases n,
{
    if n < 10 {
        seq![digit_char(n)]
    } else {
        decimal(n / 10).push(digit_char(n % 10))
    }
}

pub open spec fn digit_char(d: nat) -> char {
    ((d + 48) as u32) as char
}

fn digit(d: u64) -> (c: char)
    requires
        d < 10,
    ensures
        c == digit_char(d as nat),
{
    if d == 0 { '0' } else if d == 1 { '1' } else if d == 2 { '2' } else if d == 3 { '3' }
    else if d == 4 { '4' } else if d == 5 { '5' } else if d == 6 { '6' } else if d == 7 { '7' }
    else if d == 8 { '8' } else { '9' }
}

/// Appends the decimal digits of `n`.
pub fn push_decimal(out: &mut Vec<char>, n: u64)
    ensures
        final(out)@ == old(out)@ + decimal(n as nat),
    decreases n,
{
    if n < 10 {
        out.push(digit(n));
        assert(decimal(n as nat) == seq![digit_char(n as nat)]);
    } else {
        push_decimal(out, n / 10);
        out.push(digit(n % 10));
        assert(decimal(n as nat) == decimal((n / 10) as nat).push(digit_char((n % 10) as nat)));
    }
}

/// Appends the characters of `s`.
pub fn push_str(out: &mut Vec<char>, s: &str)
    ensures
        final(out)@ == old(out)@ + s@,
{
    let cs = chars_of(s);
    let mut i: usize = 0;
    while i < cs.len()
        invariant
            i <= cs@.len(),
            cs@ == s@,
            out@ == old(out)@ + cs@.take(i as int),
        decreases cs@.len() - i,
    {
        out.push(cs[i]);
        assert(cs@.take(i + 1) == cs@.take(i as int).push(cs@[i as int]));
        i += 1;
    }
    assert(cs@.take(cs@.len() as int) == cs@);
}

/// `str::replace` with a non-empty pattern: every non-overlapping occurrence,
/// scanning from the left, is replaced.
pub open spec fn replace_all(s: Seq<char>, pat: Seq<char>, rep: Seq<char>) -> Seq<char>
    decreases s.len(),
{
    if s.len() == 0 || pat.len() == 0 {
        s
    } else if pat.len() <= s.len() && s.take(pat.len() as int) == pat {
        rep + replace_all(s.skip(pat.len() as int), pat, rep)
    } else {
        seq![s[0]] + replace_all(s.drop_first(), pat, rep)
    }
}

pub fn replace_chars(s: &Vec<char>, pat: &Vec<char>, rep: &Vec<char>) -> (r: Vec<char>)
    requires
        pat@.len() > 0,
    ensures
        r@ == replace_all(s@, pat@, rep@),
{
    let mut out: Vec<char> = Vec::new();
    let mut i: usize = 0;
    assert(s@.skip(0) == s@);
    while i < s.len()
        invariant
            i <= s@.len(),
            pat@.len() > 0,
            out@ + replace_all(s@.skip(i as int), pat@, rep@) == replace_all(s@, pat@, rep@),
        decreases s@.len() - i,
    {
        let ghost rest = s@.skip(i as int);
        if pat.len() <= s.len() - i && occurs_at_exec(s, pat, i) {
            assert(rest.take(pat@.len() as int) == s@.subrange(i as int, i + pat@.len()));
            assert(rest.skip(pat@.len() as int) == s@.skip(i + pat@.len()));
            let ghost before = out@;
            let mut k: usize = 0;
            while k < rep.len()
                invariant
                    k <= rep@.len(),
                    out@ == before + rep@.take(k as int),
                decreases rep@.len() - k,
            {
                out.push(rep[k]);
                assert(rep@.take(k + 1) == rep@.take(k as int).push(rep@[k as int]));
                k += 1;
            }
            assert(rep@.take(rep@.len() as int) == rep@);
            assert(out@ + replace_all(s@.skip(i + pat@.len()), pat@, rep@) == before + replace_all(rest, pat@, rep@));
            i = i + pat.len();
        } else {
            proof {
                if pat@.len() <= rest.len() {
                    assert(rest.take(pat@.len() as int) == s@.subrange(i as int, i + pat@.len()));
                }
                assert(rest.drop_first() == s@.skip(i + 1));
                assert(rest[0] == s@[i as int]);
            }
            let ghost before = out@;
            out.push(s[i]);
            assert(out@ + replace_all(s@.skip(i + 1), pat@, rep@) == before + replace_all(rest, pat@, rep@));
            i += 1;
        }
    }
    assert(s@.skip(i as int).len() == 0);
    assert(out@ + Seq::<char>::empty() == out@);
    out
}

} // verus!

verus! {

/// Index of the first `sep` in `s`.
pub open spec fn first_sep(s: Seq<char>, sep: char) -> Option<nat>
    decreases s.len(),
{
    if s.len() == 0 {
        None
    } else if s[0] == sep {
        Some(0)
    } else {
        match first_sep(s.drop_first(), sep) {
            Some(k) => Some(k + 1),
            None => None,
        }
    }
}

pub proof fn lemma_first_sep(s: Seq<char>, sep: char, j: int)
    requires
        0 <= j <= s.len(),
        forall|i: int| 0 <= i < j ==> #[trigger] s[i] != sep,
        j == s.len() || s[j] == sep,
    ensures
        first_sep(s, sep) == if j == s.len() { None } else { Some(j as nat) },
    decreases j,
{
    if j > 0 {
        assert forall|i: int| 0 <= i < j - 1 implies #[trigger] s.drop_first()[i] != sep by {
            assert(s.drop_first()[i] == s[i + 1]);
        }
        lemma_first_sep(s.drop_first(), sep, j - 1);
    }
}

pub proof fn lemma_first_sep_bound(s: Seq<char>, sep: char)
    ensures
        first_sep(s, sep) matches Some(k) ==> k < s.len() && s[k as int] == sep,
    decreases s.len(),
{
    if s.len() > 0 && s[0] != sep {
        lemma_first_sep_bound(s.drop_first(), sep);
    }
}

/// `str::split(sep)`: the pieces between separators; there is always at
/// least one, possibly empty.
pub open spec fn split_on(s: Seq<char>, sep: char) -> Seq<Seq<char>>
    decreases s.len(),
{
    match first_sep(s, sep) {
        Some(k) => {
            proof {
                lemma_first_sep_bound(s, sep);
            }
            seq![s.take(k as int)] + split_on(s.skip(k as int + 1), sep)
        },
        None => seq![s],
    }
}

/// `s[from..]` up to the first `sep`, and the position of that `sep`.
pub(crate) fn scan_to(s: &Vec<char>, from: usize, sep: char) -> (r: usize)
    requires
        from <= s@.len(),
    ensures
        from <= r <= s@.len(),
        first_sep(s@.skip(from as int), sep) == if r == s@.len() { None } else { Some(
            (r - from) as nat,
        ) },
{
    let mut j = from;
    while j < s.len() && s[j] != sep
        invariant
            from <= j <= s@.len(),
            forall|i: int| from <= i < j ==> #[trigger] s@[i] != sep,
        decreases s@.len() - j,
    {
        j += 1;
    }
    proof {
        let rest = s@.skip(from as int);
        assert forall|i: int| 0 <= i < j - from implies #[trigger] rest[i] != sep by {
            assert(rest[i] == s@[from + i]);
        }
        lemma_first_sep(rest, sep, j - from);
    }
    j
}

/// The pieces of `s` between occurrences of `sep`.
pub fn split_chars(s: &Vec<char>, sep: char) -> (r: Vec<Vec<char>>)
    ensures
        r@.len() >= 1,
        r@.map_values(|x: Vec<char>| x@) == split_on(s@, sep),
{
    let mut out: Vec<Vec<char>> = Vec::new();
    let mut pos: usize = 0;
    proof {
        assert(s@.skip(0) == s@);
        assert(out@.map_values(|x: Vec<char>| x@) + split_on(s@, sep) =~= split_on(s@, sep));
    }
    loop
        invariant
            pos <= s@.len(),
            out@.map_values(|x: Vec<char>| x@) + split_on(s@.skip(pos as int), sep) == split_on(
                s@,
                sep,
            ),
        decreases s@.len() - pos,
    {
        let j = scan_to(s, pos, sep);
        let ghost rest = s@.skip(pos as int);
        let mut piece: Vec<char> = Vec::new();
        let mut i = pos;
        while i < j
            invariant
                pos <= i <= j <= s@.len(),
                piece@ == s@.subrange(pos as int, i as int),
            decreases j - i,
        {
            piece.push(s[i]);
            assert(s@.subrange(pos as int, i + 1) == s@.subrange(pos as int, i as int).push(
                s@[i as int],
            ));
            i += 1;
        }
        let ghost prev = out@;
        let ghost pv = piece@;
        out.push(piece);
        assert(out@.map_values(|x: Vec<char>| x@) =~= prev.map_values(|x: Vec<char>| x@).push(pv));
        if j == s.len() {
            assert(rest.take((j - pos) as int) =~= pv);
            assert(split_on(rest, sep) == seq![rest]);
            assert(rest =~= pv);
            assert(out@.map_values(|x: Vec<char>| x@) =~= prev.map_values(|x: Vec<char>| x@)
                + split_on(rest, sep));
            return out;
        }
        assert(rest.take((j - pos) as int) =~= pv);
        assert(rest.skip((j - pos) + 1) =~= s@.skip(j + 1));
        assert(split_on(rest, sep) == seq![pv] + split_on(s@.skip(j + 1), sep));
        assert(out@.map_values(|x: Vec<char>| x@) + split_on(s@.skip(j + 1), sep)
            =~= prev.map_values(|x: Vec<char>| x@) + split_on(rest, sep));
        pos = j + 1;
    }
}

/// The items joined with `sep` between them.
pub open spec fn join_with(items: Seq<Seq<char>>, sep: Seq<char>) -> Seq<char>
    decreases items.len(),
{
    if items.len() == 0 {
        seq![]
    } else if items.len() == 1 {
        items[0]
    } else {
        join_with(items.drop_last(), sep) + sep + items.last()
    }
}

/// Index of the first item equal to `x`.
pub open spec fn first_index(items: Seq<Seq<char>>, x: Seq<char>) -> Option<int>
    decreases items.len(),
{
    if items.len() == 0 {
        None
    } else if items[0] == x {
        Some(0)
    } else {
        match first_index(items.drop_first(), x) {
            Some(i) => Some(i + 1),
            None => None,
        }
    }
}

pub proof fn lemma_first_index_at(items: Seq<Seq<char>>, x: Seq<char>, j: int)
    requires
        0 <= j <= items.len(),
        forall|i: int| 0 <= i < j ==> #[trigger] items[i] != x,
        j == items.len() || items[j] == x,
    ensures
        first_index(items, x) == if j == items.len() { None } else { Some(j) },
    decreases j,
{
    if j > 0 {
        assert forall|i: int| 0 <= i < j - 1 implies #[trigger] items.drop_first()[i] != x by {
            assert(items.drop_first()[i] == items[i + 1]);
        }
        lemma_first_index_at(items.drop_first(), x, j - 1);
    }
}

} // verus!

verus! {

pub open spec fn seq_views(v: Seq<Vec<char>>) -> Seq<Seq<char>> {
    v.map_values(|x: Vec<char>| x@)
}

/// The items joined with the character `sep` between them.
pub fn join_chars(items: &Vec<Vec<char>>, sep: char) -> (r: Vec<char>)
    ensures
        r@ == join_with(seq_views(items@), seq![sep]),
{
    let mut out: Vec<char> = Vec::new();
    let mut i: usize = 0;
    while i < items.len()
        invariant
            i <= items@.len(),
            out@ == join_with(seq_views(items@).take(i as int), seq![sep]),
        decreases items@.len() - i,
    {
        let ghost before = out@;
        if i > 0 {
            out.push(sep);
        }
        let item = &items[i];
        let mut k: usize = 0;
        let ghost mid = out@;
        while k < item.len()
            invariant
                k <= item@.len(),
                out@ == mid + item@.take(k as int),
            decreases item@.len() - k,
        {
            out.push(item[k]);
            assert(item@.take(k + 1) == item@.take(k as int).push(item@[k as int]));
            k += 1;
        }
        assert(item@.take(item@.len() as int) == item@);
        proof {
            let t = seq_views(items@).take(i + 1);
            assert(t.drop_last() == seq_views(items@).take(i as int));
            assert(t.last() == item@);
            if i == 0 {
                assert(t.len() == 1);
                assert(out@ =~= item@);
            } else {
                assert(out@ =~= before + seq![sep] + item@);
            }
        }
        i += 1;
    }
    assert(seq_views(items@).take(items@.len() as int) == seq_views(items@));
    out
}

/// `a` comes before `b` in the order of `str`'s `<`: character by character,
/// a proper prefix first.
pub open spec fn text_less(a: Seq<char>, b: Seq<char>) -> bool
    decreases a.len(),
{
    if a.len() == 0 {
        b.len() > 0
    } else if b.len() == 0 {
        false
    } else if a[0] < b[0] {
        true
    } else if a[0] == b[0] {
        text_less(a.drop_first(), b.drop_first())
    } else {
        false
    }
}


pub proof fn lemma_text_less_irreflexive(a: Seq<char>)
    ensures
        !text_less(a, a),
    decreases a.len(),
{
    if a.len() > 0 {
        lemma_text_less_irreflexive(a.drop_first());
    }
}

/// `text_less` is a strict total order.
pub proof fn lemma_text_less_total(a: Seq<char>, b: Seq<char>)
    ensures
        a != b ==> (text_less(a, b) || text_less(b, a)),
        !(text_less(a, b) && text_less(b, a)),
    decreases a.len(),
{
    if a.len() > 0 && b.len() > 0 {
        lemma_text_less_total(a.drop_first(), b.drop_first());
        if a[0] == b[0] && a != b {
            assert(a =~= seq![a[0]] + a.drop_first());
            assert(b =~= seq![b[0]] + b.drop_first());
        }
        if a[0] != b[0] {

        }
    } else if a.len() == 0 && b.len() == 0 {
        assert(a =~= b);
    }
}

pub proof fn lemma_text_less_trans(a: Seq<char>, b: Seq<char>, c: Seq<char>)
    requires
        text_less(a, b),
        text_less(b, c),
    ensures
        text_less(a, c),
    decreases a.len(),
{
    if a.len() > 0 && b.len() > 0 && c.len() > 0 && a[0] == b[0] && b[0] == c[0] {
        lemma_text_less_trans(a.drop_first(), b.drop_first(), c.drop_first());
    }
}

} // verus!
