//! Removing common indentation from pasted text, including terminal prompt
//! blocks: `❯`, `›` and `•` blocks whose visually wrapped lines are joined
//! again, and `>`, `▸` and `▾` blocks whose lines are kept.
use vstd::prelude::*;

verus! {

// ---------------------------------------------------------------------------
// Character classes
// ---------------------------------------------------------------------------

/// Space or tab: the characters that count as indentation.
pub open spec fn is_indent_char(c: char) -> bool {
    c == ' ' || c == '\t'
}

/// Spaces that terminal UIs use around prompts, including non-breaking and
/// other Unicode spaces.
pub open spec fn is_inline_space_spec(c: char) -> bool {
    let u = c as u32;
    u == 0x20 || u == 0x09 || u == 0xA0 || u == 0x1680 || (0x2000 <= u && u <= 0x200A)
        || u == 0x202F || u == 0x205F || u == 0x3000
}

pub open spec fn is_closing_wrapper_spec(c: char) -> bool {
    let u = c as u32;
    u == 0x300D || u == 0x300F || u == 0xFF09 || u == 0x3011 || u == 0x3009 || u == 0x300B
        || c == ')' || c == ']' || c == '}' || c == '"' || c == '\'' || u == 0x201D || u == 0x2019
}

/// Punctuation after which a line break is one the user typed: `。．！？：…`
/// and `.!?:`.
pub open spec fn is_sentence_terminator(c: char) -> bool {
    let u = c as u32;
    u == 0x3002 || u == 0xFF0E || u == 0xFF01 || u == 0xFF1F || u == 0xFF1A || u == 0x2026 || c
        == '.' || c == '!' || c == '?' || c == ':'
}

pub open spec fn is_cjk_spec(c: char) -> bool {
    let u = c as u32;
    (0x2E80 <= u && u <= 0x2FFF) || (0x3000 <= u && u <= 0x303F) || (0x3040 <= u && u <= 0x30FF)
        || (0x31F0 <= u && u <= 0x31FF) || (0x3400 <= u && u <= 0x4DBF) || (0x4E00 <= u && u
        <= 0x9FFF) || (0xAC00 <= u && u <= 0xD7AF) || (0xF900 <= u && u <= 0xFAFF) || (0xFF00
        <= u && u <= 0xFFEF)
}

/// A line is blank when it holds only inline spaces and carriage returns.
pub open spec fn is_blank(b: Seq<char>) -> bool {
    forall|i: int| 0 <= i < b.len() ==> is_inline_space_spec(#[trigger] b[i]) || b[i] == '\r'
}

fn is_indent(c: char) -> (r: bool)
    ensures
        r == is_indent_char(c),
{
    c == ' ' || c == '\t'
}

fn is_inline_space(ch: char) -> (r: bool)
    ensures
        r == is_inline_space_spec(ch),
{
    let u = ch as u32;
    u == 0x20 || u == 0x09 || u == 0xA0 || u == 0x1680 || (0x2000 <= u && u <= 0x200A) || u
        == 0x202F || u == 0x205F || u == 0x3000
}

fn is_closing_wrapper(ch: char) -> (r: bool)
    ensures
        r == is_closing_wrapper_spec(ch),
{
    let u = ch as u32;
    u == 0x300D || u == 0x300F || u == 0xFF09 || u == 0x3011 || u == 0x3009 || u == 0x300B || ch
        == ')' || ch == ']' || ch == '}' || ch == '"' || ch == '\'' || u == 0x201D || u == 0x2019
}

fn is_terminator(ch: char) -> (r: bool)
    ensures
        r == is_sentence_terminator(ch),
{
    let u = ch as u32;
    u == 0x3002 || u == 0xFF0E || u == 0xFF01 || u == 0xFF1F || u == 0xFF1A || u == 0x2026 || ch
        == '.' || ch == '!' || ch == '?' || ch == ':'
}

fn is_cjk(ch: char) -> (r: bool)
    ensures
        r == is_cjk_spec(ch),
{
    let u = ch as u32;
    (0x2E80 <= u && u <= 0x2FFF) || (0x3000 <= u && u <= 0x303F) || (0x3040 <= u && u <= 0x30FF)
        || (0x31F0 <= u && u <= 0x31FF) || (0x3400 <= u && u <= 0x4DBF) || (0x4E00 <= u && u
        <= 0x9FFF) || (0xAC00 <= u && u <= 0xD7AF) || (0xF900 <= u && u <= 0xFAFF) || (0xFF00
        <= u && u <= 0xFFEF)
}

pub open spec fn indent_pred() -> spec_fn(char) -> bool {
    |c: char| is_indent_char(c)
}

pub open spec fn inline_pred() -> spec_fn(char) -> bool {
    |c: char| is_inline_space_spec(c)
}

pub open spec fn closing_pred() -> spec_fn(char) -> bool {
    |c: char| is_closing_wrapper_spec(c)
}

// ---------------------------------------------------------------------------
// Prefix and suffix runs
// ---------------------------------------------------------------------------

/// Length of the longest prefix of `b` whose characters all satisfy `p`.
pub open spec fn prefix_len(b: Seq<char>, p: spec_fn(char) -> bool) -> nat
    decreases b.len(),
{
    if b.len() == 0 || !p(b[0]) {
        0
    } else {
        1 + prefix_len(b.drop_first(), p)
    }
}

/// Length of the longest suffix of `b` whose characters all satisfy `p`.
pub open spec fn suffix_len(b: Seq<char>, p: spec_fn(char) -> bool) -> nat
    decreases b.len(),
{
    if b.len() == 0 || !p(b.last()) {
        0
    } else {
        1 + suffix_len(b.drop_last(), p)
    }
}

pub proof fn lemma_prefix_len(b: Seq<char>, p: spec_fn(char) -> bool, j: int)
    requires
        0 <= j <= b.len(),
        forall|i: int| 0 <= i < j ==> p(#[trigger] b[i]),
        j == b.len() || !p(b[j]),
    ensures
        prefix_len(b, p) == j,
    decreases j,
{
    if j > 0 {
        assert forall|i: int| 0 <= i < j - 1 implies p(#[trigger] b.drop_first()[i]) by {
            assert(b.drop_first()[i] == b[i + 1]);
        }
        lemma_prefix_len(b.drop_first(), p, j - 1);
    }
}

pub proof fn lemma_prefix_len_props(b: Seq<char>, p: spec_fn(char) -> bool)
    ensures
        prefix_len(b, p) <= b.len(),
        forall|i: int| 0 <= i < prefix_len(b, p) ==> p(#[trigger] b[i]),
        prefix_len(b, p) < b.len() ==> !p(b[prefix_len(b, p) as int]),
    decreases b.len(),
{
    if b.len() > 0 && p(b[0]) {
        lemma_prefix_len_props(b.drop_first(), p);
        assert forall|i: int| 0 <= i < prefix_len(b, p) implies p(#[trigger] b[i]) by {
            if i > 0 {
                assert(b[i] == b.drop_first()[i - 1]);
            }
        }
    }
}

pub proof fn lemma_suffix_len(b: Seq<char>, p: spec_fn(char) -> bool, j: int)
    requires
        0 <= j <= b.len(),
        forall|i: int| b.len() - j <= i < b.len() ==> p(#[trigger] b[i]),
        j == b.len() || !p(b[b.len() - 1 - j]),
    ensures
        suffix_len(b, p) == j,
    decreases j,
{
    if j > 0 {
        assert forall|i: int| b.drop_last().len() - (j - 1) <= i < b.drop_last().len() implies p(
            #[trigger] b.drop_last()[i],
        ) by {
            assert(b.drop_last()[i] == b[i]);
        }
        if j - 1 < b.drop_last().len() {
            assert(b.drop_last()[b.drop_last().len() - 1 - (j - 1)] == b[b.len() - 1 - j]);
        }
        lemma_suffix_len(b.drop_last(), p, j - 1);
    }
}

pub proof fn lemma_suffix_len_props(b: Seq<char>, p: spec_fn(char) -> bool)
    ensures
        suffix_len(b, p) <= b.len(),
        forall|i: int| b.len() - suffix_len(b, p) <= i < b.len() ==> p(#[trigger] b[i]),
        suffix_len(b, p) < b.len() ==> !p(b[b.len() - 1 - suffix_len(b, p)]),
    decreases b.len(),
{
    if b.len() > 0 && p(b.last()) {
        lemma_suffix_len_props(b.drop_last(), p);
        assert forall|i: int| b.len() - suffix_len(b, p) <= i < b.len() implies p(
            #[trigger] b[i],
        ) by {
            if i < b.len() - 1 {
                assert(b[i] == b.drop_last()[i]);
            }
        }
    }
}

/// Number of leading spaces and tabs.
fn indent_prefix_len(b: &Vec<char>) -> (r: usize)
    ensures
        r == prefix_len(b@, indent_pred()),
{
    let mut j: usize = 0;
    while j < b.len() && is_indent(b[j])
        invariant
            j <= b@.len(),
            forall|i: int| 0 <= i < j ==> is_indent_char(#[trigger] b@[i]),
        decreases b@.len() - j,
    {
        j += 1;
    }
    proof {
        lemma_prefix_len(b@, indent_pred(), j as int);
    }
    j
}

/// Number of leading inline spaces.
fn inline_prefix_len(b: &Vec<char>) -> (r: usize)
    ensures
        r == prefix_len(b@, inline_pred()),
{
    let mut j: usize = 0;
    while j < b.len() && is_inline_space(b[j])
        invariant
            j <= b@.len(),
            forall|i: int| 0 <= i < j ==> is_inline_space_spec(#[trigger] b@[i]),
        decreases b@.len() - j,
    {
        j += 1;
    }
    proof {
        lemma_prefix_len(b@, inline_pred(), j as int);
    }
    j
}

/// Number of trailing spaces and tabs.
fn indent_suffix_len(b: &Vec<char>) -> (r: usize)
    ensures
        r == suffix_len(b@, indent_pred()),
{
    let mut j: usize = 0;
    while j < b.len() && is_indent(b[b.len() - 1 - j])
        invariant
            j <= b@.len(),
            forall|i: int| b@.len() - j <= i < b@.len() ==> is_indent_char(#[trigger] b@[i]),
        decreases b@.len() - j,
    {
        j += 1;
    }
    proof {
        lemma_suffix_len(b@, indent_pred(), j as int);
    }
    j
}

/// Number of trailing inline spaces.
fn inline_suffix_len(b: &Vec<char>) -> (r: usize)
    ensures
        r == suffix_len(b@, inline_pred()),
{
    let mut j: usize = 0;
    while j < b.len() && is_inline_space(b[b.len() - 1 - j])
        invariant
            j <= b@.len(),
            forall|i: int| b@.len() - j <= i < b@.len() ==> is_inline_space_spec(#[trigger] b@[i]),
        decreases b@.len() - j,
    {
        j += 1;
    }
    proof {
        lemma_suffix_len(b@, inline_pred(), j as int);
    }
    j
}

/// Number of trailing closing brackets and quotes.
fn closing_suffix_len(b: &Vec<char>) -> (r: usize)
    ensures
        r == suffix_len(b@, closing_pred()),
{
    let mut j: usize = 0;
    while j < b.len() && is_closing_wrapper(b[b.len() - 1 - j])
        invariant
            j <= b@.len(),
            forall|i: int|
                b@.len() - j <= i < b@.len() ==> is_closing_wrapper_spec(#[trigger] b@[i]),
        decreases b@.len() - j,
    {
        j += 1;
    }
    proof {
        lemma_suffix_len(b@, closing_pred(), j as int);
    }
    j
}

fn is_blank_line(b: &Vec<char>) -> (r: bool)
    ensures
        r == is_blank(b@),
{
    let mut i: usize = 0;
    while i < b.len()
        invariant
            i <= b@.len(),
            forall|k: int| 0 <= k < i ==> is_inline_space_spec(#[trigger] b@[k]) || b@[k] == '\r',
        decreases b@.len() - i,
    {
        if !is_inline_space(b[i]) && b[i] != '\r' {
            return false;
        }
        i += 1;
    }
    true
}

/// The characters `v[from..to]` as a new vector.
pub(crate) fn slice_chars(v: &Vec<char>, from: usize, to: usize) -> (r: Vec<char>)
    requires
        from <= to <= v@.len(),
    ensures
        r@ == v@.subrange(from as int, to as int),
{
    let mut out: Vec<char> = Vec::new();
    let mut i = from;
    while i < to
        invariant
            from <= i <= to <= v@.len(),
            out@ == v@.subrange(from as int, i as int),
        decreases to - i,
    {
        out.push(v[i]);
        assert(v@.subrange(from as int, i + 1) == v@.subrange(from as int, i as int).push(v@[i as int]));
        i += 1;
    }
    out
}

/// Appends `src` to `dst`.
pub(crate) fn append_chars(dst: &mut Vec<char>, src: &Vec<char>)
    ensures
        final(dst)@ == old(dst)@ + src@,
{
    let mut i: usize = 0;
    while i < src.len()
        invariant
            i <= src@.len(),
            dst@ == old(dst)@ + src@.take(i as int),
        decreases src@.len() - i,
    {
        dst.push(src[i]);
        assert(src@.take(i + 1) == src@.take(i as int).push(src@[i as int]));
        i += 1;
    }
    assert(src@.take(src@.len() as int) == src@);
}

// ---------------------------------------------------------------------------
// Lines
// ---------------------------------------------------------------------------

/// Length of the first line of `s`, its `'\n'` included when there is one.
pub open spec fn newline_end(s: Seq<char>) -> nat
    decreases s.len(),
{
    if s.len() == 0 {
        0
    } else if s[0] == '\n' {
        1
    } else {
        1 + newline_end(s.drop_first())
    }
}

pub proof fn lemma_newline_end(s: Seq<char>, j: int)
    requires
        0 <= j <= s.len(),
        forall|i: int| 0 <= i < j ==> #[trigger] s[i] != '\n',
        j == s.len() || s[j] == '\n',
    ensures
        newline_end(s) == if j == s.len() { j } else { j + 1 },
    decreases j,
{
    if j > 0 {
        assert forall|i: int| 0 <= i < j - 1 implies #[trigger] s.drop_first()[i] != '\n' by {
            assert(s.drop_first()[i] == s[i + 1]);
        }
        lemma_newline_end(s.drop_first(), j - 1);
    }
}

pub proof fn lemma_newline_end_bounds(s: Seq<char>)
    ensures
        newline_end(s) <= s.len(),
        s.len() > 0 ==> newline_end(s) >= 1,
    decreases s.len(),
{
    if s.len() > 0 && s[0] != '\n' {
        lemma_newline_end_bounds(s.drop_first());
    }
}

/// The lines of `s` as `str::split_inclusive('\n')` yields them: each line
/// keeps its terminating `'\n'`, and no empty line follows a final `'\n'`.
pub open spec fn pieces(s: Seq<char>) -> Seq<Seq<char>>
    decreases s.len(),
{
    if s.len() == 0 {
        seq![]
    } else {
        proof {
            lemma_newline_end_bounds(s);
        }
        seq![s.take(newline_end(s) as int)] + pieces(s.skip(newline_end(s) as int))
    }
}

/// The line without its line ending (`"\r\n"` or `"\n"`).
pub open spec fn body_of(p: Seq<char>) -> Seq<char> {
    if p.len() >= 2 && p[p.len() - 1] == '\n' && p[p.len() - 2] == '\r' {
        p.take(p.len() - 2)
    } else if p.len() >= 1 && p[p.len() - 1] == '\n' {
        p.take(p.len() - 1)
    } else {
        p
    }
}

/// The line ending of the line: `"\r\n"`, `"\n"` or nothing.
pub open spec fn newline_of(p: Seq<char>) -> Seq<char> {
    p.skip(body_of(p).len() as int)
}

pub open spec fn views(v: Seq<Vec<char>>) -> Seq<Seq<char>> {
    v.map_values(|x: Vec<char>| x@)
}

/// Splits `s` into lines, each with its line ending.
pub(crate) fn split_lines(s: &Vec<char>) -> (r: Vec<Vec<char>>)
    ensures
        views(r@) == pieces(s@),
{
    let mut out: Vec<Vec<char>> = Vec::new();
    let mut pos: usize = 0;
    proof {
        assert(s@.skip(0) == s@);
        assert(views(out@) == Seq::<Seq<char>>::empty());
        assert(Seq::<Seq<char>>::empty() + pieces(s@) == pieces(s@));
    }
    while pos < s.len()
        invariant
            pos <= s@.len(),
            views(out@) + pieces(s@.skip(pos as int)) == pieces(s@),
        decreases s@.len() - pos,
    {
        let mut j = pos;
        while j < s.len() && s[j] != '\n'
            invariant
                pos <= j <= s@.len(),
                forall|i: int| pos <= i < j ==> #[trigger] s@[i] != '\n',
            decreases s@.len() - j,
        {
            j += 1;
        }
        let end = if j < s.len() { j + 1 } else { j };
        let ghost rest = s@.skip(pos as int);
        proof {
            assert forall|i: int| 0 <= i < j - pos implies #[trigger] rest[i] != '\n' by {
                assert(rest[i] == s@[pos + i]);
            }
            lemma_newline_end(rest, j - pos);
            assert(rest.take((end - pos) as int) == s@.subrange(pos as int, end as int));
            assert(rest.skip((end - pos) as int) == s@.skip(end as int));
        }
        let line = slice_chars(s, pos, end);
        let ghost prev = out@;
        let ghost lv = line@;
        out.push(line);
        proof {
            assert(views(out@) == views(prev).push(lv));
            assert(pieces(rest) == seq![lv] + pieces(s@.skip(end as int)));
            assert(views(out@) + pieces(s@.skip(end as int)) == views(prev) + pieces(rest));
        }
        pos = end;
    }
    proof {
        assert(s@.skip(pos as int).len() == 0);
        assert(views(out@) + seq![] == views(out@));
    }
    out
}

pub(crate) fn body_len(p: &Vec<char>) -> (r: usize)
    ensures
        r <= p@.len(),
        body_of(p@) == p@.take(r as int),
        newline_of(p@) == p@.skip(r as int),
{
    let n = p.len();
    if n >= 2 && p[n - 1] == '\n' && p[n - 2] == '\r' {
        n - 2
    } else if n >= 1 && p[n - 1] == '\n' {
        n - 1
    } else {
        assert(p@.take(n as int) == p@);
        n
    }
}

// ---------------------------------------------------------------------------
// Common indentation
// ---------------------------------------------------------------------------

/// Leading spaces and tabs of a line body.
pub open spec fn indent_width(b: Seq<char>) -> nat {
    prefix_len(b, indent_pred())
}

/// The smallest indentation among the non-blank lines, if there is one.
pub open spec fn min_indent(ps: Seq<Seq<char>>) -> Option<nat>
    decreases ps.len(),
{
    if ps.len() == 0 {
        None
    } else {
        let acc = min_indent(ps.drop_last());
        let b = body_of(ps.last());
        if is_blank(b) {
            acc
        } else {
            let c = indent_width(b);
            match acc {
                None => Some(c),
                Some(m) => Some(if c < m { c } else { m }),
            }
        }
    }
}

/// Removes up to `w` leading spaces or tabs from a line body.
pub open spec fn remove_indent(b: Seq<char>, w: nat) -> Seq<char> {
    let k = indent_width(b);
    b.skip(if w < k { w as int } else { k as int })
}

/// Drops trailing spaces and tabs.
pub open spec fn trim_end_indent(b: Seq<char>) -> Seq<char> {
    b.take(b.len() - suffix_len(b, indent_pred()))
}

/// One line with `w` columns of indentation and its trailing spaces and tabs
/// removed; the line ending is kept.
pub open spec fn dedent_line_spec(p: Seq<char>, w: nat) -> Seq<char> {
    trim_end_indent(remove_indent(body_of(p), w)) + newline_of(p)
}

pub open spec fn dedent_lines(ps: Seq<Seq<char>>, w: nat) -> Seq<char>
    decreases ps.len(),
{
    if ps.len() == 0 {
        seq![]
    } else {
        dedent_lines(ps.drop_last(), w) + dedent_line_spec(ps.last(), w)
    }
}

fn min_indent_of(lines: &Vec<Vec<char>>) -> (r: usize)
    ensures
        r == match min_indent(views(lines@)) {
            Some(m) => m,
            None => 0,
        },
{
    let mut acc: Option<usize> = None;
    let mut i: usize = 0;
    while i < lines.len()
        invariant
            i <= lines@.len(),
            match (acc, min_indent(views(lines@).take(i as int))) {
                (None, None) => true,
                (Some(a), Some(m)) => a == m,
                _ => false,
            },
        decreases lines@.len() - i,
    {
        let line = &lines[i];
        let bl = body_len(line);
        let body = slice_chars(line, 0, bl);
        proof {
            let t = views(lines@).take(i + 1);
            assert(t.drop_last() == views(lines@).take(i as int));
            assert(t.last() == line@);
            assert(body@ == line@.take(bl as int));
        }
        if !is_blank_line(&body) {
            let c = indent_prefix_len(&body);
            acc = match acc {
                None => Some(c),
                Some(m) => Some(if c < m { c } else { m }),
            };
        }
        i += 1;
    }
    assert(views(lines@).take(lines@.len() as int) == views(lines@));
    match acc {
        Some(a) => a,
        None => 0,
    }
}

fn dedent_line(p: &Vec<char>, w: usize, out: &mut Vec<char>)
    ensures
        final(out)@ == old(out)@ + dedent_line_spec(p@, w as nat),
{
    let bl = body_len(p);
    let body = slice_chars(p, 0, bl);
    assert(body@ == body_of(p@));
    let k = indent_prefix_len(&body);
    let start = if w < k { w } else { k };
    proof {
        lemma_prefix_len_props(body@, indent_pred());
    }
    let rest = slice_chars(&body, start, bl);
    assert(rest@ == remove_indent(body_of(p@), w as nat));
    let t = indent_suffix_len(&rest);
    proof {
        lemma_suffix_len_props(rest@, indent_pred());
    }
    let kept = slice_chars(&rest, 0, rest.len() - t);
    append_chars(out, &kept);
    let nl = slice_chars(p, bl, p.len());
    append_chars(out, &nl);
    assert(nl@ == newline_of(p@));
}

fn dedent_all(lines: &Vec<Vec<char>>, w: usize) -> (r: Vec<char>)
    ensures
        r@ == dedent_lines(views(lines@), w as nat),
{
    let mut out: Vec<char> = Vec::new();
    let mut i: usize = 0;
    while i < lines.len()
        invariant
            i <= lines@.len(),
            out@ == dedent_lines(views(lines@).take(i as int), w as nat),
        decreases lines@.len() - i,
    {
        dedent_line(&lines[i], w, &mut out);
        proof {
            let t = views(lines@).take(i + 1);
            assert(t.drop_last() == views(lines@).take(i as int));
            assert(t.last() == lines@[i as int]@);
        }
        i += 1;
    }
    assert(views(lines@).take(lines@.len() as int) == views(lines@));
    out
}

pub open spec fn indent_of(ps: Seq<Seq<char>>) -> nat {
    match min_indent(ps) {
        Some(m) => m,
        None => 0,
    }
}

// ---------------------------------------------------------------------------
// Terminal prompt blocks
// ---------------------------------------------------------------------------

/// How a prompt block is rewritten once its markers are stripped.
#[derive(Clone, Copy, Debug, PartialEq, Eq, Structural)]
pub enum PromptMode {
    /// `❯`, `›` and `•` prompts: visually wrapped lines are joined again.
    Unwrap,
    /// `>`, `▸` and `▾` prefixes: line breaks are kept.
    PreserveLines,
}

pub open spec fn prompt_mode_of(c: char) -> Option<PromptMode> {
    let u = c as u32;
    if u == 0x276F || u == 0x203A || u == 0x2022 {
        Some(PromptMode::Unwrap)
    } else if c == '>' || u == 0x25B8 || u == 0x25BE {
        Some(PromptMode::PreserveLines)
    } else {
        None
    }
}

/// The first line of a prompt block: inline spaces, a prompt symbol, one inline
/// space. Gives the length of the leading indentation and the mode.
pub open spec fn prompt_head(fb: Seq<char>) -> Option<(nat, PromptMode)> {
    let k = prefix_len(fb, inline_pred());
    if k + 1 < fb.len() && prompt_mode_of(fb[k as int]) is Some && is_inline_space_spec(
        fb[k as int + 1],
    ) {
        Some((k, prompt_mode_of(fb[k as int])->0))
    } else {
        None
    }
}

/// Inline spaces removed from both ends.
pub open spec fn trim_inline(b: Seq<char>) -> Seq<char> {
    let l = prefix_len(b, inline_pred());
    if l == b.len() {
        seq![]
    } else {
        b.subrange(l as int, b.len() - suffix_len(b, inline_pred()))
    }
}

/// A continuation line of a prompt block: blank, or the first line's
/// indentation followed by exactly two inline spaces, which are removed.
pub open spec fn continuation(p: Seq<char>, indent: Seq<char>) -> Option<Seq<char>> {
    let b = body_of(p);
    let n = indent.len();
    if is_blank(b) {
        Some(trim_inline(b) + newline_of(p))
    } else if n + 2 <= b.len() && b.take(n as int) == indent && is_inline_space_spec(b[n as int])
        && is_inline_space_spec(b[n as int + 1]) {
        Some(b.skip(n as int + 2) + newline_of(p))
    } else {
        None
    }
}

pub open spec fn strip_continuations(ps: Seq<Seq<char>>, indent: Seq<char>) -> Option<Seq<char>>
    decreases ps.len(),
{
    if ps.len() == 0 {
        Some(seq![])
    } else {
        match strip_continuations(ps.drop_last(), indent) {
            None => None,
            Some(acc) => match continuation(ps.last(), indent) {
                None => None,
                Some(x) => Some(acc + x),
            },
        }
    }
}

/// The text with prompt markers and continuation prefixes removed, when the
/// whole text is one well-formed prompt block.
pub open spec fn strip_prompt(s: Seq<char>) -> Option<(Seq<char>, PromptMode)> {
    strip_prompt_lines(pieces(s))
}

pub open spec fn strip_prompt_lines(ps: Seq<Seq<char>>) -> Option<(Seq<char>, PromptMode)> {
    if ps.len() == 0 {
        None
    } else {
        let fb = body_of(ps[0]);
        match prompt_head(fb) {
            None => None,
            Some((k, mode)) => match strip_continuations(ps.drop_first(), fb.take(k as int)) {
                None => None,
                Some(c) => Some((fb.skip(k as int + 2) + newline_of(ps[0]) + c, mode)),
            },
        }
    }
}

fn prompt_mode(c: char) -> (r: Option<PromptMode>)
    ensures
        r == prompt_mode_of(c),
{
    let u = c as u32;
    if u == 0x276F || u == 0x203A || u == 0x2022 {
        Some(PromptMode::Unwrap)
    } else if c == '>' || u == 0x25B8 || u == 0x25BE {
        Some(PromptMode::PreserveLines)
    } else {
        None
    }
}

fn starts_with_chars(b: &Vec<char>, prefix: &Vec<char>) -> (r: bool)
    ensures
        r == (prefix@.len() <= b@.len() && b@.take(prefix@.len() as int) == prefix@),
{
    if prefix.len() > b.len() {
        return false;
    }
    let mut i: usize = 0;
    while i < prefix.len()
        invariant
            i <= prefix@.len() <= b@.len(),
            forall|k: int| 0 <= k < i ==> b@[k] == prefix@[k],
        decreases prefix@.len() - i,
    {
        if b[i] != prefix[i] {
            assert(b@.take(prefix@.len() as int)[i as int] != prefix@[i as int]);
            return false;
        }
        i += 1;
    }
    assert(b@.take(prefix@.len() as int) == prefix@);
    true
}

fn trim_inline_chars(b: &Vec<char>) -> (r: Vec<char>)
    ensures
        r@ == trim_inline(b@),
{
    let l = inline_prefix_len(b);
    if l == b.len() {
        Vec::new()
    } else {
        let t = inline_suffix_len(b);
        proof {
            lemma_prefix_len_props(b@, inline_pred());
            lemma_suffix_len_props(b@, inline_pred());
            if t + l > b@.len() {
                assert(is_inline_space_spec(b@[l as int]));
            }
        }
        slice_chars(b, l, b.len() - t)
    }
}

fn continuation_line(p: &Vec<char>, indent: &Vec<char>, out: &mut Vec<char>) -> (ok: bool)
    ensures
        match continuation(p@, indent@) {
            None => !ok,
            Some(x) => ok && final(out)@ == old(out)@ + x,
        },
{
    let bl = body_len(p);
    let body = slice_chars(p, 0, bl);
    let nl = slice_chars(p, bl, p.len());
    assert(body@ == body_of(p@));
    assert(nl@ == newline_of(p@));
    if is_blank_line(&body) {
        let t = trim_inline_chars(&body);
        append_chars(out, &t);
        append_chars(out, &nl);
        return true;
    }
    let n = indent.len();
    if n <= bl && bl - n >= 2 && starts_with_chars(&body, indent) && is_inline_space(body[n])
        && is_inline_space(body[n + 1]) {
        let rest = slice_chars(&body, n + 2, bl);
        append_chars(out, &rest);
        append_chars(out, &nl);
        true
    } else {
        false
    }
}

/// Recognises a prompt block and strips its markers.
fn strip_prompt_prefix(lines: &Vec<Vec<char>>) -> (r: Option<(Vec<char>, PromptMode)>)
    ensures
        match (r, strip_prompt_lines(views(lines@))) {
            (None, None) => true,
            (Some((t, m)), Some((u, n))) => t@ == u && m == n,
            _ => false,
        },
{
    if lines.len() == 0 {
        return None;
    }
    let first = &lines[0];
    let bl = body_len(first);
    let fb = slice_chars(first, 0, bl);
    let k = inline_prefix_len(&fb);
    if !(k < bl && bl - k >= 2) {
        return None;
    }
    let mode = match prompt_mode(fb[k]) {
        Some(m) => m,
        None => return None,
    };
    if !is_inline_space(fb[k + 1]) {
        return None;
    }
    let indent = slice_chars(&fb, 0, k);
    let mut out = slice_chars(&fb, k + 2, bl);
    let nl = slice_chars(first, bl, first.len());
    append_chars(&mut out, &nl);
    let ghost head = out@;
    let ghost ps = views(lines@);
    assert(ps[0] == first@);
    assert(fb@ == body_of(ps[0]));
    assert(prompt_head(body_of(ps[0])) == Some((k as nat, mode)));
    let mut i: usize = 1;
    proof {
        assert(ps.drop_first().take(0) == Seq::<Seq<char>>::empty());
        assert(head + Seq::<char>::empty() == head);
    }
    while i < lines.len()
        invariant
            1 <= i <= lines@.len(),
            ps == views(lines@),
            ps.len() > 0,
            prompt_head(body_of(ps[0])) == Some((k as nat, mode)),
            indent@ == body_of(ps[0]).take(k as int),
            head == body_of(ps[0]).skip(k as int + 2) + newline_of(ps[0]),
            strip_continuations(ps.drop_first().take(i - 1), indent@) matches Some(c) && out@
                == head + c,
        decreases lines@.len() - i,
    {
        let ghost before = out@;
        let ok = continuation_line(&lines[i], &indent, &mut out);
        proof {
            let t = ps.drop_first().take(i as int);
            assert(t.drop_last() == ps.drop_first().take(i - 1));
            assert(t.last() == lines@[i as int]@);
        }
        if !ok {
            proof {
                lemma_strip_continuations_fails(ps.drop_first(), indent@, i as int);
            }
            return None;
        }
        i += 1;
    }
    assert(ps.drop_first().take(lines@.len() - 1) == ps.drop_first());
    Some((out, mode))
}

proof fn lemma_strip_continuations_fails(ps: Seq<Seq<char>>, indent: Seq<char>, n: int)
    requires
        1 <= n <= ps.len(),
        strip_continuations(ps.take(n), indent) is None,
    ensures
        strip_continuations(ps, indent) is None,
    decreases ps.len() - n,
{
    if n < ps.len() {
        assert(ps.take(n + 1).drop_last() == ps.take(n));
        lemma_strip_continuations_fails(ps, indent, n + 1);
    } else {
        assert(ps.take(n) == ps);
    }
}

// ---------------------------------------------------------------------------
// Re-joining visually wrapped prompt lines
// ---------------------------------------------------------------------------

/// The last character that is not a closing bracket or quote ends a sentence.
pub open spec fn ends_with_terminator(b: Seq<char>) -> bool {
    let k = suffix_len(b, closing_pred());
    k < b.len() && is_sentence_terminator(b[b.len() - 1 - k])
}

pub open spec fn is_digit_char(c: char) -> bool {
    '0' <= c && c <= '9'
}

pub open spec fn digit_pred() -> spec_fn(char) -> bool {
    |c: char| is_digit_char(c)
}

/// After any inline spaces the line starts with a list marker: `- `, `* `,
/// or digits followed by `. ` or `) `.
pub open spec fn starts_with_list_marker(b: Seq<char>) -> bool {
    let r = b.skip(prefix_len(b, inline_pred()) as int);
    let d = prefix_len(r, digit_pred());
    ||| r.len() >= 2 && (r[0] == '-' || r[0] == '*') && is_inline_space_spec(r[1])
    ||| d >= 1 && r.len() >= d + 2 && (r[d as int] == '.' || r[d as int] == ')')
        && is_inline_space_spec(r[d as int + 1])
}

/// Number of backticks in a line.
pub open spec fn backtick_count(b: Seq<char>) -> nat
    decreases b.len(),
{
    if b.len() == 0 {
        0
    } else {
        backtick_count(b.drop_last()) + if b.last() == '`' {
            1nat
        } else {
            0nat
        }
    }
}

/// Line `i` is a visual wrap that continues on line `i + 1`: neither line is
/// blank, and either the line holds an odd number of backticks (the break
/// falls inside an unclosed inline code span), or it does not end a sentence
/// and the next one does not start a list item.
pub open spec fn joins_next(ps: Seq<Seq<char>>, i: int) -> bool {
    if 0 <= i && i + 1 < ps.len() {
        &&& newline_of(ps[i]).len() > 0
        &&& !is_blank(body_of(ps[i]))
        &&& !is_blank(body_of(ps[i + 1]))
        &&& (backtick_count(body_of(ps[i])) % 2 == 1 || (!ends_with_terminator(body_of(ps[i]))
            && !starts_with_list_marker(body_of(ps[i + 1]))))
    } else {
        false
    }
}

/// What replaces a joined line break: nothing between two CJK characters,
/// one space otherwise.
pub open spec fn join_sep(left: Seq<char>, right: Seq<char>) -> Seq<char> {
    let k = prefix_len(right, inline_pred());
    if left.len() > 0 && k < right.len() && is_cjk_spec(left.last()) && is_cjk_spec(right[k as int]) {
        seq![]
    } else {
        seq![' ']
    }
}

/// Line `i` of an unwrapped prompt block: its leading inline spaces go when it
/// continues the previous line, and its line break becomes a separator when
/// the next line continues it.
pub open spec fn unwrapped_line(ps: Seq<Seq<char>>, i: int) -> Seq<char> {
    let b = body_of(ps[i]);
    let start = if joins_next(ps, i - 1) {
        b.skip(prefix_len(b, inline_pred()) as int)
    } else {
        b
    };
    start + if joins_next(ps, i) {
        join_sep(b, body_of(ps[i + 1]))
    } else {
        newline_of(ps[i])
    }
}

pub open spec fn unwrap_upto(ps: Seq<Seq<char>>, n: int) -> Seq<char>
    decreases n,
{
    if n <= 0 {
        seq![]
    } else {
        unwrap_upto(ps, n - 1) + unwrapped_line(ps, n - 1)
    }
}

pub open spec fn unwrap_lines(ps: Seq<Seq<char>>) -> Seq<char> {
    unwrap_upto(ps, ps.len() as int)
}

fn ends_with_sentence_terminator(b: &Vec<char>) -> (r: bool)
    ensures
        r == ends_with_terminator(b@),
{
    let k = closing_suffix_len(b);
    proof {
        lemma_suffix_len_props(b@, closing_pred());
    }
    k < b.len() && is_terminator(b[b.len() - 1 - k])
}

fn join_separator(left: &Vec<char>, right: &Vec<char>, out: &mut Vec<char>)
    ensures
        final(out)@ == old(out)@ + join_sep(left@, right@),
{
    let k = inline_prefix_len(right);
    proof {
        lemma_prefix_len_props(right@, inline_pred());
    }
    if left.len() > 0 && k < right.len() && is_cjk(left[left.len() - 1]) && is_cjk(right[k]) {
        assert(join_sep(left@, right@) == Seq::<char>::empty());
        assert(out@ + Seq::<char>::empty() == out@);
    } else {
        out.push(' ');
        assert(join_sep(left@, right@) == seq![' ']);
    }
}

/// Whether a line holds an odd number of backticks.
fn odd_backticks(b: &Vec<char>) -> (r: bool)
    ensures
        r == (backtick_count(b@) % 2 == 1),
{
    let mut odd = false;
    let mut i: usize = 0;
    while i < b.len()
        invariant
            i <= b@.len(),
            odd == (backtick_count(b@.take(i as int)) % 2 == 1),
        decreases b@.len() - i,
    {
        assert(b@.take(i + 1).drop_last() =~= b@.take(i as int));
        if b[i] == '`' {
            odd = !odd;
        }
        i += 1;
    }
    assert(b@.take(b@.len() as int) =~= b@);
    odd
}

fn is_digit(c: char) -> (r: bool)
    ensures
        r == is_digit_char(c),
{
    '0' <= c && c <= '9'
}

fn list_marker_start(b: &Vec<char>) -> (r: bool)
    ensures
        r == starts_with_list_marker(b@),
{
    let k = inline_prefix_len(b);
    proof {
        lemma_prefix_len_props(b@, inline_pred());
    }
    let rest = slice_chars(b, k, b.len());
    assert(rest@ =~= b@.skip(k as int));
    if rest.len() >= 2 && (rest[0] == '-' || rest[0] == '*') && is_inline_space(rest[1]) {
        return true;
    }
    let mut d: usize = 0;
    while d < rest.len() && is_digit(rest[d])
        invariant
            d <= rest@.len(),
            forall|j: int| 0 <= j < d ==> is_digit_char(#[trigger] rest@[j]),
        decreases rest@.len() - d,
    {
        d += 1;
    }
    proof {
        lemma_prefix_len(rest@, digit_pred(), d as int);
    }
    d >= 1 && d < rest.len() && rest.len() - d >= 2 && (rest[d] == '.' || rest[d] == ')') && is_inline_space(
        rest[d + 1],
    )
}

fn joins_next_line(lines: &Vec<Vec<char>>, i: usize) -> (r: bool)
    requires
        i < lines@.len(),
    ensures
        r == joins_next(views(lines@), i as int),
{
    let ghost ps = views(lines@);
    if i >= lines.len() - 1 {
        return false;
    }
    let line = &lines[i];
    assert(ps[i as int] == line@);
    assert(ps[i + 1] == lines@[i + 1]@);
    let bl = body_len(line);
    if bl == line.len() {
        return false;
    }
    let body = slice_chars(line, 0, bl);
    if is_blank_line(&body) {
        return false;
    }
    let next = &lines[i + 1];
    let nbl = body_len(next);
    let nbody = slice_chars(next, 0, nbl);
    if is_blank_line(&nbody) {
        return false;
    }
    odd_backticks(&body) || (!ends_with_sentence_terminator(&body) && !list_marker_start(&nbody))
}

fn unwrap_prompt_lines(lines: &Vec<Vec<char>>) -> (r: Vec<char>)
    ensures
        r@ == unwrap_lines(views(lines@)),
{
    let ghost ps = views(lines@);
    let mut out: Vec<char> = Vec::new();
    let mut previous_joined = false;
    let mut i: usize = 0;
    while i < lines.len()
        invariant
            i <= lines@.len(),
            ps == views(lines@),
            previous_joined == joins_next(ps, i - 1),
            out@ == unwrap_upto(ps, i as int),
        decreases lines@.len() - i,
    {
        let line = &lines[i];
        assert(ps[i as int] == line@);
        let bl = body_len(line);
        let body = slice_chars(line, 0, bl);
        if previous_joined {
            let l = inline_prefix_len(&body);
            proof {
                lemma_prefix_len_props(body@, inline_pred());
            }
            let trimmed = slice_chars(&body, l, bl);
            append_chars(&mut out, &trimmed);
        } else {
            append_chars(&mut out, &body);
        }
        let join = joins_next_line(lines, i);
        if join {
            let next = &lines[i + 1];
            assert(ps[i + 1] == next@);
            let nbl = body_len(next);
            let nbody = slice_chars(next, 0, nbl);
            join_separator(&body, &nbody, &mut out);
        } else {
            let nl = slice_chars(line, bl, line.len());
            append_chars(&mut out, &nl);
        }
        proof {
            assert(out@ == unwrap_upto(ps, i as int) + unwrapped_line(ps, i as int));
        }
        previous_joined = join;
        i += 1;
    }
    out
}

// ---------------------------------------------------------------------------
// The whole transformation
// ---------------------------------------------------------------------------

/// What `dedent_text` makes of `s`.
///
/// A text that is one terminal prompt block loses its prompt markers and
/// continuation prefixes first. Then the smallest indentation of the non-blank
/// lines is removed from every line, and trailing spaces and tabs are dropped.
/// Blocks of `❯`, `›` and `•` prompts finally have their wrapped lines joined.
pub open spec fn dedent_spec(s: Seq<char>) -> Seq<char> {
    match strip_prompt(s) {
        Some((t, mode)) => {
            let ps = pieces(t);
            let d = dedent_lines(ps, indent_of(ps));
            if mode == PromptMode::Unwrap {
                unwrap_lines(pieces(d))
            } else {
                d
            }
        },
        None => {
            let ps = pieces(s);
            dedent_lines(ps, indent_of(ps))
        },
    }
}

fn dedent_chars(s: &Vec<char>) -> (r: Vec<char>)
    ensures
        r@ == dedent_spec(s@),
{
    let lines = split_lines(s);
    match strip_prompt_prefix(&lines) {
        Some((t, mode)) => {
            let tl = split_lines(&t);
            let w = min_indent_of(&tl);
            let d = dedent_all(&tl, w);
            match mode {
                PromptMode::Unwrap => {
                    let dl = split_lines(&d);
                    unwrap_prompt_lines(&dl)
                },
                PromptMode::PreserveLines => d,
            }
        },
        None => {
            let w = min_indent_of(&lines);
            dedent_all(&lines, w)
        },
    }
}

/// Removes the common indentation of `input` (see `dedent_spec`).
pub fn dedent_text(input: &str) -> (r: String)
    ensures
        r@ == dedent_spec(input@),
{
    let cs = crate::text::chars_of(input);
    let out = dedent_chars(&cs);
    crate::text::string_of(out.as_slice())
}

} // verus!

verus! {

#[derive(Debug, Clone, Copy, PartialEq, Eq)]
pub enum DedentError {
    InvalidUtf8,
}

impl DedentError {
    /// The text shown to the user for this error.
    pub fn message(&self) -> (r: String)
        ensures
            r@ == "clipboard text is not valid UTF-8"@,
    {
        let cs = crate::text::chars_of("clipboard text is not valid UTF-8");
        crate::text::string_of(cs.as_slice())
    }
}

/// `String::from_utf8`: succeeds exactly on valid UTF-8, with the decoded
/// characters.
#[verifier::external_body]
fn utf8_string(bytes: Vec<u8>) -> (r: Option<String>)
    ensures
        match r {
            Some(s) => vstd::utf8::valid_utf8(bytes@) && s@ == vstd::utf8::decode_utf8(bytes@),
            None => !vstd::utf8::valid_utf8(bytes@),
        },
{
    String::from_utf8(bytes).ok()
}

/// The clipboard's bytes as text; an error when they are not UTF-8.
pub fn text_from_bytes(bytes: Vec<u8>) -> (r: Result<String, DedentError>)
    ensures
        match r {
            Ok(s) => vstd::utf8::valid_utf8(bytes@) && s@ == vstd::utf8::decode_utf8(bytes@),
            Err(e) => !vstd::utf8::valid_utf8(bytes@) && e == DedentError::InvalidUtf8,
        },
{
    match utf8_string(bytes) {
        Some(s) => Ok(s),
        None => Err(DedentError::InvalidUtf8),
    }
}

} // verus!

verus! {

// ---------------------------------------------------------------------------
// Laws of dedenting
// ---------------------------------------------------------------------------

/// Number of line feeds in a text.
pub open spec fn count_lf(s: Seq<char>) -> nat
    decreases s.len(),
{
    if s.len() == 0 {
        0
    } else {
        count_lf(s.drop_last()) + if s.last() == '\n' {
            1nat
        } else {
            0nat
        }
    }
}

/// No space or tab stands at the end of the text or right before a line
/// ending.
pub open spec fn no_trailing_blanks(t: Seq<char>) -> bool {
    forall|j: int|
        0 <= j < t.len() && #[trigger] is_indent_char(t[j]) ==> j + 1 < t.len() && t[j + 1]
            != '\n' && t[j + 1] != '\r'
}

/// Every carriage return is part of a `"\r\n"` line ending.
pub open spec fn crs_end_lines(s: Seq<char>) -> bool {
    forall|j: int| 0 <= j < s.len() && #[trigger] s[j] == '\r' ==> j + 1 < s.len() && s[j + 1] == '\n'
}

proof fn lemma_count_lf_concat(a: Seq<char>, b: Seq<char>)
    ensures
        count_lf(a + b) == count_lf(a) + count_lf(b),
    decreases b.len(),
{
    if b.len() == 0 {
        assert(a + b =~= a);
    } else {
        lemma_count_lf_concat(a, b.drop_last());
        assert((a + b).drop_last() =~= a + b.drop_last());
    }
}

proof fn lemma_count_lf_none(a: Seq<char>)
    requires
        forall|k: int| 0 <= k < a.len() ==> a[k] != '\n',
    ensures
        count_lf(a) == 0,
    decreases a.len(),
{
    if a.len() > 0 {
        lemma_count_lf_none(a.drop_last());
    }
}

proof fn lemma_dedent_lines_front(x: Seq<char>, rest: Seq<Seq<char>>, w: nat)
    ensures
        dedent_lines(seq![x] + rest, w) == dedent_line_spec(x, w) + dedent_lines(rest, w),
    decreases rest.len(),
{
    let all = seq![x] + rest;
    if rest.len() == 0 {
        assert(all =~= seq![x]);
        assert(all.drop_last() =~= Seq::<Seq<char>>::empty());
        assert(dedent_lines(all, w) == dedent_lines(all.drop_last(), w) + dedent_line_spec(
            all.last(),
            w,
        ));
        assert(dedent_lines(rest, w) == Seq::<char>::empty());
        assert(dedent_line_spec(x, w) + Seq::<char>::empty() =~= dedent_line_spec(x, w));
        assert(Seq::<char>::empty() + dedent_line_spec(x, w) =~= dedent_line_spec(x, w));
    } else {
        let init = rest.drop_last();
        lemma_dedent_lines_front(x, init, w);
        assert(all.drop_last() =~= seq![x] + init);
        assert(all.last() == rest.last());
        assert(dedent_lines(all, w) == dedent_lines(all.drop_last(), w) + dedent_line_spec(
            all.last(),
            w,
        ));
        assert(dedent_lines(rest, w) == dedent_lines(init, w) + dedent_line_spec(rest.last(), w));
        assert(dedent_line_spec(x, w) + dedent_lines(init, w) + dedent_line_spec(rest.last(), w)
            =~= dedent_line_spec(x, w) + (dedent_lines(init, w) + dedent_line_spec(
            rest.last(),
            w,
        )));
    }
}

pub open spec fn no_lf(s: Seq<char>) -> bool {
    forall|k: int| 0 <= k < s.len() ==> #[trigger] s[k] != '\n'
}

proof fn lemma_no_lf_subrange(s: Seq<char>, i: int, j: int)
    requires
        no_lf(s),
        0 <= i <= j <= s.len(),
    ensures
        no_lf(s.subrange(i, j)),
{
    assert forall|k: int| 0 <= k < j - i implies #[trigger] s.subrange(i, j)[k] != '\n' by {
        assert(s.subrange(i, j)[k] == s[i + k]);
    }
}

/// The first line of a text: a line feed can only be its last character,
/// and only its line ending holds a carriage return when every carriage
/// return ends a line.
proof fn lemma_first_line(s: Seq<char>)
    requires
        s.len() > 0,
    ensures
        ({
            let n = newline_end(s) as int;
            let x = s.take(n);
            &&& 1 <= n <= s.len()
            &&& forall|k: int| 0 <= k < n - 1 ==> #[trigger] x[k] != '\n'
            &&& (n < s.len() ==> x[n - 1] == '\n')
            &&& s == x + s.skip(n)
        }),
    decreases s.len(),
{
    lemma_newline_end_bounds(s);
    let n = newline_end(s) as int;
    if s[0] != '\n' && s.len() > 1 {
        lemma_first_line(s.drop_first());
        assert forall|k: int| 0 <= k < n - 1 implies #[trigger] s.take(n)[k] != '\n' by {
            if k > 0 {
                assert(s.take(n)[k] == s.drop_first().take(n - 1)[k - 1]);
            }
        }
    }
    assert(s =~= s.take(n) + s.skip(n));
}

proof fn lemma_line_body(x: Seq<char>)
    requires
        forall|k: int| 0 <= k < x.len() - 1 ==> #[trigger] x[k] != '\n',
    ensures
        forall|k: int| 0 <= k < body_of(x).len() ==> #[trigger] body_of(x)[k] != '\n',
        x == body_of(x) + newline_of(x),
        newline_of(x).len() == 0 || newline_of(x).last() == '\n',
        forall|k: int| 0 <= k < newline_of(x).len() ==> (#[trigger] newline_of(x)[k] == '\n'
            || newline_of(x)[k] == '\r'),
{
    assert(x =~= body_of(x) + newline_of(x));
    if x.len() > 0 && x.last() != '\n' {
        assert(body_of(x) == x);
    }
}

/// A dedented line holds no line feed besides its line ending.
proof fn lemma_dedented_body_no_lf(b: Seq<char>, w: nat)
    requires
        no_lf(b),
    ensures
        no_lf(trim_end_indent(remove_indent(b, w))),
{
    lemma_prefix_len_props(b, indent_pred());
    let k = indent_width(b);
    let a = if w < k {
        w as int
    } else {
        k as int
    };
    let r = remove_indent(b, w);
    assert(r == b.subrange(a, b.len() as int));
    lemma_no_lf_subrange(b, a, b.len() as int);
    lemma_suffix_len_props(r, indent_pred());
    let t = trim_end_indent(r);
    assert(t == r.subrange(0, r.len() - suffix_len(r, indent_pred())));
    lemma_no_lf_subrange(r, 0, r.len() - suffix_len(r, indent_pred()));
}

proof fn lemma_dedent_line_count(x: Seq<char>, w: nat)
    requires
        forall|k: int| 0 <= k < x.len() - 1 ==> #[trigger] x[k] != '\n',
    ensures
        count_lf(dedent_line_spec(x, w)) == count_lf(x),
{
    lemma_line_body(x);
    let b = body_of(x);
    assert(no_lf(b));
    lemma_dedented_body_no_lf(b, w);
    let t = trim_end_indent(remove_indent(b, w));
    lemma_count_lf_none(t);
    lemma_count_lf_none(b);
    lemma_count_lf_concat(t, newline_of(x));
    lemma_count_lf_concat(b, newline_of(x));
}

proof fn lemma_dedent_lines_count(s: Seq<char>, w: nat)
    ensures
        count_lf(dedent_lines(pieces(s), w)) == count_lf(s),
    decreases s.len(),
{
    if s.len() > 0 {
        lemma_first_line(s);
        let n = newline_end(s) as int;
        let x = s.take(n);
        let rest = s.skip(n);
        lemma_dedent_lines_count(rest, w);
        assert(pieces(s) == seq![x] + pieces(rest));
        lemma_dedent_lines_front(x, pieces(rest), w);
        lemma_dedent_line_count(x, w);
        lemma_count_lf_concat(dedent_line_spec(x, w), dedent_lines(pieces(rest), w));
        lemma_count_lf_concat(x, rest);
    }
}

/// Dedenting keeps every line break, also in `>`, `▸` and `▾` blocks, which
/// only lose their prefixes: the result has as many line feeds as the text.
/// Only `❯`, `›` and `•` prompt blocks join their wrapped lines.
pub proof fn lemma_dedent_keeps_line_breaks(s: Seq<char>)
    requires
        !(strip_prompt(s) matches Some((_, PromptMode::Unwrap))),
    ensures
        count_lf(dedent_spec(s)) == count_lf(s),
{
    match strip_prompt(s) {
        Some((t, _)) => {
            lemma_strip_prompt_count(s);
            lemma_dedent_lines_count(t, indent_of(pieces(t)));
        },
        None => lemma_dedent_lines_count(s, indent_of(pieces(s))),
    }
}

} // verus!

verus! {

proof fn lemma_body_has_no_cr(s: Seq<char>)
    requires
        s.len() > 0,
        crs_end_lines(s),
    ensures
        forall|k: int|
            0 <= k < body_of(s.take(newline_end(s) as int)).len() ==> #[trigger] body_of(
                s.take(newline_end(s) as int),
            )[k] != '\r',
{
    lemma_first_line(s);
    let n = newline_end(s) as int;
    let x = s.take(n);
    lemma_line_body(x);
    let b = body_of(x);
    assert forall|k: int| 0 <= k < b.len() implies #[trigger] b[k] != '\r' by {
        assert(b[k] == x[k]);
        if x[k] == '\r' {
            assert(s[k] == '\r');
            assert(k + 1 < s.len() && s[k + 1] == '\n');
            if k + 1 < n {
                assert(x[k + 1] == '\n');
                assert(k + 1 == n - 1);
                assert(b.len() == n - 2);
            } else {
                assert(n < s.len());
                assert(x[n - 1] == '\n');
            }
        }
    }
}

proof fn lemma_dedent_line_clean(x: Seq<char>, w: nat)
    requires
        forall|k: int| 0 <= k < x.len() - 1 ==> #[trigger] x[k] != '\n',
        forall|k: int| 0 <= k < body_of(x).len() ==> #[trigger] body_of(x)[k] != '\r',
    ensures
        ({
            let t = trim_end_indent(remove_indent(body_of(x), w));
            &&& dedent_line_spec(x, w) == t + newline_of(x)
            &&& forall|k: int| 0 <= k < t.len() ==> #[trigger] t[k] != '\n' && t[k] != '\r'
            &&& t.len() == 0 || !is_indent_char(t.last())
        }),
{
    lemma_line_body(x);
    let b = body_of(x);
    lemma_prefix_len_props(b, indent_pred());
    let k = indent_width(b);
    let a = if w < k {
        w as int
    } else {
        k as int
    };
    let r = remove_indent(b, w);
    assert(r == b.subrange(a, b.len() as int));
    lemma_suffix_len_props(r, indent_pred());
    let t = trim_end_indent(r);
    let e = r.len() - suffix_len(r, indent_pred());
    assert(t == r.subrange(0, e));
    assert forall|i: int| 0 <= i < t.len() implies #[trigger] t[i] != '\n' && t[i] != '\r' by {
        assert(t[i] == b[a + i]);
    }
    if t.len() > 0 {
        assert(t.last() == r[e - 1]);
    }
}

proof fn lemma_dedent_lines_clean(s: Seq<char>, w: nat)
    requires
        crs_end_lines(s),
    ensures
        no_trailing_blanks(dedent_lines(pieces(s), w)),
    decreases s.len(),
{
    if s.len() == 0 {
        assert(dedent_lines(pieces(s), w) == Seq::<char>::empty());
    } else {
        lemma_first_line(s);
        let n = newline_end(s) as int;
        let x = s.take(n);
        let rest = s.skip(n);
        assert forall|j: int| 0 <= j < rest.len() && #[trigger] rest[j] == '\r' implies j + 1
            < rest.len() && rest[j + 1] == '\n' by {
            assert(rest[j] == s[j + n]);
            assert(s[j + n + 1] == rest[j + 1]);
        }
        lemma_dedent_lines_clean(rest, w);
        lemma_body_has_no_cr(s);
        lemma_dedent_line_clean(x, w);
        lemma_line_body(x);
        assert(pieces(s) == seq![x] + pieces(rest));
        lemma_dedent_lines_front(x, pieces(rest), w);
        let t = trim_end_indent(remove_indent(body_of(x), w));
        let nl = newline_of(x);
        let d = t + nl;
        let big = dedent_lines(pieces(rest), w);
        let out = d + big;
        if rest.len() > 0 {
            assert(x[n - 1] == '\n');
            assert(nl.len() > 0) by {
                assert(x.last() == '\n');
            }
        } else {
            assert(pieces(rest) == Seq::<Seq<char>>::empty());
            assert(big == Seq::<char>::empty());
        }
        assert forall|j: int| 0 <= j < out.len() && #[trigger] is_indent_char(out[j]) implies j
            + 1 < out.len() && out[j + 1] != '\n' && out[j + 1] != '\r' by {
            if j < t.len() {
                assert(out[j] == t[j]);
                if j == t.len() - 1 {
                    assert(t.last() == t[j]);
                }
                assert(out[j + 1] == t[j + 1]);
            } else if j < d.len() {
                assert(out[j] == nl[j - t.len()]);
            } else {
                assert(out[j] == big[j - d.len()]);
                assert(out[j + 1] == big[j - d.len() + 1]);
            }
        }
    }
}

/// When every carriage return ends a line, no line of the result ends in a
/// space or a tab, whether or not the text is a prompt block.
pub proof fn lemma_dedent_trims_line_ends(s: Seq<char>)
    requires
        crs_end_lines(s),
    ensures
        no_trailing_blanks(dedent_spec(s)),
{
    match strip_prompt(s) {
        Some((t, mode)) => {
            lemma_strip_prompt_crs(s);
            let w = indent_of(pieces(t));
            lemma_dedent_lines_clean(t, w);
            if mode == PromptMode::Unwrap {
                lemma_dedent_lines_line_like(t, w);
                lemma_unwrap_clean(dedent_lines(pieces(t), w));
            }
        },
        None => lemma_dedent_lines_clean(s, indent_of(pieces(s))),
    }
}

} // verus!

verus! {

/// Some line of the text starts with a character that is not a space, a tab
/// or a line feed.
pub open spec fn has_unindented_line(t: Seq<char>) -> bool {
    exists|j: int|
        0 <= j < t.len() && (j == 0 || t[j - 1] == '\n') && !is_indent_char(#[trigger] t[j])
            && t[j] != '\n'
}

/// Every line but the last ends with a line feed, which is the only line
/// feed in it.
pub open spec fn well_split(ps: Seq<Seq<char>>) -> bool {
    &&& forall|i: int| 0 <= i < ps.len() - 1 ==> (#[trigger] ps[i]).len() > 0 && ps[i].last() == '\n'
    &&& forall|i: int, k: int| 0 <= i < ps.len() && 0 <= k < ps[i].len() - 1 ==> #[trigger] ps[i][k] != '\n'
}

proof fn lemma_pieces_well_split(s: Seq<char>)
    ensures
        well_split(pieces(s)),
    decreases s.len(),
{
    if s.len() > 0 {
        lemma_first_line(s);
        let n = newline_end(s) as int;
        let x = s.take(n);
        let rest = s.skip(n);
        lemma_pieces_well_split(rest);
        let ps = pieces(s);
        assert(ps == seq![x] + pieces(rest));
        if rest.len() == 0 {
            assert(pieces(rest) == Seq::<Seq<char>>::empty());
        }
        assert forall|i: int| 0 <= i < ps.len() - 1 implies (#[trigger] ps[i]).len() > 0
            && ps[i].last() == '\n' by {
            if i == 0 {
                assert(rest.len() > 0);
            } else {
                assert(ps[i] == pieces(rest)[i - 1]);
            }
        }
        assert forall|i: int, k: int| 0 <= i < ps.len() && 0 <= k < ps[i].len() - 1 implies #[trigger] ps[i][k]
            != '\n' by {
            if i > 0 {
                assert(ps[i] == pieces(rest)[i - 1]);
            }
        }
    }
}

proof fn lemma_min_indent_witness(ps: Seq<Seq<char>>)
    requires
        min_indent(ps) is Some,
    ensures
        exists|m: int|
            0 <= m < ps.len() && !is_blank(body_of(#[trigger] ps[m])) && indent_width(
                body_of(ps[m]),
            ) == min_indent(ps).unwrap(),
    decreases ps.len(),
{
    let init = ps.drop_last();
    let b = body_of(ps.last());
    if is_blank(b) || (min_indent(init) is Some && min_indent(init).unwrap() <= indent_width(b)) {
        lemma_min_indent_witness(init);
        let m = choose|m: int|
            0 <= m < init.len() && !is_blank(body_of(#[trigger] init[m])) && indent_width(
                body_of(init[m]),
            ) == min_indent(init).unwrap();
        assert(ps[m] == init[m]);
    } else {
        assert(ps[ps.len() - 1] == ps.last());
    }
}

proof fn lemma_dedent_lines_end(ps: Seq<Seq<char>>, w: nat)
    requires
        ps.len() > 0,
        forall|i: int| 0 <= i < ps.len() ==> (#[trigger] ps[i]).len() > 0 && ps[i].last() == '\n',
    ensures
        dedent_lines(ps, w).len() > 0 && dedent_lines(ps, w).last() == '\n',
{
    let x = ps.last();
    assert(ps[ps.len() - 1] == x);
    assert(x =~= body_of(x) + newline_of(x));
    assert(newline_of(x).len() > 0 && newline_of(x).last() == '\n');
}

proof fn lemma_unindented_line(ps: Seq<Seq<char>>, w: nat, m: int)
    requires
        well_split(ps),
        0 <= m < ps.len(),
        !is_blank(body_of(ps[m])),
        indent_width(body_of(ps[m])) == w,
    ensures
        has_unindented_line(dedent_lines(ps, w)),
    decreases ps.len(),
{
    let init = ps.drop_last();
    let x = ps.last();
    let pre = dedent_lines(init, w);
    let out = dedent_lines(ps, w);
    assert(out == pre + dedent_line_spec(x, w));
    assert forall|i: int, k: int| 0 <= i < init.len() && 0 <= k < init[i].len() - 1 implies #[trigger] init[i][k]
        != '\n' by {
        assert(init[i] == ps[i]);
    }
    assert forall|i: int| 0 <= i < init.len() - 1 implies (#[trigger] init[i]).len() > 0
        && init[i].last() == '\n' by {
        assert(init[i] == ps[i]);
    }
    if m < ps.len() - 1 {
        assert(init[m] == ps[m]);
        lemma_unindented_line(init, w, m);
        let j = choose|j: int|
            0 <= j < pre.len() && (j == 0 || pre[j - 1] == '\n') && !is_indent_char(#[trigger] pre[j])
                && pre[j] != '\n';
        assert(out[j] == pre[j]);
        if j > 0 {
            assert(out[j - 1] == pre[j - 1]);
        }
    } else {
        assert(x == ps[m]);
        if init.len() > 0 {
            assert forall|i: int| 0 <= i < init.len() implies (#[trigger] init[i]).len() > 0
                && init[i].last() == '\n' by {
                assert(init[i] == ps[i]);
            }
            lemma_dedent_lines_end(init, w);
        } else {
            assert(pre == Seq::<char>::empty());
        }
        let b = body_of(x);
        lemma_line_body(x);
        lemma_prefix_len_props(b, indent_pred());
        assert(w < b.len()) by {
            if w >= b.len() {
                assert forall|i: int| 0 <= i < b.len() implies is_inline_space_spec(#[trigger] b[i])
                    || b[i] == '\r' by {
                    assert(is_indent_char(b[i]));
                }
            }
        }
        let r = remove_indent(b, w);
        assert(r == b.skip(w as int));
        assert(!is_indent_char(r[0]));
        lemma_suffix_len_props(r, indent_pred());
        let t = trim_end_indent(r);
        assert(t.len() > 0 && t[0] == r[0]);
        let j = pre.len() as int;
        assert(out[j] == t[0]);
        assert(b[w as int] != '\n');
    }
}

proof fn lemma_dedent_lines_unindented(s: Seq<char>)
    requires
        min_indent(pieces(s)) is Some,
    ensures
        has_unindented_line(dedent_lines(pieces(s), indent_of(pieces(s)))),
{
    let ps = pieces(s);
    lemma_pieces_well_split(s);
    lemma_min_indent_witness(ps);
    let m = choose|m: int|
        0 <= m < ps.len() && !is_blank(body_of(#[trigger] ps[m])) && indent_width(body_of(ps[m]))
            == min_indent(ps).unwrap();
    lemma_unindented_line(ps, indent_of(ps), m);
}

/// The text once the markers and continuation prefixes of a prompt block are
/// taken off; any other text as it is.
pub open spec fn unprompted(s: Seq<char>) -> Seq<char> {
    match strip_prompt(s) {
        Some((t, _)) => t,
        None => s,
    }
}

/// The common indentation is removed in full: when some line is not blank,
/// a line of the result starts without a space or a tab. This holds of every
/// text but `❯`, `›` and `•` prompt blocks, where joining a wrapped line can
/// carry the one unindented line into the middle of another.
pub proof fn lemma_dedent_removes_common_indent(s: Seq<char>)
    requires
        !(strip_prompt(s) matches Some((_, PromptMode::Unwrap))),
        min_indent(pieces(unprompted(s))) is Some,
    ensures
        has_unindented_line(dedent_spec(s)),
{
    lemma_dedent_lines_unindented(unprompted(s));
}

} // verus!

verus! {

/// Line feeds over a list of lines.
pub open spec fn lf_sum(ps: Seq<Seq<char>>) -> nat
    decreases ps.len(),
{
    if ps.len() == 0 {
        0
    } else {
        lf_sum(ps.drop_last()) + count_lf(ps.last())
    }
}

proof fn lemma_lf_sum_front(x: Seq<char>, rest: Seq<Seq<char>>)
    ensures
        lf_sum(seq![x] + rest) == count_lf(x) + lf_sum(rest),
    decreases rest.len(),
{
    let all = seq![x] + rest;
    if rest.len() == 0 {
        assert(all.drop_last() =~= Seq::<Seq<char>>::empty());
        assert(all.last() == x);
        assert(lf_sum(Seq::<Seq<char>>::empty()) == 0);
        assert(lf_sum(all) == lf_sum(all.drop_last()) + count_lf(all.last()));
    } else {
        lemma_lf_sum_front(x, rest.drop_last());
        assert(all.drop_last() =~= seq![x] + rest.drop_last());
        assert(all.last() == rest.last());
        assert(lf_sum(all) == lf_sum(all.drop_last()) + count_lf(all.last()));
        assert(lf_sum(rest) == lf_sum(rest.drop_last()) + count_lf(rest.last()));
    }
}

proof fn lemma_lf_sum_pieces(s: Seq<char>)
    ensures
        lf_sum(pieces(s)) == count_lf(s),
    decreases s.len(),
{
    if s.len() > 0 {
        lemma_first_line(s);
        let n = newline_end(s) as int;
        let x = s.take(n);
        let rest = s.skip(n);
        lemma_lf_sum_pieces(rest);
        assert(pieces(s) == seq![x] + pieces(rest));
        lemma_lf_sum_front(x, pieces(rest));
        lemma_count_lf_concat(x, rest);
    }
}

/// What is left of a line once a prefix of its body is cut off keeps the
/// line's line feeds.
proof fn lemma_cut_line_count(p: Seq<char>, i: int, j: int)
    requires
        forall|k: int| 0 <= k < p.len() - 1 ==> #[trigger] p[k] != '\n',
        0 <= i <= j <= body_of(p).len(),
    ensures
        count_lf(body_of(p).subrange(i, j) + newline_of(p)) == count_lf(p),
{
    lemma_line_body(p);
    let b = body_of(p);
    assert(no_lf(b));
    lemma_no_lf_subrange(b, i, j);
    lemma_count_lf_none(b.subrange(i, j));
    lemma_count_lf_none(b);
    lemma_count_lf_concat(b.subrange(i, j), newline_of(p));
    lemma_count_lf_concat(b, newline_of(p));
}

proof fn lemma_continuation_count(p: Seq<char>, indent: Seq<char>)
    requires
        forall|k: int| 0 <= k < p.len() - 1 ==> #[trigger] p[k] != '\n',
        continuation(p, indent) is Some,
    ensures
        count_lf(continuation(p, indent)->0) == count_lf(p),
{
    let b = body_of(p);
    let n = indent.len() as int;
    if is_blank(b) {
        let l = prefix_len(b, inline_pred());
        if l == b.len() {
            assert(trim_inline(b) =~= b.subrange(0, 0));
            lemma_cut_line_count(p, 0, 0);
        } else {
            lemma_suffix_len_props(b, inline_pred());
            lemma_prefix_len_props(b, inline_pred());
            lemma_cut_line_count(p, l as int, b.len() - suffix_len(b, inline_pred()));
        }
    } else {
        assert(b.skip(n + 2) =~= b.subrange(n + 2, b.len() as int));
        lemma_cut_line_count(p, n + 2, b.len() as int);
    }
}

proof fn lemma_strip_continuations_count(ps: Seq<Seq<char>>, indent: Seq<char>)
    requires
        forall|i: int, k: int|
            0 <= i < ps.len() && 0 <= k < ps[i].len() - 1 ==> #[trigger] ps[i][k] != '\n',
        strip_continuations(ps, indent) is Some,
    ensures
        count_lf(strip_continuations(ps, indent)->0) == lf_sum(ps),
    decreases ps.len(),
{
    if ps.len() > 0 {
        let init = ps.drop_last();
        assert forall|i: int, k: int| 0 <= i < init.len() && 0 <= k < init[i].len() - 1 implies #[trigger] init[i][k]
            != '\n' by {
            assert(init[i] == ps[i]);
        }
        lemma_strip_continuations_count(init, indent);
        let p = ps.last();
        assert forall|k: int| 0 <= k < p.len() - 1 implies #[trigger] p[k] != '\n' by {
            assert(ps[ps.len() - 1][k] != '\n');
        }
        lemma_continuation_count(p, indent);
        lemma_count_lf_concat(
            strip_continuations(init, indent)->0,
            continuation(p, indent)->0,
        );
    }
}

/// Taking the prompt marker and the continuation prefixes off a prompt block
/// keeps its line feeds.
proof fn lemma_strip_prompt_count(s: Seq<char>)
    requires
        strip_prompt(s) is Some,
    ensures
        count_lf((strip_prompt(s)->0).0) == count_lf(s),
{
    let ps = pieces(s);
    lemma_pieces_well_split(s);
    lemma_lf_sum_pieces(s);
    let p0 = ps[0];
    let fb = body_of(p0);
    let (k, mode) = prompt_head(fb)->0;
    let rest = ps.drop_first();
    assert(ps =~= seq![p0] + rest);
    lemma_lf_sum_front(p0, rest);
    assert forall|i: int, j: int| 0 <= i < rest.len() && 0 <= j < rest[i].len() - 1 implies #[trigger] rest[i][j]
        != '\n' by {
        assert(rest[i] == ps[i + 1]);
    }
    lemma_strip_continuations_count(rest, fb.take(k as int));
    assert forall|j: int| 0 <= j < p0.len() - 1 implies #[trigger] p0[j] != '\n' by {
        assert(ps[0][j] != '\n');
    }
    assert(fb.skip(k as int + 2) =~= fb.subrange(k as int + 2, fb.len() as int));
    lemma_cut_line_count(p0, k as int + 2, fb.len() as int);
    let c = strip_continuations(rest, fb.take(k as int))->0;
    lemma_count_lf_concat(fb.skip(k as int + 2) + newline_of(p0), c);
}

} // verus!

verus! {

// ---------------------------------------------------------------------------
// Carriage returns and trailing blanks through prompt blocks
// ---------------------------------------------------------------------------

/// Every carriage return starts a `"\r\n"`, and the text does not end in one.
pub open spec fn line_like(x: Seq<char>) -> bool {
    crs_end_lines(x) && (x.len() == 0 || x.last() != '\r')
}

proof fn lemma_line_like_concat(a: Seq<char>, b: Seq<char>)
    requires
        line_like(a),
        line_like(b),
    ensures
        line_like(a + b),
{
    let ab = a + b;
    assert forall|j: int| 0 <= j < ab.len() && #[trigger] ab[j] == '\r' implies j + 1 < ab.len()
        && ab[j + 1] == '\n' by {
        if j < a.len() {
            assert(a[j] == '\r');
            if j == a.len() - 1 {
                assert(a.last() == a[j]);
            }
            assert(ab[j + 1] == a[j + 1]);
        } else {
            assert(b[j - a.len()] == '\r');
            assert(ab[j + 1] == b[j - a.len() + 1]);
        }
    }
    if b.len() > 0 {
        assert(ab.last() == b.last());
    } else {
        assert(ab =~= a);
    }
}

proof fn lemma_newline_shapes(p: Seq<char>)
    ensures
        newline_of(p) == Seq::<char>::empty() || newline_of(p) == seq!['\n'] || newline_of(p)
            == seq!['\r', '\n'],
{
    let b = body_of(p);
    if p.len() >= 2 && p[p.len() - 1] == '\n' && p[p.len() - 2] == '\r' {
        assert(newline_of(p) =~= seq!['\r', '\n']);
    } else if p.len() >= 1 && p[p.len() - 1] == '\n' {
        assert(newline_of(p) =~= seq!['\n']);
    } else {
        assert(newline_of(p) =~= Seq::<char>::empty());
    }
}

/// A piece of a line body followed by the line's ending.
proof fn lemma_cut_line_like(p: Seq<char>, i: int, j: int)
    requires
        0 <= i <= j <= body_of(p).len(),
        forall|k: int| 0 <= k < body_of(p).len() ==> #[trigger] body_of(p)[k] != '\r',
    ensures
        line_like(body_of(p).subrange(i, j) + newline_of(p)),
{
    let y = body_of(p).subrange(i, j);
    assert forall|k: int| 0 <= k < y.len() && #[trigger] y[k] == '\r' implies k + 1 < y.len()
        && y[k + 1] == '\n' by {
        assert(y[k] == body_of(p)[i + k]);
    }
    if y.len() > 0 {
        assert(y.last() == body_of(p)[j - 1]);
    }
    lemma_newline_shapes(p);
    let nl = newline_of(p);
    assert forall|k: int| 0 <= k < nl.len() && #[trigger] nl[k] == '\r' implies k + 1 < nl.len()
        && nl[k + 1] == '\n' by {}
    lemma_line_like_concat(y, nl);
}

/// When every carriage return ends a line, no line body holds one.
proof fn lemma_bodies_have_no_cr(s: Seq<char>)
    requires
        crs_end_lines(s),
    ensures
        forall|i: int, k: int|
            0 <= i < pieces(s).len() && 0 <= k < body_of(pieces(s)[i]).len() ==> #[trigger] body_of(
                pieces(s)[i],
            )[k] != '\r',
    decreases s.len(),
{
    if s.len() > 0 {
        lemma_first_line(s);
        let n = newline_end(s) as int;
        let x = s.take(n);
        let rest = s.skip(n);
        assert forall|j: int| 0 <= j < rest.len() && #[trigger] rest[j] == '\r' implies j + 1
            < rest.len() && rest[j + 1] == '\n' by {
            assert(rest[j] == s[j + n]);
            assert(s[j + n + 1] == rest[j + 1]);
        }
        lemma_bodies_have_no_cr(rest);
        lemma_body_has_no_cr(s);
        let ps = pieces(s);
        assert(ps == seq![x] + pieces(rest));
        assert forall|i: int, k: int|
            0 <= i < ps.len() && 0 <= k < body_of(ps[i]).len() implies #[trigger] body_of(
                ps[i],
            )[k] != '\r' by {
            if i > 0 {
                assert(ps[i] == pieces(rest)[i - 1]);
            }
        }
    }
}

proof fn lemma_continuation_line_like(p: Seq<char>, indent: Seq<char>)
    requires
        forall|k: int| 0 <= k < body_of(p).len() ==> #[trigger] body_of(p)[k] != '\r',
        continuation(p, indent) is Some,
    ensures
        line_like(continuation(p, indent)->0),
{
    let b = body_of(p);
    let n = indent.len() as int;
    if is_blank(b) {
        let l = prefix_len(b, inline_pred());
        if l == b.len() {
            assert(trim_inline(b) =~= b.subrange(0, 0));
            lemma_cut_line_like(p, 0, 0);
        } else {
            lemma_suffix_len_props(b, inline_pred());
            lemma_prefix_len_props(b, inline_pred());
            lemma_cut_line_like(p, l as int, b.len() - suffix_len(b, inline_pred()));
        }
    } else {
        assert(b.skip(n + 2) =~= b.subrange(n + 2, b.len() as int));
        lemma_cut_line_like(p, n + 2, b.len() as int);
    }
}

proof fn lemma_strip_continuations_line_like(ps: Seq<Seq<char>>, indent: Seq<char>)
    requires
        forall|i: int, k: int|
            0 <= i < ps.len() && 0 <= k < body_of(ps[i]).len() ==> #[trigger] body_of(ps[i])[k]
                != '\r',
        strip_continuations(ps, indent) is Some,
    ensures
        line_like(strip_continuations(ps, indent)->0),
    decreases ps.len(),
{
    if ps.len() == 0 {
        assert(line_like(Seq::<char>::empty()));
    } else {
        let init = ps.drop_last();
        assert forall|i: int, k: int|
            0 <= i < init.len() && 0 <= k < body_of(init[i]).len() implies #[trigger] body_of(
                init[i],
            )[k] != '\r' by {
            assert(init[i] == ps[i]);
        }
        lemma_strip_continuations_line_like(init, indent);
        let p = ps.last();
        assert forall|k: int| 0 <= k < body_of(p).len() implies #[trigger] body_of(p)[k] != '\r' by {
            assert(body_of(ps[ps.len() - 1])[k] != '\r');
        }
        lemma_continuation_line_like(p, indent);
        lemma_line_like_concat(strip_continuations(init, indent)->0, continuation(p, indent)->0);
    }
}

/// Taking a prompt block's markers off keeps every carriage return at the end
/// of a line.
proof fn lemma_strip_prompt_crs(s: Seq<char>)
    requires
        crs_end_lines(s),
        strip_prompt(s) is Some,
    ensures
        line_like((strip_prompt(s)->0).0),
{
    let ps = pieces(s);
    lemma_bodies_have_no_cr(s);
    let p0 = ps[0];
    let fb = body_of(p0);
    let (k, mode) = prompt_head(fb)->0;
    let rest = ps.drop_first();
    assert forall|i: int, j: int|
        0 <= i < rest.len() && 0 <= j < body_of(rest[i]).len() implies #[trigger] body_of(
            rest[i],
        )[j] != '\r' by {
        assert(rest[i] == ps[i + 1]);
    }
    lemma_strip_continuations_line_like(rest, fb.take(k as int));
    assert forall|j: int| 0 <= j < fb.len() implies #[trigger] fb[j] != '\r' by {
        assert(body_of(ps[0])[j] != '\r');
    }
    assert(fb.skip(k as int + 2) =~= fb.subrange(k as int + 2, fb.len() as int));
    lemma_cut_line_like(p0, k as int + 2, fb.len() as int);
    let c = strip_continuations(rest, fb.take(k as int))->0;
    lemma_line_like_concat(fb.skip(k as int + 2) + newline_of(p0), c);
}

/// Dedented lines keep every carriage return at the end of a line.
proof fn lemma_dedent_lines_line_like(s: Seq<char>, w: nat)
    requires
        crs_end_lines(s),
    ensures
        line_like(dedent_lines(pieces(s), w)),
    decreases s.len(),
{
    if s.len() == 0 {
        assert(dedent_lines(pieces(s), w) == Seq::<char>::empty());
    } else {
        lemma_first_line(s);
        let n = newline_end(s) as int;
        let x = s.take(n);
        let rest = s.skip(n);
        assert forall|j: int| 0 <= j < rest.len() && #[trigger] rest[j] == '\r' implies j + 1
            < rest.len() && rest[j + 1] == '\n' by {
            assert(rest[j] == s[j + n]);
            assert(s[j + n + 1] == rest[j + 1]);
        }
        lemma_dedent_lines_line_like(rest, w);
        lemma_body_has_no_cr(s);
        lemma_dedent_line_clean(x, w);
        let t = trim_end_indent(remove_indent(body_of(x), w));
        assert(t =~= t.subrange(0, t.len() as int));
        assert forall|k: int| 0 <= k < t.len() && #[trigger] t[k] == '\r' implies k + 1 < t.len()
            && t[k + 1] == '\n' by {}
        lemma_newline_shapes(x);
        let nl = newline_of(x);
        assert forall|k: int| 0 <= k < nl.len() && #[trigger] nl[k] == '\r' implies k + 1
            < nl.len() && nl[k + 1] == '\n' by {}
        lemma_line_like_concat(t, nl);
        assert(pieces(s) == seq![x] + pieces(rest));
        lemma_dedent_lines_front(x, pieces(rest), w);
        lemma_line_like_concat(t + nl, dedent_lines(pieces(rest), w));
    }
}

/// No space or tab stands right before a line ending; the last character
/// is free.
pub open spec fn clean_but_last(u: Seq<char>) -> bool {
    forall|j: int|
        0 <= j < u.len() - 1 && #[trigger] is_indent_char(u[j]) ==> u[j + 1] != '\n' && u[j + 1]
            != '\r'
}

proof fn lemma_clean_concat(a: Seq<char>, b: Seq<char>)
    requires
        clean_but_last(a),
        clean_but_last(b),
        a.len() > 0 && is_indent_char(a.last()) ==> b.len() > 0 && b[0] != '\n' && b[0] != '\r',
    ensures
        clean_but_last(a + b),
{
    let ab = a + b;
    assert forall|j: int| 0 <= j < ab.len() - 1 && #[trigger] is_indent_char(ab[j]) implies ab[j
        + 1] != '\n' && ab[j + 1] != '\r' by {
        if j < a.len() - 1 {
            assert(ab[j] == a[j]);
            assert(ab[j + 1] == a[j + 1]);
        } else if j == a.len() - 1 {
            assert(ab[j] == a.last());
            assert(ab[j + 1] == b[0]);
        } else {
            assert(ab[j] == b[j - a.len()]);
            assert(ab[j + 1] == b[j - a.len() + 1]);
        }
    }
}

/// The lines of a dedented text: bodies without carriage returns or line
/// feeds, and not ending in a space or a tab.
pub open spec fn tidy_lines(ps: Seq<Seq<char>>) -> bool {
    forall|i: int|
        0 <= i < ps.len() ==> {
            let b = body_of(#[trigger] ps[i]);
            &&& forall|k: int| 0 <= k < b.len() ==> #[trigger] b[k] != '\r' && b[k] != '\n'
            &&& (b.len() == 0 || !is_indent_char(b.last()))
        }
}

proof fn lemma_tidy_pieces(d: Seq<char>)
    requires
        crs_end_lines(d),
        no_trailing_blanks(d),
    ensures
        tidy_lines(pieces(d)),
    decreases d.len(),
{
    if d.len() > 0 {
        lemma_first_line(d);
        let n = newline_end(d) as int;
        let x = d.take(n);
        let rest = d.skip(n);
        assert forall|j: int| 0 <= j < rest.len() && #[trigger] rest[j] == '\r' implies j + 1
            < rest.len() && rest[j + 1] == '\n' by {
            assert(rest[j] == d[j + n]);
            assert(d[j + n + 1] == rest[j + 1]);
        }
        assert forall|j: int| 0 <= j < rest.len() && #[trigger] is_indent_char(rest[j]) implies j
            + 1 < rest.len() && rest[j + 1] != '\n' && rest[j + 1] != '\r' by {
            assert(rest[j] == d[j + n]);
            assert(d[j + n + 1] == rest[j + 1]);
        }
        lemma_tidy_pieces(rest);
        lemma_body_has_no_cr(d);
        lemma_line_body(x);
        let b = body_of(x);
        if b.len() > 0 {
            let j = b.len() - 1;
            assert(d[j] == b.last());
            if is_indent_char(b.last()) {
                assert(j + 1 < d.len());
                lemma_newline_shapes(x);
                if newline_of(x).len() == 0 {
                    assert(x =~= b);
                    assert(n == d.len());
                } else {
                    assert(d[j + 1] == newline_of(x)[0]);
                }
            }
        }
        let ps = pieces(d);
        assert(ps == seq![x] + pieces(rest));
        assert forall|i: int| 0 <= i < ps.len() implies {
            let b = body_of(#[trigger] ps[i]);
            &&& forall|k: int| 0 <= k < b.len() ==> #[trigger] b[k] != '\r' && b[k] != '\n'
            &&& (b.len() == 0 || !is_indent_char(b.last()))
        } by {
            if i > 0 {
                assert(ps[i] == pieces(rest)[i - 1]);
            }
        }
    }
}

proof fn lemma_unwrapped_line_facts(ps: Seq<Seq<char>>, i: int)
    requires
        tidy_lines(ps),
        0 <= i < ps.len(),
    ensures
        clean_but_last(unwrapped_line(ps, i)),
        !joins_next(ps, i) ==> unwrapped_line(ps, i).len() == 0 || !is_indent_char(
            unwrapped_line(ps, i).last(),
        ),
        joins_next(ps, i - 1) ==> unwrapped_line(ps, i).len() > 0 && unwrapped_line(ps, i)[0]
            != '\n' && unwrapped_line(ps, i)[0] != '\r',
{
    let b = body_of(ps[i]);
    assert(forall|k: int| 0 <= k < b.len() ==> #[trigger] b[k] != '\r' && b[k] != '\n');
    assert(b.len() == 0 || !is_indent_char(b.last()));
    let l = prefix_len(b, inline_pred());
    lemma_prefix_len_props(b, inline_pred());
    let start = if joins_next(ps, i - 1) {
        b.skip(l as int)
    } else {
        b
    };
    let tail = if joins_next(ps, i) {
        join_sep(b, body_of(ps[i + 1]))
    } else {
        newline_of(ps[i])
    };
    let u = unwrapped_line(ps, i);
    assert(u == start + tail);
    assert forall|k: int| 0 <= k < start.len() implies #[trigger] start[k] != '\r' && start[k]
        != '\n' by {
        if joins_next(ps, i - 1) {
            assert(start[k] == b[l + k]);
        }
    }
    if start.len() > 0 {
        if joins_next(ps, i - 1) {
            assert(start.last() == b.last());
        }
        assert(!is_indent_char(start.last()));
    }
    if joins_next(ps, i - 1) {
        assert(!is_blank(b));
        if l == b.len() {
            assert forall|k: int| 0 <= k < b.len() implies is_inline_space_spec(#[trigger] b[k])
                || b[k] == '\r' by {
                assert(inline_pred()(b[k]));
            }
        }
        assert(l < b.len());
        assert(start[0] == b[l as int]);
        assert(u[0] == start[0]);
    }
    lemma_newline_shapes(ps[i]);
    assert(clean_but_last(start));
    assert forall|j: int| 0 <= j < tail.len() - 1 && #[trigger] is_indent_char(tail[j]) implies tail[j
        + 1] != '\n' && tail[j + 1] != '\r' by {
        if !joins_next(ps, i) {
            assert(tail[j] == '\r' || tail[j] == '\n');
        } else {
            assert(tail.len() <= 1);
        }
    }
    if start.len() > 0 && is_indent_char(start.last()) {
        assert(false);
    }
    lemma_clean_concat(start, tail);
    if !joins_next(ps, i) {
        if tail.len() > 0 {
            assert(u.last() == tail.last());
            assert(tail.last() == '\n');
        } else {
            assert(u =~= start);
        }
    }
}

proof fn lemma_unwrap_upto_clean(ps: Seq<Seq<char>>, n: int)
    requires
        tidy_lines(ps),
        0 <= n <= ps.len(),
    ensures
        clean_but_last(unwrap_upto(ps, n)),
        !joins_next(ps, n - 1) ==> unwrap_upto(ps, n).len() == 0 || !is_indent_char(
            unwrap_upto(ps, n).last(),
        ),
    decreases n,
{
    if n == 0 {
        assert(unwrap_upto(ps, 0) == Seq::<char>::empty());
    } else {
        lemma_unwrap_upto_clean(ps, n - 1);
        lemma_unwrapped_line_facts(ps, n - 1);
        let a = unwrap_upto(ps, n - 1);
        let l = unwrapped_line(ps, n - 1);
        assert(unwrap_upto(ps, n) == a + l);
        lemma_clean_concat(a, l);
        if !joins_next(ps, n - 1) {
            if l.len() > 0 {
                assert((a + l).last() == l.last());
            } else {
                assert(a + l =~= a);
                assert(!joins_next(ps, n - 2));
            }
        }
    }
}

/// Joining the wrapped lines of a tidy text leaves no space or tab at the end
/// of a line.
proof fn lemma_unwrap_clean(d: Seq<char>)
    requires
        crs_end_lines(d),
        no_trailing_blanks(d),
    ensures
        no_trailing_blanks(unwrap_lines(pieces(d))),
{
    let ps = pieces(d);
    lemma_tidy_pieces(d);
    lemma_unwrap_upto_clean(ps, ps.len() as int);
    let u = unwrap_lines(ps);
    assert(!joins_next(ps, ps.len() - 1));
    assert forall|j: int| 0 <= j < u.len() && #[trigger] is_indent_char(u[j]) implies j + 1 < u.len()
        && u[j + 1] != '\n' && u[j + 1] != '\r' by {
        if j == u.len() - 1 {
            assert(u.last() == u[j]);
        }
    }
}

} // verus!

verus! {

// ---------------------------------------------------------------------------
// Unwrapping joins wrapped lines only
// ---------------------------------------------------------------------------

/// How many of the first `n` lines are joined to the line after them.
pub open spec fn joined_count(ps: Seq<Seq<char>>, n: int) -> nat
    decreases n,
{
    if n <= 0 {
        0
    } else {
        joined_count(ps, n - 1) + if joins_next(ps, n - 1) {
            1nat
        } else {
            0nat
        }
    }
}

proof fn lemma_unwrapped_line_count(ps: Seq<Seq<char>>, i: int)
    requires
        well_split(ps),
        0 <= i < ps.len(),
    ensures
        count_lf(unwrapped_line(ps, i)) + (if joins_next(ps, i) {
            1nat
        } else {
            0nat
        }) == count_lf(ps[i]),
{
    let p = ps[i];
    assert forall|k: int| 0 <= k < p.len() - 1 implies #[trigger] p[k] != '\n' by {
        assert(ps[i][k] != '\n');
    }
    lemma_line_body(p);
    let b = body_of(p);
    assert(no_lf(b));
    let l = prefix_len(b, inline_pred());
    lemma_prefix_len_props(b, inline_pred());
    let start = if joins_next(ps, i - 1) {
        b.skip(l as int)
    } else {
        b
    };
    assert(start =~= b.subrange(if joins_next(ps, i - 1) { l as int } else { 0 }, b.len() as int));
    lemma_no_lf_subrange(b, if joins_next(ps, i - 1) { l as int } else { 0 }, b.len() as int);
    lemma_count_lf_none(start);
    lemma_count_lf_none(b);
    lemma_count_lf_concat(b, newline_of(p));
    lemma_newline_shapes(p);
    let nl = newline_of(p);
    assert(count_lf(Seq::<char>::empty()) == 0);
    assert(count_lf(seq!['\n']) == 1) by {
        assert(seq!['\n'].drop_last() =~= Seq::<char>::empty());
        assert(seq!['\n'].last() == '\n');
    }
    assert(count_lf(seq!['\r']) == 0) by {
        assert(seq!['\r'].drop_last() =~= Seq::<char>::empty());
        assert(seq!['\r'].last() == '\r');
    }
    assert(count_lf(seq!['\r', '\n']) == 1) by {
        assert(seq!['\r', '\n'].drop_last() =~= seq!['\r']);
        assert(seq!['\r', '\n'].last() == '\n');
    }
    if joins_next(ps, i) {
        let sep = join_sep(b, body_of(ps[i + 1]));
        assert(count_lf(sep) == 0) by {
            if sep.len() > 0 {
                assert(sep =~= seq![' ']);
                assert(sep.drop_last() =~= Seq::<char>::empty());
            }
        }
        lemma_count_lf_concat(start, sep);
    } else {
        lemma_count_lf_concat(start, nl);
    }
}

proof fn lemma_unwrap_upto_count(ps: Seq<Seq<char>>, n: int)
    requires
        well_split(ps),
        0 <= n <= ps.len(),
    ensures
        count_lf(unwrap_upto(ps, n)) + joined_count(ps, n) == lf_sum(ps.take(n)),
    decreases n,
{
    if n == 0 {
        assert(ps.take(0) =~= Seq::<Seq<char>>::empty());
    } else {
        lemma_unwrap_upto_count(ps, n - 1);
        lemma_unwrapped_line_count(ps, n - 1);
        lemma_count_lf_concat(unwrap_upto(ps, n - 1), unwrapped_line(ps, n - 1));
        assert(ps.take(n).drop_last() =~= ps.take(n - 1));
        assert(ps.take(n).last() == ps[n - 1]);
    }
}

/// Unwrapping a `❯`, `›` or `•` prompt block only joins lines: each line
/// feed that the result lacks is a wrapped line joined to the next one, and
/// a line is joined only when neither it nor the next one is blank, so blank
/// lines, the paragraph breaks, are kept.
pub proof fn lemma_unwrap_keeps_paragraph_breaks(s: Seq<char>)
    requires
        strip_prompt(s) matches Some((_, PromptMode::Unwrap)),
    ensures
        ({
            let t = unprompted(s);
            let ps = pieces(dedent_lines(pieces(t), indent_of(pieces(t))));
            &&& count_lf(dedent_spec(s)) + joined_count(ps, ps.len() as int) == count_lf(s)
            &&& forall|i: int|
                #![trigger joins_next(ps, i)]
                joins_next(ps, i) ==> !is_blank(body_of(ps[i])) && !is_blank(body_of(ps[i + 1]))
        }),
{
    let t = unprompted(s);
    let w = indent_of(pieces(t));
    let d = dedent_lines(pieces(t), w);
    let ps = pieces(d);
    lemma_strip_prompt_count(s);
    lemma_dedent_lines_count(t, w);
    lemma_pieces_well_split(d);
    lemma_lf_sum_pieces(d);
    lemma_unwrap_upto_count(ps, ps.len() as int);
    assert(ps.take(ps.len() as int) =~= ps);
}

} // verus!

verus! {

// ---------------------------------------------------------------------------
// Only blanks and the prompt marker go
// ---------------------------------------------------------------------------

/// A character that shows: not an inline space, a carriage return or a line
/// feed.
pub open spec fn is_ink(c: char) -> bool {
    !is_inline_space_spec(c) && c != '\r' && c != '\n'
}

/// The characters of `s` that show, in order.
pub open spec fn ink(s: Seq<char>) -> Seq<char>
    decreases s.len(),
{
    if s.len() == 0 {
        seq![]
    } else {
        ink(s.drop_last()) + if is_ink(s.last()) {
            seq![s.last()]
        } else {
            seq![]
        }
    }
}

proof fn lemma_ink_concat(a: Seq<char>, b: Seq<char>)
    ensures
        ink(a + b) == ink(a) + ink(b),
    decreases b.len(),
{
    if b.len() == 0 {
        assert(a + b =~= a);
        assert(ink(a) + ink(b) =~= ink(a));
    } else {
        lemma_ink_concat(a, b.drop_last());
        assert((a + b).drop_last() =~= a + b.drop_last());
        assert((a + b).last() == b.last());
        assert(ink(a + b) =~= ink(a) + ink(b));
    }
}

proof fn lemma_ink_none(a: Seq<char>)
    requires
        forall|k: int| 0 <= k < a.len() ==> !is_ink(#[trigger] a[k]),
    ensures
        ink(a) == Seq::<char>::empty(),
    decreases a.len(),
{
    if a.len() > 0 {
        lemma_ink_none(a.drop_last());
        assert(!is_ink(a[a.len() - 1]));
    }
}

/// Cutting blanks off both ends of `b` keeps its ink.
proof fn lemma_ink_cut(b: Seq<char>, i: int, j: int)
    requires
        0 <= i <= j <= b.len(),
        forall|k: int| 0 <= k < i ==> !is_ink(#[trigger] b[k]),
        forall|k: int| j <= k < b.len() ==> !is_ink(#[trigger] b[k]),
    ensures
        ink(b.subrange(i, j)) == ink(b),
{
    let x = b.subrange(0, i);
    let y = b.subrange(i, j);
    let z = b.subrange(j, b.len() as int);
    assert(b =~= x + y + z);
    assert forall|k: int| 0 <= k < x.len() implies !is_ink(#[trigger] x[k]) by {
        assert(x[k] == b[k]);
    }
    assert forall|k: int| 0 <= k < z.len() implies !is_ink(#[trigger] z[k]) by {
        assert(z[k] == b[j + k]);
    }
    lemma_ink_none(x);
    lemma_ink_none(z);
    lemma_ink_concat(x, y);
    lemma_ink_concat(x + y, z);
    assert(ink(x) + ink(y) =~= ink(y));
    assert(ink(y) + ink(z) =~= ink(y));
}

/// A line's ink is its body's.
proof fn lemma_line_ink(p: Seq<char>)
    requires
        forall|k: int| 0 <= k < p.len() - 1 ==> #[trigger] p[k] != '\n',
    ensures
        ink(p) == ink(body_of(p)),
{
    lemma_line_body(p);
    lemma_newline_shapes(p);
    let nl = newline_of(p);
    assert forall|k: int| 0 <= k < nl.len() implies !is_ink(#[trigger] nl[k]) by {}
    lemma_ink_none(nl);
    lemma_ink_concat(body_of(p), nl);
    assert(ink(body_of(p)) + ink(nl) =~= ink(body_of(p)));
}

proof fn lemma_dedent_line_ink(p: Seq<char>, w: nat)
    requires
        forall|k: int| 0 <= k < p.len() - 1 ==> #[trigger] p[k] != '\n',
    ensures
        ink(dedent_line_spec(p, w)) == ink(p),
{
    lemma_line_ink(p);
    let b = body_of(p);
    lemma_prefix_len_props(b, indent_pred());
    let k = indent_width(b);
    let a = if w < k {
        w as int
    } else {
        k as int
    };
    let r = remove_indent(b, w);
    assert(r == b.subrange(a, b.len() as int));
    lemma_suffix_len_props(r, indent_pred());
    let e = r.len() - suffix_len(r, indent_pred());
    let t = trim_end_indent(r);
    assert(t == b.subrange(a, a + e));
    assert forall|m: int| 0 <= m < a implies !is_ink(#[trigger] b[m]) by {
        assert(indent_pred()(b[m]));
    }
    assert forall|m: int| a + e <= m < b.len() implies !is_ink(#[trigger] b[m]) by {
        assert(b[m] == r[m - a]);
        assert(indent_pred()(r[m - a]));
    }
    lemma_ink_cut(b, a, a + e);
    let nl = newline_of(p);
    lemma_newline_shapes(p);
    assert forall|m: int| 0 <= m < nl.len() implies !is_ink(#[trigger] nl[m]) by {}
    lemma_ink_none(nl);
    lemma_ink_concat(t, nl);
    assert(ink(t) + ink(nl) =~= ink(t));
}

/// Ink over a list of lines.
pub open spec fn ink_lines(ps: Seq<Seq<char>>) -> Seq<char>
    decreases ps.len(),
{
    if ps.len() == 0 {
        seq![]
    } else {
        ink_lines(ps.drop_last()) + ink(ps.last())
    }
}

proof fn lemma_ink_lines_front(x: Seq<char>, rest: Seq<Seq<char>>)
    ensures
        ink_lines(seq![x] + rest) == ink(x) + ink_lines(rest),
    decreases rest.len(),
{
    let all = seq![x] + rest;
    if rest.len() == 0 {
        assert(all.drop_last() =~= Seq::<Seq<char>>::empty());
        assert(all.last() == x);
        assert(ink_lines(Seq::<Seq<char>>::empty()) == Seq::<char>::empty());
        assert(ink_lines(all) == ink_lines(all.drop_last()) + ink(all.last()));
        assert(ink_lines(all) =~= ink(x) + ink_lines(rest));
    } else {
        lemma_ink_lines_front(x, rest.drop_last());
        assert(all.drop_last() =~= seq![x] + rest.drop_last());
        assert(all.last() == rest.last());
        assert(ink_lines(all) =~= ink(x) + ink_lines(rest));
    }
}

proof fn lemma_ink_pieces(s: Seq<char>)
    ensures
        ink_lines(pieces(s)) == ink(s),
    decreases s.len(),
{
    if s.len() > 0 {
        lemma_first_line(s);
        let n = newline_end(s) as int;
        let x = s.take(n);
        let rest = s.skip(n);
        lemma_ink_pieces(rest);
        assert(pieces(s) == seq![x] + pieces(rest));
        lemma_ink_lines_front(x, pieces(rest));
        lemma_ink_concat(x, rest);
    }
}

proof fn lemma_dedent_lines_ink(ps: Seq<Seq<char>>, w: nat)
    requires
        well_split(ps),
    ensures
        ink(dedent_lines(ps, w)) == ink_lines(ps),
    decreases ps.len(),
{
    if ps.len() > 0 {
        let init = ps.drop_last();
        assert(well_split(init)) by {
            assert forall|i: int| 0 <= i < init.len() - 1 implies (#[trigger] init[i]).len() > 0
                && init[i].last() == '\n' by {
                assert(init[i] == ps[i]);
            }
            assert forall|i: int, k: int| 0 <= i < init.len() && 0 <= k < init[i].len() - 1 implies #[trigger] init[i][k]
                != '\n' by {
                assert(init[i] == ps[i]);
            }
        }
        lemma_dedent_lines_ink(init, w);
        let p = ps.last();
        assert forall|k: int| 0 <= k < p.len() - 1 implies #[trigger] p[k] != '\n' by {
            assert(ps[ps.len() - 1][k] != '\n');
        }
        lemma_dedent_line_ink(p, w);
        lemma_ink_concat(dedent_lines(init, w), dedent_line_spec(p, w));
    }
}

} // verus!

verus! {

proof fn lemma_continuation_ink(p: Seq<char>, indent: Seq<char>)
    requires
        forall|k: int| 0 <= k < p.len() - 1 ==> #[trigger] p[k] != '\n',
        forall|k: int| 0 <= k < indent.len() ==> is_inline_space_spec(#[trigger] indent[k]),
        continuation(p, indent) is Some,
    ensures
        ink(continuation(p, indent)->0) == ink(p),
{
    lemma_line_ink(p);
    let b = body_of(p);
    let nl = newline_of(p);
    lemma_newline_shapes(p);
    assert forall|m: int| 0 <= m < nl.len() implies !is_ink(#[trigger] nl[m]) by {}
    lemma_ink_none(nl);
    let n = indent.len() as int;
    if is_blank(b) {
        assert forall|m: int| 0 <= m < b.len() implies !is_ink(#[trigger] b[m]) by {}
        lemma_ink_none(b);
        let tb = trim_inline(b);
        let l = prefix_len(b, inline_pred());
        if l == b.len() {
            assert(tb.len() == 0);
        } else {
            lemma_suffix_len_props(b, inline_pred());
            lemma_prefix_len_props(b, inline_pred());
        }
        assert forall|m: int| 0 <= m < tb.len() implies !is_ink(#[trigger] tb[m]) by {
            assert(tb[m] == b[l + m]);
        }
        lemma_ink_none(tb);
        lemma_ink_concat(tb, nl);
    } else {
        let x = b.skip(n + 2);
        assert(x =~= b.subrange(n + 2, b.len() as int));
        assert forall|m: int| 0 <= m < n + 2 implies !is_ink(#[trigger] b[m]) by {
            if m < n {
                assert(b.take(n)[m] == b[m]);
                assert(is_inline_space_spec(indent[m]));
            }
        }
        lemma_ink_cut(b, n + 2, b.len() as int);
        lemma_ink_concat(x, nl);
        assert(ink(x) + ink(nl) =~= ink(x));
    }
}

proof fn lemma_strip_continuations_ink(ps: Seq<Seq<char>>, indent: Seq<char>)
    requires
        forall|i: int, k: int|
            0 <= i < ps.len() && 0 <= k < ps[i].len() - 1 ==> #[trigger] ps[i][k] != '\n',
        forall|k: int| 0 <= k < indent.len() ==> is_inline_space_spec(#[trigger] indent[k]),
        strip_continuations(ps, indent) is Some,
    ensures
        ink(strip_continuations(ps, indent)->0) == ink_lines(ps),
    decreases ps.len(),
{
    if ps.len() > 0 {
        let init = ps.drop_last();
        assert forall|i: int, k: int| 0 <= i < init.len() && 0 <= k < init[i].len() - 1 implies #[trigger] init[i][k]
            != '\n' by {
            assert(init[i] == ps[i]);
        }
        lemma_strip_continuations_ink(init, indent);
        let p = ps.last();
        assert forall|k: int| 0 <= k < p.len() - 1 implies #[trigger] p[k] != '\n' by {
            assert(ps[ps.len() - 1][k] != '\n');
        }
        lemma_continuation_ink(p, indent);
        lemma_ink_concat(strip_continuations(init, indent)->0, continuation(p, indent)->0);
    } else {
        assert(ink(Seq::<char>::empty()) == Seq::<char>::empty());
    }
}

/// The prompt marker is the first character of a prompt block that shows,
/// and the only one that stripping the block's prefixes takes away.
proof fn lemma_strip_prompt_ink(s: Seq<char>)
    requires
        strip_prompt(s) is Some,
    ensures
        ink(s).len() > 0,
        ink((strip_prompt(s)->0).0) == ink(s).drop_first(),
{
    let ps = pieces(s);
    lemma_pieces_well_split(s);
    lemma_ink_pieces(s);
    let p0 = ps[0];
    let fb = body_of(p0);
    let (k, mode) = prompt_head(fb)->0;
    let rest = ps.drop_first();
    assert(ps =~= seq![p0] + rest);
    lemma_ink_lines_front(p0, rest);
    assert forall|i: int, j: int| 0 <= i < rest.len() && 0 <= j < rest[i].len() - 1 implies #[trigger] rest[i][j]
        != '\n' by {
        assert(rest[i] == ps[i + 1]);
    }
    lemma_prefix_len_props(fb, inline_pred());
    let indent = fb.take(k as int);
    assert forall|m: int| 0 <= m < indent.len() implies is_inline_space_spec(#[trigger] indent[m]) by {
        assert(inline_pred()(fb[m]));
    }
    lemma_strip_continuations_ink(rest, indent);
    assert forall|j: int| 0 <= j < p0.len() - 1 implies #[trigger] p0[j] != '\n' by {
        assert(ps[0][j] != '\n');
    }
    lemma_line_ink(p0);
    let m = fb[k as int];
    assert(is_ink(m));
    let a = fb.take(k as int);
    let after = fb.skip(k as int + 2);
    assert(fb =~= a + seq![m] + seq![fb[k as int + 1]] + after);
    assert forall|j: int| 0 <= j < a.len() implies !is_ink(#[trigger] a[j]) by {
        assert(inline_pred()(fb[j]));
    }
    lemma_ink_none(a);
    assert(!is_ink(fb[k as int + 1]));
    lemma_ink_none(seq![fb[k as int + 1]]);
    assert(ink(seq![m]) == seq![m]) by {
        assert(seq![m].drop_last() =~= Seq::<char>::empty());
        assert(ink(Seq::<char>::empty()) == Seq::<char>::empty());
    }
    lemma_ink_concat(a, seq![m]);
    lemma_ink_concat(a + seq![m], seq![fb[k as int + 1]]);
    lemma_ink_concat(a + seq![m] + seq![fb[k as int + 1]], after);
    let nl = newline_of(p0);
    lemma_newline_shapes(p0);
    assert forall|j: int| 0 <= j < nl.len() implies !is_ink(#[trigger] nl[j]) by {}
    lemma_ink_none(nl);
    lemma_ink_concat(after, nl);
    let c = strip_continuations(rest, indent)->0;
    lemma_ink_concat(after + nl, c);
    assert(ink(fb) =~= seq![m] + ink(after));
    assert(ink(s) =~= seq![m] + (ink(after + nl) + ink(c)));
}

proof fn lemma_unwrapped_line_ink(ps: Seq<Seq<char>>, i: int)
    requires
        well_split(ps),
        0 <= i < ps.len(),
    ensures
        ink(unwrapped_line(ps, i)) == ink(ps[i]),
{
    let p = ps[i];
    assert forall|k: int| 0 <= k < p.len() - 1 implies #[trigger] p[k] != '\n' by {
        assert(ps[i][k] != '\n');
    }
    lemma_line_ink(p);
    let b = body_of(p);
    let l = prefix_len(b, inline_pred());
    lemma_prefix_len_props(b, inline_pred());
    let start = if joins_next(ps, i - 1) {
        b.skip(l as int)
    } else {
        b
    };
    let from = if joins_next(ps, i - 1) { l as int } else { 0 };
    assert(start =~= b.subrange(from, b.len() as int));
    assert forall|m: int| 0 <= m < from implies !is_ink(#[trigger] b[m]) by {
        assert(inline_pred()(b[m]));
    }
    lemma_ink_cut(b, from, b.len() as int);
    let tail = if joins_next(ps, i) {
        join_sep(b, body_of(ps[i + 1]))
    } else {
        newline_of(p)
    };
    lemma_newline_shapes(p);
    assert forall|m: int| 0 <= m < tail.len() implies !is_ink(#[trigger] tail[m]) by {}
    lemma_ink_none(tail);
    lemma_ink_concat(start, tail);
    assert(ink(start) + ink(tail) =~= ink(start));
}

proof fn lemma_unwrap_upto_ink(ps: Seq<Seq<char>>, n: int)
    requires
        well_split(ps),
        0 <= n <= ps.len(),
    ensures
        ink(unwrap_upto(ps, n)) == ink_lines(ps.take(n)),
    decreases n,
{
    if n == 0 {
        assert(ps.take(0) =~= Seq::<Seq<char>>::empty());
        assert(ink(Seq::<char>::empty()) == Seq::<char>::empty());
    } else {
        lemma_unwrap_upto_ink(ps, n - 1);
        lemma_unwrapped_line_ink(ps, n - 1);
        lemma_ink_concat(unwrap_upto(ps, n - 1), unwrapped_line(ps, n - 1));
        assert(ps.take(n).drop_last() =~= ps.take(n - 1));
        assert(ps.take(n).last() == ps[n - 1]);
    }
}

/// Dedenting removes only blanks and line breaks, and the prompt marker of
/// a prompt block: the characters that show stay, in their order.
pub proof fn lemma_dedent_keeps_the_text(s: Seq<char>)
    ensures
        strip_prompt(s) is None ==> ink(dedent_spec(s)) == ink(s),
        strip_prompt(s) is Some ==> ink(s).len() > 0 && ink(dedent_spec(s)) == ink(s).drop_first(),
{
    match strip_prompt(s) {
        None => {
            lemma_pieces_well_split(s);
            lemma_dedent_lines_ink(pieces(s), indent_of(pieces(s)));
            lemma_ink_pieces(s);
        },
        Some((t, mode)) => {
            lemma_strip_prompt_ink(s);
            let w = indent_of(pieces(t));
            lemma_pieces_well_split(t);
            lemma_dedent_lines_ink(pieces(t), w);
            lemma_ink_pieces(t);
            if mode == PromptMode::Unwrap {
                let d = dedent_lines(pieces(t), w);
                lemma_pieces_well_split(d);
                lemma_unwrap_upto_ink(pieces(d), pieces(d).len() as int);
                assert(pieces(d).take(pieces(d).len() as int) =~= pieces(d));
                lemma_ink_pieces(d);
            }
        },
    }
}

} // verus!

verus! {

// ---------------------------------------------------------------------------
// How wrapped prompt lines are joined
// ---------------------------------------------------------------------------

/// CJK radicals, symbols and punctuation, kana, ideographs (with extension
/// A and compatibility ideographs), Hangul syllables and full-width forms
/// are CJK; Latin, Greek, Cyrillic and every character before U+2E80 are not.
pub proof fn lemma_cjk_characters(c: char)
    ensures
        (0x2E80 <= (c as int) <= 0x2FFF || 0x3000 <= (c as int) <= 0x30FF || 0x31F0 <= (c as int)
            <= 0x31FF || 0x3400 <= (c as int) <= 0x4DBF || 0x4E00 <= (c as int) <= 0x9FFF || 0xAC00
            <= (c as int) <= 0xD7AF || 0xF900 <= (c as int) <= 0xFAFF || 0xFF00 <= (c as int)
            <= 0xFFEF) ==> is_cjk_spec(c),
        (c as int) < 0x2E80 ==> !is_cjk_spec(c),
{
}

/// When a wrapped line is joined to the next, nothing is put between them
/// exactly when the line's last character and the next line's first
/// character after its inline spaces are both CJK; otherwise one space is.
pub proof fn lemma_join_puts_a_space_unless_both_cjk(ps: Seq<Seq<char>>, i: int, j: int)
    requires
        0 <= i,
        i + 1 < ps.len(),
        joins_next(ps, i),
        0 <= j < body_of(ps[i + 1]).len(),
        forall|m: int| 0 <= m < j ==> is_inline_space_spec(#[trigger] body_of(ps[i + 1])[m]),
        !is_inline_space_spec(body_of(ps[i + 1])[j]),
    ensures
        ({
            let b = body_of(ps[i]);
            let u = unwrapped_line(ps, i);
            if is_cjk_spec(b.last()) && is_cjk_spec(body_of(ps[i + 1])[j]) {
                u.len() >= 1 && u.last() == b.last()
            } else {
                u.len() >= 2 && u.last() == ' ' && u[u.len() - 2] == b.last()
            }
        }),
{
    let b = body_of(ps[i]);
    let n = body_of(ps[i + 1]);
    lemma_prefix_len(n, inline_pred(), j);
    lemma_prefix_len_props(b, inline_pred());
    assert(b.len() > 0) by {
        if b.len() == 0 {
            assert(is_blank(b));
        }
    }
    let l = prefix_len(b, inline_pred());
    let start = if joins_next(ps, i - 1) {
        b.skip(l as int)
    } else {
        b
    };
    assert(l < b.len()) by {
        if l == b.len() {
            assert forall|m: int| 0 <= m < b.len() implies is_inline_space_spec(#[trigger] b[m])
                || b[m] == '\r' by {
                assert(inline_pred()(b[m]));
            }
        }
    }
    assert(start.len() > 0 && start.last() == b.last());
    let sep = join_sep(b, n);
    assert(unwrapped_line(ps, i) == start + sep);
}

/// A line that ends a sentence, with `。．！？：…` or `.!?:` followed only by
/// closing brackets and quotes, keeps its line break, unless it leaves an
/// inline code span open.
pub proof fn lemma_sentence_end_keeps_the_break(
    ps: Seq<Seq<char>>,
    i: int,
    x: Seq<char>,
    t: char,
    w: Seq<char>,
)
    requires
        0 <= i < ps.len(),
        body_of(ps[i]) == x + seq![t] + w,
        (t as int) == 0x3002 || (t as int) == 0xFF0E || (t as int) == 0xFF01 || (t as int) == 0xFF1F
            || (t as int) == 0xFF1A || (t as int) == 0x2026 || t == '.' || t == '!' || t == '?' || t
            == ':',
        forall|m: int|
            0 <= m < w.len() ==> {
                let c = #[trigger] w[m];
                c == ')' || c == ']' || c == '}' || c == '"' || c == '\'' || (c as int) == 0x300D
                    || (c as int) == 0x300F || (c as int) == 0xFF09 || (c as int) == 0x3011 || (
                c as int) == 0x3009 || (c as int) == 0x300B || (c as int) == 0x201D || (c as int)
                    == 0x2019
            },
        backtick_count(body_of(ps[i])) % 2 == 0,
    ensures
        !joins_next(ps, i),
{
    let b = body_of(ps[i]);
    assert forall|m: int| b.len() - w.len() <= m < b.len() implies closing_pred()(#[trigger] b[m]) by {
        assert(b[m] == w[m - (b.len() - w.len())]);
    }
    assert(b[b.len() - 1 - w.len()] == t);
    lemma_suffix_len(b, closing_pred(), w.len() as int);
    assert(ends_with_terminator(b));
}

} // verus!
