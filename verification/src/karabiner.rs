//! Installing and removing the Karabiner-Elements rule that binds Option+V to
//! `dedent-paste`. Everything here works on in-memory JSON; reading and
//! writing `karabiner.json` is left to the caller.
use vstd::prelude::*;

use crate::json::{
    as_str, clone_json, field, find_key, first_key, get, get_field, model, model_fields,
    model_items, set_field, Json, JsonValue,
};
use crate::dedent::{body_len, body_of, pieces, prefix_len, split_lines};
use crate::json_text::{canonical_json, json_text_parse, json_text_pretty, parse_json, pretty_json};
use crate::text::{
    chars_eq, chars_of, contains_seq, first_sep, first_index, join_chars, join_with, lemma_first_index_at, push_str, replace_all, replace_chars, seq_views, split_chars, split_on, str_contains, string_of, text_less,
};

verus! {

/// Substring used to recognise an existing dedent-paste rule by what it runs,
/// rather than by its human-readable description.
pub const BINARY_KEYWORD: &'static str = "dedent-paste";

/// Environment file sourced before `dedent-paste` runs so that
/// `GEMINI_API_KEY` and friends are visible when Karabiner triggers the rule.
pub const ENV_FILE_SHELL_PATH: &'static str = "$HOME/.config/dedent-paste/env";

/// File name of the complex modification asset written for manual import.
pub const ASSET_FILE_NAME: &'static str = "paste-dedent-plain-text.json";

#[derive(Debug, Clone, PartialEq, Eq)]
pub enum KarabinerError {
    InvalidTemplate(String),
    InvalidConfig(String),
    NoProfiles,
    NonUtf8Path(String),
}

/// Mathematical form of a `KarabinerError`.
pub enum KarabinerFailure {
    InvalidTemplate(Seq<char>),
    InvalidConfig(Seq<char>),
    NoProfiles,
    NonUtf8Path(Seq<char>),
}

pub open spec fn failure(e: KarabinerError) -> KarabinerFailure {
    match e {
        KarabinerError::InvalidTemplate(s) => KarabinerFailure::InvalidTemplate(s@),
        KarabinerError::InvalidConfig(s) => KarabinerFailure::InvalidConfig(s@),
        KarabinerError::NoProfiles => KarabinerFailure::NoProfiles,
        KarabinerError::NonUtf8Path(s) => KarabinerFailure::NonUtf8Path(s@),
    }
}

/// The text shown to the user for an error.
pub open spec fn karabiner_message(f: KarabinerFailure) -> Seq<char> {
    match f {
        KarabinerFailure::InvalidTemplate(d) => "built-in Karabiner rule template is invalid: "@
            + d,
        KarabinerFailure::InvalidConfig(d) => "karabiner.json has an unexpected structure: "@ + d,
        KarabinerFailure::NoProfiles => "karabiner.json does not contain any profiles"@,
        KarabinerFailure::NonUtf8Path(p) => "executable path is not valid UTF-8: "@ + p,
    }
}

impl KarabinerError {
    /// The text shown to the user for this error.
    pub fn message(&self) -> (r: String)
        ensures
            r@ == karabiner_message(failure(*self)),
    {
        let mut out: Vec<char> = Vec::new();
        match self {
            KarabinerError::InvalidTemplate(d) => {
                push_str(&mut out, "built-in Karabiner rule template is invalid: ");
                push_str(&mut out, d.as_str());
            },
            KarabinerError::InvalidConfig(d) => {
                push_str(&mut out, "karabiner.json has an unexpected structure: ");
                push_str(&mut out, d.as_str());
            },
            KarabinerError::NoProfiles => {
                push_str(&mut out, "karabiner.json does not contain any profiles");
            },
            KarabinerError::NonUtf8Path(p) => {
                push_str(&mut out, "executable path is not valid UTF-8: ");
                push_str(&mut out, p.as_str());
            },
        }
        string_of(out.as_slice())
    }
}

/// Result of installing the rule into a profile.
#[derive(Debug, Clone, PartialEq, Eq)]
pub struct InstallOutcome {
    pub profile_name: String,
    /// Number of pre-existing dedent-paste rules that were replaced.
    pub replaced: usize,
}

/// Result of removing the rule from every profile.
#[derive(Debug, Clone, PartialEq, Eq)]
pub struct UninstallOutcome {
    /// `(profile name, rules removed)` for each profile that changed.
    pub profiles: Vec<(String, usize)>,
}

pub open spec fn sum_counts(ps: Seq<(String, usize)>) -> nat
    decreases ps.len(),
{
    if ps.len() == 0 {
        0
    } else {
        sum_counts(ps.drop_last()) + ps.last().1 as nat
    }
}

impl UninstallOutcome {
    /// Total number of rules removed over all profiles.
    pub fn total_removed(&self) -> (r: usize)
        requires
            sum_counts(self.profiles@) <= usize::MAX,
        ensures
            r == sum_counts(self.profiles@),
    {
        let mut total: usize = 0;
        let mut i: usize = 0;
        while i < self.profiles.len()
            invariant
                i <= self.profiles@.len(),
                sum_counts(self.profiles@) <= usize::MAX,
                total == sum_counts(self.profiles@.take(i as int)),
            decreases self.profiles@.len() - i,
        {
            proof {
                let t = self.profiles@.take(i + 1);
                assert(t.drop_last() == self.profiles@.take(i as int));
                lemma_sum_counts_prefix(self.profiles@, i + 1);
            }
            total = total + self.profiles[i].1;
            i += 1;
        }
        assert(self.profiles@.take(self.profiles@.len() as int) == self.profiles@);
        total
    }
}

impl UninstallOutcome {
    /// Whether any rule was removed, so that `karabiner.json` must be
    /// written back.
    pub fn removed_any(&self) -> (r: bool)
        ensures
            r == (sum_counts(self.profiles@) > 0),
    {
        let mut i: usize = 0;
        while i < self.profiles.len()
            invariant
                i <= self.profiles@.len(),
                sum_counts(self.profiles@.take(i as int)) == 0,
            decreases self.profiles@.len() - i,
        {
            proof {
                lemma_sum_counts_prefix(self.profiles@, i + 1);
                assert(self.profiles@.take(i + 1).drop_last() == self.profiles@.take(i as int));
            }
            if self.profiles[i].1 > 0 {
                return true;
            }
            i += 1;
        }
        assert(self.profiles@.take(self.profiles@.len() as int) == self.profiles@);
        false
    }
}

proof fn lemma_sum_counts_prefix(ps: Seq<(String, usize)>, n: int)
    requires
        0 <= n <= ps.len(),
    ensures
        sum_counts(ps.take(n)) <= sum_counts(ps),
    decreases ps.len() - n,
{
    if n < ps.len() {
        lemma_sum_counts_prefix(ps, n + 1);
        assert(ps.take(n + 1).drop_last() == ps.take(n));
    } else {
        assert(ps.take(n) == ps);
    }
}

// ---------------------------------------------------------------------------
// Shell command of the rule
// ---------------------------------------------------------------------------

pub open spec fn is_shell_safe(c: char) -> bool {
    ('a' <= c && c <= 'z') || ('A' <= c && c <= 'Z') || ('0' <= c && c <= '9') || c == '/' || c
        == '.' || c == '_' || c == '-' || c == '+' || c == ':' || c == '@' || c == '%'
}

/// `text` as it must be written in a `sh -c` command: unchanged when it is
/// made of safe characters only, otherwise single-quoted with every `'`
/// written as `'\''`.
pub open spec fn shell_quote_spec(text: Seq<char>) -> Seq<char> {
    if text.len() > 0 && forall|i: int| 0 <= i < text.len() ==> is_shell_safe(#[trigger] text[i]) {
        text
    } else {
        seq!['\''] + replace_all(text, seq!['\''], seq!['\'', '\\', '\'', '\'']) + seq!['\'']
    }
}

fn is_shell_safe_char(c: char) -> (r: bool)
    ensures
        r == is_shell_safe(c),
{
    ('a' <= c && c <= 'z') || ('A' <= c && c <= 'Z') || ('0' <= c && c <= '9') || c == '/' || c
        == '.' || c == '_' || c == '-' || c == '+' || c == ':' || c == '@' || c == '%'
}

/// Quote a path for use inside a `sh -c` command. Paths made only of safe
/// characters are returned as-is so the common case stays readable.
pub fn shell_quote(text: &str) -> (r: String)
    ensures
        r@ == shell_quote_spec(text@),
{
    let cs = chars_of(text);
    let mut all_safe = cs.len() > 0;
    let mut i: usize = 0;
    while i < cs.len()
        invariant
            i <= cs@.len(),
            all_safe == (cs@.len() > 0 && forall|k: int| 0 <= k < i ==> is_shell_safe(#[trigger] cs@[k])),
        decreases cs@.len() - i,
    {
        if !is_shell_safe_char(cs[i]) {
            all_safe = false;
        }
        i += 1;
    }
    if all_safe {
        return string_of(cs.as_slice());
    }
    let mut out: Vec<char> = Vec::new();
    out.push('\'');
    let pat: Vec<char> = vec!['\''];
    let rep: Vec<char> = vec!['\'', '\\', '\'', '\''];
    let body = replace_chars(&cs, &pat, &rep);
    let mut j: usize = 0;
    let ghost start = out@;
    while j < body.len()
        invariant
            j <= body@.len(),
            out@ == start + body@.take(j as int),
        decreases body@.len() - j,
    {
        out.push(body[j]);
        assert(body@.take(j + 1) == body@.take(j as int).push(body@[j as int]));
        j += 1;
    }
    assert(body@.take(body@.len() as int) == body@);
    out.push('\'');
    assert(pat@ =~= seq!['\'']);
    assert(rep@ =~= seq!['\'', '\\', '\'', '\'']);
    assert(out@ =~= seq!['\''] + body@ + seq!['\'']);
    string_of(out.as_slice())
}

pub open spec fn shell_command_spec(path: Seq<char>) -> Seq<char> {
    ". \""@ + ENV_FILE_SHELL_PATH@ + "\" 2>/dev/null; exec "@ + shell_quote_spec(path)
}

/// Build the `shell_command` that Karabiner runs for the rule.
pub fn build_shell_command(binary_path: &str) -> (r: Result<String, KarabinerError>)
    ensures
        r matches Ok(c) && c@ == shell_command_spec(binary_path@),
{
    let mut out: Vec<char> = Vec::new();
    push_str(&mut out, ". \"");
    push_str(&mut out, ENV_FILE_SHELL_PATH);
    push_str(&mut out, "\" 2>/dev/null; exec ");
    let q = shell_quote(binary_path);
    push_str(&mut out, q.as_str());
    Ok(string_of(out.as_slice()))
}

} // verus!

verus! {

// ---------------------------------------------------------------------------
// Homebrew paths
// ---------------------------------------------------------------------------

/// The named components of a `/`-separated path: empty and `.` pieces are
/// not components.
pub open spec fn path_names(segs: Seq<Seq<char>>) -> Seq<Seq<char>>
    decreases segs.len(),
{
    if segs.len() == 0 {
        seq![]
    } else {
        let acc = path_names(segs.drop_last());
        let g = segs.last();
        if g.len() > 0 && g != seq!['.'] {
            acc.push(g)
        } else {
            acc
        }
    }
}

pub open spec fn is_rooted(s: Seq<char>) -> bool {
    s.len() > 0 && s[0] == '/'
}

/// `<prefix>/Cellar/<formula>/<version>/<rest>` becomes
/// `<prefix>/opt/<formula>/<rest>`, with the path's components as
/// `Path::components` gives them; any other path is returned unchanged.
pub open spec fn stable_path_spec(s: Seq<char>) -> Seq<char> {
    let segs = split_on(s, '/');
    let names = path_names(segs);
    let lead: Seq<Seq<char>> = if !is_rooted(s) && segs[0] == seq!['.'] {
        seq![seq!['.']]
    } else {
        seq![]
    };
    match first_index(names, "Cellar"@) {
        Some(k) => if k + 3 < names.len() {
            (if is_rooted(s) {
                seq!['/']
            } else {
                seq![]
            }) + join_with(
                lead + names.take(k) + seq!["opt"@, names[k + 1]] + names.skip(k + 3),
                seq!['/'],
            )
        } else {
            s
        },
        None => s,
    }
}

fn append_items(dst: &mut Vec<Vec<char>>, src: &Vec<Vec<char>>, from: usize, to: usize)
    requires
        from <= to <= src@.len(),
    ensures
        seq_views(final(dst)@) == seq_views(old(dst)@) + seq_views(src@).subrange(
            from as int,
            to as int,
        ),
{
    let mut i = from;
    while i < to
        invariant
            from <= i <= to <= src@.len(),
            seq_views(dst@) == seq_views(old(dst)@) + seq_views(src@).subrange(
                from as int,
                i as int,
            ),
        decreases to - i,
    {
        let ghost prev = dst@;
        let item = slice_all(&src[i]);
        dst.push(item);
        assert(seq_views(dst@) =~= seq_views(prev).push(src@[i as int]@));
        assert(seq_views(src@).subrange(from as int, i + 1) =~= seq_views(src@).subrange(
            from as int,
            i as int,
        ).push(src@[i as int]@));
        i += 1;
    }
}

fn slice_all(v: &Vec<char>) -> (r: Vec<char>)
    ensures
        r@ == v@,
{
    let mut out: Vec<char> = Vec::new();
    let mut i: usize = 0;
    while i < v.len()
        invariant
            i <= v@.len(),
            out@ == v@.take(i as int),
        decreases v@.len() - i,
    {
        out.push(v[i]);
        assert(v@.take(i + 1) == v@.take(i as int).push(v@[i as int]));
        i += 1;
    }
    assert(v@.take(v@.len() as int) == v@);
    out
}

/// Map a Homebrew `Cellar` path to the version-independent `opt` path so the
/// rule survives `brew upgrade`. Other paths are returned unchanged.
///
/// `/opt/homebrew/Cellar/dedent-paste/0.3.2/bin/dedent-paste` becomes
/// `/opt/homebrew/opt/dedent-paste/bin/dedent-paste`.
pub fn stable_binary_path(path: &str) -> (r: String)
    ensures
        r@ == stable_path_spec(path@),
{
    let cs = chars_of(path);
    let segs = split_chars(&cs, '/');
    let ghost sv = seq_views(segs@);
    assert(sv == split_on(path@, '/'));
    let mut names: Vec<Vec<char>> = Vec::new();
    let mut i: usize = 0;
    while i < segs.len()
        invariant
            i <= segs@.len(),
            sv == seq_views(segs@),
            seq_views(names@) == path_names(sv.take(i as int)),
        decreases segs@.len() - i,
    {
        let g = &segs[i];
        let ghost prev = names@;
        proof {
            let t = sv.take(i + 1);
            assert(t.drop_last() == sv.take(i as int));
            assert(t.last() == g@);
        }
        if g.len() > 0 && !(g.len() == 1 && g[0] == '.') {
            assert(g@ != seq!['.']);
            names.push(slice_all(g));
            assert(seq_views(names@) =~= seq_views(prev).push(g@));
        } else {
            assert(g@.len() == 0 || g@ =~= seq!['.']);
        }
        i += 1;
    }
    assert(sv.take(sv.len() as int) == sv);
    let cellar: Vec<char> = vec!['C', 'e', 'l', 'l', 'a', 'r'];
    proof {
        reveal_strlit("Cellar");
        assert(cellar@ =~= "Cellar"@);
    }
    let ghost nv = seq_views(names@);
    let mut k: usize = 0;
    while k < names.len() && !chars_eq(&names[k], &cellar)
        invariant
            k <= names@.len(),
            nv == seq_views(names@),
            forall|j: int| 0 <= j < k ==> #[trigger] nv[j] != cellar@,
        decreases names@.len() - k,
    {
        k += 1;
    }
    proof {
        if k < names@.len() {
            assert(nv[k as int] == names@[k as int]@);
        }
        lemma_first_index_at(nv, cellar@, k as int);
    }
    if k == names.len() || names.len() - k <= 3 {
        return string_of(cs.as_slice());
    }
    let rooted = cs.len() > 0 && cs[0] == '/';
    let mut items: Vec<Vec<char>> = Vec::new();
    if !rooted && segs[0].len() == 1 && segs[0][0] == '.' {
        let dot: Vec<char> = vec!['.'];
        assert(dot@ =~= seq!['.']);
        items.push(dot);
        assert(sv[0] =~= seq!['.']);
        assert(seq_views(items@) =~= seq![seq!['.']]);
    } else {
        assert(!(!is_rooted(path@) && sv[0] == seq!['.']));
        assert(seq_views(items@) =~= Seq::<Seq<char>>::empty());
    }
    let ghost lead = seq_views(items@);
    append_items(&mut items, &names, 0, k);
    let ghost prev = items@;
    let opt: Vec<char> = vec!['o', 'p', 't'];
    proof {
        reveal_strlit("opt");
        assert(opt@ =~= "opt"@);
    }
    items.push(opt);
    assert(seq_views(items@) =~= seq_views(prev).push("opt"@));
    append_items(&mut items, &names, k + 1, k + 2);
    append_items(&mut items, &names, k + 3, names.len());
    proof {
        assert(seq_views(items@) =~= lead + nv.take(k as int) + seq!["opt"@, nv[k + 1]]
            + nv.skip(k + 3));
    }
    let joined = join_chars(&items, '/');
    let mut out: Vec<char> = Vec::new();
    if rooted {
        out.push('/');
    }
    let mut j: usize = 0;
    let ghost start = out@;
    while j < joined.len()
        invariant
            j <= joined@.len(),
            out@ == start + joined@.take(j as int),
        decreases joined@.len() - j,
    {
        out.push(joined[j]);
        assert(joined@.take(j + 1) == joined@.take(j as int).push(joined@[j as int]));
        j += 1;
    }
    assert(joined@.take(joined@.len() as int) == joined@);
    proof {
        assert(first_index(nv, "Cellar"@) == Some(k as int));
        assert(nv == path_names(split_on(path@, '/')));
        assert(k + 3 < nv.len());
        let spec_lead: Seq<Seq<char>> = if !is_rooted(path@) && split_on(path@, '/')[0] == seq![
            '.',
        ] {
            seq![seq!['.']]
        } else {
            seq![]
        };
        assert(lead == spec_lead);
        assert(rooted == is_rooted(path@));
        assert(out@ =~= (if rooted {
            seq!['/']
        } else {
            seq![]
        }) + joined@);
    }
    string_of(out.as_slice())
}

} // verus!

verus! {

// ---------------------------------------------------------------------------
// Recognising the rule
// ---------------------------------------------------------------------------

/// An event that runs a shell command mentioning the binary.
pub open spec fn event_runs_binary(e: Json) -> bool {
    match as_str(get(e, "shell_command"@)) {
        Some(c) => contains_seq(c, BINARY_KEYWORD@),
        None => false,
    }
}

/// Karabiner accepts `to` as either a single object or an array of objects.
pub open spec fn to_events(m: Json) -> Seq<Json> {
    match get(m, "to"@) {
        Some(Json::Array(es)) => es,
        Some(Json::Object(o)) => seq![Json::Object(o)],
        _ => seq![],
    }
}

pub open spec fn manipulator_runs_binary(m: Json) -> bool {
    exists|i: int| 0 <= i < to_events(m).len() && #[trigger] event_runs_binary(to_events(m)[i])
}

/// A rule belongs to dedent-paste when any of its manipulators runs a shell
/// command that mentions the binary; its description plays no part.
pub open spec fn targets_dedent_paste(rule: Json) -> bool {
    match get(rule, "manipulators"@) {
        Some(Json::Array(ms)) => exists|i: int|
            0 <= i < ms.len() && #[trigger] manipulator_runs_binary(ms[i]),
        _ => false,
    }
}

fn event_runs(e: &JsonValue) -> (r: bool)
    ensures
        r == event_runs_binary(model(*e)),
{
    match get_field(e, "shell_command") {
        Some(JsonValue::String(c)) => str_contains(c.as_str(), BINARY_KEYWORD),
        _ => false,
    }
}

fn manipulator_runs(m: &JsonValue) -> (r: bool)
    ensures
        r == manipulator_runs_binary(model(*m)),
{
    match get_field(m, "to") {
        Some(to) => {
            match to {
                JsonValue::Array(es) => {
                    proof {
                        crate::json::lemma_model_array(*es);
                    }
                    let ghost evs = to_events(model(*m));
                    assert(evs == model_items(es@));
                    let mut i: usize = 0;
                    while i < es.len()
                        invariant
                            i <= es@.len(),
                            evs == model_items(es@),
                            evs == to_events(model(*m)),
                            forall|k: int| 0 <= k < i ==> !#[trigger] event_runs_binary(evs[k]),
                        decreases es@.len() - i,
                    {
                        if event_runs(&es[i]) {
                            assert(event_runs_binary(to_events(model(*m))[i as int]));
                            return true;
                        }
                        i += 1;
                    }
                    false
                },
                JsonValue::Object(_) => {
                    let ghost evs = to_events(model(*m));
                    let r = event_runs(to);
                    proof {
                        if r {
                            assert(event_runs_binary(evs[0]));
                        }
                    }
                    r
                },
                _ => false,
            }
        },
        None => false,
    }
}

/// Whether `rule` runs dedent-paste (see `targets_dedent_paste`).
pub fn rule_targets_dedent_paste(rule: &JsonValue) -> (r: bool)
    ensures
        r == targets_dedent_paste(model(*rule)),
{
    match get_field(rule, "manipulators") {
        Some(JsonValue::Array(ms)) => {
            proof {
                crate::json::lemma_model_array(*ms);
            }
            let ghost mv = model_items(ms@);
            assert(get(model(*rule), "manipulators"@) == Some(Json::Array(mv)));
            let mut i: usize = 0;
            while i < ms.len()
                invariant
                    i <= ms@.len(),
                    mv == model_items(ms@),
                    get(model(*rule), "manipulators"@) == Some(Json::Array(mv)),
                    forall|k: int| 0 <= k < i ==> !#[trigger] manipulator_runs_binary(mv[k]),
                decreases ms@.len() - i,
            {
                if manipulator_runs(&ms[i]) {
                    assert(manipulator_runs_binary(mv[i as int]));
                    assert(exists|j: int| 0 <= j < mv.len() && #[trigger] manipulator_runs_binary(mv[j]));
                    assert(match get(model(*rule), "manipulators"@) { Some(Json::Array(ms)) => ms == mv, _ => false });
                    assert(targets_dedent_paste(model(*rule)));
                    return true;
                }
                i += 1;
            }
            false
        },
        _ => false,
    }
}

} // verus!

verus! {

// ---------------------------------------------------------------------------
// Profiles and their rules
// ---------------------------------------------------------------------------

pub open spec fn profile_name_spec(p: Json) -> Seq<char> {
    match as_str(get(p, "name"@)) {
        Some(n) => n,
        None => "(unnamed)"@,
    }
}

pub open spec fn is_selected(p: Json) -> bool {
    get(p, "selected"@) == Some(Json::Bool(true))
}

/// Index of the first profile marked as selected.
pub open spec fn first_selected(ps: Seq<Json>) -> Option<int>
    decreases ps.len(),
{
    if ps.len() == 0 {
        None
    } else if is_selected(ps[0]) {
        Some(0)
    } else {
        match first_selected(ps.drop_first()) {
            Some(i) => Some(i + 1),
            None => None,
        }
    }
}

/// The profile that receives the rule: the first selected one, or the first.
pub open spec fn selected_index(ps: Seq<Json>) -> int {
    match first_selected(ps) {
        Some(i) => i,
        None => 0,
    }
}

/// The `profiles` array of a configuration.
pub open spec fn profiles_of(cfg: Json) -> Option<Seq<Json>> {
    match get(cfg, "profiles"@) {
        Some(Json::Array(ps)) => Some(ps),
        _ => None,
    }
}

/// The configuration with its `profiles` array replaced.
pub open spec fn with_profiles(cfg: Json, ps: Seq<Json>) -> Json {
    match cfg {
        Json::Object(f) => Json::Object(set_field(f, "profiles"@, Json::Array(ps))),
        _ => cfg,
    }
}

/// The complex-modification rules of a profile; missing containers count as
/// empty, containers of the wrong kind are errors.
pub open spec fn profile_rules(p: Json) -> Result<Seq<Json>, Seq<char>> {
    match p {
        Json::Object(pf) => match field(pf, "complex_modifications"@) {
            None => Ok(seq![]),
            Some(Json::Object(cf)) => match field(cf, "rules"@) {
                None => Ok(seq![]),
                Some(Json::Array(rs)) => Ok(rs),
                Some(_) => Err("complex_modifications.rules is not an array"@),
            },
            Some(_) => Err("complex_modifications is not an object"@),
        },
        _ => Err("profile is not an object"@),
    }
}

/// The profile with `complex_modifications.rules` set to `rs`, creating the
/// containers that are missing.
pub open spec fn with_rules(p: Json, rs: Seq<Json>) -> Json {
    match p {
        Json::Object(pf) => Json::Object(
            set_field(
                pf,
                "complex_modifications"@,
                match field(pf, "complex_modifications"@) {
                    Some(Json::Object(cf)) => Json::Object(
                        set_field(cf, "rules"@, Json::Array(rs)),
                    ),
                    _ => Json::Object(seq![("rules"@, Json::Array(rs))]),
                },
            ),
        ),
        _ => p,
    }
}

pub open spec fn any_target(rs: Seq<Json>) -> bool {
    exists|i: int| 0 <= i < rs.len() && #[trigger] targets_dedent_paste(rs[i])
}

pub open spec fn count_targets(rs: Seq<Json>) -> nat
    decreases rs.len(),
{
    if rs.len() == 0 {
        0
    } else {
        count_targets(rs.drop_last()) + if targets_dedent_paste(rs.last()) {
            1nat
        } else {
            0nat
        }
    }
}

/// The first dedent-paste rule replaced by `rule`, the later ones dropped.
pub open spec fn replace_targets(rs: Seq<Json>, rule: Json) -> Seq<Json>
    decreases rs.len(),
{
    if rs.len() == 0 {
        seq![]
    } else {
        let acc = replace_targets(rs.drop_last(), rule);
        if !targets_dedent_paste(rs.last()) {
            acc.push(rs.last())
        } else if any_target(rs.drop_last()) {
            acc
        } else {
            acc.push(rule)
        }
    }
}

/// Rules after installing `rule`: existing dedent-paste rules are replaced
/// in place (the first) and dropped (the others); without one, `rule` is
/// appended.
pub open spec fn installed_rules(rs: Seq<Json>, rule: Json) -> Seq<Json> {
    if any_target(rs) {
        replace_targets(rs, rule)
    } else {
        rs.push(rule)
    }
}

/// Rules after uninstalling: every dedent-paste rule dropped.
pub open spec fn remove_targets(rs: Seq<Json>) -> Seq<Json>
    decreases rs.len(),
{
    if rs.len() == 0 {
        seq![]
    } else {
        let acc = remove_targets(rs.drop_last());
        if targets_dedent_paste(rs.last()) {
            acc
        } else {
            acc.push(rs.last())
        }
    }
}

/// What `install_rule` does to a configuration.
pub enum InstallModel {
    Installed { config: Json, profile: Seq<char>, replaced: nat },
    Failed(KarabinerFailure),
}

pub open spec fn install_spec(cfg: Json, rule: Json) -> InstallModel {
    match profiles_of(cfg) {
        None => InstallModel::Failed(
            KarabinerFailure::InvalidConfig("profiles is not an array"@),
        ),
        Some(ps) => if ps.len() == 0 {
            InstallModel::Failed(KarabinerFailure::NoProfiles)
        } else {
            let i = selected_index(ps);
            let p = ps[i];
            match profile_rules(p) {
                Err(m) => InstallModel::Failed(KarabinerFailure::InvalidConfig(m)),
                Ok(rs) => InstallModel::Installed {
                    config: with_profiles(cfg, ps.update(i, with_rules(p, installed_rules(rs, rule)))),
                    profile: profile_name_spec(p),
                    replaced: count_targets(rs),
                },
            }
        },
    }
}

/// The rules of a profile that uninstalling looks at: those under
/// `complex_modifications.rules` when that is an array.
pub open spec fn removable_rules(p: Json) -> Option<Seq<Json>> {
    match get(p, "complex_modifications"@) {
        Some(cm) => match get(cm, "rules"@) {
            Some(Json::Array(rs)) => Some(rs),
            _ => None,
        },
        None => None,
    }
}

pub open spec fn stripped_profile(p: Json) -> Json {
    match removable_rules(p) {
        Some(rs) => with_rules(p, remove_targets(rs)),
        None => p,
    }
}

/// `(profile name, rules removed)` for each profile that loses rules.
pub open spec fn removal_report(ps: Seq<Json>) -> Seq<(Seq<char>, nat)>
    decreases ps.len(),
{
    if ps.len() == 0 {
        seq![]
    } else {
        let acc = removal_report(ps.drop_last());
        match removable_rules(ps.last()) {
            Some(rs) => if count_targets(rs) > 0 {
                acc.push((profile_name_spec(ps.last()), count_targets(rs)))
            } else {
                acc
            },
            None => acc,
        }
    }
}

pub open spec fn strip_all(ps: Seq<Json>) -> Seq<Json> {
    Seq::new(ps.len(), |i: int| stripped_profile(ps[i]))
}

/// What `uninstall_rule` does to a configuration.
pub open spec fn uninstall_spec(cfg: Json) -> Result<(Json, Seq<(Seq<char>, nat)>), KarabinerFailure> {
    match profiles_of(cfg) {
        None => Err(KarabinerFailure::InvalidConfig("profiles is not an array"@)),
        Some(ps) => Ok((with_profiles(cfg, strip_all(ps)), removal_report(ps))),
    }
}

pub open spec fn report_view(ps: Seq<(String, usize)>) -> Seq<(Seq<char>, nat)> {
    Seq::new(ps.len(), |i: int| (ps[i].0@, ps[i].1 as nat))
}

} // verus!

verus! {

proof fn lemma_replace_without_targets(rs: Seq<Json>, rule: Json)
    requires
        !any_target(rs),
    ensures
        replace_targets(rs, rule) == rs,
    decreases rs.len(),
{
    if rs.len() > 0 {
        assert(!targets_dedent_paste(rs[rs.len() - 1]));
        if any_target(rs.drop_last()) {
            let i = choose|i: int| 0 <= i < rs.drop_last().len() && #[trigger] targets_dedent_paste(rs.drop_last()[i]);
            assert(targets_dedent_paste(rs[i]));
        }
        lemma_replace_without_targets(rs.drop_last(), rule);
        assert(rs.drop_last().push(rs.last()) == rs);
    }
}

proof fn lemma_count_bound(rs: Seq<Json>)
    ensures
        count_targets(rs) <= rs.len(),
    decreases rs.len(),
{
    if rs.len() > 0 {
        lemma_count_bound(rs.drop_last());
    }
}

proof fn lemma_any_target_step(rs: Seq<Json>, n: int)
    requires
        0 <= n < rs.len(),
    ensures
        any_target(rs.take(n + 1)) == (any_target(rs.take(n)) || targets_dedent_paste(rs[n])),
{
    let a = rs.take(n + 1);
    let b = rs.take(n);
    if any_target(a) {
        let i = choose|i: int| 0 <= i < a.len() && #[trigger] targets_dedent_paste(a[i]);
        if i < n {
            assert(targets_dedent_paste(b[i]));
        }
    }
    if any_target(b) {
        let i = choose|i: int| 0 <= i < b.len() && #[trigger] targets_dedent_paste(b[i]);
        assert(targets_dedent_paste(a[i]));
    }
    if targets_dedent_paste(rs[n]) {
        assert(targets_dedent_paste(a[n]));
    }
}

/// Installs `rule` into a rule list; also gives the number of dedent-paste
/// rules that were there.
fn install_into_rules(rs: Vec<JsonValue>, rule: JsonValue) -> (r: (Vec<JsonValue>, usize))
    ensures
        model_items(r.0@) == installed_rules(model_items(rs@), model(rule)),
        r.1 == count_targets(model_items(rs@)),
{
    let ghost orig = model_items(rs@);
    let ghost m_rule = model(rule);
    let n = rs.len();
    let mut rest = rs;
    let mut out: Vec<JsonValue> = Vec::new();
    let mut pending: Option<JsonValue> = Some(rule);
    let mut count: usize = 0;
    let mut i: usize = 0;
    proof {
        assert(orig.skip(0) == orig);
        assert(orig.take(0) =~= Seq::<Json>::empty());
        assert(model_items(out@) =~= Seq::<Json>::empty());
    }
    while rest.len() > 0
        invariant
            i <= orig.len(),
            orig.len() == n,
            model_items(rest@) == orig.skip(i as int),
            model_items(out@) == replace_targets(orig.take(i as int), m_rule),
            pending is Some == !any_target(orig.take(i as int)),
            pending matches Some(x) ==> model(x) == m_rule,
            count == count_targets(orig.take(i as int)),
            count <= i,
        decreases rest@.len(),
    {
        let ghost old_rest = rest@;
        let x = rest.remove(0);
        proof {
            assert(model_items(old_rest).len() == old_rest.len());
            assert(orig.skip(i as int).len() == orig.len() - i);
            assert(i < orig.len());
            assert(x == old_rest[0]);
            assert(model_items(old_rest)[0] == model(old_rest[0]));
            assert(orig.skip(i as int)[0] == orig[i as int]);
            assert(model(x) == orig[i as int]);
            assert forall|k: int| 0 <= k < rest@.len() implies model_items(rest@)[k] == orig.skip(i + 1)[k] by {
                assert(rest@[k] == old_rest[k + 1]);
                assert(model_items(old_rest)[k + 1] == model(old_rest[k + 1]));
                assert(orig.skip(i as int)[k + 1] == orig.skip(i + 1)[k]);
            }
            assert(model_items(rest@) =~= orig.skip(i + 1));
            let t = orig.take(i + 1);
            assert(t.drop_last() =~= orig.take(i as int));
            assert(t.last() == orig[i as int]);
            lemma_any_target_step(orig, i as int);
            lemma_count_bound(orig.take(i as int));
        }
        let ghost before = out@;
        if rule_targets_dedent_paste(&x) {
            count = count + 1;
            match pending.take() {
                Some(y) => {
                    out.push(y);
                    assert(model_items(out@) =~= model_items(before).push(m_rule));
                },
                None => {},
            }
        } else {
            out.push(x);
            assert(model_items(out@) =~= model_items(before).push(orig[i as int]));
        }
        i += 1;
    }
    proof {
        assert(orig.skip(i as int).len() == 0);
        assert(orig.take(i as int) =~= orig);
    }
    match pending {
        Some(y) => {
            let ghost before = out@;
            out.push(y);
            proof {
                lemma_replace_without_targets(orig, m_rule);
                assert(model_items(out@) =~= model_items(before).push(m_rule));
            }
        },
        None => {},
    }
    (out, count)
}

/// Drops every dedent-paste rule; also gives how many were dropped.
fn remove_from_rules(rs: Vec<JsonValue>) -> (r: (Vec<JsonValue>, usize))
    ensures
        model_items(r.0@) == remove_targets(model_items(rs@)),
        r.1 == count_targets(model_items(rs@)),
{
    let ghost orig = model_items(rs@);
    let n = rs.len();
    let mut rest = rs;
    let mut out: Vec<JsonValue> = Vec::new();
    let mut count: usize = 0;
    let mut i: usize = 0;
    proof {
        assert(orig.skip(0) == orig);
        assert(orig.take(0) =~= Seq::<Json>::empty());
        assert(model_items(out@) =~= Seq::<Json>::empty());
    }
    while rest.len() > 0
        invariant
            i <= orig.len(),
            orig.len() == n,
            model_items(rest@) == orig.skip(i as int),
            model_items(out@) == remove_targets(orig.take(i as int)),
            count == count_targets(orig.take(i as int)),
            count <= i,
        decreases rest@.len(),
    {
        let ghost old_rest = rest@;
        let x = rest.remove(0);
        proof {
            assert(model_items(old_rest).len() == old_rest.len());
            assert(orig.skip(i as int).len() == orig.len() - i);
            assert(i < orig.len());
            assert(x == old_rest[0]);
            assert(model_items(old_rest)[0] == model(old_rest[0]));
            assert(orig.skip(i as int)[0] == orig[i as int]);
            assert(model(x) == orig[i as int]);
            assert forall|k: int| 0 <= k < rest@.len() implies model_items(rest@)[k] == orig.skip(i + 1)[k] by {
                assert(rest@[k] == old_rest[k + 1]);
                assert(model_items(old_rest)[k + 1] == model(old_rest[k + 1]));
                assert(orig.skip(i as int)[k + 1] == orig.skip(i + 1)[k]);
            }
            assert(model_items(rest@) =~= orig.skip(i + 1));
            let t = orig.take(i + 1);
            assert(t.drop_last() =~= orig.take(i as int));
            assert(t.last() == orig[i as int]);
            lemma_count_bound(orig.take(i as int));
        }
        let ghost before = out@;
        if rule_targets_dedent_paste(&x) {
            count = count + 1;
        } else {
            out.push(x);
            assert(model_items(out@) =~= model_items(before).push(orig[i as int]));
        }
        i += 1;
    }
    proof {
        assert(orig.skip(i as int).len() == 0);
        assert(orig.take(i as int) =~= orig);
    }
    (out, count)
}

} // verus!

verus! {

/// A fresh `String` equal to `s`.
fn owned(s: &str) -> (r: String)
    ensures
        r@ == s@,
{
    let cs = chars_of(s);
    string_of(cs.as_slice())
}

proof fn lemma_fields_reinsert(
    old: Seq<(String, JsonValue)>,
    new: Seq<(String, JsonValue)>,
    i: int,
    v: JsonValue,
)
    requires
        0 <= i < old.len(),
        new == old.remove(i).insert(i, (old[i].0, v)),
    ensures
        model_fields(new) == model_fields(old).update(i, (old[i].0@, model(v))),
{
    assert(model_fields(new) =~= model_fields(old).update(i, (old[i].0@, model(v))));
}

proof fn lemma_fields_insert(old: Seq<(String, JsonValue)>, p: int, k: String, v: JsonValue)
    requires
        0 <= p <= old.len(),
    ensures
        model_fields(old.insert(p, (k, v))) == model_fields(old).insert(p, (k@, model(v))),
{
    assert(model_fields(old.insert(p, (k, v))) =~= model_fields(old).insert(p, (k@, model(v))));
}

proof fn lemma_items_reinsert(old: Seq<JsonValue>, new: Seq<JsonValue>, i: int, v: JsonValue)
    requires
        0 <= i < old.len(),
        new == old.remove(i).insert(i, v),
    ensures
        model_items(new) == model_items(old).update(i, model(v)),
{
    assert(model_items(new) =~= model_items(old).update(i, model(v)));
}

spec fn install_profile_post(profile: Json, rule: Json, r: (JsonValue, Result<usize, String>)) -> bool {
    match profile_rules(profile) {
        Ok(rs) => r.1 matches Ok(n) && n == count_targets(rs) && model(r.0) == with_rules(
            profile,
            installed_rules(rs, rule),
        ),
        Err(m) => r.1 matches Err(e) && e@ == m && model(r.0) == profile,
    }
}

/// Installs `rule` into one profile. On failure the profile comes back as it
/// was, with the message of the error.
fn install_into_profile(profile: JsonValue, rule: JsonValue) -> (r: (JsonValue, Result<usize, String>))
    ensures
        install_profile_post(model(profile), model(rule), r),
{
    match profile {
        JsonValue::Object(mut pf) => {
            let ghost pf0 = pf@;
            proof {
                crate::json::lemma_model_object(pf);
                crate::json::lemma_first_key(model_fields(pf@), "complex_modifications"@);
            }
            match find_key(&pf, "complex_modifications") {
                None => {
                    let empty: Vec<JsonValue> = Vec::new();
                    proof {
                        assert(model_items(empty@) =~= Seq::<Json>::empty());
                    }
                    let (rules, n) = install_into_rules(empty, rule);
                    let mut cf: Vec<(String, JsonValue)> = Vec::new();
                    let rk = owned("rules");
                    let rv = JsonValue::Array(rules);
                    proof {
                        crate::json::lemma_model_array(rules);
                    }
                    cf.push((rk, rv));
                    proof {
                        assert(model_fields(cf@) =~= seq![(rk@, model(rv))]);
                        crate::json::lemma_model_object(cf);
                    }
                    let ck = owned("complex_modifications");
                    let cv = JsonValue::Object(cf);
                    let cp = crate::json::key_position(&pf, "complex_modifications");
                    proof {
                        crate::json::lemma_insert_pos(model_fields(pf0), "complex_modifications"@);
                    }
                    pf.insert(cp, (ck, cv));
                    proof {
                        lemma_fields_insert(pf0, cp as int, ck, cv);
                        crate::json::lemma_model_object(pf);
                        let inst = installed_rules(Seq::<Json>::empty(), model(rule));
                        assert(model(rv) == Json::Array(inst));
                        assert(model_fields(cf@) =~= seq![("rules"@, Json::Array(inst))]);
                        assert(model(cv) == Json::Object(seq![("rules"@, Json::Array(inst))]));
                        assert(first_key(model_fields(pf0), "complex_modifications"@) is None);
                        assert(field(model_fields(pf0), "complex_modifications"@) is None);
                        assert(model(profile) == Json::Object(model_fields(pf0)));
                        assert(with_rules(model(profile), inst) == Json::Object(model_fields(pf0).insert(cp as int, ("complex_modifications"@, Json::Object(seq![("rules"@, Json::Array(inst))])))));
                        assert(model(JsonValue::Object(pf)) == Json::Object(model_fields(pf0).insert(cp as int, (ck@, model(cv)))));
                    }
                    let res = (JsonValue::Object(pf), Ok(n));
                    assert(profile_rules(model(profile)) matches Ok(rs) && rs == Seq::<Json>::empty());
                    assert(install_profile_post(model(profile), model(rule), res));
                    res
                },
                Some(ci) => {
                    let (ck, cv) = pf.remove(ci);
                    assert(model_fields(pf0)[ci as int].1 == model(cv));
                    match cv {
                        JsonValue::Object(mut cf) => {
                            let ghost cf0 = cf@;
                            proof {
                                crate::json::lemma_model_object(cf);
                                crate::json::lemma_first_key(model_fields(cf@), "rules"@);
                            }
                            match find_key(&cf, "rules") {
                                None => {
                                    let empty: Vec<JsonValue> = Vec::new();
                                    proof {
                                        assert(model_items(empty@) =~= Seq::<Json>::empty());
                                    }
                                    let (rules, n) = install_into_rules(empty, rule);
                                    let rk = owned("rules");
                                    let rv = JsonValue::Array(rules);
                                    proof {
                                        crate::json::lemma_model_array(rules);
                                    }
                                    let rp = crate::json::key_position(&cf, "rules");
                                    proof {
                                        crate::json::lemma_insert_pos(model_fields(cf0), "rules"@);
                                    }
                                    cf.insert(rp, (rk, rv));
                                    proof {
                                        lemma_fields_insert(cf0, rp as int, rk, rv);
                                    }
                                    let nv = JsonValue::Object(cf);
                                    proof {
                                        crate::json::lemma_model_object(cf);
                                    }
                                    pf.insert(ci, (ck, nv));
                                    proof {
                                        lemma_fields_reinsert(pf0, pf@, ci as int, nv);
                                        crate::json::lemma_model_object(pf);
                                    }
                                    assert(profile_rules(model(profile)) == Ok::<Seq<Json>, Seq<char>>(Seq::<Json>::empty()));
                                    assert(model(JsonValue::Object(pf)) == with_rules(model(profile), installed_rules(Seq::<Json>::empty(), model(rule))));
                                    let res = (JsonValue::Object(pf), Ok(n));
                                    assert(install_profile_post(model(profile), model(rule), res));
                                    res
                                },
                                Some(ri) => {
                                    let (rk, rv) = cf.remove(ri);
                                    assert(model_fields(cf0)[ri as int].1 == model(rv));
                                    match rv {
                                        JsonValue::Array(rs) => {
                                            proof {
                                                crate::json::lemma_model_array(rs);
                                            }
                                            let (rules, n) = install_into_rules(rs, rule);
                                            let nrv = JsonValue::Array(rules);
                                            proof {
                                                crate::json::lemma_model_array(rules);
                                            }
                                            cf.insert(ri, (rk, nrv));
                                            proof {
                                                lemma_fields_reinsert(cf0, cf@, ri as int, nrv);
                                            }
                                            let nv = JsonValue::Object(cf);
                                            proof {
                                                crate::json::lemma_model_object(cf);
                                            }
                                            pf.insert(ci, (ck, nv));
                                            proof {
                                                lemma_fields_reinsert(pf0, pf@, ci as int, nv);
                                                crate::json::lemma_model_object(pf);
                                            }
                                            assert(profile_rules(model(profile)) == Ok::<Seq<Json>, Seq<char>>(model_items(rs@)));
                                            assert(model(JsonValue::Object(pf)) == with_rules(model(profile), installed_rules(model_items(rs@), model(rule))));
                                            let res = (JsonValue::Object(pf), Ok(n));
                                    assert(install_profile_post(model(profile), model(rule), res));
                                    res
                                        },
                                        other => {
                                            proof {
                                                crate::json::lemma_model_kind(other);
                                            }
                                            cf.insert(ri, (rk, other));
                                            proof {
                                                assert(cf@ =~= cf0);
                                            }
                                            let nv = JsonValue::Object(cf);
                                            pf.insert(ci, (ck, nv));
                                            proof {
                                                crate::json::lemma_model_object(cf);
                                                lemma_fields_reinsert(pf0, pf@, ci as int, nv);
                                                assert(model_fields(pf@) =~= model_fields(pf0));
                                                crate::json::lemma_model_object(pf);
                                            }
                                            assert(model(JsonValue::Object(pf)) == model(profile));
                                            let res = (
                                                JsonValue::Object(pf),
                                                Err(owned("complex_modifications.rules is not an array")),
                                            );
                                            assert(install_profile_post(model(profile), model(rule), res));
                                            res
                                        },
                                    }
                                },
                            }
                        },
                        other => {
                            proof {
                                crate::json::lemma_model_kind(other);
                            }
                            pf.insert(ci, (ck, other));
                            proof {
                                assert(pf@ =~= pf0);
                                crate::json::lemma_model_object(pf);
                            }
                            let res = (
                                JsonValue::Object(pf),
                                Err(owned("complex_modifications is not an object")),
                            );
                            assert(install_profile_post(model(profile), model(rule), res));
                            res
                        },
                    }
                },
            }
        },
        other => {
            proof {
                crate::json::lemma_model_kind(other);
            }
            (other, Err(owned("profile is not an object")))
        },
    }
}

} // verus!

verus! {

proof fn lemma_first_selected_at(ps: Seq<Json>, j: int)
    requires
        0 <= j <= ps.len(),
        forall|i: int| 0 <= i < j ==> !#[trigger] is_selected(ps[i]),
        j == ps.len() || is_selected(ps[j]),
    ensures
        first_selected(ps) == if j == ps.len() { None } else { Some(j) },
    decreases j,
{
    if j > 0 {
        assert forall|i: int| 0 <= i < j - 1 implies !#[trigger] is_selected(ps.drop_first()[i]) by {
            assert(ps.drop_first()[i] == ps[i + 1]);
        }
        lemma_first_selected_at(ps.drop_first(), j - 1);
    }
}

fn profile_is_selected(p: &JsonValue) -> (r: bool)
    ensures
        r == is_selected(model(*p)),
{
    match get_field(p, "selected") {
        Some(v) => {
            proof {
                crate::json::lemma_model_kind(*v);
            }
            match v {
                JsonValue::Bool(b) => *b,
                _ => false,
            }
        },
        None => false,
    }
}

fn selected_profile_index(profiles: &Vec<JsonValue>) -> (r: usize)
    requires
        profiles@.len() > 0,
    ensures
        r == selected_index(model_items(profiles@)),
        r < profiles@.len(),
{
    let ghost ms = model_items(profiles@);
    let mut i: usize = 0;
    while i < profiles.len()
        invariant
            i <= profiles@.len(),
            ms == model_items(profiles@),
            forall|k: int| 0 <= k < i ==> !#[trigger] is_selected(ms[k]),
        decreases profiles@.len() - i,
    {
        if profile_is_selected(&profiles[i]) {
            proof {
                lemma_first_selected_at(ms, i as int);
            }
            return i;
        }
        i += 1;
    }
    proof {
        lemma_first_selected_at(ms, ms.len() as int);
    }
    0
}

fn profile_name(profile: &JsonValue) -> (r: String)
    ensures
        r@ == profile_name_spec(model(*profile)),
{
    match get_field(profile, "name") {
        Some(v) => {
            proof {
                crate::json::lemma_model_kind(*v);
            }
            match v {
                JsonValue::String(s) => s.clone(),
                _ => owned("(unnamed)"),
            }
        },
        None => owned("(unnamed)"),
    }
}

spec fn install_post(cfg: Json, rule: Json, r: (JsonValue, Result<InstallOutcome, KarabinerError>)) -> bool {
    match install_spec(cfg, rule) {
        InstallModel::Installed { config, profile, replaced } => r.1 matches Ok(o)
            && o.profile_name@ == profile && o.replaced == replaced && model(r.0) == config,
        InstallModel::Failed(f) => r.1 matches Err(e) && failure(e) == f && model(r.0) == cfg,
    }
}

fn profiles_error() -> (e: KarabinerError)
    ensures
        failure(e) == KarabinerFailure::InvalidConfig("profiles is not an array"@),
{
    KarabinerError::InvalidConfig(owned("profiles is not an array"))
}

fn install_owned(cfg: JsonValue, rule: JsonValue) -> (r: (JsonValue, Result<InstallOutcome, KarabinerError>))
    ensures
        install_post(model(cfg), model(rule), r),
{
    match cfg {
        JsonValue::Object(mut fields) => {
            let ghost f0 = fields@;
            proof {
                crate::json::lemma_model_object(fields);
                crate::json::lemma_first_key(model_fields(fields@), "profiles"@);
            }
            match find_key(&fields, "profiles") {
                None => {
                    let res = (JsonValue::Object(fields), Err(profiles_error()));
                    assert(install_post(model(cfg), model(rule), res));
                    res
                },
                Some(pi) => {
                    let (pk, pv) = fields.remove(pi);
                    assert(model_fields(f0)[pi as int].1 == model(pv));
                    proof {
                        crate::json::lemma_model_kind(pv);
                    }
                    match pv {
                        JsonValue::Array(mut profiles) => {
                            let ghost p0 = profiles@;
                            proof {
                                crate::json::lemma_model_array(profiles);
                            }
                            if profiles.len() == 0 {
                                let nv = JsonValue::Array(profiles);
                                fields.insert(pi, (pk, nv));
                                proof {
                                    crate::json::lemma_model_array(profiles);
                                    lemma_fields_reinsert(f0, fields@, pi as int, nv);
                                    assert(model_fields(fields@) =~= model_fields(f0));
                                    crate::json::lemma_model_object(fields);
                                }
                                let res = (JsonValue::Object(fields), Err(KarabinerError::NoProfiles));
                                assert(install_post(model(cfg), model(rule), res));
                                return res;
                            }
                            let si = selected_profile_index(&profiles);
                            let profile = profiles.remove(si);
                            assert(model_items(p0)[si as int] == model(profile));
                            let name = profile_name(&profile);
                            let ghost mp = model(profile);
                            let (newp, outcome) = install_into_profile(profile, rule);
                            let ghost mnew = model(newp);
                            profiles.insert(si, newp);
                            proof {
                                lemma_items_reinsert(p0, profiles@, si as int, newp);
                            }
                            let nv = JsonValue::Array(profiles);
                            proof {
                                crate::json::lemma_model_array(profiles);
                            }
                            fields.insert(pi, (pk, nv));
                            proof {
                                lemma_fields_reinsert(f0, fields@, pi as int, nv);
                                crate::json::lemma_model_object(fields);
                            }
                            match outcome {
                                Ok(n) => {
                                    let res = (
                                        JsonValue::Object(fields),
                                        Ok(InstallOutcome { profile_name: name, replaced: n }),
                                    );
                                    assert(install_post(model(cfg), model(rule), res));
                                    res
                                },
                                Err(m) => {
                                    proof {
                                        assert(model_items(profiles@) =~= model_items(p0));
                                        assert(model_fields(fields@) =~= model_fields(f0));
                                    }
                                    let res = (
                                        JsonValue::Object(fields),
                                        Err(KarabinerError::InvalidConfig(m)),
                                    );
                                    assert(install_post(model(cfg), model(rule), res));
                                    res
                                },
                            }
                        },
                        other => {
                            fields.insert(pi, (pk, other));
                            proof {
                                assert(fields@ =~= f0);
                                crate::json::lemma_model_object(fields);
                            }
                            let res = (JsonValue::Object(fields), Err(profiles_error()));
                            assert(install_post(model(cfg), model(rule), res));
                            res
                        },
                    }
                },
            }
        },
        other => {
            proof {
                crate::json::lemma_model_kind(other);
            }
            (other, Err(profiles_error()))
        },
    }
}

/// Install `rule` into the selected profile of `config` (Karabiner's
/// `karabiner.json`). Existing dedent-paste rules are replaced in place; when
/// none exist the rule is appended. On error `config` is left as it was.
pub fn install_rule(config: &mut JsonValue, rule: JsonValue) -> (r: Result<InstallOutcome, KarabinerError>)
    ensures
        match install_spec(model(*old(config)), model(rule)) {
            InstallModel::Installed { config: c, profile, replaced } => r matches Ok(o)
                && o.profile_name@ == profile && o.replaced == replaced && model(*final(config)) == c,
            InstallModel::Failed(f) => r matches Err(e) && failure(e) == f && model(*final(config))
                == model(*old(config)),
        },
{
    let mut cfg = JsonValue::Null;
    std::mem::swap(&mut cfg, config);
    let (new_cfg, r) = install_owned(cfg, rule);
    *config = new_cfg;
    r
}

} // verus!

verus! {

spec fn strip_profile_post(p: Json, r: (JsonValue, Option<usize>)) -> bool {
    match removable_rules(p) {
        Some(rs) => r.1 matches Some(n) && n == count_targets(rs) && model(r.0) == with_rules(
            p,
            remove_targets(rs),
        ),
        None => r.1 is None && model(r.0) == p,
    }
}

/// Drops the dedent-paste rules of one profile; also gives how many were
/// dropped, or nothing when the profile has no rule list to look at.
fn strip_profile(profile: JsonValue) -> (r: (JsonValue, Option<usize>))
    ensures
        strip_profile_post(model(profile), r),
{
    match profile {
        JsonValue::Object(mut pf) => {
            let ghost pf0 = pf@;
            proof {
                crate::json::lemma_model_object(pf);
                crate::json::lemma_first_key(model_fields(pf@), "complex_modifications"@);
            }
            match find_key(&pf, "complex_modifications") {
                None => (JsonValue::Object(pf), None),
                Some(ci) => {
                    let (ck, cv) = pf.remove(ci);
                    assert(model_fields(pf0)[ci as int].1 == model(cv));
                    proof {
                        crate::json::lemma_model_kind(cv);
                    }
                    match cv {
                        JsonValue::Object(mut cf) => {
                            let ghost cf0 = cf@;
                            proof {
                                crate::json::lemma_model_object(cf);
                                crate::json::lemma_first_key(model_fields(cf@), "rules"@);
                            }
                            match find_key(&cf, "rules") {
                                None => {
                                    pf.insert(ci, (ck, JsonValue::Object(cf)));
                                    proof {
                                        assert(pf@ =~= pf0);
                                    }
                                    (JsonValue::Object(pf), None)
                                },
                                Some(ri) => {
                                    let (rk, rv) = cf.remove(ri);
                                    assert(model_fields(cf0)[ri as int].1 == model(rv));
                                    proof {
                                        crate::json::lemma_model_kind(rv);
                                    }
                                    match rv {
                                        JsonValue::Array(rs) => {
                                            proof {
                                                crate::json::lemma_model_array(rs);
                                            }
                                            let (rules, n) = remove_from_rules(rs);
                                            let nrv = JsonValue::Array(rules);
                                            proof {
                                                crate::json::lemma_model_array(rules);
                                            }
                                            cf.insert(ri, (rk, nrv));
                                            proof {
                                                lemma_fields_reinsert(cf0, cf@, ri as int, nrv);
                                            }
                                            let nv = JsonValue::Object(cf);
                                            proof {
                                                crate::json::lemma_model_object(cf);
                                            }
                                            pf.insert(ci, (ck, nv));
                                            proof {
                                                lemma_fields_reinsert(pf0, pf@, ci as int, nv);
                                                crate::json::lemma_model_object(pf);
                                            }
                                            (JsonValue::Object(pf), Some(n))
                                        },
                                        other => {
                                            cf.insert(ri, (rk, other));
                                            proof {
                                                assert(cf@ =~= cf0);
                                            }
                                            let nv = JsonValue::Object(cf);
                                            proof {
                                                crate::json::lemma_model_object(cf);
                                            }
                                            pf.insert(ci, (ck, nv));
                                            proof {
                                                lemma_fields_reinsert(pf0, pf@, ci as int, nv);
                                                assert(model_fields(pf@) =~= model_fields(pf0));
                                                crate::json::lemma_model_object(pf);
                                            }
                                            (JsonValue::Object(pf), None)
                                        },
                                    }
                                },
                            }
                        },
                        other => {
                            pf.insert(ci, (ck, other));
                            proof {
                                assert(pf@ =~= pf0);
                            }
                            (JsonValue::Object(pf), None)
                        },
                    }
                },
            }
        },
        other => {
            proof {
                crate::json::lemma_model_kind(other);
            }
            (other, None)
        },
    }
}

spec fn uninstall_post(cfg: Json, r: (JsonValue, Result<UninstallOutcome, KarabinerError>)) -> bool {
    match uninstall_spec(cfg) {
        Ok((c, report)) => r.1 matches Ok(o) && report_view(o.profiles@) == report && model(r.0)
            == c,
        Err(f) => r.1 matches Err(e) && failure(e) == f && model(r.0) == cfg,
    }
}

/// Strips every profile in turn, collecting the report.
fn strip_profiles(profiles: Vec<JsonValue>) -> (r: (Vec<JsonValue>, Vec<(String, usize)>))
    ensures
        model_items(r.0@) == strip_all(model_items(profiles@)),
        report_view(r.1@) == removal_report(model_items(profiles@)),
{
    let ghost orig = model_items(profiles@);
    let mut rest = profiles;
    let mut out: Vec<JsonValue> = Vec::new();
    let mut report: Vec<(String, usize)> = Vec::new();
    let ghost mut i: int = 0;
    proof {
        assert(orig.skip(0) == orig);
        assert(model_items(out@) =~= strip_all(orig.take(0)));
        assert(report_view(report@) =~= removal_report(orig.take(0)));
    }
    while rest.len() > 0
        invariant
            0 <= i <= orig.len(),
            model_items(rest@) == orig.skip(i),
            model_items(out@) == strip_all(orig.take(i)),
            report_view(report@) == removal_report(orig.take(i)),
        decreases rest@.len(),
    {
        let ghost old_rest = rest@;
        let p = rest.remove(0);
        proof {
            assert(orig.skip(i).len() == orig.len() - i);
            assert(model_items(old_rest)[0] == model(old_rest[0]));
            assert(model(p) == orig[i]);
            assert forall|k: int| 0 <= k < rest@.len() implies model_items(rest@)[k] == orig.skip(
                i + 1,
            )[k] by {
                assert(rest@[k] == old_rest[k + 1]);
                assert(model_items(old_rest)[k + 1] == model(old_rest[k + 1]));
            }
            assert(model_items(rest@) =~= orig.skip(i + 1));
        }
        let name = profile_name(&p);
        let (np, removed) = strip_profile(p);
        let ghost out0 = out@;
        let ghost rep0 = report@;
        out.push(np);
        match removed {
            Some(n) => {
                if n > 0 {
                    report.push((name, n));
                    assert(report_view(report@) =~= report_view(rep0).push((name@, n as nat)));
                }
            },
            None => {},
        }
        proof {
            let t = orig.take(i + 1);
            assert(t.drop_last() =~= orig.take(i));
            assert(t.last() == orig[i]);
            assert(model_items(out@) =~= model_items(out0).push(model(np)));
            assert(strip_all(t) =~= strip_all(orig.take(i)).push(stripped_profile(orig[i])));
            i = i + 1;
        }
    }
    proof {
        assert(orig.skip(i).len() == 0);
        assert(orig.take(i) =~= orig);
    }
    (out, report)
}

fn uninstall_owned(cfg: JsonValue) -> (r: (JsonValue, Result<UninstallOutcome, KarabinerError>))
    ensures
        uninstall_post(model(cfg), r),
{
    match cfg {
        JsonValue::Object(mut fields) => {
            let ghost f0 = fields@;
            proof {
                crate::json::lemma_model_object(fields);
                crate::json::lemma_first_key(model_fields(fields@), "profiles"@);
            }
            match find_key(&fields, "profiles") {
                None => (JsonValue::Object(fields), Err(profiles_error())),
                Some(pi) => {
                    let (pk, pv) = fields.remove(pi);
                    assert(model_fields(f0)[pi as int].1 == model(pv));
                    proof {
                        crate::json::lemma_model_kind(pv);
                    }
                    match pv {
                        JsonValue::Array(profiles) => {
                            proof {
                                crate::json::lemma_model_array(profiles);
                            }
                            let (stripped, report) = strip_profiles(profiles);
                            let nv = JsonValue::Array(stripped);
                            proof {
                                crate::json::lemma_model_array(stripped);
                            }
                            fields.insert(pi, (pk, nv));
                            proof {
                                lemma_fields_reinsert(f0, fields@, pi as int, nv);
                                crate::json::lemma_model_object(fields);
                            }
                            (JsonValue::Object(fields), Ok(UninstallOutcome { profiles: report }))
                        },
                        other => {
                            fields.insert(pi, (pk, other));
                            proof {
                                assert(fields@ =~= f0);
                            }
                            (JsonValue::Object(fields), Err(profiles_error()))
                        },
                    }
                },
            }
        },
        other => {
            proof {
                crate::json::lemma_model_kind(other);
            }
            (other, Err(profiles_error()))
        },
    }
}

/// Remove every dedent-paste rule from every profile in `config`, reporting
/// `(profile name, rules removed)` for each profile that lost rules. On error
/// `config` is left as it was.
pub fn uninstall_rule(config: &mut JsonValue) -> (r: Result<UninstallOutcome, KarabinerError>)
    ensures
        match uninstall_spec(model(*old(config))) {
            Ok((c, report)) => r matches Ok(o) && report_view(o.profiles@) == report && model(
                *final(config),
            ) == c,
            Err(f) => r matches Err(e) && failure(e) == f && model(*final(config)) == model(
                *old(config),
            ),
        },
{
    let mut cfg = JsonValue::Null;
    std::mem::swap(&mut cfg, config);
    let (new_cfg, r) = uninstall_owned(cfg);
    *config = new_cfg;
    r
}

} // verus!

verus! {

// ---------------------------------------------------------------------------
// Building the rule from the bundled template
// ---------------------------------------------------------------------------

/// The rule template shipped with the program (the complex modification
/// Karabiner-Elements imports). Its `shell_command` is rewritten to the
/// actual install path.
pub const RULE_TEMPLATE: &'static str = "{
  \"title\": \"Dedent paste\",
  \"rules\": [
    {
      \"description\": \"Option+V：執行 dedent-paste\",
      \"manipulators\": [
        {
          \"from\": {
            \"key_code\": \"v\",
            \"modifiers\": { \"mandatory\": [\"left_option\"] }
          },
          \"to\": [
            {
              \"shell_command\": \"$HOME/.local/bin/dedent-paste\"
            }
          ],
          \"type\": \"basic\"
        }
      ]
    }
  ]
}
";

/// An event object that has a `shell_command` member.
pub open spec fn has_command(e: Json) -> bool {
    e matches Json::Object(f) && first_key(f, "shell_command"@) is Some
}

/// The event with its `shell_command` set to `cmd`, when it has one.
pub open spec fn point_event(e: Json, cmd: Seq<char>) -> Json {
    match e {
        Json::Object(f) => if first_key(f, "shell_command"@) is Some {
            Json::Object(set_field(f, "shell_command"@, Json::Str(cmd)))
        } else {
            e
        },
        _ => e,
    }
}

pub open spec fn point_events(es: Seq<Json>, cmd: Seq<char>) -> Seq<Json> {
    Seq::new(es.len(), |i: int| point_event(es[i], cmd))
}

/// The manipulator with every `to` event's shell command set to `cmd`.
pub open spec fn point_manipulator(m: Json, cmd: Seq<char>) -> Json {
    match m {
        Json::Object(f) => match field(f, "to"@) {
            Some(Json::Array(es)) => Json::Object(
                set_field(f, "to"@, Json::Array(point_events(es, cmd))),
            ),
            Some(Json::Object(o)) => Json::Object(
                set_field(f, "to"@, point_event(Json::Object(o), cmd)),
            ),
            _ => m,
        },
        _ => m,
    }
}

pub open spec fn manipulator_has_command(m: Json) -> bool {
    exists|i: int| 0 <= i < to_events(m).len() && #[trigger] has_command(to_events(m)[i])
}

pub open spec fn some_manipulator_has_command(ms: Seq<Json>) -> bool {
    exists|i: int| 0 <= i < ms.len() && #[trigger] manipulator_has_command(ms[i])
}

pub open spec fn point_manipulators(ms: Seq<Json>, cmd: Seq<char>) -> Seq<Json> {
    Seq::new(ms.len(), |i: int| point_manipulator(ms[i], cmd))
}

/// `(title, rule)` taken from a parsed template, with every shell command
/// set to `cmd`.
pub open spec fn rule_from_template_spec(t: Json, cmd: Seq<char>) -> Result<
    (Seq<char>, Json),
    KarabinerFailure,
> {
    let title = match as_str(get(t, "title"@)) {
        Some(s) => s,
        None => "Dedent paste"@,
    };
    match get(t, "rules"@) {
        Some(Json::Array(rs)) => if rs.len() == 0 {
            Err(KarabinerFailure::InvalidTemplate("missing rules[0]"@))
        } else {
            match rs[0] {
                Json::Object(rf) => match field(rf, "manipulators"@) {
                    Some(Json::Array(ms)) => if some_manipulator_has_command(ms) {
                        Ok(
                            (
                                title,
                                Json::Object(
                                    set_field(
                                        rf,
                                        "manipulators"@,
                                        Json::Array(point_manipulators(ms, cmd)),
                                    ),
                                ),
                            ),
                        )
                    } else {
                        Err(KarabinerFailure::InvalidTemplate("no shell_command found in template"@))
                    },
                    _ => Err(KarabinerFailure::InvalidTemplate("missing manipulators"@)),
                },
                _ => Err(KarabinerFailure::InvalidTemplate("missing manipulators"@)),
            }
        },
        _ => Err(KarabinerFailure::InvalidTemplate("missing rules[0]"@)),
    }
}

/// After taking the front of a list that models `orig` from position `i`,
/// the front models `orig[i]` and the rest models `orig` from `i + 1`.
proof fn lemma_take_front(old_rest: Seq<JsonValue>, rest: Seq<JsonValue>, orig: Seq<Json>, i: int)
    requires
        0 <= i < orig.len(),
        model_items(old_rest) == orig.skip(i),
        rest == old_rest.remove(0),
    ensures
        model(old_rest[0]) == orig[i],
        model_items(rest) == orig.skip(i + 1),
{
    assert(orig.skip(i).len() == orig.len() - i);
    assert(model_items(old_rest)[0] == model(old_rest[0]));
    assert forall|k: int| 0 <= k < rest.len() implies model_items(rest)[k] == orig.skip(i + 1)[k] by {
        assert(rest[k] == old_rest[k + 1]);
        assert(model_items(old_rest)[k + 1] == model(old_rest[k + 1]));
    }
    assert(model_items(rest) =~= orig.skip(i + 1));
}

fn point_event_at(e: JsonValue, cmd: &String) -> (r: (JsonValue, bool))
    ensures
        model(r.0) == point_event(model(e), cmd@),
        r.1 == has_command(model(e)),
{
    match e {
        JsonValue::Object(mut f) => {
            let ghost f0 = f@;
            proof {
                crate::json::lemma_model_object(f);
                crate::json::lemma_first_key(model_fields(f@), "shell_command"@);
            }
            match find_key(&f, "shell_command") {
                Some(i) => {
                    let (k, _) = f.remove(i);
                    let nv = JsonValue::String(cmd.clone());
                    f.insert(i, (k, nv));
                    proof {
                        lemma_fields_reinsert(f0, f@, i as int, nv);
                        crate::json::lemma_model_object(f);
                    }
                    (JsonValue::Object(f), true)
                },
                None => (JsonValue::Object(f), false),
            }
        },
        other => {
            proof {
                crate::json::lemma_model_kind(other);
            }
            (other, false)
        },
    }
}

fn point_event_list(es: Vec<JsonValue>, cmd: &String) -> (r: (Vec<JsonValue>, bool))
    ensures
        model_items(r.0@) == point_events(model_items(es@), cmd@),
        r.1 == exists|k: int|
            0 <= k < es@.len() && #[trigger] has_command(model_items(es@)[k]),
{
    let ghost orig = model_items(es@);
    let mut rest = es;
    let mut out: Vec<JsonValue> = Vec::new();
    let mut any = false;
    let ghost mut i: int = 0;
    proof {
        assert(orig.skip(0) == orig);
    }
    while rest.len() > 0
        invariant
            0 <= i <= orig.len(),
            model_items(rest@) == orig.skip(i),
            rest@.len() == orig.len() - i,
            model_items(out@) == point_events(orig.take(i), cmd@),
            any == exists|k: int| 0 <= k < i && #[trigger] has_command(orig[k]),
        decreases rest@.len(),
    {
        let ghost old_rest = rest@;
        let x = rest.remove(0);
        proof {
            lemma_take_front(old_rest, rest@, orig, i);
        }
        let (y, hit) = point_event_at(x, cmd);
        let ghost out0 = out@;
        out.push(y);
        any = any || hit;
        proof {
            assert(model_items(out@) =~= point_events(orig.take(i + 1), cmd@)) by {
                assert(model_items(out@) =~= model_items(out0).push(model(y)));
                assert(orig.take(i + 1) =~= orig.take(i).push(orig[i]));
            }
            if hit {
                assert(has_command(orig[i]));
            }
            i = i + 1;
        }
    }
    proof {
        assert(orig.skip(i).len() == 0);
        assert(orig.take(i) =~= orig);
    }
    (out, any)
}

fn point_manipulator_at(m: JsonValue, cmd: &String) -> (r: (JsonValue, bool))
    ensures
        model(r.0) == point_manipulator(model(m), cmd@),
        r.1 == manipulator_has_command(model(m)),
{
    match m {
        JsonValue::Object(mut f) => {
            let ghost f0 = f@;
            proof {
                crate::json::lemma_model_object(f);
                crate::json::lemma_first_key(model_fields(f@), "to"@);
            }
            match find_key(&f, "to") {
                Some(ti) => {
                    let (tk, tv) = f.remove(ti);
                    assert(model_fields(f0)[ti as int].1 == model(tv));
                    proof {
                        crate::json::lemma_model_kind(tv);
                    }
                    match tv {
                        JsonValue::Array(es) => {
                            proof {
                                crate::json::lemma_model_array(es);
                            }
                            let (nes, any) = point_event_list(es, cmd);
                            let nv = JsonValue::Array(nes);
                            proof {
                                crate::json::lemma_model_array(nes);
                            }
                            f.insert(ti, (tk, nv));
                            proof {
                                lemma_fields_reinsert(f0, f@, ti as int, nv);
                                crate::json::lemma_model_object(f);
                                assert(to_events(model(m)) == model_items(es@));
                            }
                            (JsonValue::Object(f), any)
                        },
                        JsonValue::Object(of) => {
                            let ghost ev = model(JsonValue::Object(of));
                            proof {
                                crate::json::lemma_model_object(of);
                            }
                            let (ne, hit) = point_event_at(JsonValue::Object(of), cmd);
                            f.insert(ti, (tk, ne));
                            proof {
                                lemma_fields_reinsert(f0, f@, ti as int, ne);
                                crate::json::lemma_model_object(f);
                                assert(to_events(model(m)) == seq![ev]);
                                if hit {
                                    assert(has_command(to_events(model(m))[0]));
                                }
                            }
                            (JsonValue::Object(f), hit)
                        },
                        other => {
                            f.insert(ti, (tk, other));
                            proof {
                                assert(f@ =~= f0);
                            }
                            (JsonValue::Object(f), false)
                        },
                    }
                },
                None => (JsonValue::Object(f), false),
            }
        },
        other => {
            proof {
                crate::json::lemma_model_kind(other);
            }
            (other, false)
        },
    }
}

fn point_manipulator_list(ms: Vec<JsonValue>, cmd: &String) -> (r: (Vec<JsonValue>, bool))
    ensures
        model_items(r.0@) == point_manipulators(model_items(ms@), cmd@),
        r.1 == some_manipulator_has_command(model_items(ms@)),
{
    let ghost orig = model_items(ms@);
    let mut rest = ms;
    let mut out: Vec<JsonValue> = Vec::new();
    let mut any = false;
    let ghost mut i: int = 0;
    proof {
        assert(orig.skip(0) == orig);
    }
    while rest.len() > 0
        invariant
            0 <= i <= orig.len(),
            model_items(rest@) == orig.skip(i),
            rest@.len() == orig.len() - i,
            model_items(out@) == point_manipulators(orig.take(i), cmd@),
            any == exists|k: int| 0 <= k < i && #[trigger] manipulator_has_command(orig[k]),
        decreases rest@.len(),
    {
        let ghost old_rest = rest@;
        let x = rest.remove(0);
        proof {
            lemma_take_front(old_rest, rest@, orig, i);
        }
        let (y, hit) = point_manipulator_at(x, cmd);
        let ghost out0 = out@;
        out.push(y);
        any = any || hit;
        proof {
            assert(model_items(out@) =~= point_manipulators(orig.take(i + 1), cmd@)) by {
                assert(model_items(out@) =~= model_items(out0).push(model(y)));
                assert(orig.take(i + 1) =~= orig.take(i).push(orig[i]));
            }
            if hit {
                assert(manipulator_has_command(orig[i]));
            }
            i = i + 1;
        }
    }
    proof {
        assert(orig.skip(i).len() == 0);
        assert(orig.take(i) =~= orig);
    }
    (out, any)
}

fn invalid_template(detail: &str) -> (e: KarabinerError)
    ensures
        failure(e) == KarabinerFailure::InvalidTemplate(detail@),
{
    KarabinerError::InvalidTemplate(owned(detail))
}

/// Take `(title, rule)` from a parsed rule template and point every
/// `shell_command` of the rule at `binary_path`.
pub fn rule_from_template(template: JsonValue, binary_path: &str) -> (r: Result<
    (String, JsonValue),
    KarabinerError,
>)
    ensures
        match rule_from_template_spec(model(template), shell_command_spec(binary_path@)) {
            Ok((title, rule)) => r matches Ok((t, v)) && t@ == title && model(v) == rule,
            Err(f) => r matches Err(e) && failure(e) == f,
        },
{
    let title = match get_field(&template, "title") {
        Some(JsonValue::String(s)) => s.clone(),
        _ => owned("Dedent paste"),
    };
    let command = match build_shell_command(binary_path) {
        Ok(c) => c,
        Err(e) => return Err(e),
    };
    match template {
        JsonValue::Object(mut tf) => {
            let ghost tf0 = tf@;
            proof {
                crate::json::lemma_model_object(tf);
                crate::json::lemma_first_key(model_fields(tf@), "rules"@);
            }
            let rules = match find_key(&tf, "rules") {
                Some(ri) => {
                    let (_, v) = tf.remove(ri);
                    assert(model_fields(tf0)[ri as int].1 == model(v));
                    v
                },
                None => return Err(invalid_template("missing rules[0]")),
            };
            proof {
                crate::json::lemma_model_kind(rules);
            }
            let mut rules = match rules {
                JsonValue::Array(rs) => rs,
                _ => return Err(invalid_template("missing rules[0]")),
            };
            proof {
                crate::json::lemma_model_array(rules);
            }
            if rules.len() == 0 {
                return Err(invalid_template("missing rules[0]"));
            }
            let first = rules.remove(0);
            assert(model_items(rules@.insert(0, first))[0] == model(first));
            proof {
                crate::json::lemma_model_kind(first);
            }
            match first {
                JsonValue::Object(mut rf) => {
                    let ghost rf0 = rf@;
                    proof {
                        crate::json::lemma_model_object(rf);
                        crate::json::lemma_first_key(model_fields(rf@), "manipulators"@);
                    }
                    match find_key(&rf, "manipulators") {
                        Some(mi) => {
                            let (mk, mv) = rf.remove(mi);
                            assert(model_fields(rf0)[mi as int].1 == model(mv));
                            proof {
                                crate::json::lemma_model_kind(mv);
                            }
                            match mv {
                                JsonValue::Array(ms) => {
                                    proof {
                                        crate::json::lemma_model_array(ms);
                                    }
                                    let (nms, any) = point_manipulator_list(ms, &command);
                                    if !any {
                                        return Err(
                                            invalid_template("no shell_command found in template"),
                                        );
                                    }
                                    let nv = JsonValue::Array(nms);
                                    proof {
                                        crate::json::lemma_model_array(nms);
                                    }
                                    rf.insert(mi, (mk, nv));
                                    proof {
                                        lemma_fields_reinsert(rf0, rf@, mi as int, nv);
                                        crate::json::lemma_model_object(rf);
                                    }
                                    Ok((title, JsonValue::Object(rf)))
                                },
                                _ => Err(invalid_template("missing manipulators")),
                            }
                        },
                        None => Err(invalid_template("missing manipulators")),
                    }
                },
                _ => Err(invalid_template("missing manipulators")),
            }
        },
        _ => Err(invalid_template("missing rules[0]")),
    }
}

/// Parse the bundled template and return `(title, rule)` with every
/// `shell_command` pointed at `binary_path`.
pub fn build_rule(binary_path: &str) -> (r: Result<(String, JsonValue), KarabinerError>)
    ensures
        match json_text_parse(RULE_TEMPLATE@) {
            None => r matches Err(KarabinerError::InvalidTemplate(_)),
            Some(t) => match rule_from_template_spec(t, shell_command_spec(binary_path@)) {
                Ok((title, rule)) => r matches Ok((s, v)) && s@ == title && model(v) == rule,
                Err(f) => r matches Err(e) && failure(e) == f,
            },
        },
{
    match parse_json(RULE_TEMPLATE) {
        Ok(template) => rule_from_template(template, binary_path),
        Err(detail) => Err(KarabinerError::InvalidTemplate(detail)),
    }
}

/// The standalone complex-modification asset: `{"title": .., "rules": [rule]}`.
pub fn build_asset(title: &str, rule: &JsonValue) -> (r: JsonValue)
    ensures
        model(r) == Json::Object(
            seq![("title"@, Json::Str(title@)), ("rules"@, Json::Array(seq![model(*rule)]))],
        ),
{
    let mut rules: Vec<JsonValue> = Vec::new();
    rules.push(clone_json(rule));
    let mut fields: Vec<(String, JsonValue)> = Vec::new();
    fields.push((owned("title"), JsonValue::String(owned(title))));
    fields.push((owned("rules"), JsonValue::Array(rules)));
    proof {
        crate::json::lemma_model_array(rules);
        crate::json::lemma_model_object(fields);
        assert(model_items(rules@) =~= seq![model(*rule)]);
        assert(model_fields(fields@) =~= seq![
            ("title"@, Json::Str(title@)),
            ("rules"@, Json::Array(seq![model(*rule)])),
        ]);
    }
    JsonValue::Object(fields)
}

} // verus!

verus! {

// ---------------------------------------------------------------------------
// Writing karabiner.json
// ---------------------------------------------------------------------------

pub open spec fn space_pred() -> spec_fn(char) -> bool {
    |c: char| c == ' '
}

/// One line with its leading spaces doubled, ended by `"\n"`.
pub open spec fn reindent_line(b: Seq<char>) -> Seq<char> {
    let n = prefix_len(b, space_pred());
    Seq::new(2 * n, |i: int| ' ') + b.skip(n as int) + seq!['\n']
}

/// The lines of `ps` (without their line endings) re-indented one by one.
pub open spec fn reindent_lines(ps: Seq<Seq<char>>) -> Seq<char>
    decreases ps.len(),
{
    if ps.len() == 0 {
        seq![]
    } else {
        reindent_lines(ps.drop_last()) + reindent_line(body_of(ps.last()))
    }
}

/// Two-space JSON text turned into the four-space form Karabiner-Elements
/// writes: every line's leading spaces doubled, every line ended by `"\n"`.
pub open spec fn four_space_text(text: Seq<char>) -> Seq<char> {
    reindent_lines(pieces(text))
}

proof fn lemma_space_prefix_step(b: Seq<char>, j: int)
    requires
        0 <= j < b.len(),
        forall|k: int| 0 <= k < j ==> b[k] == ' ',
    ensures
        prefix_len(b, space_pred()) >= j,
        b[j] != ' ' ==> prefix_len(b, space_pred()) == j,
    decreases j,
{
    if j > 0 {
        assert forall|k: int| 0 <= k < j - 1 implies b.drop_first()[k] == ' ' by {
            assert(b.drop_first()[k] == b[k + 1]);
        }
        lemma_space_prefix_step(b.drop_first(), j - 1);
    }
}

proof fn lemma_space_prefix_all(b: Seq<char>)
    requires
        forall|k: int| 0 <= k < b.len() ==> b[k] == ' ',
    ensures
        prefix_len(b, space_pred()) == b.len(),
    decreases b.len(),
{
    if b.len() > 0 {
        assert forall|k: int| 0 <= k < b.len() - 1 implies b.drop_first()[k] == ' ' by {
            assert(b.drop_first()[k] == b[k + 1]);
        }
        lemma_space_prefix_all(b.drop_first());
    }
}

/// Appends one re-indented line body (`line[..end]`) to `out`.
fn push_reindented(out: &mut Vec<char>, line: &Vec<char>, end: usize)
    requires
        end <= line@.len(),
    ensures
        final(out)@ == old(out)@ + reindent_line(line@.take(end as int)),
{
    let ghost b = line@.take(end as int);
    let mut n: usize = 0;
    while n < end && line[n] == ' '
        invariant
            n <= end <= line@.len(),
            b == line@.take(end as int),
            forall|k: int| 0 <= k < n ==> b[k] == ' ',
        decreases end - n,
    {
        n += 1;
    }
    proof {
        if n < end {
            lemma_space_prefix_step(b, n as int);
        } else {
            lemma_space_prefix_all(b);
        }
    }
    let ghost start = out@;
    let mut k: usize = 0;
    while k < n
        invariant
            k <= n,
            out@ == start + Seq::new(2 * k as nat, |i: int| ' '),
        decreases n - k,
    {
        out.push(' ');
        out.push(' ');
        assert(Seq::new(2 * (k + 1) as nat, |i: int| ' ') =~= Seq::new(2 * k as nat, |i: int| ' ').push(' ').push(' '));
        k += 1;
    }
    let ghost mid = out@;
    let mut j = n;
    while j < end
        invariant
            n <= j <= end <= line@.len(),
            out@ == mid + line@.subrange(n as int, j as int),
        decreases end - j,
    {
        out.push(line[j]);
        assert(line@.subrange(n as int, j + 1) =~= line@.subrange(n as int, j as int).push(line@[j as int]));
        j += 1;
    }
    out.push('\n');
    assert(b.skip(n as int) =~= line@.subrange(n as int, end as int));
}

/// Re-indent two-space JSON text (as `serde_json::to_string_pretty` writes
/// it) to four spaces, ending every line with `"\n"`.
pub fn reindent_json_text(two_space: &str) -> (r: String)
    ensures
        r@ == four_space_text(two_space@),
{
    let cs = chars_of(two_space);
    let lines = split_lines(&cs);
    let ghost ps = pieces(two_space@);
    let mut out: Vec<char> = Vec::new();
    let mut i: usize = 0;
    proof {
        assert(crate::dedent::views(lines@) == ps);
        assert(lines@.len() == ps.len());
        assert(ps.take(0) =~= Seq::<Seq<char>>::empty());
    }
    while i < lines.len()
        invariant
            i <= lines@.len(),
            lines@.len() == ps.len(),
            crate::dedent::views(lines@) == ps,
            out@ == reindent_lines(ps.take(i as int)),
        decreases lines@.len() - i,
    {
        let end = body_len(&lines[i]);
        assert(ps[i as int] == lines@[i as int]@);
        push_reindented(&mut out, &lines[i], end);
        assert(ps.take(i + 1).drop_last() =~= ps.take(i as int));
        i += 1;
    }
    assert(ps.take(ps.len() as int) =~= ps);
    string_of(out.as_slice())
}

/// The document in the text of a `karabiner.json`, or the parser's message
/// when the text is not JSON.
pub fn parse_config(text: &str) -> (r: Result<JsonValue, String>)
    ensures
        match r {
            Ok(v) => json_text_parse(text@) == Some(v@),
            Err(_) => json_text_parse(text@) is None,
        },
{
    parse_json(text)
}

/// Re-indenting only changes the spaces that start lines.
proof fn lemma_four_space_relined(text: Seq<char>)
    ensures
        crate::json_text::relined(text, four_space_text(text)),
{
    let ps = pieces(text);
    let k = Seq::new(ps.len(), |i: int| 2 * prefix_len(body_of(ps[i]), space_pred()));
    lemma_reindent_lines_with(ps);
    assert(four_space_text(text) == crate::json_text::lines_with(ps, k));
}

proof fn lemma_reindent_lines_with(ps: Seq<Seq<char>>)
    ensures
        reindent_lines(ps) == crate::json_text::lines_with(
            ps,
            Seq::new(ps.len(), |i: int| 2 * prefix_len(body_of(ps[i]), space_pred())),
        ),
    decreases ps.len(),
{
    let k = Seq::new(ps.len(), |i: int| 2 * prefix_len(body_of(ps[i]), space_pred()));
    if ps.len() > 0 {
        let init = ps.drop_last();
        lemma_reindent_lines_with(init);
        assert(k.drop_last() =~= Seq::new(
            init.len(),
            |i: int| 2 * prefix_len(body_of(init[i]), space_pred()),
        ));
        assert(k.last() == 2 * prefix_len(body_of(ps.last()), space_pred()));
    }
}

/// Serialise with the four-space indentation Karabiner-Elements itself uses.
/// Reading the text back gives the document again when it is one that
/// serde_json prints faithfully (see `canonical_json`) and not too deep for
/// its reader (see `nests_within`).
pub fn to_karabiner_json(value: &JsonValue) -> (r: String)
    ensures
        r@ == four_space_text(json_text_pretty(value@)),
        crate::json_text::canonical_json(value@) && crate::json_text::nests_within(value@, 127)
            ==> json_text_parse(r@) == Some(value@),
{
    let two_space = pretty_json(value);
    proof {
        lemma_four_space_relined(two_space@);
    }
    reindent_json_text(two_space.as_str())
}

} // verus!

verus! {

// ---------------------------------------------------------------------------
// Laws of installing and uninstalling
// ---------------------------------------------------------------------------

proof fn lemma_any_target_push(rs: Seq<Json>, x: Json)
    ensures
        any_target(rs.push(x)) == (any_target(rs) || targets_dedent_paste(x)),
{
    let a = rs.push(x);
    if any_target(a) {
        let i = choose|i: int| 0 <= i < a.len() && #[trigger] targets_dedent_paste(a[i]);
        if i < rs.len() {
            assert(targets_dedent_paste(rs[i]));
        }
    }
    if any_target(rs) {
        let i = choose|i: int| 0 <= i < rs.len() && #[trigger] targets_dedent_paste(rs[i]);
        assert(targets_dedent_paste(a[i]));
    }
    if targets_dedent_paste(x) {
        assert(targets_dedent_paste(a[rs.len() as int]));
    }
}

proof fn lemma_drop_last_push(rs: Seq<Json>)
    requires
        rs.len() > 0,
    ensures
        rs == rs.drop_last().push(rs.last()),
{
    assert(rs =~= rs.drop_last().push(rs.last()));
}

proof fn lemma_without_targets(rs: Seq<Json>)
    requires
        !any_target(rs),
    ensures
        remove_targets(rs) == rs,
        count_targets(rs) == 0,
    decreases rs.len(),
{
    if rs.len() > 0 {
        lemma_drop_last_push(rs);
        lemma_any_target_push(rs.drop_last(), rs.last());
        lemma_without_targets(rs.drop_last());
    }
}

proof fn lemma_replace_targets(rs: Seq<Json>, rule: Json)
    requires
        targets_dedent_paste(rule),
    ensures
        remove_targets(replace_targets(rs, rule)) == remove_targets(rs),
        count_targets(replace_targets(rs, rule)) == if any_target(rs) { 1nat } else { 0nat },
        forall|i: int|
            0 <= i < replace_targets(rs, rule).len() && #[trigger] targets_dedent_paste(
                replace_targets(rs, rule)[i],
            ) ==> replace_targets(rs, rule)[i] == rule,
    decreases rs.len(),
{
    if rs.len() > 0 {
        let init = rs.drop_last();
        let x = rs.last();
        let acc = replace_targets(init, rule);
        lemma_replace_targets(init, rule);
        lemma_drop_last_push(rs);
        lemma_any_target_push(init, x);
        if !targets_dedent_paste(x) {
            assert(acc.push(x).drop_last() == acc);
        } else if any_target(init) {
        } else {
            assert(acc.push(rule).drop_last() == acc);
        }
    }
}

/// Installing a rule that runs dedent-paste leaves exactly one dedent-paste
/// rule in the list, and every other rule stays, in its order.
pub proof fn lemma_install_keeps_other_rules(rs: Seq<Json>, rule: Json)
    requires
        targets_dedent_paste(rule),
    ensures
        remove_targets(installed_rules(rs, rule)) == remove_targets(rs),
        count_targets(installed_rules(rs, rule)) == 1,
{
    if any_target(rs) {
        lemma_replace_targets(rs, rule);
    } else {
        lemma_without_targets(rs);
        assert(rs.push(rule).drop_last() == rs);
    }
}

proof fn lemma_replace_only_rule(rs: Seq<Json>, rule: Json)
    requires
        forall|i: int| 0 <= i < rs.len() && #[trigger] targets_dedent_paste(rs[i]) ==> rs[i] == rule,
        count_targets(rs) <= 1,
    ensures
        replace_targets(rs, rule) == rs,
    decreases rs.len(),
{
    if rs.len() > 0 {
        let init = rs.drop_last();
        let x = rs.last();
        lemma_drop_last_push(rs);
        assert forall|i: int| 0 <= i < init.len() && #[trigger] targets_dedent_paste(init[i]) implies init[i] == rule by {
            assert(rs[i] == init[i]);
        }
        lemma_replace_only_rule(init, rule);
        if targets_dedent_paste(x) {
            assert(x == rs[rs.len() - 1]);
            if any_target(init) {
                let i = choose|i: int| 0 <= i < init.len() && #[trigger] targets_dedent_paste(init[i]);
                lemma_count_positive(init, i);
                assert(false);
            }
        }
    }
}

proof fn lemma_count_positive(rs: Seq<Json>, i: int)
    requires
        0 <= i < rs.len(),
        targets_dedent_paste(rs[i]),
    ensures
        count_targets(rs) >= 1,
    decreases rs.len(),
{
    if i < rs.len() - 1 {
        assert(rs.drop_last()[i] == rs[i]);
        lemma_count_positive(rs.drop_last(), i);
    }
}

proof fn lemma_count_any(rs: Seq<Json>)
    ensures
        count_targets(rs) > 0 ==> any_target(rs),
    decreases rs.len(),
{
    if rs.len() > 0 {
        lemma_count_any(rs.drop_last());
        lemma_drop_last_push(rs);
        lemma_any_target_push(rs.drop_last(), rs.last());
    }
}

/// Installing the same rule twice gives the same rule list as installing it
/// once.
pub proof fn lemma_install_idempotent(rs: Seq<Json>, rule: Json)
    requires
        targets_dedent_paste(rule),
    ensures
        installed_rules(installed_rules(rs, rule), rule) == installed_rules(rs, rule),
{
    let once = installed_rules(rs, rule);
    lemma_install_keeps_other_rules(rs, rule);
    if any_target(rs) {
        lemma_replace_targets(rs, rule);
    } else {
        assert forall|i: int| 0 <= i < once.len() && #[trigger] targets_dedent_paste(once[i]) implies once[i] == rule by {
            if i < rs.len() {
                assert(once[i] == rs[i]);
                assert(targets_dedent_paste(rs[i]));
            }
        }
    }
    lemma_count_any(once);
    lemma_replace_only_rule(once, rule);
}

/// Uninstalling leaves no dedent-paste rule, and uninstalling again changes
/// nothing.
pub proof fn lemma_uninstall_removes_all(rs: Seq<Json>)
    ensures
        count_targets(remove_targets(rs)) == 0,
        !any_target(remove_targets(rs)),
        remove_targets(remove_targets(rs)) == remove_targets(rs),
    decreases rs.len(),
{
    if rs.len() > 0 {
        lemma_uninstall_removes_all(rs.drop_last());
        let acc = remove_targets(rs.drop_last());
        if !targets_dedent_paste(rs.last()) {
            lemma_any_target_push(acc, rs.last());
            assert(acc.push(rs.last()).drop_last() == acc);
        }
    }
    lemma_without_targets(remove_targets(rs));
}

/// Uninstalling after installing leaves the rules that were there besides
/// dedent-paste's, in their order.
pub proof fn lemma_uninstall_after_install(rs: Seq<Json>, rule: Json)
    requires
        targets_dedent_paste(rule),
    ensures
        remove_targets(installed_rules(rs, rule)) == remove_targets(rs),
{
    lemma_install_keeps_other_rules(rs, rule);
}

} // verus!

verus! {

proof fn lemma_set_field_same(f: Seq<(Seq<char>, Json)>, key: Seq<char>)
    requires
        field(f, key) is Some,
    ensures
        set_field(f, key, field(f, key).unwrap()) == f,
{
    crate::json::lemma_first_key(f, key);
    let i = first_key(f, key).unwrap();
    assert(f.update(i, (f[i].0, f[i].1)) =~= f);
}

/// A profile none of whose rules runs dedent-paste.
pub open spec fn profile_clean(p: Json) -> bool {
    match removable_rules(p) {
        Some(rs) => !any_target(rs),
        None => true,
    }
}

proof fn lemma_stripped_clean(p: Json)
    requires
        profile_clean(p),
    ensures
        stripped_profile(p) == p,
{
    if let Some(rs) = removable_rules(p) {
        lemma_without_targets(rs);
        if let Json::Object(pf) = p {
            let cm = field(pf, "complex_modifications"@).unwrap();
            if let Json::Object(cf) = cm {
                lemma_set_field_same(cf, "rules"@);
                lemma_set_field_same(pf, "complex_modifications"@);
            }
        }
    }
}

proof fn lemma_report_clean(ps: Seq<Json>)
    requires
        forall|i: int| 0 <= i < ps.len() ==> #[trigger] profile_clean(ps[i]),
    ensures
        removal_report(ps) == Seq::<(Seq<char>, nat)>::empty(),
    decreases ps.len(),
{
    if ps.len() > 0 {
        assert forall|i: int| 0 <= i < ps.drop_last().len() implies #[trigger] profile_clean(
            ps.drop_last()[i],
        ) by {
            assert(ps.drop_last()[i] == ps[i]);
        }
        lemma_report_clean(ps.drop_last());
        assert(profile_clean(ps[ps.len() - 1]));
        if let Some(rs) = removable_rules(ps.last()) {
            lemma_without_targets(rs);
        }
    }
}

/// When no profile holds a dedent-paste rule, uninstalling leaves the
/// configuration as it is and reports no profile.
pub proof fn lemma_uninstall_without_rules_is_no_op(cfg: Json)
    requires
        profiles_of(cfg) is Some,
        forall|i: int|
            0 <= i < profiles_of(cfg).unwrap().len() ==> #[trigger] profile_clean(
                profiles_of(cfg).unwrap()[i],
            ),
    ensures
        uninstall_spec(cfg) == Ok::<(Json, Seq<(Seq<char>, nat)>), KarabinerFailure>(
            (cfg, Seq::empty()),
        ),
{
    let ps = profiles_of(cfg).unwrap();
    assert forall|i: int| 0 <= i < ps.len() implies strip_all(ps)[i] == ps[i] by {
        assert(profile_clean(ps[i]));
        lemma_stripped_clean(ps[i]);
    }
    assert(strip_all(ps) =~= ps);
    lemma_report_clean(ps);
    if let Json::Object(f) = cfg {
        lemma_set_field_same(f, "profiles"@);
    }
}

// ---------------------------------------------------------------------------
// Backups
// ---------------------------------------------------------------------------

pub open spec fn ascii_digits(s: Seq<char>) -> Seq<char>
    decreases s.len(),
{
    if s.len() == 0 {
        seq![]
    } else {
        ascii_digits(s.drop_last()) + if '0' <= s.last() && s.last() <= '9' {
            seq![s.last()]
        } else {
            seq![]
        }
    }
}

/// The name of the backup of `karabiner.json` made at `timestamp`: the
/// timestamp's digits, and for later attempts in the same second a counter.
pub open spec fn backup_name_spec(timestamp: Seq<char>, attempt: u64) -> Seq<char> {
    "karabiner.json.bak-"@ + ascii_digits(timestamp) + if attempt == 0 {
        seq![]
    } else {
        "-"@ + crate::text::decimal(attempt as nat)
    }
}

pub fn backup_file_name(timestamp: &str, attempt: u64) -> (r: String)
    ensures
        r@ == backup_name_spec(timestamp@, attempt),
{
    let cs = chars_of(timestamp);
    let mut out: Vec<char> = Vec::new();
    push_str(&mut out, "karabiner.json.bak-");
    let ghost head = out@;
    let mut i: usize = 0;
    while i < cs.len()
        invariant
            i <= cs@.len(),
            cs@ == timestamp@,
            out@ == head + ascii_digits(cs@.take(i as int)),
        decreases cs@.len() - i,
    {
        let c = cs[i];
        assert(cs@.take(i + 1).drop_last() =~= cs@.take(i as int));
        if '0' <= c && c <= '9' {
            out.push(c);
        }
        assert(out@ =~= head + ascii_digits(cs@.take(i + 1)));
        i += 1;
    }
    assert(cs@.take(cs@.len() as int) =~= cs@);
    if attempt > 0 {
        push_str(&mut out, "-");
        crate::text::push_decimal(&mut out, attempt);
    }
    string_of(out.as_slice())
}

} // verus!

verus! {

// ---------------------------------------------------------------------------
// How the shell reads the quoted path
// ---------------------------------------------------------------------------

/// How `sh` reads one word made of unquoted safe characters, single-quoted
/// strings and backslash escapes; nothing for a word with anything else.
pub open spec fn sh_word(q: Seq<char>) -> Option<Seq<char>>
    decreases q.len(),
{
    if q.len() == 0 {
        Some(seq![])
    } else if q[0] == '\'' {
        match first_sep(q.drop_first(), '\'') {
            Some(k) => {
                proof {
                    crate::text::lemma_first_sep_bound(q.drop_first(), '\'');
                }
                match sh_word(q.drop_first().skip(k as int + 1)) {
                    Some(w) => Some(q.drop_first().take(k as int) + w),
                    None => None,
                }
            },
            None => None,
        }
    } else if q[0] == '\\' {
        if q.len() >= 2 {
            match sh_word(q.skip(2)) {
                Some(w) => Some(seq![q[1]] + w),
                None => None,
            }
        } else {
            None
        }
    } else if is_shell_safe(q[0]) {
        match sh_word(q.drop_first()) {
            Some(w) => Some(seq![q[0]] + w),
            None => None,
        }
    } else {
        None
    }
}

proof fn lemma_safe_word(t: Seq<char>)
    requires
        forall|i: int| 0 <= i < t.len() ==> is_shell_safe(#[trigger] t[i]),
    ensures
        sh_word(t) == Some(t),
    decreases t.len(),
{
    if t.len() > 0 {
        assert forall|i: int| 0 <= i < t.drop_first().len() implies is_shell_safe(
            #[trigger] t.drop_first()[i],
        ) by {
            assert(t.drop_first()[i] == t[i + 1]);
        }
        lemma_safe_word(t.drop_first());
        assert(is_shell_safe(t[0]));
        assert(seq![t[0]] + t.drop_first() =~= t);
    }
}

proof fn lemma_quoted_word(lit: Seq<char>, t: Seq<char>, s: Seq<char>, w: Seq<char>)
    requires
        forall|i: int| 0 <= i < lit.len() ==> #[trigger] lit[i] != '\'',
        sh_word(s) == Some(w),
    ensures
        sh_word(
            seq!['\''] + lit + replace_all(t, seq!['\''], seq!['\'', '\\', '\'', '\'']) + seq![
                '\'',
            ] + s,
        ) == Some(lit + t + w),
    decreases t.len(),
{
    let pat = seq!['\''];
    let rep = seq!['\'', '\\', '\'', '\''];
    let q = seq!['\''] + lit + replace_all(t, pat, rep) + seq!['\''] + s;
    if t.len() == 0 {
        assert(replace_all(t, pat, rep) == t);
        let inner = lit + seq!['\''] + s;
        assert(q.drop_first() =~= inner);
        assert forall|i: int| 0 <= i < lit.len() implies #[trigger] inner[i] != '\'' by {
            assert(inner[i] == lit[i]);
        }
        crate::text::lemma_first_sep(inner, '\'', lit.len() as int);
        assert(inner.take(lit.len() as int) =~= lit);
        assert(inner.skip(lit.len() as int + 1) =~= s);
        assert(lit + t + w =~= lit + w);
        assert(q[0] == '\'');
        assert(sh_word(q) == Some(lit + t + w));
    } else if t[0] == '\'' {
        let t1 = t.skip(1);
        assert(t.take(1) =~= pat);
        assert(replace_all(t, pat, rep) == rep + replace_all(t1, pat, rep));
        let r1 = replace_all(t1, pat, rep);
        lemma_quoted_word(seq![], t1, s, w);
        let q1 = seq!['\''] + Seq::<char>::empty() + r1 + seq!['\''] + s;
        let inner = q.drop_first();
        assert(inner =~= lit + seq!['\''] + seq!['\\', '\''] + q1);
        assert forall|i: int| 0 <= i < lit.len() implies #[trigger] inner[i] != '\'' by {
            assert(inner[i] == lit[i]);
        }
        crate::text::lemma_first_sep(inner, '\'', lit.len() as int);
        let after = inner.skip(lit.len() as int + 1);
        assert(after =~= seq!['\\', '\''] + q1);
        assert(after.skip(2) =~= q1);
        assert(inner.take(lit.len() as int) =~= lit);
        assert(lit + (seq!['\''] + (Seq::<char>::empty() + t1 + w)) =~= lit + t + w) by {
            assert(t =~= seq!['\''] + t1);
        }
        assert(after[0] == '\\' && after[1] == '\'');
        assert(sh_word(after) == Some(seq!['\''] + (Seq::<char>::empty() + t1 + w)));
        assert(q[0] == '\'');
        assert(q =~= seq!['\''] + lit + rep + r1 + seq!['\''] + s);
        assert(sh_word(q) == Some(lit + t + w));
    } else {
        let t1 = t.drop_first();
        assert(!(t.take(1) =~= pat));
        assert(replace_all(t, pat, rep) == seq![t[0]] + replace_all(t1, pat, rep));
        let lit1 = lit.push(t[0]);
        assert forall|i: int| 0 <= i < lit1.len() implies #[trigger] lit1[i] != '\'' by {
            if i < lit.len() {
                assert(lit1[i] == lit[i]);
            }
        }
        lemma_quoted_word(lit1, t1, s, w);
        assert(q =~= seq!['\''] + lit1 + replace_all(t1, pat, rep) + seq!['\''] + s);
        assert(lit1 + t1 + w =~= lit + t + w) by {
            assert(t =~= seq![t[0]] + t1);
        }
    }
}

/// The shell reads a quoted path back as the path itself, whatever
/// characters it holds: the rule runs exactly the installed binary.
pub proof fn lemma_shell_quote_round_trips(text: Seq<char>)
    ensures
        sh_word(shell_quote_spec(text)) == Some(text),
{
    if text.len() > 0 && forall|i: int| 0 <= i < text.len() ==> is_shell_safe(#[trigger] text[i]) {
        lemma_safe_word(text);
    } else {
        lemma_quoted_word(seq![], text, seq![], seq![]);
        let pat = seq!['\''];
        let rep = seq!['\'', '\\', '\'', '\''];
        assert(seq!['\''] + Seq::<char>::empty() + replace_all(text, pat, rep) + seq!['\'']
            + Seq::<char>::empty() =~= shell_quote_spec(text));
        assert(Seq::<char>::empty() + text + Seq::<char>::empty() =~= text);
    }
}

} // verus!

verus! {

// ---------------------------------------------------------------------------
// Stable paths do not depend on the installed version
// ---------------------------------------------------------------------------

proof fn lemma_first_sep_concat(a: Seq<char>, t: Seq<char>, sep: char)
    ensures
        first_sep(a + t, sep) == match first_sep(a, sep) {
            Some(k) => Some(k),
            None => match first_sep(t, sep) {
                Some(j) => Some(j + a.len()),
                None => None,
            },
        },
    decreases a.len(),
{
    if a.len() == 0 {
        assert(a + t =~= t);
    } else if a[0] != sep {
        assert((a + t).drop_first() =~= a.drop_first() + t);
        lemma_first_sep_concat(a.drop_first(), t, sep);
    }
}

proof fn lemma_split_concat(a: Seq<char>, b: Seq<char>)
    ensures
        split_on(a + seq!['/'] + b, '/') == split_on(a, '/') + split_on(b, '/'),
    decreases a.len(),
{
    let s = a + seq!['/'] + b;
    lemma_first_sep_concat(a, seq!['/'] + b, '/');
    assert(s =~= a + (seq!['/'] + b));
    crate::text::lemma_first_sep_bound(a, '/');
    match first_sep(a, '/') {
        Some(k) => {
            assert(s.take(k as int) =~= a.take(k as int));
            assert(s.skip(k as int + 1) =~= a.skip(k as int + 1) + seq!['/'] + b);
            lemma_split_concat(a.skip(k as int + 1), b);
            assert(first_sep(s, '/') == Some(k));
            assert(split_on(s, '/') == seq![s.take(k as int)] + split_on(s.skip(k as int + 1), '/'));
            assert(split_on(a, '/') == seq![a.take(k as int)] + split_on(a.skip(k as int + 1), '/'));
            assert(split_on(s, '/') =~= split_on(a, '/') + split_on(b, '/'));
        },
        None => {
            assert(first_sep(seq!['/'] + b, '/') == Some(0nat));
            assert(s.take(a.len() as int) =~= a);
            assert(s.skip(a.len() as int + 1) =~= b);
            assert(first_sep(s, '/') == Some(a.len()));
            assert(split_on(s, '/') == seq![s.take(a.len() as int)] + split_on(s.skip(a.len() as int + 1), '/'));
            assert(split_on(a, '/') == seq![a]);
            assert(split_on(s, '/') =~= split_on(a, '/') + split_on(b, '/'));
        },
    }
}

proof fn lemma_path_names_concat(x: Seq<Seq<char>>, y: Seq<Seq<char>>)
    ensures
        path_names(x + y) == path_names(x) + path_names(y),
    decreases y.len(),
{
    if y.len() == 0 {
        assert(x + y =~= x);
        assert(path_names(x) + path_names(y) =~= path_names(x));
    } else {
        assert((x + y).drop_last() =~= x + y.drop_last());
        assert((x + y).last() == y.last());
        lemma_path_names_concat(x, y.drop_last());
        let g = y.last();
        if g.len() > 0 && g != seq!['.'] {
            assert(path_names(x + y) =~= path_names(x) + path_names(y));
        } else {
            assert(path_names(x + y) =~= path_names(x) + path_names(y));
        }
    }
}

proof fn lemma_first_index_none(items: Seq<Seq<char>>, x: Seq<char>)
    requires
        first_index(items, x) is None,
    ensures
        forall|i: int| 0 <= i < items.len() ==> #[trigger] items[i] != x,
    decreases items.len(),
{
    if items.len() > 0 {
        lemma_first_index_none(items.drop_first(), x);
        assert forall|i: int| 0 <= i < items.len() implies #[trigger] items[i] != x by {
            if i > 0 {
                assert(items[i] == items.drop_first()[i - 1]);
            }
        }
    }
}

/// A single path component: not empty, not `.`, and without `/`.
pub open spec fn is_plain_name(g: Seq<char>) -> bool {
    g.len() > 0 && g != seq!['.'] && forall|i: int| 0 <= i < g.len() ==> #[trigger] g[i] != '/'
}

/// `<prefix>/Cellar/<formula>/<version>/<rest>`.
pub open spec fn cellar_path(
    prefix: Seq<char>,
    formula: Seq<char>,
    version: Seq<char>,
    rest: Seq<char>,
) -> Seq<char> {
    prefix + seq!['/'] + ("Cellar"@ + seq!['/'] + (formula + seq!['/'] + (version + seq!['/']
        + rest)))
}

proof fn lemma_plain_name_split(g: Seq<char>)
    requires
        is_plain_name(g),
    ensures
        split_on(g, '/') == seq![g],
        path_names(seq![g]) == seq![g],
{
    crate::text::lemma_first_sep(g, '/', g.len() as int);
    assert(seq![g].drop_last() =~= Seq::<Seq<char>>::empty());
    assert(path_names(Seq::<Seq<char>>::empty()) == Seq::<Seq<char>>::empty());
    assert(seq![g].last() == g);
    assert(path_names(seq![g]) =~= seq![g]);
}

proof fn lemma_cellar_names(
    prefix: Seq<char>,
    formula: Seq<char>,
    version: Seq<char>,
    rest: Seq<char>,
)
    requires
        is_plain_name(formula),
        is_plain_name(version),
    ensures
        split_on(cellar_path(prefix, formula, version, rest), '/') == split_on(prefix, '/') + (
        seq!["Cellar"@] + (seq![formula] + (seq![version] + split_on(rest, '/')))),
        path_names(split_on(cellar_path(prefix, formula, version, rest), '/')) == path_names(
            split_on(prefix, '/'),
        ) + (seq!["Cellar"@] + (seq![formula] + (seq![version] + path_names(
            split_on(rest, '/'),
        )))),
{
    reveal_strlit("Cellar");
    let cellar = "Cellar"@;
    assert(is_plain_name(cellar));
    lemma_plain_name_split(cellar);
    lemma_plain_name_split(formula);
    lemma_plain_name_split(version);
    lemma_split_concat(version, rest);
    lemma_split_concat(formula, version + seq!['/'] + rest);
    lemma_split_concat(cellar, formula + seq!['/'] + (version + seq!['/'] + rest));
    lemma_split_concat(
        prefix,
        cellar + seq!['/'] + (formula + seq!['/'] + (version + seq!['/'] + rest)),
    );
    assert(formula + seq!['/'] + version + seq!['/'] + rest =~= formula + seq!['/'] + (version
        + seq!['/'] + rest));
    let sr = split_on(rest, '/');
    lemma_path_names_concat(seq![version], sr);
    lemma_path_names_concat(seq![formula], seq![version] + sr);
    lemma_path_names_concat(seq![cellar], seq![formula] + (seq![version] + sr));
    lemma_path_names_concat(
        split_on(prefix, '/'),
        seq![cellar] + (seq![formula] + (seq![version] + sr)),
    );
}

/// The stable form of a Homebrew `Cellar` path does not depend on the version
/// directory: two installs of the same formula that differ only in their
/// version map to the same path, so the rule survives `brew upgrade`.
pub proof fn lemma_stable_path_ignores_version(
    prefix: Seq<char>,
    formula: Seq<char>,
    v1: Seq<char>,
    v2: Seq<char>,
    rest: Seq<char>,
)
    requires
        first_index(path_names(split_on(prefix, '/')), "Cellar"@) is None,
        is_plain_name(formula),
        is_plain_name(v1),
        is_plain_name(v2),
        path_names(split_on(rest, '/')).len() > 0,
    ensures
        stable_path_spec(cellar_path(prefix, formula, v1, rest)) == stable_path_spec(
            cellar_path(prefix, formula, v2, rest),
        ),
{
    let s1 = cellar_path(prefix, formula, v1, rest);
    let s2 = cellar_path(prefix, formula, v2, rest);
    lemma_cellar_names(prefix, formula, v1, rest);
    lemma_cellar_names(prefix, formula, v2, rest);
    let np = path_names(split_on(prefix, '/'));
    let nr = path_names(split_on(rest, '/'));
    let n1 = path_names(split_on(s1, '/'));
    let n2 = path_names(split_on(s2, '/'));
    let k = np.len() as int;
    lemma_first_index_none(np, "Cellar"@);
    assert forall|i: int| 0 <= i < k implies #[trigger] n1[i] != "Cellar"@ by {
        assert(n1[i] == np[i]);
    }
    assert forall|i: int| 0 <= i < k implies #[trigger] n2[i] != "Cellar"@ by {
        assert(n2[i] == np[i]);
    }
    assert(n1[k] == "Cellar"@);
    assert(n2[k] == "Cellar"@);
    crate::text::lemma_first_index_at(n1, "Cellar"@, k);
    crate::text::lemma_first_index_at(n2, "Cellar"@, k);
    assert(n1.take(k) =~= np);
    assert(n2.take(k) =~= np);
    assert(n1.skip(k + 3) =~= nr);
    assert(n2.skip(k + 3) =~= nr);
    assert(n1[k + 1] == formula);
    assert(n2[k + 1] == formula);
    let sp = split_on(prefix, '/');
    assert(sp.len() >= 1);
    assert(split_on(s1, '/')[0] == sp[0]);
    assert(split_on(s2, '/')[0] == sp[0]);
    if prefix.len() > 0 {
        assert(s1[0] == prefix[0]);
        assert(s2[0] == prefix[0]);
    } else {
        assert(s1[0] == '/');
        assert(s2[0] == '/');
    }
}

} // verus!

verus! {

// ---------------------------------------------------------------------------
// Installing twice
// ---------------------------------------------------------------------------

proof fn lemma_field_set_same_key(f: Seq<(Seq<char>, Json)>, k: Seq<char>, v: Json)
    ensures
        field(set_field(f, k, v), k) == Some(v),
{
    crate::json::lemma_first_key(f, k);
    let g = set_field(f, k, v);
    match first_key(f, k) {
        Some(i) => {
            assert forall|j: int| 0 <= j < i implies #[trigger] g[j].0 != k by {
                assert(g[j] == f[j]);
            }
            crate::json::lemma_first_key_at(g, k, i);
        },
        None => {
            crate::json::lemma_insert_pos(f, k);
            let p = crate::json::insert_pos(f, k);
            assert forall|j: int| 0 <= j < p implies #[trigger] g[j].0 != k by {
                assert(g[j] == f[j]);
            }
            assert(g[p] == (k, v));
            crate::json::lemma_first_key_at(g, k, p);
        },
    }
}

proof fn lemma_field_set_other_key(f: Seq<(Seq<char>, Json)>, k: Seq<char>, v: Json, k2: Seq<char>)
    requires
        k2 != k,
    ensures
        field(set_field(f, k, v), k2) == field(f, k2),
{
    crate::json::lemma_first_key(f, k);
    crate::json::lemma_first_key(f, k2);
    let g = set_field(f, k, v);
    match first_key(f, k) {
        Some(i) => {
            assert forall|j: int| 0 <= j < f.len() implies #[trigger] g[j].0 == f[j].0 by {}
            match first_key(f, k2) {
                Some(j) => {
                    assert forall|m: int| 0 <= m < j implies #[trigger] g[m].0 != k2 by {
                        assert(g[m].0 == f[m].0);
                    }
                    assert(g[j].0 == k2);
                    crate::json::lemma_first_key_at(g, k2, j);
                    assert(i != j);
                    assert(g[j].1 == f[j].1);
                },
                None => {
                    assert forall|m: int| 0 <= m < g.len() implies #[trigger] g[m].0 != k2 by {
                        assert(g[m].0 == f[m].0);
                    }
                    crate::json::lemma_first_key_at(g, k2, g.len() as int);
                },
            }
        },
        None => {
            crate::json::lemma_insert_pos(f, k);
            let p = crate::json::insert_pos(f, k);
            assert(g.len() == f.len() + 1);
            assert(g[p].0 == k);
            assert forall|m: int| 0 <= m < p implies #[trigger] g[m] == f[m] by {}
            assert forall|m: int| p < m < g.len() implies #[trigger] g[m] == f[m - 1] by {}
            match first_key(f, k2) {
                Some(j) => {
                    let j2 = if j < p { j } else { j + 1 };
                    assert forall|m: int| 0 <= m < j2 implies #[trigger] g[m].0 != k2 by {
                        if m < p {
                            assert(g[m] == f[m]);
                        } else if m > p {
                            assert(g[m] == f[m - 1]);
                        }
                    }
                    assert(g[j2] == f[j]);
                    crate::json::lemma_first_key_at(g, k2, j2);
                },
                None => {
                    assert forall|m: int| 0 <= m < g.len() implies #[trigger] g[m].0 != k2 by {
                        if m < p {
                            assert(g[m] == f[m]);
                        } else if m > p {
                            assert(g[m] == f[m - 1]);
                        }
                    }
                    crate::json::lemma_first_key_at(g, k2, g.len() as int);
                },
            }
        },
    }
}

proof fn lemma_first_selected_same(a: Seq<Json>, b: Seq<Json>)
    requires
        a.len() == b.len(),
        forall|j: int| 0 <= j < a.len() ==> is_selected(#[trigger] a[j]) == is_selected(b[j]),
    ensures
        first_selected(a) == first_selected(b),
    decreases a.len(),
{
    if a.len() > 0 {
        assert forall|j: int| 0 <= j < a.drop_first().len() implies is_selected(
            #[trigger] a.drop_first()[j],
        ) == is_selected(b.drop_first()[j]) by {
            assert(a.drop_first()[j] == a[j + 1]);
            assert(b.drop_first()[j] == b[j + 1]);
        }
        lemma_first_selected_same(a.drop_first(), b.drop_first());
        assert(is_selected(a[0]) == is_selected(b[0]));
    }
}

proof fn lemma_first_selected_bound(ps: Seq<Json>)
    ensures
        first_selected(ps) matches Some(i) ==> 0 <= i < ps.len(),
    decreases ps.len(),
{
    if ps.len() > 0 {
        lemma_first_selected_bound(ps.drop_first());
    }
}

/// A profile whose rules were set to `rs` gives `rs` back, keeps its name and
/// selection, and setting the same rules again changes nothing.
proof fn lemma_with_rules_facts(p: Json, rs: Seq<Json>)
    requires
        profile_rules(p) is Ok,
    ensures
        profile_rules(with_rules(p, rs)) == Ok::<Seq<Json>, Seq<char>>(rs),
        profile_name_spec(with_rules(p, rs)) == profile_name_spec(p),
        is_selected(with_rules(p, rs)) == is_selected(p),
        with_rules(with_rules(p, rs), rs) == with_rules(p, rs),
{
    reveal_strlit("complex_modifications");
    reveal_strlit("rules");
    reveal_strlit("name");
    reveal_strlit("selected");
    let cmk = "complex_modifications"@;
    let rk = "rules"@;
    if let Json::Object(pf) = p {
        let cm = match field(pf, cmk) {
            Some(Json::Object(cf)) => Json::Object(set_field(cf, rk, Json::Array(rs))),
            _ => Json::Object(seq![(rk, Json::Array(rs))]),
        };
        let pf1 = set_field(pf, cmk, cm);
        assert(with_rules(p, rs) == Json::Object(pf1));
        lemma_field_set_same_key(pf, cmk, cm);
        assert("name"@.len() != cmk.len());
        assert("selected"@.len() != cmk.len());
        lemma_field_set_other_key(pf, cmk, cm, "name"@);
        lemma_field_set_other_key(pf, cmk, cm, "selected"@);
        let cf1 = match field(pf, cmk) {
            Some(Json::Object(cf)) => set_field(cf, rk, Json::Array(rs)),
            _ => seq![(rk, Json::Array(rs))],
        };
        assert(cm == Json::Object(cf1));
        match field(pf, cmk) {
            Some(Json::Object(cf)) => {
                lemma_field_set_same_key(cf, rk, Json::Array(rs));
            },
            _ => {
                crate::json::lemma_first_key_at(cf1, rk, 0);
            },
        }
        assert(field(cf1, rk) == Some(Json::Array(rs)));
        lemma_set_field_same(cf1, rk);
        lemma_set_field_same(pf1, cmk);
    }
}

/// Installing the rule into a configuration it was just installed into
/// changes nothing: the same profile is chosen, one dedent-paste rule is
/// found and replaced by itself, and the configuration stays as it is.
pub proof fn lemma_install_twice_is_install_once(cfg: Json, rule: Json)
    requires
        targets_dedent_paste(rule),
        install_spec(cfg, rule) is Installed,
    ensures
        ({
            let once = install_spec(cfg, rule);
            install_spec(once->config, rule) == InstallModel::Installed {
                config: once->config,
                profile: once->profile,
                replaced: 1,
            }
        }),
{
    reveal_strlit("profiles");
    let ps = profiles_of(cfg).unwrap();
    lemma_first_selected_bound(ps);
    let i = selected_index(ps);
    assert(0 <= i < ps.len());
    let p = ps[i];
    let rs = profile_rules(p)->Ok_0;
    let rs1 = installed_rules(rs, rule);
    let p1 = with_rules(p, rs1);
    let ps1 = ps.update(i, p1);
    let c1 = with_profiles(cfg, ps1);
    lemma_with_rules_facts(p, rs1);
    lemma_install_keeps_other_rules(rs, rule);
    lemma_install_idempotent(rs, rule);
    if let Json::Object(f) = cfg {
        lemma_field_set_same_key(f, "profiles"@, Json::Array(ps1));
        lemma_set_field_same(set_field(f, "profiles"@, Json::Array(ps1)), "profiles"@);
    }
    assert(profiles_of(c1) == Some(ps1));
    assert forall|j: int| 0 <= j < ps.len() implies is_selected(#[trigger] ps1[j]) == is_selected(
        ps[j],
    ) by {}
    lemma_first_selected_same(ps1, ps);
    assert(selected_index(ps1) == i);
    assert(ps1[i] == p1);
    assert(ps1.update(i, p1) =~= ps1);
    assert(with_profiles(c1, ps1) == c1);
}

} // verus!

verus! {

// ---------------------------------------------------------------------------
// Installing and uninstalling keep documents that serde_json reads back
// ---------------------------------------------------------------------------

proof fn lemma_canonical_field(f: Seq<(Seq<char>, Json)>, k: Seq<char>)
    requires
        canonical_json(Json::Object(f)),
        field(f, k) is Some,
    ensures
        canonical_json(field(f, k).unwrap()),
{
    crate::json::lemma_first_key(f, k);
    crate::json_text::lemma_canonical_parts(Json::Object(f));
    let i = first_key(f, k).unwrap();
    assert(canonical_json(f[i].1));
}

proof fn lemma_set_field_canonical(f: Seq<(Seq<char>, Json)>, k: Seq<char>, v: Json)
    requires
        canonical_json(Json::Object(f)),
        canonical_json(v),
    ensures
        canonical_json(Json::Object(set_field(f, k, v))),
{
    crate::json::lemma_first_key(f, k);
    let g = set_field(f, k, v);
    crate::json_text::lemma_canonical_parts(Json::Object(f));
    crate::json_text::lemma_canonical_parts(Json::Object(g));
    match first_key(f, k) {
        Some(i) => {
            assert forall|m: int| 0 <= m < g.len() - 1 implies text_less(#[trigger] g[m].0, g[m + 1].0) by {
                assert(g[m].0 == f[m].0 && g[m + 1].0 == f[m + 1].0);
                assert(text_less(f[m].0, f[m + 1].0));
            }
            assert forall|m: int| 0 <= m < g.len() implies canonical_json(#[trigger] g[m].1) by {
                if m != i {
                    assert(canonical_json(f[m].1));
                }
            }
        },
        None => {
            crate::json::lemma_insert_pos(f, k);
            let p = crate::json::insert_pos(f, k);
            assert(g.len() == f.len() + 1);
            assert(g[p] == (k, v));
            assert forall|m: int| 0 <= m < p implies #[trigger] g[m] == f[m] by {}
            assert forall|m: int| p < m < g.len() implies #[trigger] g[m] == f[m - 1] by {}
            assert forall|m: int| 0 <= m < g.len() - 1 implies text_less(#[trigger] g[m].0, g[m + 1].0) by {
                if m + 1 < p {
                    assert(g[m] == f[m] && g[m + 1] == f[m + 1]);
                    assert(text_less(f[m].0, f[m + 1].0));
                } else if m + 1 == p {
                    assert(g[m] == f[m]);
                    assert(!text_less(k, f[m].0));
                    assert(f[m].0 != k);
                    crate::text::lemma_text_less_total(f[m].0, k);
                } else if m == p {
                    assert(g[m + 1] == f[m]);
                } else {
                    assert(g[m] == f[m - 1] && g[m + 1] == f[m]);
                    assert(text_less(f[m - 1].0, f[m].0));
                }
            }
            assert forall|m: int| 0 <= m < g.len() implies canonical_json(#[trigger] g[m].1) by {
                if m < p {
                    assert(canonical_json(f[m].1));
                } else if m > p {
                    assert(g[m] == f[m - 1]);
                    assert(canonical_json(f[m - 1].1));
                }
            }
        },
    }
}

pub open spec fn all_canonical(rs: Seq<Json>) -> bool {
    forall|j: int| 0 <= j < rs.len() ==> canonical_json(#[trigger] rs[j])
}

proof fn lemma_replace_canonical(rs: Seq<Json>, rule: Json)
    requires
        all_canonical(rs),
        canonical_json(rule),
    ensures
        all_canonical(replace_targets(rs, rule)),
        all_canonical(remove_targets(rs)),
    decreases rs.len(),
{
    if rs.len() > 0 {
        let init = rs.drop_last();
        assert forall|j: int| 0 <= j < init.len() implies canonical_json(#[trigger] init[j]) by {
            assert(init[j] == rs[j]);
        }
        lemma_replace_canonical(init, rule);
        assert(canonical_json(rs[rs.len() - 1]));
        let a = replace_targets(init, rule);
        let b = remove_targets(init);
        assert forall|j: int| 0 <= j < a.len() + 1 implies canonical_json(#[trigger] a.push(rs.last())[j])
            && canonical_json(a.push(rule)[j]) by {
            if j < a.len() {
                assert(a.push(rs.last())[j] == a[j]);
                assert(a.push(rule)[j] == a[j]);
            }
        }
        assert forall|j: int| 0 <= j < b.len() + 1 implies canonical_json(#[trigger] b.push(rs.last())[j]) by {
            if j < b.len() {
                assert(b.push(rs.last())[j] == b[j]);
            }
        }
    }
}

proof fn lemma_installed_canonical(rs: Seq<Json>, rule: Json)
    requires
        all_canonical(rs),
        canonical_json(rule),
    ensures
        all_canonical(installed_rules(rs, rule)),
{
    lemma_replace_canonical(rs, rule);
    assert forall|j: int| 0 <= j < rs.len() + 1 implies canonical_json(#[trigger] rs.push(rule)[j]) by {
        if j < rs.len() {
            assert(rs.push(rule)[j] == rs[j]);
        }
    }
}

/// The rules of a canonical profile are canonical, and setting canonical
/// rules keeps the profile canonical.
proof fn lemma_with_rules_canonical(p: Json, rs: Seq<Json>)
    requires
        canonical_json(p),
        all_canonical(rs),
        p is Object,
    ensures
        canonical_json(with_rules(p, rs)),
        profile_rules(p) matches Ok(old) ==> all_canonical(old),
{
    reveal_strlit("rules");
    let cmk = "complex_modifications"@;
    let rk = "rules"@;
    let arr = Json::Array(rs);
    crate::json_text::lemma_canonical_parts(arr);
    assert(canonical_json(arr));
    if let Json::Object(pf) = p {
        match field(pf, cmk) {
            Some(Json::Object(cf)) => {
                lemma_canonical_field(pf, cmk);
                lemma_set_field_canonical(cf, rk, arr);
                lemma_set_field_canonical(pf, cmk, Json::Object(set_field(cf, rk, arr)));
                if field(cf, rk) is Some {
                    lemma_canonical_field(cf, rk);
                    crate::json_text::lemma_canonical_parts(field(cf, rk).unwrap());
                }
            },
            _ => {
                let single = seq![(rk, arr)];
                crate::json_text::lemma_canonical_parts(Json::Object(single));
                assert(canonical_json(Json::Object(single)));
                lemma_set_field_canonical(pf, cmk, Json::Object(single));
            },
        }
    }
}

proof fn lemma_profiles_canonical(cfg: Json)
    requires
        canonical_json(cfg),
        profiles_of(cfg) is Some,
    ensures
        all_canonical(profiles_of(cfg).unwrap()),
{
    if let Json::Object(f) = cfg {
        lemma_canonical_field(f, "profiles"@);
        crate::json_text::lemma_canonical_parts(field(f, "profiles"@).unwrap());
    }
}

proof fn lemma_with_profiles_canonical(cfg: Json, ps: Seq<Json>)
    requires
        canonical_json(cfg),
        profiles_of(cfg) is Some,
        all_canonical(ps),
    ensures
        canonical_json(with_profiles(cfg, ps)),
{
    if let Json::Object(f) = cfg {
        crate::json_text::lemma_canonical_parts(Json::Array(ps));
        assert(canonical_json(Json::Array(ps)));
        lemma_set_field_canonical(f, "profiles"@, Json::Array(ps));
    }
}

/// Installing a canonical rule into a canonical configuration gives a
/// canonical configuration, which `to_karabiner_json` writes so that it
/// reads back unchanged.
pub proof fn lemma_install_keeps_canonical(cfg: Json, rule: Json)
    requires
        canonical_json(cfg),
        canonical_json(rule),
        install_spec(cfg, rule) is Installed,
    ensures
        canonical_json(install_spec(cfg, rule)->config),
{
    let ps = profiles_of(cfg).unwrap();
    lemma_first_selected_bound(ps);
    let i = selected_index(ps);
    let p = ps[i];
    lemma_profiles_canonical(cfg);
    assert(canonical_json(p));
    let rs = profile_rules(p)->Ok_0;
    lemma_with_rules_canonical(p, seq![]);
    lemma_installed_canonical(rs, rule);
    let rs1 = installed_rules(rs, rule);
    lemma_with_rules_canonical(p, rs1);
    let ps1 = ps.update(i, with_rules(p, rs1));
    assert forall|j: int| 0 <= j < ps1.len() implies canonical_json(#[trigger] ps1[j]) by {
        if j != i {
            assert(canonical_json(ps[j]));
        }
    }
    lemma_with_profiles_canonical(cfg, ps1);
}

/// Uninstalling keeps a canonical configuration canonical.
pub proof fn lemma_uninstall_keeps_canonical(cfg: Json)
    requires
        canonical_json(cfg),
        uninstall_spec(cfg) is Ok,
    ensures
        canonical_json((uninstall_spec(cfg)->Ok_0).0),
{
    reveal_strlit("rules");
    let ps = profiles_of(cfg).unwrap();
    lemma_profiles_canonical(cfg);
    let ps1 = strip_all(ps);
    assert forall|j: int| 0 <= j < ps1.len() implies canonical_json(#[trigger] ps1[j]) by {
        let p = ps[j];
        assert(canonical_json(p));
        if let Some(rs) = removable_rules(p) {
            if let Json::Object(pf) = p {
                lemma_canonical_field(pf, "complex_modifications"@);
                let cm = field(pf, "complex_modifications"@).unwrap();
                if let Json::Object(cf) = cm {
                    lemma_canonical_field(cf, "rules"@);
                    crate::json_text::lemma_canonical_parts(field(cf, "rules"@).unwrap());
                }
            }
            assert(all_canonical(rs));
            lemma_replace_canonical(rs, p);
            lemma_with_rules_canonical(p, remove_targets(rs));
        }
    }
    lemma_with_profiles_canonical(cfg, ps1);
}

} // verus!

verus! {

// ---------------------------------------------------------------------------
// Which commands are dedent-paste's
// ---------------------------------------------------------------------------

/// An event runs dedent-paste when its `shell_command` is a string that
/// mentions `dedent-paste` anywhere.
pub proof fn lemma_any_mention_is_recognised(e: Json, c: Seq<char>, k: int)
    requires
        get(e, "shell_command"@) == Some(Json::Str(c)),
        0 <= k,
        k + 12 <= c.len(),
        c.subrange(k, k + 12) == "dedent-paste"@,
    ensures
        event_runs_binary(e),
{
    reveal_strlit("dedent-paste");
    assert(BINARY_KEYWORD@ == "dedent-paste"@);
    assert(crate::text::occurs_at(c, BINARY_KEYWORD@, k));
}

/// The command built for the rule mentions `dedent-paste`, whatever the
/// path, so an event running it is recognised as dedent-paste's.
pub proof fn lemma_built_command_is_recognised(e: Json, path: Seq<char>)
    requires
        get(e, "shell_command"@) == Some(Json::Str(shell_command_spec(path))),
    ensures
        event_runs_binary(e),
{
    reveal_strlit(". \"");
    reveal_strlit("$HOME/.config/dedent-paste/env");
    reveal_strlit("dedent-paste");
    assert(ENV_FILE_SHELL_PATH@ == "$HOME/.config/dedent-paste/env"@);
    let c = shell_command_spec(path);
    let head = ". \""@ + ENV_FILE_SHELL_PATH@;
    assert(c == head + ("\" 2>/dev/null; exec "@ + shell_quote_spec(path)));
    assert(c.subrange(17, 29) =~= head.subrange(17, 29));
    assert(head.subrange(17, 29) =~= "dedent-paste"@);
    lemma_any_mention_is_recognised(e, c, 17);
}

} // verus!
