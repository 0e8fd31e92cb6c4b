//! Self-update: version numbers, how the program was installed, where the
//! latest version is announced, and what an update run should do. Fetching
//! release metadata and running installers is the caller's.
use vstd::prelude::*;

use core::cmp::Ordering;

use crate::dedent::slice_chars;
use crate::json::{as_str, get, get_field, Json, JsonValue};
use crate::json_text::{json_text_parse, parse_json};
use crate::settings::{parse_u64, parse_u64_spec};
use crate::text::{
    chars_of, contains_chars, contains_seq, first_sep, push_str, scan_to, split_chars, split_on, string_of,
    trim_chars, trim_ws,
};

verus! {

#[derive(Debug, Clone, Copy, PartialEq, Eq, Structural)]
pub enum InstallMethod {
    Homebrew,
    Npm,
    Cargo,
    LocalBuild,
    Standalone,
}

#[derive(Debug, Clone, PartialEq, Eq, Default)]
pub struct UpdateOptions {
    /// Only report whether an update is available.
    pub check: bool,
    /// Reinstall even when already up to date.
    pub force: bool,
}

#[derive(Debug, Clone, PartialEq, Eq)]
pub struct SemVer {
    pub major: u64,
    pub minor: u64,
    pub patch: u64,
    pub prerelease: Option<String>,
}

// ---------------------------------------------------------------------------
// Version numbers
// ---------------------------------------------------------------------------

/// The text after a leading `v`, if there is one.
pub open spec fn strip_v(s: Seq<char>) -> Seq<char> {
    if s.len() > 0 && s[0] == 'v' {
        s.drop_first()
    } else {
        s
    }
}

/// `(major, minor, patch, prerelease)` of a version string: surrounding
/// whitespace and a leading `v` are ignored, a `-` starts the prerelease, and
/// the rest must be exactly three dot-separated `u64` numbers.
pub open spec fn semver_spec(s: Seq<char>) -> Option<(u64, u64, u64, Option<Seq<char>>)> {
    let t = strip_v(trim_ws(s));
    let (ver, pre) = match first_sep(t, '-') {
        Some(k) => (t.take(k as int), Some(t.skip(k as int + 1))),
        None => (t, None),
    };
    let parts = split_on(ver, '.');
    if parts.len() == 3 && parse_u64_spec(parts[0]) is Some && parse_u64_spec(parts[1]) is Some
        && parse_u64_spec(parts[2]) is Some {
        Some(
            (
                parse_u64_spec(parts[0]).unwrap(),
                parse_u64_spec(parts[1]).unwrap(),
                parse_u64_spec(parts[2]).unwrap(),
                pre,
            ),
        )
    } else {
        None
    }
}

pub open spec fn semver_view(v: SemVer) -> (u64, u64, u64, Option<Seq<char>>) {
    (
        v.major,
        v.minor,
        v.patch,
        match v.prerelease {
            Some(p) => Some(p@),
            None => None,
        },
    )
}

/// Lexicographic order of character sequences (the order of `str`).
pub open spec fn text_order(a: Seq<char>, b: Seq<char>) -> Ordering
    decreases a.len(),
{
    if a.len() == 0 {
        if b.len() == 0 {
            Ordering::Equal
        } else {
            Ordering::Less
        }
    } else if b.len() == 0 {
        Ordering::Greater
    } else if a[0] < b[0] {
        Ordering::Less
    } else if a[0] > b[0] {
        Ordering::Greater
    } else {
        text_order(a.drop_first(), b.drop_first())
    }
}

pub open spec fn number_order(a: u64, b: u64) -> Ordering {
    if a < b {
        Ordering::Less
    } else if a > b {
        Ordering::Greater
    } else {
        Ordering::Equal
    }
}

/// Release order: by major, minor and patch; for equal numbers a prerelease
/// comes before the release, and prereleases go by their text.
pub open spec fn version_order(
    a: (u64, u64, u64, Option<Seq<char>>),
    b: (u64, u64, u64, Option<Seq<char>>),
) -> Ordering {
    if a.0 != b.0 {
        number_order(a.0, b.0)
    } else if a.1 != b.1 {
        number_order(a.1, b.1)
    } else if a.2 != b.2 {
        number_order(a.2, b.2)
    } else {
        match (a.3, b.3) {
            (None, None) => Ordering::Equal,
            (Some(_), None) => Ordering::Less,
            (None, Some(_)) => Ordering::Greater,
            (Some(x), Some(y)) => text_order(x, y),
        }
    }
}

fn copy_chars(v: &Vec<char>) -> (r: String)
    ensures
        r@ == v@,
{
    string_of(v.as_slice())
}

impl SemVer {
    /// Parse `1.2.3`, `v1.2.3` or `1.2.3-rc.1`.
    pub fn parse(s: &str) -> (r: Option<SemVer>)
        ensures
            match semver_spec(s@) {
                Some(v) => r matches Some(x) && semver_view(x) == v,
                None => r is None,
            },
    {
        let cs = chars_of(s);
        let trimmed = trim_chars(&cs);
        let start: usize = if trimmed.len() > 0 && trimmed[0] == 'v' {
            1
        } else {
            0
        };
        let t = slice_chars(&trimmed, start, trimmed.len());
        proof {
            assert(t@ == strip_v(trim_ws(s@)));
            crate::text::lemma_first_sep_bound(t@, '-');
            assert(t@.skip(0) == t@);
        }
        let dash = scan_to(&t, 0, '-');
        let ver;
        let pre;
        if dash < t.len() {
            ver = slice_chars(&t, 0, dash);
            let p = slice_chars(&t, dash + 1, t.len());
            pre = Some(copy_chars(&p));
            proof {
                assert(t@.subrange(0, dash as int) == t@.take(dash as int));
                assert(t@.subrange(dash + 1, t@.len() as int) == t@.skip(dash + 1));
            }
        } else {
            ver = slice_chars(&t, 0, t.len());
            pre = None;
            proof {
                assert(t@.subrange(0, t@.len() as int) == t@);
            }
        }
        let parts = split_chars(&ver, '.');
        if parts.len() != 3 {
            return None;
        }
        proof {
            assert(parts@[0]@ == split_on(ver@, '.')[0]);
            assert(parts@[1]@ == split_on(ver@, '.')[1]);
            assert(parts@[2]@ == split_on(ver@, '.')[2]);
        }
        let major = match parse_u64(&parts[0]) {
            Some(n) => n,
            None => return None,
        };
        let minor = match parse_u64(&parts[1]) {
            Some(n) => n,
            None => return None,
        };
        let patch = match parse_u64(&parts[2]) {
            Some(n) => n,
            None => return None,
        };
        Some(SemVer { major, minor, patch, prerelease: pre })
    }

    /// Where `self` stands relative to `other` in release order.
    pub fn compare(&self, other: &SemVer) -> (r: Ordering)
        ensures
            r == version_order(semver_view(*self), semver_view(*other)),
    {
        if self.major != other.major {
            return if self.major < other.major {
                Ordering::Less
            } else {
                Ordering::Greater
            };
        }
        if self.minor != other.minor {
            return if self.minor < other.minor {
                Ordering::Less
            } else {
                Ordering::Greater
            };
        }
        if self.patch != other.patch {
            return if self.patch < other.patch {
                Ordering::Less
            } else {
                Ordering::Greater
            };
        }
        match (&self.prerelease, &other.prerelease) {
            (None, None) => Ordering::Equal,
            (Some(_), None) => Ordering::Less,
            (None, Some(_)) => Ordering::Greater,
            (Some(a), Some(b)) => {
                let x = chars_of(a.as_str());
                let y = chars_of(b.as_str());
                compare_chars(&x, &y)
            },
        }
    }
}

proof fn lemma_text_order_from(a: Seq<char>, b: Seq<char>, i: int)
    requires
        0 <= i <= a.len(),
        i <= b.len(),
        forall|k: int| 0 <= k < i ==> a[k] == b[k],
    ensures
        text_order(a, b) == text_order(a.skip(i), b.skip(i)),
    decreases i,
{
    if i > 0 {
        assert(a.skip(0) == a);
        assert forall|k: int| 0 <= k < i - 1 implies a.drop_first()[k] == b.drop_first()[k] by {
            assert(a[k + 1] == b[k + 1]);
        }
        lemma_text_order_from(a.drop_first(), b.drop_first(), i - 1);
        assert(a.drop_first().skip(i - 1) =~= a.skip(i));
        assert(b.drop_first().skip(i - 1) =~= b.skip(i));
    } else {
        assert(a.skip(0) == a);
        assert(b.skip(0) == b);
    }
}

/// Length of the longest common prefix of `a` and `b`.
fn common_prefix_len(a: &Vec<char>, b: &Vec<char>) -> (r: (usize, Ghost<int>))
    ensures
        r.1@ == r.0 as int,
        r.0 <= a@.len(),
        r.0 <= b@.len(),
        forall|k: int| 0 <= k < r.0 ==> a@[k] == b@[k],
        r.0 < a@.len() && r.0 < b@.len() ==> a@[r.0 as int] != b@[r.0 as int],
{
    let mut i: usize = 0;
    while i < a.len() && i < b.len() && a[i] == b[i]
        invariant
            i <= a@.len(),
            i <= b@.len(),
            forall|k: int| 0 <= k < i ==> a@[k] == b@[k],
        decreases a@.len() - i,
    {
        i += 1;
    }
    (i, Ghost(i as int))
}

fn compare_chars(a: &Vec<char>, b: &Vec<char>) -> (r: Ordering)
    ensures
        r == text_order(a@, b@),
{
    let (i, gi) = common_prefix_len(a, b);
    proof {
        lemma_text_order_from(a@, b@, gi@);
    }
    if i == a.len() {
        if i == b.len() {
            Ordering::Equal
        } else {
            Ordering::Less
        }
    } else if i == b.len() {
        Ordering::Greater
    } else if a[i] < b[i] {
        Ordering::Less
    } else {
        Ordering::Greater
    }
}

/// `latest` names a later release than `current`; false when either is not
/// a version.
pub open spec fn newer_spec(current: Seq<char>, latest: Seq<char>) -> bool {
    semver_spec(current) is Some && semver_spec(latest) is Some && version_order(
        semver_spec(latest).unwrap(),
        semver_spec(current).unwrap(),
    ) == Ordering::Greater
}

/// Whether `latest` names a later release than `current` (see `newer_spec`).
pub fn is_newer_version(current: &str, latest: &str) -> (r: bool)
    ensures
        r == newer_spec(current@, latest@),
{
    let c = match SemVer::parse(current) {
        Some(v) => v,
        None => return false,
    };
    let l = match SemVer::parse(latest) {
        Some(v) => v,
        None => return false,
    };
    match l.compare(&c) {
        Ordering::Greater => true,
        _ => false,
    }
}

proof fn lemma_text_order_flip(a: Seq<char>, b: Seq<char>)
    ensures
        (text_order(a, b) == Ordering::Greater) == (text_order(b, a) == Ordering::Less),
        (text_order(a, b) == Ordering::Equal) == (a == b),
    decreases a.len(),
{
    if a.len() > 0 && b.len() > 0 && a[0] == b[0] {
        lemma_text_order_flip(a.drop_first(), b.drop_first());
        if a.drop_first() == b.drop_first() {
            assert(a =~= seq![a[0]] + a.drop_first());
            assert(b =~= seq![b[0]] + b.drop_first());
        }
    }
    if a.len() == 0 && b.len() == 0 {
        assert(a =~= b);
    }
}

proof fn lemma_text_order_trans(a: Seq<char>, b: Seq<char>, c: Seq<char>)
    requires
        text_order(a, b) == Ordering::Greater,
        text_order(b, c) == Ordering::Greater,
    ensures
        text_order(a, c) == Ordering::Greater,
    decreases a.len(),
{
    if a.len() > 0 && b.len() > 0 && c.len() > 0 && a[0] == b[0] && b[0] == c[0] {
        lemma_text_order_trans(a.drop_first(), b.drop_first(), c.drop_first());
    }
}

proof fn lemma_version_order_flip(
    a: (u64, u64, u64, Option<Seq<char>>),
    b: (u64, u64, u64, Option<Seq<char>>),
)
    ensures
        (version_order(a, b) == Ordering::Greater) == (version_order(b, a) == Ordering::Less),
{
    if let (Some(x), Some(y)) = (a.3, b.3) {
        lemma_text_order_flip(x, y);
    }
}

proof fn lemma_version_order_irreflexive(a: (u64, u64, u64, Option<Seq<char>>))
    ensures
        version_order(a, a) != Ordering::Greater,
{
    if let Some(x) = a.3 {
        lemma_text_order_flip(x, x);
    }
}

proof fn lemma_version_order_trans(
    a: (u64, u64, u64, Option<Seq<char>>),
    b: (u64, u64, u64, Option<Seq<char>>),
    c: (u64, u64, u64, Option<Seq<char>>),
)
    requires
        version_order(a, b) == Ordering::Greater,
        version_order(b, c) == Ordering::Greater,
    ensures
        version_order(a, c) == Ordering::Greater,
{
    if a.0 == b.0 && b.0 == c.0 && a.1 == b.1 && b.1 == c.1 && a.2 == b.2 && b.2 == c.2 {
        if let (Some(x), Some(y), Some(z)) = (a.3, b.3, c.3) {
            lemma_text_order_trans(x, y, z);
        }
    }
}

/// "Newer than" is a strict order on version strings: no version is newer
/// than itself, of two versions at most one is newer than the other, and a
/// version newer than a newer one is newer still.
pub proof fn lemma_newer_version_is_strict(a: Seq<char>, b: Seq<char>, c: Seq<char>)
    ensures
        !newer_spec(a, a),
        newer_spec(a, b) ==> !newer_spec(b, a),
        newer_spec(a, b) && newer_spec(b, c) ==> newer_spec(a, c),
{
    if semver_spec(a) is Some {
        lemma_version_order_irreflexive(semver_spec(a).unwrap());
    }
    if semver_spec(a) is Some && semver_spec(b) is Some {
        lemma_version_order_flip(semver_spec(a).unwrap(), semver_spec(b).unwrap());
    }
    if semver_spec(a) is Some && semver_spec(b) is Some && semver_spec(c) is Some {
        if newer_spec(a, b) && newer_spec(b, c) {
            lemma_version_order_trans(
                semver_spec(c).unwrap(),
                semver_spec(b).unwrap(),
                semver_spec(a).unwrap(),
            );
        }
    }
}

// ---------------------------------------------------------------------------
// How the program was installed
// ---------------------------------------------------------------------------

/// `str::to_lowercase`: the Unicode lowercase mapping of a text.
pub uninterp spec fn unicode_lowercase(s: Seq<char>) -> Seq<char>;

/// `str::to_lowercase`; the result depends on the text alone.
#[verifier::external_body]
fn to_lowercase(s: &str) -> (r: String)
    ensures
        r@ == unicode_lowercase(s@),
{
    s.to_lowercase()
}

/// Backslashes turned into forward slashes.
pub open spec fn forward_slashes(s: Seq<char>) -> Seq<char> {
    Seq::new(s.len(), |i: int| if s[i] == '\\' { '/' } else { s[i] })
}

/// The install method a normalised (forward-slash, lowercase) path shows.
pub open spec fn install_method_spec(p: Seq<char>) -> InstallMethod {
    if contains_seq(p, "/target/debug/"@) || contains_seq(p, "/target/release/"@) {
        InstallMethod::LocalBuild
    } else if contains_seq(p, "/cellar/"@) || contains_seq(p, "/opt/homebrew/"@) || contains_seq(
        p,
        "/.linuxbrew/"@,
    ) {
        InstallMethod::Homebrew
    } else if contains_seq(p, "/node_modules/"@) || contains_seq(p, "/.nvm/"@) || contains_seq(
        p,
        "/npm/"@,
    ) || contains_seq(p, "/npm-global/"@) {
        InstallMethod::Npm
    } else if contains_seq(p, "/.cargo/bin/"@) {
        InstallMethod::Cargo
    } else {
        InstallMethod::Standalone
    }
}

fn has(p: &Vec<char>, needle: &str) -> (r: bool)
    ensures
        r == contains_seq(p@, needle@),
{
    let n = chars_of(needle);
    contains_chars(p, &n)
}

/// The install method a normalised path (forward slashes, lowercase) shows:
/// a Cargo build directory, Homebrew, npm, `cargo install`, or none of them.
pub fn install_method_for_normalized(path: &str) -> (r: InstallMethod)
    ensures
        r == install_method_spec(path@),
{
    let p = chars_of(path);
    if has(&p, "/target/debug/") || has(&p, "/target/release/") {
        return InstallMethod::LocalBuild;
    }
    if has(&p, "/cellar/") || has(&p, "/opt/homebrew/") || has(&p, "/.linuxbrew/") {
        return InstallMethod::Homebrew;
    }
    if has(&p, "/node_modules/") || has(&p, "/.nvm/") || has(&p, "/npm/") || has(
        &p,
        "/npm-global/",
    ) {
        return InstallMethod::Npm;
    }
    if has(&p, "/.cargo/bin/") {
        return InstallMethod::Cargo;
    }
    InstallMethod::Standalone
}

/// How the executable at `path` was installed, judged by its path with
/// backslashes turned into slashes and letters lowercased.
pub fn detect_install_method_str(path: &str) -> (r: InstallMethod)
    ensures
        r == install_method_spec(unicode_lowercase(forward_slashes(path@))),
{
    let cs = chars_of(path);
    let mut out: Vec<char> = Vec::new();
    let mut i: usize = 0;
    while i < cs.len()
        invariant
            i <= cs@.len(),
            cs@ == path@,
            out@ == forward_slashes(cs@.take(i as int)),
        decreases cs@.len() - i,
    {
        if cs[i] == '\\' {
            out.push('/');
        } else {
            out.push(cs[i]);
        }
        assert(out@ =~= forward_slashes(cs@.take(i + 1)));
        i += 1;
    }
    assert(cs@.take(cs@.len() as int) =~= cs@);
    let slashed = string_of(out.as_slice());
    let lower = to_lowercase(slashed.as_str());
    install_method_for_normalized(lower.as_str())
}

// ---------------------------------------------------------------------------
// Release metadata
// ---------------------------------------------------------------------------

/// A candidate version text, without a leading `v`, when that is a version.
pub open spec fn version_candidate(c: Option<Seq<char>>) -> Option<Seq<char>> {
    match c {
        Some(t) => if semver_spec(strip_v(t)) is Some {
            Some(strip_v(t))
        } else {
            None
        },
        None => None,
    }
}

/// `releases[0].app_version` of a release manifest.
pub open spec fn first_release_version(v: Json) -> Option<Seq<char>> {
    match get(v, "releases"@) {
        Some(Json::Array(rs)) => if rs.len() > 0 {
            as_str(get(rs[0], "app_version"@))
        } else {
            None
        },
        _ => None,
    }
}

/// The latest version in release metadata: the manifest's
/// `announcement_tag`, then its first release's `app_version`, then a GitHub
/// release's `tag_name`, then its `name`; the first that is a version wins.
pub open spec fn latest_version_spec(v: Json) -> Option<Seq<char>> {
    if version_candidate(as_str(get(v, "announcement_tag"@))) is Some {
        version_candidate(as_str(get(v, "announcement_tag"@)))
    } else if version_candidate(first_release_version(v)) is Some {
        version_candidate(first_release_version(v))
    } else if version_candidate(as_str(get(v, "tag_name"@))) is Some {
        version_candidate(as_str(get(v, "tag_name"@)))
    } else {
        version_candidate(as_str(get(v, "name"@)))
    }
}

fn candidate(v: Option<&JsonValue>) -> (r: Option<String>)
    ensures
        match v {
            Some(x) => match version_candidate(as_str(Some(x@))) {
                Some(t) => r matches Some(s) && s@ == t,
                None => r is None,
            },
            None => r is None,
        },
{
    match v {
        Some(JsonValue::String(t)) => {
            let cs = chars_of(t.as_str());
            let start: usize = if cs.len() > 0 && cs[0] == 'v' {
                1
            } else {
                0
            };
            let clean = slice_chars(&cs, start, cs.len());
            assert(clean@ == strip_v(t@));
            let text = string_of(clean.as_slice());
            match SemVer::parse(text.as_str()) {
                Some(_) => Some(text),
                None => None,
            }
        },
        Some(other) => {
            proof {
                crate::json::lemma_model_kind(*other);
            }
            None
        },
        None => None,
    }
}

fn first_release_field(v: &JsonValue) -> (r: Option<&JsonValue>)
    ensures
        match r {
            Some(x) => first_release_version(v@) == as_str(Some(x@)),
            None => first_release_version(v@) is None,
        },
{
    match get_field(v, "releases") {
        Some(JsonValue::Array(rs)) => {
            proof {
                crate::json::lemma_model_array(*rs);
            }
            if rs.len() == 0 {
                return None;
            }
            assert(crate::json::model_items(rs@)[0] == rs@[0]@);
            get_field(&rs[0], "app_version")
        },
        Some(other) => {
            proof {
                crate::json::lemma_model_kind(*other);
            }
            None
        },
        None => None,
    }
}

/// The latest version named in parsed release metadata (see
/// `latest_version_spec`).
pub fn latest_version_in(v: &JsonValue) -> (r: Option<String>)
    ensures
        match latest_version_spec(v@) {
            Some(t) => r matches Some(s) && s@ == t,
            None => r is None,
        },
{
    if let Some(s) = candidate(get_field(v, "announcement_tag")) {
        return Some(s);
    }
    if let Some(s) = candidate(first_release_field(v)) {
        return Some(s);
    }
    if let Some(s) = candidate(get_field(v, "tag_name")) {
        return Some(s);
    }
    candidate(get_field(v, "name"))
}

/// The latest version in a release manifest or GitHub release, as JSON text.
pub fn extract_latest_version(json_str: &str) -> (r: Option<String>)
    ensures
        match json_text_parse(json_str@) {
            None => r is None,
            Some(v) => match latest_version_spec(v) {
                Some(t) => r matches Some(s) && s@ == t,
                None => r is None,
            },
        },
{
    match parse_json(json_str) {
        Ok(v) => latest_version_in(&v),
        Err(_) => None,
    }
}

/// A 2xx HTTP status.
pub fn is_success_status(status: u16) -> (r: bool)
    ensures
        r == (200 <= status < 300),
{
    200 <= status && status < 300
}

// ---------------------------------------------------------------------------
// What an update run does
// ---------------------------------------------------------------------------

/// The decision of an update run, once the latest version is known.
#[derive(Debug, Clone, Copy, PartialEq, Eq, Structural)]
pub enum UpdateAction {
    /// `--check`: a newer version exists; tell how to get it.
    ReportAvailable,
    /// `--check`: already the latest version.
    ReportUpToDate,
    /// Nothing to do without `--force`.
    AlreadyUpToDate,
    /// Installed by a package manager or built locally: refuse, and point
    /// at the right tool.
    RefuseManaged,
    /// Run the standalone installer.
    SelfUpdate,
}

/// What `update` does for `options`, the install method and whether a newer
/// version exists.
pub fn plan_update(options: &UpdateOptions, method: InstallMethod, update_available: bool) -> (r:
    UpdateAction)
    ensures
        r == if options.check {
            if update_available {
                UpdateAction::ReportAvailable
            } else {
                UpdateAction::ReportUpToDate
            }
        } else if !update_available && !options.force {
            UpdateAction::AlreadyUpToDate
        } else if method != InstallMethod::Standalone {
            UpdateAction::RefuseManaged
        } else {
            UpdateAction::SelfUpdate
        },
{
    if options.check {
        if update_available {
            UpdateAction::ReportAvailable
        } else {
            UpdateAction::ReportUpToDate
        }
    } else if !update_available && !options.force {
        UpdateAction::AlreadyUpToDate
    } else {
        match method {
            InstallMethod::Standalone => UpdateAction::SelfUpdate,
            _ => UpdateAction::RefuseManaged,
        }
    }
}

// ---------------------------------------------------------------------------
// Requests to GitHub
// ---------------------------------------------------------------------------

pub const ENV_GITHUB_TOKEN: &'static str = "DEDENT_PASTE_GITHUB_TOKEN";
pub const ENV_GITHUB_TOKEN_FALLBACK: &'static str = "GITHUB_TOKEN";

pub open spec fn text_of(v: Option<String>) -> Option<Seq<char>> {
    match v {
        Some(s) => Some(s@),
        None => None,
    }
}

/// The token a looked-up value gives: the value trimmed, when that is not
/// empty.
pub open spec fn token_from(v: Option<String>) -> Option<Seq<char>> {
    match v {
        Some(t) => if trim_ws(t@).len() > 0 {
            Some(trim_ws(t@))
        } else {
            None
        },
        None => None,
    }
}

/// The token to authenticate GitHub requests with: the tool's variable when
/// it is set (even to blanks), else `GITHUB_TOKEN`; blank tokens are not sent.
pub fn github_token<F: Fn(&str) -> Option<String>>(get: F) -> (r: Option<String>)
    requires
        forall|k: &str| get.requires((k,)),
    ensures
        exists|a: Option<String>|
            #[trigger] get.ensures((ENV_GITHUB_TOKEN,), a) && match a {
                Some(_) => text_of(r) == token_from(a),
                None => exists|b: Option<String>|
                    #[trigger] get.ensures((ENV_GITHUB_TOKEN_FALLBACK,), b) && text_of(r)
                        == token_from(b),
            },
{
    let v = match get(ENV_GITHUB_TOKEN) {
        Some(t) => Some(t),
        None => get(ENV_GITHUB_TOKEN_FALLBACK),
    };
    match v {
        Some(t) => {
            let cs = chars_of(t.as_str());
            let trimmed = trim_chars(&cs);
            if trimmed.len() > 0 {
                Some(string_of(trimmed.as_slice()))
            } else {
                None
            }
        },
        None => None,
    }
}

} // verus!

verus! {

// ---------------------------------------------------------------------------
// Messages of an update run
// ---------------------------------------------------------------------------

/// What `update --check` tells a user of `method` to run when a newer version
/// exists; `exe` is the running executable's path.
pub open spec fn update_instruction_spec(method: InstallMethod, exe: Seq<char>) -> Seq<char> {
    match method {
        InstallMethod::Homebrew => "To update, run: brew upgrade dedent-paste"@,
        InstallMethod::Npm => "To update, run: npm install -g dedent-paste"@,
        InstallMethod::Cargo => "To update, run: cargo install --locked dedent-paste"@,
        InstallMethod::LocalBuild => "dedent-paste is running from a local build ("@ + exe + ")"@,
        InstallMethod::Standalone => "To update, run: dedent-paste update"@,
    }
}

pub fn update_instruction(method: InstallMethod, exe: &str) -> (r: String)
    ensures
        r@ == update_instruction_spec(method, exe@),
{
    let mut out: Vec<char> = Vec::new();
    match method {
        InstallMethod::Homebrew => push_str(&mut out, "To update, run: brew upgrade dedent-paste"),
        InstallMethod::Npm => push_str(&mut out, "To update, run: npm install -g dedent-paste"),
        InstallMethod::Cargo => push_str(
            &mut out,
            "To update, run: cargo install --locked dedent-paste",
        ),
        InstallMethod::LocalBuild => {
            push_str(&mut out, "dedent-paste is running from a local build (");
            push_str(&mut out, exe);
            push_str(&mut out, ")");
        },
        InstallMethod::Standalone => push_str(&mut out, "To update, run: dedent-paste update"),
    }
    string_of(out.as_slice())
}

/// Why an update is refused for an installation that a package manager owns
/// or that was built locally; nothing for a standalone installation.
pub open spec fn managed_refusal_spec(method: InstallMethod, exe: Seq<char>) -> Option<Seq<char>> {
    match method {
        InstallMethod::Homebrew => Some(
            "dedent-paste was installed via Homebrew. Please run: brew upgrade dedent-paste"@,
        ),
        InstallMethod::Npm => Some(
            "dedent-paste was installed via npm. Please run: npm install -g dedent-paste"@,
        ),
        InstallMethod::Cargo => Some(
            "dedent-paste was installed via Cargo. Please run: cargo install --locked dedent-paste"@,
        ),
        InstallMethod::LocalBuild => Some(
            "dedent-paste is running from a local build ("@ + exe + "). Skipping self-update."@,
        ),
        InstallMethod::Standalone => None,
    }
}

pub fn managed_refusal(method: InstallMethod, exe: &str) -> (r: Option<String>)
    ensures
        match managed_refusal_spec(method, exe@) {
            Some(m) => r matches Some(s) && s@ == m,
            None => r is None,
        },
{
    let mut out: Vec<char> = Vec::new();
    match method {
        InstallMethod::Homebrew => push_str(
            &mut out,
            "dedent-paste was installed via Homebrew. Please run: brew upgrade dedent-paste",
        ),
        InstallMethod::Npm => push_str(
            &mut out,
            "dedent-paste was installed via npm. Please run: npm install -g dedent-paste",
        ),
        InstallMethod::Cargo => push_str(
            &mut out,
            "dedent-paste was installed via Cargo. Please run: cargo install --locked dedent-paste",
        ),
        InstallMethod::LocalBuild => {
            push_str(&mut out, "dedent-paste is running from a local build (");
            push_str(&mut out, exe);
            push_str(&mut out, "). Skipping self-update.");
        },
        InstallMethod::Standalone => {
            return None;
        },
    }
    Some(string_of(out.as_slice()))
}

// ---------------------------------------------------------------------------
// Finding the latest version
// ---------------------------------------------------------------------------

/// The version a release-manifest request gives: the latest version in a
/// successful reply; nothing, so that the GitHub API is asked instead, when
/// the request failed, the status is not 2xx or no version is found.
pub fn version_from_manifest_reply(reply: Option<(u16, &str)>) -> (r: Option<String>)
    ensures
        match reply {
            Some((status, body)) => if 200 <= status < 300 {
                match json_text_parse(body@) {
                    None => r is None,
                    Some(v) => match latest_version_spec(v) {
                        Some(t) => r matches Some(s) && s@ == t,
                        None => r is None,
                    },
                }
            } else {
                r is None
            },
            None => r is None,
        },
{
    match reply {
        Some((status, body)) => {
            if is_success_status(status) {
                extract_latest_version(body)
            } else {
                None
            }
        },
        None => None,
    }
}

/// What a GitHub API request for the latest release gives: the version, or
/// the error to report. `reply` is the status and body, or the transport
/// error's text.
pub open spec fn api_reply_failure(url: Seq<char>, reply: Result<(u16, Seq<char>), Seq<char>>) -> Option<
    Seq<char>,
> {
    match reply {
        Err(e) => Some("failed to check for updates: "@ + e),
        Ok((status, body)) => if !(200 <= status < 300) {
            Some(
                "failed to check for updates from "@ + url + " (HTTP "@ + crate::text::decimal(
                    status as nat,
                ) + ")"@,
            )
        } else if json_text_parse(body) is None || latest_version_spec(
            json_text_parse(body)->0,
        ) is None {
            Some("could not determine latest version from release metadata"@)
        } else {
            None
        },
    }
}

pub fn version_from_api_reply(url: &str, reply: Result<(u16, &str), &str>) -> (r: Result<
    String,
    String,
>)
    ensures
        match api_reply_failure(
            url@,
            match reply {
                Ok((status, body)) => Ok((status, body@)),
                Err(e) => Err(e@),
            },
        ) {
            Some(m) => r matches Err(e) && e@ == m,
            None => r matches Ok(v) && reply matches Ok((_, body)) && v@ == latest_version_spec(
                json_text_parse(body@)->0,
            )->0,
        },
{
    match reply {
        Err(e) => {
            let mut out: Vec<char> = Vec::new();
            push_str(&mut out, "failed to check for updates: ");
            push_str(&mut out, e);
            Err(string_of(out.as_slice()))
        },
        Ok((status, body)) => {
            if !is_success_status(status) {
                let mut out: Vec<char> = Vec::new();
                push_str(&mut out, "failed to check for updates from ");
                push_str(&mut out, url);
                push_str(&mut out, " (HTTP ");
                crate::text::push_decimal(&mut out, u64::from(status));
                push_str(&mut out, ")");
                return Err(string_of(out.as_slice()));
            }
            match extract_latest_version(body) {
                Some(v) => Ok(v),
                None => Err(
                    "could not determine latest version from release metadata".to_string(),
                ),
            }
        },
    }
}

/// The installer script of the latest release under `base_url`: the shell
/// script, or the PowerShell one on Windows.
pub open spec fn installer_script_url_spec(base_url: Seq<char>, powershell: bool) -> Seq<char> {
    base_url + "/doggy8088/dedent-paste/releases/latest/download/dedent-paste-installer"@ + if powershell {
        ".ps1"@
    } else {
        ".sh"@
    }
}

pub fn installer_script_url(base_url: &str, powershell: bool) -> (r: String)
    ensures
        r@ == installer_script_url_spec(base_url@, powershell),
{
    let mut out: Vec<char> = Vec::new();
    push_str(&mut out, base_url);
    push_str(&mut out, "/doggy8088/dedent-paste/releases/latest/download/dedent-paste-installer");
    if powershell {
        push_str(&mut out, ".ps1");
    } else {
        push_str(&mut out, ".sh");
    }
    string_of(out.as_slice())
}

} // verus!

verus! {

/// Releases go by major, then minor, then patch number: when the numbers of
/// `latest` come after those of `current` in that order, `latest` is newer,
/// and when they come before, it is not (whatever the prereleases). For the
/// same numbers a release is newer than a prerelease, and prereleases go by
/// their text.
pub proof fn lemma_newer_goes_by_major_minor_patch(current: Seq<char>, latest: Seq<char>)
    requires
        semver_spec(current) is Some,
        semver_spec(latest) is Some,
    ensures
        ({
            let a = semver_spec(current).unwrap();
            let b = semver_spec(latest).unwrap();
            &&& (a.0 < b.0 || (a.0 == b.0 && (a.1 < b.1 || (a.1 == b.1 && a.2 < b.2)))) ==> newer_spec(
                current,
                latest,
            )
            &&& (b.0 < a.0 || (b.0 == a.0 && (b.1 < a.1 || (b.1 == a.1 && b.2 < a.2)))) ==> !newer_spec(
                current,
                latest,
            )
            &&& (a.0 == b.0 && a.1 == b.1 && a.2 == b.2) ==> (newer_spec(current, latest) <==> (
            a.3 is Some && (b.3 is None || text_order(b.3->0, a.3->0) == Ordering::Greater)))
        }),
{
}

} // verus!
