//! The command line: which command the arguments ask for, and the paste
//! options that command-line flags and environment variables set.
use vstd::prelude::*;

use crate::settings::{non_empty, parse_u64, parse_u64_spec};
use crate::text::{chars_of, push_str, str_eq, string_of, trim_chars, trim_ws};
use crate::update::UpdateOptions;

verus! {

pub const ENV_NO_PASTE: &'static str = "DEDENT_PASTE_NO_PASTE";
pub const ENV_PASTE_DELAY_MS: &'static str = "DEDENT_PASTE_PASTE_DELAY_MS";

/// Paste options given on the command line; unset ones fall back to the
/// environment.
#[derive(Debug, Clone, Copy, PartialEq, Eq, Default)]
pub struct PasteCliOverrides {
    pub no_paste: bool,
    pub delay_ms: Option<u64>,
}

/// The paste behaviour in effect.
#[derive(Debug, Clone, Copy, PartialEq, Eq)]
pub struct PasteSettings {
    /// Rewrite the clipboard only; do not send the paste keystroke.
    pub no_paste: bool,
    /// Extra delay before the paste keystroke, in milliseconds.
    pub delay_ms: u64,
}

/// What the command line asks for.
#[derive(Debug, Clone, PartialEq, Eq)]
pub enum Command {
    Paste(PasteCliOverrides),
    Help,
    Version,
    Install,
    Uninstall,
    Update(UpdateOptions),
    UpdateHelp,
}

// ---------------------------------------------------------------------------
// Arguments
// ---------------------------------------------------------------------------

/// What `--paste-delay-ms` makes of its value.
pub open spec fn delay_spec(value: Seq<char>) -> Result<u64, Seq<char>> {
    match parse_u64_spec(trim_ws(value)) {
        Some(n) => Ok(n),
        None => Err("--paste-delay-ms must be a non-negative integer, got '"@ + value + "'"@),
    }
}

/// The options that must stand alone.
pub open spec fn is_exclusive(a: Seq<char>) -> bool {
    a == "-h"@ || a == "--help"@ || a == "-v"@ || a == "--version"@ || a == "-i"@ || a
        == "--install"@ || a == "-u"@ || a == "--uninstall"@ || a == "--update"@
}

pub open spec fn delay_prefix() -> Seq<char> {
    "--paste-delay-ms="@
}

/// The paste options in `args` from position `i` on, added to `acc`.
pub open spec fn paste_options_spec(args: Seq<Seq<char>>, i: int, acc: PasteCliOverrides) -> Result<
    PasteCliOverrides,
    Seq<char>,
>
    decreases args.len() - i,
{
    if i < 0 || i >= args.len() {
        Ok(acc)
    } else {
        let a = args[i];
        if a == "-n"@ || a == "--no-paste"@ {
            paste_options_spec(args, i + 1, PasteCliOverrides { no_paste: true, ..acc })
        } else if a == "--paste-delay-ms"@ {
            if i + 1 >= args.len() {
                Err("--paste-delay-ms requires a value in milliseconds"@)
            } else {
                match delay_spec(args[i + 1]) {
                    Ok(d) => paste_options_spec(
                        args,
                        i + 2,
                        PasteCliOverrides { delay_ms: Some(d), ..acc },
                    ),
                    Err(m) => Err(m),
                }
            }
        } else if a.len() >= delay_prefix().len() && a.take(delay_prefix().len() as int)
            == delay_prefix() {
            match delay_spec(a.skip(delay_prefix().len() as int)) {
                Ok(d) => paste_options_spec(
                    args,
                    i + 1,
                    PasteCliOverrides { delay_ms: Some(d), ..acc },
                ),
                Err(m) => Err(m),
            }
        } else if is_exclusive(a) {
            Err("'"@ + a + "' cannot be combined with other options"@)
        } else if a == "update"@ {
            Err("'update' is a subcommand and cannot be combined with other options"@)
        } else {
            Err("unknown option '"@ + a + "'"@)
        }
    }
}

/// The options of `update` from position `i` on, added to `acc`.
pub open spec fn update_options_spec(args: Seq<Seq<char>>, i: int, acc: UpdateOptions) -> Result<
    Command,
    Seq<char>,
>
    decreases args.len() - i,
{
    if i < 0 || i >= args.len() {
        Ok(Command::Update(acc))
    } else {
        let a = args[i];
        if a == "-c"@ || a == "--check"@ {
            update_options_spec(args, i + 1, UpdateOptions { check: true, ..acc })
        } else if a == "-f"@ || a == "--force"@ {
            update_options_spec(args, i + 1, UpdateOptions { force: true, ..acc })
        } else if a == "-h"@ || a == "--help"@ {
            Ok(Command::UpdateHelp)
        } else {
            Err("unknown option '"@ + a + "' for 'update'"@)
        }
    }
}

pub open spec fn no_update_options() -> UpdateOptions {
    UpdateOptions { check: false, force: false }
}

/// The command `args` (without the program name) ask for, or why they are
/// refused.
pub open spec fn parse_args_spec(args: Seq<Seq<char>>) -> Result<Command, Seq<char>> {
    if args.len() > 0 && args[0] == "update"@ {
        update_options_spec(args, 1, no_update_options())
    } else if args.len() == 1 && (args[0] == "-h"@ || args[0] == "--help"@) {
        Ok(Command::Help)
    } else if args.len() == 1 && (args[0] == "-v"@ || args[0] == "--version"@) {
        Ok(Command::Version)
    } else if args.len() == 1 && (args[0] == "-i"@ || args[0] == "--install"@) {
        Ok(Command::Install)
    } else if args.len() == 1 && (args[0] == "-u"@ || args[0] == "--uninstall"@) {
        Ok(Command::Uninstall)
    } else if args.len() == 1 && args[0] == "--update"@ {
        Ok(Command::Update(no_update_options()))
    } else {
        match paste_options_spec(args, 0, PasteCliOverrides { no_paste: false, delay_ms: None }) {
            Ok(o) => Ok(Command::Paste(o)),
            Err(m) => Err(m),
        }
    }
}

pub open spec fn arg_views(args: Seq<String>) -> Seq<Seq<char>> {
    Seq::new(args.len(), |i: int| args[i]@)
}

/// `"{a}{b}{c}"`.
fn concat3(a: &str, b: &str, c: &str) -> (r: String)
    ensures
        r@ == a@ + b@ + c@,
{
    let mut out: Vec<char> = Vec::new();
    push_str(&mut out, a);
    push_str(&mut out, b);
    push_str(&mut out, c);
    string_of(out.as_slice())
}

/// The value of `--paste-delay-ms`.
pub fn parse_delay_ms(value: &str) -> (r: Result<u64, String>)
    ensures
        match delay_spec(value@) {
            Ok(n) => r == Ok::<u64, String>(n),
            Err(m) => r matches Err(e) && e@ == m,
        },
{
    let cs = chars_of(value);
    let t = trim_chars(&cs);
    match parse_u64(&t) {
        Some(n) => Ok(n),
        None => Err(concat3("--paste-delay-ms must be a non-negative integer, got '", value, "'")),
    }
}

fn starts_with_delay_prefix(a: &str) -> (r: bool)
    ensures
        r == (a@.len() >= delay_prefix().len() && a@.take(delay_prefix().len() as int)
            == delay_prefix()),
{
    let cs = chars_of(a);
    let p = chars_of("--paste-delay-ms=");
    if cs.len() < p.len() {
        return false;
    }
    let mut k: usize = 0;
    while k < p.len()
        invariant
            k <= p@.len(),
            p@.len() <= cs@.len(),
            cs@ == a@,
            p@ == delay_prefix(),
            forall|j: int| 0 <= j < k ==> cs@[j] == p@[j],
        decreases p@.len() - k,
    {
        if cs[k] != p[k] {
            assert(cs@.take(p@.len() as int)[k as int] != p@[k as int]);
            return false;
        }
        k += 1;
    }
    assert(cs@.take(p@.len() as int) =~= p@);
    true
}

fn suffix_after(a: &str, n: usize) -> (r: String)
    requires
        n <= a@.len(),
    ensures
        r@ == a@.skip(n as int),
{
    let cs = chars_of(a);
    let tail = crate::dedent::slice_chars(&cs, n, cs.len());
    assert(cs@.subrange(n as int, cs@.len() as int) =~= cs@.skip(n as int));
    string_of(tail.as_slice())
}

fn is_exclusive_arg(a: &str) -> (r: bool)
    ensures
        r == is_exclusive(a@),
{
    str_eq(a, "-h") || str_eq(a, "--help") || str_eq(a, "-v") || str_eq(a, "--version") || str_eq(
        a,
        "-i",
    ) || str_eq(a, "--install") || str_eq(a, "-u") || str_eq(a, "--uninstall") || str_eq(
        a,
        "--update",
    )
}

fn parse_paste_options(args: &[String]) -> (r: Result<PasteCliOverrides, String>)
    ensures
        match paste_options_spec(
            arg_views(args@),
            0,
            PasteCliOverrides { no_paste: false, delay_ms: None },
        ) {
            Ok(o) => r == Ok::<PasteCliOverrides, String>(o),
            Err(m) => r matches Err(e) && e@ == m,
        },
{
    let ghost av = arg_views(args@);
    let mut acc = PasteCliOverrides { no_paste: false, delay_ms: None };
    let mut i: usize = 0;
    while i < args.len()
        invariant
            i <= args@.len(),
            av == arg_views(args@),
            paste_options_spec(av, i as int, acc) == paste_options_spec(
                av,
                0,
                PasteCliOverrides { no_paste: false, delay_ms: None },
            ),
        decreases args@.len() - i,
    {
        let a = args[i].as_str();
        assert(av[i as int] == a@);
        proof {
            reveal_strlit("--paste-delay-ms=");
        }
        if str_eq(a, "-n") || str_eq(a, "--no-paste") {
            acc = PasteCliOverrides { no_paste: true, ..acc };
            i += 1;
        } else if str_eq(a, "--paste-delay-ms") {
            if i + 1 >= args.len() {
                return Err(string_of(chars_of("--paste-delay-ms requires a value in milliseconds").as_slice()));
            }
            assert(av[i + 1] == args@[i + 1]@);
            match parse_delay_ms(args[i + 1].as_str()) {
                Ok(d) => {
                    acc = PasteCliOverrides { delay_ms: Some(d), ..acc };
                    i += 2;
                },
                Err(m) => return Err(m),
            }
        } else if starts_with_delay_prefix(a) {
            let value = suffix_after(a, 17);
            match parse_delay_ms(value.as_str()) {
                Ok(d) => {
                    acc = PasteCliOverrides { delay_ms: Some(d), ..acc };
                    i += 1;
                },
                Err(m) => return Err(m),
            }
        } else if is_exclusive_arg(a) {
            return Err(concat3("'", a, "' cannot be combined with other options"));
        } else if str_eq(a, "update") {
            return Err(
                string_of(
                    chars_of(
                        "'update' is a subcommand and cannot be combined with other options",
                    ).as_slice(),
                ),
            );
        } else {
            return Err(concat3("unknown option '", a, "'"));
        }
    }
    Ok(acc)
}

/// The options of the `update` subcommand (`args` after `update`).
pub fn parse_update_args(args: &[String]) -> (r: Result<Command, String>)
    ensures
        match update_options_spec(arg_views(args@), 0, no_update_options()) {
            Ok(c) => r == Ok::<Command, String>(c),
            Err(m) => r matches Err(e) && e@ == m,
        },
{
    let ghost av = arg_views(args@);
    let mut options = UpdateOptions { check: false, force: false };
    let mut i: usize = 0;
    while i < args.len()
        invariant
            i <= args@.len(),
            av == arg_views(args@),
            update_options_spec(av, i as int, options) == update_options_spec(
                av,
                0,
                no_update_options(),
            ),
        decreases args@.len() - i,
    {
        let a = args[i].as_str();
        assert(av[i as int] == a@);
        if str_eq(a, "-c") || str_eq(a, "--check") {
            options = UpdateOptions { check: true, ..options };
        } else if str_eq(a, "-f") || str_eq(a, "--force") {
            options = UpdateOptions { force: true, ..options };
        } else if str_eq(a, "-h") || str_eq(a, "--help") {
            return Ok(Command::UpdateHelp);
        } else {
            return Err(concat3("unknown option '", a, "' for 'update'"));
        }
        i += 1;
    }
    Ok(Command::Update(options))
}

/// The command the arguments (without the program name) ask for.
pub fn parse_args(args: &[String]) -> (r: Result<Command, String>)
    ensures
        match parse_args_spec(arg_views(args@)) {
            Ok(c) => r == Ok::<Command, String>(c),
            Err(m) => r matches Err(e) && e@ == m,
        },
{
    let ghost av = arg_views(args@);
    if args.len() > 0 && str_eq(args[0].as_str(), "update") {
        let (_, rest) = args.split_at(1);
        assert(arg_views(rest@) =~= av.skip(1));
        proof {
            lemma_update_options_shift(av, 1, no_update_options());
        }
        return parse_update_args(rest);
    }
    if args.len() == 1 {
        let a = args[0].as_str();
        if str_eq(a, "-h") || str_eq(a, "--help") {
            return Ok(Command::Help);
        }
        if str_eq(a, "-v") || str_eq(a, "--version") {
            return Ok(Command::Version);
        }
        if str_eq(a, "-i") || str_eq(a, "--install") {
            return Ok(Command::Install);
        }
        if str_eq(a, "-u") || str_eq(a, "--uninstall") {
            return Ok(Command::Uninstall);
        }
        if str_eq(a, "--update") {
            return Ok(Command::Update(UpdateOptions { check: false, force: false }));
        }
    }
    match parse_paste_options(args) {
        Ok(o) => Ok(Command::Paste(o)),
        Err(m) => Err(m),
    }
}

proof fn lemma_update_options_shift(av: Seq<Seq<char>>, k: int, acc: UpdateOptions)
    requires
        0 <= k <= av.len(),
    ensures
        update_options_spec(av.skip(k), 0, acc) == update_options_spec(av, k, acc),
    decreases av.len() - k,
{
    if k < av.len() {
        let a = av[k];
        assert(av.skip(k)[0] == a);
        if a == "-c"@ || a == "--check"@ {
            lemma_update_options_shift_from(av, k, 1, UpdateOptions { check: true, ..acc });
        } else if a == "-f"@ || a == "--force"@ {
            lemma_update_options_shift_from(av, k, 1, UpdateOptions { force: true, ..acc });
        }
    }
}

proof fn lemma_update_options_shift_from(av: Seq<Seq<char>>, k: int, j: int, acc: UpdateOptions)
    requires
        0 <= k <= av.len(),
        0 <= j,
        k + j <= av.len(),
    ensures
        update_options_spec(av.skip(k), j, acc) == update_options_spec(av, k + j, acc),
    decreases av.len() - k - j,
{
    if k + j < av.len() {
        let a = av[k + j];
        assert(av.skip(k)[j] == a);
        if a == "-c"@ || a == "--check"@ {
            lemma_update_options_shift_from(av, k, j + 1, UpdateOptions { check: true, ..acc });
        } else if a == "-f"@ || a == "--force"@ {
            lemma_update_options_shift_from(av, k, j + 1, UpdateOptions { force: true, ..acc });
        }
    }
}

// ---------------------------------------------------------------------------
// Paste settings
// ---------------------------------------------------------------------------

/// A value of `DEDENT_PASTE_NO_PASTE` that turns pasting off.
pub open spec fn truthy(v: Seq<char>) -> bool {
    let t = trim_ws(v);
    t == "1"@ || t == "true"@ || t == "yes"@ || t == "on"@
}

/// `r` is what `resolve_paste_settings` may return for `get` and the
/// command-line overrides: flags win over the environment.
pub open spec fn paste_settings_outcome<F: Fn(&str) -> Option<String>>(
    get: F,
    overrides: PasteCliOverrides,
    r: Result<PasteSettings, String>,
) -> bool {
    let delay_ok = |d: u64| match overrides.delay_ms {
        Some(ms) => d == ms,
        None => exists|b: Option<String>|
            #[trigger] get.ensures((ENV_PASTE_DELAY_MS,), b) && match non_empty(b) {
                Some(v) => delay_spec(v) == Ok::<u64, Seq<char>>(d),
                None => d == 0,
            },
    };
    match r {
        Ok(s) => (overrides.no_paste ==> s.no_paste) && (!overrides.no_paste ==> exists|
            a: Option<String>,
        |
            #[trigger] get.ensures((ENV_NO_PASTE,), a) && s.no_paste == match non_empty(a) {
                Some(v) => truthy(v),
                None => false,
            }) && delay_ok(s.delay_ms),
        Err(e) => overrides.delay_ms is None && exists|b: Option<String>|
            #[trigger] get.ensures((ENV_PASTE_DELAY_MS,), b) && match non_empty(b) {
                Some(v) => delay_spec(v) matches Err(m) && m == (e@),
                None => false,
            },
    }
}

fn is_truthy(v: &String) -> (r: bool)
    ensures
        r == truthy(v@),
{
    let cs = chars_of(v.as_str());
    let t = trim_chars(&cs);
    let s = string_of(t.as_slice());
    str_eq(s.as_str(), "1") || str_eq(s.as_str(), "true") || str_eq(s.as_str(), "yes") || str_eq(
        s.as_str(),
        "on",
    )
}

/// The paste behaviour: command-line flags, else `DEDENT_PASTE_NO_PASTE`
/// and `DEDENT_PASTE_PASTE_DELAY_MS`, else paste at once.
pub fn resolve_paste_settings<F: Fn(&str) -> Option<String>>(
    get: F,
    overrides: PasteCliOverrides,
) -> (r: Result<PasteSettings, String>)
    requires
        forall|k: &str| get.requires((k,)),
    ensures
        paste_settings_outcome(get, overrides, r),
{
    let no_paste = if overrides.no_paste {
        true
    } else {
        match crate::settings::env_non_empty(&get, ENV_NO_PASTE) {
            Some(v) => is_truthy(&v),
            None => false,
        }
    };
    let delay_ms = match overrides.delay_ms {
        Some(ms) => ms,
        None => match crate::settings::env_non_empty(&get, ENV_PASTE_DELAY_MS) {
            Some(v) => match parse_delay_ms(v.as_str()) {
                Ok(d) => d,
                Err(m) => return Err(m),
            },
            None => 0,
        },
    };
    Ok(PasteSettings { no_paste, delay_ms })
}

} // verus!

verus! {

/// An argument that must stand alone: an exclusive option or `update`.
pub open spec fn stands_alone(a: Seq<char>) -> bool {
    is_exclusive(a) || a == "update"@
}

proof fn lemma_dash_is_not_a_delay(a: Seq<char>)
    requires
        a.len() > 0,
        a[0] == '-',
    ensures
        delay_spec(a) is Err,
{
    crate::dedent::lemma_prefix_len_props(a, crate::text::whitespace_pred());
    let t = trim_ws(a);
    assert(!crate::text::is_whitespace_spec('-'));
    assert(crate::dedent::prefix_len(a, crate::text::whitespace_pred()) == 0);
    crate::dedent::lemma_suffix_len_props(a, crate::text::whitespace_pred());
    assert(t.len() > 0 && t[0] == '-');
    assert(crate::settings::unsigned_digits(t) == t);
    assert(!crate::settings::is_ascii_digit(t[0]));
}

proof fn lemma_exclusive_starts_with_dash(a: Seq<char>)
    requires
        is_exclusive(a),
    ensures
        a.len() > 0 && a[0] == '-',
{
    reveal_strlit("-h");
    reveal_strlit("--help");
    reveal_strlit("-v");
    reveal_strlit("--version");
    reveal_strlit("-i");
    reveal_strlit("--install");
    reveal_strlit("-u");
    reveal_strlit("--uninstall");
    reveal_strlit("--update");
}

proof fn lemma_paste_scan_refuses(args: Seq<Seq<char>>, i: int, j: int, acc: PasteCliOverrides)
    requires
        0 <= i <= j < args.len(),
        stands_alone(args[j]),
    ensures
        paste_options_spec(args, i, acc) is Err,
    decreases j - i,
{
    reveal_strlit("-n");
    reveal_strlit("--no-paste");
    reveal_strlit("--paste-delay-ms");
    reveal_strlit("--paste-delay-ms=");
    reveal_strlit("update");
    reveal_strlit("-h");
    reveal_strlit("--help");
    reveal_strlit("-v");
    reveal_strlit("--version");
    reveal_strlit("-i");
    reveal_strlit("--install");
    reveal_strlit("-u");
    reveal_strlit("--uninstall");
    reveal_strlit("--update");
    let a = args[i];
    if i == j {
        assert(a != "-n"@ && a != "--no-paste"@ && a != "--paste-delay-ms"@);
        assert(a.len() < delay_prefix().len());
    } else if a == "-n"@ || a == "--no-paste"@ {
        lemma_paste_scan_refuses(args, i + 1, j, PasteCliOverrides { no_paste: true, ..acc });
    } else if a == "--paste-delay-ms"@ {
        if i + 1 < args.len() {
            if i + 1 == j {
                if is_exclusive(args[j]) {
                    lemma_exclusive_starts_with_dash(args[j]);
                    lemma_dash_is_not_a_delay(args[j]);
                } else {
                    assert(args[j] == "update"@);
                    assert(delay_spec(args[j]) is Err) by {
                        crate::dedent::lemma_prefix_len_props(
                            args[j],
                            crate::text::whitespace_pred(),
                        );
                        crate::dedent::lemma_suffix_len_props(
                            args[j],
                            crate::text::whitespace_pred(),
                        );
                        let t = trim_ws(args[j]);
                        assert(!crate::text::is_whitespace_spec('u'));
                        assert(!crate::text::is_whitespace_spec('e'));
                        assert(t == args[j]);
                        assert(!crate::settings::is_ascii_digit(t[0]));
                    }
                }
            } else {
                match delay_spec(args[i + 1]) {
                    Ok(d) => lemma_paste_scan_refuses(
                        args,
                        i + 2,
                        j,
                        PasteCliOverrides { delay_ms: Some(d), ..acc },
                    ),
                    Err(_) => {},
                }
            }
        }
    } else if a.len() >= delay_prefix().len() && a.take(delay_prefix().len() as int)
        == delay_prefix() {
        match delay_spec(a.skip(delay_prefix().len() as int)) {
            Ok(d) => lemma_paste_scan_refuses(
                args,
                i + 1,
                j,
                PasteCliOverrides { delay_ms: Some(d), ..acc },
            ),
            Err(_) => {},
        }
    }
}

/// `-h`, `-v`, `-i`, `-u`, `--update` and `update` must be used alone: a
/// command line that holds one of them beside another argument is refused,
/// unless it is the `update` subcommand with its own options.
pub proof fn lemma_exclusive_options_stand_alone(args: Seq<Seq<char>>, j: int)
    requires
        args.len() >= 2,
        args[0] != "update"@,
        0 <= j < args.len(),
        stands_alone(args[j]),
    ensures
        parse_args_spec(args) is Err,
{
    lemma_paste_scan_refuses(args, 0, j, PasteCliOverrides { no_paste: false, delay_ms: None });
}

} // verus!
