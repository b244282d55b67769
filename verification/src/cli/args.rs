//! Arguments of the `ast-to-mermaid` program: which command, and its flags.

use crate::chars::{starts, starts_with};
use crate::cli::flags::ExitCode;
use crate::cli::format::{csv_items, parse_csv_exclude};
use crate::render::detail::{law_detail_parsed_of_text, Detail};
use crate::render::util::quoted;
use crate::text::{append_strings, str_eq};
use vstd::prelude::*;
use vstd::string::*;

verus! {

// ── Usage ────────────────────────────────────────────────────────────────────

/// Usage of the program.
pub const USAGE: &'static str = "usage: ast-to-mermaid <command>\n\ncommands:\n  version    Print version and exit\n  analyze    Parse a code path → single Mermaid file\n  bundle     Parse a code path → 4-layer artifact bundle\n             (consumed by `mermaid-graph project --artifacts`)\n\nfor the MCP server, run the `ast-to-mermaid-mcp` binary.\n";

/// Usage of `analyze`.
pub const ANALYZE_USAGE: &'static str = "usage: ast-to-mermaid analyze <path> [--level LVL] [--target NAME] [--exclude DIRS] [--out FILE]\n\nflags:\n  -l, --level    project | overview | module | function | impact\n                 (default: project)\n  -t, --target   required for module/function/impact:\n                 module path/name or function name/id\n  -x, --exclude  comma-separated dir basenames to skip on top of\n                 the built-in skip set (target, node_modules, .git,\n                 dotfile dirs). E.g. --exclude workspaces,vendor\n  -o, --out      write to FILE instead of stdout\n";

/// Usage of `bundle`.
pub const BUNDLE_USAGE: &'static str = "usage: ast-to-mermaid bundle <path> --out <dir> [--exclude DIRS]\n\nflags:\n  -o, --out      output directory for the bundle (REQUIRED)\n  -x, --exclude  comma-separated dir basenames to skip on top of\n                 the built-in skip set (target, node_modules, .git,\n                 dotfile dirs).\n\nlayout written to <dir>/ :\n  overview.mmd       module-level call graph\n  project.mmd        crate-level summary\n  index.json         registry of every indexed entity\n  entities/<id>.mmd          per-entity Mermaid\n  entities/<id>.meta.json    per-entity metadata\n";

// ── Flags ────────────────────────────────────────────────────────────────────

/// The flags that take a value.
#[derive(Debug, Clone, Copy, PartialEq, Eq, Structural)]
pub enum Flag {
    Level,
    Target,
    Exclude,
    Out,
}

/// The flag that an argument is; `all` is whether the level and the target can
/// be given.
pub open spec fn flag_named(arg: Seq<char>, all: bool) -> Option<Flag> {
    if all && (arg == "--level"@ || arg == "-l"@) {
        Some(Flag::Level)
    } else if all && (arg == "--target"@ || arg == "-t"@) {
        Some(Flag::Target)
    } else if arg == "--exclude"@ || arg == "-x"@ {
        Some(Flag::Exclude)
    } else if arg == "--out"@ || arg == "-o"@ {
        Some(Flag::Out)
    } else {
        None
    }
}

/// The flag that an argument is.
fn find_flag(arg: &str, all: bool) -> (r: Option<Flag>)
    ensures
        r == flag_named(arg@, all),
{
    if all && (str_eq(arg, "--level") || str_eq(arg, "-l")) {
        Some(Flag::Level)
    } else if all && (str_eq(arg, "--target") || str_eq(arg, "-t")) {
        Some(Flag::Target)
    } else if str_eq(arg, "--exclude") || str_eq(arg, "-x") {
        Some(Flag::Exclude)
    } else if str_eq(arg, "--out") || str_eq(arg, "-o") {
        Some(Flag::Out)
    } else {
        None
    }
}

/// What was read so far.
struct Given {
    path: Option<String>,
    level: Detail,
    target: Option<String>,
    exclude: Vec<String>,
    out: Option<String>,
}

/// What a [`Given`] holds.
#[verifier::ext_equal]
pub struct GivenView {
    pub path: Option<Seq<char>>,
    pub level: Detail,
    pub target: Option<Seq<char>>,
    pub exclude: Seq<Seq<char>>,
    pub out: Option<Seq<char>>,
}

impl DeepView for Given {
    type V = GivenView;

    closed spec fn deep_view(&self) -> GivenView {
        GivenView {
            path: self.path.deep_view(),
            level: self.level,
            target: self.target.deep_view(),
            exclude: self.exclude.deep_view(),
            out: self.out.deep_view(),
        }
    }
}

/// What is read before the first argument.
pub open spec fn nothing_given() -> GivenView {
    GivenView {
        path: None,
        level: Detail::Project,
        target: None,
        exclude: Seq::empty(),
        out: None,
    }
}

/// What is read with a flag and its value, or what the error says. Directories
/// to skip add up; of the other flags the last one counts.
pub open spec fn with_flag(g: GivenView, flag: Flag, value: Seq<char>) -> Result<
    GivenView,
    Seq<char>,
> {
    match flag {
        Flag::Level => match Detail::parsed(value) {
            Some(level) => Ok(GivenView { level, ..g }),
            None => Err(
                "invalid --level: "@ + ("invalid input: "@ + Detail::unknown(quoted(value))),
            ),
        },
        Flag::Target => Ok(GivenView { target: Some(value), ..g }),
        Flag::Exclude => Ok(GivenView { exclude: g.exclude + csv_items(value), ..g }),
        Flag::Out => Ok(GivenView { out: Some(value), ..g }),
    }
}

/// What arguments give on top of what was read before them, or what the error
/// says.
pub open spec fn given(args: Seq<Seq<char>>, g: GivenView, all: bool) -> Result<
    GivenView,
    Seq<char>,
>
    decreases args.len(),
{
    if args.len() == 0 {
        Ok(g)
    } else {
        let arg = args[0];
        match flag_named(arg, all) {
            Some(flag) => if args.len() < 2 {
                Err(arg + " requires a value"@)
            } else {
                match with_flag(g, flag, args[1]) {
                    Ok(next) => given(args.skip(2), next, all),
                    Err(e) => Err(e),
                }
            },
            None => if starts(arg, "-"@) {
                Err("unknown flag: "@ + arg)
            } else if g.path is Some {
                Err("unexpected positional arg: "@ + arg)
            } else {
                given(args.skip(1), GivenView { path: Some(arg), ..g }, all)
            },
        }
    }
}

/// Reads a flag and its value.
fn read_flag(g: &mut Given, flag: Flag, value: &str) -> (r: Result<(), String>)
    ensures
        match with_flag(old(g).deep_view(), flag, value@) {
            Ok(next) => r is Ok && final(g).deep_view() == next,
            Err(e) => r matches Err(m) && m@ == e,
        },
{
    match flag {
        Flag::Level => match Detail::from_str(value) {
            Ok(level) => {
                g.level = level;
                Ok(())
            },
            Err(e) => Err("invalid --level: ".to_owned().concat(e.to_string().as_str())),
        },
        Flag::Target => {
            g.target = Some(value.to_owned());
            Ok(())
        },
        Flag::Exclude => {
            let more = parse_csv_exclude(value);
            append_strings(&mut g.exclude, &more);
            Ok(())
        },
        Flag::Out => {
            g.out = Some(value.to_owned());
            Ok(())
        },
    }
}

/// Reads all arguments.
fn read_args(args: &Vec<String>, all: bool) -> (r: Result<Given, String>)
    ensures
        match given(args.deep_view(), nothing_given(), all) {
            Ok(g) => r matches Ok(x) && x.deep_view() == g,
            Err(e) => r matches Err(m) && m@ == e,
        },
{
    let ghost v = args.deep_view();
    let mut g = Given {
        path: None,
        level: Detail::Project,
        target: None,
        exclude: Vec::new(),
        out: None,
    };
    let mut i: usize = 0;
    assert(g.deep_view() =~= nothing_given());
    assert(v.skip(0) =~= v);
    while i < args.len()
        invariant
            i <= args.len(),
            v == args.deep_view(),
            given(v.skip(i as int), g.deep_view(), all) == given(v, nothing_given(), all),
        decreases args.len() - i,
    {
        let arg = args[i].as_str();
        assert(v.skip(i as int)[0] == arg@);
        assert(v.skip(i as int).skip(1) =~= v.skip(i + 1));
        match find_flag(arg, all) {
            Some(flag) => {
                if args.len() - i < 2 {
                    return Err(arg.to_owned().concat(" requires a value"));
                }
                assert(v.skip(i as int)[1] == args[i + 1]@);
                assert(v.skip(i as int).skip(2) =~= v.skip(i + 2));
                match read_flag(&mut g, flag, args[i + 1].as_str()) {
                    Ok(()) => {},
                    Err(m) => {
                        return Err(m);
                    },
                }
                i += 2;
            },
            None => {
                if starts_with(arg, "-") {
                    return Err("unknown flag: ".to_owned().concat(arg));
                }
                if g.path.is_some() {
                    return Err("unexpected positional arg: ".to_owned().concat(arg));
                }
                g.path = Some(arg.to_owned());
                i += 1;
            },
        }
    }
    assert(v.skip(args.len() as int).len() == 0);
    Ok(g)
}

// ── Commands ─────────────────────────────────────────────────────────────────

/// Arguments of `analyze`.
#[derive(Debug, PartialEq, Eq)]
pub struct AnalyzeArgs {
    pub path: String,
    pub level: Detail,
    pub target: Option<String>,
    pub exclude: Vec<String>,
    pub out: Option<String>,
}

/// Arguments of `bundle`.
#[derive(Debug, PartialEq, Eq)]
pub struct BundleArgs {
    pub path: String,
    pub out: String,
    pub exclude: Vec<String>,
}

/// What the arguments of `analyze` come to.
pub open spec fn analyze_given(args: Seq<Seq<char>>) -> Result<GivenView, Seq<char>> {
    match given(args, nothing_given(), true) {
        Err(e) => Err(e),
        Ok(g) => if g.path is None {
            Err("missing <path>"@)
        } else if g.level.targeted() && g.target is None {
            Err("level="@ + g.level.text() + " requires --target"@)
        } else {
            Ok(g)
        },
    }
}

/// What the arguments of `bundle` come to.
pub open spec fn bundle_given(args: Seq<Seq<char>>) -> Result<GivenView, Seq<char>> {
    match given(args, nothing_given(), false) {
        Err(e) => Err(e),
        Ok(g) => if g.path is None {
            Err("missing <path>"@)
        } else if g.out is None {
            Err("missing --out <dir>"@)
        } else {
            Ok(g)
        },
    }
}

impl AnalyzeArgs {
    /// Whether these are the arguments that were given.
    pub open spec fn holds(self, g: GivenView) -> bool {
        &&& g.path == Some(self.path@)
        &&& g.level == self.level
        &&& g.target == self.target.deep_view()
        &&& g.exclude == self.exclude.deep_view()
        &&& g.out == self.out.deep_view()
    }

    /// Reads the arguments of `analyze`.
    pub fn parse(args: &Vec<String>) -> (r: Result<Self, String>)
        ensures
            match analyze_given(args.deep_view()) {
                Ok(g) => r matches Ok(a) && a.holds(g),
                Err(e) => r matches Err(m) && m@ == e,
            },
    {
        let g = match read_args(args, true) {
            Ok(g) => g,
            Err(m) => {
                return Err(m);
            },
        };
        match g.path {
            None => Err("missing <path>".to_owned()),
            Some(path) => if g.level.requires_target() && g.target.is_none() {
                Err("level=".to_owned().concat(g.level.as_str()).concat(" requires --target"))
            } else {
                Ok(
                    AnalyzeArgs {
                        path,
                        level: g.level,
                        target: g.target,
                        exclude: g.exclude,
                        out: g.out,
                    },
                )
            },
        }
    }
}

impl BundleArgs {
    /// Whether these are the arguments that were given.
    pub open spec fn holds(self, g: GivenView) -> bool {
        &&& g.path == Some(self.path@)
        &&& g.out == Some(self.out@)
        &&& g.exclude == self.exclude.deep_view()
    }

    /// Reads the arguments of `bundle`.
    pub fn parse(args: &Vec<String>) -> (r: Result<Self, String>)
        ensures
            match bundle_given(args.deep_view()) {
                Ok(g) => r matches Ok(a) && a.holds(g),
                Err(e) => r matches Err(m) && m@ == e,
            },
    {
        let g = match read_args(args, false) {
            Ok(g) => g,
            Err(m) => {
                return Err(m);
            },
        };
        match g.path {
            None => Err("missing <path>".to_owned()),
            Some(path) => match g.out {
                None => Err("missing --out <dir>".to_owned()),
                Some(out) => Ok(BundleArgs { path, out, exclude: g.exclude }),
            },
        }
    }
}

/// What to do for a command line.
#[derive(Debug, PartialEq, Eq)]
pub enum Dispatch {
    /// Print the version.
    Version,
    /// Analyze a path.
    Analyze(AnalyzeArgs),
    /// Make a bundle.
    Bundle(BundleArgs),
    /// Say why, print the usage, and leave with an exit code.
    Refuse { code: ExitCode, message: String, usage: &'static str },
}

impl Dispatch {
    /// Whether this refuses the command line as one that is misused.
    pub open spec fn refuses(self, message: Seq<char>, usage: Seq<char>) -> bool {
        self matches Dispatch::Refuse { code, message: m, usage: u } && code
            == ExitCode::UsageError && m@ == message && u@ == usage
    }
}

/// Whether a decision is that for a command line.
pub open spec fn is_dispatch(d: Dispatch, args: Seq<Seq<char>>) -> bool {
    if args.len() == 0 {
        d.refuses(""@, USAGE@)
    } else if args[0] == "version"@ || args[0] == "--version"@ || args[0] == "-V"@ {
        d is Version
    } else if args[0] == "analyze"@ {
        match analyze_given(args.skip(1)) {
            Ok(g) => d matches Dispatch::Analyze(a) && a.holds(g),
            Err(e) => d.refuses("analyze: "@ + e, ANALYZE_USAGE@),
        }
    } else if args[0] == "bundle"@ {
        match bundle_given(args.skip(1)) {
            Ok(g) => d matches Dispatch::Bundle(a) && a.holds(g),
            Err(e) => d.refuses("bundle: "@ + e, BUNDLE_USAGE@),
        }
    } else if args[0] == "mcp"@ {
        d.refuses("use the `ast-to-mermaid-mcp` binary for the MCP server"@, ""@)
    } else {
        d.refuses("unknown command: "@ + args[0], USAGE@)
    }
}

/// The arguments behind the first one.
fn rest_of(args: &Vec<String>) -> (r: Vec<String>)
    requires
        args.len() > 0,
    ensures
        r.deep_view() == args.deep_view().skip(1),
{
    let ghost want = args.deep_view().skip(1);
    let mut out: Vec<String> = Vec::new();
    let mut i: usize = 1;
    assert(out.deep_view() =~= want.take(0));
    while i < args.len()
        invariant
            1 <= i <= args.len(),
            want == args.deep_view().skip(1),
            out.deep_view() == want.take(i - 1),
        decreases args.len() - i,
    {
        let ghost had = out.deep_view();
        out.push(args[i].clone());
        assert(want[i - 1] == args[i as int]@);
        assert(out.deep_view() =~= had.push(want[i - 1]));
        i += 1;
        assert(out.deep_view() =~= want.take(i - 1));
    }
    assert(want.take(args.len() - 1) =~= want);
    out
}

/// What to do for a command line, given without the name of the program.
pub fn dispatch(args: &Vec<String>) -> (r: Dispatch)
    ensures
        is_dispatch(r, args.deep_view()),
{
    let code = ExitCode::UsageError;
    if args.len() == 0 {
        return Dispatch::Refuse { code, message: "".to_owned(), usage: USAGE };
    }
    let first = args[0].as_str();
    assert(args.deep_view()[0] == first@);
    if str_eq(first, "version") || str_eq(first, "--version") || str_eq(first, "-V") {
        return Dispatch::Version;
    }
    let rest = rest_of(args);
    if str_eq(first, "analyze") {
        match AnalyzeArgs::parse(&rest) {
            Ok(a) => Dispatch::Analyze(a),
            Err(m) => Dispatch::Refuse {
                code,
                message: "analyze: ".to_owned().concat(m.as_str()),
                usage: ANALYZE_USAGE,
            },
        }
    } else if str_eq(first, "bundle") {
        match BundleArgs::parse(&rest) {
            Ok(a) => Dispatch::Bundle(a),
            Err(m) => Dispatch::Refuse {
                code,
                message: "bundle: ".to_owned().concat(m.as_str()),
                usage: BUNDLE_USAGE,
            },
        }
    } else if str_eq(first, "mcp") {
        Dispatch::Refuse {
            code,
            message: "use the `ast-to-mermaid-mcp` binary for the MCP server".to_owned(),
            usage: "",
        }
    } else {
        Dispatch::Refuse {
            code,
            message: "unknown command: ".to_owned().concat(first),
            usage: USAGE,
        }
    }
}

/// Before a value, flags are read the same in their short and their long form.
pub proof fn law_short_flags(args: Seq<Seq<char>>, g: GivenView, all: bool)
    requires
        args.len() > 0,
    ensures
        given(seq!["-o"@] + args, g, all) == given(seq!["--out"@] + args, g, all),
        given(seq!["-x"@] + args, g, all) == given(seq!["--exclude"@] + args, g, all),
        given(seq!["-l"@] + args, g, true) == given(seq!["--level"@] + args, g, true),
        given(seq!["-t"@] + args, g, true) == given(seq!["--target"@] + args, g, true),
{
    reveal_strlit("-o");
    reveal_strlit("--out");
    reveal_strlit("-x");
    reveal_strlit("--exclude");
    reveal_strlit("-l");
    reveal_strlit("--level");
    reveal_strlit("-t");
    reveal_strlit("--target");
    assert("-o"@[1] == 'o' && "-x"@[1] == 'x' && "-l"@[1] == 'l' && "-t"@[1] == 't');
    assert("--out"@.len() == 5 && "--exclude"@.len() == 9 && "--level"@.len() == 7
        && "--target"@.len() == 8);
    lemma_behind("-o"@, args);
    lemma_behind("--out"@, args);
    lemma_behind("-x"@, args);
    lemma_behind("--exclude"@, args);
    lemma_behind("-l"@, args);
    lemma_behind("--level"@, args);
    lemma_behind("-t"@, args);
    lemma_behind("--target"@, args);
}

proof fn lemma_behind(first: Seq<char>, args: Seq<Seq<char>>)
    requires
        args.len() > 0,
    ensures
        (seq![first] + args)[0] == first,
        (seq![first] + args)[1] == args[0],
        (seq![first] + args).skip(2) == args.skip(1),
{
    assert((seq![first] + args).skip(2) =~= args.skip(1));
}

/// A flag with its value sets what it stands for, and nothing else, and so does a
/// path.
pub proof fn law_flag_values(value: Seq<char>, level: Detail, g: GivenView, all: bool)
    ensures
        given(seq!["--out"@, value], g, all) == Ok::<GivenView, Seq<char>>(
            GivenView { out: Some(value), ..g },
        ),
        given(seq!["--exclude"@, value], g, all) == Ok::<GivenView, Seq<char>>(
            GivenView { exclude: g.exclude + csv_items(value), ..g },
        ),
        given(seq!["--target"@, value], g, true) == Ok::<GivenView, Seq<char>>(
            GivenView { target: Some(value), ..g },
        ),
        given(seq!["--level"@, level.text()], g, true) == Ok::<GivenView, Seq<char>>(
            GivenView { level, ..g },
        ),
        g.path is None && (value.len() == 0 || value[0] != '-') ==> given(seq![value], g, all)
            == Ok::<GivenView, Seq<char>>(GivenView { path: Some(value), ..g }),
{
    reveal_strlit("-o");
    reveal_strlit("--out");
    reveal_strlit("-x");
    reveal_strlit("--exclude");
    reveal_strlit("-l");
    reveal_strlit("--level");
    reveal_strlit("-t");
    reveal_strlit("--target");
    reveal_strlit("-");
    assert("--out"@.len() == 5 && "--exclude"@.len() == 9 && "--level"@.len() == 7
        && "--target"@.len() == 8 && "-o"@.len() == 2 && "-x"@.len() == 2 && "-l"@.len() == 2
        && "-t"@.len() == 2);
    reveal_with_fuel(given, 2);
    lemma_pair("--out"@, value);
    lemma_pair("--exclude"@, value);
    lemma_pair("--target"@, value);
    lemma_pair("--level"@, level.text());
    law_detail_parsed_of_text(level);
    if value.len() == 0 || value[0] != '-' {
        assert("--out"@[0] == '-' && "--exclude"@[0] == '-' && "--level"@[0] == '-'
            && "--target"@[0] == '-' && "-o"@[0] == '-' && "-x"@[0] == '-' && "-l"@[0] == '-'
            && "-t"@[0] == '-');
        assert(!starts(value, "-"@)) by {
            if starts(value, "-"@) {
                assert(value.subrange(0, 1)[0] == value[0]);
            }
        }
        assert(seq![value].skip(1) =~= Seq::<Seq<char>>::empty());
    }
}

proof fn lemma_pair(first: Seq<char>, value: Seq<char>)
    ensures
        seq![first, value].skip(2) == Seq::<Seq<char>>::empty(),
        seq![first, value][0] == first,
        seq![first, value][1] == value,
        seq![first, value].len() == 2,
{
    assert(seq![first, value].skip(2) =~= Seq::<Seq<char>>::empty());
}

proof fn lemma_read_on(a: Seq<Seq<char>>, b: Seq<Seq<char>>, n: int)
    requires
        0 <= n <= a.len(),
    ensures
        (a + b).skip(n) == a.skip(n) + b,
        n < a.len() ==> (a + b)[n] == a[n],
{
    assert((a + b).skip(n) =~= a.skip(n) + b);
}

/// Arguments are read one after the other: what follows arguments that can be
/// read is read on top of what they gave.
pub proof fn law_read_in_order(a: Seq<Seq<char>>, b: Seq<Seq<char>>, g: GivenView, all: bool)
    requires
        given(a, g, all) is Ok,
    ensures
        given(a + b, g, all) == given(b, given(a, g, all)->Ok_0, all),
    decreases a.len(),
{
    if a.len() == 0 {
        assert(a + b =~= b);
    } else {
        let arg = a[0];
        assert((a + b)[0] == arg);
        match flag_named(arg, all) {
            Some(flag) => {
                assert((a + b)[1] == a[1]);
                lemma_read_on(a, b, 2);
                law_read_in_order(a.skip(2), b, with_flag(g, flag, a[1])->Ok_0, all);
            },
            None => {
                lemma_read_on(a, b, 1);
                law_read_in_order(a.skip(1), b, GivenView { path: Some(arg), ..g }, all);
            },
        }
    }
}

} // verus!
