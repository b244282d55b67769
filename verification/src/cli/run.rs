//! What the subcommands decide and say.

use crate::cache::gc::{GcOptions, GcReport};
use crate::chars::{
    dec, lemma_find_from, occurs_at, push_decimal, split_first, split_once, starts, trim, trimmed,
};
use crate::cli::flags::{AnalyzeFlags, ExitCode, FlowFlags, GcFlags, SequenceFlags};
use crate::cli::format::{
    analyzed, duration_of, parse_duration, parse_size, push_analyzed, size_of,
};
use crate::git_source::{ref_fault, validate_git_ref};
use crate::render::detail::Detail;
use vstd::prelude::*;
use vstd::string::*;

verus! {

// ── Refusals ─────────────────────────────────────────────────────────────────

/// Why a command stops: what it says, and the exit code.
#[derive(Debug, PartialEq, Eq)]
pub struct Refusal {
    pub code: ExitCode,
    pub message: String,
}

impl Refusal {
    /// Whether the refusal says this with this code.
    pub open spec fn says(self, code: ExitCode, message: Seq<char>) -> bool {
        self.code == code && self.message@ == message
    }

    /// A command that was called in a wrong way.
    fn misuse(message: String) -> (r: Self)
        ensures
            r.says(ExitCode::UsageError, message@),
    {
        Refusal { code: ExitCode::UsageError, message }
    }
}

/// What is said of a `--ref` that is refused, if it is.
pub open spec fn ref_complaint(subcommand: Seq<char>, value: Option<Seq<char>>) -> Option<
    Seq<char>,
> {
    match value {
        None => None,
        Some(s) => match ref_fault(s) {
            Some(e) => Some(subcommand + ": --ref: "@ + ("invalid input: "@ + e)),
            None => None,
        },
    }
}

/// Refuses a `--ref` that is empty or looks like a flag of `git`.
pub fn check_ref_arg(subcommand: &str, value: Option<&str>) -> (r: Result<(), Refusal>)
    ensures
        match ref_complaint(
            subcommand@,
            match value {
                Some(s) => Some(s@),
                None => None,
            },
        ) {
            Some(m) => r matches Err(x) && x.says(ExitCode::UsageError, m),
            None => r is Ok,
        },
{
    match value {
        None => Ok(()),
        Some(s) => match validate_git_ref(s) {
            Ok(()) => Ok(()),
            Err(e) => Err(
                Refusal::misuse(
                    subcommand.to_owned().concat(": --ref: ").concat(e.to_string().as_str()),
                ),
            ),
        },
    }
}

/// The text in an option, as a borrowed one.
fn borrowed(o: &Option<String>) -> (r: Option<&str>)
    ensures
        match o {
            Some(s) => r matches Some(t) && t@ == s@,
            None => r is None,
        },
{
    match o {
        Some(s) => Some(s.as_str()),
        None => None,
    }
}

/// What is said of the flags of a view that are refused, if they are: first of
/// a missing target, and of the ref otherwise.
pub open spec fn view_complaint(
    level: Detail,
    target: Option<Seq<char>>,
    git_ref: Option<Seq<char>>,
) -> Option<Seq<char>> {
    if level.targeted() && target is None {
        Some(level.text() + ": --target: required for this level"@)
    } else {
        ref_complaint(level.text(), git_ref)
    }
}

/// Refuses the flags of a view that cannot be drawn.
pub fn check_analyze(level: Detail, flags: &AnalyzeFlags) -> (r: Result<(), Refusal>)
    ensures
        match view_complaint(level, flags.target.deep_view(), flags.git_ref.deep_view()) {
            Some(m) => r matches Err(x) && x.says(ExitCode::UsageError, m),
            None => r is Ok,
        },
{
    if level.requires_target() && flags.target.is_none() {
        return Err(
            Refusal::misuse(
                level.as_str().to_owned().concat(": --target: required for this level"),
            ),
        );
    }
    check_ref_arg(level.as_str(), borrowed(&flags.git_ref))
}

// ── diff ─────────────────────────────────────────────────────────────────────

/// The two refs of a range, or what is said of it.
pub open spec fn range_refs(range: Seq<char>) -> Result<(Seq<char>, Seq<char>), Seq<char>> {
    match split_first(range, ".."@) {
        None => Err("diff: expected `<ref-a>..<ref-b>`, got `"@ + range + "`"@),
        Some((a, b)) => if a.len() == 0 || b.len() == 0 {
            Err("diff: both refs must be non-empty in `"@ + range + "`"@)
        } else {
            match ref_complaint("diff"@, Some(a)) {
                Some(m) => Err(m),
                None => match ref_complaint("diff"@, Some(b)) {
                    Some(m) => Err(m),
                    None => Ok((a, b)),
                },
            }
        },
    }
}

/// A range of two refs that are not refused is read as the first and the second.
pub proof fn law_range(a: Seq<char>, b: Seq<char>)
    requires
        a.len() > 0,
        b.len() > 0,
        a[0] != '-',
        b[0] != '-',
        !a.contains('.'),
    ensures
        range_refs(a + ".."@ + b) == Ok::<(Seq<char>, Seq<char>), Seq<char>>((a, b)),
{
    reveal_strlit("..");
    reveal_strlit("-");
    let s = a + ".."@ + b;
    let n = a.len() as int;
    assert(s.subrange(n, n + 2) =~= ".."@);
    assert(occurs_at(s, ".."@, n));
    assert forall|j: int| 0 <= j < n implies !#[trigger] occurs_at(s, ".."@, j) by {
        if occurs_at(s, ".."@, j) {
            assert(s.subrange(j, j + 2)[0] == a[j]);
        }
    }
    lemma_find_from(s, ".."@, 0);
    assert(s.take(n) =~= a);
    assert(s.skip(n + 2) =~= b);
    assert(!starts(a, "-"@) && !starts(b, "-"@)) by {
        if starts(a, "-"@) {
            assert(a.subrange(0, 1)[0] == a[0]);
        }
        if starts(b, "-"@) {
            assert(b.subrange(0, 1)[0] == b[0]);
        }
    }
}

/// The two refs of a range.
pub fn diff_refs(range: &str) -> (r: Result<(String, String), Refusal>)
    ensures
        match range_refs(range@) {
            Ok((a, b)) => r matches Ok(p) && p.0@ == a && p.1@ == b,
            Err(m) => r matches Err(x) && x.says(ExitCode::UsageError, m),
        },
{
    match split_once(range, "..") {
        None => Err(
            Refusal::misuse(
                "diff: expected `<ref-a>..<ref-b>`, got `".to_owned().concat(range).concat("`"),
            ),
        ),
        Some((a, b)) => {
            if a.as_str().is_empty() || b.as_str().is_empty() {
                return Err(
                    Refusal::misuse(
                        "diff: both refs must be non-empty in `".to_owned().concat(range).concat(
                            "`",
                        ),
                    ),
                );
            }
            match check_ref_arg("diff", Some(a.as_str())) {
                Err(x) => Err(x),
                Ok(()) => match check_ref_arg("diff", Some(b.as_str())) {
                    Err(x) => Err(x),
                    Ok(()) => Ok((a, b)),
                },
            }
        },
    }
}

/// What a difference says in the end.
pub open spec fn diff_said(
    a: Seq<char>,
    b: Seq<char>,
    added: nat,
    removed: nat,
    modified: nat,
    renamed: nat,
) -> Seq<char> {
    "diff "@ + a + " → "@ + b + ": +"@ + dec(added) + " -"@ + dec(removed) + " ~"@ + dec(
        modified,
    ) + " ↪"@ + dec(renamed)
}

/// What a difference says in the end.
pub fn diff_line(
    a: &str,
    b: &str,
    added: usize,
    removed: usize,
    modified: usize,
    renamed: usize,
) -> (r: String)
    ensures
        r@ == diff_said(
            a@,
            b@,
            added as nat,
            removed as nat,
            modified as nat,
            renamed as nat,
        ),
{
    let mut out = "diff ".to_owned().concat(a).concat(" → ").concat(b).concat(": +");
    push_decimal(&mut out, added as u64);
    out.append(" -");
    push_decimal(&mut out, removed as u64);
    out.append(" ~");
    push_decimal(&mut out, modified as u64);
    out.append(" ↪");
    push_decimal(&mut out, renamed as u64);
    out
}

// ── index ────────────────────────────────────────────────────────────────────

/// Whether a bundle that is in the cache is used by `index` as it is.
pub fn reuses_bundle(cached: bool, force: bool, no_cache: bool) -> (r: bool)
    ensures
        r == (cached && !force && !no_cache),
{
    cached && !force && !no_cache
}

/// Whether a ref has to be indexed before it is compared.
pub fn needs_index(cached: bool, no_cache: bool) -> (r: bool)
    ensures
        r == !(!no_cache && cached),
{
    no_cache || !cached
}

/// What `index` says of a bundle that it used as it is.
pub fn cached_line(sha: &str, dir: &str) -> (r: String)
    ensures
        r@ == "cached "@ + sha@ + " → "@ + dir@,
{
    "cached ".to_owned().concat(sha).concat(" → ").concat(dir)
}

/// What `index` says of a bundle that it made.
pub open spec fn indexed_said(
    sha: Seq<char>,
    dir: Seq<char>,
    files: nat,
    atoms: nat,
    edges: nat,
) -> Seq<char> {
    "indexed "@ + sha + " → "@ + dir + " ("@ + dec(files) + " files, "@ + dec(atoms) + " atoms, "@
        + dec(edges) + " edges)"@
}

/// What `index` says of a bundle that it made.
pub fn indexed_line(sha: &str, dir: &str, files: usize, atoms: usize, edges: usize) -> (r: String)
    ensures
        r@ == indexed_said(sha@, dir@, files as nat, atoms as nat, edges as nat),
{
    let mut out = "indexed ".to_owned().concat(sha).concat(" → ").concat(dir).concat(" (");
    push_decimal(&mut out, files as u64);
    out.append(" files, ");
    push_decimal(&mut out, atoms as u64);
    out.append(" atoms, ");
    push_decimal(&mut out, edges as u64);
    out.append(" edges)");
    out
}

// ── Views and bundles ────────────────────────────────────────────────────────

/// What a view that was written to a file says.
pub fn analyzed_line(files: usize, atoms: usize, edges: usize, out_path: &str) -> (r: String)
    ensures
        r@ == analyzed(files as nat, atoms as nat, edges as nat) + (" → "@ + out_path@),
{
    let mut out = String::new();
    push_analyzed(&mut out, files, atoms, edges);
    out.append(" → ");
    out.append(out_path);
    assert(out@ =~= analyzed(files as nat, atoms as nat, edges as nat) + (" → "@ + out_path@));
    out
}

/// What is said of files that did not parse, if there are any.
pub fn skipped_line(failures: usize) -> (r: Option<String>)
    ensures
        match r {
            Some(s) => failures > 0 && s@ == "skipped "@ + dec(failures as nat)
                + " files (see --trace=warn for details)"@,
            None => failures == 0,
        },
{
    if failures == 0 {
        return None;
    }
    let mut out = "skipped ".to_owned();
    push_decimal(&mut out, failures as u64);
    out.append(" files (see --trace=warn for details)");
    Some(out)
}

/// Refuses to write a bundle without entities over one that has files, unless
/// that is allowed.
pub fn check_not_emptied(
    entities: usize,
    allow_empty: bool,
    populated: bool,
    out_path: &str,
    path: &str,
) -> (r: Result<(), Refusal>)
    ensures
        match r {
            Err(x) => entities == 0 && !allow_empty && populated && x.says(
                ExitCode::Failure,
                "bundle: refusing to overwrite populated "@ + out_path@
                    + " with an empty bundle ("@ + path@
                    + " produced 0 entities). Pass --allow-empty to override."@,
            ),
            Ok(()) => entities > 0 || allow_empty || !populated,
        },
{
    if entities == 0 && !allow_empty && populated {
        let message = "bundle: refusing to overwrite populated ".to_owned().concat(out_path).concat(
            " with an empty bundle (",
        ).concat(path).concat(" produced 0 entities). Pass --allow-empty to override.");
        Err(Refusal { code: ExitCode::Failure, message })
    } else {
        Ok(())
    }
}

/// What a bundle says in the end.
pub open spec fn bundled_said(
    files: nat,
    atoms: nat,
    edges: nat,
    entities: nat,
    out_path: Seq<char>,
) -> Seq<char> {
    "bundled "@ + dec(files) + " files, "@ + dec(atoms) + " atoms, "@ + dec(edges) + " edges, "@
        + dec(entities) + " entities → "@ + out_path
}

/// What a bundle says in the end.
pub fn bundled_line(
    files: usize,
    atoms: usize,
    edges: usize,
    entities: usize,
    out_path: &str,
) -> (r: String)
    ensures
        r@ == bundled_said(files as nat, atoms as nat, edges as nat, entities as nat, out_path@),
{
    let mut out = "bundled ".to_owned();
    push_decimal(&mut out, files as u64);
    out.append(" files, ");
    push_decimal(&mut out, atoms as u64);
    out.append(" atoms, ");
    push_decimal(&mut out, edges as u64);
    out.append(" edges, ");
    push_decimal(&mut out, entities as u64);
    out.append(" entities → ");
    out.append(out_path);
    out
}

// ── gc ───────────────────────────────────────────────────────────────────────

/// The limits that the flags of `gc` give: bytes and seconds; or what is said
/// of them.
pub open spec fn gc_limits(max_size: Seq<char>, older_than: Option<Seq<char>>) -> Result<
    (nat, Option<nat>),
    Seq<char>,
> {
    match size_of(max_size) {
        Err(e) => Err("gc: --max-size: "@ + ("invalid input: "@ + e)),
        Ok(bytes) => match older_than {
            None => Ok((bytes, None)),
            Some(s) => match duration_of(s) {
                Err(e) => Err("gc: --older-than: "@ + ("invalid input: "@ + e)),
                Ok(secs) => Ok((bytes, Some(secs))),
            },
        },
    }
}

/// The options of a collection.
pub fn gc_options(flags: &GcFlags) -> (r: Result<GcOptions, Refusal>)
    ensures
        match gc_limits(flags.max_size@, flags.older_than.deep_view()) {
            Ok((bytes, age)) => r matches Ok(o) && (o.max_size_bytes matches Some(b) && b == bytes)
                && (match age {
                Some(secs) => o.older_than matches Some(d) && d.secs == secs
                    && d.subsec_nanos == 0,
                None => o.older_than is None,
            }) && o.dry_run == flags.dry_run,
            Err(m) => r matches Err(x) && x.says(ExitCode::UsageError, m),
        },
{
    let max_size = match parse_size(flags.max_size.as_str()) {
        Ok(b) => b,
        Err(e) => {
            return Err(
                Refusal::misuse("gc: --max-size: ".to_owned().concat(e.to_string().as_str())),
            );
        },
    };
    let older_than = match &flags.older_than {
        None => None,
        Some(s) => match parse_duration(s.as_str()) {
            Ok(d) => Some(d),
            Err(e) => {
                return Err(
                    Refusal::misuse("gc: --older-than: ".to_owned().concat(e.to_string().as_str())),
                );
            },
        },
    };
    Ok(GcOptions { max_size_bytes: Some(max_size), older_than, dry_run: flags.dry_run })
}

/// What a collection says in the end.
pub open spec fn collected(
    dry_run: bool,
    count: nat,
    size: nat,
    root: Seq<char>,
    count_before: nat,
    total_before: nat,
) -> Seq<char> {
    (if dry_run {
        "would remove"@
    } else {
        "removed"@
    }) + " "@ + dec(count) + " entries ("@ + dec(size) + " bytes) from "@ + root + " (had "@ + dec(
        count_before,
    ) + " entries, "@ + dec(total_before) + " bytes)"@
}

/// What a collection says in the end.
pub fn gc_line(report: &GcReport, dry_run: bool, root: &str) -> (r: String)
    ensures
        r@ == collected(
            dry_run,
            report.removed_count as nat,
            report.removed_size as nat,
            root@,
            report.count_before as nat,
            report.total_before as nat,
        ),
{
    let verb = if dry_run {
        "would remove"
    } else {
        "removed"
    };
    let mut out = verb.to_owned().concat(" ");
    push_decimal(&mut out, report.removed_count as u64);
    out.append(" entries (");
    push_decimal(&mut out, report.removed_size);
    out.append(" bytes) from ");
    out.append(root);
    out.append(" (had ");
    push_decimal(&mut out, report.count_before as u64);
    out.append(" entries, ");
    push_decimal(&mut out, report.total_before);
    out.append(" bytes)");
    out
}

// ── sequence ─────────────────────────────────────────────────────────────────

/// What is said of the flags of `sequence` that are refused, if they are.
pub open spec fn sequence_complaint(
    all: bool,
    target: Option<Seq<char>>,
    git_ref: Option<Seq<char>>,
) -> Option<Seq<char>> {
    if !all && !(target matches Some(t) && trimmed(t).len() > 0) {
        Some("sequence: pass --target <NAME> or --all"@)
    } else {
        ref_complaint("sequence"@, git_ref)
    }
}

/// Refuses the flags of `sequence` that name no function.
pub fn check_sequence(flags: &SequenceFlags) -> (r: Result<(), Refusal>)
    ensures
        match sequence_complaint(
            flags.all,
            flags.target.deep_view(),
            flags.git_ref.deep_view(),
        ) {
            Some(m) => r matches Err(x) && x.says(ExitCode::UsageError, m),
            None => r is Ok,
        },
{
    let named = match &flags.target {
        Some(t) => !trim(t.as_str()).as_str().is_empty(),
        None => false,
    };
    if !flags.all && !named {
        return Err(Refusal::misuse("sequence: pass --target <NAME> or --all".to_owned()));
    }
    check_ref_arg("sequence", borrowed(&flags.git_ref))
}

/// What `sequence` draws.
#[derive(Debug, PartialEq, Eq)]
pub enum SequenceMode {
    /// All functions, each to a file in this directory.
    All(String),
    /// The function with this name.
    Single(String),
}

/// Whether a result is what `sequence` draws, given the number of its sources.
pub open spec fn is_mode(
    r: Result<SequenceMode, Refusal>,
    sources: nat,
    all: bool,
    target: Option<Seq<char>>,
    path: Seq<char>,
    out: Option<Seq<char>>,
) -> bool {
    if sources == 0 {
        r matches Err(x) && x.says(
            ExitCode::Failure,
            "sequence: no Rust or Python files found under "@ + path,
        )
    } else if all {
        match out {
            Some(dir) => r matches Ok(SequenceMode::All(d)) && d@ == dir,
            None => r matches Err(x) && x.says(
                ExitCode::UsageError,
                "sequence: --all requires --out <DIR>"@,
            ),
        }
    } else {
        r matches Ok(SequenceMode::Single(t)) && t@ == (match target {
            Some(name) => name,
            None => ""@,
        })
    }
}

/// What `sequence` draws, given the number of its sources.
pub fn sequence_mode(flags: &SequenceFlags, sources: usize) -> (r: Result<SequenceMode, Refusal>)
    ensures
        is_mode(
            r,
            sources as nat,
            flags.all,
            flags.target.deep_view(),
            flags.path@,
            flags.out.deep_view(),
        ),
{
    if sources == 0 {
        return Err(
            Refusal {
                code: ExitCode::Failure,
                message: "sequence: no Rust or Python files found under ".to_owned().concat(
                    flags.path.as_str(),
                ),
            },
        );
    }
    if flags.all {
        match &flags.out {
            Some(d) => Ok(SequenceMode::All(d.clone())),
            None => Err(Refusal::misuse("sequence: --all requires --out <DIR>".to_owned())),
        }
    } else {
        let target = match &flags.target {
            Some(t) => t.as_str(),
            None => "",
        };
        Ok(SequenceMode::Single(target.to_owned()))
    }
}

/// Diagrams that were written, and functions and files that were skipped.
#[derive(Debug, Clone, Copy, PartialEq, Eq, Structural)]
pub struct SequenceTally {
    pub written: usize,
    pub skipped: usize,
}

impl SequenceTally {
    /// Counts a function, and tells whether its diagram is written: where there
    /// is one, and it has steps. `steps` is their number.
    pub fn note(&mut self, steps: Option<usize>) -> (r: bool)
        requires
            old(self).written < usize::MAX,
            old(self).skipped < usize::MAX,
        ensures
            r == (steps matches Some(n) && n > 0),
            r ==> final(self).written == old(self).written + 1 && final(self).skipped == old(
                self,
            ).skipped,
            !r ==> final(self).written == old(self).written && final(self).skipped == old(
                self,
            ).skipped + 1,
    {
        let drawn = match steps {
            Some(n) => n > 0,
            None => false,
        };
        if drawn {
            self.written += 1;
        } else {
            self.skipped += 1;
        }
        drawn
    }
}

/// What `sequence --all` says in the end.
pub open spec fn sequences_said(written: nat, dir: Seq<char>, skipped: nat) -> Seq<char> {
    "sequence --all: "@ + dec(written) + " diagrams written to "@ + dir + " ("@ + dec(skipped)
        + " skipped: empty / parse fail)"@
}

/// What `sequence --all` says in the end.
pub fn sequences_line(tally: &SequenceTally, dir: &str) -> (r: String)
    ensures
        r@ == sequences_said(tally.written as nat, dir@, tally.skipped as nat),
{
    let mut out = "sequence --all: ".to_owned();
    push_decimal(&mut out, tally.written as u64);
    out.append(" diagrams written to ");
    out.append(dir);
    out.append(" (");
    push_decimal(&mut out, tally.skipped as u64);
    out.append(" skipped: empty / parse fail)");
    out
}

/// What `sequence` says of a function that it did not find.
pub fn not_found(target: &str, path: &str) -> (r: Refusal)
    ensures
        r.says(
            ExitCode::Failure,
            "sequence: function `"@ + target@ + "` not found under "@ + path@,
        ),
{
    Refusal {
        code: ExitCode::Failure,
        message: "sequence: function `".to_owned().concat(target).concat(
            "` not found under ",
        ).concat(path),
    }
}

/// What `sequence` says of a function that it drew.
pub open spec fn sequence_said(
    target: Seq<char>,
    file: Seq<char>,
    participants: nat,
    steps: nat,
    out_path: Option<Seq<char>>,
) -> Seq<char> {
    "sequence "@ + target + " from "@ + file + " ("@ + dec(participants) + " participants, "@ + dec(
        steps,
    ) + " steps)"@ + (match out_path {
        Some(p) => " → "@ + p,
        None => Seq::empty(),
    })
}

/// What `sequence` says of a function that it drew.
pub fn sequence_line(
    target: &str,
    file: &str,
    participants: usize,
    steps: usize,
    out_path: Option<&str>,
) -> (r: String)
    ensures
        r@ == sequence_said(
            target@,
            file@,
            participants as nat,
            steps as nat,
            match out_path {
                Some(p) => Some(p@),
                None => None,
            },
        ),
{
    let mut out = "sequence ".to_owned().concat(target).concat(" from ").concat(file).concat(" (");
    push_decimal(&mut out, participants as u64);
    out.append(" participants, ");
    push_decimal(&mut out, steps as u64);
    out.append(" steps)");
    let ghost top = out@;
    match out_path {
        Some(p) => {
            out.append(" → ");
            out.append(p);
            assert(out@ =~= top + (" → "@ + p@));
        },
        None => {
            assert(out@ =~= top + Seq::<char>::empty());
        },
    }
    out
}

// ── flow ─────────────────────────────────────────────────────────────────────

/// Which calls out of the project a flow shows.
#[derive(Debug, Clone, Copy, PartialEq, Eq, Structural)]
pub enum External {
    /// None.
    Never,
    /// All.
    Always,
    /// Those near the start.
    NearOnly,
}

/// Which calls out of the project a flow shows: leaving them out goes before
/// showing all.
pub fn external_mode(flags: &FlowFlags) -> (r: External)
    ensures
        r == (match (flags.no_external, flags.include_external) {
            (true, _) => External::Never,
            (false, true) => External::Always,
            (false, false) => External::NearOnly,
        }),
{
    if flags.no_external {
        External::Never
    } else if flags.include_external {
        External::Always
    } else {
        External::NearOnly
    }
}

/// What a flow says in the end.
pub open spec fn flow_said(target: Seq<char>, depth: nat, files: nat, atoms: nat) -> Seq<char> {
    "flow: "@ + target + " depth "@ + dec(depth) + " ("@ + dec(files) + " files, "@ + dec(atoms)
        + " atoms)"@
}

/// What a flow says in the end.
pub fn flow_line(target: &str, depth: u8, files: usize, atoms: usize) -> (r: String)
    ensures
        r@ == flow_said(target@, depth as nat, files as nat, atoms as nat),
{
    let mut out = "flow: ".to_owned().concat(target).concat(" depth ");
    push_decimal(&mut out, depth as u64);
    out.append(" (");
    push_decimal(&mut out, files as u64);
    out.append(" files, ");
    push_decimal(&mut out, atoms as u64);
    out.append(" atoms)");
    out
}

} // verus!
