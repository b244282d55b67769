//! Reading sources from a git ref: what the answers of `git` mean.
//!
//! Running `git` is left to the caller, who hands over what it printed.

use crate::chars::{
    dec, law_number_of_dec, law_split_first, lemma_split_first, number, parse_number, split_first, split_once, starts, starts_with, trim, trim_end_char,
    trimmed, without_trailing,
};
use crate::error::{is_invalid, AstToMermaidError, Result};
use crate::parser::code::decode_text;
use crate::render::util::{debug_quoted, quoted};
use crate::text::str_eq;
use vstd::prelude::*;
use vstd::string::*;
use vstd::utf8::{decode_utf8, valid_utf8};

verus! {

// ── Trusted boundary ─────────────────────────────────────────────────────────

/// The text that bytes encode in UTF-8, with a replacement character for what
/// is not valid.
pub uninterp spec fn lossy_text(bytes: Seq<u8>) -> Seq<char>;

/// `String::from_utf8_lossy`: the text of the bytes, with a replacement
/// character for what is not valid UTF-8; the text itself where all is valid.
#[verifier::external_body]
fn lossy(bytes: &[u8]) -> (r: String)
    ensures
        r@ == lossy_text(bytes@),
        valid_utf8(bytes@) ==> r@ == decode_utf8(bytes@),
{
    String::from_utf8_lossy(bytes).into_owned()
}

// ── Answers ──────────────────────────────────────────────────────────────────

/// What a run of `git` gave.
#[derive(Debug)]
pub struct GitOutput {
    /// Whether it ended with success.
    pub success: bool,
    /// What it printed.
    pub stdout: Vec<u8>,
    /// What it printed as errors.
    pub stderr: Vec<u8>,
}

/// What a run of `git` printed as text, or what the error says: `failed` for a
/// run without success.
pub open spec fn answer(
    success: bool,
    stdout: Seq<u8>,
    failed: Seq<char>,
) -> std::result::Result<Seq<char>, Seq<char>> {
    if !success {
        Err(failed)
    } else if !valid_utf8(stdout) {
        Err("non-utf8 git output"@)
    } else {
        Ok(decode_utf8(stdout))
    }
}

/// What a run of `git` printed as text; `failed` is what the error of a run
/// without success says.
fn printed(out: &GitOutput, failed: String) -> (r: Result<String>)
    ensures
        match answer(out.success, out.stdout@, failed@) {
            Ok(s) => r matches Ok(t) && t@ == s,
            Err(e) => is_invalid(r, e),
        },
{
    if !out.success {
        return Err(AstToMermaidError::InvalidInput(failed));
    }
    match decode_text(out.stdout.as_slice()) {
        Ok(s) => Ok(s.to_owned()),
        Err(_) => Err(AstToMermaidError::InvalidInput("non-utf8 git output".to_owned())),
    }
}

// ── Refs ─────────────────────────────────────────────────────────────────────

/// What is wrong with the name of a ref: it is empty, or looks like a flag.
pub open spec fn ref_fault(s: Seq<char>) -> Option<Seq<char>> {
    if s.len() == 0 {
        Some("git ref must not be empty"@)
    } else if starts(s, "-"@) {
        Some("git ref must not start with `-`: "@ + s)
    } else {
        None
    }
}

/// Refuses the name of a ref that is empty or looks like a flag of `git`.
pub fn validate_git_ref(s: &str) -> (r: Result<()>)
    ensures
        match ref_fault(s@) {
            Some(e) => is_invalid(r, e),
            None => r is Ok,
        },
{
    if s.is_empty() {
        return Err(AstToMermaidError::InvalidInput("git ref must not be empty".to_owned()));
    }
    if starts_with(s, "-") {
        return Err(
            AstToMermaidError::InvalidInput(
                "git ref must not start with `-`: ".to_owned().concat(s),
            ),
        );
    }
    Ok(())
}

/// What the error of a ref that does not resolve says, given what `git`
/// printed.
pub open spec fn unresolved(git_ref: Seq<char>, complaint: Seq<char>) -> Seq<char> {
    "git rev-parse "@ + git_ref + ": "@ + trimmed(complaint) + " (try `git fetch`?)"@
}

/// The commit that a ref resolves to, from the answer of `git rev-parse
/// --verify`.
pub fn rev_parse(git_ref: &str, out: &GitOutput) -> (r: Result<String>)
    ensures
        match answer(
            out.success,
            out.stdout@,
            unresolved(git_ref@, lossy_text(out.stderr@)),
        ) {
            Ok(s) => r matches Ok(t) && t@ == trimmed(s),
            Err(e) => is_invalid(r, e),
        },
{
    let complaint = lossy(out.stderr.as_slice());
    let failed = "git rev-parse ".to_owned().concat(git_ref).concat(": ").concat(
        trim(complaint.as_str()).as_str(),
    ).concat(" (try `git fetch`?)");
    match printed(out, failed) {
        Ok(s) => Ok(trim(s.as_str())),
        Err(e) => Err(e),
    }
}

/// What the error of a directory outside of a work tree says.
pub open spec fn outside(start: Seq<char>, complaint: Seq<char>) -> Seq<char> {
    "not inside a git work tree (start="@ + start + "): "@ + trimmed(complaint)
}

/// The top directory of the work tree around `start`, from the answer of `git
/// rev-parse --show-toplevel`.
pub fn show_toplevel(start: &str, out: &GitOutput) -> (r: Result<String>)
    ensures
        match answer(out.success, out.stdout@, outside(start@, lossy_text(out.stderr@))) {
            Ok(s) => r matches Ok(t) && t@ == trimmed(s),
            Err(e) => is_invalid(r, e),
        },
{
    let complaint = lossy(out.stderr.as_slice());
    let failed = "not inside a git work tree (start=".to_owned().concat(start).concat("): ").concat(
        trim(complaint.as_str()).as_str(),
    );
    match printed(out, failed) {
        Ok(s) => Ok(trim(s.as_str())),
        Err(e) => Err(e),
    }
}

// ── Trees ────────────────────────────────────────────────────────────────────

/// A file of a tree.
#[derive(Debug, Clone, PartialEq, Eq)]
pub struct TreeEntry {
    /// Path relative to the root of the tree.
    pub path: String,
    /// Hash of the content.
    pub blob_sha: String,
}

/// What a [`TreeEntry`] holds.
#[verifier::ext_equal]
pub struct TreeEntryView {
    pub path: Seq<char>,
    pub blob_sha: Seq<char>,
}

impl DeepView for TreeEntry {
    type V = TreeEntryView;

    open spec fn deep_view(&self) -> TreeEntryView {
        TreeEntryView { path: self.path@, blob_sha: self.blob_sha@ }
    }
}

/// The file of one record `<mode> <type> <sha>\t<path>`; none for a record of
/// another form or of another type than `blob`.
pub open spec fn tree_record(record: Seq<char>) -> Option<TreeEntryView> {
    match split_first(record, "\t"@) {
        None => None,
        Some((meta, path)) => match split_first(meta, " "@) {
            None => None,
            Some((_, rest)) => match split_first(rest, " "@) {
                None => None,
                Some((kind, sha)) => if kind == "blob"@ {
                    Some(TreeEntryView { path, blob_sha: sha })
                } else {
                    None
                },
            },
        },
    }
}

/// The files of a listing, whose records are parted by NUL.
pub open spec fn tree_records(raw: Seq<char>) -> Seq<TreeEntryView>
    decreases raw.len(),
{
    proof {
        reveal_strlit("\0");
        lemma_split_first(raw, "\0"@);
    }
    match split_first(raw, "\0"@) {
        None => one_record(raw),
        Some((first, rest)) => one_record(first) + tree_records(rest),
    }
}

/// The files of one record: one or none.
pub open spec fn one_record(record: Seq<char>) -> Seq<TreeEntryView> {
    match tree_record(record) {
        Some(e) => seq![e],
        None => Seq::empty(),
    }
}

/// A record of a file gives the path and the digest, and a record of anything
/// else gives nothing.
pub proof fn law_tree_record(mode: Seq<char>, kind: Seq<char>, sha: Seq<char>, path: Seq<char>)
    requires
        !mode.contains(' '),
        !kind.contains(' '),
        !mode.contains('\t'),
        !kind.contains('\t'),
        !sha.contains('\t'),
    ensures
        tree_record(mode + " "@ + (kind + " "@ + sha) + "\t"@ + path) == if kind == "blob"@ {
            Some(TreeEntryView { path, blob_sha: sha })
        } else {
            None
        },
{
    reveal_strlit(" ");
    reveal_strlit("\t");
    let rest = kind + " "@ + sha;
    let meta = mode + " "@ + rest;
    assert(!meta.contains('\t')) by {
        if meta.contains('\t') {
            let i = choose|i: int| 0 <= i < meta.len() && meta[i] == '\t';
            let m = mode.len() as int;
            let k = m + 1 + kind.len();
            if i < m {
                assert(mode[i] == '\t');
            } else if i > m && i < k {
                assert(kind[i - m - 1] == '\t');
            } else if i > k {
                assert(sha[i - k - 1] == '\t');
            }
        }
    }
    law_split_first(meta, "\t"@, path);
    law_split_first(mode, " "@, rest);
    law_split_first(kind, " "@, sha);
}

/// A listing holds the files of its records, one after the other.
pub proof fn law_tree_records(record: Seq<char>, rest: Seq<char>)
    requires
        !record.contains('\0'),
    ensures
        tree_records(record + "\0"@ + rest) == one_record(record) + tree_records(rest),
        tree_records(record) == one_record(record),
{
    reveal_strlit("\0");
    law_split_first(record, "\0"@, rest);
}

/// The file of one record.
fn read_record(record: &str) -> (r: Option<TreeEntry>)
    ensures
        match r {
            Some(e) => tree_record(record@) == Some(e.deep_view()),
            None => tree_record(record@) is None,
        },
{
    match split_once(record, "\t") {
        None => None,
        Some((meta, path)) => match split_once(meta.as_str(), " ") {
            None => None,
            Some((_, rest)) => match split_once(rest.as_str(), " ") {
                None => None,
                Some((kind, sha)) => if str_eq(kind.as_str(), "blob") {
                    Some(TreeEntry { path, blob_sha: sha })
                } else {
                    None
                },
            },
        },
    }
}

/// The files of a listing.
pub fn parse_tree_listing(raw: &str) -> (r: Vec<TreeEntry>)
    ensures
        r.deep_view() == tree_records(raw@),
{
    let mut out: Vec<TreeEntry> = Vec::new();
    let mut rest = raw.to_owned();
    assert(out.deep_view() + tree_records(rest@) =~= tree_records(raw@));
    loop
        invariant
            out.deep_view() + tree_records(rest@) == tree_records(raw@),
        decreases rest@.len(),
    {
        let ghost had = out.deep_view();
        let ghost now = rest@;
        match split_once(rest.as_str(), "\0") {
            None => {
                if let Some(e) = read_record(rest.as_str()) {
                    let ghost ev = e.deep_view();
                    out.push(e);
                    assert(out.deep_view() =~= had.push(ev));
                    assert(out.deep_view() =~= had + one_record(now));
                } else {
                    assert(out.deep_view() =~= had + one_record(now));
                }
                return out;
            },
            Some((first, tail)) => {
                if let Some(e) = read_record(first.as_str()) {
                    let ghost ev = e.deep_view();
                    out.push(e);
                    assert(out.deep_view() =~= had.push(ev));
                    assert(out.deep_view() =~= had + one_record(first@));
                } else {
                    assert(out.deep_view() =~= had + one_record(first@));
                }
                proof {
                    reveal_strlit("\0");
                    lemma_split_first(now, "\0"@);
                    assert(tree_records(now) == one_record(first@) + tree_records(tail@));
                    assert(had + (one_record(first@) + tree_records(tail@)) =~= (had + one_record(
                        first@,
                    )) + tree_records(tail@));
                }
                rest = tail;
            },
        }
    }
}

/// What the error of a tree that cannot be listed says.
pub open spec fn unlisted(git_ref: Seq<char>, complaint: Seq<char>) -> Seq<char> {
    "git ls-tree "@ + git_ref + ": "@ + trimmed(complaint)
}

/// The files of the tree of a ref, from the answer of `git ls-tree -r -z
/// --full-tree`.
pub fn ls_tree(git_ref: &str, out: &GitOutput) -> (r: Result<Vec<TreeEntry>>)
    ensures
        match answer(out.success, out.stdout@, unlisted(git_ref@, lossy_text(out.stderr@))) {
            Ok(s) => r matches Ok(es) && es.deep_view() == tree_records(s),
            Err(e) => is_invalid(r, e),
        },
{
    let complaint = lossy(out.stderr.as_slice());
    let failed = "git ls-tree ".to_owned().concat(git_ref).concat(": ").concat(
        trim(complaint.as_str()).as_str(),
    );
    match printed(out, failed) {
        Ok(s) => Ok(parse_tree_listing(s.as_str())),
        Err(e) => Err(e),
    }
}

// ── Blobs ────────────────────────────────────────────────────────────────────

/// The size that a header `<sha> <type> <size>` of `git cat-file --batch`
/// announces, or what the error says; `shown` is the header as an error shows
/// it.
pub open spec fn header_size(
    blob_sha: Seq<char>,
    header: Seq<char>,
    shown: Seq<char>,
) -> std::result::Result<nat, Seq<char>> {
    let line = without_trailing(header, '\n');
    if header.len() == 0 {
        Err("git cat-file: unexpected EOF on header"@)
    } else {
        match split_first(line, " "@) {
            None => Err("git cat-file: malformed header "@ + shown),
            Some((_, rest)) => match split_first(rest, " "@) {
                None => if rest == "missing"@ {
                    Err("git cat-file "@ + blob_sha + ": missing"@)
                } else {
                    Err("git cat-file: malformed header "@ + shown)
                },
                Some((_, size)) => match number(size, usize::MAX as nat) {
                    Ok(n) => Ok(n),
                    Err(_) => Err("git cat-file: non-numeric size in header "@ + shown),
                },
            },
        }
    }
}

/// The size that a header announces; `shown` is the header, without its line
/// end, as an error shows it.
pub fn read_header(blob_sha: &str, header: &str, shown: &str) -> (r: Result<usize>)
    ensures
        match header_size(blob_sha@, header@, shown@) {
            Ok(n) => r matches Ok(x) && x == n,
            Err(e) => is_invalid(r, e),
        },
{
    if header.is_empty() {
        return Err(
            AstToMermaidError::InvalidInput("git cat-file: unexpected EOF on header".to_owned()),
        );
    }
    let line = trim_end_char(header, '\n');
    match split_once(line.as_str(), " ") {
        None => Err(
            AstToMermaidError::InvalidInput(
                "git cat-file: malformed header ".to_owned().concat(shown),
            ),
        ),
        Some((_, rest)) => match split_once(rest.as_str(), " ") {
            None => if str_eq(rest.as_str(), "missing") {
                Err(
                    AstToMermaidError::InvalidInput(
                        "git cat-file ".to_owned().concat(blob_sha).concat(": missing"),
                    ),
                )
            } else {
                Err(
                    AstToMermaidError::InvalidInput(
                        "git cat-file: malformed header ".to_owned().concat(shown),
                    ),
                )
            },
            Some((_, size)) => match parse_number(size.as_str(), usize::MAX as u64) {
                Ok(n) => Ok(n as usize),
                Err(_) => Err(
                    AstToMermaidError::InvalidInput(
                        "git cat-file: non-numeric size in header ".to_owned().concat(shown),
                    ),
                ),
            },
        },
    }
}

/// The size that a header of `git cat-file --batch` announces.
pub fn blob_size(blob_sha: &str, header: &str) -> (r: Result<usize>)
    ensures
        match header_size(blob_sha@, header@, quoted(without_trailing(header@, '\n'))) {
            Ok(n) => r matches Ok(x) && x == n,
            Err(e) => is_invalid(r, e),
        },
{
    let line = trim_end_char(header, '\n');
    let shown = debug_quoted(line.as_str());
    read_header(blob_sha, header, shown.as_str())
}

/// The content of a blob, or what the error says, given the header and what
/// followed it: the content, then a line end.
pub open spec fn blob_content(
    size: std::result::Result<nat, Seq<char>>,
    body: Seq<u8>,
) -> std::result::Result<Seq<u8>, Seq<char>> {
    match size {
        Err(e) => Err(e),
        Ok(n) => if body.len() < n {
            Err("git cat-file body: failed to fill whole buffer"@)
        } else if body.len() == n {
            Err("git cat-file trailer: failed to fill whole buffer"@)
        } else {
            Ok(body.take(n as int))
        },
    }
}

proof fn lemma_dec_plain(n: nat)
    ensures
        dec(n).len() > 0,
        dec(n).last() != '\n',
    decreases n,
{
}

/// What `git cat-file --batch` answers for a blob is read back: the content that
/// stands behind the header, without the line end that closes it.
pub proof fn law_blob_read(
    sha: Seq<char>,
    kind: Seq<char>,
    content: Seq<u8>,
    rest: Seq<u8>,
    shown: Seq<char>,
)
    requires
        !sha.contains(' '),
        !kind.contains(' '),
        content.len() <= usize::MAX,
        rest.len() > 0,
    ensures
        blob_content(
            header_size(
                sha,
                (sha + " "@ + (kind + " "@ + dec(content.len()))).push('\n'),
                shown,
            ),
            content + rest,
        ) == Ok::<Seq<u8>, Seq<char>>(content),
{
    reveal_strlit(" ");
    let size = dec(content.len());
    let tail = kind + " "@ + size;
    let line = sha + " "@ + tail;
    let header = line.push('\n');
    lemma_dec_plain(content.len());
    assert(header.drop_last() =~= line);
    assert(line.last() == size.last());
    assert(without_trailing(line, '\n') == line);
    assert(without_trailing(header, '\n') == line);
    law_split_first(sha, " "@, tail);
    law_split_first(kind, " "@, size);
    law_number_of_dec(content.len(), usize::MAX as nat);
    assert((content + rest).take(content.len() as int) =~= content);
}

/// The content of a blob, from the answer of `git cat-file --batch`: the
/// header and what followed it.
pub fn cat_file(blob_sha: &str, header: &str, body: &Vec<u8>) -> (r: Result<Vec<u8>>)
    ensures
        match blob_content(
            header_size(blob_sha@, header@, quoted(without_trailing(header@, '\n'))),
            body@,
        ) {
            Ok(b) => r matches Ok(x) && x@ == b,
            Err(e) => is_invalid(r, e),
        },
{
    let size = match blob_size(blob_sha, header) {
        Ok(n) => n,
        Err(e) => {
            return Err(e);
        },
    };
    if body.len() < size {
        return Err(
            AstToMermaidError::InvalidInput(
                "git cat-file body: failed to fill whole buffer".to_owned(),
            ),
        );
    }
    if body.len() == size {
        return Err(
            AstToMermaidError::InvalidInput(
                "git cat-file trailer: failed to fill whole buffer".to_owned(),
            ),
        );
    }
    let mut out: Vec<u8> = Vec::new();
    let mut i: usize = 0;
    assert(out@ =~= body@.take(0));
    while i < size
        invariant
            i <= size < body.len(),
            out@ == body@.take(i as int),
        decreases size - i,
    {
        out.push(body[i]);
        i += 1;
        assert(out@ =~= body@.take(i as int));
    }
    Ok(out)
}

} // verus!
