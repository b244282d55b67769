//! Two-tier content-addressed cache: names, versions and collection.
//!
//! ```text
//! <root>/
//!   version               versions of the schema, the grammars and the tool
//!   blobs/<sha>.cbor      one parsed unit for each file content
//!   refs/<commit>/        one bundle for each commit
//! ```

pub mod gc;
pub mod safety;

pub use gc::{GcEntry, GcOptions, GcPlan, GcPolicy, GcReport};

use crate::chars::{
    contains, dec, find_from, law_number_of_dec, number, occurs, occurs_at, push_decimal, starts,
    starts_with, trim, trimmed, NumberError,
};
use crate::paths::{below, join, parent, parent_of};
use crate::text::{contains_string, str_eq};
use vstd::prelude::*;
use vstd::string::*;

verus! {

// ── Versions ─────────────────────────────────────────────────────────────────

/// First number of a blob; anything else is not one.
pub const BLOB_MAGIC: u32 = 0xa2a2b10b;

/// Version of the envelope around a cached unit.
pub const BLOB_ENVELOPE_VERSION: u32 = 2;

/// Version of the layout of the cache.
pub const SCHEMA_VERSION: u32 = 6;

/// Version of the grammars and of what is extracted with them.
pub const GRAMMAR_VERSION: u32 = 6;

/// The content of the version file, for a version of the tool.
pub open spec fn version_text(tool: Seq<char>) -> Seq<char> {
    "schema="@ + dec(SCHEMA_VERSION as nat) + ";grammar="@ + dec(GRAMMAR_VERSION as nat) + ";a2m="@
        + tool
}

/// The content of the version file, for a version of the tool.
pub fn cache_version(tool: &str) -> (r: String)
    ensures
        r@ == version_text(tool@),
{
    let mut out = "schema=".to_owned();
    push_decimal(&mut out, SCHEMA_VERSION as u64);
    out.append(";grammar=");
    push_decimal(&mut out, GRAMMAR_VERSION as u64);
    out.append(";a2m=");
    out.append(tool);
    out
}

/// Whether the content of the version file, if there is one, is not the
/// version that is wanted: the cache is then to be emptied.
pub fn is_stale(have: Option<&str>, want: &str) -> (r: bool)
    ensures
        r == !(have matches Some(h) && trimmed(h@) == want@),
{
    match have {
        Some(h) => !str_eq(trim(h).as_str(), want),
        None => true,
    }
}

/// The unit in an envelope; none where the envelope is not one of this
/// version.
pub fn open_envelope<T>(magic: u32, version: u32, unit: T) -> (r: Option<T>)
    ensures
        r == (if magic == BLOB_MAGIC && version == BLOB_ENVELOPE_VERSION {
            Some(unit)
        } else {
            None
        }),
{
    if magic != BLOB_MAGIC || version != BLOB_ENVELOPE_VERSION {
        None
    } else {
        Some(unit)
    }
}

// ── Paths ────────────────────────────────────────────────────────────────────

/// A cache rooted at a directory.
#[derive(Debug)]
pub struct Cache {
    pub root: String,
}

/// Content of the file that keeps the cache out of version control.
pub open spec fn gitignore_text() -> Seq<char> {
    "# created by a2m\n*\n"@
}

impl Cache {
    /// The cache rooted at a directory.
    pub fn at(root: &str) -> (r: Self)
        ensures
            r.root@ == root@,
    {
        Self { root: root.to_owned() }
    }

    /// Default root of the cache of a repository: `<repo_root>/.a2m/cache`.
    pub fn default_root(repo_root: &str) -> (r: String)
        ensures
            r@ == below(below(repo_root@, ".a2m"@), "cache"@),
    {
        join(join(repo_root, ".a2m").as_str(), "cache")
    }

    /// Path of the root.
    pub fn root(&self) -> (r: &str)
        ensures
            r@ == self.root@,
    {
        self.root.as_str()
    }

    /// Path of a directory of the cache.
    pub fn subdir(&self, name: &str) -> (r: String)
        ensures
            r@ == below(self.root@, name@),
    {
        join(self.root.as_str(), name)
    }

    /// Path of the unit that was parsed from a file content.
    pub fn blob_path(&self, blob_sha: &str) -> (r: String)
        ensures
            r@ == below(below(self.root@, "blobs"@), blob_sha@ + ".cbor"@),
    {
        let name = blob_sha.to_owned().concat(".cbor");
        join(join(self.root.as_str(), "blobs").as_str(), name.as_str())
    }

    /// Directory of the bundle of a commit.
    pub fn bundle_dir(&self, commit_sha: &str) -> (r: String)
        ensures
            r@ == below(below(self.root@, "refs"@), commit_sha@),
    {
        join(join(self.root.as_str(), "refs").as_str(), commit_sha)
    }

    /// Path of the index of the bundle of a commit.
    pub fn bundle_index(&self, commit_sha: &str) -> (r: String)
        ensures
            r@ == below(below(below(self.root@, "refs"@), commit_sha@), "index.json"@),
    {
        join(self.bundle_dir(commit_sha).as_str(), "index.json")
    }

    /// Whether there is a bundle of a commit, given the paths of the files of
    /// the cache: where its index is among them.
    pub fn has_bundle(&self, commit_sha: &str, files: &Vec<String>) -> (r: bool)
        ensures
            r == files.deep_view().contains(
                below(below(below(self.root@, "refs"@), commit_sha@), "index.json"@),
            ),
    {
        contains_string(files, self.bundle_index(commit_sha).as_str())
    }

    /// Path of the file that keeps the cache out of version control, next to
    /// the root; none where the root has no parent.
    pub fn gitignore_path(&self) -> (r: Option<String>)
        ensures
            r.deep_view() == (match parent_of(self.root@) {
                Some(dir) => Some(below(dir, ".gitignore"@)),
                None => None,
            }),
    {
        match parent(self.root.as_str()) {
            Some(dir) => Some(join(dir.as_str(), ".gitignore")),
            None => None,
        }
    }
}

/// Content of the file that keeps the cache out of version control.
pub fn gitignore() -> (r: &'static str)
    ensures
        r@ == gitignore_text(),
{
    "# created by a2m\n*\n"
}

// ── Scratch names ────────────────────────────────────────────────────────────

/// The name under which a file is written before it is put in its place.
pub open spec fn scratch_name(stem: Seq<char>, pid: nat, thread: nat, counter: nat) -> Seq<char> {
    "."@ + stem + ".tmp."@ + dec(pid) + "."@ + dec(thread) + "."@ + dec(counter)
}

/// The name under which a file is written before it is put in its place.
pub fn tmp_name(stem: &str, pid: u32, thread: u64, counter: u64) -> (r: String)
    ensures
        r@ == scratch_name(stem@, pid as nat, thread as nat, counter as nat),
{
    let mut out = ".".to_owned().concat(stem).concat(".tmp.");
    push_decimal(&mut out, pid as u64);
    out.append(".");
    push_decimal(&mut out, thread);
    out.append(".");
    push_decimal(&mut out, counter);
    out
}

/// The name of the directory in which a bundle is written before it is put in
/// its place.
pub fn tmp_dir_name(stem: &str, pid: u32) -> (r: String)
    ensures
        r@ == "."@ + stem@ + ".tmp."@ + dec(pid as nat),
{
    let mut out = ".".to_owned().concat(stem).concat(".tmp.");
    push_decimal(&mut out, pid as u64);
    out
}

/// Whether a name is one that a crash may have left behind.
pub open spec fn is_scratch(name: Seq<char>) -> bool {
    starts(name, "."@) && occurs(name, ".tmp."@)
}

/// Whether a name is one that a crash may have left behind.
pub fn is_tmp_name(name: &str) -> (r: bool)
    ensures
        r == is_scratch(name@),
{
    starts_with(name, ".") && contains(name, ".tmp.")
}

pub(crate) proof fn lemma_found_from(s: Seq<char>, p: Seq<char>, i: int, at: int)
    requires
        0 <= i <= at,
        occurs_at(s, p, at),
    ensures
        find_from(s, p, i) is Some,
    decreases at - i,
{
    if !occurs_at(s, p, i) {
        lemma_found_from(s, p, i + 1, at);
    }
}

/// Every name under which a file is written is recognized as one that a crash
/// may leave behind.
pub proof fn law_scratch_swept(stem: Seq<char>, pid: nat, thread: nat, counter: nat)
    ensures
        is_scratch(scratch_name(stem, pid, thread, counter)),
{
    reveal_strlit(".");
    reveal_strlit(".tmp.");
    let name = scratch_name(stem, pid, thread, counter);
    let rest = dec(pid) + "."@ + dec(thread) + "."@ + dec(counter);
    assert(name =~= "."@ + stem + ".tmp."@ + rest);
    assert(name.subrange(0, 1) =~= "."@);
    assert(name.subrange(1 + stem.len() as int, 6 + stem.len() as int) =~= ".tmp."@);
    assert(occurs_at(name, ".tmp."@, 1 + stem.len() as int));
    lemma_found_from(name, ".tmp."@, 0, 1 + stem.len() as int);
}

proof fn lemma_dec_digits(n: nat)
    ensures
        forall|i: int| 0 <= i < dec(n).len() ==> '0' <= #[trigger] dec(n)[i] <= '9',
    decreases n,
{
    if n >= 10 {
        lemma_dec_digits(n / 10);
        let front = dec(n / 10);
        assert forall|i: int| 0 <= i < dec(n).len() implies '0' <= #[trigger] dec(n)[i] <= '9' by {
            if i < front.len() {
                assert(dec(n)[i] == front[i]);
            }
        }
    }
}

/// Texts with a dot between parts without dots have equal parts only if they
/// are equal.
proof fn lemma_parts_equal(a: Seq<char>, x: Seq<char>, b: Seq<char>, y: Seq<char>)
    requires
        a + "."@ + x == b + "."@ + y,
        forall|i: int| 0 <= i < a.len() ==> #[trigger] a[i] != '.',
        forall|i: int| 0 <= i < b.len() ==> #[trigger] b[i] != '.',
    ensures
        a == b,
        x == y,
{
    reveal_strlit(".");
    let s = a + "."@ + x;
    let t = b + "."@ + y;
    if a.len() < b.len() {
        assert(s[a.len() as int] == '.');
        assert(t[a.len() as int] == b[a.len() as int]);
    } else if b.len() < a.len() {
        assert(t[b.len() as int] == '.');
        assert(s[b.len() as int] == a[b.len() as int]);
    }
    assert(s.take(a.len() as int) =~= a);
    assert(t.take(b.len() as int) =~= b);
    assert(s.skip(a.len() as int + 1) =~= x);
    assert(t.skip(b.len() as int + 1) =~= y);
}

proof fn lemma_dec_injective(a: nat, b: nat)
    requires
        dec(a) == dec(b),
    ensures
        a == b,
{
    law_number_of_dec(a, a + b);
    law_number_of_dec(b, a + b);
    assert(number(dec(a), a + b) == Ok::<nat, NumberError>(a));
}

/// Two writers never pick the same name for a file: names are equal only where
/// the process, the thread and the count are.
pub proof fn law_scratch_distinct(
    stem: Seq<char>,
    pid: nat,
    thread: nat,
    counter: nat,
    pid2: nat,
    thread2: nat,
    counter2: nat,
)
    requires
        scratch_name(stem, pid, thread, counter) == scratch_name(stem, pid2, thread2, counter2),
    ensures
        pid == pid2,
        thread == thread2,
        counter == counter2,
{
    let head = "."@ + stem + ".tmp."@;
    let inner = dec(thread) + "."@ + dec(counter);
    let inner2 = dec(thread2) + "."@ + dec(counter2);
    let rest = dec(pid) + "."@ + inner;
    let rest2 = dec(pid2) + "."@ + inner2;
    let n1 = scratch_name(stem, pid, thread, counter);
    let n2 = scratch_name(stem, pid2, thread2, counter2);
    assert(n1 =~= head + rest);
    assert(n2 =~= head + rest2);
    assert(n1.skip(head.len() as int) =~= rest);
    assert(n2.skip(head.len() as int) =~= rest2);
    lemma_dec_digits(pid);
    lemma_dec_digits(pid2);
    lemma_dec_digits(thread);
    lemma_dec_digits(thread2);
    lemma_parts_equal(dec(pid), inner, dec(pid2), inner2);
    lemma_parts_equal(dec(thread), dec(counter), dec(thread2), dec(counter2));
    lemma_dec_injective(pid, pid2);
    lemma_dec_injective(thread, thread2);
    lemma_dec_injective(counter, counter2);
}

} // verus!
