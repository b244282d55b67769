//! Which files of a source tree are taken, and in which order.

use crate::chars::{law_split_last, starts, starts_with};
use crate::hash::{hex_char, hex_digit};
use crate::parser::language::Language;
use crate::paths::{base, base_name, law_base_of_entry, part_name, parted, path_key, sort_key};
use crate::records::{is_sorted, sort_records, Record};
use crate::text::{chars_of, contains_string, str_eq};
use vstd::prelude::*;
use vstd::string::*;

verus! {

/// Whether a directory is left out: build output, dependencies, version
/// control, anything hidden, and what the user named.
pub open spec fn excluded(name: Seq<char>, extra: Seq<Seq<char>>) -> bool {
    name == "target"@ || name == "node_modules"@ || name == ".git"@ || starts(name, "."@)
        || extra.contains(name)
}

/// Whether a directory is left out.
pub fn is_excluded(name: &str, extra_exclude: &Vec<String>) -> (r: bool)
    ensures
        r == excluded(name@, extra_exclude.deep_view()),
{
    str_eq(name, "target") || str_eq(name, "node_modules") || str_eq(name, ".git") || starts_with(
        name,
        ".",
    ) || contains_string(extra_exclude, name)
}

/// The directories that are always left out are so with any list of the user.
pub proof fn law_builtin_excluded(name: Seq<char>, extra: Seq<Seq<char>>)
    requires
        excluded(name, Seq::empty()),
    ensures
        excluded(name, extra),
{
}

/// The language of a file, by its extension.
pub open spec fn language_of(path: Seq<char>) -> Option<Language> {
    match parted(base(path)).1 {
        Some(ext) => if ext == "rs"@ {
            Some(Language::Rust)
        } else if ext == "py"@ {
            Some(Language::Python)
        } else {
            None
        },
        None => None,
    }
}

/// The language of a file, by its extension.
pub fn language_for(path: &str) -> (r: Option<Language>)
    ensures
        r == language_of(path@),
{
    let name = base_name(path);
    let (_, extension) = part_name(name.as_str());
    match extension {
        Some(ext) => if str_eq(ext.as_str(), "rs") {
            Some(Language::Rust)
        } else if str_eq(ext.as_str(), "py") {
            Some(Language::Python)
        } else {
            None
        },
        None => None,
    }
}

/// What a walk does with an entry of a directory.
#[derive(Debug, Clone, Copy, PartialEq, Eq, Structural)]
pub enum Visit {
    /// The entry is passed over.
    Skip,
    /// The directory is walked.
    Descend,
    /// The file is taken.
    Take(Language),
}

/// What a walk does with an entry: directories that are not left out are
/// walked, and files in a known language are taken.
pub open spec fn visited(
    path: Seq<char>,
    is_dir: bool,
    is_file: bool,
    extra: Seq<Seq<char>>,
) -> Visit {
    if is_dir {
        if excluded(base(path), extra) {
            Visit::Skip
        } else {
            Visit::Descend
        }
    } else {
        match language_of(path) {
            Some(lang) => if is_file {
                Visit::Take(lang)
            } else {
                Visit::Skip
            },
            None => Visit::Skip,
        }
    }
}

/// A file of a directory whose name ends in a dot and an extension is taken in
/// the language of the extension, and passed over where that is of none.
pub proof fn law_taken_by_extension(
    dir: Seq<char>,
    stem: Seq<char>,
    ext: Seq<char>,
    extra: Seq<Seq<char>>,
)
    requires
        stem.len() > 0,
        ext.len() > 0,
        !stem.contains('/'),
        !ext.contains('/'),
        !ext.contains('.'),
    ensures
        visited(dir.push('/') + (stem + "."@ + ext), false, true, extra) == if ext == "rs"@ {
            Visit::Take(Language::Rust)
        } else if ext == "py"@ {
            Visit::Take(Language::Python)
        } else {
            Visit::Skip
        },
{
    reveal_strlit(".");
    reveal_strlit("..");
    reveal_strlit("rs");
    reveal_strlit("py");
    let name = stem + "."@ + ext;
    assert(!name.contains('/')) by {
        if name.contains('/') {
            let i = choose|i: int| 0 <= i < name.len() && name[i] == '/';
            if i < stem.len() {
                assert(stem[i] == '/');
            } else if i > stem.len() {
                assert(ext[i - stem.len() - 1] == '/');
            }
        }
    }
    assert(name.len() > 2);
    law_base_of_entry(dir, name);
    law_split_last(stem, "."@, ext);
}

/// A directory is passed over where its name is hidden or excluded, and walked
/// otherwise.
pub proof fn law_walked_by_name(dir: Seq<char>, name: Seq<char>, extra: Seq<Seq<char>>)
    requires
        name.len() > 0,
        name != "."@,
        !name.contains('/'),
    ensures
        visited(dir.push('/') + name, true, false, extra) is Descend <==> name[0] != '.' && name
            != "target"@ && name != "node_modules"@ && forall|i: int|
            0 <= i < extra.len() ==> #[trigger] extra[i] != name,
        visited(dir.push('/') + name, true, false, extra) is Skip || visited(
            dir.push('/') + name,
            true,
            false,
            extra,
        ) is Descend,
{
    reveal_strlit(".");
    reveal_strlit(".git");
    law_base_of_entry(dir, name);
    assert(name.subrange(0, 1)[0] == name[0]);
    if name[0] == '.' {
        assert(name.subrange(0, 1) =~= "."@);
    }
    if !extra.contains(name) {
        assert forall|i: int| 0 <= i < extra.len() implies #[trigger] extra[i] != name by {}
    }
}

/// Decides what a walk does with an entry of a directory.
pub fn visit(path: &str, is_dir: bool, is_file: bool, extra_exclude: &Vec<String>) -> (r: Visit)
    ensures
        r == visited(path@, is_dir, is_file, extra_exclude.deep_view()),
{
    if is_dir {
        let name = base_name(path);
        if is_excluded(name.as_str(), extra_exclude) {
            Visit::Skip
        } else {
            Visit::Descend
        }
    } else {
        match language_for(path) {
            Some(lang) => if is_file {
                Visit::Take(lang)
            } else {
                Visit::Skip
            },
            None => Visit::Skip,
        }
    }
}

/// Decides what a walk does with the path that it starts at: a directory is
/// walked whatever its name.
pub fn visit_root(path: &str, is_dir: bool, is_file: bool) -> (r: Visit)
    ensures
        r == (if is_file {
            match language_of(path@) {
                Some(lang) => Visit::Take(lang),
                None => Visit::Skip,
            }
        } else if is_dir {
            Visit::Descend
        } else {
            Visit::Skip
        }),
{
    if is_file {
        match language_for(path) {
            Some(lang) => Visit::Take(lang),
            None => Visit::Skip,
        }
    } else if is_dir {
        Visit::Descend
    } else {
        Visit::Skip
    }
}

/// A file that a walk took.
#[derive(Debug, Clone, PartialEq, Eq)]
pub struct SourceFile {
    pub path: String,
    pub language: Language,
}

/// What a [`SourceFile`] holds.
#[verifier::ext_equal]
pub struct SourceFileView {
    pub path: Seq<char>,
    pub language: Language,
}

impl DeepView for SourceFile {
    type V = SourceFileView;

    open spec fn deep_view(&self) -> SourceFileView {
        SourceFileView { path: self.path@, language: self.language }
    }
}

impl Record for SourceFile {
    open spec fn key(v: SourceFileView) -> Seq<char> {
        path_key(v.path)
    }

    fn key_string(&self) -> (r: String) {
        sort_key(self.path.as_str())
    }

    fn duplicate(&self) -> (r: Self) {
        SourceFile { path: self.path.clone(), language: self.language }
    }
}

/// The files of a walk in the order of their paths, component by component.
pub fn sort_files(files: &Vec<SourceFile>) -> (r: Vec<SourceFile>)
    ensures
        is_sorted::<SourceFile>(files.deep_view(), r.deep_view()),
{
    sort_records(files)
}

/// The line that a walk prints for a file.
pub open spec fn walk_line(lang: Language, path: Seq<char>) -> Seq<char> {
    lang.text() + "\t"@ + path
}

/// The line that a walk prints for a file.
pub fn file_line(lang: Language, path: &str) -> (r: String)
    ensures
        r@ == walk_line(lang, path@),
{
    lang.name().to_owned().concat("\t").concat(path)
}

// ── Paths on one line ────────────────────────────────────────────────────────

/// A character as it is printed: a backslash doubled, control characters but
/// the tab as `\x` and two digits.
pub open spec fn printed_char(c: char) -> Seq<char> {
    if c == '\\' {
        seq!['\\', '\\']
    } else if c == '\t' {
        seq![c]
    } else if (c as u32) < 0x20 || c as u32 == 0x7f {
        seq!['\\', 'x', hex_digit((c as u32 / 16) as int), hex_digit((c as u32 % 16) as int)]
    } else {
        seq![c]
    }
}

/// A path as it is printed.
pub open spec fn printed(s: Seq<char>) -> Seq<char>
    decreases s.len(),
{
    if s.len() == 0 {
        Seq::empty()
    } else {
        printed(s.drop_last()) + printed_char(s.last())
    }
}

/// Escapes control characters, so that a path stays on its line and does not
/// act on a terminal. Tabs stay.
pub fn escape_control_chars(s: &str) -> (r: String)
    ensures
        r@ == printed(s@),
{
    let cs = chars_of(s);
    let mut out = String::new();
    let mut i: usize = 0;
    assert(s@.take(0) =~= Seq::<char>::empty());
    assert(out@ =~= printed(s@.take(0)));
    while i < cs.len()
        invariant
            i <= cs.len(),
            cs@ == s@,
            out@ == printed(s@.take(i as int)),
        decreases cs.len() - i,
    {
        let ghost had = out@;
        let c = cs[i];
        assert(s@.take(i + 1).drop_last() =~= s@.take(i as int));
        assert(s@.take(i + 1).last() == c);
        let code: u32 = c as u32;
        if c == '\\' {
            out.push('\\');
            out.push('\\');
        } else if c == '\t' {
            out.push(c);
        } else if code < 0x20 || code == 0x7f {
            out.push('\\');
            out.push('x');
            out.push(hex_char((code / 16) as u8));
            out.push(hex_char((code % 16) as u8));
        } else {
            out.push(c);
        }
        assert(out@ =~= had + printed_char(c));
        i += 1;
    }
    assert(s@.take(cs.len() as int) =~= s@);
    out
}

/// A printed path holds no control character but the tab.
pub proof fn law_printed(s: Seq<char>)
    ensures
        forall|i: int|
            0 <= i < printed(s).len() ==> (#[trigger] printed(s)[i] == '\t' || (printed(s)[i] as u32
                >= 0x20 && printed(s)[i] as u32 != 0x7f)),
    decreases s.len(),
{
    if s.len() > 0 {
        let front = printed(s.drop_last());
        let last = printed_char(s.last());
        law_printed(s.drop_last());
        assert forall|i: int| 0 <= i < printed(s).len() implies (#[trigger] printed(s)[i] == '\t'
            || (printed(s)[i] as u32 >= 0x20 && printed(s)[i] as u32 != 0x7f)) by {
            if i < front.len() {
                assert(printed(s)[i] == front[i]);
            } else {
                assert(printed(s)[i] == last[i - front.len()]);
            }
        }
    }
}

/// What is printed first comes from the first character.
proof fn lemma_printed_first(s: Seq<char>)
    requires
        s.len() > 0,
    ensures
        printed(s) == printed_char(s[0]) + printed(s.skip(1)),
    decreases s.len(),
{
    let front = s.drop_last();
    if front.len() == 0 {
        assert(s.skip(1) =~= Seq::<char>::empty());
        assert(front =~= Seq::<char>::empty());
        assert(printed(s) =~= printed_char(s[0]) + printed(s.skip(1)));
    } else {
        lemma_printed_first(front);
        assert(front[0] == s[0]);
        assert(s.skip(1).drop_last() =~= front.skip(1));
        assert(s.skip(1).last() == s.last());
        assert(printed(s) =~= printed_char(s[0]) + printed(s.skip(1)));
    }
}

/// What starts with two printed characters starts with one of them only.
proof fn lemma_printed_char_prefix(c: char, x: Seq<char>, d: char, y: Seq<char>)
    requires
        printed_char(c) + x == printed_char(d) + y,
    ensures
        c == d,
{
    let a = printed_char(c);
    let b = printed_char(d);
    let s = a + x;
    let t = b + y;
    assert(s[0] == a[0]);
    assert(t[0] == b[0]);
    if a.len() > 1 && b.len() > 1 {
        assert(s[1] == a[1]);
        assert(t[1] == b[1]);
        if a.len() == 4 && b.len() == 4 {
            assert(s[2] == a[2]);
            assert(t[2] == b[2]);
            assert(s[3] == a[3]);
            assert(t[3] == b[3]);
            assert(c as u32 / 16 == d as u32 / 16);
            assert(c as u32 % 16 == d as u32 % 16);
            assert(c as u32 == d as u32);
        }
    }
}

/// No two paths are printed alike.
pub proof fn law_printed_injective(a: Seq<char>, b: Seq<char>)
    requires
        printed(a) == printed(b),
    ensures
        a == b,
    decreases a.len(),
{
    if a.len() == 0 {
        if b.len() > 0 {
            lemma_printed_first(b);
            assert(printed(b).len() > 0);
        }
        assert(a =~= b);
    } else {
        lemma_printed_first(a);
        if b.len() == 0 {
            assert(printed(a).len() > 0);
        } else {
            lemma_printed_first(b);
            lemma_printed_char_prefix(a[0], printed(a.skip(1)), b[0], printed(b.skip(1)));
            let n = printed_char(a[0]).len() as int;
            assert(printed(a).skip(n) =~= printed(a.skip(1)));
            assert(printed(b).skip(n) =~= printed(b.skip(1)));
            law_printed_injective(a.skip(1), b.skip(1));
            assert(a =~= seq![a[0]] + a.skip(1));
            assert(b =~= seq![b[0]] + b.skip(1));
        }
    }
}

} // verus!
