//! Mermaid rendering primitives shared by every view.

use crate::chars::{after_prefix, ends, find, find_first, occurs_at, strip_prefix};
use crate::text::{chars_of, string_of};
use vstd::prelude::*;
use vstd::string::*;

verus! {

// ── Trusted boundary ─────────────────────────────────────────────────────────

/// Whether a character is alphabetic or numeric in Unicode.
pub uninterp spec fn char_is_alphanumeric(c: char) -> bool;

/// `char::is_alphanumeric`: whether the character is alphabetic or numeric in
/// Unicode.
#[verifier::external_body]
pub(crate) fn is_alphanumeric(c: char) -> (r: bool)
    ensures
        r == char_is_alphanumeric(c),
{
    c.is_alphanumeric()
}

/// A string as `Debug` shows it: in quotes, with escapes.
pub uninterp spec fn quoted(s: Seq<char>) -> Seq<char>;

/// The `Debug` format of `str`: the string in quotes, with escapes.
#[verifier::external_body]
pub(crate) fn debug_quoted(s: &str) -> (r: String)
    ensures
        r@ == quoted(s@),
{
    format!("{s:?}")
}

// ── Identifiers ──────────────────────────────────────────────────────────────

/// The character that stands for `c` in a Mermaid node id, given whether `c`
/// is alphanumeric.
pub open spec fn id_char(c: char, alphanumeric: bool) -> char {
    if alphanumeric || c == '_' {
        c
    } else {
        '_'
    }
}

/// The Mermaid node id of a name.
pub open spec fn id_text(name: Seq<char>) -> Seq<char> {
    if name.len() == 0 {
        seq!['_']
    } else {
        Seq::new(name.len(), |i: int| id_char(name[i], char_is_alphanumeric(name[i])))
    }
}

/// The character that stands for `c` in a Mermaid node id, given whether `c`
/// is alphanumeric.
pub fn mermaid_id_char(c: char, alphanumeric: bool) -> (r: char)
    ensures
        r == id_char(c, alphanumeric),
{
    if alphanumeric || c == '_' {
        c
    } else {
        '_'
    }
}

/// The Mermaid node id of a name: every character that is neither alphanumeric
/// nor `_` becomes `_`, and an empty name becomes `_`.
pub fn mermaid_id(name: &str) -> (r: String)
    ensures
        r@ == id_text(name@),
{
    let s = chars_of(name);
    let mut out = String::new();
    if s.len() == 0 {
        out.push('_');
        assert(out@ =~= seq!['_']);
        return out;
    }
    let mut i: usize = 0;
    assert(out@ =~= id_text(name@).take(0));
    while i < s.len()
        invariant
            i <= s.len(),
            s@ == name@,
            name@.len() > 0,
            out@ == id_text(name@).take(i as int),
        decreases s.len() - i,
    {
        let c = s[i];
        out.push(mermaid_id_char(c, is_alphanumeric(c)));
        assert(out@ =~= id_text(name@).take(i + 1));
        i += 1;
    }
    assert(out@ =~= id_text(name@));
    out
}

/// A node id is never empty, holds only alphanumeric characters and `_`, and
/// is its own node id.
pub proof fn law_mermaid_id(name: Seq<char>)
    ensures
        id_text(name).len() > 0,
        name.len() > 0 ==> id_text(name).len() == name.len(),
        forall|i: int|
            0 <= i < id_text(name).len() ==> char_is_alphanumeric(#[trigger] id_text(name)[i])
                || id_text(name)[i] == '_',
        id_text(id_text(name)) == id_text(name),
{
    assert(id_text(id_text(name)) =~= id_text(name));
}

// ── Labels ───────────────────────────────────────────────────────────────────

/// A label with `"` replaced by `&quot;`.
pub open spec fn escaped(s: Seq<char>) -> Seq<char>
    decreases s.len(),
{
    if s.len() == 0 {
        Seq::empty()
    } else if s.last() == '"' {
        escaped(s.drop_last()) + "&quot;"@
    } else {
        escaped(s.drop_last()).push(s.last())
    }
}

/// Escapes a string for a Mermaid node label: `"` becomes `&quot;`.
pub fn escape_label(s: &str) -> (r: String)
    ensures
        r@ == escaped(s@),
{
    let cs = chars_of(s);
    let mut out = String::new();
    let mut i: usize = 0;
    assert(s@.take(0) =~= Seq::<char>::empty());
    assert(out@ =~= escaped(s@.take(0)));
    while i < cs.len()
        invariant
            i <= cs.len(),
            cs@ == s@,
            out@ == escaped(s@.take(i as int)),
        decreases cs.len() - i,
    {
        assert(s@.take(i + 1).drop_last() =~= s@.take(i as int));
        assert(s@.take(i + 1).last() == cs@[i as int]);
        if cs[i] == '"' {
            out.append("&quot;");
        } else {
            out.push(cs[i]);
        }
        i += 1;
    }
    assert(s@.take(cs.len() as int) =~= s@);
    out
}

/// An escaped label holds no quote, and a label without quotes stays as it is.
pub proof fn law_escape_label(s: Seq<char>)
    ensures
        !escaped(s).contains('"'),
        !s.contains('"') ==> escaped(s) == s,
    decreases s.len(),
{
    reveal_strlit("&quot;");
    if s.len() > 0 {
        let front = s.drop_last();
        law_escape_label(front);
        assert forall|i: int| 0 <= i < escaped(s).len() implies escaped(s)[i] != '"' by {
            if i < escaped(front).len() {
                assert(escaped(s)[i] == escaped(front)[i]);
                if escaped(s)[i] == '"' {
                    assert(escaped(front).contains('"'));
                }
            }
        }
        if !s.contains('"') {
            assert(s[s.len() - 1] == s.last());
            assert forall|c: char| front.contains(c) implies s.contains(c) by {
                let i = choose|i: int| 0 <= i < front.len() && front[i] == c;
                assert(s[i] == c);
            }
            assert(escaped(s) =~= s);
        }
    } else {
        assert(escaped(s) =~= s);
    }
}

/// A label with `&quot;` replaced by `"`.
pub open spec fn unescaped(s: Seq<char>) -> Seq<char>
    decreases s.len(),
{
    if s.len() == 0 {
        Seq::empty()
    } else if s.len() >= 6 && ends(s, "&quot;"@) {
        unescaped(s.take(s.len() - 6)).push('"')
    } else {
        unescaped(s.drop_last()).push(s.last())
    }
}

/// Behind characters other than `;` an escaped label ends as the label does.
proof fn lemma_escaped_end(s: Seq<char>, n: nat)
    requires
        n <= escaped(s).len(),
        forall|i: int| escaped(s).len() - n <= i < escaped(s).len() ==> escaped(s)[i] != ';',
    ensures
        n <= s.len(),
        s.skip(s.len() - n) == escaped(s).skip(escaped(s).len() - n),
    decreases n,
{
    reveal_strlit("&quot;");
    let e = escaped(s);
    if n > 0 {
        let front = s.drop_last();
        assert(e.last() != ';');
        if s.len() > 0 && s.last() == '"' {
            assert(e.last() == "&quot;"@[5]);
        }
        assert(e.drop_last() =~= escaped(front));
        lemma_escaped_end(front, (n - 1) as nat);
        let a = s.skip(s.len() - n);
        let b = e.skip(e.len() - n);
        assert forall|i: int| 0 <= i < n implies #[trigger] a[i] == b[i] by {
            if i < n - 1 {
                assert(front.skip(front.len() - (n - 1))[i] == escaped(front).skip(
                    escaped(front).len() - (n - 1),
                )[i]);
            }
        }
        assert(a =~= b);
    } else {
        assert(s.skip(s.len() as int) =~= e.skip(e.len() as int));
    }
}

/// An escaped label can be turned back, unless the label itself holds what a
/// quote is replaced by.
pub proof fn law_unescaped(s: Seq<char>)
    requires
        forall|i: int| !occurs_at(s, "&quot;"@, i),
    ensures
        unescaped(escaped(s)) == s,
    decreases s.len(),
{
    reveal_strlit("&quot;");
    let p = "&quot;"@;
    let e = escaped(s);
    if s.len() == 0 {
        assert(unescaped(e) =~= s);
    } else {
        let front = s.drop_last();
        assert forall|i: int| !occurs_at(front, p, i) by {
            if occurs_at(front, p, i) {
                assert(s.subrange(i, i + p.len()) =~= front.subrange(i, i + p.len()));
                assert(occurs_at(s, p, i));
            }
        }
        law_unescaped(front);
        if s.last() == '"' {
            assert(e.skip(e.len() - 6) =~= p);
            assert(e.take(e.len() - 6) =~= escaped(front));
            assert(unescaped(e) =~= s);
        } else {
            assert(e.drop_last() =~= escaped(front));
            assert(!(e.len() >= 6 && ends(e, p))) by {
                if e.len() >= 6 && ends(e, p) {
                    let f = escaped(front);
                    assert forall|i: int| f.len() - 5 <= i < f.len() implies f[i] != ';' by {
                        assert(e.skip(e.len() - 6)[i - (e.len() - 6)] == e[i]);
                        assert(f[i] == e[i]);
                    }
                    lemma_escaped_end(front, 5);
                    let k = s.len() - 6;
                    let w = s.subrange(k, k + 6);
                    assert forall|i: int| 0 <= i < 6 implies #[trigger] w[i] == p[i] by {
                        assert(e.skip(e.len() - 6)[i] == p[i]);
                        if i < 5 {
                            assert(front.skip(front.len() - 5)[i] == f.skip(f.len() - 5)[i]);
                        }
                    }
                    assert(w =~= p);
                    assert(occurs_at(s, p, k));
                }
            }
            assert(unescaped(e) =~= s);
        }
    }
}

// ── Crates ───────────────────────────────────────────────────────────────────

/// The part of a path before its first `/`.
pub open spec fn first_segment(s: Seq<char>) -> Seq<char> {
    match find_first(s, "/"@) {
        Some(i) => s.take(i),
        None => s,
    }
}

/// The crate that a file belongs to: the segment after `crates/`, or else the
/// first segment of its path.
pub open spec fn crate_of(path: Seq<char>) -> Seq<char> {
    match after_prefix(path, "crates/"@) {
        Some(rest) => first_segment(rest),
        None => first_segment(path),
    }
}

fn leading_segment(s: &str) -> (r: String)
    ensures
        r@ == first_segment(s@),
{
    let cs = chars_of(s);
    let slash = chars_of("/");
    match find(cs.as_slice(), slash.as_slice()) {
        Some(i) => {
            assert(s@.subrange(0, i as int) =~= s@.take(i as int));
            string_of(cs.as_slice(), 0, i)
        },
        None => s.to_owned(),
    }
}

/// The crate that a file belongs to.
pub fn crate_name(file_path: &str) -> (r: String)
    ensures
        r@ == crate_of(file_path@),
{
    match strip_prefix(file_path, "crates/") {
        Some(rest) => leading_segment(rest.as_str()),
        None => leading_segment(file_path),
    }
}

} // verus!
