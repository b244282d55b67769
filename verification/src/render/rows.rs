//! The lines of a text, and in which lines a text falls apart that is made of
//! pieces.

use crate::render::lines::lines;
use vstd::prelude::*;

verus! {

/// Whether a line of a text starts at a position: `line`, between the start of
/// the text or of a line and the end of a line.
pub open spec fn line_at(text: Seq<char>, line: Seq<char>, i: int) -> bool {
    &&& 0 <= i
    &&& i + line.len() < text.len()
    &&& i == 0 || text[i - 1] == '\n'
    &&& text.subrange(i, i + line.len()) == line
    &&& text[i + line.len()] == '\n'
}

/// Whether `line` is a line of a text.
pub open spec fn has_line(text: Seq<char>, line: Seq<char>) -> bool {
    exists|i: int| #[trigger] line_at(text, line, i)
}

/// Whether a text is made of whole lines.
pub open spec fn whole(text: Seq<char>) -> bool {
    text.len() == 0 || text.last() == '\n'
}

/// Whether a text stands on one line.
pub open spec fn flat(s: Seq<char>) -> bool {
    !s.contains('\n')
}

pub(crate) proof fn lemma_line_front(a: Seq<char>, b: Seq<char>, line: Seq<char>)
    requires
        has_line(a, line),
    ensures
        has_line(a + b, line),
{
    let i = choose|i: int| #[trigger] line_at(a, line, i);
    assert((a + b).subrange(i, i + line.len()) =~= a.subrange(i, i + line.len()));
    assert(line_at(a + b, line, i));
}

pub(crate) proof fn lemma_line_back(a: Seq<char>, b: Seq<char>, line: Seq<char>)
    requires
        whole(a),
        has_line(b, line),
    ensures
        has_line(a + b, line),
{
    let i = choose|i: int| #[trigger] line_at(b, line, i);
    let k = a.len() + i;
    assert((a + b).subrange(k, k + line.len()) =~= b.subrange(i, i + line.len()));
    assert(line_at(a + b, line, k));
}

/// A line of two texts of whole lines is a line of one of them.
pub(crate) proof fn lemma_line_split(a: Seq<char>, b: Seq<char>, line: Seq<char>)
    requires
        whole(a),
        flat(line),
        has_line(a + b, line),
    ensures
        has_line(a, line) || has_line(b, line),
{
    let i = choose|i: int| #[trigger] line_at(a + b, line, i);
    let n = line.len();
    if i + n < a.len() {
        assert(a.subrange(i, i + n) =~= (a + b).subrange(i, i + n));
        assert(line_at(a, line, i));
    } else if i >= a.len() {
        let k = i - a.len();
        assert(b.subrange(k, k + n) =~= (a + b).subrange(i, i + n));
        assert(line_at(b, line, k));
    } else {
        let k = a.len() - 1 - i;
        assert((a + b).subrange(i, i + n)[k] == a.last());
        assert(line[k] == '\n');
    }
}

pub(crate) proof fn lemma_whole_concat(a: Seq<char>, b: Seq<char>)
    requires
        whole(a),
        whole(b),
    ensures
        whole(a + b),
{
    if b.len() > 0 {
        assert((a + b).last() == b.last());
    } else {
        assert(a + b =~= a);
    }
}

/// The lines of a text of one line.
pub(crate) proof fn lemma_one_row(text: Seq<char>, row: Seq<char>)
    requires
        text == row.push('\n'),
    ensures
        whole(text),
        has_line(text, row),
        flat(row) ==> forall|line: Seq<char>| has_line(text, line) ==> line == row,
{
    assert(text.subrange(0, row.len() as int) =~= row);
    assert(line_at(text, row, 0));
    if flat(row) {
        assert forall|line: Seq<char>| has_line(text, line) implies line == row by {
            let i = choose|i: int| #[trigger] line_at(text, line, i);
            if i > 0 {
                assert(row[i - 1] == text[i - 1]);
            }
            if line.len() < row.len() {
                assert(row[line.len() as int] == text[line.len() as int]);
            }
            assert(text.subrange(0, row.len() as int) == line);
        }
    }
}

pub(crate) proof fn lemma_flat_concat(a: Seq<char>, b: Seq<char>)
    ensures
        flat(a + b) <==> flat(a) && flat(b),
{
    let c = a + b;
    if c.contains('\n') {
        let i = choose|i: int| 0 <= i < c.len() && c[i] == '\n';
        if i < a.len() {
            assert(a[i] == '\n');
        } else {
            assert(b[i - a.len()] == '\n');
        }
    }
    if a.contains('\n') {
        let i = choose|i: int| 0 <= i < a.len() && a[i] == '\n';
        assert(c[i] == '\n');
    }
    if b.contains('\n') {
        let i = choose|i: int| 0 <= i < b.len() && b[i] == '\n';
        assert(c[a.len() + i] == '\n');
    }
}

/// A text without lines.
pub(crate) proof fn lemma_no_row(line: Seq<char>)
    ensures
        whole(Seq::empty()),
        !has_line(Seq::empty(), line),
{
}

/// Pieces of whole lines make a text of whole lines.
pub(crate) proof fn lemma_lines_whole<V>(s: Seq<V>, f: spec_fn(V) -> Seq<char>)
    requires
        forall|v: V| s.contains(v) ==> whole(#[trigger] f(v)),
    ensures
        whole(lines(s, f)),
    decreases s.len(),
{
    if s.len() > 0 {
        let front = s.drop_last();
        assert forall|v: V| front.contains(v) implies whole(#[trigger] f(v)) by {
            let i = choose|i: int| 0 <= i < front.len() && front[i] == v;
            assert(s[i] == v);
        }
        lemma_lines_whole(front, f);
        assert(s[s.len() - 1] == s.last());
        lemma_whole_concat(lines(front, f), f(s.last()));
    }
}

/// The line of a piece is a line of the whole.
pub(crate) proof fn lemma_lines_has<V>(
    s: Seq<V>,
    f: spec_fn(V) -> Seq<char>,
    v: V,
    line: Seq<char>,
)
    requires
        forall|w: V| s.contains(w) ==> whole(#[trigger] f(w)),
        s.contains(v),
        has_line(f(v), line),
    ensures
        has_line(lines(s, f), line),
    decreases s.len(),
{
    let front = s.drop_last();
    assert forall|w: V| front.contains(w) implies whole(#[trigger] f(w)) by {
        let i = choose|i: int| 0 <= i < front.len() && front[i] == w;
        assert(s[i] == w);
    }
    lemma_lines_whole(front, f);
    let k = choose|k: int| 0 <= k < s.len() && s[k] == v;
    if k < front.len() {
        assert(front[k] == v);
        lemma_lines_has(front, f, v, line);
        lemma_line_front(lines(front, f), f(s.last()), line);
    } else {
        lemma_line_back(lines(front, f), f(s.last()), line);
    }
}

/// A line of the whole is the line of a piece.
pub(crate) proof fn lemma_lines_only<V>(
    s: Seq<V>,
    f: spec_fn(V) -> Seq<char>,
    line: Seq<char>,
) -> (v: V)
    requires
        forall|w: V| s.contains(w) ==> whole(#[trigger] f(w)),
        flat(line),
        has_line(lines(s, f), line),
    ensures
        s.contains(v),
        has_line(f(v), line),
    decreases s.len(),
{
    if s.len() == 0 {
        lemma_no_row(line);
        arbitrary()
    } else {
        let front = s.drop_last();
        assert forall|w: V| front.contains(w) implies whole(#[trigger] f(w)) by {
            let i = choose|i: int| 0 <= i < front.len() && front[i] == w;
            assert(s[i] == w);
        }
        lemma_lines_whole(front, f);
        assert(s[s.len() - 1] == s.last());
        lemma_line_split(lines(front, f), f(s.last()), line);
        if has_line(f(s.last()), line) {
            s.last()
        } else {
            let v = lemma_lines_only(front, f, line);
            let i = choose|i: int| 0 <= i < front.len() && front[i] == v;
            assert(s[i] == v);
            v
        }
    }
}

} // verus!
