//! Text operations over character sequences: prefixes, searches, trimming,
//! splitting, and decimal numbers.

use crate::text::{chars_of, string_of};
use vstd::prelude::*;
use vstd::string::*;

verus! {

// ── Prefixes and occurrences ─────────────────────────────────────────────────

/// Whether `p` occurs in `s` at position `i`.
pub open spec fn occurs_at(s: Seq<char>, p: Seq<char>, i: int) -> bool {
    0 <= i && i + p.len() <= s.len() && s.subrange(i, i + p.len()) == p
}

/// Whether `s` starts with `p`.
pub open spec fn starts(s: Seq<char>, p: Seq<char>) -> bool {
    occurs_at(s, p, 0)
}

/// Whether `s` ends with `p`.
pub open spec fn ends(s: Seq<char>, p: Seq<char>) -> bool {
    occurs_at(s, p, s.len() - p.len())
}

/// The first occurrence of `p` in `s` at or after `i`.
pub open spec fn find_from(s: Seq<char>, p: Seq<char>, i: int) -> Option<int>
    decreases s.len() + 1 - i,
{
    if i < 0 || i > s.len() {
        None
    } else if occurs_at(s, p, i) {
        Some(i)
    } else {
        find_from(s, p, i + 1)
    }
}

/// The first occurrence of `p` in `s`.
pub open spec fn find_first(s: Seq<char>, p: Seq<char>) -> Option<int> {
    find_from(s, p, 0)
}

/// The last occurrence of `p` in `s` at or before `i`.
pub open spec fn find_back(s: Seq<char>, p: Seq<char>, i: int) -> Option<int>
    decreases i + 1,
{
    if i < 0 {
        None
    } else if occurs_at(s, p, i) {
        Some(i)
    } else {
        find_back(s, p, i - 1)
    }
}

/// The last occurrence of `p` in `s`.
pub open spec fn find_last(s: Seq<char>, p: Seq<char>) -> Option<int> {
    find_back(s, p, s.len() - p.len())
}

/// Whether `p` occurs in `s`.
pub open spec fn occurs(s: Seq<char>, p: Seq<char>) -> bool {
    find_first(s, p) is Some
}

/// What follows the last occurrence of `p` in `s`; `s` where there is none.
pub open spec fn after_last(s: Seq<char>, p: Seq<char>) -> Seq<char> {
    match find_last(s, p) {
        Some(i) => s.skip(i + p.len()),
        None => s,
    }
}

/// What precedes and what follows the first occurrence of `p` in `s`.
pub open spec fn split_first(s: Seq<char>, p: Seq<char>) -> Option<(Seq<char>, Seq<char>)> {
    match find_first(s, p) {
        Some(i) => Some((s.take(i), s.skip(i + p.len()))),
        None => None,
    }
}

/// What precedes and what follows the last occurrence of `p` in `s`.
pub open spec fn split_last(s: Seq<char>, p: Seq<char>) -> Option<(Seq<char>, Seq<char>)> {
    match find_last(s, p) {
        Some(i) => Some((s.take(i), s.skip(i + p.len()))),
        None => None,
    }
}

/// What follows the prefix `p` of `s`.
pub open spec fn after_prefix(s: Seq<char>, p: Seq<char>) -> Option<Seq<char>> {
    if starts(s, p) {
        Some(s.skip(p.len() as int))
    } else {
        None
    }
}

/// What precedes the suffix `p` of `s`.
pub open spec fn before_suffix(s: Seq<char>, p: Seq<char>) -> Option<Seq<char>> {
    if ends(s, p) {
        Some(s.take(s.len() - p.len()))
    } else {
        None
    }
}

/// An occurrence is found where there is one, and what is found is one.
pub proof fn lemma_find_from(s: Seq<char>, p: Seq<char>, i: int)
    requires
        0 <= i,
    ensures
        match find_from(s, p, i) {
            Some(k) => i <= k && occurs_at(s, p, k) && forall|j: int|
                i <= j < k ==> !#[trigger] occurs_at(s, p, j),
            None => forall|j: int| i <= j ==> !#[trigger] occurs_at(s, p, j),
        },
    decreases s.len() + 1 - i,
{
    if i <= s.len() && !occurs_at(s, p, i) {
        lemma_find_from(s, p, i + 1);
    }
}

/// What a text is split into makes up the text.
pub proof fn lemma_split_first(s: Seq<char>, p: Seq<char>)
    requires
        p.len() > 0,
    ensures
        split_first(s, p) matches Some((a, b)) ==> s == a + p + b && b.len() < s.len(),
{
    lemma_find_from(s, p, 0);
    if let Some((a, b)) = split_first(s, p) {
        let i = find_first(s, p)->0;
        assert(s =~= a + p + b);
    }
}

proof fn lemma_occurs_one(s: Seq<char>, p: Seq<char>, i: int)
    requires
        p.len() == 1,
    ensures
        occurs_at(s, p, i) <==> 0 <= i < s.len() && s[i] == p[0],
{
    if 0 <= i < s.len() {
        assert(s.subrange(i, i + 1)[0] == s[i]);
        if s[i] == p[0] {
            assert(s.subrange(i, i + 1) =~= p);
        }
    }
}

proof fn lemma_find_from_at(s: Seq<char>, p: Seq<char>, i: int, n: int)
    requires
        p.len() == 1,
        0 <= i <= n <= s.len(),
        n < s.len() ==> s[n] == p[0],
        forall|j: int| i <= j < n ==> #[trigger] s[j] != p[0],
    ensures
        find_from(s, p, i) == if n < s.len() {
            Some(n)
        } else {
            None
        },
    decreases n - i,
{
    lemma_occurs_one(s, p, i);
    if i < n {
        assert(s[i] != p[0]);
        lemma_find_from_at(s, p, i + 1, n);
    } else if n == s.len() {
        assert(find_from(s, p, n + 1) is None);
    }
}

/// A text that a separator of one character joins is split at the first
/// occurrence of the separator, and at none where there is none.
pub proof fn law_split_first(a: Seq<char>, p: Seq<char>, b: Seq<char>)
    requires
        p.len() == 1,
        !a.contains(p[0]),
    ensures
        split_first(a + p + b, p) == Some((a, b)),
        split_first(a, p) is None,
{
    let s = a + p + b;
    let n = a.len() as int;
    lemma_find_from_at(s, p, 0, n);
    lemma_find_from_at(a, p, 0, n);
    assert(s.take(n) =~= a);
    assert(s.skip(n + 1) =~= b);
}

proof fn lemma_find_back_at(s: Seq<char>, p: Seq<char>, i: int, n: int)
    requires
        0 <= n <= i,
        occurs_at(s, p, n),
        forall|j: int| n < j <= i ==> !#[trigger] occurs_at(s, p, j),
    ensures
        find_back(s, p, i) == Some(n),
    decreases i,
{
    if n < i {
        assert(!occurs_at(s, p, i));
        lemma_find_back_at(s, p, i - 1, n);
    }
}

/// A text that a separator of one character joins is split from behind at its
/// last occurrence.
pub proof fn law_split_last(a: Seq<char>, p: Seq<char>, b: Seq<char>)
    requires
        p.len() == 1,
        !b.contains(p[0]),
    ensures
        split_last(a + p + b, p) == Some((a, b)),
{
    let s = a + p + b;
    let n = a.len() as int;
    assert(s.subrange(n, n + 1) =~= p);
    assert forall|j: int| n < j <= s.len() - 1 implies !#[trigger] occurs_at(s, p, j) by {
        if occurs_at(s, p, j) {
            assert(s.subrange(j, j + 1)[0] == b[j - n - 1]);
        }
    }
    lemma_find_back_at(s, p, s.len() - 1, n);
    assert(s.take(n) =~= a);
    assert(s.skip(n + 1) =~= b);
}

/// Whether `p` occurs in `s` at position `i`.
pub fn matches_at(s: &[char], p: &[char], i: usize) -> (r: bool)
    ensures
        r == occurs_at(s@, p@, i as int),
{
    if i > s.len() || p.len() > s.len() - i {
        return false;
    }
    let mut k: usize = 0;
    while k < p.len()
        invariant
            i + p.len() <= s.len(),
            k <= p.len(),
            forall|j: int| 0 <= j < k ==> s@[i + j] == p@[j],
        decreases p.len() - k,
    {
        if s[i + k] != p[k] {
            assert(s@.subrange(i as int, i + p@.len())[k as int] != p@[k as int]);
            return false;
        }
        k += 1;
    }
    assert(s@.subrange(i as int, i + p@.len()) =~= p@);
    true
}

/// The first occurrence of `p` in `s`.
pub fn find(s: &[char], p: &[char]) -> (r: Option<usize>)
    ensures
        match r {
            Some(i) => find_first(s@, p@) == Some(i as int) && i + p.len() <= s.len(),
            None => find_first(s@, p@) is None,
        },
{
    let mut i: usize = 0;
    loop
        invariant
            i <= s.len(),
            find_first(s@, p@) == find_from(s@, p@, i as int),
        decreases s.len() - i,
    {
        if matches_at(s, p, i) {
            return Some(i);
        }
        if i == s.len() {
            assert(find_from(s@, p@, i + 1) is None);
            return None;
        }
        i += 1;
    }
}

/// The last occurrence of `p` in `s`.
pub fn rfind(s: &[char], p: &[char]) -> (r: Option<usize>)
    ensures
        match r {
            Some(i) => find_last(s@, p@) == Some(i as int) && i + p.len() <= s.len(),
            None => find_last(s@, p@) is None,
        },
{
    if p.len() > s.len() {
        return None;
    }
    let mut i: usize = s.len() - p.len();
    loop
        invariant
            i + p.len() <= s.len(),
            find_last(s@, p@) == find_back(s@, p@, i as int),
        decreases i,
    {
        if matches_at(s, p, i) {
            return Some(i);
        }
        if i == 0 {
            assert(find_back(s@, p@, -1) is None);
            return None;
        }
        i -= 1;
    }
}

/// Whether `p` occurs in `s`.
pub fn contains(s: &str, p: &str) -> (r: bool)
    ensures
        r == occurs(s@, p@),
{
    let sc = chars_of(s);
    let pc = chars_of(p);
    match find(sc.as_slice(), pc.as_slice()) {
        Some(_) => true,
        None => false,
    }
}

/// Whether `s` starts with `p`.
pub fn starts_with(s: &str, p: &str) -> (r: bool)
    ensures
        r == starts(s@, p@),
{
    let sc = chars_of(s);
    let pc = chars_of(p);
    matches_at(sc.as_slice(), pc.as_slice(), 0)
}

/// Whether `s` ends with `p`.
pub fn ends_with(s: &str, p: &str) -> (r: bool)
    ensures
        r == ends(s@, p@),
{
    let sc = chars_of(s);
    let pc = chars_of(p);
    if pc.len() > sc.len() {
        return false;
    }
    matches_at(sc.as_slice(), pc.as_slice(), sc.len() - pc.len())
}

/// What follows the prefix `p` of `s`.
pub fn strip_prefix(s: &str, p: &str) -> (r: Option<String>)
    ensures
        r.deep_view() == after_prefix(s@, p@),
{
    let sc = chars_of(s);
    let pc = chars_of(p);
    if matches_at(sc.as_slice(), pc.as_slice(), 0) {
        let rest = string_of(sc.as_slice(), pc.len(), sc.len());
        assert(rest@ =~= s@.skip(p@.len() as int));
        Some(rest)
    } else {
        None
    }
}

/// What precedes the suffix `p` of `s`.
pub fn strip_suffix(s: &str, p: &str) -> (r: Option<String>)
    ensures
        r.deep_view() == before_suffix(s@, p@),
{
    let sc = chars_of(s);
    let pc = chars_of(p);
    if pc.len() <= sc.len() && matches_at(sc.as_slice(), pc.as_slice(), sc.len() - pc.len()) {
        let rest = string_of(sc.as_slice(), 0, sc.len() - pc.len());
        assert(rest@ =~= s@.take(s@.len() - p@.len()));
        Some(rest)
    } else {
        None
    }
}

/// A pair of strings as a pair of sequences.
pub open spec fn pair_view(p: Option<(String, String)>) -> Option<(Seq<char>, Seq<char>)> {
    match p {
        Some((a, b)) => Some((a@, b@)),
        None => None,
    }
}

/// What precedes and what follows the first occurrence of `p` in `s`.
pub fn split_once(s: &str, p: &str) -> (r: Option<(String, String)>)
    ensures
        pair_view(r) == split_first(s@, p@),
{
    let sc = chars_of(s);
    let pc = chars_of(p);
    match find(sc.as_slice(), pc.as_slice()) {
        Some(i) => {
            let a = string_of(sc.as_slice(), 0, i);
            let b = string_of(sc.as_slice(), i + pc.len(), sc.len());
            assert(a@ =~= s@.take(i as int));
            assert(b@ =~= s@.skip(i + p@.len()));
            Some((a, b))
        },
        None => None,
    }
}

/// What precedes and what follows the last occurrence of `p` in `s`.
pub fn rsplit_once(s: &str, p: &str) -> (r: Option<(String, String)>)
    ensures
        pair_view(r) == split_last(s@, p@),
{
    let sc = chars_of(s);
    let pc = chars_of(p);
    match rfind(sc.as_slice(), pc.as_slice()) {
        Some(i) => {
            let a = string_of(sc.as_slice(), 0, i);
            let b = string_of(sc.as_slice(), i + pc.len(), sc.len());
            assert(a@ =~= s@.take(i as int));
            assert(b@ =~= s@.skip(i + p@.len()));
            Some((a, b))
        },
        None => None,
    }
}

/// What follows the last occurrence of `p` in `s`; `s` where there is none.
pub fn last_part(s: &str, p: &str) -> (r: String)
    ensures
        r@ == after_last(s@, p@),
{
    match rsplit_once(s, p) {
        Some((_, tail)) => tail,
        None => s.to_owned(),
    }
}

// ── Trimming ─────────────────────────────────────────────────────────────────

/// Whether `c` has the Unicode property `White_Space`.
pub open spec fn is_space(c: char) -> bool {
    let v = c as u32;
    0x09 <= v <= 0x0d || v == 0x20 || v == 0x85 || v == 0xa0 || v == 0x1680 || 0x2000 <= v <= 0x200a
        || v == 0x2028 || v == 0x2029 || v == 0x202f || v == 0x205f || v == 0x3000
}

/// Whether `c` has the Unicode property `White_Space`.
pub fn is_whitespace(c: char) -> (r: bool)
    ensures
        r == is_space(c),
{
    let v: u32 = c as u32;
    (0x09 <= v && v <= 0x0d) || v == 0x20 || v == 0x85 || v == 0xa0 || v == 0x1680 || (0x2000 <= v
        && v <= 0x200a) || v == 0x2028 || v == 0x2029 || v == 0x202f || v == 0x205f || v == 0x3000
}

/// `s` without its leading white space.
pub open spec fn trimmed_start(s: Seq<char>) -> Seq<char>
    decreases s.len(),
{
    if s.len() > 0 && is_space(s[0]) {
        trimmed_start(s.drop_first())
    } else {
        s
    }
}

/// `s` without its trailing white space.
pub open spec fn trimmed_end(s: Seq<char>) -> Seq<char>
    decreases s.len(),
{
    if s.len() > 0 && is_space(s.last()) {
        trimmed_end(s.drop_last())
    } else {
        s
    }
}

/// `s` without its leading and trailing white space.
pub open spec fn trimmed(s: Seq<char>) -> Seq<char> {
    trimmed_end(trimmed_start(s))
}

/// What remains of a trimmed text was in it.
pub proof fn lemma_trimmed_part(s: Seq<char>)
    ensures
        forall|i: int|
            0 <= i < trimmed(s).len() ==> s.contains(#[trigger] trimmed(s)[i]),
{
    lemma_trimmed_start_part(s);
    let t = trimmed_start(s);
    lemma_trimmed_end_part(t);
    assert forall|i: int| 0 <= i < trimmed(s).len() implies s.contains(
        #[trigger] trimmed(s)[i],
    ) by {
        assert(t.contains(trimmed_end(t)[i]));
        let k = choose|k: int| 0 <= k < t.len() && t[k] == trimmed_end(t)[i];
        assert(s.contains(t[k]));
    }
}

proof fn lemma_trimmed_start_part(s: Seq<char>)
    ensures
        forall|i: int|
            0 <= i < trimmed_start(s).len() ==> s.contains(#[trigger] trimmed_start(s)[i]),
    decreases s.len(),
{
    let t = trimmed_start(s);
    if s.len() > 0 && is_space(s[0]) {
        let rest = s.skip(1);
        lemma_trimmed_start_part(rest);
        assert forall|i: int| 0 <= i < t.len() implies s.contains(#[trigger] t[i]) by {
            assert(rest.contains(trimmed_start(rest)[i]));
            let k = choose|k: int| 0 <= k < rest.len() && rest[k] == trimmed_start(rest)[i];
            assert(s[k + 1] == t[i]);
        }
    } else {
        assert forall|i: int| 0 <= i < t.len() implies s.contains(#[trigger] t[i]) by {
            assert(s[i] == t[i]);
        }
    }
}

proof fn lemma_trimmed_end_part(s: Seq<char>)
    ensures
        forall|i: int| 0 <= i < trimmed_end(s).len() ==> s.contains(#[trigger] trimmed_end(s)[i]),
    decreases s.len(),
{
    let t = trimmed_end(s);
    if s.len() > 0 && is_space(s.last()) {
        let rest = s.drop_last();
        lemma_trimmed_end_part(rest);
        assert forall|i: int| 0 <= i < t.len() implies s.contains(#[trigger] t[i]) by {
            assert(rest.contains(trimmed_end(rest)[i]));
            let k = choose|k: int| 0 <= k < rest.len() && rest[k] == trimmed_end(rest)[i];
            assert(s[k] == t[i]);
        }
    } else {
        assert forall|i: int| 0 <= i < t.len() implies s.contains(#[trigger] t[i]) by {
            assert(s[i] == t[i]);
        }
    }
}

proof fn lemma_trimmed_ends(s: Seq<char>)
    ensures
        trimmed_start(s).len() > 0 ==> !is_space(trimmed_start(s)[0]),
        trimmed_end(s).len() <= s.len(),
        trimmed_end(s).len() > 0 ==> !is_space(trimmed_end(s).last()) && trimmed_end(s)[0] == s[0],
    decreases s.len(),
{
    if s.len() > 0 {
        lemma_trimmed_ends(s.drop_first());
        lemma_trimmed_ends(s.drop_last());
    }
}

/// Trimming a trimmed text changes nothing.
pub proof fn lemma_trimmed_twice(s: Seq<char>)
    ensures
        trimmed(trimmed(s)) == trimmed(s),
{
    lemma_trimmed_ends(s);
    lemma_trimmed_ends(trimmed_start(s));
}

/// `s` without the characters `c` at its start.
pub open spec fn without_leading(s: Seq<char>, c: char) -> Seq<char>
    decreases s.len(),
{
    if s.len() > 0 && s[0] == c {
        without_leading(s.drop_first(), c)
    } else {
        s
    }
}

/// `s` without the characters `c` at its end.
pub open spec fn without_trailing(s: Seq<char>, c: char) -> Seq<char>
    decreases s.len(),
{
    if s.len() > 0 && s.last() == c {
        without_trailing(s.drop_last(), c)
    } else {
        s
    }
}

/// Whether `c` is a quote character.
pub open spec fn is_quote(c: char) -> bool {
    c == '"' || c == '\''
}

/// `s` without the quote characters at its start.
pub open spec fn unquoted_start(s: Seq<char>) -> Seq<char>
    decreases s.len(),
{
    if s.len() > 0 && is_quote(s[0]) {
        unquoted_start(s.drop_first())
    } else {
        s
    }
}

/// `s` without the quote characters at its end.
pub open spec fn unquoted_end(s: Seq<char>) -> Seq<char>
    decreases s.len(),
{
    if s.len() > 0 && is_quote(s.last()) {
        unquoted_end(s.drop_last())
    } else {
        s
    }
}

/// `s` without the quote characters around it.
pub open spec fn unquoted(s: Seq<char>) -> Seq<char> {
    unquoted_end(unquoted_start(s))
}

/// `s` without the repetitions of `p` at its start.
pub open spec fn without_prefixes(s: Seq<char>, p: Seq<char>) -> Seq<char>
    decreases s.len(),
{
    if p.len() > 0 && starts(s, p) {
        without_prefixes(s.skip(p.len() as int), p)
    } else {
        s
    }
}

/// `s` without its leading and trailing white space.
pub fn trim(s: &str) -> (r: String)
    ensures
        r@ == trimmed(s@),
{
    let sc = chars_of(s);
    let mut a: usize = 0;
    assert(s@.skip(0) =~= s@);
    while a < sc.len() && is_whitespace(sc[a])
        invariant
            a <= sc.len(),
            sc@ == s@,
            trimmed_start(s@) == trimmed_start(s@.skip(a as int)),
        decreases sc.len() - a,
    {
        assert(s@.skip(a as int).drop_first() =~= s@.skip(a + 1));
        a += 1;
    }
    let ghost t = s@.skip(a as int);
    assert(trimmed_start(s@) == t);
    let mut b: usize = sc.len();
    assert(s@.subrange(a as int, b as int) =~= t);
    while b > a && is_whitespace(sc[b - 1])
        invariant
            a <= b <= sc.len(),
            sc@ == s@,
            trimmed_end(t) == trimmed_end(s@.subrange(a as int, b as int)),
        decreases b,
    {
        assert(s@.subrange(a as int, b as int).drop_last() =~= s@.subrange(a as int, b - 1));
        b -= 1;
    }
    string_of(sc.as_slice(), a, b)
}

/// `s` without its leading white space.
pub fn trim_start(s: &str) -> (r: String)
    ensures
        r@ == trimmed_start(s@),
{
    let sc = chars_of(s);
    let mut a: usize = 0;
    assert(s@.skip(0) =~= s@);
    while a < sc.len() && is_whitespace(sc[a])
        invariant
            a <= sc.len(),
            sc@ == s@,
            trimmed_start(s@) == trimmed_start(s@.skip(a as int)),
        decreases sc.len() - a,
    {
        assert(s@.skip(a as int).drop_first() =~= s@.skip(a + 1));
        a += 1;
    }
    assert(s@.subrange(a as int, s@.len() as int) =~= s@.skip(a as int));
    string_of(sc.as_slice(), a, sc.len())
}

/// `s` without the characters `c` at its end.
pub fn trim_end_char(s: &str, c: char) -> (r: String)
    ensures
        r@ == without_trailing(s@, c),
{
    let sc = chars_of(s);
    let mut b: usize = sc.len();
    assert(s@.take(b as int) =~= s@);
    while b > 0 && sc[b - 1] == c
        invariant
            b <= sc.len(),
            sc@ == s@,
            without_trailing(s@, c) == without_trailing(s@.take(b as int), c),
        decreases b,
    {
        assert(s@.take(b as int).drop_last() =~= s@.take(b - 1));
        b -= 1;
    }
    assert(s@.subrange(0, b as int) =~= s@.take(b as int));
    string_of(sc.as_slice(), 0, b)
}

/// `s` without the characters `c` at its start.
pub fn trim_start_char(s: &str, c: char) -> (r: String)
    ensures
        r@ == without_leading(s@, c),
{
    let sc = chars_of(s);
    let mut a: usize = 0;
    assert(s@.skip(0) =~= s@);
    while a < sc.len() && sc[a] == c
        invariant
            a <= sc.len(),
            sc@ == s@,
            without_leading(s@, c) == without_leading(s@.skip(a as int), c),
        decreases sc.len() - a,
    {
        assert(s@.skip(a as int).drop_first() =~= s@.skip(a + 1));
        a += 1;
    }
    assert(s@.subrange(a as int, s@.len() as int) =~= s@.skip(a as int));
    string_of(sc.as_slice(), a, sc.len())
}

/// `s` without the quote characters around it.
pub fn trim_quotes(s: &str) -> (r: String)
    ensures
        r@ == unquoted(s@),
{
    let sc = chars_of(s);
    let mut a: usize = 0;
    assert(s@.skip(0) =~= s@);
    while a < sc.len() && (sc[a] == '"' || sc[a] == '\'')
        invariant
            a <= sc.len(),
            sc@ == s@,
            unquoted_start(s@) == unquoted_start(s@.skip(a as int)),
        decreases sc.len() - a,
    {
        assert(s@.skip(a as int).drop_first() =~= s@.skip(a + 1));
        a += 1;
    }
    let ghost t = s@.skip(a as int);
    assert(unquoted_start(s@) == t);
    let mut b: usize = sc.len();
    assert(s@.subrange(a as int, b as int) =~= t);
    while b > a && (sc[b - 1] == '"' || sc[b - 1] == '\'')
        invariant
            a <= b <= sc.len(),
            sc@ == s@,
            unquoted_end(t) == unquoted_end(s@.subrange(a as int, b as int)),
        decreases b,
    {
        assert(s@.subrange(a as int, b as int).drop_last() =~= s@.subrange(a as int, b - 1));
        b -= 1;
    }
    string_of(sc.as_slice(), a, b)
}

/// `s` without the repetitions of `p` at its start.
pub fn trim_start_text(s: &str, p: &str) -> (r: String)
    ensures
        r@ == without_prefixes(s@, p@),
{
    let sc = chars_of(s);
    let pc = chars_of(p);
    let mut a: usize = 0;
    assert(s@.skip(0) =~= s@);
    if pc.len() == 0 {
        return s.to_owned();
    }
    while matches_at(sc.as_slice(), pc.as_slice(), a)
        invariant
            a <= sc.len(),
            sc@ == s@,
            pc@ == p@,
            p@.len() > 0,
            without_prefixes(s@, p@) == without_prefixes(s@.skip(a as int), p@),
        decreases sc.len() - a,
    {
        proof {
            let t = s@.skip(a as int);
            assert(t.subrange(0, p@.len() as int) =~= s@.subrange(a as int, a + p@.len()));
            assert(t.skip(p@.len() as int) =~= s@.skip(a + p@.len()));
        }
        a += pc.len();
    }
    proof {
        let t = s@.skip(a as int);
        if starts(t, p@) {
            assert(s@.subrange(a as int, a + p@.len()) =~= t.subrange(0, p@.len() as int));
        }
        assert(s@.subrange(a as int, s@.len() as int) =~= t);
    }
    string_of(sc.as_slice(), a, sc.len())
}

// ── Decimal numbers ──────────────────────────────────────────────────────────

/// The decimal digit of `d`.
pub open spec fn digit(d: nat) -> char {
    (('0' as u32) + d) as char
}

/// The decimal notation of `n`.
pub open spec fn dec(n: nat) -> Seq<char>
    decreases n,
{
    if n < 10 {
        seq![digit(n)]
    } else {
        dec(n / 10).push(digit(n % 10))
    }
}

/// The decimal digit of `d`.
fn digit_char(d: u64) -> (r: char)
    requires
        d < 10,
    ensures
        r == digit(d as nat),
{
    (48u8 + (d as u8)) as char
}

/// Appends the decimal notation of `n`.
pub fn push_decimal(out: &mut String, n: u64)
    ensures
        final(out)@ == old(out)@ + dec(n as nat),
    decreases n,
{
    let ghost had = out@;
    if n >= 10 {
        push_decimal(out, n / 10);
    }
    out.push(digit_char(n % 10));
    assert(out@ =~= had + dec(n as nat));
}

/// The decimal notation of `n`.
pub fn decimal(n: u64) -> (r: String)
    ensures
        r@ == dec(n as nat),
{
    let mut out = String::new();
    push_decimal(&mut out, n);
    assert(out@ =~= dec(n as nat));
    out
}

/// Why a text is no number.
#[derive(Debug, Clone, Copy, PartialEq, Eq, Structural)]
pub enum NumberError {
    /// The text is empty.
    Empty,
    /// A character is not a decimal digit.
    InvalidDigit,
    /// The number is too large.
    PosOverflow,
}

impl NumberError {
    /// What the error says.
    pub open spec fn text(self) -> Seq<char> {
        match self {
            NumberError::Empty => "cannot parse integer from empty string"@,
            NumberError::InvalidDigit => "invalid digit found in string"@,
            NumberError::PosOverflow => "number too large to fit in target type"@,
        }
    }

    /// What the error says.
    pub fn message(&self) -> (r: &'static str)
        ensures
            r@ == self.text(),
    {
        match self {
            NumberError::Empty => "cannot parse integer from empty string",
            NumberError::InvalidDigit => "invalid digit found in string",
            NumberError::PosOverflow => "number too large to fit in target type",
        }
    }
}

/// Whether `c` is a decimal digit.
pub open spec fn is_digit(c: char) -> bool {
    '0' <= c <= '9'
}

/// The number that a run of digits denotes, read from the left up to the first
/// character that is no digit or takes it above `max`.
pub open spec fn digits_value(s: Seq<char>, max: nat) -> Result<nat, NumberError>
    decreases s.len(),
{
    if s.len() == 0 {
        Ok(0)
    } else {
        match digits_value(s.drop_last(), max) {
            Err(e) => Err(e),
            Ok(v) => if !is_digit(s.last()) {
                Err(NumberError::InvalidDigit)
            } else if v * 10 + (s.last() as u32 - '0' as u32) > max {
                Err(NumberError::PosOverflow)
            } else {
                Ok((v * 10 + (s.last() as u32 - '0' as u32)) as nat)
            },
        }
    }
}

/// The number that a text denotes: an optional plus sign and digits.
pub open spec fn number(s: Seq<char>, max: nat) -> Result<nat, NumberError> {
    if s.len() == 0 {
        Err(NumberError::Empty)
    } else if s[0] == '+' {
        if s.len() == 1 {
            Err(NumberError::InvalidDigit)
        } else {
            digits_value(s.drop_first(), max)
        }
    } else {
        digits_value(s, max)
    }
}

/// An error stays the first one whatever follows.
proof fn lemma_digits_error(s: Seq<char>, max: nat, k: int)
    requires
        0 <= k <= s.len(),
        digits_value(s.take(k), max) is Err,
    ensures
        digits_value(s, max) == digits_value(s.take(k), max),
    decreases s.len() - k,
{
    if k < s.len() {
        assert(s.take(k + 1).drop_last() =~= s.take(k));
        lemma_digits_error(s, max, k + 1);
    } else {
        assert(s.take(k) =~= s);
    }
}

/// The number that a text denotes: an optional plus sign and digits.
pub fn parse_number(s: &str, max: u64) -> (r: Result<u64, NumberError>)
    ensures
        match r {
            Ok(n) => number(s@, max as nat) == Ok::<nat, NumberError>(n as nat) && n <= max,
            Err(e) => number(s@, max as nat) == Err::<nat, NumberError>(e),
        },
{
    let sc = chars_of(s);
    if sc.len() == 0 {
        return Err(NumberError::Empty);
    }
    let from: usize = if sc[0] == '+' {
        1
    } else {
        0
    };
    if from == sc.len() {
        return Err(NumberError::InvalidDigit);
    }
    let ghost d = s@.skip(from as int);
    proof {
        assert(from == 1 ==> d =~= s@.drop_first());
        assert(from == 0 ==> d =~= s@);
        assert(d.take(0) =~= Seq::<char>::empty());
    }
    let mut value: u64 = 0;
    let mut i: usize = from;
    while i < sc.len()
        invariant
            from <= i <= sc.len(),
            sc@ == s@,
            d == s@.skip(from as int),
            number(s@, max as nat) == digits_value(d, max as nat),
            digits_value(d.take(i - from), max as nat) == Ok::<nat, NumberError>(value as nat),
            value <= max,
        decreases sc.len() - i,
    {
        let c = sc[i];
        proof {
            assert(d.take(i + 1 - from).drop_last() =~= d.take(i - from));
            assert(d.take(i + 1 - from).last() == c);
        }
        if c < '0' || c > '9' {
            proof {
                lemma_digits_error(d, max as nat, i + 1 - from);
            }
            return Err(NumberError::InvalidDigit);
        }
        let x: u64 = (c as u32 - 48) as u64;
        if value > max / 10 || x > max || value * 10 > max - x {
            proof {
                assert(value * 10 + x > max);
                lemma_digits_error(d, max as nat, i + 1 - from);
            }
            return Err(NumberError::PosOverflow);
        }
        value = value * 10 + x;
        i += 1;
    }
    assert(d.take(sc.len() - from) =~= d);
    Ok(value)
}

/// Reading the decimal notation of a number gives the number back.
pub proof fn law_number_of_dec(n: nat, max: nat)
    requires
        n <= max,
    ensures
        number(dec(n), max) == Ok::<nat, NumberError>(n),
{
    lemma_digits_of_dec(n, max);
}

proof fn lemma_digits_of_dec(n: nat, max: nat)
    requires
        n <= max,
    ensures
        digits_value(dec(n), max) == Ok::<nat, NumberError>(n),
        dec(n).len() > 0,
        is_digit(dec(n)[0]),
    decreases n,
{
    if n < 10 {
        assert(dec(n).drop_last() =~= Seq::<char>::empty());
        assert(digits_value(Seq::<char>::empty(), max) == Ok::<nat, NumberError>(0));
        assert(dec(n).last() == digit(n));
    } else {
        lemma_digits_of_dec(n / 10, max);
        assert(dec(n).drop_last() =~= dec(n / 10));
        assert(dec(n).last() == digit(n % 10));
        assert(dec(n)[0] == dec(n / 10)[0]);
    }
}

} // verus!
