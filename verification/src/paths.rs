//! File paths as texts with `/` between their components.

use crate::chars::{ends, ends_with, rsplit_once, split_last};
use crate::text::{chars_of, str_eq, string_of};
use vstd::prelude::*;
use vstd::string::*;

verus! {

/// `name` below the directory `dir`.
pub open spec fn below(dir: Seq<char>, name: Seq<char>) -> Seq<char> {
    if dir.len() == 0 || ends(dir, "/"@) {
        dir + name
    } else {
        dir + "/"@ + name
    }
}

/// `name` below the directory `dir`.
pub fn join(dir: &str, name: &str) -> (r: String)
    ensures
        r@ == below(dir@, name@),
{
    if dir.is_empty() || ends_with(dir, "/") {
        dir.to_owned().concat(name)
    } else {
        dir.to_owned().concat("/").concat(name)
    }
}

/// A file name, parted at its last dot: what stands before it, and the
/// extension. A name without a dot, or whose only dot comes first, has no
/// extension.
pub open spec fn parted(name: Seq<char>) -> (Seq<char>, Option<Seq<char>>) {
    match split_last(name, "."@) {
        Some((stem, ext)) => if stem.len() == 0 || name == ".."@ {
            (name, None)
        } else {
            (stem, Some(ext))
        },
        None => (name, None),
    }
}

/// A file name, parted into its stem and its extension.
pub fn part_name(name: &str) -> (r: (String, Option<String>))
    ensures
        r.0@ == parted(name@).0,
        r.1.deep_view() == parted(name@).1,
{
    if str_eq(name, "..") {
        let whole = name.to_owned();
        return (whole, None);
    }
    match rsplit_once(name, ".") {
        Some((stem, ext)) => if stem.as_str().is_empty() {
            (name.to_owned(), None)
        } else {
            (stem, Some(ext))
        },
        None => (name.to_owned(), None),
    }
}

// ── Components ───────────────────────────────────────────────────────────────

/// What remains of a path without the separators and the components `.` that
/// it starts with.
pub open spec fn trim_front(s: Seq<char>) -> Seq<char>
    decreases s.len(),
{
    if s.len() > 0 && (s[0] == '/' || (s[0] == '.' && (s.len() == 1 || s[1] == '/'))) {
        trim_front(s.skip(1))
    } else {
        s
    }
}

/// How long the component is that a path starts with.
pub open spec fn name_len(s: Seq<char>) -> nat
    decreases s.len(),
{
    if s.len() == 0 || s[0] == '/' {
        0
    } else {
        1 + name_len(s.skip(1))
    }
}

/// What remains is the end of the path, and starts with a name.
pub proof fn lemma_trim_front(s: Seq<char>)
    ensures
        trim_front(s).len() <= s.len(),
        trim_front(s) == s.skip(s.len() - trim_front(s).len()),
        trim_front(s).len() > 0 ==> trim_front(s)[0] != '/',
    decreases s.len(),
{
    if s.len() > 0 && (s[0] == '/' || (s[0] == '.' && (s.len() == 1 || s[1] == '/'))) {
        lemma_trim_front(s.skip(1));
        assert(trim_front(s) =~= s.skip(s.len() - trim_front(s).len()));
    } else {
        assert(s.skip(0) =~= s);
    }
}

/// A component is no longer than the path, and not empty before a name.
pub proof fn lemma_name_len(s: Seq<char>)
    ensures
        name_len(s) <= s.len(),
        s.len() > 0 && s[0] != '/' ==> name_len(s) > 0,
    decreases s.len(),
{
    if s.len() > 0 && s[0] != '/' {
        lemma_name_len(s.skip(1));
    }
}

/// The names in a path: what stands between its separators, without the empty
/// ones and those that are `.`.
pub open spec fn names(s: Seq<char>) -> Seq<Seq<char>>
    decreases s.len(),
{
    let t = trim_front(s);
    let n = name_len(t) as int;
    proof {
        lemma_trim_front(s);
        lemma_name_len(t);
    }
    if t.len() == 0 {
        Seq::empty()
    } else {
        seq![t.take(n)] + names(t.skip(n))
    }
}

/// What remains of a path behind its first `n` names.
pub open spec fn behind(s: Seq<char>, n: nat) -> Seq<char>
    decreases n,
{
    let t = trim_front(s);
    if n == 0 {
        t
    } else {
        behind(t.skip(name_len(t) as int), (n - 1) as nat)
    }
}

/// Whether a path starts at the root.
pub open spec fn rooted(s: Seq<char>) -> bool {
    s.len() > 0 && s[0] == '/'
}

/// Whether a path starts at the current directory by name.
pub open spec fn dotted(s: Seq<char>) -> bool {
    s.len() > 0 && s[0] == '.' && (s.len() == 1 || s[1] == '/')
}

/// The components of a path: the root or the current directory where it starts
/// at one of them by name, and its names.
pub open spec fn components(s: Seq<char>) -> Seq<Seq<char>> {
    (if rooted(s) {
        seq!["/"@]
    } else if dotted(s) {
        seq!["."@]
    } else {
        Seq::empty()
    }) + names(s)
}

/// A path without the separators and the components `.` that it ends in.
pub open spec fn trim_back(s: Seq<char>) -> Seq<char>
    decreases s.len(),
{
    if s.len() > 1 && (s.last() == '/' || (s.last() == '.' && s[s.len() - 2] == '/')) {
        trim_back(s.drop_last())
    } else {
        s
    }
}

/// Where a path goes on behind separators and components `.`.
fn front_from(cs: &Vec<char>, from: usize) -> (r: usize)
    requires
        from <= cs.len(),
    ensures
        from <= r <= cs.len(),
        cs@.skip(r as int) == trim_front(cs@.skip(from as int)),
{
    let mut i: usize = from;
    while i < cs.len() && (cs[i] == '/' || (cs[i] == '.' && (i + 1 == cs.len() || cs[i + 1] == '/')))
        invariant
            from <= i <= cs.len(),
            trim_front(cs@.skip(i as int)) == trim_front(cs@.skip(from as int)),
        decreases cs.len() - i,
    {
        assert(cs@.skip(i as int)[0] == cs@[i as int]);
        assert(i + 1 < cs.len() ==> cs@.skip(i as int)[1] == cs@[i + 1]);
        assert(cs@.skip(i as int).skip(1) =~= cs@.skip(i + 1));
        i += 1;
    }
    assert(i < cs.len() ==> cs@.skip(i as int)[0] == cs@[i as int]);
    assert(i + 1 < cs.len() ==> cs@.skip(i as int)[1] == cs@[i + 1]);
    i
}

/// Where the component at a position ends.
fn name_end(cs: &Vec<char>, from: usize) -> (r: usize)
    requires
        from <= cs.len(),
    ensures
        from <= r <= cs.len(),
        r - from == name_len(cs@.skip(from as int)),
{
    let mut i: usize = from;
    while i < cs.len() && cs[i] != '/'
        invariant
            from <= i <= cs.len(),
            name_len(cs@.skip(from as int)) == (i - from) + name_len(cs@.skip(i as int)),
        decreases cs.len() - i,
    {
        assert(cs@.skip(i as int)[0] == cs@[i as int]);
        assert(cs@.skip(i as int).skip(1) =~= cs@.skip(i + 1));
        i += 1;
    }
    assert(i < cs.len() ==> cs@.skip(i as int)[0] == cs@[i as int]);
    i
}

/// The names in a path.
fn names_of(path: &str) -> (r: Vec<String>)
    ensures
        r.deep_view() == names(path@),
{
    let cs = chars_of(path);
    let ghost want = names(path@);
    let mut out: Vec<String> = Vec::new();
    let mut i: usize = 0;
    proof {
        assert(cs@.skip(0) =~= cs@);
        assert(out.deep_view() + names(cs@.skip(0)) =~= want);
    }
    loop
        invariant
            i <= cs.len(),
            cs@ == path@,
            want == names(path@),
            out.deep_view() + names(cs@.skip(i as int)) == want,
        ensures
            out.deep_view() == want,
        decreases cs.len() - i,
    {
        let ghost had = out.deep_view();
        let ghost rest = cs@.skip(i as int);
        proof {
            lemma_trim_front(rest);
        }
        let from = front_from(&cs, i);
        let ghost t = cs@.skip(from as int);
        if from == cs.len() {
            assert(names(rest) =~= Seq::<Seq<char>>::empty());
            assert(had + names(rest) =~= had);
            break;
        }
        proof {
            lemma_name_len(t);
        }
        let to = name_end(&cs, from);
        out.push(string_of(&cs, from, to));
        proof {
            let n = name_len(t) as int;
            assert(t.take(n) =~= cs@.subrange(from as int, to as int));
            assert(t.skip(n) =~= cs@.skip(to as int));
            assert(out.deep_view() =~= had.push(t.take(n)));
            assert(out.deep_view() + names(cs@.skip(to as int)) =~= had + names(rest));
        }
        i = to;
    }
    out
}

/// The components of a path.
pub fn components_of(path: &str) -> (r: Vec<String>)
    ensures
        r.deep_view() == components(path@),
{
    let cs = chars_of(path);
    let mut out: Vec<String> = Vec::new();
    if cs.len() > 0 && cs[0] == '/' {
        out.push("/".to_owned());
    } else if cs.len() > 0 && cs[0] == '.' && (cs.len() == 1 || cs[1] == '/') {
        out.push(".".to_owned());
    }
    let ghost lead = out.deep_view();
    assert(lead =~= (if rooted(path@) {
        seq!["/"@]
    } else if dotted(path@) {
        seq!["."@]
    } else {
        Seq::empty()
    }));
    let list = names_of(path);
    let mut i: usize = 0;
    let ghost more = list.deep_view();
    assert(out.deep_view() =~= lead + more.take(0));
    while i < list.len()
        invariant
            i <= list.len(),
            more == list.deep_view(),
            out.deep_view() == lead + more.take(i as int),
        decreases list.len() - i,
    {
        let ghost had = out.deep_view();
        assert(more[i as int] == list[i as int]@);
        out.push(list[i].clone());
        assert(out.deep_view() =~= had.push(more[i as int]));
        assert(more.take(i + 1) =~= more.take(i as int).push(more[i as int]));
        i += 1;
        assert(out.deep_view() =~= lead + more.take(i as int));
    }
    assert(more.take(list.len() as int) =~= more);
    out
}

/// A path without the separators and the components `.` that it ends in.
fn tidy_end(path: &str) -> (r: String)
    ensures
        r@ == trim_back(path@),
{
    let cs = chars_of(path);
    let mut n: usize = cs.len();
    assert(cs@.take(cs.len() as int) =~= cs@);
    while n > 1 && (cs[n - 1] == '/' || (cs[n - 1] == '.' && cs[n - 2] == '/'))
        invariant
            n <= cs.len(),
            cs@ == path@,
            trim_back(cs@.take(n as int)) == trim_back(path@),
        decreases n,
    {
        assert(cs@.take(n as int).drop_last() =~= cs@.take(n - 1));
        n -= 1;
    }
    assert(cs@.subrange(0, n as int) =~= cs@.take(n as int));
    string_of(&cs, 0, n)
}

/// The last name in a path; empty where it has none.
pub open spec fn base(path: Seq<char>) -> Seq<char> {
    if names(path).len() == 0 {
        Seq::empty()
    } else {
        names(path).last()
    }
}

/// The last name in a path; empty where it has none.
pub fn base_name(path: &str) -> (r: String)
    ensures
        r@ == base(path@),
{
    let list = names_of(path);
    let ghost v = list.deep_view();
    if list.len() == 0 {
        let none = String::new();
        assert(none@ =~= Seq::<char>::empty());
        none
    } else {
        assert(v.last() == list[list.len() - 1]@);
        list[list.len() - 1].clone()
    }
}

/// The path of `file` as seen from the directory `root`; its last name where
/// it is not below it.
pub open spec fn relative(root: Seq<char>, file: Seq<char>) -> Seq<char> {
    if !components(root).is_prefix_of(components(file)) {
        base(file)
    } else if components(root).len() == 0 {
        trim_back(file)
    } else {
        trim_back(behind(file, names(root).len()))
    }
}

/// What remains of a path behind its first `n` names.
fn rest_behind(path: &str, n: usize) -> (r: String)
    ensures
        r@ == behind(path@, n as nat),
{
    let cs = chars_of(path);
    let mut i: usize = 0;
    let mut k: usize = 0;
    assert(cs@.skip(0) =~= cs@);
    while k < n
        invariant
            k <= n,
            i <= cs.len(),
            cs@ == path@,
            behind(cs@.skip(i as int), (n - k) as nat) == behind(path@, n as nat),
        decreases n - k,
    {
        let from = front_from(&cs, i);
        let ghost t = cs@.skip(from as int);
        let to = name_end(&cs, from);
        assert(t.skip(name_len(t) as int) =~= cs@.skip(to as int));
        i = to;
        k += 1;
    }
    let from = front_from(&cs, i);
    assert(cs@.subrange(from as int, cs.len() as int) =~= cs@.skip(from as int));
    string_of(&cs, from, cs.len())
}

/// Whether a list of texts starts with another.
fn starts_list(list: &Vec<String>, front: &Vec<String>) -> (r: bool)
    ensures
        r == front.deep_view().is_prefix_of(list.deep_view()),
{
    let ghost a = front.deep_view();
    let ghost b = list.deep_view();
    if list.len() < front.len() {
        return false;
    }
    let mut i: usize = 0;
    while i < front.len()
        invariant
            i <= front.len() <= list.len(),
            a == front.deep_view(),
            b == list.deep_view(),
            forall|k: int| 0 <= k < i ==> #[trigger] a[k] == b[k],
        decreases front.len() - i,
    {
        assert(a[i as int] == front[i as int]@ && b[i as int] == list[i as int]@);
        if !str_eq(front[i].as_str(), list[i].as_str()) {
            assert(b.subrange(0, a.len() as int)[i as int] == b[i as int]);
            return false;
        }
        i += 1;
    }
    assert(b.subrange(0, a.len() as int) =~= a);
    true
}

/// The path of `file` as seen from the directory `root`; its last name where
/// it is not below it.
pub fn display_path(root: &str, file: &str) -> (r: String)
    ensures
        r@ == relative(root@, file@),
{
    let above = components_of(root);
    let whole = components_of(file);
    if !starts_list(&whole, &above) {
        base_name(file)
    } else if above.len() == 0 {
        tidy_end(file)
    } else {
        let depth: usize = names_of(root).len();
        tidy_end(rest_behind(file, depth).as_str())
    }
}

proof fn lemma_trim_joined(a: Seq<char>, b: Seq<char>)
    ensures
        trim_front(a).len() == 0 ==> trim_front(a.push('/') + b) == trim_front(b),
        trim_front(a).len() > 0 ==> trim_front(a.push('/') + b) == trim_front(a).push('/') + b,
    decreases a.len(),
{
    let s = a.push('/') + b;
    if a.len() == 0 {
        assert(s.skip(1) =~= b);
    } else if a[0] == '/' || (a[0] == '.' && (a.len() == 1 || a[1] == '/')) {
        assert(s.skip(1) =~= a.skip(1).push('/') + b);
        lemma_trim_joined(a.skip(1), b);
    }
}

proof fn lemma_name_joined(a: Seq<char>, b: Seq<char>)
    ensures
        name_len(a.push('/') + b) == name_len(a),
    decreases a.len(),
{
    let s = a.push('/') + b;
    if a.len() > 0 && a[0] != '/' {
        assert(s.skip(1) =~= a.skip(1).push('/') + b);
        lemma_name_joined(a.skip(1), b);
    }
}

proof fn lemma_names_joined(a: Seq<char>, b: Seq<char>)
    ensures
        names(a.push('/') + b) == names(a) + names(b),
        behind(a.push('/') + b, names(a).len()) == trim_front(b),
    decreases a.len(),
{
    let s = a.push('/') + b;
    let t = trim_front(a);
    lemma_trim_joined(a, b);
    lemma_trim_front(a);
    if t.len() == 0 {
        assert(names(s) =~= names(b));
        assert(names(a) + names(b) =~= names(b));
    } else {
        let n = name_len(t) as int;
        let u = t.push('/') + b;
        lemma_name_len(t);
        lemma_name_joined(t, b);
        assert(u.take(n) =~= t.take(n));
        assert(u.skip(n) =~= t.skip(n).push('/') + b);
        lemma_names_joined(t.skip(n), b);
        assert(names(a) =~= seq![t.take(n)] + names(t.skip(n)));
        assert(names(s) =~= names(a) + names(b));
    }
}

proof fn lemma_one_name(name: Seq<char>)
    requires
        !name.contains('/'),
    ensures
        name_len(name) == name.len(),
    decreases name.len(),
{
    if name.len() > 0 {
        assert(name[0] != '/');
        assert forall|i: int| 0 <= i < name.skip(1).len() implies name.skip(1)[i] != '/' by {
            assert(name.skip(1)[i] == name[i + 1]);
        }
        lemma_one_name(name.skip(1));
    }
}

/// The last name in the path of an entry of a directory is the name of the entry.
pub proof fn law_base_of_entry(dir: Seq<char>, name: Seq<char>)
    requires
        name.len() > 0,
        name != "."@,
        !name.contains('/'),
    ensures
        base(dir.push('/') + name) == name,
        base(name) == name,
{
    reveal_strlit(".");
    lemma_one_name(name);
    assert(name[0] != '/');
    if name.len() == 1 && name[0] == '.' {
        assert(name =~= "."@);
    }
    if name.len() > 1 {
        assert(name[1] != '/');
    }
    assert(trim_front(name) == name);
    let none = name.skip(name.len() as int);
    assert(none =~= Seq::<char>::empty());
    assert(names(none) =~= Seq::<Seq<char>>::empty());
    assert(name.take(name.len() as int) =~= name);
    assert(names(name) =~= seq![name]);
    lemma_names_joined(dir, name);
    assert((names(dir) + names(name)).last() == name);
}

/// What is below a directory is seen from it by the rest of its path, where
/// that neither starts nor ends in separators or components `.`.
pub proof fn law_relative_below(root: Seq<char>, name: Seq<char>)
    requires
        name.len() > 0,
        trim_front(name) == name,
        trim_back(name) == name,
    ensures
        relative(root, below(root, name)) == name,
{
    let file = below(root, name);
    reveal_strlit("/");
    if root.len() == 0 {
        assert(file =~= name);
        assert(components(root) =~= Seq::<Seq<char>>::empty());
        assert(components(root).is_prefix_of(components(file))) by {
            assert(components(file).subrange(0, 0) =~= components(root));
        }
    } else {
        let a = if ends(root, "/"@) {
            root.drop_last()
        } else {
            root
        };
        if ends(root, "/"@) {
            assert(root.skip(root.len() - 1)[0] == '/');
            assert(root =~= a.push('/') + Seq::<char>::empty());
            lemma_names_joined(a, Seq::empty());
            assert(names(Seq::<char>::empty()) =~= Seq::<Seq<char>>::empty());
            assert(names(root) =~= names(a));
        }
        assert(file =~= a.push('/') + name);
        lemma_names_joined(a, name);
        let cr = components(root);
        let cf = components(file);
        assert(rooted(root) == rooted(file));
        assert(dotted(root) == dotted(file));
        assert(cf.subrange(0, cr.len() as int) =~= cr);
        if cr.len() == 0 {
            assert(names(root).len() == 0);
            lemma_no_names(root);
        }
    }
}

proof fn lemma_no_names(s: Seq<char>)
    requires
        s.len() > 0,
        names(s).len() == 0,
    ensures
        rooted(s) || dotted(s),
{
    if !rooted(s) && !dotted(s) {
        assert(trim_front(s) == s);
    }
}

/// How a component is written in a key: the root comes before the current
/// directory, that before the directory above, and that before all names.
pub open spec fn component_key(c: Seq<char>) -> Seq<char> {
    seq![
        if c == "/"@ {
            '\u{1}'
        } else if c == "."@ {
            '\u{2}'
        } else if c == ".."@ {
            '\u{3}'
        } else {
            '\u{4}'
        },
    ] + c + seq!['\0']
}

/// The keys of several components, one behind the other.
pub open spec fn joined_keys(cs: Seq<Seq<char>>) -> Seq<char>
    decreases cs.len(),
{
    if cs.len() == 0 {
        Seq::empty()
    } else {
        joined_keys(cs.drop_last()) + component_key(cs.last())
    }
}

/// The key by which paths are ordered: component by component. What ends a
/// component stands below all other characters, as a shorter list of components
/// comes first.
pub open spec fn path_key(path: Seq<char>) -> Seq<char> {
    joined_keys(components(path))
}

/// The key by which paths are ordered.
pub fn sort_key(path: &str) -> (r: String)
    ensures
        r@ == path_key(path@),
{
    let list = components_of(path);
    let ghost v = list.deep_view();
    let mut out = String::new();
    let mut i: usize = 0;
    assert(v.take(0) =~= Seq::<Seq<char>>::empty());
    assert(out@ =~= joined_keys(v.take(0)));
    while i < list.len()
        invariant
            i <= list.len(),
            v == list.deep_view(),
            out@ == joined_keys(v.take(i as int)),
        decreases list.len() - i,
    {
        let ghost had = out@;
        let c = list[i].as_str();
        assert(v[i as int] == c@);
        assert(v.take(i + 1).drop_last() =~= v.take(i as int));
        assert(v.take(i + 1).last() == v[i as int]);
        out.push(
            if str_eq(c, "/") {
                '\u{1}'
            } else if str_eq(c, ".") {
                '\u{2}'
            } else if str_eq(c, "..") {
                '\u{3}'
            } else {
                '\u{4}'
            },
        );
        out.append(c);
        out.push('\0');
        assert(out@ =~= had + component_key(c@));
        i += 1;
    }
    assert(v.take(list.len() as int) =~= v);
    out
}

/// The directory that a path is in: the path without its last component; none
/// for the root and for the empty path.
pub open spec fn parent_of(path: Seq<char>) -> Option<Seq<char>> {
    let t = trim_back(path);
    if t.len() == 0 || t == "/"@ {
        None
    } else {
        match split_last(t, "/"@) {
            Some((dir, _)) => if dir.len() == 0 {
                Some("/"@)
            } else {
                Some(trim_back(dir))
            },
            None => Some(Seq::empty()),
        }
    }
}

/// The directory that a path is in.
pub fn parent(path: &str) -> (r: Option<String>)
    ensures
        r.deep_view() == parent_of(path@),
{
    let whole = tidy_end(path);
    if whole.as_str().is_empty() || str_eq(whole.as_str(), "/") {
        return None;
    }
    match rsplit_once(whole.as_str(), "/") {
        Some((dir, _)) => if dir.as_str().is_empty() {
            Some("/".to_owned())
        } else {
            Some(tidy_end(dir.as_str()))
        },
        None => {
            let none = String::new();
            assert(none@ =~= Seq::<char>::empty());
            Some(none)
        },
    }
}

} // verus!
