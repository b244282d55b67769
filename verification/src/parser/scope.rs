//! The names that a source file binds: imported symbols and modules, and the
//! declared types of its identifiers.

use crate::text::str_eq;
use vstd::prelude::*;

verus! {

/// The value that the last pair with the key `k` holds.
pub open spec fn lookup(m: Seq<(Seq<char>, Seq<char>)>, k: Seq<char>) -> Option<Seq<char>>
    decreases m.len(),
{
    if m.len() == 0 {
        None
    } else if m.last().0 == k {
        Some(m.last().1)
    } else {
        lookup(m.drop_last(), k)
    }
}

/// The value that the last pair with the key `k` holds.
pub fn lookup_str<'a>(m: &'a Vec<(String, String)>, k: &str) -> (r: Option<&'a str>)
    ensures
        r.deep_view() == lookup(m.deep_view(), k@),
{
    let ghost v = m.deep_view();
    let mut i: usize = m.len();
    assert(v.take(i as int) =~= v);
    while i > 0
        invariant
            i <= m.len(),
            v == m.deep_view(),
            lookup(v, k@) == lookup(v.take(i as int), k@),
        decreases i,
    {
        proof {
            assert(v.take(i as int).drop_last() =~= v.take(i - 1));
            assert(v.take(i as int).last() == v[i - 1]);
            assert(v[i - 1] == (m[i - 1].0@, m[i - 1].1@));
        }
        if str_eq(m[i - 1].0.as_str(), k) {
            return Some(m[i - 1].1.as_str());
        }
        i -= 1;
    }
    None
}

/// Declared types of the identifiers that a file binds.
#[derive(Debug)]
pub struct ReceiverTypes {
    /// Every declaration seen: a name and its type.
    pub declared: Vec<(String, String)>,
}

/// Whether the declarations give `name` the type `ty` and no other.
pub open spec fn has_type(
    m: Seq<(Seq<char>, Seq<char>)>,
    name: Seq<char>,
    ty: Seq<char>,
) -> bool {
    &&& exists|i: int| 0 <= i < m.len() && (#[trigger] m[i]).0 == name
    &&& forall|i: int| 0 <= i < m.len() && (#[trigger] m[i]).0 == name ==> m[i].1 == ty
}

/// The type of `name`, unless it is unknown or declared with two types.
pub open spec fn type_of(m: Seq<(Seq<char>, Seq<char>)>, name: Seq<char>) -> Option<Seq<char>> {
    match lookup(m, name) {
        Some(ty) => if has_type(m, name, ty) {
            Some(ty)
        } else {
            None
        },
        None => None,
    }
}

/// What the last pair with a key holds is in one of the pairs.
pub proof fn lemma_lookup(m: Seq<(Seq<char>, Seq<char>)>, k: Seq<char>)
    ensures
        match lookup(m, k) {
            Some(v) => exists|i: int|
                0 <= i < m.len() && (#[trigger] m[i]).0 == k && m[i].1 == v,
            None => forall|i: int| 0 <= i < m.len() ==> (#[trigger] m[i]).0 != k,
        },
    decreases m.len(),
{
    if m.len() > 0 {
        let front = m.drop_last();
        if m.last().0 == k {
            assert(m[m.len() - 1].0 == k);
        } else {
            lemma_lookup(front, k);
            match lookup(front, k) {
                Some(v) => {
                    let i = choose|i: int|
                        0 <= i < front.len() && (#[trigger] front[i]).0 == k && front[i].1 == v;
                    assert(m[i].0 == k && m[i].1 == v);
                },
                None => {
                    assert forall|i: int| 0 <= i < m.len() implies (#[trigger] m[i]).0 != k by {
                        if i < front.len() {
                            assert(front[i] == m[i]);
                        }
                    }
                },
            }
        }
    }
}

/// A name has a type exactly where all its declarations, of which there is at
/// least one, agree on it. In particular the order of declarations does not
/// matter, and once two disagree no later one brings a type back.
pub proof fn law_type_of(m: Seq<(Seq<char>, Seq<char>)>, name: Seq<char>, ty: Seq<char>)
    ensures
        type_of(m, name) == Some(ty) <==> has_type(m, name, ty),
{
    lemma_lookup(m, name);
}

impl ReceiverTypes {
    /// No declarations.
    pub fn new() -> (r: Self)
        ensures
            r.declared.deep_view() == Seq::<(Seq<char>, Seq<char>)>::empty(),
    {
        let r = ReceiverTypes { declared: Vec::new() };
        assert(r.declared.deep_view() =~= Seq::<(Seq<char>, Seq<char>)>::empty());
        r
    }

    /// The type of `name`, unless it is unknown or ambiguous.
    pub fn get<'a>(&'a self, name: &str) -> (r: Option<&'a str>)
        ensures
            r.deep_view() == type_of(self.declared.deep_view(), name@),
    {
        let ghost v = self.declared.deep_view();
        proof {
            lemma_lookup(v, name@);
        }
        match lookup_str(&self.declared, name) {
            None => None,
            Some(ty) => {
                let mut i: usize = 0;
                while i < self.declared.len()
                    invariant
                        i <= self.declared.len(),
                        v == self.declared.deep_view(),
                        lookup(v, name@) == Some(ty@),
                        forall|k: int|
                            0 <= k < i && (#[trigger] v[k]).0 == name@ ==> v[k].1 == ty@,
                    decreases self.declared.len() - i,
                {
                    assert(v[i as int] == (
                        self.declared[i as int].0@,
                        self.declared[i as int].1@,
                    ));
                    if str_eq(self.declared[i].0.as_str(), name) && !str_eq(
                        self.declared[i].1.as_str(),
                        ty,
                    ) {
                        assert(!has_type(v, name@, ty@));
                        return None;
                    }
                    i += 1;
                }
                assert(has_type(v, name@, ty@));
                Some(ty)
            },
        }
    }

    /// Records a declaration.
    pub fn insert(&mut self, name: &str, ty: &str)
        ensures
            final(self).declared.deep_view() == old(self).declared.deep_view().push((name@, ty@)),
    {
        let ghost had = self.declared.deep_view();
        self.declared.push((name.to_owned(), ty.to_owned()));
        assert(self.declared.deep_view() =~= had.push((name@, ty@)));
    }
}

/// The names that a file binds, as far as they rewrite its call sites.
#[derive(Debug)]
pub struct Imports {
    /// Local name of an imported symbol to its qualified path.
    pub symbols: Vec<(String, String)>,
    /// Local name of an imported module to the name it is known by.
    pub modules: Vec<(String, String)>,
    /// Declared types of the file's identifiers.
    pub receivers: ReceiverTypes,
}

/// What an [`Imports`] holds.
#[verifier::ext_equal]
pub struct ScopeView {
    pub symbols: Seq<(Seq<char>, Seq<char>)>,
    pub modules: Seq<(Seq<char>, Seq<char>)>,
    pub receivers: Seq<(Seq<char>, Seq<char>)>,
}

impl ScopeView {
    /// No names at all.
    pub open spec fn empty() -> ScopeView {
        ScopeView { symbols: Seq::empty(), modules: Seq::empty(), receivers: Seq::empty() }
    }
}

impl DeepView for Imports {
    type V = ScopeView;

    open spec fn deep_view(&self) -> ScopeView {
        ScopeView {
            symbols: self.symbols.deep_view(),
            modules: self.modules.deep_view(),
            receivers: self.receivers.declared.deep_view(),
        }
    }
}

impl Imports {
    /// No names at all.
    pub fn new() -> (r: Self)
        ensures
            r.deep_view() == ScopeView::empty(),
    {
        let r = Imports {
            symbols: Vec::new(),
            modules: Vec::new(),
            receivers: ReceiverTypes::new(),
        };
        assert(r.deep_view() =~= ScopeView::empty());
        r
    }

    /// Binds a symbol.
    pub fn add_symbol(&mut self, local: &str, path: &str)
        ensures
            final(self).deep_view() == (ScopeView {
                symbols: old(self).deep_view().symbols.push((local@, path@)),
                ..old(self).deep_view()
            }),
    {
        let ghost had = self.deep_view();
        self.symbols.push((local.to_owned(), path.to_owned()));
        assert(self.symbols.deep_view() =~= had.symbols.push((local@, path@)));
    }

    /// Binds a module.
    pub fn add_module(&mut self, local: &str, name: &str)
        ensures
            final(self).deep_view() == (ScopeView {
                modules: old(self).deep_view().modules.push((local@, name@)),
                ..old(self).deep_view()
            }),
    {
        let ghost had = self.deep_view();
        self.modules.push((local.to_owned(), name.to_owned()));
        assert(self.modules.deep_view() =~= had.modules.push((local@, name@)));
    }
}

} // verus!
