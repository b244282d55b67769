//! A graph of atoms with optional metadata, for the views and artifacts that
//! are drawn from a whole project.

use crate::graph::memory::{calls, law_listing_complete, lists_all, Store, StoreView};
use crate::model::{law_edge_kind_parsed_of_text, AtomView, CodeAtom, EdgeKind, EdgeView};
use crate::text::{lemma_text_lt_irreflexive, str_eq, text_lt};
use vstd::hash_map::StringHashMap;
use vstd::prelude::*;

verus! {

// ── Types ────────────────────────────────────────────────────────────────────

/// One indexed entity, with the metadata that its producer knew.
#[derive(Debug)]
pub struct Atom {
    /// Unique identifier (e.g. `code:src/lib.rs::function::foo`).
    pub id: String,
    /// Coarse kind (`module`, `function`, `struct`, …).
    pub kind: String,
    /// Display name.
    pub name: String,
    /// Hash of the atom's source.
    pub content_hash: String,
    /// Source file path.
    pub file_path: Option<String>,
    /// First line of the definition.
    pub line_start: Option<u64>,
    /// Last line of the definition.
    pub line_end: Option<u64>,
    /// Declaration signature.
    pub signature: Option<String>,
    /// Doc comment.
    pub doc: Option<String>,
}

/// What an [`Atom`] holds.
#[verifier::ext_equal]
pub struct AtomEntry {
    pub id: Seq<char>,
    pub kind: Seq<char>,
    pub name: Seq<char>,
    pub content_hash: Seq<char>,
    pub file_path: Option<Seq<char>>,
    pub line_start: Option<u64>,
    pub line_end: Option<u64>,
    pub signature: Option<Seq<char>>,
    pub doc: Option<Seq<char>>,
}

/// The view of an optional text.
pub open spec fn opt_text(o: Option<String>) -> Option<Seq<char>> {
    match o {
        Some(s) => Some(s@),
        None => None,
    }
}

impl DeepView for Atom {
    type V = AtomEntry;

    open spec fn deep_view(&self) -> AtomEntry {
        AtomEntry {
            id: self.id@,
            kind: self.kind@,
            name: self.name@,
            content_hash: self.content_hash@,
            file_path: opt_text(self.file_path),
            line_start: self.line_start,
            line_end: self.line_end,
            signature: opt_text(self.signature),
            doc: opt_text(self.doc),
        }
    }
}

impl Atom {
    /// An atom without metadata.
    pub fn new(id: &str, kind: &str, name: &str, content_hash: &str) -> (r: Self)
        ensures
            r.deep_view() == (AtomEntry {
                id: id@,
                kind: kind@,
                name: name@,
                content_hash: content_hash@,
                file_path: None,
                line_start: None,
                line_end: None,
                signature: None,
                doc: None,
            }),
    {
        Self {
            id: id.to_owned(),
            kind: kind.to_owned(),
            name: name.to_owned(),
            content_hash: content_hash.to_owned(),
            file_path: None,
            line_start: None,
            line_end: None,
            signature: None,
            doc: None,
        }
    }

    /// The atom, with its source file.
    pub fn in_file(self, path: &str) -> (r: Self)
        ensures
            r.deep_view() == (AtomEntry { file_path: Some(path@), ..self.deep_view() }),
    {
        Self { file_path: Some(path.to_owned()), ..self }
    }
}

/// A labelled edge between two atoms.
#[derive(Debug)]
pub struct Relation {
    /// Id of the source.
    pub from: String,
    /// Id of the target.
    pub to: String,
    /// Kind of the relation (`calls`, `contains`, …).
    pub kind: String,
}

/// What a [`Relation`] holds.
#[verifier::ext_equal]
pub struct RelationEntry {
    pub from: Seq<char>,
    pub to: Seq<char>,
    pub kind: Seq<char>,
}

impl DeepView for Relation {
    type V = RelationEntry;

    open spec fn deep_view(&self) -> RelationEntry {
        RelationEntry { from: self.from@, to: self.to@, kind: self.kind@ }
    }
}

impl Relation {
    /// The relation of a kind from one atom to another.
    pub fn new(from: &str, to: &str, kind: &str) -> (r: Self)
        ensures
            r.deep_view() == (RelationEntry { from: from@, to: to@, kind: kind@ }),
    {
        Self { from: from.to_owned(), to: to.to_owned(), kind: kind.to_owned() }
    }
}

/// Which relations of an atom are meant.
#[derive(Debug, Clone, Copy, PartialEq, Eq, Structural)]
pub enum Direction {
    /// Those that start at the atom.
    Outgoing,
    /// Those that end at the atom.
    Incoming,
}

/// What a [`Catalog`] holds.
#[verifier::ext_equal]
pub struct CatalogView {
    pub atoms: Seq<AtomEntry>,
    pub relations: Seq<RelationEntry>,
}

// ── What a catalog says ──────────────────────────────────────────────────────

/// The position of the atom with the given id.
pub open spec fn position_of(atoms: Seq<AtomEntry>, id: Seq<char>) -> Option<int>
    decreases atoms.len(),
{
    if atoms.len() == 0 {
        None
    } else if atoms.last().id == id {
        Some(atoms.len() - 1)
    } else {
        position_of(atoms.drop_last(), id)
    }
}

/// The atom with the given id.
pub open spec fn node(atoms: Seq<AtomEntry>, id: Seq<char>) -> Option<AtomEntry> {
    match position_of(atoms, id) {
        Some(i) => Some(atoms[i]),
        None => None,
    }
}

/// The atoms after `atom` was added: it replaces the one with its id, or else
/// comes last.
pub open spec fn with_atom(atoms: Seq<AtomEntry>, atom: AtomEntry) -> Seq<AtomEntry> {
    match position_of(atoms, atom.id) {
        Some(i) => atoms.update(i, atom),
        None => atoms.push(atom),
    }
}

/// The end of a relation that a direction starts from.
pub open spec fn near(r: RelationEntry, d: Direction) -> Seq<char> {
    match d {
        Direction::Outgoing => r.from,
        Direction::Incoming => r.to,
    }
}

/// The end of a relation that a direction leads to.
pub open spec fn far(r: RelationEntry, d: Direction) -> Seq<char> {
    match d {
        Direction::Outgoing => r.to,
        Direction::Incoming => r.from,
    }
}

/// The other end and the kind of each relation of an atom, in the order in
/// which the relations were added.
pub open spec fn neighbors_of(
    rs: Seq<RelationEntry>,
    id: Seq<char>,
    d: Direction,
) -> Seq<(Seq<char>, Seq<char>)>
    decreases rs.len(),
{
    if rs.len() == 0 {
        Seq::empty()
    } else {
        let front = neighbors_of(rs.drop_last(), id, d);
        if near(rs.last(), d) == id {
            front.push((far(rs.last(), d), rs.last().kind))
        } else {
            front
        }
    }
}

/// Whether one of the atoms has the given id.
pub open spec fn known(atoms: Seq<AtomEntry>, id: Seq<char>) -> bool {
    exists|i: int| 0 <= i < atoms.len() && (#[trigger] atoms[i]).id == id
}

/// Whether one of the relations is of the given kind and leads from one id to
/// another.
pub open spec fn related(
    rs: Seq<RelationEntry>,
    from: Seq<char>,
    to: Seq<char>,
    kind: Seq<char>,
) -> bool {
    exists|k: int|
        0 <= k < rs.len() && (#[trigger] rs[k]).from == from && rs[k].to == to && rs[k].kind == kind
}

/// The neighbours in a direction are the other ends of the relations that start
/// or end at the atom.
pub proof fn law_neighbors(
    rs: Seq<RelationEntry>,
    id: Seq<char>,
    other: Seq<char>,
    kind: Seq<char>,
)
    ensures
        neighbors_of(rs, id, Direction::Outgoing).contains((other, kind)) <==> related(
            rs,
            id,
            other,
            kind,
        ),
        neighbors_of(rs, id, Direction::Incoming).contains((other, kind)) <==> related(
            rs,
            other,
            id,
            kind,
        ),
    decreases rs.len(),
{
    if rs.len() > 0 {
        let front = rs.drop_last();
        let last = rs[rs.len() - 1];
        law_neighbors(front, id, other, kind);
        assert forall|a: Seq<char>, b: Seq<char>| #[trigger]
            related(rs, a, b, kind) <==> related(front, a, b, kind) || (last.from == a && last.to
                == b && last.kind == kind) by {
            if related(front, a, b, kind) {
                let k = choose|k: int|
                    0 <= k < front.len() && (#[trigger] front[k]).from == a && front[k].to == b
                        && front[k].kind == kind;
                assert(rs[k] == front[k]);
            }
            if related(rs, a, b, kind) {
                let k = choose|k: int|
                    0 <= k < rs.len() && (#[trigger] rs[k]).from == a && rs[k].to == b
                        && rs[k].kind == kind;
                if k < front.len() {
                    assert(front[k] == rs[k]);
                }
            }
        }
        assert(related(rs, id, other, kind) <==> related(front, id, other, kind) || (last.from == id
            && last.to == other && last.kind == kind));
        assert(related(rs, other, id, kind) <==> related(front, other, id, kind) || (last.from
            == other && last.to == id && last.kind == kind));
        crate::keys::lemma_push_contains(
            neighbors_of(front, id, Direction::Outgoing),
            (last.to, last.kind),
        );
        crate::keys::lemma_push_contains(
            neighbors_of(front, id, Direction::Incoming),
            (last.from, last.kind),
        );
    }
}

/// The atom with the id of an atom is that atom, where ids are distinct.
pub proof fn law_node(atoms: Seq<AtomEntry>, id: Seq<char>)
    requires
        distinct_ids(atoms),
    ensures
        node(atoms, id) is Some <==> known(atoms, id),
        forall|i: int|
            0 <= i < atoms.len() && (#[trigger] atoms[i]).id == id ==> node(atoms, id) == Some(
                atoms[i],
            ),
{
    lemma_position_of(atoms, id);
}

/// Whether no two atoms have the same id.
pub open spec fn distinct_ids(atoms: Seq<AtomEntry>) -> bool {
    forall|i: int, j: int|
        0 <= i < atoms.len() && 0 <= j < atoms.len() && i != j ==> (#[trigger] atoms[i]).id != (
        #[trigger] atoms[j]).id
}

/// What a position in a list of atoms is.
pub proof fn lemma_position_of(atoms: Seq<AtomEntry>, id: Seq<char>)
    ensures
        match position_of(atoms, id) {
            Some(i) => 0 <= i < atoms.len() && atoms[i].id == id,
            None => forall|i: int| 0 <= i < atoms.len() ==> (#[trigger] atoms[i]).id != id,
        },
    decreases atoms.len(),
{
    if atoms.len() > 0 && atoms.last().id != id {
        let front = atoms.drop_last();
        lemma_position_of(front, id);
        if position_of(front, id) is None {
            assert forall|i: int| 0 <= i < atoms.len() implies (#[trigger] atoms[i]).id != id by {
                if i < front.len() {
                    assert(front[i] == atoms[i]);
                }
            }
        }
    }
}

/// Adding an atom keeps ids distinct; the atom is then found under its id, and
/// what any other id leads to stays as it was.
pub proof fn law_with_atom(atoms: Seq<AtomEntry>, atom: AtomEntry, id: Seq<char>)
    requires
        distinct_ids(atoms),
    ensures
        distinct_ids(with_atom(atoms, atom)),
        node(with_atom(atoms, atom), atom.id) == Some(atom),
        id != atom.id ==> node(with_atom(atoms, atom), id) == node(atoms, id),
{
    let after = with_atom(atoms, atom);
    lemma_position_of(atoms, atom.id);
    lemma_position_of(after, atom.id);
    lemma_position_of(atoms, id);
    lemma_position_of(after, id);
    match position_of(atoms, atom.id) {
        Some(i) => {
            assert(after[i] == atom);
            if id != atom.id {
                match position_of(atoms, id) {
                    Some(k) => {
                        assert(after[k] == atoms[k]);
                    },
                    None => {
                        if let Some(k) = position_of(after, id) {
                            assert(atoms[k].id != id);
                        }
                    },
                }
            }
        },
        None => {
            assert(after.drop_last() =~= atoms);
            assert(after.last() == atom);
        },
    }
}

// ── The catalog ──────────────────────────────────────────────────────────────

struct Inner {
    atoms: Vec<Atom>,
    relations: Vec<Relation>,
    index: StringHashMap<usize>,
}

impl Inner {
    spec fn wf(&self) -> bool {
        &&& forall|id: Seq<char>| #[trigger]
            self.index@.contains_key(id) ==> self.index@[id] < self.atoms.len()
                && self.atoms.deep_view()[self.index@[id] as int].id == id
        &&& forall|i: int|
            0 <= i < self.atoms.len() ==> self.index@.contains_key(
                (#[trigger] self.atoms.deep_view()[i]).id,
            ) && self.index@[self.atoms.deep_view()[i].id] == i
    }

    proof fn lemma_indexed(&self, id: Seq<char>)
        requires
            self.wf(),
        ensures
            distinct_ids(self.atoms.deep_view()),
            position_of(self.atoms.deep_view(), id) == (if self.index@.contains_key(id) {
                Some(self.index@[id] as int)
            } else {
                None
            }),
    {
        lemma_position_of(self.atoms.deep_view(), id);
    }

    fn add_atom(&mut self, atom: Atom)
        requires
            old(self).wf(),
        ensures
            final(self).wf(),
            final(self).atoms.deep_view() == with_atom(
                old(self).atoms.deep_view(),
                atom.deep_view(),
            ),
            final(self).relations == old(self).relations,
    {
        let ghost had = self.atoms.deep_view();
        let ghost e = atom.deep_view();
        proof {
            self.lemma_indexed(e.id);
        }
        let known: Option<usize> = match self.index.get(atom.id.as_str()) {
            Some(p) => Some(*p),
            None => None,
        };
        match known {
            Some(p) => {
                self.atoms.set(p, atom);
                assert(self.atoms.deep_view() =~= had.update(p as int, e));
                proof {
                    assert forall|i: int| 0 <= i < self.atoms.len() implies self.index@.contains_key(
                        (#[trigger] self.atoms.deep_view()[i]).id,
                    ) && self.index@[self.atoms.deep_view()[i].id] == i by {
                        assert(had[i].id == self.atoms.deep_view()[i].id);
                    }
                    assert forall|id: Seq<char>| #[trigger]
                        self.index@.contains_key(id) implies self.index@[id] < self.atoms.len()
                        && self.atoms.deep_view()[self.index@[id] as int].id == id by {
                        assert(had[self.index@[id] as int].id == id);
                    }
                }
            },
            None => {
                let n: usize = self.atoms.len();
                self.index.insert(atom.id.clone(), n);
                self.atoms.push(atom);
                assert(self.atoms.deep_view() =~= had.push(e));
                proof {
                    assert forall|i: int| 0 <= i < self.atoms.len() implies self.index@.contains_key(
                        (#[trigger] self.atoms.deep_view()[i]).id,
                    ) && self.index@[self.atoms.deep_view()[i].id] == i by {
                        if i < n {
                            assert(had[i] == self.atoms.deep_view()[i]);
                        }
                    }
                }
            },
        }
    }
}

/// A set of atoms, one for each id, and the relations between them.
pub struct Catalog {
    inner: Inner,
}

impl View for Catalog {
    type V = CatalogView;

    closed spec fn view(&self) -> CatalogView {
        CatalogView {
            atoms: self.inner.atoms.deep_view(),
            relations: self.inner.relations.deep_view(),
        }
    }
}

impl Catalog {
    #[verifier::type_invariant]
    spec fn inv(self) -> bool {
        self.inner.wf()
    }

    fn empty_inner() -> (r: Inner)
        ensures
            r.wf(),
            r.atoms@.len() == 0,
            r.relations@.len() == 0,
    {
        Inner { atoms: Vec::new(), relations: Vec::new(), index: StringHashMap::new() }
    }

    /// A catalog without atoms.
    pub fn new() -> (r: Self)
        ensures
            r@ == (CatalogView { atoms: Seq::empty(), relations: Seq::empty() }),
    {
        let r = Self { inner: Self::empty_inner() };
        assert(r@.atoms =~= Seq::empty());
        assert(r@.relations =~= Seq::empty());
        r
    }

    /// Adds an atom, in place of the one with its id if there is one.
    pub fn add_atom(&mut self, atom: Atom)
        ensures
            final(self)@ == (CatalogView {
                atoms: with_atom(old(self)@.atoms, atom.deep_view()),
                relations: old(self)@.relations,
            }),
    {
        proof {
            use_type_invariant(&*self);
        }
        let mut inner = Self::empty_inner();
        std::mem::swap(&mut inner, &mut self.inner);
        inner.add_atom(atom);
        self.inner = inner;
    }

    /// Adds a relation.
    pub fn add_relation(&mut self, relation: Relation)
        ensures
            final(self)@ == (CatalogView {
                atoms: old(self)@.atoms,
                relations: old(self)@.relations.push(relation.deep_view()),
            }),
    {
        proof {
            use_type_invariant(&*self);
        }
        let mut inner = Self::empty_inner();
        std::mem::swap(&mut inner, &mut self.inner);
        let ghost had = inner.relations.deep_view();
        let ghost e = relation.deep_view();
        inner.relations.push(relation);
        assert(inner.relations.deep_view() =~= had.push(e));
        self.inner = inner;
    }

    /// No two atoms of a catalog have the same id.
    pub fn atoms(&self) -> (r: &Vec<Atom>)
        ensures
            r.deep_view() == self@.atoms,
            distinct_ids(self@.atoms),
    {
        proof {
            use_type_invariant(self);
            self.inner.lemma_indexed(Seq::empty());
        }
        &self.inner.atoms
    }

    /// The relations, in the order in which they were added.
    pub fn relations(&self) -> (r: &Vec<Relation>)
        ensures
            r.deep_view() == self@.relations,
    {
        &self.inner.relations
    }

    /// The position of the atom with the given id.
    pub fn position(&self, id: &str) -> (r: Option<usize>)
        ensures
            match r {
                Some(p) => position_of(self@.atoms, id@) == Some(p as int) && p < self@.atoms.len(),
                None => position_of(self@.atoms, id@) is None,
            },
    {
        proof {
            use_type_invariant(self);
            self.inner.lemma_indexed(id@);
        }
        match self.inner.index.get(id) {
            Some(p) => Some(*p),
            None => None,
        }
    }

    /// The atom with the given id.
    pub fn get_node(&self, id: &str) -> (r: Option<&Atom>)
        ensures
            match r {
                Some(a) => node(self@.atoms, id@) == Some(a.deep_view()),
                None => node(self@.atoms, id@) is None,
            },
    {
        proof {
            use_type_invariant(self);
            self.inner.lemma_indexed(id@);
        }
        match self.inner.index.get(id) {
            Some(p) => {
                assert(self.inner.atoms.deep_view()[*p as int]
                    == self.inner.atoms[*p as int].deep_view());
                Some(&self.inner.atoms[*p])
            },
            None => None,
        }
    }

    /// The other end and the kind of each relation of an atom.
    pub fn neighbors(&self, id: &str, direction: Direction) -> (r: Vec<(String, String)>)
        ensures
            r.deep_view() == neighbors_of(self@.relations, id@, direction),
    {
        let rs = &self.inner.relations;
        let ghost v = rs.deep_view();
        let mut out: Vec<(String, String)> = Vec::new();
        let mut i: usize = 0;
        assert(v.take(0) =~= Seq::<RelationEntry>::empty());
        assert(out.deep_view() =~= Seq::<(Seq<char>, Seq<char>)>::empty());
        while i < rs.len()
            invariant
                i <= rs.len(),
                v == rs.deep_view(),
                out.deep_view() == neighbors_of(v.take(i as int), id@, direction),
            decreases rs.len() - i,
        {
            let ghost had = out.deep_view();
            assert(v[i as int] == rs[i as int].deep_view());
            assert(v.take(i + 1).drop_last() =~= v.take(i as int));
            assert(v.take(i + 1).last() == v[i as int]);
            let (near_end, far_end) = match direction {
                Direction::Outgoing => (&rs[i].from, &rs[i].to),
                Direction::Incoming => (&rs[i].to, &rs[i].from),
            };
            if str_eq(near_end.as_str(), id) {
                out.push((far_end.clone(), rs[i].kind.clone()));
                assert(out.deep_view() =~= had.push((far(v[i as int], direction), v[i as int].kind)));
            }
            i += 1;
        }
        assert(v.take(rs.len() as int) =~= v);
        out
    }

    /// For each atom, the other end and the kind of each of its relations.
    pub fn neighbor_lists(&self, direction: Direction) -> (r: Vec<Vec<(String, String)>>)
        ensures
            r.len() == self@.atoms.len(),
            forall|i: int|
                0 <= i < r.len() ==> (#[trigger] r@[i]).deep_view() == neighbors_of(
                    self@.relations,
                    self@.atoms[i].id,
                    direction,
                ),
    {
        proof {
            use_type_invariant(self);
        }
        let atoms = &self.inner.atoms;
        let rs = &self.inner.relations;
        let ghost a = atoms.deep_view();
        let ghost v = rs.deep_view();
        let mut out: Vec<Vec<(String, String)>> = Vec::new();
        let mut i: usize = 0;
        assert(v.take(0) =~= Seq::<RelationEntry>::empty());
        while i < atoms.len()
            invariant
                i <= atoms.len(),
                out.len() == i,
                a == atoms.deep_view(),
                v.take(0) == Seq::<RelationEntry>::empty(),
                forall|k: int|
                    0 <= k < i ==> (#[trigger] out@[k]).deep_view() == neighbors_of(
                        v.take(0),
                        a[k].id,
                        direction,
                    ),
            decreases atoms.len() - i,
        {
            let none: Vec<(String, String)> = Vec::new();
            assert(none.deep_view() =~= Seq::<(Seq<char>, Seq<char>)>::empty());
            out.push(none);
            i += 1;
        }
        let mut i: usize = 0;
        while i < rs.len()
            invariant
                i <= rs.len(),
                out.len() == atoms.len(),
                a == atoms.deep_view(),
                v == rs.deep_view(),
                atoms == self.inner.atoms,
                self.inner.wf(),
                forall|k: int|
                    0 <= k < out.len() ==> (#[trigger] out@[k]).deep_view() == neighbors_of(
                        v.take(i as int),
                        a[k].id,
                        direction,
                    ),
            decreases rs.len() - i,
        {
            let ghost before = out@;
            let ghost e = v[i as int];
            assert(v[i as int] == rs[i as int].deep_view());
            assert(v.take(i + 1).drop_last() =~= v.take(i as int));
            assert(v.take(i + 1).last() == e);
            let (near_end, far_end) = match direction {
                Direction::Outgoing => (&rs[i].from, &rs[i].to),
                Direction::Incoming => (&rs[i].to, &rs[i].from),
            };
            let known: Option<usize> = match self.inner.index.get(near_end.as_str()) {
                Some(p) => Some(*p),
                None => None,
            };
            if let Some(p) = known {
                let pair = (far_end.clone(), rs[i].kind.clone());
                let ghost had = out@[p as int].deep_view();
                out[p].push(pair);
                assert(out@[p as int].deep_view() =~= had.push((far(e, direction), e.kind)));
                proof {
                    assert forall|k: int| 0 <= k < out.len() implies (
                    #[trigger] out@[k]).deep_view() == neighbors_of(
                        v.take(i + 1),
                        a[k].id,
                        direction,
                    ) by {
                        if k != p {
                            assert(out@[k] == before[k]);
                            assert(self.inner.index@[a[k].id] == k);
                        }
                    }
                }
            } else {
                proof {
                    assert forall|k: int| 0 <= k < out.len() implies (
                    #[trigger] out@[k]).deep_view() == neighbors_of(
                        v.take(i + 1),
                        a[k].id,
                        direction,
                    ) by {
                        assert(self.inner.index@.contains_key(a[k].id));
                    }
                }
            }
            i += 1;
        }
        assert(v.take(rs.len() as int) =~= v);
        out
    }
}

// ── Stores as catalogs ───────────────────────────────────────────────────────

/// An atom of a store as an atom of a catalog.
pub open spec fn entry_of_atom(a: AtomView) -> AtomEntry {
    AtomEntry {
        id: a.id,
        kind: a.kind,
        name: a.name,
        content_hash: a.content_hash,
        file_path: Some(a.file_path),
        line_start: Some(a.line_start as u64),
        line_end: Some(a.line_end as u64),
        signature: Some(a.signature),
        doc: Some(a.doc),
    }
}

/// An edge of a store as a relation.
pub open spec fn entry_of_edge(e: EdgeView) -> RelationEntry {
    RelationEntry { from: e.from, to: e.to, kind: e.kind.text() }
}

/// Whether a catalog holds what a store does: its atoms in ascending order of
/// their ids, and its edges in their order.
pub open spec fn mirrors(c: CatalogView, s: StoreView) -> bool {
    &&& exists|atoms: Seq<AtomView>|
        #[trigger] lists_all(s.atoms, atoms) && c.atoms == atoms.map_values(
            |a: AtomView| entry_of_atom(a),
        )
    &&& c.relations == s.edges.map_values(|e: EdgeView| entry_of_edge(e))
}

/// The catalog of a store has an atom for each atom of the store, with its kind,
/// its name, its file, its lines and its texts, and a relation for each edge,
/// from where it leaves to where it enters.
pub proof fn law_mirrors(c: CatalogView, s: StoreView)
    requires
        s.wf(),
        mirrors(c, s),
    ensures
        distinct_ids(c.atoms),
        forall|id: Seq<char>| #[trigger] known(c.atoms, id) <==> s.atoms.contains_key(id),
        forall|i: int|
            0 <= i < c.atoms.len() ==> s.atoms.contains_key((#[trigger] c.atoms[i]).id) && ({
                let a = s.atoms[c.atoms[i].id];
                &&& c.atoms[i].kind == a.kind
                &&& c.atoms[i].name == a.name
                &&& c.atoms[i].content_hash == a.content_hash
                &&& c.atoms[i].file_path == Some(a.file_path)
                &&& c.atoms[i].line_start == Some(a.line_start as u64)
                &&& c.atoms[i].line_end == Some(a.line_end as u64)
                &&& c.atoms[i].signature == Some(a.signature)
                &&& c.atoms[i].doc == Some(a.doc)
            }),
        forall|x: Seq<char>, y: Seq<char>|
            related(c.relations, x, y, "calls"@) <==> #[trigger] calls(s.edges, x, y),
        forall|x: Seq<char>, y: Seq<char>| #[trigger]
            related(c.relations, x, y, "contains"@) <==> exists|k: int|
                0 <= k < s.edges.len() && (#[trigger] s.edges[k]).from == x && s.edges[k].to == y
                    && s.edges[k].kind == EdgeKind::Contains,
{
    let v = choose|v: Seq<AtomView>| #[trigger]
        lists_all(s.atoms, v) && c.atoms == v.map_values(|a: AtomView| entry_of_atom(a));
    law_listing_complete(s, v);
    assert forall|i: int, j: int| 0 <= i < c.atoms.len() && 0 <= j < c.atoms.len() && i != j implies (
    #[trigger] c.atoms[i]).id != (#[trigger] c.atoms[j]).id by {
        lemma_text_lt_irreflexive(v[i].id);
        if i < j {
            assert(text_lt(v[i].id, v[j].id));
        } else {
            assert(text_lt(v[j].id, v[i].id));
        }
    }
    assert forall|id: Seq<char>| #[trigger] known(c.atoms, id) <==> s.atoms.contains_key(id) by {
        if known(c.atoms, id) {
            let i = choose|i: int| 0 <= i < c.atoms.len() && (#[trigger] c.atoms[i]).id == id;
            assert(v[i].id == id);
        }
        if s.atoms.contains_key(id) {
            let i = choose|i: int| 0 <= i < v.len() && (#[trigger] v[i]).id == id;
            assert(c.atoms[i].id == id);
        }
    }
    assert forall|i: int| 0 <= i < c.atoms.len() implies s.atoms.contains_key(
        (#[trigger] c.atoms[i]).id,
    ) && s.atoms[c.atoms[i].id] == v[i] by {
        assert(v[i].id == c.atoms[i].id);
    }
    assert forall|x: Seq<char>, y: Seq<char>|
        related(c.relations, x, y, "calls"@) <==> #[trigger] calls(s.edges, x, y) by {
        law_edge_kind_parsed_of_text(EdgeKind::Calls);
        if related(c.relations, x, y, "calls"@) {
            let k = choose|k: int|
                0 <= k < c.relations.len() && (#[trigger] c.relations[k]).from == x
                    && c.relations[k].to == y && c.relations[k].kind == "calls"@;
            law_edge_kind_parsed_of_text(s.edges[k].kind);
            assert(s.edges[k].kind == EdgeKind::Calls);
        }
        if calls(s.edges, x, y) {
            let k = choose|k: int|
                0 <= k < s.edges.len() && (#[trigger] s.edges[k]).from == x && s.edges[k].to == y
                    && s.edges[k].kind == EdgeKind::Calls;
            assert(c.relations[k].from == x);
        }
    }
    assert forall|x: Seq<char>, y: Seq<char>| #[trigger]
        related(c.relations, x, y, "contains"@) <==> exists|k: int|
            0 <= k < s.edges.len() && (#[trigger] s.edges[k]).from == x && s.edges[k].to == y
                && s.edges[k].kind == EdgeKind::Contains by {
        law_edge_kind_parsed_of_text(EdgeKind::Contains);
        if related(c.relations, x, y, "contains"@) {
            let k = choose|k: int|
                0 <= k < c.relations.len() && (#[trigger] c.relations[k]).from == x
                    && c.relations[k].to == y && c.relations[k].kind == "contains"@;
            law_edge_kind_parsed_of_text(s.edges[k].kind);
            assert(s.edges[k].kind == EdgeKind::Contains);
        }
        if exists|k: int|
            0 <= k < s.edges.len() && (#[trigger] s.edges[k]).from == x && s.edges[k].to == y
                && s.edges[k].kind == EdgeKind::Contains {
            let k = choose|k: int|
                0 <= k < s.edges.len() && (#[trigger] s.edges[k]).from == x && s.edges[k].to == y
                    && s.edges[k].kind == EdgeKind::Contains;
            assert(c.relations[k].from == x);
        }
    }
}

/// An atom of a store as an atom of a catalog.
fn atom_of(a: &CodeAtom) -> (r: Atom)
    ensures
        r.deep_view() == entry_of_atom(a.deep_view()),
{
    Atom {
        id: a.id.to_string(),
        kind: a.kind.clone(),
        name: a.name.clone(),
        content_hash: a.content_hash.clone(),
        file_path: Some(a.file_path.clone()),
        line_start: Some(a.line_start as u64),
        line_end: Some(a.line_end as u64),
        signature: Some(a.signature.clone()),
        doc: Some(a.doc.clone()),
    }
}

impl Catalog {
    /// The catalog of what a store holds.
    pub fn of_store(store: &Store) -> (r: Self)
        ensures
            mirrors(r@, store@),
    {
        let mut out = Catalog::new();
        let atoms = store.all_atoms();
        let ghost v = atoms.deep_view();
        let ghost want = v.map_values(|a: AtomView| entry_of_atom(a));
        let mut i: usize = 0;
        assert(out@.atoms =~= want.take(0));
        while i < atoms.len()
            invariant
                i <= atoms.len(),
                v == atoms.deep_view(),
                want == v.map_values(|a: AtomView| entry_of_atom(a)),
                lists_all(store@.atoms, v),
                out@.atoms == want.take(i as int),
                out@.relations.len() == 0,
            decreases atoms.len() - i,
        {
            assert(v[i as int] == atoms[i as int].deep_view());
            proof {
                lemma_position_of(out@.atoms, want[i as int].id);
                if let Some(k) = position_of(out@.atoms, want[i as int].id) {
                    assert(out@.atoms[k] == want[k]);
                    assert(crate::text::text_lt(v[k].id, v[i as int].id));
                    crate::text::lemma_text_lt_irreflexive(v[k].id);
                }
            }
            out.add_atom(atom_of(&atoms[i]));
            i += 1;
            assert(out@.atoms =~= want.take(i as int));
        }
        assert(want.take(atoms.len() as int) =~= want);
        let edges = store.all_edges();
        let ghost es = edges.deep_view();
        let ghost rels = es.map_values(|e: EdgeView| entry_of_edge(e));
        let mut j: usize = 0;
        assert(out@.relations =~= rels.take(0));
        while j < edges.len()
            invariant
                j <= edges.len(),
                es == edges.deep_view(),
                rels == es.map_values(|e: EdgeView| entry_of_edge(e)),
                out@.atoms == want,
                out@.relations == rels.take(j as int),
            decreases edges.len() - j,
        {
            assert(es[j as int] == edges[j as int].deep_view());
            let relation = Relation::new(
                edges[j].from.as_str(),
                edges[j].to.as_str(),
                edges[j].kind.as_str(),
            );
            out.add_relation(relation);
            j += 1;
            assert(out@.relations =~= rels.take(j as int));
        }
        assert(rels.take(edges.len() as int) =~= rels);
        assert(lists_all(store@.atoms, v));
        out
    }
}

} // verus!
