//! Domain model: code atoms, edges and their identifiers.

use crate::text::str_eq;
use vstd::prelude::*;

verus! {

// ── Entity identity ──────────────────────────────────────────────────────────

/// Opaque identifier of a code atom (function, module, struct, …).
#[derive(Debug, PartialEq, Eq, PartialOrd, Ord, Hash)]
pub struct EntityId(pub(crate) String);

impl View for EntityId {
    type V = Seq<char>;

    closed spec fn view(&self) -> Seq<char> {
        self.0@
    }
}

impl DeepView for EntityId {
    type V = Seq<char>;

    open spec fn deep_view(&self) -> Seq<char> {
        self@
    }
}

impl Clone for EntityId {
    fn clone(&self) -> (r: Self)
        ensures
            r@ == self@,
    {
        EntityId(self.0.clone())
    }
}

impl EntityId {
    /// The identifier whose text is `s`.
    pub fn new(s: &str) -> (r: Self)
        ensures
            r@ == s@,
    {
        EntityId(s.to_owned())
    }

    /// The text of the identifier.
    pub fn as_str(&self) -> (r: &str)
        ensures
            r@ == self@,
    {
        self.0.as_str()
    }

    /// The identifier as displayed: its text.
    pub fn to_string(&self) -> (r: String)
        ensures
            r@ == self@,
    {
        self.0.clone()
    }

    /// Whether two identifiers have the same text.
    pub fn same(&self, other: &EntityId) -> (r: bool)
        ensures
            r == (self@ == other@),
    {
        self.0 == other.0
    }
}

/// The copies of a list of identifiers.
pub fn clone_ids(ids: &Vec<EntityId>) -> (r: Vec<EntityId>)
    ensures
        r.deep_view() == ids.deep_view(),
{
    let r = ids.clone();
    assert(r.deep_view() =~= ids.deep_view());
    r
}

// ── Atom kind ────────────────────────────────────────────────────────────────

/// Coarse-grained category of a code entity.
#[derive(Debug, PartialEq, Eq, Hash)]
pub enum AtomKind {
    /// A function or method.
    Function,
    /// A module (file-level in Rust, package in Python).
    Module,
    /// A `struct` or dataclass.
    Struct,
    /// A `trait` or ABC.
    Trait,
    /// An `impl` block.
    Impl,
    /// An `enum`.
    Enum,
    /// A `type` alias.
    TypeAlias,
    /// A `const`.
    Const,
    /// A `static`.
    Static,
    /// A macro definition.
    Macro,
    /// Any kind not listed above.
    Other(String),
}

/// What an [`AtomKind`] is, with the name of an unlisted kind as a sequence.
pub enum AtomKindView {
    Function,
    Module,
    Struct,
    Trait,
    Impl,
    Enum,
    TypeAlias,
    Const,
    Static,
    Macro,
    Other(Seq<char>),
}

impl AtomKindView {
    /// The canonical lower-case name.
    pub open spec fn text(self) -> Seq<char> {
        match self {
            AtomKindView::Function => "function"@,
            AtomKindView::Module => "module"@,
            AtomKindView::Struct => "struct"@,
            AtomKindView::Trait => "trait"@,
            AtomKindView::Impl => "impl"@,
            AtomKindView::Enum => "enum"@,
            AtomKindView::TypeAlias => "type_alias"@,
            AtomKindView::Const => "const"@,
            AtomKindView::Static => "static"@,
            AtomKindView::Macro => "macro"@,
            AtomKindView::Other(s) => s,
        }
    }

    /// The kind with the given name.
    pub open spec fn parsed(s: Seq<char>) -> Self {
        if s == "function"@ {
            AtomKindView::Function
        } else if s == "module"@ {
            AtomKindView::Module
        } else if s == "struct"@ {
            AtomKindView::Struct
        } else if s == "trait"@ {
            AtomKindView::Trait
        } else if s == "impl"@ {
            AtomKindView::Impl
        } else if s == "enum"@ {
            AtomKindView::Enum
        } else if s == "type_alias"@ {
            AtomKindView::TypeAlias
        } else if s == "const"@ {
            AtomKindView::Const
        } else if s == "static"@ {
            AtomKindView::Static
        } else if s == "macro"@ {
            AtomKindView::Macro
        } else {
            AtomKindView::Other(s)
        }
    }
}

impl View for AtomKind {
    type V = AtomKindView;

    open spec fn view(&self) -> AtomKindView {
        match self {
            AtomKind::Function => AtomKindView::Function,
            AtomKind::Module => AtomKindView::Module,
            AtomKind::Struct => AtomKindView::Struct,
            AtomKind::Trait => AtomKindView::Trait,
            AtomKind::Impl => AtomKindView::Impl,
            AtomKind::Enum => AtomKindView::Enum,
            AtomKind::TypeAlias => AtomKindView::TypeAlias,
            AtomKind::Const => AtomKindView::Const,
            AtomKind::Static => AtomKindView::Static,
            AtomKind::Macro => AtomKindView::Macro,
            AtomKind::Other(s) => AtomKindView::Other(s@),
        }
    }
}

impl Clone for AtomKind {
    fn clone(&self) -> (r: Self)
        ensures
            r@ == self@,
    {
        match self {
            AtomKind::Function => AtomKind::Function,
            AtomKind::Module => AtomKind::Module,
            AtomKind::Struct => AtomKind::Struct,
            AtomKind::Trait => AtomKind::Trait,
            AtomKind::Impl => AtomKind::Impl,
            AtomKind::Enum => AtomKind::Enum,
            AtomKind::TypeAlias => AtomKind::TypeAlias,
            AtomKind::Const => AtomKind::Const,
            AtomKind::Static => AtomKind::Static,
            AtomKind::Macro => AtomKind::Macro,
            AtomKind::Other(s) => AtomKind::Other(s.clone()),
        }
    }
}

impl AtomKind {
    /// Canonical lower-case string used in ids and metadata.
    pub fn as_str(&self) -> (r: &str)
        ensures
            r@ == self@.text(),
    {
        match self {
            AtomKind::Function => "function",
            AtomKind::Module => "module",
            AtomKind::Struct => "struct",
            AtomKind::Trait => "trait",
            AtomKind::Impl => "impl",
            AtomKind::Enum => "enum",
            AtomKind::TypeAlias => "type_alias",
            AtomKind::Const => "const",
            AtomKind::Static => "static",
            AtomKind::Macro => "macro",
            AtomKind::Other(s) => s.as_str(),
        }
    }

    /// The kind as displayed: its canonical string.
    pub fn to_string(&self) -> (r: String)
        ensures
            r@ == self@.text(),
    {
        self.as_str().to_owned()
    }

    /// The kind with the given lower-case name.
    pub fn parse(s: &str) -> (r: Self)
        ensures
            r@ == AtomKindView::parsed(s@),
    {
        if str_eq(s, "function") {
            AtomKind::Function
        } else if str_eq(s, "module") {
            AtomKind::Module
        } else if str_eq(s, "struct") {
            AtomKind::Struct
        } else if str_eq(s, "trait") {
            AtomKind::Trait
        } else if str_eq(s, "impl") {
            AtomKind::Impl
        } else if str_eq(s, "enum") {
            AtomKind::Enum
        } else if str_eq(s, "type_alias") {
            AtomKind::TypeAlias
        } else if str_eq(s, "const") {
            AtomKind::Const
        } else if str_eq(s, "static") {
            AtomKind::Static
        } else if str_eq(s, "macro") {
            AtomKind::Macro
        } else {
            AtomKind::Other(s.to_owned())
        }
    }
}

/// Parsing a name and printing it again gives the name back, whatever it is.
pub proof fn law_atom_kind_text_of_parsed(s: Seq<char>)
    ensures
        AtomKindView::parsed(s).text() == s,
{
}

/// Printing a kind and parsing it again gives the kind back, unless it is an
/// unlisted kind that carries the name of a listed one.
pub proof fn law_atom_kind_parsed_of_text(k: AtomKindView)
    requires
        k matches AtomKindView::Other(s) ==> AtomKindView::parsed(s) is Other,
    ensures
        AtomKindView::parsed(k.text()) == k,
{
    reveal_strlit("function");
    reveal_strlit("module");
    reveal_strlit("struct");
    reveal_strlit("trait");
    reveal_strlit("impl");
    reveal_strlit("enum");
    reveal_strlit("type_alias");
    reveal_strlit("const");
    reveal_strlit("static");
    reveal_strlit("macro");
    assert("function"@.len() == 8 && "module"@.len() == 6 && "struct"@.len() == 6);
    assert("trait"@.len() == 5 && "impl"@.len() == 4 && "enum"@.len() == 4);
    assert("type_alias"@.len() == 10 && "const"@.len() == 5 && "static"@.len() == 6);
    assert("macro"@.len() == 5);
    assert("struct"@[2] != "static"@[2]);
    assert("module"@[0] != "struct"@[0]);
    assert("module"@[0] != "static"@[0]);
    assert("trait"@[0] != "const"@[0]);
    assert("trait"@[0] != "macro"@[0]);
    assert("const"@[0] != "macro"@[0]);
    assert("impl"@[0] != "enum"@[0]);
}

// ── Call site ────────────────────────────────────────────────────────────────

/// One call site in an atom's body: what it calls, where, and under what
/// control flow.
#[derive(Debug, PartialEq, Eq)]
pub struct CallSite {
    /// Resolver-eligible name: a bare identifier, or a qualified
    /// `module::foo` / `Owner::method` path.
    pub name: String,
    /// Position in the enclosing body, in source order, 0-based.
    pub rank: u16,
    /// Control-flow context: a union of the [`crate::call_flags`] bits.
    pub flags: u8,
}

/// What a [`CallSite`] holds.
#[verifier::ext_equal]
pub struct CallSiteView {
    pub name: Seq<char>,
    pub rank: u16,
    pub flags: u8,
}

impl DeepView for CallSite {
    type V = CallSiteView;

    open spec fn deep_view(&self) -> CallSiteView {
        CallSiteView { name: self.name@, rank: self.rank, flags: self.flags }
    }
}

impl Clone for CallSite {
    fn clone(&self) -> (r: Self)
        ensures
            r.deep_view() == self.deep_view(),
    {
        CallSite { name: self.name.clone(), rank: self.rank, flags: self.flags }
    }
}

impl CallSite {
    /// A call site with no recorded context.
    pub fn bare(name: &str) -> (r: Self)
        ensures
            r.deep_view() == (CallSiteView { name: name@, rank: 0, flags: 0 }),
    {
        CallSite { name: name.to_owned(), rank: 0, flags: 0 }
    }

    /// Whether this site carries one of the bits of `flag`.
    pub fn has(&self, flag: u8) -> (r: bool)
        ensures
            r == (self.flags & flag != 0),
    {
        self.flags & flag != 0
    }
}

/// Whether a flag byte can be left out of a stored call site.
pub fn is_zero(v: &u8) -> (r: bool)
    ensures
        r == (*v == 0),
{
    *v == 0
}

/// The copies of a list of call sites.
pub fn clone_sites(sites: &Vec<CallSite>) -> (r: Vec<CallSite>)
    ensures
        r.deep_view() == sites.deep_view(),
{
    let r = sites.clone();
    assert(r.deep_view() =~= sites.deep_view());
    r
}

// ── Code atom ────────────────────────────────────────────────────────────────

/// A single named code entity parsed from a source file.
#[derive(Debug)]
pub struct CodeAtom {
    /// Globally unique identifier (e.g. `code:src/lib.rs::function::foo`).
    pub id: EntityId,
    /// Coarse kind.
    pub kind: String,
    /// Short display name (e.g. `foo`).
    pub name: String,
    /// Source file path relative to the analyzed root.
    pub file_path: String,
    /// First line of the definition (1-based).
    pub line_start: u32,
    /// Last line of the definition (1-based).
    pub line_end: u32,
    /// Doc comment or docstring (may be empty).
    pub doc: String,
    /// Declaration signature (e.g. `pub fn foo(x: u32) -> bool`).
    pub signature: String,
    /// Hash of the atom's source text: in hex for a module, and behind
    /// `sha256:` for other atoms.
    pub content_hash: String,
    /// Call sites in this atom's body, in source order, repeats included.
    pub calls: Vec<CallSite>,
    /// Receiver-style call sites (`obj.method()`). Their ranks share one
    /// sequence with `calls`.
    pub method_calls: Vec<CallSite>,
    /// Type owner of a method; `None` for free functions and other items.
    pub parent: Option<String>,
}

/// What a [`CodeAtom`] holds.
#[verifier::ext_equal]
pub struct AtomView {
    pub id: Seq<char>,
    pub kind: Seq<char>,
    pub name: Seq<char>,
    pub file_path: Seq<char>,
    pub line_start: u32,
    pub line_end: u32,
    pub doc: Seq<char>,
    pub signature: Seq<char>,
    pub content_hash: Seq<char>,
    pub calls: Seq<CallSiteView>,
    pub method_calls: Seq<CallSiteView>,
    pub parent: Option<Seq<char>>,
}

impl DeepView for CodeAtom {
    type V = AtomView;

    open spec fn deep_view(&self) -> AtomView {
        AtomView {
            id: self.id@,
            kind: self.kind@,
            name: self.name@,
            file_path: self.file_path@,
            line_start: self.line_start,
            line_end: self.line_end,
            doc: self.doc@,
            signature: self.signature@,
            content_hash: self.content_hash@,
            calls: self.calls.deep_view(),
            method_calls: self.method_calls.deep_view(),
            parent: self.parent.deep_view(),
        }
    }
}

impl Clone for CodeAtom {
    fn clone(&self) -> (r: Self)
        ensures
            r.deep_view() == self.deep_view(),
    {
        CodeAtom {
            id: self.id.clone(),
            kind: self.kind.clone(),
            name: self.name.clone(),
            file_path: self.file_path.clone(),
            line_start: self.line_start,
            line_end: self.line_end,
            doc: self.doc.clone(),
            signature: self.signature.clone(),
            content_hash: self.content_hash.clone(),
            calls: clone_sites(&self.calls),
            method_calls: clone_sites(&self.method_calls),
            parent: clone_opt(&self.parent),
        }
    }
}

/// The copy of an optional string.
pub fn clone_opt(s: &Option<String>) -> (r: Option<String>)
    ensures
        r.deep_view() == s.deep_view(),
{
    match s {
        Some(t) => Some(t.clone()),
        None => None,
    }
}

/// The copies of a list of atoms.
pub fn clone_atoms(atoms: &Vec<CodeAtom>) -> (r: Vec<CodeAtom>)
    ensures
        r.deep_view() == atoms.deep_view(),
{
    let r = atoms.clone();
    assert(r.deep_view() =~= atoms.deep_view());
    r
}

// ── Edges ────────────────────────────────────────────────────────────────────

/// What a directed edge means.
#[derive(Debug, Clone, Copy, PartialEq, Eq, Hash, Structural)]
pub enum EdgeKind {
    /// `from` calls `to`.
    Calls,
    /// `from` uses the type or value `to`.
    Uses,
    /// `from` implements `to`.
    Implements,
    /// `from` contains `to` (module to item).
    Contains,
}

impl EdgeKind {
    /// The canonical lower-case name.
    pub open spec fn text(self) -> Seq<char> {
        match self {
            EdgeKind::Calls => "calls"@,
            EdgeKind::Uses => "uses"@,
            EdgeKind::Implements => "implements"@,
            EdgeKind::Contains => "contains"@,
        }
    }

    /// The kind with the given name; unknown names mean `Uses`.
    pub open spec fn parsed(s: Seq<char>) -> Self {
        if s == "calls"@ {
            EdgeKind::Calls
        } else if s == "implements"@ {
            EdgeKind::Implements
        } else if s == "contains"@ {
            EdgeKind::Contains
        } else {
            EdgeKind::Uses
        }
    }

    /// Lower-case canonical string.
    pub fn as_str(&self) -> (r: &'static str)
        ensures
            r@ == self.text(),
    {
        match self {
            EdgeKind::Calls => "calls",
            EdgeKind::Uses => "uses",
            EdgeKind::Implements => "implements",
            EdgeKind::Contains => "contains",
        }
    }

    /// The kind as displayed: its canonical string.
    pub fn to_string(&self) -> (r: String)
        ensures
            r@ == self.text(),
    {
        self.as_str().to_owned()
    }

    /// The kind with the given name. Unknown names map to `Uses`.
    pub fn parse(s: &str) -> (r: Self)
        ensures
            r == EdgeKind::parsed(s@),
    {
        if str_eq(s, "calls") {
            EdgeKind::Calls
        } else if str_eq(s, "implements") {
            EdgeKind::Implements
        } else if str_eq(s, "contains") {
            EdgeKind::Contains
        } else {
            EdgeKind::Uses
        }
    }
}

/// Printing an edge kind and parsing it again gives the kind back.
pub proof fn law_edge_kind_parsed_of_text(k: EdgeKind)
    ensures
        EdgeKind::parsed(k.text()) == k,
{
    reveal_strlit("calls");
    reveal_strlit("uses");
    reveal_strlit("implements");
    reveal_strlit("contains");
    assert("calls"@.len() == 5 && "uses"@.len() == 4);
    assert("implements"@.len() == 10 && "contains"@.len() == 8);
}

/// A directed edge between two atoms.
#[derive(Debug)]
pub struct Edge {
    /// Source atom.
    pub from: EntityId,
    /// Target atom.
    pub to: EntityId,
    /// Relationship kind.
    pub kind: EdgeKind,
    /// Optional role label (e.g. field name for a `Uses` edge).
    pub role: Option<String>,
    /// For a `Calls` edge: the ranks of the call sites that produced it,
    /// ascending. Empty means unknown.
    pub sites: Vec<u16>,
}

/// What an [`Edge`] holds.
#[verifier::ext_equal]
pub struct EdgeView {
    pub from: Seq<char>,
    pub to: Seq<char>,
    pub kind: EdgeKind,
    pub role: Option<Seq<char>>,
    pub sites: Seq<u16>,
}

impl EdgeView {
    /// An edge without role and sites.
    pub open spec fn plain(from: Seq<char>, to: Seq<char>, kind: EdgeKind) -> EdgeView {
        EdgeView { from, to, kind, role: None, sites: Seq::empty() }
    }
}

impl DeepView for Edge {
    type V = EdgeView;

    open spec fn deep_view(&self) -> EdgeView {
        EdgeView {
            from: self.from@,
            to: self.to@,
            kind: self.kind,
            role: self.role.deep_view(),
            sites: self.sites@,
        }
    }
}

impl Clone for Edge {
    fn clone(&self) -> (r: Self)
        ensures
            r.deep_view() == self.deep_view(),
    {
        let sites = self.sites.clone();
        assert(sites@ =~= self.sites@);
        Edge {
            from: self.from.clone(),
            to: self.to.clone(),
            kind: self.kind,
            role: clone_opt(&self.role),
            sites,
        }
    }
}

impl Edge {
    /// An edge with no role and no sites.
    pub fn new(from: EntityId, to: EntityId, kind: EdgeKind) -> (r: Self)
        ensures
            r.deep_view() == EdgeView::plain(from@, to@, kind),
    {
        let r = Edge { from, to, kind, role: None, sites: Vec::new() };
        assert(r.sites@ =~= Seq::<u16>::empty());
        r
    }

    /// A `Calls` edge that remembers the call sites it came from.
    pub fn calls_from_sites(from: EntityId, to: EntityId, sites: Vec<u16>) -> (r: Self)
        ensures
            r.deep_view() == (EdgeView {
                from: from@,
                to: to@,
                kind: EdgeKind::Calls,
                role: None,
                sites: sites@,
            }),
    {
        Edge { from, to, kind: EdgeKind::Calls, role: None, sites }
    }
}

/// The copies of a list of edges.
pub fn clone_edges(edges: &Vec<Edge>) -> (r: Vec<Edge>)
    ensures
        r.deep_view() == edges.deep_view(),
{
    let r = edges.clone();
    assert(r.deep_view() =~= edges.deep_view());
    r
}

} // verus!
