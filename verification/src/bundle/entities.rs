//! The artifacts of the entities of a project: a diagram, the metadata and a
//! row of the index for each.

use crate::bundle::files::{sanitize_id, sanitized};
use crate::chars::{dec, push_decimal};
use crate::graph::catalog::{
    lemma_position_of, neighbors_of, node, Atom, AtomEntry, Catalog, CatalogView, Direction,
};
use crate::keys::{lists_keys, sort_keys, sorted_keys};
use crate::render::lines::{lemma_lines_step, lines};
use crate::render::util::{escape_label, escaped, id_text, mermaid_id};
use crate::text::str_eq;
use vstd::prelude::*;
use vstd::string::*;

verus! {

// ── Types ────────────────────────────────────────────────────────────────────

/// A neighbour as the metadata shows it.
#[derive(Debug)]
pub struct NeighborMeta {
    /// Id of the neighbour.
    pub id: String,
}

impl DeepView for NeighborMeta {
    type V = Seq<char>;

    open spec fn deep_view(&self) -> Seq<char> {
        self.id@
    }
}

/// The metadata of one entity.
#[derive(Debug)]
pub struct EntityMeta {
    pub id: String,
    pub kind: String,
    pub name: String,
    pub file: String,
    pub line_start: u64,
    pub line_end: u64,
    pub signature: String,
    pub doc: String,
    pub content_hash: String,
    pub callers: Vec<NeighborMeta>,
    pub callees: Vec<NeighborMeta>,
    pub children: Vec<NeighborMeta>,
}

/// What an [`EntityMeta`] holds.
#[verifier::ext_equal]
pub struct MetaView {
    pub id: Seq<char>,
    pub kind: Seq<char>,
    pub name: Seq<char>,
    pub file: Seq<char>,
    pub line_start: u64,
    pub line_end: u64,
    pub signature: Seq<char>,
    pub doc: Seq<char>,
    pub content_hash: Seq<char>,
    pub callers: Seq<Seq<char>>,
    pub callees: Seq<Seq<char>>,
    pub children: Seq<Seq<char>>,
}

impl DeepView for EntityMeta {
    type V = MetaView;

    open spec fn deep_view(&self) -> MetaView {
        MetaView {
            id: self.id@,
            kind: self.kind@,
            name: self.name@,
            file: self.file@,
            line_start: self.line_start,
            line_end: self.line_end,
            signature: self.signature@,
            doc: self.doc@,
            content_hash: self.content_hash@,
            callers: self.callers.deep_view(),
            callees: self.callees.deep_view(),
            children: self.children.deep_view(),
        }
    }
}

/// One row of the index.
#[derive(Debug)]
pub struct IndexEntry {
    pub id: String,
    pub kind: String,
    pub name: String,
    pub file: String,
    pub mmd_path: String,
    pub meta_path: String,
    /// Target and kind of each outgoing relation.
    pub edges_out: Vec<(String, String)>,
    /// Source and kind of each incoming relation.
    pub edges_in: Vec<(String, String)>,
}

/// What an [`IndexEntry`] holds.
#[verifier::ext_equal]
pub struct IndexEntryView {
    pub id: Seq<char>,
    pub kind: Seq<char>,
    pub name: Seq<char>,
    pub file: Seq<char>,
    pub mmd_path: Seq<char>,
    pub meta_path: Seq<char>,
    pub edges_out: Seq<(Seq<char>, Seq<char>)>,
    pub edges_in: Seq<(Seq<char>, Seq<char>)>,
}

impl DeepView for IndexEntry {
    type V = IndexEntryView;

    open spec fn deep_view(&self) -> IndexEntryView {
        IndexEntryView {
            id: self.id@,
            kind: self.kind@,
            name: self.name@,
            file: self.file@,
            mmd_path: self.mmd_path@,
            meta_path: self.meta_path@,
            edges_out: self.edges_out.deep_view(),
            edges_in: self.edges_in.deep_view(),
        }
    }
}

/// The artifacts of one entity.
#[derive(Debug)]
pub struct EntityRecord {
    pub id: String,
    /// Mermaid source, headed by comments that name the entity.
    pub mmd: String,
    pub meta: EntityMeta,
}

/// What an [`EntityRecord`] holds.
#[verifier::ext_equal]
pub struct EntityRecordView {
    pub id: Seq<char>,
    pub mmd: Seq<char>,
    pub meta: MetaView,
}

impl DeepView for EntityRecord {
    type V = EntityRecordView;

    open spec fn deep_view(&self) -> EntityRecordView {
        EntityRecordView { id: self.id@, mmd: self.mmd@, meta: self.meta.deep_view() }
    }
}

// ── What the artifacts of an entity are ──────────────────────────────────────

/// Whether entities of a kind have artifacts.
pub open spec fn entity_kind(kind: Seq<char>) -> bool {
    kind == "module"@ || kind == "function"@ || kind == "struct"@ || kind == "trait"@ || kind
        == "impl"@ || kind == "enum"@
}

/// The ids of the atoms that have artifacts.
pub open spec fn entity_ids(atoms: Seq<AtomEntry>) -> Seq<Seq<char>>
    decreases atoms.len(),
{
    if atoms.len() == 0 {
        Seq::empty()
    } else {
        let front = entity_ids(atoms.drop_last());
        if entity_kind(atoms.last().kind) {
            front.push(atoms.last().id)
        } else {
            front
        }
    }
}

/// The neighbours by relations of one kind.
pub open spec fn by_kind(ns: Seq<(Seq<char>, Seq<char>)>, kind: Seq<char>) -> Seq<Seq<char>>
    decreases ns.len(),
{
    if ns.len() == 0 {
        Seq::empty()
    } else {
        let front = by_kind(ns.drop_last(), kind);
        if ns.last().1 == kind {
            front.push(ns.last().0)
        } else {
            front
        }
    }
}

/// An optional text, empty where there is none.
pub open spec fn text_or_empty(o: Option<Seq<char>>) -> Seq<char> {
    match o {
        Some(s) => s,
        None => Seq::empty(),
    }
}

/// An optional line, 0 where there is none.
pub open spec fn line_or_zero(o: Option<u64>) -> u64 {
    match o {
        Some(n) => n,
        None => 0,
    }
}

/// The line of an incoming relation in the diagram of an entity.
pub open spec fn incoming_line(name: Seq<char>) -> spec_fn((Seq<char>, Seq<char>)) -> Seq<char> {
    |n: (Seq<char>, Seq<char>)|
        "    "@ + id_text(n.0) + "[\""@ + escaped(n.0) + "\"] -->|\""@ + n.1 + "\"| "@ + id_text(
            name,
        ) + "\n"@
}

/// The line of an outgoing relation in the diagram of an entity.
pub open spec fn outgoing_line(name: Seq<char>) -> spec_fn((Seq<char>, Seq<char>)) -> Seq<char> {
    |n: (Seq<char>, Seq<char>)|
        "    "@ + id_text(name) + " -->|\""@ + n.1 + "\"| "@ + id_text(n.0) + "[\""@ + escaped(n.0)
            + "\"]\n"@
}

/// The comment that names the source of an entity; nothing where the file is
/// not known.
pub open spec fn file_comment(file: Seq<char>, line_start: u64, line_end: u64) -> Seq<char> {
    if file.len() == 0 {
        Seq::empty()
    } else {
        "%% file: "@ + file + ":"@ + dec(line_start as nat) + "-"@ + dec(line_end as nat) + "\n"@
    }
}

/// The diagram of one entity: its node, and its neighbours in both directions.
pub open spec fn entity_text(
    id: Seq<char>,
    kind: Seq<char>,
    name: Seq<char>,
    file: Seq<char>,
    line_start: u64,
    line_end: u64,
    outs: Seq<(Seq<char>, Seq<char>)>,
    ins: Seq<(Seq<char>, Seq<char>)>,
) -> Seq<char> {
    "%% id: "@ + id + "\n%% kind: "@ + kind + "\n"@ + file_comment(file, line_start, line_end)
        + "graph TD\n    "@ + id_text(name) + "[\""@ + escaped(name) + "\"]\n"@ + lines(
        ins,
        incoming_line(name),
    ) + lines(outs, outgoing_line(name))
}

/// The artifacts of an atom.
pub open spec fn record_of(c: CatalogView, a: AtomEntry) -> EntityRecordView {
    let outs = neighbors_of(c.relations, a.id, Direction::Outgoing);
    let ins = neighbors_of(c.relations, a.id, Direction::Incoming);
    EntityRecordView {
        id: a.id,
        mmd: entity_text(
            a.id,
            a.kind,
            a.name,
            text_or_empty(a.file_path),
            line_or_zero(a.line_start),
            line_or_zero(a.line_end),
            outs,
            ins,
        ),
        meta: MetaView {
            id: a.id,
            kind: a.kind,
            name: a.name,
            file: text_or_empty(a.file_path),
            line_start: line_or_zero(a.line_start),
            line_end: line_or_zero(a.line_end),
            signature: text_or_empty(a.signature),
            doc: text_or_empty(a.doc),
            content_hash: a.content_hash,
            callers: by_kind(ins, "calls"@),
            callees: by_kind(outs, "calls"@),
            children: by_kind(outs, "contains"@),
        },
    }
}

/// The row of an atom in the index.
pub open spec fn entry_of(c: CatalogView, a: AtomEntry) -> IndexEntryView {
    IndexEntryView {
        id: a.id,
        kind: a.kind,
        name: a.name,
        file: text_or_empty(a.file_path),
        mmd_path: "entities/"@ + sanitized(a.id) + ".mmd"@,
        meta_path: "entities/"@ + sanitized(a.id) + ".meta.json"@,
        edges_out: neighbors_of(c.relations, a.id, Direction::Outgoing),
        edges_in: neighbors_of(c.relations, a.id, Direction::Incoming),
    }
}

/// The artifacts of the atoms with the given ids.
pub open spec fn records_of(c: CatalogView, ids: Seq<Seq<char>>) -> Seq<EntityRecordView> {
    Seq::new(ids.len(), |i: int| record_of(c, node(c.atoms, ids[i])->0))
}

/// The rows of the atoms with the given ids.
pub open spec fn entries_of(c: CatalogView, ids: Seq<Seq<char>>) -> Seq<IndexEntryView> {
    Seq::new(ids.len(), |i: int| entry_of(c, node(c.atoms, ids[i])->0))
}

/// Each id that has artifacts is the id of an atom.
proof fn lemma_entity_known(atoms: Seq<AtomEntry>, id: Seq<char>)
    requires
        entity_ids(atoms).contains(id),
    ensures
        node(atoms, id) is Some,
{
    lemma_entity_index(atoms, id);
    lemma_position_of(atoms, id);
}

proof fn lemma_entity_index(atoms: Seq<AtomEntry>, id: Seq<char>)
    requires
        entity_ids(atoms).contains(id),
    ensures
        exists|i: int| 0 <= i < atoms.len() && (#[trigger] atoms[i]).id == id,
    decreases atoms.len(),
{
    if atoms.len() > 0 {
        let before = atoms.drop_last();
        let front = entity_ids(before);
        let k = choose|k: int| 0 <= k < entity_ids(atoms).len() && entity_ids(atoms)[k] == id;
        if k < front.len() {
            assert(front[k] == id);
            lemma_entity_index(before, id);
            let i = choose|i: int| 0 <= i < before.len() && (#[trigger] before[i]).id == id;
            assert(atoms[i] == before[i]);
        } else {
            assert(atoms[atoms.len() - 1].id == id);
        }
    }
}

// ── Collecting ───────────────────────────────────────────────────────────────

/// A neighbour as the metadata shows it: by its id.
pub fn neighbor_meta(neighbour_id: &str) -> (r: NeighborMeta)
    ensures
        r.deep_view() == neighbour_id@,
{
    NeighborMeta { id: neighbour_id.to_owned() }
}

/// The neighbours by relations of one kind.
fn neighbors_by_kind(ns: &Vec<(String, String)>, kind: &str) -> (r: Vec<NeighborMeta>)
    ensures
        r.deep_view() == by_kind(ns.deep_view(), kind@),
{
    let ghost v = ns.deep_view();
    let mut out: Vec<NeighborMeta> = Vec::new();
    let mut i: usize = 0;
    assert(v.take(0) =~= Seq::<(Seq<char>, Seq<char>)>::empty());
    assert(out.deep_view() =~= Seq::<Seq<char>>::empty());
    while i < ns.len()
        invariant
            i <= ns.len(),
            v == ns.deep_view(),
            out.deep_view() == by_kind(v.take(i as int), kind@),
        decreases ns.len() - i,
    {
        let ghost had = out.deep_view();
        assert(v[i as int] == ns[i as int].deep_view());
        assert(v.take(i + 1).drop_last() =~= v.take(i as int));
        assert(v.take(i + 1).last() == v[i as int]);
        if str_eq(ns[i].1.as_str(), kind) {
            out.push(neighbor_meta(ns[i].0.as_str()));
            assert(out.deep_view() =~= had.push(v[i as int].0));
        }
        i += 1;
    }
    assert(v.take(ns.len() as int) =~= v);
    out
}

/// A copy of a list of pairs.
fn clone_pairs(ps: &Vec<(String, String)>) -> (r: Vec<(String, String)>)
    ensures
        r.deep_view() == ps.deep_view(),
{
    let mut out: Vec<(String, String)> = Vec::new();
    let mut i: usize = 0;
    assert(out.deep_view() =~= ps.deep_view().take(0));
    while i < ps.len()
        invariant
            i <= ps.len(),
            out.deep_view() == ps.deep_view().take(i as int),
        decreases ps.len() - i,
    {
        let ghost had = out.deep_view();
        out.push((ps[i].0.clone(), ps[i].1.clone()));
        assert(out.deep_view() =~= had.push(ps.deep_view()[i as int]));
        i += 1;
        assert(out.deep_view() =~= ps.deep_view().take(i as int));
    }
    assert(ps.deep_view().take(ps.len() as int) =~= ps.deep_view());
    out
}

/// An optional text, empty where there is none.
fn or_empty(o: &Option<String>) -> (r: String)
    ensures
        r@ == text_or_empty(crate::graph::catalog::opt_text(*o)),
{
    match o {
        Some(s) => s.clone(),
        None => {
            let none = String::new();
            assert(none@ =~= Seq::<char>::empty());
            none
        },
    }
}

/// Draws one entity with its neighbours.
pub fn render_entity_mmd(
    id: &str,
    kind: &str,
    name: &str,
    file: &str,
    line_start: u64,
    line_end: u64,
    outs: &Vec<(String, String)>,
    ins: &Vec<(String, String)>,
) -> (r: String)
    ensures
        r@ == entity_text(
            id@,
            kind@,
            name@,
            file@,
            line_start,
            line_end,
            outs.deep_view(),
            ins.deep_view(),
        ),
{
    let mut out = "%% id: ".to_owned();
    out.append(id);
    out.append("\n%% kind: ");
    out.append(kind);
    out.append("\n");
    let ghost head = out@;
    if !file.is_empty() {
        out.append("%% file: ");
        out.append(file);
        out.append(":");
        push_decimal(&mut out, line_start);
        out.append("-");
        push_decimal(&mut out, line_end);
        out.append("\n");
    }
    assert(out@ =~= head + file_comment(file@, line_start, line_end));
    let self_id = mermaid_id(name);
    out.append("graph TD\n    ");
    out.append(self_id.as_str());
    out.append("[\"");
    out.append(escape_label(name).as_str());
    out.append("\"]\n");
    let ghost top = out@;
    let ghost xs = ins.deep_view();
    let ghost f = incoming_line(name@);
    let mut i: usize = 0;
    assert(xs.take(0) =~= Seq::<(Seq<char>, Seq<char>)>::empty());
    assert(out@ =~= top + Seq::<char>::empty());
    while i < ins.len()
        invariant
            i <= ins.len(),
            xs == ins.deep_view(),
            f == incoming_line(name@),
            self_id@ == id_text(name@),
            out@ == top + lines(xs.take(i as int), f),
        decreases ins.len() - i,
    {
        let ghost before = out@;
        proof {
            lemma_lines_step(xs, f, i as int);
            assert(xs[i as int] == ins[i as int].deep_view());
        }
        out.append("    ");
        out.append(mermaid_id(ins[i].0.as_str()).as_str());
        out.append("[\"");
        out.append(escape_label(ins[i].0.as_str()).as_str());
        out.append("\"] -->|\"");
        out.append(ins[i].1.as_str());
        out.append("\"| ");
        out.append(self_id.as_str());
        out.append("\n");
        assert(out@ =~= before + f(xs[i as int]));
        i += 1;
        assert(out@ =~= top + lines(xs.take(i as int), f));
    }
    assert(xs.take(ins.len() as int) =~= xs);
    let ghost mid = out@;
    let ghost ys = outs.deep_view();
    let ghost g = outgoing_line(name@);
    let mut i: usize = 0;
    assert(ys.take(0) =~= Seq::<(Seq<char>, Seq<char>)>::empty());
    assert(out@ =~= mid + Seq::<char>::empty());
    while i < outs.len()
        invariant
            i <= outs.len(),
            ys == outs.deep_view(),
            g == outgoing_line(name@),
            self_id@ == id_text(name@),
            out@ == mid + lines(ys.take(i as int), g),
        decreases outs.len() - i,
    {
        let ghost before = out@;
        proof {
            lemma_lines_step(ys, g, i as int);
            assert(ys[i as int] == outs[i as int].deep_view());
        }
        out.append("    ");
        out.append(self_id.as_str());
        out.append(" -->|\"");
        out.append(outs[i].1.as_str());
        out.append("\"| ");
        out.append(mermaid_id(outs[i].0.as_str()).as_str());
        out.append("[\"");
        out.append(escape_label(outs[i].0.as_str()).as_str());
        out.append("\"]\n");
        assert(out@ =~= before + g(ys[i as int]));
        i += 1;
        assert(out@ =~= mid + lines(ys.take(i as int), g));
    }
    assert(ys.take(outs.len() as int) =~= ys);
    out
}

/// The artifacts of an atom with the given neighbours.
fn entity_record(
    atom: &Atom,
    outs: &Vec<(String, String)>,
    ins: &Vec<(String, String)>,
    c: Ghost<CatalogView>,
) -> (r: EntityRecord)
    requires
        outs.deep_view() == neighbors_of(
            c@.relations,
            atom.deep_view().id,
            Direction::Outgoing,
        ),
        ins.deep_view() == neighbors_of(c@.relations, atom.deep_view().id, Direction::Incoming),
    ensures
        r.deep_view() == record_of(c@, atom.deep_view()),
{
    let file = or_empty(&atom.file_path);
    let line_start: u64 = match atom.line_start {
        Some(n) => n,
        None => 0,
    };
    let line_end: u64 = match atom.line_end {
        Some(n) => n,
        None => 0,
    };
    let mmd = render_entity_mmd(
        atom.id.as_str(),
        atom.kind.as_str(),
        atom.name.as_str(),
        file.as_str(),
        line_start,
        line_end,
        outs,
        ins,
    );
    let meta = EntityMeta {
        id: atom.id.clone(),
        kind: atom.kind.clone(),
        name: atom.name.clone(),
        file,
        line_start,
        line_end,
        signature: or_empty(&atom.signature),
        doc: or_empty(&atom.doc),
        content_hash: atom.content_hash.clone(),
        callers: neighbors_by_kind(ins, "calls"),
        callees: neighbors_by_kind(outs, "calls"),
        children: neighbors_by_kind(outs, "contains"),
    };
    EntityRecord { id: atom.id.clone(), mmd, meta }
}

/// The row of an atom with the given neighbours.
fn index_entry(
    atom: &Atom,
    outs: &Vec<(String, String)>,
    ins: &Vec<(String, String)>,
    c: Ghost<CatalogView>,
) -> (r: IndexEntry)
    requires
        outs.deep_view() == neighbors_of(
            c@.relations,
            atom.deep_view().id,
            Direction::Outgoing,
        ),
        ins.deep_view() == neighbors_of(c@.relations, atom.deep_view().id, Direction::Incoming),
    ensures
        r.deep_view() == entry_of(c@, atom.deep_view()),
{
    let stem = sanitize_id(atom.id.as_str());
    IndexEntry {
        id: atom.id.clone(),
        kind: atom.kind.clone(),
        name: atom.name.clone(),
        file: or_empty(&atom.file_path),
        mmd_path: "entities/".to_owned().concat(stem.as_str()).concat(".mmd"),
        meta_path: "entities/".to_owned().concat(stem.as_str()).concat(".meta.json"),
        edges_out: clone_pairs(outs),
        edges_in: clone_pairs(ins),
    }
}

/// The ids of the atoms that have artifacts.
fn collect_ids(atoms: &Vec<Atom>) -> (r: Vec<String>)
    ensures
        r.deep_view() == entity_ids(atoms.deep_view()),
{
    let ghost v = atoms.deep_view();
    let mut out: Vec<String> = Vec::new();
    let mut i: usize = 0;
    assert(v.take(0) =~= Seq::<AtomEntry>::empty());
    assert(out.deep_view() =~= Seq::<Seq<char>>::empty());
    while i < atoms.len()
        invariant
            i <= atoms.len(),
            v == atoms.deep_view(),
            out.deep_view() == entity_ids(v.take(i as int)),
        decreases atoms.len() - i,
    {
        let ghost had = out.deep_view();
        assert(v[i as int] == atoms[i as int].deep_view());
        assert(v.take(i + 1).drop_last() =~= v.take(i as int));
        assert(v.take(i + 1).last() == v[i as int]);
        let kind = atoms[i].kind.as_str();
        if str_eq(kind, "module") || str_eq(kind, "function") || str_eq(kind, "struct") || str_eq(
            kind,
            "trait",
        ) || str_eq(kind, "impl") || str_eq(kind, "enum") {
            out.push(atoms[i].id.clone());
            assert(out.deep_view() =~= had.push(v[i as int].id));
        }
        i += 1;
    }
    assert(v.take(atoms.len() as int) =~= v);
    out
}

/// The artifacts and the index rows of all entities, in ascending order of
/// their ids.
pub fn collect_entities(catalog: &Catalog) -> (r: (Vec<EntityRecord>, Vec<IndexEntry>))
    ensures
        r.0.deep_view() == records_of(
            catalog@,
            sorted_keys::<String>(entity_ids(catalog@.atoms)),
        ),
        r.1.deep_view() == entries_of(
            catalog@,
            sorted_keys::<String>(entity_ids(catalog@.atoms)),
        ),
{
    let ghost c = catalog@;
    let atoms = catalog.atoms();
    let all_ids = collect_ids(atoms);
    let ids = sort_keys(&all_ids);
    let ghost v = ids.deep_view();
    let outgoing = catalog.neighbor_lists(Direction::Outgoing);
    let incoming = catalog.neighbor_lists(Direction::Incoming);
    let mut entities: Vec<EntityRecord> = Vec::new();
    let mut entries: Vec<IndexEntry> = Vec::new();
    let mut i: usize = 0;
    assert(entities.deep_view() =~= records_of(c, v).take(0));
    assert(entries.deep_view() =~= entries_of(c, v).take(0));
    while i < ids.len()
        invariant
            i <= ids.len(),
            c == catalog@,
            v == ids.deep_view(),
            lists_keys::<String>(v, entity_ids(c.atoms)),
            atoms.deep_view() == c.atoms,
            outgoing.len() == c.atoms.len(),
            incoming.len() == c.atoms.len(),
            forall|k: int|
                0 <= k < outgoing.len() ==> (#[trigger] outgoing@[k]).deep_view() == neighbors_of(
                    c.relations,
                    c.atoms[k].id,
                    Direction::Outgoing,
                ),
            forall|k: int|
                0 <= k < incoming.len() ==> (#[trigger] incoming@[k]).deep_view() == neighbors_of(
                    c.relations,
                    c.atoms[k].id,
                    Direction::Incoming,
                ),
            entities.deep_view() == records_of(c, v).take(i as int),
            entries.deep_view() == entries_of(c, v).take(i as int),
        decreases ids.len() - i,
    {
        let ghost had = entities.deep_view();
        let ghost had_entries = entries.deep_view();
        proof {
            assert(v[i as int] == ids[i as int]@);
            assert(v.contains(v[i as int]));
            assert(entity_ids(c.atoms).contains(v[i as int]));
            lemma_entity_known(c.atoms, v[i as int]);
            lemma_position_of(c.atoms, v[i as int]);
        }
        if let Some(p) = catalog.position(ids[i].as_str()) {
            assert(atoms.deep_view()[p as int] == atoms[p as int].deep_view());
            let record = entity_record(&atoms[p], &outgoing[p], &incoming[p], Ghost(c));
            let entry = index_entry(&atoms[p], &outgoing[p], &incoming[p], Ghost(c));
            let ghost rv = record.deep_view();
            let ghost ev = entry.deep_view();
            entities.push(record);
            entries.push(entry);
            assert(entities.deep_view() =~= had.push(rv));
            assert(entries.deep_view() =~= had_entries.push(ev));
        }
        i += 1;
        assert(entities.deep_view() =~= records_of(c, v).take(i as int));
        assert(entries.deep_view() =~= entries_of(c, v).take(i as int));
    }
    assert(records_of(c, v).take(ids.len() as int) =~= records_of(c, v));
    assert(entries_of(c, v).take(ids.len() as int) =~= entries_of(c, v));
    (entities, entries)
}

} // verus!
