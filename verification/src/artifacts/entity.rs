//! The diagram and the metadata of one entity.

use crate::chars::{after_last, dec, last_part, push_decimal, trim, trimmed};
use crate::graph::memory::{
    edges_in, edges_out, of_kind, sources, sources_of_kind, targets, targets_of_kind, Store,
};
use crate::model::{AtomView, CodeAtom, EdgeKind, EdgeView, EntityId};
use crate::render::lines::{lemma_lines_step, lines};
use crate::render::util::{char_is_alphanumeric, escape_label, escaped, id_char, is_alphanumeric, mermaid_id_char};
use crate::text::{chars_of, str_eq};
use vstd::prelude::*;
use vstd::string::*;

verus! {

// ── Neighbours ───────────────────────────────────────────────────────────────

/// The neighbours of an entity, by the kind and the direction of its edges.
pub struct Adjacency {
    pub callers: Vec<EntityId>,
    pub callees: Vec<EntityId>,
    pub children: Vec<EntityId>,
    pub uses_out: Vec<EntityId>,
    pub uses_in: Vec<EntityId>,
    pub implements_out: Vec<EntityId>,
    pub implements_in: Vec<EntityId>,
}

/// What an [`Adjacency`] holds.
#[verifier::ext_equal]
pub struct AdjacencyView {
    pub callers: Seq<Seq<char>>,
    pub callees: Seq<Seq<char>>,
    pub children: Seq<Seq<char>>,
    pub uses_out: Seq<Seq<char>>,
    pub uses_in: Seq<Seq<char>>,
    pub implements_out: Seq<Seq<char>>,
    pub implements_in: Seq<Seq<char>>,
}

impl DeepView for Adjacency {
    type V = AdjacencyView;

    open spec fn deep_view(&self) -> AdjacencyView {
        AdjacencyView {
            callers: self.callers.deep_view(),
            callees: self.callees.deep_view(),
            children: self.children.deep_view(),
            uses_out: self.uses_out.deep_view(),
            uses_in: self.uses_in.deep_view(),
            implements_out: self.implements_out.deep_view(),
            implements_in: self.implements_in.deep_view(),
        }
    }
}

/// The neighbours of an entity, in the order of the edges.
pub open spec fn adjacent(es: Seq<EdgeView>, id: Seq<char>) -> AdjacencyView {
    let outs = edges_out(es, id);
    let ins = edges_in(es, id);
    AdjacencyView {
        callers: sources(of_kind(ins, EdgeKind::Calls)),
        callees: targets(of_kind(outs, EdgeKind::Calls)),
        children: targets(of_kind(outs, EdgeKind::Contains)),
        uses_out: targets(of_kind(outs, EdgeKind::Uses)),
        uses_in: sources(of_kind(ins, EdgeKind::Uses)),
        implements_out: targets(of_kind(outs, EdgeKind::Implements)),
        implements_in: sources(of_kind(ins, EdgeKind::Implements)),
    }
}

/// The neighbours of an entity of a store.
pub fn adjacency(store: &Store, id: &EntityId) -> (r: Adjacency)
    ensures
        r.deep_view() == adjacent(store@.edges, id@),
{
    let outs = store.edges_from(id);
    let ins = store.edges_to(id);
    Adjacency {
        callers: sources_of_kind(&ins, EdgeKind::Calls),
        callees: targets_of_kind(&outs, EdgeKind::Calls),
        children: targets_of_kind(&outs, EdgeKind::Contains),
        uses_out: targets_of_kind(&outs, EdgeKind::Uses),
        uses_in: sources_of_kind(&ins, EdgeKind::Uses),
        implements_out: targets_of_kind(&outs, EdgeKind::Implements),
        implements_in: sources_of_kind(&ins, EdgeKind::Implements),
    }
}

// ── Metadata ─────────────────────────────────────────────────────────────────

/// The metadata of one entity.
#[derive(Debug)]
pub struct EntityMeta {
    pub id: String,
    pub kind: String,
    pub name: String,
    pub file: String,
    pub line_start: u32,
    pub line_end: u32,
    pub signature: String,
    pub doc: String,
    pub content_hash: String,
    pub callers: Vec<String>,
    pub callees: Vec<String>,
    pub children: Vec<String>,
    pub imports: Vec<String>,
    pub imported_by: Vec<String>,
    pub implements: Vec<String>,
    pub implemented_by: Vec<String>,
}

/// What an [`EntityMeta`] holds.
#[verifier::ext_equal]
pub struct MetaView {
    pub id: Seq<char>,
    pub kind: Seq<char>,
    pub name: Seq<char>,
    pub file: Seq<char>,
    pub line_start: u32,
    pub line_end: u32,
    pub signature: Seq<char>,
    pub doc: Seq<char>,
    pub content_hash: Seq<char>,
    pub callers: Seq<Seq<char>>,
    pub callees: Seq<Seq<char>>,
    pub children: Seq<Seq<char>>,
    pub imports: Seq<Seq<char>>,
    pub imported_by: Seq<Seq<char>>,
    pub implements: Seq<Seq<char>>,
    pub implemented_by: Seq<Seq<char>>,
}

impl DeepView for EntityMeta {
    type V = MetaView;

    open spec fn deep_view(&self) -> MetaView {
        MetaView {
            id: self.id@,
            kind: self.kind@,
            name: self.name@,
            file: self.file@,
            line_start: self.line_start,
            line_end: self.line_end,
            signature: self.signature@,
            doc: self.doc@,
            content_hash: self.content_hash@,
            callers: self.callers.deep_view(),
            callees: self.callees.deep_view(),
            children: self.children.deep_view(),
            imports: self.imports.deep_view(),
            imported_by: self.imported_by.deep_view(),
            implements: self.implements.deep_view(),
            implemented_by: self.implemented_by.deep_view(),
        }
    }
}

/// The metadata of an atom with the given neighbours.
pub open spec fn meta_of(a: AtomView, adj: AdjacencyView) -> MetaView {
    MetaView {
        id: a.id,
        kind: a.kind,
        name: a.name,
        file: a.file_path,
        line_start: a.line_start,
        line_end: a.line_end,
        signature: a.signature,
        doc: a.doc,
        content_hash: a.content_hash,
        callers: adj.callers,
        callees: adj.callees,
        children: adj.children,
        imports: adj.uses_out,
        imported_by: adj.uses_in,
        implements: adj.implements_out,
        implemented_by: adj.implements_in,
    }
}

/// The texts of a list of ids.
fn id_texts(ids: &Vec<EntityId>) -> (r: Vec<String>)
    ensures
        r.deep_view() == ids.deep_view(),
{
    let mut out: Vec<String> = Vec::new();
    let mut i: usize = 0;
    assert(out.deep_view() =~= ids.deep_view().take(0));
    while i < ids.len()
        invariant
            i <= ids.len(),
            out.deep_view() == ids.deep_view().take(i as int),
        decreases ids.len() - i,
    {
        let ghost had = out.deep_view();
        out.push(ids[i].to_string());
        assert(out.deep_view() =~= had.push(ids[i as int]@));
        i += 1;
        assert(out.deep_view() =~= ids.deep_view().take(i as int));
    }
    assert(ids.deep_view().take(ids.len() as int) =~= ids.deep_view());
    out
}

/// The metadata of an atom with the given neighbours.
pub fn entity_meta(atom: &CodeAtom, adj: &Adjacency) -> (r: EntityMeta)
    ensures
        r.deep_view() == meta_of(atom.deep_view(), adj.deep_view()),
{
    EntityMeta {
        id: atom.id.to_string(),
        kind: atom.kind.clone(),
        name: atom.name.clone(),
        file: atom.file_path.clone(),
        line_start: atom.line_start,
        line_end: atom.line_end,
        signature: atom.signature.clone(),
        doc: atom.doc.clone(),
        content_hash: atom.content_hash.clone(),
        callers: id_texts(&adj.callers),
        callees: id_texts(&adj.callees),
        children: id_texts(&adj.children),
        imports: id_texts(&adj.uses_out),
        imported_by: id_texts(&adj.uses_in),
        implements: id_texts(&adj.implements_out),
        implemented_by: id_texts(&adj.implements_in),
    }
}

// ── Diagrams ─────────────────────────────────────────────────────────────────

/// A text on one line: line ends become spaces, and the ends are trimmed.
pub open spec fn on_one_line(s: Seq<char>) -> Seq<char> {
    trimmed(
        s.map_values(
            |c: char|
                if c == '\n' || c == '\r' {
                    ' '
                } else {
                    c
                },
        ),
    )
}

/// A text on one line.
pub fn one_line(s: &str) -> (r: String)
    ensures
        r@ == on_one_line(s@),
{
    let cs = chars_of(s);
    let ghost want = s@.map_values(
        |c: char|
            if c == '\n' || c == '\r' {
                ' '
            } else {
                c
            },
    );
    let mut out = String::new();
    let mut i: usize = 0;
    assert(out@ =~= want.take(0));
    while i < cs.len()
        invariant
            i <= cs.len(),
            cs@ == s@,
            want == s@.map_values(
                |c: char|
                    if c == '\n' || c == '\r' {
                        ' '
                    } else {
                        c
                    },
            ),
            out@ == want.take(i as int),
        decreases cs.len() - i,
    {
        if cs[i] == '\n' || cs[i] == '\r' {
            out.push(' ');
        } else {
            out.push(cs[i]);
        }
        assert(want.take(i + 1) =~= want.take(i as int).push(want[i as int]));
        i += 1;
    }
    assert(want.take(cs.len() as int) =~= want);
    trim(out.as_str())
}

/// The last part of an id.
pub open spec fn last_segment(id: Seq<char>) -> Seq<char> {
    after_last(id, "::"@)
}

/// The Mermaid node id of an entity: the last part of its id, with `_` for
/// what is not alphanumeric.
pub open spec fn short_id(id: Seq<char>) -> Seq<char> {
    Seq::new(
        last_segment(id).len(),
        |i: int| id_char(last_segment(id)[i], char_is_alphanumeric(last_segment(id)[i])),
    )
}

/// The Mermaid node id of an entity.
pub fn mermaid_id_short(id: &str) -> (r: String)
    ensures
        r@ == short_id(id@),
{
    let short = last_part(id, "::");
    let cs = chars_of(short.as_str());
    let ghost want = short_id(id@);
    let mut out = String::new();
    let mut i: usize = 0;
    assert(out@ =~= want.take(0));
    while i < cs.len()
        invariant
            i <= cs.len(),
            cs@ == last_segment(id@),
            want == short_id(id@),
            out@ == want.take(i as int),
        decreases cs.len() - i,
    {
        let alphanumeric = is_alphanumeric(cs[i]);
        out.push(mermaid_id_char(cs[i], alphanumeric));
        assert(want.take(i + 1) =~= want.take(i as int).push(want[i as int]));
        i += 1;
    }
    assert(want.take(cs.len() as int) =~= want);
    out
}

/// The fill and the stroke of a kind.
pub open spec fn colors(kind: Seq<char>) -> (Seq<char>, Seq<char>) {
    if kind == "function"@ {
        ("#e1f5fe"@, "#01579b"@)
    } else if kind == "module"@ {
        ("#f3e5f5"@, "#4a148c"@)
    } else if kind == "struct"@ {
        ("#e8f5e9"@, "#1b5e20"@)
    } else if kind == "trait"@ {
        ("#fff8e1"@, "#f57f17"@)
    } else if kind == "impl"@ {
        ("#fce4ec"@, "#880e4f"@)
    } else if kind == "enum"@ {
        ("#e8eaf6"@, "#283593"@)
    } else if kind == "const"@ || kind == "static"@ {
        ("#fffde7"@, "#f9a825"@)
    } else if kind == "macro"@ {
        ("#e0f2f1"@, "#004d40"@)
    } else {
        ("#f5f5f5"@, "#424242"@)
    }
}

/// The fill and the stroke of a kind.
pub fn class_colors(kind: &str) -> (r: (&'static str, &'static str))
    ensures
        r.0@ == colors(kind@).0,
        r.1@ == colors(kind@).1,
{
    if str_eq(kind, "function") {
        ("#e1f5fe", "#01579b")
    } else if str_eq(kind, "module") {
        ("#f3e5f5", "#4a148c")
    } else if str_eq(kind, "struct") {
        ("#e8f5e9", "#1b5e20")
    } else if str_eq(kind, "trait") {
        ("#fff8e1", "#f57f17")
    } else if str_eq(kind, "impl") {
        ("#fce4ec", "#880e4f")
    } else if str_eq(kind, "enum") {
        ("#e8eaf6", "#283593")
    } else if str_eq(kind, "const") || str_eq(kind, "static") {
        ("#fffde7", "#f9a825")
    } else if str_eq(kind, "macro") {
        ("#e0f2f1", "#004d40")
    } else {
        ("#f5f5f5", "#424242")
    }
}

/// The comments that name an entity.
pub open spec fn header(a: AtomView) -> Seq<char> {
    "%% id: "@ + on_one_line(a.id) + "\n%% kind: "@ + on_one_line(a.kind) + "\n%% file: "@
        + on_one_line(a.file_path) + ":"@ + dec(a.line_start as nat) + "-"@ + dec(
        a.line_end as nat,
    ) + "\n%% content_hash: "@ + on_one_line(a.content_hash) + "\n"@ + (if a.signature.len() == 0 {
        Seq::empty()
    } else {
        "%% signature: "@ + on_one_line(a.signature) + "\n"@
    })
}

/// The classes and the node of an entity.
pub open spec fn center(a: AtomView) -> Seq<char> {
    "graph LR\n  classDef "@ + a.kind + " fill:"@ + colors(a.kind).0 + ",stroke:"@ + colors(
        a.kind,
    ).1
        + "\n  classDef function fill:#e1f5fe,stroke:#01579b\n  classDef module fill:#f3e5f5,stroke:#4a148c\n  "@
        + short_id(a.id) + ":::"@ + a.kind + "["@ + escaped(a.name) + "]\n"@
}

/// The line of a callee.
pub open spec fn callee_line(id: Seq<char>) -> spec_fn(Seq<char>) -> Seq<char> {
    |other: Seq<char>|
        "  "@ + short_id(id) + " -- calls --> "@ + short_id(other) + ":::function["@ + escaped(
            last_segment(other),
        ) + "]\n"@
}

/// The line of a caller.
pub open spec fn caller_line(id: Seq<char>) -> spec_fn(Seq<char>) -> Seq<char> {
    |other: Seq<char>|
        "  "@ + short_id(other) + ":::function["@ + escaped(last_segment(other))
            + "] -- calls --> "@ + short_id(id) + "\n"@
}

/// The diagram of an entity with its callees and callers.
pub open spec fn entity_text(
    a: AtomView,
    outgoing: Seq<Seq<char>>,
    incoming: Seq<Seq<char>>,
) -> Seq<char> {
    header(a) + center(a) + lines(outgoing, callee_line(a.id)) + lines(incoming, caller_line(a.id))
}

/// Appends the comments that name an entity.
fn push_header(out: &mut String, atom: &CodeAtom)
    ensures
        final(out)@ == old(out)@ + header(atom.deep_view()),
{
    let ghost had = out@;
    out.append("%% id: ");
    out.append(one_line(atom.id.as_str()).as_str());
    out.append("\n%% kind: ");
    out.append(one_line(atom.kind.as_str()).as_str());
    out.append("\n%% file: ");
    out.append(one_line(atom.file_path.as_str()).as_str());
    out.append(":");
    push_decimal(out, atom.line_start as u64);
    out.append("-");
    push_decimal(out, atom.line_end as u64);
    out.append("\n%% content_hash: ");
    out.append(one_line(atom.content_hash.as_str()).as_str());
    out.append("\n");
    if !atom.signature.as_str().is_empty() {
        out.append("%% signature: ");
        out.append(one_line(atom.signature.as_str()).as_str());
        out.append("\n");
    }
    assert(out@ =~= had + header(atom.deep_view()));
}

/// Appends the classes and the node of an entity.
fn push_center(out: &mut String, atom: &CodeAtom)
    ensures
        final(out)@ == old(out)@ + center(atom.deep_view()),
{
    let ghost had = out@;
    let (fill, stroke) = class_colors(atom.kind.as_str());
    out.append("graph LR\n  classDef ");
    out.append(atom.kind.as_str());
    out.append(" fill:");
    out.append(fill);
    out.append(",stroke:");
    out.append(stroke);
    out.append(
        "\n  classDef function fill:#e1f5fe,stroke:#01579b\n  classDef module fill:#f3e5f5,stroke:#4a148c\n  ",
    );
    out.append(mermaid_id_short(atom.id.as_str()).as_str());
    out.append(":::");
    out.append(atom.kind.as_str());
    out.append("[");
    out.append(escape_label(atom.name.as_str()).as_str());
    out.append("]\n");
    assert(out@ =~= had + center(atom.deep_view()));
}

/// Draws an entity with its callees and callers.
pub fn entity_mmd(atom: &CodeAtom, outgoing: &Vec<EntityId>, incoming: &Vec<EntityId>) -> (r: String)
    ensures
        r@ == entity_text(atom.deep_view(), outgoing.deep_view(), incoming.deep_view()),
{
    let ghost a = atom.deep_view();
    let mut out = String::new();
    push_header(&mut out, atom);
    push_center(&mut out, atom);
    let ghost top = out@;
    assert(top =~= header(a) + center(a));
    let self_id = mermaid_id_short(atom.id.as_str());
    let ghost xs = outgoing.deep_view();
    let ghost f = callee_line(a.id);
    let mut i: usize = 0;
    assert(xs.take(0) =~= Seq::<Seq<char>>::empty());
    assert(out@ =~= top + Seq::<char>::empty());
    while i < outgoing.len()
        invariant
            i <= outgoing.len(),
            xs == outgoing.deep_view(),
            f == callee_line(a.id),
            self_id@ == short_id(a.id),
            out@ == top + lines(xs.take(i as int), f),
        decreases outgoing.len() - i,
    {
        let ghost before = out@;
        proof {
            lemma_lines_step(xs, f, i as int);
            assert(xs[i as int] == outgoing[i as int]@);
        }
        let label = escape_label(last_part(outgoing[i].as_str(), "::").as_str());
        out.append("  ");
        out.append(self_id.as_str());
        out.append(" -- calls --> ");
        out.append(mermaid_id_short(outgoing[i].as_str()).as_str());
        out.append(":::function[");
        out.append(label.as_str());
        out.append("]\n");
        assert(out@ =~= before + f(xs[i as int]));
        i += 1;
        assert(out@ =~= top + lines(xs.take(i as int), f));
    }
    assert(xs.take(outgoing.len() as int) =~= xs);
    let ghost mid = out@;
    let ghost ys = incoming.deep_view();
    let ghost g = caller_line(a.id);
    let mut i: usize = 0;
    assert(ys.take(0) =~= Seq::<Seq<char>>::empty());
    assert(out@ =~= mid + Seq::<char>::empty());
    while i < incoming.len()
        invariant
            i <= incoming.len(),
            ys == incoming.deep_view(),
            g == caller_line(a.id),
            self_id@ == short_id(a.id),
            out@ == mid + lines(ys.take(i as int), g),
        decreases incoming.len() - i,
    {
        let ghost before = out@;
        proof {
            lemma_lines_step(ys, g, i as int);
            assert(ys[i as int] == incoming[i as int]@);
        }
        let label = escape_label(last_part(incoming[i].as_str(), "::").as_str());
        out.append("  ");
        out.append(mermaid_id_short(incoming[i].as_str()).as_str());
        out.append(":::function[");
        out.append(label.as_str());
        out.append("] -- calls --> ");
        out.append(self_id.as_str());
        out.append("\n");
        assert(out@ =~= before + g(ys[i as int]));
        i += 1;
        assert(out@ =~= mid + lines(ys.take(i as int), g));
    }
    assert(ys.take(incoming.len() as int) =~= ys);
    out
}

/// A text on one line holds no line end, so that a comment stays a comment.
pub proof fn law_one_line(s: Seq<char>)
    ensures
        !on_one_line(s).contains('\n'),
        !on_one_line(s).contains('\r'),
{
    let flat = s.map_values(
        |c: char|
            if c == '\n' || c == '\r' {
                ' '
            } else {
                c
            },
    );
    crate::chars::lemma_trimmed_part(flat);
    let t = trimmed(flat);
    assert forall|i: int| 0 <= i < t.len() implies t[i] != '\n' && t[i] != '\r' by {
        assert(flat.contains(t[i]));
        let k = choose|k: int| 0 <= k < flat.len() && flat[k] == t[i];
        assert(flat[k] != '\n');
    }
}

} // verus!
