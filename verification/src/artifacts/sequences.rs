//! Which functions get a sequence diagram.

use crate::artifacts::emit::{ArtifactView, EntityArtifact};
use crate::artifacts::names::{function_name, qualified_fn_name};
use crate::chars::{rsplit_once, split_last};
use crate::model::EntityId;
use crate::text::str_eq;
use vstd::prelude::*;
use vstd::string::*;

verus! {

// ── Types ────────────────────────────────────────────────────────────────────

/// The sequence diagram of a function.
pub struct SequenceArtifact {
    /// Id of the function.
    pub entity_id: EntityId,
    /// Mermaid source of the diagram.
    pub mmd: String,
}

impl DeepView for SequenceArtifact {
    type V = (Seq<char>, Seq<char>);

    open spec fn deep_view(&self) -> (Seq<char>, Seq<char>) {
        (self.entity_id@, self.mmd@)
    }
}

/// A diagram that was extracted from a file.
#[derive(Debug)]
pub struct Diagram {
    /// Qualified name of the function.
    pub name: String,
    /// Number of its steps.
    pub steps: usize,
    /// Mermaid source.
    pub mmd: String,
}

impl DeepView for Diagram {
    type V = (Seq<char>, nat, Seq<char>);

    open spec fn deep_view(&self) -> (Seq<char>, nat, Seq<char>) {
        (self.name@, self.steps as nat, self.mmd@)
    }
}

/// The diagrams that were extracted from a file.
#[derive(Debug)]
pub struct Extracted {
    /// Path of the file.
    pub file: String,
    pub diagrams: Vec<Diagram>,
}

impl DeepView for Extracted {
    type V = (Seq<char>, Seq<(Seq<char>, nat, Seq<char>)>);

    open spec fn deep_view(&self) -> (Seq<char>, Seq<(Seq<char>, nat, Seq<char>)>) {
        (self.file@, self.diagrams.deep_view())
    }
}

// ── Which diagrams are wanted ────────────────────────────────────────────────

/// The file of an entity: what stands before the last colon, if there is one.
pub open spec fn file_part(file: Seq<char>) -> Seq<char> {
    match split_last(file, ":"@) {
        Some((p, _)) => p,
        None => file,
    }
}

/// The qualified names of the functions of a file, in the order of the
/// entities.
pub open spec fn names_in(es: Seq<ArtifactView>, file: Seq<char>) -> Seq<Seq<char>>
    decreases es.len(),
{
    if es.len() == 0 {
        Seq::empty()
    } else {
        let front = names_in(es.drop_last(), file);
        let e = es.last();
        match function_name(e.id) {
            Some(q) => if e.kind.text() == "function"@ && file_part(e.meta.file) == file {
                front.push(q)
            } else {
                front
            },
            None => front,
        }
    }
}

/// The last diagram of a function in a list.
pub open spec fn diagram_named(
    ds: Seq<(Seq<char>, nat, Seq<char>)>,
    name: Seq<char>,
) -> Option<(Seq<char>, nat, Seq<char>)>
    decreases ds.len(),
{
    if ds.len() == 0 {
        None
    } else if ds.last().0 == name {
        Some(ds.last())
    } else {
        diagram_named(ds.drop_last(), name)
    }
}

/// The last list of diagrams of a file.
pub open spec fn diagrams_in(
    xs: Seq<(Seq<char>, Seq<(Seq<char>, nat, Seq<char>)>)>,
    file: Seq<char>,
) -> Option<Seq<(Seq<char>, nat, Seq<char>)>>
    decreases xs.len(),
{
    if xs.len() == 0 {
        None
    } else if xs.last().0 == file {
        Some(xs.last().1)
    } else {
        diagrams_in(xs.drop_last(), file)
    }
}

/// The diagram of an entity: of a function whose diagram was extracted and has
/// steps.
pub open spec fn drawn(
    e: ArtifactView,
    xs: Seq<(Seq<char>, Seq<(Seq<char>, nat, Seq<char>)>)>,
) -> Option<(Seq<char>, Seq<char>)> {
    match (diagrams_in(xs, file_part(e.meta.file)), function_name(e.id)) {
        (Some(ds), Some(q)) => match diagram_named(ds, q) {
            Some(d) => if e.kind.text() == "function"@ && d.1 > 0 {
                Some((e.id, d.2))
            } else {
                None
            },
            None => None,
        },
        _ => None,
    }
}

/// The sequence diagrams, in the order of the entities.
pub open spec fn sequences_of(
    es: Seq<ArtifactView>,
    xs: Seq<(Seq<char>, Seq<(Seq<char>, nat, Seq<char>)>)>,
) -> Seq<(Seq<char>, Seq<char>)>
    decreases es.len(),
{
    if es.len() == 0 {
        Seq::empty()
    } else {
        let front = sequences_of(es.drop_last(), xs);
        match drawn(es.last(), xs) {
            Some(s) => front.push(s),
            None => front,
        }
    }
}

/// Where nothing was extracted there are no sequence diagrams.
pub proof fn law_nothing_extracted(es: Seq<ArtifactView>)
    ensures
        sequences_of(es, Seq::empty()) == Seq::<(Seq<char>, Seq<char>)>::empty(),
    decreases es.len(),
{
    if es.len() > 0 {
        law_nothing_extracted(es.drop_last());
    }
}

/// Whether an entry is the last list of diagrams of a file.
pub open spec fn is_last_list(
    xs: Seq<(Seq<char>, Seq<(Seq<char>, nat, Seq<char>)>)>,
    i: int,
    file: Seq<char>,
) -> bool {
    &&& 0 <= i < xs.len()
    &&& xs[i].0 == file
    &&& forall|k: int| i < k < xs.len() ==> (#[trigger] xs[k]).0 != file
}

/// Whether an entry is the last diagram of a function in a list.
pub open spec fn is_last_diagram(
    ds: Seq<(Seq<char>, nat, Seq<char>)>,
    i: int,
    name: Seq<char>,
) -> bool {
    &&& 0 <= i < ds.len()
    &&& ds[i].0 == name
    &&& forall|k: int| i < k < ds.len() ==> (#[trigger] ds[k]).0 != name
}

proof fn lemma_diagrams_in(
    xs: Seq<(Seq<char>, Seq<(Seq<char>, nat, Seq<char>)>)>,
    i: int,
    file: Seq<char>,
)
    requires
        is_last_list(xs, i, file),
    ensures
        diagrams_in(xs, file) == Some(xs[i].1),
    decreases xs.len(),
{
    let front = xs.drop_last();
    if i < front.len() {
        assert(xs[xs.len() - 1].0 != file);
        assert forall|k: int| i < k < front.len() implies (#[trigger] front[k]).0 != file by {
            assert(front[k] == xs[k]);
        }
        lemma_diagrams_in(front, i, file);
    }
}

proof fn lemma_diagram_named(ds: Seq<(Seq<char>, nat, Seq<char>)>, i: int, name: Seq<char>)
    requires
        is_last_diagram(ds, i, name),
    ensures
        diagram_named(ds, name) == Some(ds[i]),
    decreases ds.len(),
{
    let front = ds.drop_last();
    if i < front.len() {
        assert(ds[ds.len() - 1].0 != name);
        assert forall|k: int| i < k < front.len() implies (#[trigger] front[k]).0 != name by {
            assert(front[k] == ds[k]);
        }
        lemma_diagram_named(front, i, name);
    }
}

proof fn lemma_sequences_of(
    es: Seq<ArtifactView>,
    xs: Seq<(Seq<char>, Seq<(Seq<char>, nat, Seq<char>)>)>,
)
    ensures
        forall|k: int|
            0 <= k < es.len() && drawn(#[trigger] es[k], xs) is Some ==> sequences_of(
                es,
                xs,
            ).contains(drawn(es[k], xs)->0),
        forall|m: int|
            0 <= m < sequences_of(es, xs).len() ==> exists|k: int|
                0 <= k < es.len() && drawn(#[trigger] es[k], xs) == Some(
                    #[trigger] sequences_of(es, xs)[m],
                ),
    decreases es.len(),
{
    if es.len() > 0 {
        let before = es.drop_last();
        let front = sequences_of(before, xs);
        let all = sequences_of(es, xs);
        lemma_sequences_of(before, xs);
        assert(es[es.len() - 1] == es.last());
        assert forall|k: int| 0 <= k < es.len() && drawn(#[trigger] es[k], xs) is Some implies
            all.contains(drawn(es[k], xs)->0) by {
            let d = drawn(es[k], xs)->0;
            if k < before.len() {
                assert(before[k] == es[k]);
                let m = choose|m: int| 0 <= m < front.len() && front[m] == d;
                assert(all[m] == d);
            } else {
                assert(all[front.len() as int] == d);
            }
        }
        assert forall|m: int| 0 <= m < all.len() implies exists|k: int|
            0 <= k < es.len() && drawn(#[trigger] es[k], xs) == Some(#[trigger] all[m]) by {
            if m < front.len() {
                assert(front[m] == all[m]);
                let k = choose|k: int|
                    0 <= k < before.len() && drawn(#[trigger] before[k], xs) == Some(front[m]);
                assert(drawn(es[k], xs) == Some(all[m]));
            } else {
                assert(drawn(es[es.len() - 1], xs) == Some(all[m]));
            }
        }
    }
}

/// A function whose diagram was extracted from its file, with at least one step,
/// has that diagram.
pub proof fn law_sequence_drawn(
    es: Seq<ArtifactView>,
    xs: Seq<(Seq<char>, Seq<(Seq<char>, nat, Seq<char>)>)>,
    k: int,
    i: int,
    j: int,
)
    requires
        0 <= k < es.len(),
        es[k].kind.text() == "function"@,
        function_name(es[k].id) is Some,
        is_last_list(xs, i, file_part(es[k].meta.file)),
        is_last_diagram(xs[i].1, j, function_name(es[k].id)->0),
        xs[i].1[j].1 > 0,
    ensures
        sequences_of(es, xs).contains((es[k].id, xs[i].1[j].2)),
{
    lemma_diagrams_in(xs, i, file_part(es[k].meta.file));
    lemma_diagram_named(xs[i].1, j, function_name(es[k].id)->0);
    lemma_sequences_of(es, xs);
    assert(drawn(es[k], xs) == Some((es[k].id, xs[i].1[j].2)));
}

// ── Building ─────────────────────────────────────────────────────────────────

/// The file of an entity.
fn entity_file(file: &str) -> (r: String)
    ensures
        r@ == file_part(file@),
{
    match rsplit_once(file, ":") {
        Some((p, _)) => p,
        None => file.to_owned(),
    }
}

/// The qualified names of the functions of a file, whose diagrams are to be
/// extracted.
pub fn sequence_targets(entities: &Vec<EntityArtifact>, file: &str) -> (r: Vec<String>)
    ensures
        r.deep_view() == names_in(entities.deep_view(), file@),
{
    let ghost v = entities.deep_view();
    let mut out: Vec<String> = Vec::new();
    let mut i: usize = 0;
    assert(v.take(0) =~= Seq::<ArtifactView>::empty());
    assert(out.deep_view() =~= Seq::<Seq<char>>::empty());
    while i < entities.len()
        invariant
            i <= entities.len(),
            v == entities.deep_view(),
            out.deep_view() == names_in(v.take(i as int), file@),
        decreases entities.len() - i,
    {
        let ghost had = out.deep_view();
        let e = &entities[i];
        assert(v[i as int] == e.deep_view());
        assert(v.take(i + 1).drop_last() =~= v.take(i as int));
        assert(v.take(i + 1).last() == v[i as int]);
        if str_eq(e.kind.as_str(), "function") && str_eq(
            entity_file(e.meta.file.as_str()).as_str(),
            file,
        ) {
            if let Some(q) = qualified_fn_name(e.id.as_str()) {
                let ghost qv = q@;
                out.push(q);
                assert(out.deep_view() =~= had.push(qv));
            }
        }
        i += 1;
    }
    assert(v.take(entities.len() as int) =~= v);
    out
}

/// The position of the diagrams of a file.
fn find_file(xs: &Vec<Extracted>, file: &str) -> (r: Option<usize>)
    ensures
        match r {
            Some(i) => i < xs.len() && diagrams_in(xs.deep_view(), file@) == Some(
                xs[i as int].diagrams.deep_view(),
            ),
            None => diagrams_in(xs.deep_view(), file@) is None,
        },
{
    let ghost v = xs.deep_view();
    let mut i: usize = xs.len();
    assert(v.take(xs.len() as int) =~= v);
    while i > 0
        invariant
            i <= xs.len(),
            v == xs.deep_view(),
            diagrams_in(v, file@) == diagrams_in(v.take(i as int), file@),
        decreases i,
    {
        i -= 1;
        assert(v[i as int] == xs[i as int].deep_view());
        assert(v.take(i + 1).drop_last() =~= v.take(i as int));
        assert(v.take(i + 1).last() == v[i as int]);
        if str_eq(xs[i].file.as_str(), file) {
            return Some(i);
        }
    }
    None
}

/// The position of the diagram of a function.
fn find_diagram(ds: &Vec<Diagram>, name: &str) -> (r: Option<usize>)
    ensures
        match r {
            Some(i) => i < ds.len() && diagram_named(ds.deep_view(), name@) == Some(
                ds[i as int].deep_view(),
            ),
            None => diagram_named(ds.deep_view(), name@) is None,
        },
{
    let ghost v = ds.deep_view();
    let mut i: usize = ds.len();
    assert(v.take(ds.len() as int) =~= v);
    while i > 0
        invariant
            i <= ds.len(),
            v == ds.deep_view(),
            diagram_named(v, name@) == diagram_named(v.take(i as int), name@),
        decreases i,
    {
        i -= 1;
        assert(v[i as int] == ds[i as int].deep_view());
        assert(v.take(i + 1).drop_last() =~= v.take(i as int));
        assert(v.take(i + 1).last() == v[i as int]);
        if str_eq(ds[i].name.as_str(), name) {
            return Some(i);
        }
    }
    None
}

/// The diagram of an entity.
fn draw_one(e: &EntityArtifact, xs: &Vec<Extracted>) -> (r: Option<SequenceArtifact>)
    ensures
        match r {
            Some(s) => drawn(e.deep_view(), xs.deep_view()) == Some(s.deep_view()),
            None => drawn(e.deep_view(), xs.deep_view()) is None,
        },
{
    if !str_eq(e.kind.as_str(), "function") {
        return None;
    }
    let file = entity_file(e.meta.file.as_str());
    match (find_file(xs, file.as_str()), qualified_fn_name(e.id.as_str())) {
        (Some(i), Some(q)) => match find_diagram(&xs[i].diagrams, q.as_str()) {
            Some(k) => {
                let d = &xs[i].diagrams[k];
                if d.steps > 0 {
                    Some(SequenceArtifact { entity_id: e.id.clone(), mmd: d.mmd.clone() })
                } else {
                    None
                }
            },
            None => None,
        },
        _ => None,
    }
}

/// The sequence diagrams of the functions whose diagrams were extracted and
/// have steps, in the order of the entities.
pub fn build_sequences(entities: &Vec<EntityArtifact>, extracted: &Vec<Extracted>) -> (r: Vec<
    SequenceArtifact,
>)
    ensures
        r.deep_view() == sequences_of(entities.deep_view(), extracted.deep_view()),
{
    let ghost v = entities.deep_view();
    let ghost xs = extracted.deep_view();
    let mut out: Vec<SequenceArtifact> = Vec::new();
    let mut i: usize = 0;
    assert(v.take(0) =~= Seq::<ArtifactView>::empty());
    assert(out.deep_view() =~= Seq::<(Seq<char>, Seq<char>)>::empty());
    while i < entities.len()
        invariant
            i <= entities.len(),
            v == entities.deep_view(),
            xs == extracted.deep_view(),
            out.deep_view() == sequences_of(v.take(i as int), xs),
        decreases entities.len() - i,
    {
        let ghost had = out.deep_view();
        assert(v[i as int] == entities[i as int].deep_view());
        assert(v.take(i + 1).drop_last() =~= v.take(i as int));
        assert(v.take(i + 1).last() == v[i as int]);
        if let Some(s) = draw_one(&entities[i], extracted) {
            let ghost sv = s.deep_view();
            out.push(s);
            assert(out.deep_view() =~= had.push(sv));
        }
        i += 1;
    }
    assert(v.take(entities.len() as int) =~= v);
    out
}

} // verus!
