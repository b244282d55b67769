//! In-memory [`Store`]: atoms by identifier, edges in insertion order.
//!
//! Forward and reverse adjacency indices map each endpoint to the positions
//! of its incident edges, so the edge accessors cost the degree of the node
//! and not the number of edges. Every endpoint is given a slot number; the
//! indices hold one list of edge positions per slot.

use crate::graph::reach::{
    closer, depth, expand, expand_range, first_path, has_next, list_at, on_path, rounds, see, see_all,
    sound, start, toward, walk, Walk,
};
use crate::model::{clone_edges, AtomView, CodeAtom, Edge, EdgeKind, EdgeView, EntityId};
use crate::order::{lists, sort_positions};
use crate::text::{str_eq, text_lt};
use vstd::hash_map::StringHashMap;
use vstd::prelude::*;

verus! {

// ── Model ────────────────────────────────────────────────────────────────────

/// What a [`Store`] holds: the atoms by identifier and the edges in the order
/// in which they were recorded.
#[verifier::ext_equal]
pub struct StoreView {
    pub atoms: Map<Seq<char>, AtomView>,
    pub edges: Seq<EdgeView>,
}

impl StoreView {
    /// Whether the atoms are finitely many, and each is held under its own
    /// identifier. This holds of every store.
    pub open spec fn wf(self) -> bool {
        &&& self.atoms.dom().finite()
        &&& forall|id: Seq<char>| #[trigger]
            self.atoms.contains_key(id) ==> self.atoms[id].id == id
    }

    /// The store with one more atom, in place of the one with its identifier.
    pub open spec fn with_atom(self, a: AtomView) -> StoreView {
        StoreView { atoms: self.atoms.insert(a.id, a), edges: self.edges }
    }
}

/// The edges that leave `id`, in insertion order.
pub open spec fn edges_out(es: Seq<EdgeView>, id: Seq<char>) -> Seq<EdgeView> {
    es.filter(|e: EdgeView| e.from == id)
}

/// The edges that enter `id`, in insertion order.
pub open spec fn edges_in(es: Seq<EdgeView>, id: Seq<char>) -> Seq<EdgeView> {
    es.filter(|e: EdgeView| e.to == id)
}

/// The edges of one kind, in order.
pub open spec fn of_kind(es: Seq<EdgeView>, kind: EdgeKind) -> Seq<EdgeView> {
    es.filter(|e: EdgeView| e.kind == kind)
}

/// The targets of a list of edges.
pub open spec fn targets(es: Seq<EdgeView>) -> Seq<Seq<char>> {
    es.map_values(|e: EdgeView| e.to)
}

/// The sources of a list of edges.
pub open spec fn sources(es: Seq<EdgeView>) -> Seq<Seq<char>> {
    es.map_values(|e: EdgeView| e.from)
}

/// Whether `es` records that `caller` calls `callee`.
pub open spec fn calls(es: Seq<EdgeView>, caller: Seq<char>, callee: Seq<char>) -> bool {
    exists|i: int|
        0 <= i < es.len() && (#[trigger] es[i]).from == caller && es[i].to == callee && es[i].kind
            == EdgeKind::Calls
}

/// Whether `r` lists, in ascending order of identifier and each once, the
/// atoms of `atoms` that satisfy `p`.
pub open spec fn listing(
    atoms: Map<Seq<char>, AtomView>,
    p: spec_fn(AtomView) -> bool,
    r: Seq<AtomView>,
) -> bool {
    &&& forall|i: int, j: int|
        0 <= i < j < r.len() ==> text_lt((#[trigger] r[i]).id, (#[trigger] r[j]).id)
    &&& forall|i: int|
        0 <= i < r.len() ==> atoms.contains_key((#[trigger] r[i]).id) && atoms[r[i].id] == r[i] && p(
            r[i],
        )
    &&& forall|id: Seq<char>|
        #[trigger] atoms.contains_key(id) && p(atoms[id]) ==> r.contains(atoms[id])
}

/// Whether `r` lists all atoms, in ascending order of identifier.
pub open spec fn lists_all(atoms: Map<Seq<char>, AtomView>, r: Seq<AtomView>) -> bool {
    listing(atoms, |a: AtomView| true, r)
}

// ── Index positions ──────────────────────────────────────────────────────────

/// The positions in `es` of the edges that leave `id` (`out`) or enter it.
spec fn positions(es: Seq<EdgeView>, id: Seq<char>, out: bool) -> Seq<usize>
    decreases es.len(),
{
    if es.len() == 0 {
        Seq::empty()
    } else {
        let rest = positions(es.drop_last(), id, out);
        let e = es.last();
        if (if out { e.from } else { e.to }) == id {
            rest.push((es.len() - 1) as usize)
        } else {
            rest
        }
    }
}

/// Whether an edge leaves or enters `id`.
spec fn is_endpoint(es: Seq<EdgeView>, id: Seq<char>) -> bool {
    exists|i: int| 0 <= i < es.len() && ((#[trigger] es[i]).from == id || es[i].to == id)
}

/// The edges at the given positions.
spec fn at(es: Seq<EdgeView>, p: Seq<usize>) -> Seq<EdgeView> {
    Seq::new(p.len(), |i: int| es[p[i] as int])
}

proof fn lemma_positions(es: Seq<EdgeView>, id: Seq<char>, out: bool)
    requires
        es.len() <= usize::MAX,
    ensures
        forall|i: int|
            0 <= i < positions(es, id, out).len() ==> #[trigger] positions(es, id, out)[i]
                < es.len(),
        at(es, positions(es, id, out)) == (if out {
            edges_out(es, id)
        } else {
            edges_in(es, id)
        }),
    decreases es.len(),
{
    reveal(Seq::filter);
    if es.len() > 0 {
        let front = es.drop_last();
        lemma_positions(front, id, out);
        let rest = positions(front, id, out);
        let p = positions(es, id, out);
        assert(at(es, rest) =~= at(front, rest));
        if (if out { es.last().from } else { es.last().to }) == id {
            assert(at(es, p) =~= at(es, rest).push(es.last()));
        }
        assert(edges_out(es, id) =~= if es.last().from == id {
            edges_out(front, id).push(es.last())
        } else {
            edges_out(front, id)
        });
        assert(edges_in(es, id) =~= if es.last().to == id {
            edges_in(front, id).push(es.last())
        } else {
            edges_in(front, id)
        });
    } else {
        assert(at(es, positions(es, id, out)) =~= Seq::<EdgeView>::empty());
        assert(edges_out(es, id) =~= Seq::<EdgeView>::empty());
        assert(edges_in(es, id) =~= Seq::<EdgeView>::empty());
    }
}

proof fn lemma_positions_absent(es: Seq<EdgeView>, id: Seq<char>, out: bool)
    requires
        forall|i: int| 0 <= i < es.len() ==> (#[trigger] es[i]).from != id && es[i].to != id,
    ensures
        positions(es, id, out) == Seq::<usize>::empty(),
    decreases es.len(),
{
    if es.len() > 0 {
        let front = es.drop_last();
        assert forall|i: int| 0 <= i < front.len() implies (#[trigger] front[i]).from != id
            && front[i].to != id by {
            assert(front[i] == es[i]);
        }
        lemma_positions_absent(front, id, out);
        assert(es.last() == es[es.len() - 1]);
    }
}

// ── Contents ─────────────────────────────────────────────────────────────────

struct Inner {
    atoms: Vec<CodeAtom>,
    atom_slots: StringHashMap<usize>,
    edges: Vec<Edge>,
    slots: StringHashMap<usize>,
    forward_idx: Vec<Vec<usize>>,
    reverse_idx: Vec<Vec<usize>>,
}

impl Inner {
    spec fn wf_atoms(&self) -> bool {
        &&& forall|i: int|
            0 <= i < self.atoms.len() ==> self.atom_slots@.contains_key(
                (#[trigger] self.atoms[i]).id@,
            ) && self.atom_slots@[self.atoms[i].id@] == i
        &&& forall|k: Seq<char>| #[trigger]
            self.atom_slots@.contains_key(k) ==> self.atom_slots@[k] < self.atoms.len()
                && self.atoms[self.atom_slots@[k] as int].id@ == k
    }

    spec fn wf_slots(&self) -> bool {
        &&& self.forward_idx.len() == self.reverse_idx.len()
        &&& forall|k: Seq<char>| #[trigger]
            self.slots@.contains_key(k) ==> self.slots@[k] < self.forward_idx.len()
        &&& forall|j: Seq<char>, k: Seq<char>|
            #![trigger self.slots@.contains_key(j), self.slots@.contains_key(k)]
            self.slots@.contains_key(j) && self.slots@.contains_key(k) && self.slots@[j]
                == self.slots@[k] ==> j == k
    }

    spec fn wf_index(&self) -> bool {
        &&& forall|i: int|
            0 <= i < self.edges.len() ==> self.slots@.contains_key((#[trigger] self.edges[i]).from@)
                && self.slots@.contains_key(self.edges[i].to@)
        &&& forall|k: Seq<char>| #[trigger]
            self.slots@.contains_key(k) ==> self.forward_idx[self.slots@[k] as int]@ == positions(
                self.edges.deep_view(),
                k,
                true,
            ) && self.reverse_idx[self.slots@[k] as int]@ == positions(
                self.edges.deep_view(),
                k,
                false,
            )
    }

    spec fn wf(&self) -> bool {
        self.wf_atoms() && self.wf_slots() && self.wf_index()
    }

    /// Whether slots are given to endpoints of edges only.
    spec fn no_spare_slots(&self) -> bool {
        forall|k: Seq<char>| #[trigger]
            self.slots@.contains_key(k) ==> is_endpoint(self.edges.deep_view(), k)
    }

    spec fn contents(&self) -> StoreView {
        StoreView {
            atoms: Map::new(
                |k: Seq<char>| self.atom_slots@.contains_key(k),
                |k: Seq<char>| self.atoms[self.atom_slots@[k] as int].deep_view(),
            ),
            edges: self.edges.deep_view(),
        }
    }

    fn empty() -> (r: Self)
        ensures
            r.wf(),
            r.no_spare_slots(),
            r.contents() == (StoreView { atoms: Map::empty(), edges: Seq::empty() }),
    {
        let r = Inner {
            atoms: Vec::new(),
            atom_slots: StringHashMap::new(),
            edges: Vec::new(),
            slots: StringHashMap::new(),
            forward_idx: Vec::new(),
            reverse_idx: Vec::new(),
        };
        assert(r.contents() =~= (StoreView { atoms: Map::empty(), edges: Seq::empty() }));
        r
    }

    fn add_atom(&mut self, atom: CodeAtom)
        requires
            old(self).wf(),
        ensures
            final(self).wf(),
            final(self).contents() == (StoreView {
                atoms: old(self).contents().atoms.insert(atom.deep_view().id, atom.deep_view()),
                edges: old(self).contents().edges,
            }),
    {
        let ghost before = *self;
        let ghost view = atom.deep_view();
        let found: Option<usize> = match self.atom_slots.get(atom.id.as_str()) {
            Some(slot) => Some(*slot),
            None => None,
        };
        match found {
            Some(slot) => {
                self.atoms.set(slot, atom);
            },
            None => {
                let slot: usize = self.atoms.len();
                self.atom_slots.insert(atom.id.to_string(), slot);
                self.atoms.push(atom);
            },
        }
        assert(self.contents().atoms =~= before.contents().atoms.insert(view.id, view));
    }

    /// The slot of an endpoint, given out at its first use.
    fn slot_of(&mut self, id: &EntityId) -> (r: usize)
        requires
            old(self).wf_atoms(),
            old(self).wf_slots(),
            old(self).wf_index(),
        ensures
            final(self).wf_atoms(),
            final(self).wf_slots(),
            final(self).wf_index(),
            final(self).contents() == old(self).contents(),
            final(self).edges == old(self).edges,
            final(self).slots@.contains_key(id@),
            final(self).slots@[id@] == r,
            forall|k: Seq<char>| #[trigger]
                old(self).slots@.contains_key(k) ==> final(self).slots@.contains_key(k)
                    && final(self).slots@[k] == old(self).slots@[k],
            forall|k: Seq<char>| #[trigger]
                final(self).slots@.contains_key(k) ==> old(self).slots@.contains_key(k) || k == id@,
    {
        match self.slots.get(id.as_str()) {
            Some(slot) => {
                return *slot;
            },
            None => {},
        }
        let ghost before = *self;
        let slot: usize = self.forward_idx.len();
        self.slots.insert(id.to_string(), slot);
        self.forward_idx.push(Vec::new());
        self.reverse_idx.push(Vec::new());
        proof {
            let es = self.edges.deep_view();
            assert forall|i: int| 0 <= i < es.len() implies (#[trigger] es[i]).from != id@
                && es[i].to != id@ by {
                assert(before.slots@.contains_key(before.edges[i].from@));
            }
            lemma_positions_absent(es, id@, true);
            lemma_positions_absent(es, id@, false);
            assert(self.contents() =~= before.contents());
        }
        slot
    }

    fn add_edge(&mut self, edge: Edge)
        requires
            old(self).wf(),
        ensures
            final(self).wf(),
            final(self).contents() == (StoreView {
                atoms: old(self).contents().atoms,
                edges: old(self).contents().edges.push(edge.deep_view()),
            }),
            old(self).no_spare_slots() ==> final(self).no_spare_slots(),
    {
        let from = self.slot_of(&edge.from);
        let to = self.slot_of(&edge.to);
        let ghost before = *self;
        let ghost view = edge.deep_view();
        let idx: usize = self.edges.len();
        self.edges.push(edge);
        self.forward_idx[from].push(idx);
        self.reverse_idx[to].push(idx);
        proof {
            let es = self.edges.deep_view();
            assert(es =~= before.edges.deep_view().push(view));
            assert(es.drop_last() =~= before.edges.deep_view());
            assert forall|k: Seq<char>| #[trigger] self.slots@.contains_key(k) implies
                self.forward_idx[self.slots@[k] as int]@ == positions(es, k, true)
                && self.reverse_idx[self.slots@[k] as int]@ == positions(es, k, false) by {
                assert(before.slots@.contains_key(k));
            }
            assert(self.contents() =~= (StoreView {
                atoms: before.contents().atoms,
                edges: before.contents().edges.push(view),
            }));
            if old(self).no_spare_slots() {
                let had = old(self).edges.deep_view();
                assert(es =~= had.push(view));
                assert forall|k: Seq<char>| #[trigger] self.slots@.contains_key(k) implies
                    is_endpoint(es, k) by {
                    if old(self).slots@.contains_key(k) {
                        let i = choose|i: int|
                            0 <= i < had.len() && ((#[trigger] had[i]).from == k || had[i].to == k);
                        assert(es[i] == had[i]);
                    } else {
                        assert(es[had.len() as int] == view);
                    }
                }
            }
        }
    }

    /// The positions of the edges that leave `id` (`out`) or enter it; `None`
    /// where there are none.
    fn incident(&self, id: &EntityId, out: bool) -> (r: Option<&Vec<usize>>)
        requires
            self.wf(),
        ensures
            match r {
                Some(v) => v@ == positions(self.edges.deep_view(), id@, out),
                None => positions(self.edges.deep_view(), id@, out) == Seq::<usize>::empty(),
            },
    {
        match self.slots.get(id.as_str()) {
            Some(slot) => if out {
                Some(&self.forward_idx[*slot])
            } else {
                Some(&self.reverse_idx[*slot])
            },
            None => {
                proof {
                    let es = self.edges.deep_view();
                    assert forall|i: int| 0 <= i < es.len() implies (#[trigger] es[i]).from != id@
                        && es[i].to != id@ by {
                        assert(self.slots@.contains_key(self.edges[i].from@));
                    }
                    lemma_positions_absent(es, id@, out);
                }
                None
            },
        }
    }

    /// Recomputes both indices from the edges, whatever the indices held.
    fn rebuild_indices(&mut self)
        requires
            old(self).wf_atoms(),
        ensures
            final(self).wf(),
            final(self).no_spare_slots(),
            final(self).contents() == old(self).contents(),
    {
        let mut fresh = Inner::empty();
        std::mem::swap(&mut fresh.atoms, &mut self.atoms);
        std::mem::swap(&mut fresh.atom_slots, &mut self.atom_slots);
        let ghost kept = fresh.contents().atoms;
        let mut i: usize = 0;
        while i < self.edges.len()
            invariant
                i <= self.edges.len(),
                self.edges == old(self).edges,
                fresh.wf(),
                fresh.no_spare_slots(),
                fresh.contents().atoms == kept,
                fresh.contents().edges == old(self).edges.deep_view().take(i as int),
            decreases self.edges.len() - i,
        {
            let e = self.edges[i].clone();
            fresh.add_edge(e);
            proof {
                let es = old(self).edges.deep_view();
                assert(es.take(i as int).push(es[i as int]) =~= es.take(i + 1));
            }
            i += 1;
        }
        proof {
            let es = old(self).edges.deep_view();
            assert(es.take(es.len() as int) =~= es);
            assert(kept =~= old(self).contents().atoms);
        }
        *self = fresh;
    }

    /// Whether `v` is one of the picked atoms.
    spec fn picked(&self, pick: Seq<usize>, v: AtomView) -> bool {
        exists|j: int|
            0 <= j < pick.len() && v == (#[trigger] self.atoms[pick[j] as int]).deep_view()
    }

    /// The picked atoms, in ascending order of identifier.
    fn collect_sorted(&self, pick: &Vec<usize>) -> (r: Vec<CodeAtom>)
        requires
            self.wf(),
            forall|i: int| 0 <= i < pick.len() ==> #[trigger] pick@[i] < self.atoms.len(),
            forall|i: int, j: int| 0 <= i < j < pick.len() ==> #[trigger] pick@[i] < #[trigger] pick@[j],
        ensures
            forall|i: int, j: int|
                0 <= i < j < r.len() ==> text_lt(
                    (#[trigger] r.deep_view()[i]).id,
                    (#[trigger] r.deep_view()[j]).id,
                ),
            forall|i: int| 0 <= i < r.len() ==> self.picked(pick@, #[trigger] r.deep_view()[i]),
            forall|j: int|
                0 <= j < pick.len() ==> r.deep_view().contains(
                    (#[trigger] self.atoms[pick@[j] as int]).deep_view(),
                ),
    {
        let mut keys: Vec<String> = Vec::new();
        let mut i: usize = 0;
        while i < pick.len()
            invariant
                i <= pick.len(),
                keys.len() == i,
                forall|k: int| 0 <= k < pick.len() ==> #[trigger] pick@[k] < self.atoms.len(),
                forall|k: int|
                    0 <= k < i ==> (#[trigger] keys@[k])@ == self.atoms[pick@[k] as int].id@,
            decreases pick.len() - i,
        {
            keys.push(self.atoms[pick[i]].id.to_string());
            i += 1;
        }
        let sorted = sort_positions(&keys);
        let mut out: Vec<CodeAtom> = Vec::new();
        let mut i: usize = 0;
        while i < sorted.len()
            invariant
                i <= sorted.len(),
                out.len() == i,
                keys.len() == pick.len(),
                lists(sorted@, 0, pick.len() as int),
                forall|k: int| 0 <= k < pick.len() ==> #[trigger] pick@[k] < self.atoms.len(),
                forall|k: int|
                    0 <= k < i ==> (#[trigger] out@[k]).deep_view()
                        == self.atoms[pick@[sorted@[k] as int] as int].deep_view(),
            decreases sorted.len() - i,
        {
            out.push(self.atoms[pick[sorted[i]]].clone());
            i += 1;
        }
        proof {
            let dv = out.deep_view();
            assert forall|i: int, j: int| 0 <= i < j < out.len() implies text_lt(
                (#[trigger] dv[i]).id,
                (#[trigger] dv[j]).id,
            ) by {
                let a = sorted@[i] as int;
                let b = sorted@[j] as int;
                assert(crate::order::goes_first(keys@, a, b));
                assert(out@[i].deep_view() == self.atoms[pick@[a] as int].deep_view());
                assert(out@[j].deep_view() == self.atoms[pick@[b] as int].deep_view());
                crate::text::lemma_text_lt_total(keys@[a]@, keys@[b]@);
                if keys@[a]@ == keys@[b]@ {
                    assert(self.atom_slots@[self.atoms[pick@[a] as int].id@] == pick@[a]);
                    assert(self.atom_slots@[self.atoms[pick@[b] as int].id@] == pick@[b]);
                    assert(a != b);
                    assert(pick@[a] != pick@[b]);
                }
            }
            assert forall|i: int| 0 <= i < out.len() implies self.picked(
                pick@,
                #[trigger] dv[i],
            ) by {
                let a = sorted@[i] as int;
                assert(out@[i].deep_view() == self.atoms[pick@[a] as int].deep_view());
            }
            assert forall|j: int| 0 <= j < pick.len() implies dv.contains(
                (#[trigger] self.atoms[pick@[j] as int]).deep_view(),
            ) by {
                assert(sorted@.contains(j as usize));
                let k = choose|k: int| 0 <= k < sorted.len() && sorted@[k] == j as usize;
                assert(out@[k].deep_view() == self.atoms[pick@[j] as int].deep_view());
                assert(dv[k] == self.atoms[pick@[j] as int].deep_view());
            }
        }
        out
    }

    /// What [`Inner::collect_sorted`] returns for the atoms that satisfy `p`
    /// is the listing of them.
    proof fn lemma_listing(
        &self,
        p: spec_fn(AtomView) -> bool,
        pick: Seq<usize>,
        r: Seq<AtomView>,
    )
        requires
            self.wf(),
            forall|i: int|
                0 <= i < self.atoms.len() && p((#[trigger] self.atoms[i]).deep_view())
                    ==> pick.contains(i as usize),
            forall|j: int|
                0 <= j < pick.len() ==> (#[trigger] pick[j]) < self.atoms.len() && p(
                    self.atoms[pick[j] as int].deep_view(),
                ),
            forall|i: int, j: int|
                0 <= i < j < r.len() ==> text_lt((#[trigger] r[i]).id, (#[trigger] r[j]).id),
            forall|i: int| 0 <= i < r.len() ==> self.picked(pick, #[trigger] r[i]),
            forall|j: int|
                0 <= j < pick.len() ==> r.contains(
                    (#[trigger] self.atoms[pick[j] as int]).deep_view(),
                ),
        ensures
            listing(self.contents().atoms, p, r),
    {
        let m = self.contents().atoms;
        assert forall|i: int| 0 <= i < r.len() implies m.contains_key((#[trigger] r[i]).id)
            && m[r[i].id] == r[i] && p(r[i]) by {
            let j = choose|j: int|
                0 <= j < pick.len() && r[i] == (#[trigger] self.atoms[pick[j] as int]).deep_view();
            assert(pick[j] < self.atoms.len());
        }
        assert forall|id: Seq<char>| #[trigger] m.contains_key(id) && p(m[id]) implies r.contains(
            m[id],
        ) by {
            let i = self.atom_slots@[id] as int;
            assert(p(self.atoms[i].deep_view()));
            let j = choose|j: int| 0 <= j < pick.len() && pick[j] == i as usize;
            assert(r.contains(self.atoms[pick[j] as int].deep_view()));
        }
    }

    /// The walk back from `target`: what it records, the nodes that it reaches,
    /// and the number of the node that discovered each.
    fn walk_back(&self, target: &EntityId, hops: u8) -> (r: (
        Predecessors,
        Vec<EntityId>,
        Vec<usize>,
    ))
        requires
            self.wf(),
        ensures
            walk_of(r.1, r.2, r.0) == walk(self.edges.deep_view(), target@, hops as nat),
    {
        let ghost es = self.edges.deep_view();
        let mut preds = Predecessors::new();
        let mut reached: Vec<EntityId> = Vec::new();
        reached.push(target.clone());
        let mut parents: Vec<usize> = Vec::new();
        parents.push(0);
        let mut seen: StringHashMap<bool> = StringHashMap::new();
        seen.insert(target.to_string(), true);
        let mut lo: usize = 0;
        let mut h: u8 = 0;
        proof {
            assert(walk_of(reached, parents, preds) =~= start(target@));
            assert(reached.deep_view()[0] == target@);
        }
        while h < hops
            invariant
                self.wf(),
                es == self.edges.deep_view(),
                h <= hops,
                walk_of(reached, parents, preds) == rounds(es, target@, h as nat).0,
                lo == rounds(es, target@, h as nat).1,
                lo <= reached.len(),
                seen_all(seen, reached.deep_view()),
            ensures
                walk_of(reached, parents, preds) == walk(es, target@, hops as nat),
            decreases hops - h,
        {
            let hi: usize = reached.len();
            let mut i: usize = lo;
            let ghost begun = walk_of(reached, parents, preds);
            proof {
                crate::graph::reach::lemma_rounds_sound(es, target@, h as nat);
            }
            while i < hi
                invariant
                    self.wf(),
                    es == self.edges.deep_view(),
                    lo <= i <= hi,
                    hi == begun.reached.len(),
                    sound(es, target@, begun),
                    walk_of(reached, parents, preds) == expand_range(
                        es,
                        begun,
                        lo as nat,
                        i as nat,
                    ),
                    hi <= reached.len(),
                    seen_all(seen, reached.deep_view()),
                decreases hi - i,
            {
                proof {
                    crate::graph::reach::lemma_expand_range_sound(
                        es,
                        target@,
                        begun,
                        lo as nat,
                        i as nat,
                    );
                }
                self.expand_node(i, target, &mut reached, &mut parents, &mut preds, &mut seen);
                i += 1;
                proof {
                    crate::graph::reach::lemma_expand_range_sound(
                        es,
                        target@,
                        begun,
                        lo as nat,
                        i as nat,
                    );
                    assert(reached.deep_view().len() == reached.len());
                }
            }
            h += 1;
            lo = hi;
            if reached.len() == hi {
                proof {
                    crate::graph::reach::lemma_rounds_done(es, target@, h as nat, hops as nat);
                }
                break;
            }
        }
        (preds, reached, parents)
    }

    /// Looks at every edge into node number `k`.
    fn expand_node(
        &self,
        k: usize,
        target: &EntityId,
        reached: &mut Vec<EntityId>,
        parents: &mut Vec<usize>,
        preds: &mut Predecessors,
        seen: &mut StringHashMap<bool>,
    )
        requires
            self.wf(),
            k < old(reached).len(),
            sound(
                self.edges.deep_view(),
                target@,
                walk_of(*old(reached), *old(parents), *old(preds)),
            ),
            seen_all(*old(seen), old(reached).deep_view()),
        ensures
            walk_of(*final(reached), *final(parents), *final(preds)) == expand(
                self.edges.deep_view(),
                walk_of(*old(reached), *old(parents), *old(preds)),
                k as nat,
            ),
            seen_all(*final(seen), final(reached).deep_view()),
    {
        let ghost es = self.edges.deep_view();
        let ghost begun = walk_of(*reached, *parents, *preds);
        let ghost ins = edges_in(es, begun.reached[k as int]);
        proof {
            assert(es.len() == self.edges.len());
            lemma_positions(es, begun.reached[k as int], false);
        }
        let node = reached[k].clone();
        match self.incident(&node, false) {
            None => {
                assert(at(es, Seq::<usize>::empty()) =~= Seq::<EdgeView>::empty());
                assert(ins =~= Seq::<EdgeView>::empty());
            },
            Some(idxs) => {
                let mut j: usize = 0;
                assert(ins.take(0) =~= Seq::<EdgeView>::empty());
                while j < idxs.len()
                    invariant
                        j <= idxs.len(),
                        k < begun.reached.len(),
                        es == self.edges.deep_view(),
                        node@ == begun.reached[k as int],
                        ins == edges_in(es, node@),
                        ins == at(es, idxs@),
                        forall|x: int|
                            0 <= x < idxs.len() ==> #[trigger] idxs@[x] < self.edges.len(),
                        sound(es, target@, begun),
                        walk_of(*reached, *parents, *preds) == see_all(
                            begun,
                            k as nat,
                            ins.take(j as int),
                        ),
                        seen_all(*seen, reached.deep_view()),
                    decreases idxs.len() - j,
                {
                    let ghost before = walk_of(*reached, *parents, *preds);
                    proof {
                        crate::graph::reach::lemma_see_all_sound(
                            es,
                            target@,
                            begun,
                            k as nat,
                            j as int,
                        );
                        assert(before.reached.take(begun.reached.len() as int)[k as int]
                            == begun.reached[k as int]);
                        assert(before.reached[k as int] == node@);
                        assert(ins.take(j + 1).drop_last() =~= ins.take(j as int));
                        assert(ins.take(j + 1).last() == ins[j as int]);
                        assert(ins[j as int] == self.edges[idxs@[j as int] as int].deep_view());
                        assert(before.reached.len() == reached.len());
                        assert(before.parents.len() == parents.len());
                    }
                    let edge = &self.edges[idxs[j]];
                    if edge.kind == EdgeKind::Calls {
                        let caller = &edge.from;
                        if !caller.same(target) && !path_contains(reached, parents, k, caller) {
                            preds.add(caller, &node);
                            if !seen.contains_key(caller.as_str()) {
                                seen.insert(caller.to_string(), true);
                                reached.push(caller.clone());
                                parents.push(k);
                                proof {
                                    assert(reached.deep_view() =~= before.reached.push(caller@));
                                    assert(nats(parents@) =~= before.parents.push(k as nat));
                                    assert(reached.deep_view()[before.reached.len() as int]
                                        == caller@);
                                    assert forall|x: Seq<char>|
                                        before.reached.contains(
                                            x,
                                        ) implies reached.deep_view().contains(x) by {
                                        let w = choose|w: int|
                                            0 <= w < before.reached.len() && before.reached[w]
                                                == x;
                                        assert(reached.deep_view()[w] == x);
                                    }
                                }
                            }
                        }
                        assert(walk_of(*reached, *parents, *preds) =~= see(
                            before,
                            k as nat,
                            caller@,
                        ));
                    }
                    j += 1;
                }
                assert(ins.take(ins.len() as int) =~= ins);
            },
        }
    }
}

// ── Predecessors ─────────────────────────────────────────────────────────────

struct Lists {
    keys: Vec<EntityId>,
    lists: StringHashMap<Vec<EntityId>>,
}

impl Lists {
    spec fn wf(&self) -> bool {
        &&& forall|k: Seq<char>| #[trigger]
            self.lists@.contains_key(k) <==> self.keys.deep_view().contains(k)
        &&& self.keys.deep_view().no_duplicates()
    }

    spec fn contents(&self) -> Map<Seq<char>, Seq<Seq<char>>> {
        Map::new(
            |k: Seq<char>| self.lists@.contains_key(k),
            |k: Seq<char>| self.lists@[k].deep_view(),
        )
    }

    fn empty() -> (r: Self)
        ensures
            r.wf(),
            r.contents() == Map::<Seq<char>, Seq<Seq<char>>>::empty(),
    {
        let r = Lists { keys: Vec::new(), lists: StringHashMap::new() };
        assert(r.contents() =~= Map::<Seq<char>, Seq<Seq<char>>>::empty());
        r
    }

    fn add(&mut self, caller: &EntityId, node: &EntityId)
        requires
            old(self).wf(),
        ensures
            final(self).wf(),
            final(self).contents() == old(self).contents().insert(
                caller@,
                list_at(old(self).contents(), caller@).push(node@),
            ),
    {
        let ghost before = self.contents();
        let ghost keys = self.keys.deep_view();
        let mut fresh = false;
        let mut list: Vec<EntityId> = match self.lists.get(caller.as_str()) {
            Some(list) => crate::model::clone_ids(list),
            None => {
                fresh = true;
                Vec::new()
            },
        };
        let ghost had = list.deep_view();
        assert(had =~= list_at(before, caller@));
        list.push(node.clone());
        assert(list.deep_view() =~= had.push(node@));
        self.lists.insert(caller.to_string(), list);
        if fresh {
            self.keys.push(caller.clone());
            proof {
                assert(self.keys.deep_view() =~= keys.push(caller@));
                assert(keys.push(caller@).last() == caller@);
                assert forall|k: Seq<char>| keys.contains(k) implies keys.push(caller@).contains(
                    k,
                ) by {
                    let i = choose|i: int| 0 <= i < keys.len() && keys[i] == k;
                    assert(keys.push(caller@)[i] == k);
                }
            }
        }
        assert(self.contents() =~= before.insert(caller@, had.push(node@)));
    }

    proof fn lemma_finite(&self)
        requires
            self.wf(),
        ensures
            self.contents().dom().finite(),
            self.contents().dom().len() == self.keys.len(),
    {
        let keys = self.keys.deep_view();
        keys.unique_seq_to_set();
        assert(self.contents().dom() =~= keys.to_set());
    }
}

/// For each caller in the region of a reverse walk, nodes that it calls.
pub struct Predecessors {
    inner: Lists,
}

impl View for Predecessors {
    type V = Map<Seq<char>, Seq<Seq<char>>>;

    closed spec fn view(&self) -> Map<Seq<char>, Seq<Seq<char>>> {
        self.inner.contents()
    }
}

impl Predecessors {
    #[verifier::type_invariant]
    spec fn keyed(&self) -> bool {
        self.inner.wf()
    }

    /// No predecessors at all.
    pub fn new() -> (r: Self)
        ensures
            r@ == Map::<Seq<char>, Seq<Seq<char>>>::empty(),
    {
        Predecessors { inner: Lists::empty() }
    }

    /// Appends `node` to the list of `caller`.
    pub fn add(&mut self, caller: &EntityId, node: &EntityId)
        ensures
            final(self)@ == old(self)@.insert(
                caller@,
                list_at(old(self)@, caller@).push(node@),
            ),
    {
        proof {
            use_type_invariant(&*self);
        }
        let mut inner = Lists::empty();
        std::mem::swap(&mut inner, &mut self.inner);
        inner.add(caller, node);
        self.inner = inner;
    }

    /// The list of `caller`.
    pub fn get(&self, caller: &EntityId) -> (r: Option<&Vec<EntityId>>)
        ensures
            match r {
                Some(list) => self@.contains_key(caller@) && list.deep_view() == self@[caller@],
                None => !self@.contains_key(caller@),
            },
    {
        self.inner.lists.get(caller.as_str())
    }

    /// Whether `caller` has a list.
    pub fn contains_key(&self, caller: &EntityId) -> (r: bool)
        ensures
            r == self@.contains_key(caller@),
    {
        self.inner.lists.contains_key(caller.as_str())
    }

    /// Number of callers with a list.
    pub fn len(&self) -> (r: usize)
        ensures
            self@.dom().finite(),
            r == self@.dom().len(),
    {
        proof {
            use_type_invariant(self);
            self.inner.lemma_finite();
        }
        self.inner.keys.len()
    }

    /// Whether no caller has a list.
    pub fn is_empty(&self) -> (r: bool)
        ensures
            r == (self@ == Map::<Seq<char>, Seq<Seq<char>>>::empty()),
    {
        let n: usize = self.len();
        proof {
            if n == 0 {
                assert(self@.dom() =~= Set::<Seq<char>>::empty());
                assert(self@ =~= Map::<Seq<char>, Seq<Seq<char>>>::empty());
            }
        }
        n == 0
    }
}

/// Positions as natural numbers.
spec fn nats(s: Seq<usize>) -> Seq<nat> {
    Seq::new(s.len(), |i: int| s[i] as nat)
}

/// The walk that the working lists stand for.
spec fn walk_of(reached: Vec<EntityId>, parents: Vec<usize>, preds: Predecessors) -> Walk {
    Walk { reached: reached.deep_view(), parents: nats(parents@), preds: preds@ }
}

/// Whether `seen` holds exactly the reached nodes.
spec fn seen_all(seen: StringHashMap<bool>, reached: Seq<Seq<char>>) -> bool {
    forall|x: Seq<char>| #[trigger] seen@.contains_key(x) <==> reached.contains(x)
}

/// Whether `needle` lies on the discovery path from node number `start` back
/// to the root of the walk.
fn path_contains(
    reached: &Vec<EntityId>,
    parents: &Vec<usize>,
    start: usize,
    needle: &EntityId,
) -> (r: bool)
    requires
        start < reached.len(),
        reached.len() == parents.len(),
    ensures
        r == on_path(reached.deep_view(), nats(parents@), start as nat, needle@),
{
    let mut cur: usize = start;
    loop
        invariant
            cur < reached.len(),
            reached.len() == parents.len(),
            on_path(reached.deep_view(), nats(parents@), start as nat, needle@) == on_path(
                reached.deep_view(),
                nats(parents@),
                cur as nat,
                needle@,
            ),
        decreases cur,
    {
        if reached[cur].same(needle) {
            return true;
        }
        let next: usize = parents[cur];
        if next >= cur {
            return false;
        }
        cur = next;
    }
}

// ── Toward the target ────────────────────────────────────────────────────────

proof fn lemma_depth_bound(parents: Seq<nat>, k: nat)
    ensures
        depth(parents, k) <= k,
    decreases k,
{
    if parents[k as int] < k {
        lemma_depth_bound(parents, parents[k as int]);
    }
}

/// How many discoveries lie between each node and the target.
fn depths_of(parents: &Vec<usize>) -> (r: Vec<usize>)
    ensures
        r.len() == parents.len(),
        forall|i: int|
            0 <= i < r.len() ==> #[trigger] r@[i] == depth(nats(parents@), i as nat),
{
    let ghost ps = nats(parents@);
    let mut out: Vec<usize> = Vec::new();
    let mut i: usize = 0;
    while i < parents.len()
        invariant
            i <= parents.len(),
            ps == nats(parents@),
            out.len() == i,
            forall|k: int| 0 <= k < i ==> #[trigger] out@[k] == depth(ps, k as nat),
        decreases parents.len() - i,
    {
        let p = parents[i];
        assert(ps[i as int] == p);
        if p < i {
            proof {
                lemma_depth_bound(ps, p as nat);
            }
            out.push(out[p] + 1);
        } else {
            out.push(0);
        }
        i += 1;
    }
    out
}

/// The number of each node.
fn numbers_of(reached: &Vec<EntityId>) -> (r: StringHashMap<usize>)
    requires
        reached.deep_view().no_duplicates(),
    ensures
        forall|i: int|
            0 <= i < reached.len() ==> r@.contains_key(#[trigger] reached.deep_view()[i])
                && r@[reached.deep_view()[i]] == i,
{
    let ghost v = reached.deep_view();
    let mut out: StringHashMap<usize> = StringHashMap::new();
    let mut i: usize = 0;
    while i < reached.len()
        invariant
            i <= reached.len(),
            v == reached.deep_view(),
            v.no_duplicates(),
            forall|k: int|
                0 <= k < i ==> out@.contains_key(#[trigger] v[k]) && out@[v[k]] == k,
        decreases reached.len() - i,
    {
        assert(v[i as int] == reached[i as int]@);
        out.insert(reached[i].to_string(), i);
        i += 1;
    }
    out
}

/// The lists of a map under some of its keys.
spec fn part(m: Map<Seq<char>, Seq<Seq<char>>>, keys: Seq<Seq<char>>) -> Map<
    Seq<char>,
    Seq<Seq<char>>,
> {
    Map::new(|c: Seq<char>| m.contains_key(c) && keys.contains(c), |c: Seq<char>| m[c])
}

/// A map with one more list, unless that is empty.
spec fn with_list(
    m: Map<Seq<char>, Seq<Seq<char>>>,
    c: Seq<char>,
    list: Seq<Seq<char>>,
) -> Map<Seq<char>, Seq<Seq<char>>> {
    if list.len() == 0 {
        m
    } else {
        m.insert(c, list)
    }
}

/// Appends to the map the nodes of one list that are closer to the target than
/// node number `i`.
fn add_closer(
    out: &mut Predecessors,
    list: &Vec<EntityId>,
    reached: &Vec<EntityId>,
    depths: &Vec<usize>,
    numbers: &StringHashMap<usize>,
    i: usize,
    Ghost(es): Ghost<Seq<EdgeView>>,
    Ghost(target): Ghost<Seq<char>>,
    Ghost(hops): Ghost<nat>,
)
    requires
        i < reached.len(),
        depths.len() == reached.len(),
        reached.deep_view() == walk(es, target, hops).reached,
        forall|k: int|
            0 <= k < depths.len() ==> #[trigger] depths@[k] == depth(
                walk(es, target, hops).parents,
                k as nat,
            ),
        forall|k: int|
            0 <= k < reached.len() ==> numbers@.contains_key(#[trigger] reached.deep_view()[k])
                && numbers@[reached.deep_view()[k]] == k,
        forall|k: int|
            0 <= k < list.len() ==> reached.deep_view().contains(#[trigger] list.deep_view()[k]),
        !old(out)@.contains_key(reached.deep_view()[i as int]),
    ensures
        final(out)@ == with_list(
            old(out)@,
            reached.deep_view()[i as int],
            list.deep_view().filter(
                |n: Seq<char>| closer(es, target, n, reached.deep_view()[i as int]),
            ),
        ),
{
    let ghost v = reached.deep_view();
    let ghost c = v[i as int];
    let ghost f = |n: Seq<char>| closer(es, target, n, c);
    let ghost had = out@;
    let ghost nodes = list.deep_view();
    let mut j: usize = 0;
    proof {
        reveal(Seq::filter);
        assert(nodes.take(0).filter(f) =~= Seq::<Seq<char>>::empty());
        assert(c == reached[i as int]@);
    }
    while j < list.len()
        invariant
            j <= list.len(),
            i < reached.len(),
            depths.len() == reached.len(),
            v == reached.deep_view(),
            v == walk(es, target, hops).reached,
            c == v[i as int],
            c == reached[i as int]@,
            f == (|n: Seq<char>| closer(es, target, n, c)),
            nodes == list.deep_view(),
            !had.contains_key(c),
            forall|k: int|
                0 <= k < depths.len() ==> #[trigger] depths@[k] == depth(
                    walk(es, target, hops).parents,
                    k as nat,
                ),
            forall|k: int|
                0 <= k < reached.len() ==> numbers@.contains_key(#[trigger] v[k]) && numbers@[v[k]]
                    == k,
            forall|k: int| 0 <= k < list.len() ==> v.contains(#[trigger] nodes[k]),
            out@ == with_list(had, c, nodes.take(j as int).filter(f)),
        decreases list.len() - j,
    {
        let ghost now = nodes.take(j as int).filter(f);
        proof {
            reveal(Seq::filter);
            assert(nodes[j as int] == list[j as int]@);
            assert(nodes.take(j + 1).drop_last() =~= nodes.take(j as int));
            assert(nodes.take(j + 1).last() == nodes[j as int]);
            let q = choose|q: int| 0 <= q < v.len() && v[q] == nodes[j as int];
            assert(numbers@.contains_key(v[q]));
        }
        match numbers.get(list[j].as_str()) {
            Some(k) => {
                let k: usize = *k;
                proof {
                    let q = choose|q: int| 0 <= q < v.len() && v[q] == nodes[j as int];
                    assert(numbers@[v[q]] == q);
                    assert(k == q);
                    crate::graph::reach::lemma_closer_depth(es, target, hops, k as nat, i as nat);
                }
                if depths[k] < depths[i] {
                    assert(list_at(out@, c) =~= now);
                    out.add(&reached[i], &list[j]);
                    assert(out@ =~= with_list(had, c, now.push(nodes[j as int])));
                }
            },
            None => {},
        }
        j += 1;
    }
    assert(nodes.take(list.len() as int) =~= nodes);
}

/// Of what a walk recorded, the calls that lead closer to its target.
fn keep_closer(
    all: &Predecessors,
    reached: &Vec<EntityId>,
    parents: &Vec<usize>,
    Ghost(es): Ghost<Seq<EdgeView>>,
    Ghost(target): Ghost<Seq<char>>,
    Ghost(hops): Ghost<nat>,
) -> (r: Predecessors)
    requires
        walk_of(*reached, *parents, *all) == walk(es, target, hops),
    ensures
        r@ == toward(es, target, all@),
{
    let ghost w = walk(es, target, hops);
    let ghost v = reached.deep_view();
    let ghost want = toward(es, target, all@);
    proof {
        crate::graph::reach::law_walk_reaches(es, target, hops);
        assert(parents.len() == reached.len()) by {
            assert(nats(parents@).len() == v.len());
        }
    }
    let depths = depths_of(parents);
    let numbers = numbers_of(reached);
    let mut out = Predecessors::new();
    let mut i: usize = 0;
    assert(out@ =~= part(want, v.take(0)));
    while i < reached.len()
        invariant
            i <= reached.len(),
            depths.len() == reached.len(),
            v == reached.deep_view(),
            w == walk(es, target, hops),
            v == w.reached,
            all@ == w.preds,
            sound(es, target, w),
            want == toward(es, target, all@),
            forall|k: int|
                0 <= k < depths.len() ==> #[trigger] depths@[k] == depth(w.parents, k as nat),
            forall|k: int|
                0 <= k < reached.len() ==> numbers@.contains_key(#[trigger] v[k]) && numbers@[v[k]]
                    == k,
            out@ == part(want, v.take(i as int)),
        decreases reached.len() - i,
    {
        let ghost c = v[i as int];
        let ghost had = out@;
        proof {
            assert(c == reached[i as int]@);
            assert(!v.take(i as int).contains(c));
            crate::graph::reach::law_leads_to_target(es, target, hops, c);
            crate::keys::lemma_push_contains(v.take(i as int), c);
            assert(v.take(i + 1) =~= v.take(i as int).push(c));
        }
        match all.get(&reached[i]) {
            Some(list) => {
                proof {
                    assert forall|k: int| 0 <= k < list.len() implies v.contains(
                        #[trigger] list.deep_view()[k],
                    ) by {
                        assert(w.preds[c][k] == list.deep_view()[k]);
                    }
                }
                add_closer(
                    &mut out,
                    list,
                    reached,
                    &depths,
                    &numbers,
                    i,
                    Ghost(es),
                    Ghost(target),
                    Ghost(hops),
                );
                assert(want.contains_key(c));
                assert(out@ =~= had.insert(c, want[c]));
                assert(out@ =~= part(want, v.take(i + 1)));
            },
            None => {
                assert(out@ =~= part(want, v.take(i + 1)));
            },
        }
        i += 1;
    }
    proof {
        assert(v.take(v.len() as int) =~= v);
        assert(part(want, v) =~= want);
    }
    out
}

// ── Store ────────────────────────────────────────────────────────────────────

/// Lightweight in-memory graph of [`CodeAtom`]s and [`Edge`]s.
pub struct Store {
    inner: Inner,
}

impl View for Store {
    type V = StoreView;

    closed spec fn view(&self) -> StoreView {
        self.inner.contents()
    }
}

impl Default for Store {
    fn default() -> (r: Self)
        ensures
            r@ == (StoreView { atoms: Map::empty(), edges: Seq::empty() }),
    {
        Store::new()
    }
}

impl Store {
    #[verifier::type_invariant]
    spec fn indexed(&self) -> bool {
        self.inner.wf()
    }

    /// An empty store.
    pub fn new() -> (r: Self)
        ensures
            r@ == (StoreView { atoms: Map::empty(), edges: Seq::empty() }),
    {
        Store { inner: Inner::empty() }
    }

    /// Inserts an atom, or replaces the one with the same identifier.
    pub fn add_atom(&mut self, atom: CodeAtom)
        ensures
            final(self)@ == old(self)@.with_atom(atom.deep_view()),
            final(self)@.wf(),
    {
        proof {
            use_type_invariant(&*self);
        }
        let mut inner = Inner::empty();
        std::mem::swap(&mut inner, &mut self.inner);
        inner.add_atom(atom);
        proof {
            lemma_atom_count(inner);
        }
        self.inner = inner;
    }

    /// Records a directed edge. Both endpoints may be absent.
    pub fn add_edge(&mut self, edge: Edge)
        ensures
            final(self)@ == (StoreView {
                atoms: old(self)@.atoms,
                edges: old(self)@.edges.push(edge.deep_view()),
            }),
            final(self)@.wf(),
    {
        proof {
            use_type_invariant(&*self);
        }
        let mut inner = Inner::empty();
        std::mem::swap(&mut inner, &mut self.inner);
        inner.add_edge(edge);
        proof {
            lemma_atom_count(inner);
        }
        self.inner = inner;
    }

    /// Recomputes both indices from the edges. Nothing observable changes.
    pub fn rebuild_indices(&mut self)
        ensures
            final(self)@ == old(self)@,
    {
        proof {
            use_type_invariant(&*self);
        }
        let mut inner = Inner::empty();
        std::mem::swap(&mut inner, &mut self.inner);
        inner.rebuild_indices();
        self.inner = inner;
    }

    /// Looks up a single atom by identifier.
    pub fn get_atom(&self, id: &EntityId) -> (r: Option<CodeAtom>)
        ensures
            match r {
                Some(a) => self@.atoms.contains_key(id@) && a.deep_view() == self@.atoms[id@]
                    && a.deep_view().id == id@,
                None => !self@.atoms.contains_key(id@),
            },
    {
        proof {
            use_type_invariant(self);
        }
        match self.inner.atom_slots.get(id.as_str()) {
            Some(slot) => Some(self.inner.atoms[*slot].clone()),
            None => None,
        }
    }

    /// All atoms whose `file_path` is `path`, in ascending order of identifier.
    pub fn atoms_in_file(&self, path: &str) -> (r: Vec<CodeAtom>)
        ensures
            listing(self@.atoms, |a: AtomView| a.file_path == path@, r.deep_view()),
    {
        proof {
            use_type_invariant(self);
        }
        let ghost p = |a: AtomView| a.file_path == path@;
        let atoms = &self.inner.atoms;
        let mut pick: Vec<usize> = Vec::new();
        let mut i: usize = 0;
        while i < atoms.len()
            invariant
                i <= atoms.len(),
                p == (|a: AtomView| a.file_path == path@),
                picks(atoms@, p, pick@, i as int),
            decreases atoms.len() - i,
        {
            let ghost had = pick@;
            if str_eq(atoms[i].file_path.as_str(), path) {
                pick.push(i);
            }
            proof {
                lemma_picks(atoms@, p, had, pick@, i as int);
            }
            i += 1;
        }
        let r = self.inner.collect_sorted(&pick);
        proof {
            self.inner.lemma_listing(p, pick@, r.deep_view());
        }
        r
    }

    /// All atoms of one kind (e.g. `"function"`), in ascending order of
    /// identifier.
    pub fn atoms_by_kind(&self, kind: &str) -> (r: Vec<CodeAtom>)
        ensures
            listing(self@.atoms, |a: AtomView| a.kind == kind@, r.deep_view()),
    {
        proof {
            use_type_invariant(self);
        }
        let ghost p = |a: AtomView| a.kind == kind@;
        let atoms = &self.inner.atoms;
        let mut pick: Vec<usize> = Vec::new();
        let mut i: usize = 0;
        while i < atoms.len()
            invariant
                i <= atoms.len(),
                p == (|a: AtomView| a.kind == kind@),
                picks(atoms@, p, pick@, i as int),
            decreases atoms.len() - i,
        {
            let ghost had = pick@;
            if str_eq(atoms[i].kind.as_str(), kind) {
                pick.push(i);
            }
            proof {
                lemma_picks(atoms@, p, had, pick@, i as int);
            }
            i += 1;
        }
        let r = self.inner.collect_sorted(&pick);
        proof {
            self.inner.lemma_listing(p, pick@, r.deep_view());
        }
        r
    }

    /// All atoms of several kinds at once, in ascending order of identifier.
    pub fn atoms_by_kinds(&self, kinds: &[&str]) -> (r: Vec<CodeAtom>)
        ensures
            listing(self@.atoms, |a: AtomView| kinds.deep_view().contains(a.kind), r.deep_view()),
    {
        proof {
            use_type_invariant(self);
        }
        let ghost p = |a: AtomView| kinds.deep_view().contains(a.kind);
        let atoms = &self.inner.atoms;
        let mut pick: Vec<usize> = Vec::new();
        let mut i: usize = 0;
        while i < atoms.len()
            invariant
                i <= atoms.len(),
                p == (|a: AtomView| kinds.deep_view().contains(a.kind)),
                picks(atoms@, p, pick@, i as int),
            decreases atoms.len() - i,
        {
            let ghost had = pick@;
            if crate::text::contains_str(kinds, atoms[i].kind.as_str()) {
                pick.push(i);
            }
            proof {
                lemma_picks(atoms@, p, had, pick@, i as int);
            }
            i += 1;
        }
        let r = self.inner.collect_sorted(&pick);
        proof {
            self.inner.lemma_listing(p, pick@, r.deep_view());
        }
        r
    }

    /// All atoms, in ascending order of identifier.
    pub fn all_atoms(&self) -> (r: Vec<CodeAtom>)
        ensures
            lists_all(self@.atoms, r.deep_view()),
            self@.wf(),
    {
        proof {
            use_type_invariant(self);
            lemma_atom_count(self.inner);
        }
        let ghost p = |a: AtomView| true;
        let atoms = &self.inner.atoms;
        let mut pick: Vec<usize> = Vec::new();
        let mut i: usize = 0;
        while i < atoms.len()
            invariant
                i <= atoms.len(),
                p == (|a: AtomView| true),
                picks(atoms@, p, pick@, i as int),
            decreases atoms.len() - i,
        {
            let ghost had = pick@;
            pick.push(i);
            proof {
                lemma_picks(atoms@, p, had, pick@, i as int);
            }
            i += 1;
        }
        let r = self.inner.collect_sorted(&pick);
        proof {
            self.inner.lemma_listing(p, pick@, r.deep_view());
        }
        r
    }

    /// Outgoing edges of `from`, in insertion order.
    pub fn edges_from(&self, from: &EntityId) -> (r: Vec<Edge>)
        ensures
            r.deep_view() == edges_out(self@.edges, from@),
    {
        proof {
            use_type_invariant(self);
            lemma_positions(self@.edges, from@, true);
        }
        let r = match self.inner.incident(from, true) {
            Some(idxs) => pick_edges(&self.inner.edges, idxs),
            None => Vec::new(),
        };
        assert(r.deep_view() =~= edges_out(self@.edges, from@));
        r
    }

    /// Incoming edges of `to`, in insertion order.
    pub fn edges_to(&self, to: &EntityId) -> (r: Vec<Edge>)
        ensures
            r.deep_view() == edges_in(self@.edges, to@),
    {
        proof {
            use_type_invariant(self);
            lemma_positions(self@.edges, to@, false);
        }
        let r = match self.inner.incident(to, false) {
            Some(idxs) => pick_edges(&self.inner.edges, idxs),
            None => Vec::new(),
        };
        assert(r.deep_view() =~= edges_in(self@.edges, to@));
        r
    }

    /// What `from` calls: the targets of its `Calls` edges.
    pub fn call_edges_from(&self, from: &EntityId) -> (r: Vec<EntityId>)
        ensures
            r.deep_view() == targets(of_kind(edges_out(self@.edges, from@), EdgeKind::Calls)),
    {
        let edges = self.edges_from(from);
        targets_of_kind(&edges, EdgeKind::Calls)
    }

    /// What calls `to`: the sources of its incoming `Calls` edges.
    pub fn call_edges_to(&self, to: &EntityId) -> (r: Vec<EntityId>)
        ensures
            r.deep_view() == sources(of_kind(edges_in(self@.edges, to@), EdgeKind::Calls)),
    {
        let edges = self.edges_to(to);
        sources_of_kind(&edges, EdgeKind::Calls)
    }

    /// Items contained in `parent`: the targets of its `Contains` edges.
    pub fn children_of(&self, parent: &EntityId) -> (r: Vec<EntityId>)
        ensures
            r.deep_view() == targets(of_kind(edges_out(self@.edges, parent@), EdgeKind::Contains)),
    {
        let edges = self.edges_from(parent);
        targets_of_kind(&edges, EdgeKind::Contains)
    }

    /// Breadth-first walk from `target` back along `Calls` edges, at most
    /// `hops` steps: for each caller the nodes closer to `target` that it
    /// calls, and the reached nodes with `target` first.
    pub fn reverse_call_paths(&self, target: &EntityId, hops: u8) -> (r: (
        Predecessors,
        Vec<EntityId>,
    ))
        ensures
            r.0@ == toward(
                self@.edges,
                target@,
                walk(self@.edges, target@, hops as nat).preds,
            ),
            r.1.deep_view() == walk(self@.edges, target@, hops as nat).reached,
    {
        proof {
            use_type_invariant(self);
        }
        let (all, reached, parents) = self.inner.walk_back(target, hops);
        let preds = keep_closer(
            &all,
            &reached,
            &parents,
            Ghost(self@.edges),
            Ghost(target@),
            Ghost(hops as nat),
        );
        (preds, reached)
    }

    /// The same walk with every call that it saw: for each caller the nodes
    /// that it calls, also those as far from `target` as itself, but none on
    /// whose discovery path the caller lies.
    pub fn reverse_call_walk(&self, target: &EntityId, hops: u8) -> (r: (
        Predecessors,
        Vec<EntityId>,
    ))
        ensures
            r.0@ == walk(self@.edges, target@, hops as nat).preds,
            r.1.deep_view() == walk(self@.edges, target@, hops as nat).reached,
    {
        proof {
            use_type_invariant(self);
        }
        let (all, reached, _parents) = self.inner.walk_back(target, hops);
        (all, reached)
    }

    /// Whether a `Calls` edge from `from` to `to` is recorded.
    pub fn has_call_edge(&self, from: &EntityId, to: &EntityId) -> (r: bool)
        ensures
            r == calls(self@.edges, from@, to@),
    {
        let edges = self.edges_from(from);
        let ghost es = self@.edges;
        let ghost outs = edges_out(es, from@);
        let ghost p = |e: EdgeView| e.from == from@;
        let mut i: usize = 0;
        while i < edges.len()
            invariant
                i <= edges.len(),
                es == self@.edges,
                outs == edges_out(es, from@),
                edges.deep_view() == outs,
                p == (|e: EdgeView| e.from == from@),
                forall|k: int|
                    0 <= k < i ==> !((#[trigger] outs[k]).kind == EdgeKind::Calls && outs[k].to
                        == to@),
            decreases edges.len() - i,
        {
            assert(outs[i as int] == edges[i as int].deep_view());
            if edges[i].kind == EdgeKind::Calls && edges[i].to.same(to) {
                proof {
                    broadcast use vstd::seq_lib::group_filter_ensures;
                    assert(p(outs[i as int]));
                    assert(outs.contains(outs[i as int]));
                    es.lemma_filter_contains_rev(p, outs[i as int]);
                    let j = choose|j: int| 0 <= j < es.len() && es[j] == outs[i as int];
                    assert(es[j].from == from@);
                }
                return true;
            }
            i += 1;
        }
        proof {
            broadcast use vstd::seq_lib::group_filter_ensures;
            if calls(es, from@, to@) {
                let j = choose|j: int|
                    0 <= j < es.len() && (#[trigger] es[j]).from == from@ && es[j].to == to@
                        && es[j].kind == EdgeKind::Calls;
                assert(p(es[j]));
                assert(outs.contains(es[j]));
                let k = choose|k: int| 0 <= k < outs.len() && outs[k] == es[j];
                assert(outs[k].kind == EdgeKind::Calls);
            }
        }
        false
    }

    /// All edges in insertion order.
    pub fn all_edges(&self) -> (r: Vec<Edge>)
        ensures
            r.deep_view() == self@.edges,
    {
        clone_edges(&self.inner.edges)
    }

    /// Number of atoms.
    pub fn atom_count(&self) -> (r: usize)
        ensures
            self@.wf(),
            r == self@.atoms.dom().len(),
    {
        proof {
            use_type_invariant(self);
            lemma_atom_count(self.inner);
        }
        self.inner.atoms.len()
    }

    /// Number of edges.
    pub fn edge_count(&self) -> (r: usize)
        ensures
            r == self@.edges.len(),
    {
        assert(self@.edges.len() == self.inner.edges.len());
        self.inner.edges.len()
    }
}

proof fn lemma_atom_count(inner: Inner)
    requires
        inner.wf_atoms(),
    ensures
        inner.contents().atoms.dom().len() == inner.atoms.len(),
        inner.contents().wf(),
{
    let ids = Seq::new(inner.atoms@.len(), |i: int| inner.atoms@[i].id@);
    assert(ids.no_duplicates()) by {
        assert forall|i: int, j: int| 0 <= i < ids.len() && 0 <= j < ids.len() && i != j implies
            ids[i] != ids[j] by {
            assert(inner.atom_slots@[inner.atoms[i].id@] == i);
            assert(inner.atom_slots@[inner.atoms[j].id@] == j);
        }
    }
    ids.unique_seq_to_set();
    assert(ids.to_set() =~= inner.contents().atoms.dom()) by {
        assert forall|k: Seq<char>| inner.contents().atoms.dom().contains(k) implies ids.contains(
            k,
        ) by {
            assert(inner.atom_slots@.contains_key(k));
            assert(ids[inner.atom_slots@[k] as int] == k);
        }
        assert forall|k: Seq<char>| ids.contains(k) implies inner.contents().atoms.dom().contains(
            k,
        ) by {
            let i = choose|i: int| 0 <= i < ids.len() && ids[i] == k;
            assert(inner.atom_slots@.contains_key(inner.atoms[i].id@));
        }
    }
}

/// Whether `pick` lists, ascending, the positions below `n` of the atoms that
/// satisfy `p`.
spec fn picks(
    atoms: Seq<CodeAtom>,
    p: spec_fn(AtomView) -> bool,
    pick: Seq<usize>,
    n: int,
) -> bool {
    &&& forall|i: int|
        0 <= i < n && p((#[trigger] atoms[i]).deep_view()) ==> pick.contains(i as usize)
    &&& forall|j: int|
        0 <= j < pick.len() ==> (#[trigger] pick[j]) < n && p(atoms[pick[j] as int].deep_view())
    &&& forall|i: int, j: int|
        0 <= i < j < pick.len() ==> #[trigger] pick[i] < #[trigger] pick[j]
}

proof fn lemma_picks(
    atoms: Seq<CodeAtom>,
    p: spec_fn(AtomView) -> bool,
    front: Seq<usize>,
    pick: Seq<usize>,
    n: int,
)
    requires
        0 <= n < atoms.len() <= usize::MAX,
        picks(atoms, p, front, n),
        pick == (if p(atoms[n].deep_view()) {
            front.push(n as usize)
        } else {
            front
        }),
    ensures
        picks(atoms, p, pick, n + 1),
{
    if p(atoms[n].deep_view()) {
        assert forall|i: int| 0 <= i < n + 1 && p((#[trigger] atoms[i]).deep_view()) implies
            pick.contains(i as usize) by {
            if i < n {
                assert(front.contains(i as usize));
                let j = choose|j: int| 0 <= j < front.len() && front[j] == i as usize;
                assert(pick[j] == i as usize);
            } else {
                assert(pick[pick.len() - 1] == i as usize);
            }
        }
        assert forall|j: int| 0 <= j < pick.len() implies (#[trigger] pick[j]) < n + 1 && p(
            atoms[pick[j] as int].deep_view(),
        ) by {
            if j < front.len() {
                assert(front[j] == pick[j]);
            }
        }
        assert forall|i: int, j: int| 0 <= i < j < pick.len() implies #[trigger] pick[i]
            < #[trigger] pick[j] by {
            assert(front[i] == pick[i]);
            if j < front.len() {
                assert(front[j] == pick[j]);
            }
        }
    }
}

/// The edges at the given positions.
fn pick_edges(edges: &Vec<Edge>, idxs: &Vec<usize>) -> (r: Vec<Edge>)
    requires
        forall|i: int| 0 <= i < idxs.len() ==> #[trigger] idxs@[i] < edges.len(),
    ensures
        r.deep_view() == at(edges.deep_view(), idxs@),
{
    let mut out: Vec<Edge> = Vec::new();
    let mut i: usize = 0;
    while i < idxs.len()
        invariant
            i <= idxs.len(),
            out.len() == i,
            forall|k: int| 0 <= k < idxs.len() ==> #[trigger] idxs@[k] < edges.len(),
            forall|k: int|
                0 <= k < i ==> (#[trigger] out@[k]).deep_view() == edges.deep_view()[idxs@[k] as int],
        decreases idxs.len() - i,
    {
        out.push(edges[idxs[i]].clone());
        i += 1;
    }
    assert(out.deep_view() =~= at(edges.deep_view(), idxs@));
    out
}

proof fn lemma_of_kind_empty(kind: EdgeKind)
    ensures
        of_kind(Seq::<EdgeView>::empty(), kind) == Seq::<EdgeView>::empty(),
{
    reveal(Seq::filter);
}

proof fn lemma_of_kind_step(es: Seq<EdgeView>, i: int, kind: EdgeKind)
    requires
        0 <= i < es.len(),
    ensures
        of_kind(es.take(i + 1), kind) == (if es[i].kind == kind {
            of_kind(es.take(i), kind).push(es[i])
        } else {
            of_kind(es.take(i), kind)
        }),
{
    reveal(Seq::filter);
    assert(es.take(i + 1).drop_last() =~= es.take(i));
    assert(es.take(i + 1).last() == es[i]);
}

/// The targets of the edges of one kind.
pub(crate) fn targets_of_kind(edges: &Vec<Edge>, kind: EdgeKind) -> (r: Vec<EntityId>)
    ensures
        r.deep_view() == targets(of_kind(edges.deep_view(), kind)),
{
    let mut out: Vec<EntityId> = Vec::new();
    let mut i: usize = 0;
    proof {
        lemma_of_kind_empty(kind);
        assert(edges.deep_view().take(0) =~= Seq::<EdgeView>::empty());
        assert(out.deep_view() =~= targets(Seq::<EdgeView>::empty()));
    }
    while i < edges.len()
        invariant
            i <= edges.len(),
            out.deep_view() == targets(of_kind(edges.deep_view().take(i as int), kind)),
        decreases edges.len() - i,
    {
        let ghost had = out.deep_view();
        proof {
            lemma_of_kind_step(edges.deep_view(), i as int, kind);
        }
        if edges[i].kind == kind {
            out.push(edges[i].to.clone());
            assert(out.deep_view() =~= had.push(edges[i as int].to@));
        }
        i += 1;
        assert(out.deep_view() =~= targets(of_kind(edges.deep_view().take(i as int), kind)));
    }
    assert(edges.deep_view().take(edges.len() as int) =~= edges.deep_view());
    out
}

/// The sources of the edges of one kind.
pub(crate) fn sources_of_kind(edges: &Vec<Edge>, kind: EdgeKind) -> (r: Vec<EntityId>)
    ensures
        r.deep_view() == sources(of_kind(edges.deep_view(), kind)),
{
    let mut out: Vec<EntityId> = Vec::new();
    let mut i: usize = 0;
    proof {
        lemma_of_kind_empty(kind);
        assert(edges.deep_view().take(0) =~= Seq::<EdgeView>::empty());
        assert(out.deep_view() =~= sources(Seq::<EdgeView>::empty()));
    }
    while i < edges.len()
        invariant
            i <= edges.len(),
            out.deep_view() == sources(of_kind(edges.deep_view().take(i as int), kind)),
        decreases edges.len() - i,
    {
        let ghost had = out.deep_view();
        proof {
            lemma_of_kind_step(edges.deep_view(), i as int, kind);
        }
        if edges[i].kind == kind {
            out.push(edges[i].from.clone());
            assert(out.deep_view() =~= had.push(edges[i as int].from@));
        }
        i += 1;
        assert(out.deep_view() =~= sources(of_kind(edges.deep_view().take(i as int), kind)));
    }
    assert(edges.deep_view().take(edges.len() as int) =~= edges.deep_view());
    out
}

/// Whether one of `ids` is `id`.
pub fn contains_id(ids: &Vec<EntityId>, id: &EntityId) -> (r: bool)
    ensures
        r == ids.deep_view().contains(id@),
{
    let mut i: usize = 0;
    while i < ids.len()
        invariant
            i <= ids.len(),
            forall|k: int| 0 <= k < i ==> #[trigger] ids.deep_view()[k] != id@,
        decreases ids.len() - i,
    {
        assert(ids.deep_view()[i as int] == ids[i as int]@);
        if ids[i].same(id) {
            return true;
        }
        i += 1;
    }
    false
}

/// A path without repetition through keys of `m` is no longer than `m` is
/// large, but for its last node.
proof fn lemma_path_bound(m: Map<Seq<char>, Seq<Seq<char>>>, r: Seq<Seq<char>>)
    requires
        m.dom().finite(),
        r.len() > 0,
        r.no_duplicates(),
        forall|i: int| 0 <= i < r.len() - 1 ==> m.contains_key(#[trigger] r[i]),
    ensures
        r.len() <= m.dom().len() + 1,
{
    let front = r.drop_last();
    assert(front.no_duplicates());
    front.unique_seq_to_set();
    assert(front.to_set().subset_of(m.dom())) by {
        assert forall|x: Seq<char>| front.to_set().contains(x) implies m.dom().contains(x) by {
            let i = choose|i: int| 0 <= i < front.len() && front[i] == x;
            assert(r[i] == x);
        }
    }
    vstd::set_lib::lemma_len_subset(front.to_set(), m.dom());
}

/// Walks a predecessor map from `from` to the root of the walk that made it,
/// taking the first predecessor at each node.
pub fn reconstruct_path(predecessors: &Predecessors, from: &EntityId) -> (r: Vec<EntityId>)
    ensures
        first_path(predecessors@, from@, r.deep_view()),
{
    let mut path: Vec<EntityId> = Vec::new();
    path.push(from.clone());
    let mut current = from.clone();
    let ghost m = predecessors@;
    assert(path.deep_view() =~= seq![from@]);
    proof {
        use_type_invariant(predecessors);
        predecessors.inner.lemma_finite();
    }
    loop
        invariant
            m == predecessors@,
            m.dom().finite(),
            path.len() > 0,
            path.deep_view()[0] == from@,
            path.deep_view().last() == current@,
            path.deep_view().no_duplicates(),
            forall|i: int|
                0 <= i < path.len() - 1 ==> has_next(m, #[trigger] path.deep_view()[i])
                    && path.deep_view()[i + 1] == m[path.deep_view()[i]][0],
        ensures
            first_path(m, from@, path.deep_view()),
        decreases m.dom().len() + 1 - path.len(),
    {
        let ghost had = path.deep_view();
        match predecessors.get(&current) {
            None => {
                break;
            },
            Some(succs) => {
                if succs.len() == 0 {
                    assert(m[current@].len() == 0);
                    break;
                }
                assert(m[current@][0] == succs[0]@);
                if contains_id(&path, &succs[0]) {
                    break;
                }
                path.push(succs[0].clone());
                current = succs[0].clone();
                proof {
                    assert(path.deep_view() =~= had.push(current@));
                    assert forall|i: int| 0 <= i < path.len() - 1 implies has_next(
                        m,
                        #[trigger] path.deep_view()[i],
                    ) && path.deep_view()[i + 1] == m[path.deep_view()[i]][0] by {
                        assert(path.deep_view()[i] == had[i]);
                        if i < had.len() - 1 {
                            assert(path.deep_view()[i + 1] == had[i + 1]);
                        }
                    }
                    lemma_path_bound(m, path.deep_view());
                }
            },
        }
    }
    path
}

// ── Laws ─────────────────────────────────────────────────────────────────────

/// An edge is among the edges out of its source exactly where it is among the
/// edges into its target: both hold of the recorded edges and of no others.
pub proof fn law_edges_out_in(es: Seq<EdgeView>, e: EdgeView)
    ensures
        edges_out(es, e.from).contains(e) <==> es.contains(e),
        edges_in(es, e.to).contains(e) <==> es.contains(e),
{
    broadcast use vstd::seq_lib::group_filter_ensures;
    let p = |x: EdgeView| x.from == e.from;
    let q = |x: EdgeView| x.to == e.to;
    if es.contains(e) {
        let i = choose|i: int| 0 <= i < es.len() && es[i] == e;
        assert(p(es[i]) && q(es[i]));
        assert(es.filter(p).contains(es[i]));
        assert(es.filter(q).contains(es[i]));
    }
    if edges_out(es, e.from).contains(e) {
        es.lemma_filter_contains_rev(p, e);
    }
    if edges_in(es, e.to).contains(e) {
        es.lemma_filter_contains_rev(q, e);
    }
}

/// Recording an edge appends it to the edges out of its source and into its
/// target, and to no other node's.
pub proof fn law_add_edge_appends(es: Seq<EdgeView>, e: EdgeView, id: Seq<char>)
    ensures
        edges_out(es.push(e), id) == (if e.from == id {
            edges_out(es, id).push(e)
        } else {
            edges_out(es, id)
        }),
        edges_in(es.push(e), id) == (if e.to == id {
            edges_in(es, id).push(e)
        } else {
            edges_in(es, id)
        }),
{
    reveal(Seq::filter);
    assert(es.push(e).drop_last() =~= es);
}

/// A listing is determined by what it lists: two of them are equal.
pub proof fn law_listing_unique(
    atoms: Map<Seq<char>, AtomView>,
    p: spec_fn(AtomView) -> bool,
    a: Seq<AtomView>,
    b: Seq<AtomView>,
)
    requires
        listing(atoms, p, a),
        listing(atoms, p, b),
    ensures
        a == b,
    decreases a.len() + b.len(),
{
    if a.len() == 0 && b.len() == 0 {
        assert(a =~= b);
    } else {
        lemma_listing_prefix(atoms, p, a, b, a.len() as int);
        lemma_listing_prefix(atoms, p, b, a, b.len() as int);
        assert(a =~= b);
    }
}

/// A listing is a prefix of every other.
proof fn lemma_listing_prefix(
    atoms: Map<Seq<char>, AtomView>,
    p: spec_fn(AtomView) -> bool,
    a: Seq<AtomView>,
    b: Seq<AtomView>,
    n: int,
)
    requires
        listing(atoms, p, a),
        listing(atoms, p, b),
        0 <= n <= a.len(),
    ensures
        n <= b.len(),
        forall|i: int| 0 <= i < n ==> a[i] == b[i],
    decreases n,
{
    if n > 0 {
        let k = n - 1;
        lemma_listing_prefix(atoms, p, a, b, k);
        assert(atoms.contains_key(a[k].id) && p(atoms[a[k].id]));
        assert(b.contains(atoms[a[k].id]));
        let j = choose|j: int| 0 <= j < b.len() && b[j] == a[k];
        if j < k {
            assert(a[j] == a[k]);
            assert(text_lt(a[j].id, a[k].id));
            crate::text::lemma_text_lt_irreflexive(a[k].id);
        }
        assert(b[k] == a[k]) by {
            if j > k {
                assert(text_lt(b[k].id, a[k].id));
                assert(atoms.contains_key(b[k].id) && p(atoms[b[k].id]));
                assert(a.contains(atoms[b[k].id]));
                let i = choose|i: int| 0 <= i < a.len() && a[i] == b[k];
                if i < k {
                    assert(b[i] == b[k]);
                    assert(text_lt(b[i].id, b[k].id));
                    crate::text::lemma_text_lt_irreflexive(b[k].id);
                } else if i == k {
                    crate::text::lemma_text_lt_irreflexive(a[k].id);
                } else {
                    assert(text_lt(a[k].id, a[i].id));
                    crate::text::lemma_text_lt_transitive(a[k].id, a[i].id, a[k].id);
                    crate::text::lemma_text_lt_irreflexive(a[k].id);
                }
            }
        }
    }
}

/// Adding an atom replaces the one with its identifier and leaves the others and
/// the edges; the count grows by one exactly where there was none.
pub proof fn law_add_atom(s: StoreView, a: AtomView)
    requires
        s.wf(),
    ensures
        s.with_atom(a).wf(),
        s.with_atom(a).atoms.contains_key(a.id),
        s.with_atom(a).atoms[a.id] == a,
        forall|id: Seq<char>|
            id != a.id ==> (#[trigger] s.with_atom(a).atoms.contains_key(id)
                <==> s.atoms.contains_key(id)) && s.with_atom(a).atoms[id] == s.atoms[id],
        s.with_atom(a).edges == s.edges,
        s.with_atom(a).atoms.dom().len() == s.atoms.dom().len() + if s.atoms.contains_key(a.id) {
            0int
        } else {
            1
        },
{
    let n = s.with_atom(a);
    assert(n.atoms.dom() =~= s.atoms.dom().insert(a.id));
}

/// The listing of all atoms is as long as there are atoms, and agrees with the
/// lookup: an atom is in it exactly where it is found under its identifier.
pub proof fn law_listing_complete(s: StoreView, r: Seq<AtomView>)
    requires
        s.wf(),
        lists_all(s.atoms, r),
    ensures
        r.len() == s.atoms.dom().len(),
        forall|id: Seq<char>| #[trigger]
            s.atoms.contains_key(id) <==> exists|i: int| 0 <= i < r.len() && (#[trigger] r[i]).id == id,
        forall|i: int|
            0 <= i < r.len() ==> s.atoms.contains_key((#[trigger] r[i]).id) && s.atoms[r[i].id]
                == r[i],
{
    let ids = r.map_values(|a: AtomView| a.id);
    assert forall|i: int, j: int| 0 <= i < ids.len() && 0 <= j < ids.len() && i != j implies ids[i]
        != ids[j] by {
        crate::text::lemma_text_lt_irreflexive(r[i].id);
        if i < j {
            assert(text_lt(r[i].id, r[j].id));
        } else {
            assert(text_lt(r[j].id, r[i].id));
        }
    }
    assert forall|id: Seq<char>| #[trigger] s.atoms.contains_key(id) implies exists|i: int|
        0 <= i < r.len() && (#[trigger] r[i]).id == id by {
        assert(r.contains(s.atoms[id]));
        let i = choose|i: int| 0 <= i < r.len() && r[i] == s.atoms[id];
        assert(r[i].id == id);
    }
    ids.unique_seq_to_set();
    assert(ids.to_set() =~= s.atoms.dom()) by {
        assert forall|id: Seq<char>| s.atoms.dom().contains(id) implies ids.contains(id) by {
            assert(s.atoms.contains_key(id));
            let i = choose|i: int| 0 <= i < r.len() && (#[trigger] r[i]).id == id;
            assert(ids[i] == id);
        }
        assert forall|id: Seq<char>| ids.contains(id) implies s.atoms.dom().contains(id) by {
            let i = choose|i: int| 0 <= i < ids.len() && ids[i] == id;
            assert(s.atoms.contains_key(r[i].id));
        }
    }
}

} // verus!
