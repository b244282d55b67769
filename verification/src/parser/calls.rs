//! Call sites: which nodes call what, in source order.

use crate::call_flags::{AWAIT, CONDITIONAL, REPEATED};
use crate::model::{CallSite, CallSiteView};
use crate::parser::dart::{is_type_name, names_type};
use crate::parser::scope::{lookup, lookup_str, type_of, Imports, ScopeView};
use crate::parser::tree::{
    end_of, field_child, field_of, is_kind, node_text, parent_node, parent_of, subtree_end, text_of,
    NodeView, SyntaxNode,
};
use crate::parser::treesitter::Grammar;
use crate::text::str_eq;
use vstd::prelude::*;
use vstd::string::*;

verus! {

// ── Sites ────────────────────────────────────────────────────────────────────

/// The call sites of a body. `calls` can be resolved across modules; the
/// receiver of `method_calls` is unknown, so they count only within their
/// container.
#[derive(Debug)]
pub struct ExtractedCalls {
    pub calls: Vec<CallSite>,
    pub method_calls: Vec<CallSite>,
}

/// What an [`ExtractedCalls`] holds.
#[verifier::ext_equal]
pub struct CallsView {
    pub calls: Seq<CallSiteView>,
    pub method_calls: Seq<CallSiteView>,
}

impl DeepView for ExtractedCalls {
    type V = CallsView;

    open spec fn deep_view(&self) -> CallsView {
        CallsView { calls: self.calls.deep_view(), method_calls: self.method_calls.deep_view() }
    }
}

/// The rank of a site: its position among all sites of the body, as far as
/// ranks go.
pub open spec fn rank_of(n: nat) -> u16 {
    if n < 0xffff {
        n as u16
    } else {
        0xffff
    }
}

impl CallsView {
    /// No sites.
    pub open spec fn empty() -> CallsView {
        CallsView { calls: Seq::empty(), method_calls: Seq::empty() }
    }

    /// One more site, ranked after all the others.
    pub open spec fn with(self, method: bool, name: Seq<char>, flags: u8) -> CallsView {
        let site = CallSiteView {
            name,
            rank: rank_of(self.calls.len() + self.method_calls.len()),
            flags,
        };
        if method {
            CallsView { method_calls: self.method_calls.push(site), ..self }
        } else {
            CallsView { calls: self.calls.push(site), ..self }
        }
    }
}

impl ExtractedCalls {
    /// No sites.
    pub fn new() -> (r: Self)
        ensures
            r.deep_view() == CallsView::empty(),
    {
        let r = ExtractedCalls { calls: Vec::new(), method_calls: Vec::new() };
        assert(r.deep_view() =~= CallsView::empty());
        r
    }

    /// Adds a site, ranked after all the others.
    pub fn push_site(&mut self, method: bool, name: String, flags: u8)
        ensures
            final(self).deep_view() == old(self).deep_view().with(method, name@, flags),
    {
        let ghost had = self.deep_view();
        let ghost text = name@;
        let a: usize = self.calls.len();
        let b: usize = self.method_calls.len();
        assert(had.calls.len() == a && had.method_calls.len() == b);
        let rank: u16 = if a < 0xffff && b < 0xffff && a + b < 0xffff {
            (a + b) as u16
        } else {
            0xffff
        };
        let site = CallSite { name, rank, flags };
        let ghost view = site.deep_view();
        if method {
            self.method_calls.push(site);
            assert(self.method_calls.deep_view() =~= had.method_calls.push(view));
        } else {
            self.calls.push(site);
            assert(self.calls.deep_view() =~= had.calls.push(view));
        }
    }
}

// ── Control flow ─────────────────────────────────────────────────────────────

/// The flag that a node kind puts on the call sites under it.
pub open spec fn flag_of(kind: Seq<char>) -> u8 {
    if kind == "await_expression"@ || kind == "await"@ {
        AWAIT
    } else if kind == "if_expression"@ || kind == "if_statement"@ || kind == "match_expression"@
        || kind == "match_statement"@ || kind == "switch_expression"@ || kind
        == "switch_statement"@ || kind == "conditional_expression"@ {
        CONDITIONAL
    } else if kind == "for_expression"@ || kind == "for_statement"@ || kind == "while_expression"@
        || kind == "while_statement"@ || kind == "loop_expression"@ || kind == "do_statement"@ {
        REPEATED
    } else {
        0
    }
}

/// Whether a node kind is a function, at which the search for control flow
/// stops.
pub open spec fn is_function(kind: Seq<char>) -> bool {
    kind == "function_item"@ || kind == "function_definition"@ || kind == "function_declaration"@
        || kind == "method_declaration"@
}

/// The flags of the ancestors of node `j` up to the enclosing function, or up
/// to `top`.
pub open spec fn flags_above(t: Seq<NodeView>, top: int, j: int) -> u8
    decreases j,
{
    match parent_of(t, j) {
        Some(p) => if !(0 <= p < j) || p <= top || is_function(t[p].kind) {
            0
        } else {
            flag_of(t[p].kind) | flags_above(t, top, p)
        },
        None => 0,
    }
}

fn kind_flag(nodes: &Vec<SyntaxNode>, i: usize) -> (r: u8)
    requires
        i < nodes.len(),
    ensures
        r == flag_of(nodes.deep_view()[i as int].kind),
{
    if is_kind(nodes, i, "await_expression") || is_kind(nodes, i, "await") {
        AWAIT
    } else if is_kind(nodes, i, "if_expression") || is_kind(nodes, i, "if_statement") || is_kind(
        nodes,
        i,
        "match_expression",
    ) || is_kind(nodes, i, "match_statement") || is_kind(nodes, i, "switch_expression") || is_kind(
        nodes,
        i,
        "switch_statement",
    ) || is_kind(nodes, i, "conditional_expression") {
        CONDITIONAL
    } else if is_kind(nodes, i, "for_expression") || is_kind(nodes, i, "for_statement") || is_kind(
        nodes,
        i,
        "while_expression",
    ) || is_kind(nodes, i, "while_statement") || is_kind(nodes, i, "loop_expression") || is_kind(
        nodes,
        i,
        "do_statement",
    ) {
        REPEATED
    } else {
        0
    }
}

fn control_flags(nodes: &Vec<SyntaxNode>, top: usize, j: usize) -> (r: u8)
    requires
        j < nodes.len(),
    ensures
        r == flags_above(nodes.deep_view(), top as int, j as int),
{
    let ghost t = nodes.deep_view();
    let mut flags: u8 = 0;
    let mut k: usize = j;
    let ghost want = flags_above(t, top as int, j as int);
    assert(0u8 | want == want) by (bit_vector);
    loop
        invariant
            k <= j < nodes.len(),
            t == nodes.deep_view(),
            want == flags | flags_above(t, top as int, k as int),
        ensures
            want == flags,
        decreases k,
    {
        match parent_node(nodes, k) {
            Some(p) => {
                if p <= top || is_kind(nodes, p, "function_item") || is_kind(
                    nodes,
                    p,
                    "function_definition",
                ) || is_kind(nodes, p, "function_declaration") || is_kind(
                    nodes,
                    p,
                    "method_declaration",
                ) {
                    assert(flags | 0u8 == flags) by (bit_vector);
                    break;
                }
                let flag: u8 = kind_flag(nodes, p);
                let ghost rest = flags_above(t, top as int, p as int);
                assert(flags | (flag | rest) == (flags | flag) | rest) by (bit_vector);
                flags = flags | flag;
                k = p;
            },
            None => {
                assert(flags | 0u8 == flags) by (bit_vector);
                break;
            },
        }
    }
    flags
}

// ── Callees ──────────────────────────────────────────────────────────────────

/// Whether node `j` is held under the field `function` of a call node.
pub open spec fn is_callee(t: Seq<NodeView>, call_kind: Seq<char>, j: int) -> bool {
    t[j].field == Some("function"@) && match parent_of(t, j) {
        Some(p) => t[p].kind == call_kind,
        None => false,
    }
}

/// The name that a scope gives to the bare name `name`.
pub open spec fn resolved(s: ScopeView, name: Seq<char>) -> Seq<char> {
    match lookup(s.symbols, name) {
        Some(path) => path,
        None => name,
    }
}

/// What a Rust node calls, if it is a callee: whether through a receiver, and
/// the name. A bare name is expanded by the imports; a qualified one is kept;
/// of `obj.method` the method is taken.
pub open spec fn rust_site(t: Seq<NodeView>, src: Seq<char>, s: ScopeView, j: int) -> Option<
    (bool, Seq<char>),
> {
    match text_of(src, t[j]) {
        None => None,
        Some(text) => if text.len() == 0 {
            None
        } else if t[j].kind == "identifier"@ && is_callee(t, "call_expression"@, j) {
            Some((false, resolved(s, text)))
        } else if t[j].kind == "scoped_identifier"@ && is_callee(t, "call_expression"@, j) {
            Some((false, text))
        } else if t[j].kind == "field_identifier"@ && t[j].field == Some("field"@) {
            match parent_of(t, j) {
                Some(p) => if t[p].kind == "field_expression"@ && is_callee(
                    t,
                    "call_expression"@,
                    p,
                ) {
                    Some((true, text))
                } else {
                    None
                },
                None => None,
            }
        } else {
            None
        },
    }
}

/// The leftmost identifier of a chain of `object` fields through nodes of the
/// kinds `a` and `b`, followed for at most `fuel` steps.
pub open spec fn chain_root(
    t: Seq<NodeView>,
    src: Seq<char>,
    i: int,
    a: Seq<char>,
    b: Seq<char>,
    fuel: nat,
) -> Option<Seq<char>>
    decreases fuel,
{
    if fuel == 0 {
        None
    } else if t[i].kind == "identifier"@ {
        text_of(src, t[i])
    } else if t[i].kind == a || t[i].kind == b {
        match field_of(t, i, "object"@) {
            Some(k) => chain_root(t, src, k, a, b, (fuel - 1) as nat),
            None => None,
        }
    } else {
        None
    }
}

/// The receiver's root and the method of a member callee: the text under the
/// field `member`, and the leftmost identifier of the `object` chain.
pub open spec fn root_and_method(
    t: Seq<NodeView>,
    src: Seq<char>,
    i: int,
    member: Seq<char>,
    a: Seq<char>,
    b: Seq<char>,
    fuel: nat,
) -> Option<(Seq<char>, Seq<char>)> {
    match (crate::parser::python::field_text(t, src, i, member), field_of(t, i, "object"@)) {
        (Some(method), Some(object)) => match chain_root(t, src, object, a, b, fuel) {
            Some(root) => Some((root, method)),
            None => None,
        },
        _ => None,
    }
}

/// What a Python node calls, if it is a callee. A bare name is expanded by the
/// imports; `mod.fn` of an imported module is qualified by it; any other
/// `obj.method` goes through a receiver.
pub open spec fn python_site(
    t: Seq<NodeView>,
    src: Seq<char>,
    s: ScopeView,
    j: int,
    limit: nat,
) -> Option<(bool, Seq<char>)> {
    if !is_callee(t, "call"@, j) {
        None
    } else if t[j].kind == "identifier"@ {
        match text_of(src, t[j]) {
            Some(name) => Some((false, resolved(s, name))),
            None => None,
        }
    } else if t[j].kind == "attribute"@ {
        match root_and_method(t, src, j, "attribute"@, "attribute"@, "attribute"@, limit) {
            Some((root, method)) => match lookup(s.modules, root) {
                Some(m) => Some((false, m + "::"@ + method)),
                None => Some((true, method)),
            },
            None => None,
        }
    } else {
        None
    }
}

/// The immediate receiver of a member callee, where it is an identifier.
pub open spec fn receiver_of(t: Seq<NodeView>, src: Seq<char>, i: int) -> Option<Seq<char>> {
    match field_of(t, i, "object"@) {
        Some(k) => if t[k].kind == "identifier"@ {
            text_of(src, t[k])
        } else {
            None
        },
        None => None,
    }
}

/// Whether the immediate receiver of a member callee names a type.
pub open spec fn receiver_is_type(t: Seq<NodeView>, src: Seq<char>, i: int) -> bool {
    match receiver_of(t, src, i) {
        Some(r) => names_type(r),
        None => false,
    }
}

/// The declared type of the immediate receiver of a member callee.
pub open spec fn receiver_type(t: Seq<NodeView>, src: Seq<char>, s: ScopeView, i: int) -> Option<
    Seq<char>,
> {
    match receiver_of(t, src, i) {
        Some(r) => type_of(s.receivers, r),
        None => None,
    }
}

/// What a Dart node calls, if it is a callee. A bare name is expanded by the
/// imports. A member call is qualified by the imported module that its root
/// names, else by its immediate receiver where that names a type or has a
/// declared one; otherwise it goes through a receiver.
pub open spec fn dart_site(t: Seq<NodeView>, src: Seq<char>, s: ScopeView, j: int) -> Option<
    (bool, Seq<char>),
> {
    if !is_callee(t, "call_expression"@, j) {
        None
    } else if t[j].kind == "identifier"@ {
        match text_of(src, t[j]) {
            Some(name) => Some((false, resolved(s, name))),
            None => None,
        }
    } else if t[j].kind == "member_expression"@ || t[j].kind == "null_aware_member_expression"@ {
        match root_and_method(
            t,
            src,
            j,
            "property"@,
            "member_expression"@,
            "null_aware_member_expression"@,
            t.len(),
        ) {
            Some((root, method)) => match lookup(s.modules, root) {
                Some(m) => Some((false, m + "::"@ + method)),
                None => if receiver_is_type(t, src, j) {
                    Some((false, root + "::"@ + method))
                } else {
                    match receiver_type(t, src, s, j) {
                        Some(ty) => Some((false, ty + "::"@ + method)),
                        None => Some((true, method)),
                    }
                },
            },
            None => None,
        }
    } else {
        None
    }
}

/// What node `j` calls, if it is a callee.
pub open spec fn site_at(
    grammar: Grammar,
    t: Seq<NodeView>,
    src: Seq<char>,
    s: ScopeView,
    j: int,
    limit: nat,
) -> Option<(bool, Seq<char>)> {
    match grammar {
        Grammar::Rust => rust_site(t, src, s, j),
        Grammar::Python => python_site(t, src, s, j, limit),
        Grammar::Dart => dart_site(t, src, s, j),
    }
}

/// The call sites of the nodes `top..hi`, in source order.
pub open spec fn sites_below(
    grammar: Grammar,
    t: Seq<NodeView>,
    src: Seq<char>,
    s: ScopeView,
    limit: nat,
    top: int,
    hi: int,
) -> CallsView
    decreases hi - top,
{
    if hi <= top {
        CallsView::empty()
    } else {
        let rest = sites_below(grammar, t, src, s, limit, top, hi - 1);
        match site_at(grammar, t, src, s, hi - 1, limit) {
            Some((method, name)) => rest.with(method, name, flags_above(t, top, hi - 1)),
            None => rest,
        }
    }
}

/// The call sites in the subtree of node `top`.
pub open spec fn sites_in(
    grammar: Grammar,
    t: Seq<NodeView>,
    src: Seq<char>,
    s: ScopeView,
    limit: nat,
    top: int,
) -> CallsView {
    sites_below(grammar, t, src, s, limit, top, end_of(t, top))
}

// ── Extraction ───────────────────────────────────────────────────────────────

fn callee_of(nodes: &Vec<SyntaxNode>, call_kind: &str, j: usize) -> (r: bool)
    requires
        j < nodes.len(),
    ensures
        r == is_callee(nodes.deep_view(), call_kind@, j as int),
{
    assert(nodes.deep_view()[j as int].field == nodes[j as int].field.deep_view());
    let held = match &nodes[j].field {
        Some(f) => str_eq(f.as_str(), "function"),
        None => false,
    };
    held && match parent_node(nodes, j) {
        Some(p) => is_kind(nodes, p, call_kind),
        None => false,
    }
}

fn resolve(imports: &Imports, name: &str) -> (r: String)
    ensures
        r@ == resolved(imports.deep_view(), name@),
{
    match lookup_str(&imports.symbols, name) {
        Some(path) => path.to_owned(),
        None => name.to_owned(),
    }
}

/// What a site is, as a pair of plain values.
pub open spec fn site_view(r: Option<(bool, String)>) -> Option<(bool, Seq<char>)> {
    match r {
        Some((method, name)) => Some((method, name@)),
        None => None,
    }
}

fn rust_call(nodes: &Vec<SyntaxNode>, source: &str, imports: &Imports, j: usize) -> (r: Option<
    (bool, String),
>)
    requires
        j < nodes.len(),
    ensures
        site_view(r) == rust_site(nodes.deep_view(), source@, imports.deep_view(), j as int),
{
    let name_kind = is_kind(nodes, j, "identifier");
    let path_kind = is_kind(nodes, j, "scoped_identifier");
    let field_kind = is_kind(nodes, j, "field_identifier");
    if !name_kind && !path_kind && !field_kind {
        return None;
    }
    let text = match node_text(nodes, j, source) {
        Some(text) => text,
        None => {
            return None;
        },
    };
    if text.is_empty() {
        return None;
    }
    if name_kind && callee_of(nodes, "call_expression", j) {
        return Some((false, resolve(imports, text)));
    }
    if path_kind && callee_of(nodes, "call_expression", j) {
        return Some((false, text.to_owned()));
    }
    assert(nodes.deep_view()[j as int].field == nodes[j as int].field.deep_view());
    let held = match &nodes[j].field {
        Some(f) => str_eq(f.as_str(), "field"),
        None => false,
    };
    if field_kind && held {
        match parent_node(nodes, j) {
            Some(p) => {
                if is_kind(nodes, p, "field_expression") && callee_of(
                    nodes,
                    "call_expression",
                    p,
                ) {
                    proof {
                        lemma_kinds_differ();
                    }
                    return Some((true, text.to_owned()));
                }
            },
            None => {},
        }
    }
    proof {
        lemma_kinds_differ();
    }
    None
}

proof fn lemma_kinds_differ()
    ensures
        "identifier"@ != "scoped_identifier"@,
        "identifier"@ != "field_identifier"@,
        "scoped_identifier"@ != "field_identifier"@,
{
    reveal_strlit("identifier");
    reveal_strlit("scoped_identifier");
    reveal_strlit("field_identifier");
    assert("identifier"@.len() == 10);
    assert("scoped_identifier"@.len() == 17);
    assert("field_identifier"@.len() == 16);
}

fn root_of<'a>(
    nodes: &Vec<SyntaxNode>,
    source: &'a str,
    i: usize,
    a: &str,
    b: &str,
    fuel: usize,
) -> (r: Option<&'a str>)
    requires
        i < nodes.len(),
    ensures
        r.deep_view() == chain_root(nodes.deep_view(), source@, i as int, a@, b@, fuel as nat),
{
    let ghost t = nodes.deep_view();
    let mut cur: usize = i;
    let mut left: usize = fuel;
    while left > 0
        invariant
            cur < nodes.len(),
            left <= fuel,
            t == nodes.deep_view(),
            chain_root(t, source@, i as int, a@, b@, fuel as nat) == chain_root(
                t,
                source@,
                cur as int,
                a@,
                b@,
                left as nat,
            ),
        decreases left,
    {
        if is_kind(nodes, cur, "identifier") {
            return node_text(nodes, cur, source);
        }
        if !(is_kind(nodes, cur, a) || is_kind(nodes, cur, b)) {
            return None;
        }
        match field_child(nodes, cur, "object") {
            Some(k) => {
                cur = k;
                left -= 1;
            },
            None => {
                return None;
            },
        }
    }
    None
}

/// A pair of string slices as a pair of sequences.
pub open spec fn slices_view(p: Option<(&str, &str)>) -> Option<(Seq<char>, Seq<char>)> {
    match p {
        Some((a, b)) => Some((a@, b@)),
        None => None,
    }
}

fn member_root_method<'a>(
    nodes: &Vec<SyntaxNode>,
    source: &'a str,
    i: usize,
    member: &str,
    a: &str,
    b: &str,
    fuel: usize,
) -> (r: Option<(&'a str, &'a str)>)
    requires
        i < nodes.len(),
    ensures
        slices_view(r) == root_and_method(
            nodes.deep_view(),
            source@,
            i as int,
            member@,
            a@,
            b@,
            fuel as nat,
        ),
{
    let method = match field_child(nodes, i, member) {
        Some(k) => node_text(nodes, k, source),
        None => None,
    };
    match (method, field_child(nodes, i, "object")) {
        (Some(method), Some(object)) => match root_of(nodes, source, object, a, b, fuel) {
            Some(root) => Some((root, method)),
            None => None,
        },
        _ => None,
    }
}

fn qualify(owner: &str, name: &str) -> (r: String)
    ensures
        r@ == owner@ + "::"@ + name@,
{
    owner.to_owned().concat("::").concat(name)
}

fn python_call(
    nodes: &Vec<SyntaxNode>,
    source: &str,
    imports: &Imports,
    j: usize,
    limit: usize,
) -> (r: Option<(bool, String)>)
    requires
        j < nodes.len(),
    ensures
        site_view(r) == python_site(
            nodes.deep_view(),
            source@,
            imports.deep_view(),
            j as int,
            limit as nat,
        ),
{
    if !callee_of(nodes, "call", j) {
        return None;
    }
    if is_kind(nodes, j, "identifier") {
        return match node_text(nodes, j, source) {
            Some(name) => Some((false, resolve(imports, name))),
            None => None,
        };
    }
    if is_kind(nodes, j, "attribute") {
        return match member_root_method(
            nodes,
            source,
            j,
            "attribute",
            "attribute",
            "attribute",
            limit,
        ) {
            Some((root, method)) => match lookup_str(&imports.modules, root) {
                Some(m) => Some((false, qualify(m, method))),
                None => Some((true, method.to_owned())),
            },
            None => None,
        };
    }
    None
}

fn direct_receiver<'a>(nodes: &Vec<SyntaxNode>, source: &'a str, i: usize) -> (r: Option<&'a str>)
    requires
        i < nodes.len(),
    ensures
        r.deep_view() == receiver_of(nodes.deep_view(), source@, i as int),
{
    match field_child(nodes, i, "object") {
        Some(k) => if is_kind(nodes, k, "identifier") {
            node_text(nodes, k, source)
        } else {
            None
        },
        None => None,
    }
}

fn dart_call(nodes: &Vec<SyntaxNode>, source: &str, imports: &Imports, j: usize) -> (r: Option<
    (bool, String),
>)
    requires
        j < nodes.len(),
    ensures
        site_view(r) == dart_site(nodes.deep_view(), source@, imports.deep_view(), j as int),
{
    if !callee_of(nodes, "call_expression", j) {
        return None;
    }
    if is_kind(nodes, j, "identifier") {
        return match node_text(nodes, j, source) {
            Some(name) => Some((false, resolve(imports, name))),
            None => None,
        };
    }
    if is_kind(nodes, j, "member_expression") || is_kind(
        nodes,
        j,
        "null_aware_member_expression",
    ) {
        assert(nodes.deep_view().len() == nodes.len());
        return match member_root_method(
            nodes,
            source,
            j,
            "property",
            "member_expression",
            "null_aware_member_expression",
            nodes.len(),
        ) {
            Some((root, method)) => match lookup_str(&imports.modules, root) {
                Some(m) => Some((false, qualify(m, method))),
                None => {
                    let receiver = direct_receiver(nodes, source, j);
                    let is_type = match receiver {
                        Some(r) => is_type_name(r),
                        None => false,
                    };
                    if is_type {
                        Some((false, qualify(root, method)))
                    } else {
                        let ty = match receiver {
                            Some(r) => imports.receivers.get(r),
                            None => None,
                        };
                        match ty {
                            Some(ty) => Some((false, qualify(ty, method))),
                            None => Some((true, method.to_owned())),
                        }
                    }
                },
            },
            None => None,
        };
    }
    None
}

/// The call sites in the subtree of node `top`, in source order. Receiver
/// chains of Python calls are followed for at most `limit` steps.
pub fn extract_calls(
    grammar: Grammar,
    nodes: &Vec<SyntaxNode>,
    top: usize,
    source: &str,
    imports: &Imports,
    limit: usize,
) -> (r: ExtractedCalls)
    requires
        top < nodes.len(),
    ensures
        r.deep_view() == sites_in(
            grammar,
            nodes.deep_view(),
            source@,
            imports.deep_view(),
            limit as nat,
            top as int,
        ),
{
    let ghost t = nodes.deep_view();
    let ghost s = imports.deep_view();
    let end = subtree_end(nodes, top);
    let mut out = ExtractedCalls::new();
    let mut j: usize = top;
    while j < end
        invariant
            top <= j <= end <= nodes.len(),
            t == nodes.deep_view(),
            s == imports.deep_view(),
            out.deep_view() == sites_below(
                grammar,
                t,
                source@,
                s,
                limit as nat,
                top as int,
                j as int,
            ),
        decreases end - j,
    {
        let site = match grammar {
            Grammar::Rust => rust_call(nodes, source, imports, j),
            Grammar::Python => python_call(nodes, source, imports, j, limit),
            Grammar::Dart => dart_call(nodes, source, imports, j),
        };
        match site {
            Some((method, name)) => {
                let flags = control_flags(nodes, top, j);
                out.push_site(method, name, flags);
            },
            None => {},
        }
        j += 1;
    }
    out
}

// ── Laws ─────────────────────────────────────────────────────────────────────

/// The number of sites found so far.
pub open spec fn site_count(c: CallsView) -> nat {
    c.calls.len() + c.method_calls.len()
}

/// Whether the ranks of a list of sites strictly ascend, up to where ranks
/// stop counting, and stay below `n`.
pub open spec fn ranked_below(sites: Seq<CallSiteView>, n: nat) -> bool {
    &&& forall|i: int| 0 <= i < sites.len() ==> (#[trigger] sites[i]).rank <= rank_of(n)
    &&& forall|i: int|
        0 <= i < sites.len() && n <= 0xffff ==> (#[trigger] sites[i]).rank < n
    &&& forall|i: int, j: int|
        0 <= i < j < sites.len() ==> (#[trigger] sites[i]).rank < (#[trigger] sites[j]).rank
            || sites[j].rank == 0xffff
}

/// The sites of a body are kept in source order, repeats included: within each
/// list the ranks ascend, and no two sites of the two lists share a rank as
/// long as ranks count.
pub proof fn law_sites_ranked(
    grammar: Grammar,
    t: Seq<NodeView>,
    src: Seq<char>,
    s: ScopeView,
    limit: nat,
    top: int,
    hi: int,
)
    ensures
        ({
            let c = sites_below(grammar, t, src, s, limit, top, hi);
            &&& ranked_below(c.calls, site_count(c))
            &&& ranked_below(c.method_calls, site_count(c))
            &&& forall|i: int, j: int|
                0 <= i < c.calls.len() && 0 <= j < c.method_calls.len() ==> (
                #[trigger] c.calls[i]).rank != (#[trigger] c.method_calls[j]).rank
                    || c.calls[i].rank == 0xffff
        }),
    decreases hi - top,
{
    if hi > top {
        law_sites_ranked(grammar, t, src, s, limit, top, hi - 1);
        let before = sites_below(grammar, t, src, s, limit, top, hi - 1);
        let after = sites_below(grammar, t, src, s, limit, top, hi);
        match site_at(grammar, t, src, s, hi - 1, limit) {
            Some((method, name)) => {
                let n = site_count(before);
                assert(site_count(after) == n + 1);
                if method {
                    assert(after.calls == before.calls);
                } else {
                    assert(after.method_calls == before.method_calls);
                }
                assert forall|i: int| 0 <= i < after.calls.len() implies (
                #[trigger] after.calls[i]).rank <= rank_of(n + 1) && (n + 1 <= 0xffff
                    ==> after.calls[i].rank < n + 1) by {
                    if i < before.calls.len() {
                        assert(after.calls[i] == before.calls[i]);
                    }
                }
                assert forall|i: int| 0 <= i < after.method_calls.len() implies (
                #[trigger] after.method_calls[i]).rank <= rank_of(n + 1) && (n + 1 <= 0xffff
                    ==> after.method_calls[i].rank < n + 1) by {
                    if i < before.method_calls.len() {
                        assert(after.method_calls[i] == before.method_calls[i]);
                    }
                }
                assert forall|i: int, j: int| 0 <= i < j < after.calls.len() implies (
                #[trigger] after.calls[i]).rank < (#[trigger] after.calls[j]).rank
                    || after.calls[j].rank == 0xffff by {
                    assert(after.calls[i] == before.calls[i]);
                    if j < before.calls.len() {
                        assert(after.calls[j] == before.calls[j]);
                    }
                }
                assert forall|i: int, j: int| 0 <= i < j < after.method_calls.len() implies (
                #[trigger] after.method_calls[i]).rank < (#[trigger] after.method_calls[j]).rank
                    || after.method_calls[j].rank == 0xffff by {
                    assert(after.method_calls[i] == before.method_calls[i]);
                    if j < before.method_calls.len() {
                        assert(after.method_calls[j] == before.method_calls[j]);
                    }
                }
                assert forall|i: int, j: int|
                    0 <= i < after.calls.len() && 0 <= j < after.method_calls.len() implies (
                #[trigger] after.calls[i]).rank != (#[trigger] after.method_calls[j]).rank
                    || after.calls[i].rank == 0xffff by {
                    if i < before.calls.len() {
                        assert(after.calls[i] == before.calls[i]);
                    }
                    if j < before.method_calls.len() {
                        assert(after.method_calls[j] == before.method_calls[j]);
                    }
                }
            },
            None => {},
        }
    }
}

} // verus!
