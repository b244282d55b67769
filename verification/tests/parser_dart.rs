//! Dart sources: import directives, receiver types and calls.

use ast_to_mermaid::limits::MAX_AST_DEPTH;
use ast_to_mermaid::model::{CallSite, EdgeKind};
use ast_to_mermaid::parser::calls::{extract_calls, ExtractedCalls};
use ast_to_mermaid::parser::dart::extract_imports;
use ast_to_mermaid::parser::scope::{lookup_str, Imports};
use ast_to_mermaid::parser::tree::SyntaxNode;
use ast_to_mermaid::parser::treesitter::{parse_tree, Grammar};
use ast_to_mermaid::parser::CodeParser;

/// Call names only.
fn names(sites: &[CallSite]) -> Vec<String> {
    sites.iter().map(|s| s.name.clone()).collect()
}

fn parse(src: &str) -> Vec<SyntaxNode> {
    parse_tree(Grammar::Dart, src.as_bytes())
        .expect("dart grammar")
        .expect("parse")
}

fn imports_of(src: &str) -> Imports {
    extract_imports(&parse(src), src)
}

fn calls_of(src: &str) -> ExtractedCalls {
    let nodes = parse(src);
    let imports = extract_imports(&nodes, src);
    extract_calls(Grammar::Dart, &nodes, 0, src, &imports, MAX_AST_DEPTH)
}

/// `alias` is a field of `import_specification`, not of the
/// `library_import` above it. Asking the directive root returns `None`
/// and the alias is dropped, so `models.parseUser()` never rewrites
/// and the call never resolves.
#[test]
fn as_alias_maps_to_the_uri_stem() {
    let i = imports_of("import 'package:demo/models/user.dart' as models;\n");
    assert_eq!(lookup_str(&i.modules, "models"), Some("user"));
}

#[test]
fn show_binds_each_named_symbol() {
    let i = imports_of("import '../models/user.dart' show User, parseUser;\n");
    assert_eq!(
        lookup_str(&i.symbols, "parseUser"),
        Some("user::parseUser")
    );
    assert_eq!(
        lookup_str(&i.symbols, "User"),
        Some("user::User")
    );
}

/// `hide` subtracts from a set we don't know, so it must bind nothing
/// — binding the hidden names would be exactly backwards.
#[test]
fn hide_binds_nothing() {
    let i = imports_of("import '../models/user.dart' hide User;\n");
    assert!(i.symbols.is_empty(), "got {:?}", i.symbols);
}

/// SDK URIs have no module in the graph; emitting an edge towards
/// `dart:async` would invent a node that does not exist.
#[test]
fn sdk_uris_are_skipped() {
    let i = imports_of("import 'dart:async' as async_lib;\nimport 'dart:math';\n");
    assert!(i.modules.is_empty(), "got {:?}", i.modules);
}

/// The three URI shapes that do resolve all key on the file stem.
#[test]
fn package_and_relative_uris_key_on_the_file_stem() {
    for src in [
        "import 'package:demo/models/user.dart' as m;\n",
        "import '../models/user.dart' as m;\n",
        "import 'user.dart' as m;\n",
    ] {
        assert_eq!(
            lookup_str(&imports_of(src).modules, "m"),
            Some("user"),
            "for {src:?}"
        );
    }
}

/// `part` / `part_of` merge a file into its parent library rather than
/// importing it — treating them as imports would duplicate edges.
#[test]
fn part_directives_are_not_imports() {
    let i = imports_of("part of 'user.dart';\npart 'user.g.dart';\n");
    assert!(i.modules.is_empty() && i.symbols.is_empty(), "got {i:?}");
}

// ── Call extraction ──────────────────────────────────────────────────

/// A bare call with no matching import stays bare — the resolver's
/// same-package pass is what links it, not a rewrite here.
#[test]
fn bare_call_without_import_is_left_alone() {
    let c = calls_of("void f() { helper(); }\n");
    assert_eq!(names(&c.calls), vec!["helper".to_owned()]);
    assert!(c.method_calls.is_empty());
}

/// `show`n symbols rewrite into the `module::symbol` shape the
/// cross-module resolver understands.
#[test]
fn shown_symbol_call_is_rewritten_to_qualified_form() {
    let c = calls_of(
        "import '../models/user.dart' show parseUser;\nvoid f() { parseUser('x'); }\n",
    );
    assert!(
        names(&c.calls).contains(&"user::parseUser".to_owned()),
        "got {:?}",
        c.calls
    );
}

/// `models.parseUser()` where `models` is an import alias resolves
/// through the alias to the target module.
#[test]
fn aliased_module_call_is_rewritten() {
    let c = calls_of(
        "import 'package:demo/models/user.dart' as models;\nvoid f() { models.parseUser('x'); }\n",
    );
    assert!(
        names(&c.calls).contains(&"user::parseUser".to_owned()),
        "got {:?}",
        c.calls
    );
}

/// An unknown receiver cannot be resolved to a module, so the call
/// lands in `method_calls` for intra-container linking only — it must
/// not ghost-bind to a same-named free function.
#[test]
fn unknown_receiver_lands_in_method_calls() {
    let c = calls_of("void f() { widget.build(); }\n");
    assert_eq!(names(&c.method_calls), vec!["build".to_owned()]);
    assert!(c.calls.is_empty(), "got {:?}", names(&c.calls));
}

/// A capitalised receiver is a type, not an instance — Dart's
/// `camel_case_types` lint makes that reliable. The call is the same
/// shape Rust spells `Type::method`, which the resolver already
/// indexes, so emitting it qualified is what lets it link at all.
#[test]
fn capitalised_receiver_is_a_qualified_type_call() {
    let c = calls_of("void f() { NotificationService.initialize(); }\n");
    assert_eq!(
        names(&c.calls),
        vec!["NotificationService::initialize".to_owned()]
    );
    assert!(c.method_calls.is_empty(), "got {:?}", c.method_calls);
}

/// Private types are spelled `_Foo`; the underscore must not hide the
/// capital.
#[test]
fn private_type_receiver_is_still_a_type() {
    let c = calls_of("void f() { _CacheEntry.parse('x'); }\n");
    assert_eq!(names(&c.calls), vec!["_CacheEntry::parse".to_owned()]);
}

/// An import alias wins over the capital rule: the import is the
/// stronger signal about where the symbol actually lives.
#[test]
fn import_alias_takes_priority_over_the_capital_rule() {
    let c = calls_of(
        "import 'package:demo/models/user.dart' as Models;\nvoid f() { Models.parseUser('x'); }\n",
    );
    assert_eq!(names(&c.calls), vec!["user::parseUser".to_owned()]);
}

/// Lowercase receivers whose type the file never states keep the old
/// behaviour — this is the ghost-bind guard.
#[test]
fn lowercase_receiver_of_unknown_type_lands_in_method_calls() {
    let c = calls_of("void f() { notificationService.initialize(); }\n");
    assert_eq!(names(&c.method_calls), vec!["initialize".to_owned()]);
    assert!(c.calls.is_empty(), "got {:?}", names(&c.calls));
}

// ── Receiver-type inference ──────────────────────────────────────────

/// A class field states its type: `final UserDao dao;` then
/// `dao.fetch()` is as qualified as `UserDao.fetch()` would be.
#[test]
fn field_declaration_types_its_receiver() {
    let c = calls_of("class R {\n  final UserDao dao;\n  void run() { dao.fetch(); }\n}\n");
    assert_eq!(names(&c.calls), vec!["UserDao::fetch".to_owned()]);
    assert!(c.method_calls.is_empty(), "got {:?}", c.method_calls);
}

/// The single largest source on a real project: 921 typed parameters.
#[test]
fn parameter_declaration_types_its_receiver() {
    let c = calls_of("void run(NotifService svc) { svc.notify(); }\n");
    assert_eq!(names(&c.calls), vec!["NotifService::notify".to_owned()]);
}

#[test]
fn annotated_local_types_its_receiver() {
    let c = calls_of("void f() { final Logger log = Logger(); log.warn(); }\n");
    assert!(
        names(&c.calls).contains(&"Logger::warn".to_owned()),
        "got {:?}",
        c.calls
    );
}

/// No annotation, but the initialiser names the type.
#[test]
fn constructed_local_types_its_receiver() {
    let c = calls_of("void f() { final buf = StringBuffer(); buf.write('x'); }\n");
    assert!(
        names(&c.calls).contains(&"StringBuffer::write".to_owned()),
        "got {:?}",
        c.calls
    );
}

/// File scope is a deliberate approximation, so the guard has to hold:
/// one name with two types is unusable, not a coin flip.
#[test]
fn a_name_with_two_types_is_ambiguous_and_unused() {
    let c = calls_of("void a(UserDao x) { x.run(); }\nvoid b(OrderDao x) { x.run(); }\n");
    assert_eq!(names(&c.method_calls), vec!["run".to_owned(), "run".to_owned()]);
    assert!(
        c.calls.is_empty(),
        "ambiguous name must not qualify: {:?}",
        c.calls
    );
}

/// Re-declaring the *same* type is not ambiguity.
#[test]
fn a_name_repeated_with_one_type_stays_usable() {
    let c = calls_of("void a(UserDao x) { x.run(); }\nvoid b(UserDao x) { x.run(); }\n");
    assert_eq!(
        names(&c.calls),
        vec!["UserDao::run".to_owned(), "UserDao::run".to_owned()]
    );
}

/// `List<Foo> xs` binds `xs` to `List`, not `Foo` — a later `xs.add()`
/// belongs to the container. `List` is not in the graph, so nothing is
/// emitted, which is right rather than wrong.
#[test]
fn generic_type_binds_the_container_not_its_argument() {
    let c = calls_of("void f(List<Note> xs) { xs.add(1); }\n");
    assert_eq!(names(&c.calls), vec!["List::add".to_owned()]);
}

/// The chain rule from #184 still applies: only a direct receiver is
/// typed by the table.
#[test]
fn chained_receiver_is_not_typed_from_the_table() {
    let c =
        calls_of("class R {\n  final UserDao dao;\n  void run() { dao.cache.clear(); }\n}\n");
    assert_eq!(names(&c.method_calls), vec!["clear".to_owned()]);
    assert!(c.calls.is_empty(), "got {:?}", names(&c.calls));
}

/// `session?.release()` used to hit `_ => {}` and disappear from the
/// graph entirely — #174 fixed this kind in the sequence walker but
/// not in the parser.
#[test]
fn null_aware_receiver_is_classified_like_its_plain_twin() {
    let lower = calls_of("void f() { session?.release(); }\n");
    assert_eq!(names(&lower.method_calls), vec!["release".to_owned()]);

    let upper = calls_of("void f() { NotificationService?.initialize(); }\n");
    assert_eq!(
        names(&upper.calls),
        vec!["NotificationService::initialize".to_owned()]
    );
}

/// A chained null-aware receiver collapses to its leftmost identifier.
#[test]
fn chained_null_aware_collapses_to_root() {
    let c = calls_of("void f() { xs?.first?.run(); }\n");
    assert_eq!(names(&c.method_calls), vec!["run".to_owned()]);
}

/// The capital rule needs a *direct* receiver. In
/// `AppTextStyles.caption.copyWith()` the method belongs to whatever
/// `caption` is — a `TextStyle` from the SDK — not to `AppTextStyles`.
/// Qualifying it would attribute `copyWith` to a class that never
/// declared it, and the resolver would mint an extern for the
/// invented pair. Found on a real project: 164 such externs.
#[test]
fn chained_type_receiver_is_not_qualified() {
    let c = calls_of("void f() { AppTextStyles.caption.copyWith(); }\n");
    assert_eq!(names(&c.method_calls), vec!["copyWith".to_owned()]);
    assert!(
        !names(&c.calls)
            .iter()
            .any(|s| s.starts_with("AppTextStyles::")),
        "must not attribute copyWith to AppTextStyles: {:?}",
        c.calls
    );
}

/// The direct case still qualifies — this is what the change is for.
#[test]
fn direct_type_receiver_is_qualified() {
    let c = calls_of("void f() { AppTextStyles.caption(); }\n");
    assert_eq!(names(&c.calls), vec!["AppTextStyles::caption".to_owned()]);
}

/// `a.b.method()` collapses to the leftmost identifier, so an aliased
/// root still resolves and a non-aliased one still does not.
#[test]
fn chained_receiver_collapses_to_its_root() {
    let c = calls_of("void f() { obj.inner.method(); }\n");
    assert_eq!(names(&c.method_calls), vec!["method".to_owned()]);
}

/// A receiver that is itself a call has no stable identifier to key
/// on, and the extractor gives up on the outer call entirely — so
/// `render` is **dropped**, while the inner `build` still surfaces.
///
/// This mirrors `python.rs::attribute_root_method`, which bails the
/// same way on a call/subscript/paren receiver. Pinned rather than
/// fixed: making Dart alone recover the method would diverge the two
/// extractors, and the fix belongs in both at once. The sequence
/// walker does not share the limitation — its own receiver walk
/// descends through `call_expression`.
#[test]
fn call_receiver_drops_the_outer_call_like_python_does() {
    let c = calls_of("void f() { build().render(); }\n");
    assert!(
        names(&c.calls).contains(&"build".to_owned()),
        "got {:?}",
        names(&c.calls)
    );
    assert!(
        !names(&c.method_calls).contains(&"render".to_owned()),
        "known limitation shared with python.rs: {c:?}"
    );
}

/// Nested calls in arguments are captured — the query matches every
/// `call_expression` under the walked node, not just the outermost.
#[test]
fn nested_argument_calls_are_captured() {
    let c = calls_of("void f() { outer(inner()); }\n");
    assert!(
        names(&c.calls).contains(&"outer".to_owned()),
        "got {:?}",
        names(&c.calls)
    );
    assert!(
        names(&c.calls).contains(&"inner".to_owned()),
        "got {:?}",
        names(&c.calls)
    );
}

/// Cascades carry `property:` and no `function:`, so the call query
/// does not match them. That is deliberate: the sequence walker gives
/// them their own handler, and matching here would attribute the link
/// to the wrong receiver.
#[test]
fn cascade_links_are_not_call_query_matches() {
    let c = calls_of("void f() { buffer..write('a'); }\n");
    assert!(
        !names(&c.calls).contains(&"write".to_owned())
            && !names(&c.method_calls).contains(&"write".to_owned()),
        "cascade must not surface here: {c:?}"
    );
}

/// A URI that is only a bare filename still yields a stem, and an
/// empty `show` list binds nothing.
#[test]
fn degenerate_uris_do_not_panic() {
    assert!(imports_of("import '';\n").modules.is_empty());
    assert!(imports_of("export 'other.dart';\n").symbols.is_empty());
}

#[test]
fn a_top_level_function_reports_its_calls() {
    let src = "void main() { helper(); }\nvoid helper() {}\n";
    let unit = CodeParser::dart()
        .parse(src.as_bytes(), "solo.dart")
        .expect("parse");
    let main_atom = unit
        .atoms
        .iter()
        .find(|a| a.name == "main" && a.kind == "function")
        .expect("main atom");
    assert_eq!(
        names(&main_atom.calls),
        vec!["helper".to_owned()],
        "a top-level function must report what it calls"
    );
    assert!(unit.edges.iter().any(|e| e.kind == EdgeKind::Calls
        && e.from.as_str() == "code:solo.dart::function::main"
        && e.to.as_str() == "code:solo.dart::function::helper"));
}

#[test]
fn declarations_and_their_members_become_atoms() {
    let src = "/// A user.\nclass User {\n  void load() { parse(); }\n  int get age => 1;\n  void parse() {}\n  final int x = 1;\n}\nmixin M {\n  void go() {}\n}\nextension E on User {\n  void more() {}\n}\nenum Color { red, blue; void paint() {} }\ntypedef F = void Function();\n";
    let unit = CodeParser::dart().parse(src.as_bytes(), "u.dart").expect("parse");
    assert_eq!(CodeParser::dart().language().name(), "dart");
    let ids: Vec<&str> = unit.atoms.iter().map(|a| a.id.as_str()).collect();
    assert_eq!(
        ids,
        vec![
            "code:u.dart",
            "code:u.dart::struct::User",
            "code:u.dart::function::User::load",
            "code:u.dart::function::User::age",
            "code:u.dart::function::User::parse",
            "code:u.dart::trait::M",
            "code:u.dart::function::M::go",
            "code:u.dart::impl::E",
            "code:u.dart::function::E::more",
            "code:u.dart::enum::Color",
            "code:u.dart::function::Color::paint",
            "code:u.dart::type_alias::F",
        ]
    );
    assert!(unit.atoms[1].doc.contains("A user."));
    assert!(unit.edges.iter().any(|e| e.kind == EdgeKind::Calls
        && e.from.as_str() == "code:u.dart::function::User::load"
        && e.to.as_str() == "code:u.dart::function::User::parse"));
}
