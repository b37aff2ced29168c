use tree_shake::ident::is_ident_equal;
use tree_shake::module::{ModuleSystem, TreeShakeModule, UsedExports, UsedIdent};
use tree_shake::statement_graph::{
    ExportInfo, ExportSpecifierInfo, GraphError, ImportInfo, Statement,
};

fn strings(names: &[&str]) -> Vec<String> {
    names.iter().map(|s| s.to_string()).collect()
}

fn stmt(
    id: usize,
    defined: &[&str],
    used: &[&str],
    self_executed: bool,
    export: Option<ExportInfo>,
) -> Statement {
    Statement {
        id,
        import_info: None,
        export_info: export,
        defined_idents: strings(defined),
        used_idents: strings(used),
        is_self_executed: self_executed,
    }
}

fn named(local: &str, exported: Option<&str>) -> ExportSpecifierInfo {
    ExportSpecifierInfo::Named {
        local: local.to_string(),
        exported: exported.map(|s| s.to_string()),
    }
}

fn es_module(statements: Vec<Statement>, side_effects: bool) -> TreeShakeModule {
    TreeShakeModule::new(
        "test://module".to_string(),
        ModuleSystem::EsModule,
        side_effects,
        statements,
    )
    .expect("well-formed statements")
}

#[test]
fn scoped_identity_unscoped_matches_any_scope() {
    assert!(is_ident_equal(&"foo".to_string(), &"foo#1".to_string()));
    assert!(is_ident_equal(&"foo".to_string(), &"foo#2".to_string()));
    assert!(is_ident_equal(&"foo#1".to_string(), &"foo".to_string()));
}

#[test]
fn scoped_identity_scoped_names_must_agree() {
    assert!(is_ident_equal(&"foo#1".to_string(), &"foo#1".to_string()));
    assert!(!is_ident_equal(&"foo#1".to_string(), &"foo#2".to_string()));
}

#[test]
fn scoped_identity_different_bases_never_match() {
    assert!(!is_ident_equal(&"foo".to_string(), &"bar".to_string()));
    assert!(!is_ident_equal(&"foo#1".to_string(), &"bar#1".to_string()));
}

#[test]
fn used_ident_textual_forms() {
    assert_eq!(UsedIdent::SwcIdent("a".to_string()).to_string(), "a");
    assert_eq!(UsedIdent::Default.to_string(), "default");
    assert_eq!(UsedIdent::InExportAll("b".to_string()).to_string(), "b");
    assert_eq!(UsedIdent::ExportAll.to_string(), "*");
}

#[test]
fn used_exports_partial_grows_and_all_is_permanent() {
    let mut used = UsedExports::Partial(Vec::new());
    assert!(used.is_empty());
    used.add_used_export(&"a".to_string());
    assert!(!used.is_empty());
    assert!(matches!(&used, UsedExports::Partial(v) if v == &strings(&["a"])));

    used.mark_all_used();
    assert!(matches!(used, UsedExports::All));
    // once every export is used, later additions cannot go back to a partial set
    used.add_used_export(&"b".to_string());
    assert!(matches!(used, UsedExports::All));
    assert!(!used.is_empty());
}

#[test]
fn new_module_demand_follows_side_effects() {
    let with_effects = es_module(vec![stmt(0, &[], &[], true, None)], true);
    assert!(matches!(with_effects.used_exports, UsedExports::All));

    let without_effects = es_module(vec![stmt(0, &[], &[], false, None)], false);
    assert!(
        matches!(&without_effects.used_exports, UsedExports::Partial(v) if v.is_empty())
    );
}

#[test]
fn new_rejects_misnumbered_statement() {
    let r = TreeShakeModule::new(
        "test://module".to_string(),
        ModuleSystem::EsModule,
        false,
        vec![stmt(1, &[], &[], false, None)],
    );
    assert_eq!(
        r.err(),
        Some(GraphError::MisnumberedStatement { position: 0, id: 1 })
    );
}

#[test]
fn new_rejects_export_owner_mismatch() {
    let export = ExportInfo { specifiers: vec![named("a", None)], stmt_id: 7 };
    let r = TreeShakeModule::new(
        "test://module".to_string(),
        ModuleSystem::EsModule,
        false,
        vec![stmt(0, &["a"], &[], false, Some(export))],
    );
    assert_eq!(
        r.err(),
        Some(GraphError::ExportOwnerMismatch { position: 0, export_stmt_id: 7 })
    );
}

#[test]
fn new_rejects_mixed_wildcard_export() {
    let export = ExportInfo {
        specifiers: vec![ExportSpecifierInfo::All("./a".to_string()), named("b", None)],
        stmt_id: 0,
    };
    let r = TreeShakeModule::new(
        "test://module".to_string(),
        ModuleSystem::EsModule,
        false,
        vec![stmt(0, &[], &[], false, Some(export))],
    );
    assert_eq!(r.err(), Some(GraphError::MixedWildcardExport { position: 0 }));
}

#[test]
fn exports_and_imports_list_statement_roles() {
    let export = ExportInfo { specifiers: vec![named("a", None)], stmt_id: 1 };
    let mut with_import = stmt(0, &[], &[], false, None);
    with_import.import_info = Some(ImportInfo {
        source: "./dep".to_string(),
        specifiers: Vec::new(),
    });
    let m = es_module(vec![with_import, stmt(1, &["a"], &[], false, Some(export))], false);

    let imports = m.imports();
    assert_eq!(imports.len(), 1);
    assert_eq!(imports[0].source, "./dep");

    let exports = m.exports();
    assert_eq!(exports.len(), 1);
    assert_eq!(exports[0].stmt_id, 1);
}

// Module `export function foo(){}; export default 123; const unused = 1;` with
// only `foo` demanded: the `foo` statement alone is retained.
#[test]
fn partial_demand_retains_only_what_it_needs() {
    let foo_export = ExportInfo { specifiers: vec![named("foo", None)], stmt_id: 0 };
    let default_export = ExportInfo {
        specifiers: vec![ExportSpecifierInfo::Default],
        stmt_id: 1,
    };
    let mut m = es_module(
        vec![
            stmt(0, &["foo"], &[], false, Some(foo_export)),
            stmt(1, &[], &[], false, Some(default_export)),
            stmt(2, &["unused"], &[], false, None),
        ],
        false,
    );
    m.mark_export_used(&"foo".to_string());

    let idents = m.used_exports_idents();
    assert_eq!(idents.len(), 1);
    assert!(matches!(&idents[0].0, UsedIdent::SwcIdent(s) if s == "foo"));
    assert_eq!(idents[0].1, 0);

    let retained = m.used_statements();
    assert_eq!(retained.len(), 3);
    assert!(retained[0].as_ref().is_some_and(|v| v.contains(&"foo".to_string())));
    assert!(retained[1].is_none());
    assert!(retained[2].is_none());
}

// A module with declared side effects keeps every statement: the parser marks
// each statement self-executed and every export is demanded.
#[test]
fn side_effect_module_retains_every_statement() {
    let export = ExportInfo { specifiers: vec![named("a", None)], stmt_id: 0 };
    let m = es_module(
        vec![
            stmt(0, &["a"], &[], true, Some(export)),
            stmt(1, &["b"], &[], true, None),
            stmt(2, &[], &["b"], true, None),
        ],
        true,
    );
    assert!(matches!(m.used_exports, UsedExports::All));

    let retained = m.used_statements();
    assert_eq!(retained.len(), 3);
    assert!(retained.iter().all(|r| r.is_some()));
}

// `export * from './a'; export { b } from './b';` with `c` demanded: the name
// matches nothing, so it is forwarded speculatively through the wildcard.
#[test]
fn unmatched_name_charges_wildcard_reexports() {
    let wildcard = ExportInfo {
        specifiers: vec![ExportSpecifierInfo::All("./a".to_string())],
        stmt_id: 0,
    };
    let named_b = ExportInfo { specifiers: vec![named("b", None)], stmt_id: 1 };
    let mut m = es_module(
        vec![
            stmt(0, &[], &[], false, Some(wildcard)),
            stmt(1, &["b"], &[], false, Some(named_b)),
        ],
        false,
    );
    m.mark_export_used(&"c".to_string());

    let idents = m.used_exports_idents();
    assert_eq!(idents.len(), 1);
    assert!(matches!(&idents[0].0, UsedIdent::InExportAll(s) if s == "c"));
    assert_eq!(idents[0].1, 0);

    let retained = m.used_statements();
    assert!(retained[0].as_ref().is_some_and(|v| v.contains(&"c".to_string())));
    assert!(retained[1].is_none());
}

// `console.log(x)` marked self-executed referencing `x`, and `const x = 1`
// defining it: both statements survive although nothing is exported.
#[test]
fn self_executed_statement_drags_in_its_definitions() {
    let m = es_module(
        vec![
            stmt(0, &[], &["x"], true, None),
            stmt(1, &["x"], &[], false, None),
        ],
        false,
    );
    let retained = m.used_statements();
    assert_eq!(retained.len(), 2);
    assert!(retained[0].as_ref().is_some_and(|v| v.is_empty()));
    assert!(retained[1].as_ref().is_some_and(|v| v.contains(&"x".to_string())));
}

// A CommonJS module is never analyzed statement by statement: its graph is
// empty by construction and the whole module is retained.
#[test]
fn commonjs_module_short_circuits() {
    let m = TreeShakeModule::new(
        "test://module".to_string(),
        ModuleSystem::CommonJs,
        false,
        vec![stmt(3, &[], &[], false, None)],
    )
    .expect("non-esm modules are never rejected");
    assert_eq!(m.stmt_graph.stmts.len(), 0);

    let retained = m.used_statements();
    assert_eq!(retained.len(), m.stmt_graph.stmts.len());
    assert!(retained.iter().all(|r| r.is_some()));
}

// Repeated computation without intervening demand changes is idempotent.
#[test]
fn used_statements_is_idempotent() {
    let export = ExportInfo { specifiers: vec![named("f", None)], stmt_id: 0 };
    let mut m = es_module(
        vec![
            stmt(0, &["f"], &["g"], false, Some(export)),
            stmt(1, &["g"], &[], false, None),
            stmt(2, &["h"], &[], false, None),
        ],
        false,
    );
    m.mark_export_used(&"f".to_string());
    let first = m.used_statements();
    let second = m.used_statements();
    assert_eq!(first, second);
    assert!(first[0].is_some() && first[1].is_some() && first[2].is_none());
}

#[test]
fn demand_resolves_through_scoped_names_and_closure() {
    // `export { foo }` where the local is scoped as foo#2, and foo depends on bar
    let export = ExportInfo { specifiers: vec![named("foo#2", None)], stmt_id: 0 };
    let mut m = es_module(
        vec![
            stmt(0, &["foo#2"], &["bar#3"], false, Some(export)),
            stmt(1, &["bar#3"], &[], false, None),
        ],
        false,
    );
    m.mark_export_used(&"foo".to_string());

    let retained = m.used_statements();
    assert!(retained[0].as_ref().is_some_and(|v| v.contains(&"foo#2".to_string())));
    assert!(retained[1].as_ref().is_some_and(|v| v.contains(&"bar#3".to_string())));
}

#[test]
fn all_demand_emits_one_entry_per_specifier() {
    let export = ExportInfo {
        specifiers: vec![
            ExportSpecifierInfo::Default,
            named("a", Some("b")),
            ExportSpecifierInfo::Namespace("ns".to_string()),
        ],
        stmt_id: 0,
    };
    let mut m = es_module(vec![stmt(0, &["a"], &[], false, Some(export))], false);
    m.mark_all_exports_used();

    let idents = m.used_exports_idents();
    assert_eq!(idents.len(), 3);
    assert!(matches!(idents[0].0, UsedIdent::Default));
    assert!(matches!(&idents[1].0, UsedIdent::SwcIdent(s) if s == "a"));
    assert!(matches!(&idents[2].0, UsedIdent::SwcIdent(s) if s == "ns"));
    assert!(idents.iter().all(|(_, id)| *id == 0));
}

#[test]
fn alias_is_matched_and_local_is_charged() {
    let export = ExportInfo { specifiers: vec![named("local_a", Some("b"))], stmt_id: 0 };
    let mut m = es_module(vec![stmt(0, &["local_a"], &[], false, Some(export))], false);
    m.mark_export_used(&"b".to_string());

    let idents = m.used_exports_idents();
    assert_eq!(idents.len(), 1);
    assert!(matches!(&idents[0].0, UsedIdent::SwcIdent(s) if s == "local_a"));
}

#[test]
fn default_demand_matches_default_specifier() {
    let export = ExportInfo {
        specifiers: vec![ExportSpecifierInfo::Default],
        stmt_id: 0,
    };
    let mut m = es_module(vec![stmt(0, &[], &[], false, Some(export))], false);
    m.mark_export_used(&"default".to_string());

    let idents = m.used_exports_idents();
    assert_eq!(idents.len(), 1);
    assert!(matches!(idents[0].0, UsedIdent::Default));
}

#[test]
fn only_first_matching_export_is_charged() {
    let first = ExportInfo { specifiers: vec![named("a", None)], stmt_id: 0 };
    let second = ExportInfo { specifiers: vec![named("a", None)], stmt_id: 1 };
    let mut m = es_module(
        vec![
            stmt(0, &["a"], &[], false, Some(first)),
            stmt(1, &["a"], &[], false, Some(second)),
        ],
        false,
    );
    m.mark_export_used(&"a".to_string());

    let idents = m.used_exports_idents();
    assert_eq!(idents.len(), 1);
    assert_eq!(idents[0].1, 0);
}
