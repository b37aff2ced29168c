//! Per-module usage tracking.
//!
//! A `TreeShakeModule` owns the module's statement graph together with the set
//! of export names demanded from outside (`UsedExports`). From that demand it
//! resolves which local identifiers are live and on which statements
//! (`used_exports_idents`), and hands the statement graph a seed from which the
//! retained-statement closure is computed (`used_statements`).

use vstd::prelude::*;
use crate::ident::ident_matches;
use crate::statement_graph::{
    closure_adds, graph_wf, lemma_reached_seed, map_dom, reached, row_has,
    stmt_defines_matching,
    stmt_defines_name, stmt_ok, stmt_references, wildcard_alone, ExportInfo, ExportSpecifierInfo,
    ExportView, GraphError, ImportInfo, ImportSpecifierInfo, ImportView, Statement, StatementGraph,
    StatementId,
};

verus! {

/// An identifier resolved as used, together with how it is demanded.
#[derive(Debug)]
pub enum UsedIdent {
    /// A concrete local identifier is used.
    SwcIdent(String),
    /// The default export is used.
    Default,
    /// A name is demanded but resolvable only through a wildcard re-export,
    /// so it is forwarded speculatively.
    InExportAll(String),
    /// Every name potentially provided through a wildcard re-export is used.
    ExportAll,
}

impl UsedIdent {
    /// The textual form under which the identifier is charged to a statement.
    pub open spec fn as_name(self) -> Seq<char> {
        match self {
            UsedIdent::SwcIdent(ident) => ident@,
            UsedIdent::Default => "default"@,
            UsedIdent::InExportAll(ident) => ident@,
            UsedIdent::ExportAll => "*"@,
        }
    }

    pub fn to_string(&self) -> (r: String)
        ensures
            r@ == self.as_name(),
    {
        match self {
            UsedIdent::SwcIdent(ident) => ident.clone(),
            UsedIdent::Default => String::from_str("default"),
            UsedIdent::InExportAll(ident) => ident.clone(),
            UsedIdent::ExportAll => String::from_str("*"),
        }
    }
}

/// The demanded-export lattice of one module: either every export is used, or
/// only the listed names are known to be used. `Partial` only ever grows and
/// the step to `All` is permanent.
#[derive(Debug)]
pub enum UsedExports {
    All,
    Partial(Vec<String>),
}

impl UsedExports {
    /// Records one more demanded export name; a no-op once every export is used.
    pub fn add_used_export(&mut self, used_export: &String)
        ensures
            *old(self) is All ==> *final(self) == UsedExports::All,
            *old(self) matches UsedExports::Partial(v0) ==> (*final(self)
                matches UsedExports::Partial(v1) && v1@ == v0@.push(*used_export)),
    {
        let mut taken = UsedExports::All;
        core::mem::swap(self, &mut taken);
        match taken {
            UsedExports::All => {
                *self = UsedExports::All;
            },
            UsedExports::Partial(mut self_used_exports) => {
                self_used_exports.push(used_export.clone());
                *self = UsedExports::Partial(self_used_exports);
            },
        }
    }

    /// Moves to the top of the lattice: every export is used, irreversibly.
    pub fn mark_all_used(&mut self)
        ensures
            *final(self) == UsedExports::All,
    {
        *self = UsedExports::All;
    }

    /// Whether no export is known to be used yet.
    pub fn is_empty(&self) -> (r: bool)
        ensures
            r == (*self matches UsedExports::Partial(v) && v@.len() == 0),
    {
        match self {
            UsedExports::All => false,
            UsedExports::Partial(self_used_exports) => self_used_exports.len() == 0,
        }
    }
}

/// The module system a module was written against.
#[derive(Debug)]
pub enum ModuleSystem {
    EsModule,
    CommonJs,
    Hybrid,
}

fn clone_opt_string(s: &Option<String>) -> (r: Option<String>)
    ensures
        r == *s,
{
    match s {
        Some(x) => Some(x.clone()),
        None => None,
    }
}

fn clone_export_specifier(sp: &ExportSpecifierInfo) -> (r: ExportSpecifierInfo)
    ensures
        r == *sp,
{
    match sp {
        ExportSpecifierInfo::All(source) => ExportSpecifierInfo::All(source.clone()),
        ExportSpecifierInfo::Default => ExportSpecifierInfo::Default,
        ExportSpecifierInfo::Named { local, exported } => ExportSpecifierInfo::Named {
            local: local.clone(),
            exported: clone_opt_string(exported),
        },
        ExportSpecifierInfo::Namespace(ns) => ExportSpecifierInfo::Namespace(ns.clone()),
    }
}

fn clone_export_info(e: &ExportInfo) -> (r: ExportInfo)
    ensures
        r@ == e@,
{
    let n = e.specifiers.len();
    let mut specifiers: Vec<ExportSpecifierInfo> = Vec::new();
    let mut i: usize = 0;
    while i < n
        invariant
            0 <= i <= n,
            n == e.specifiers@.len(),
            specifiers@ == e.specifiers@.take(i as int),
        decreases n - i,
    {
        specifiers.push(clone_export_specifier(&e.specifiers[i]));
        proof {
            assert(specifiers@ =~= e.specifiers@.take(i + 1));
        }
        i = i + 1;
    }
    proof {
        assert(e.specifiers@.take(n as int) =~= e.specifiers@);
    }
    let r = ExportInfo { specifiers, stmt_id: e.stmt_id };
    proof {
        assert(r@ =~= e@);
    }
    r
}

fn clone_import_specifier(sp: &ImportSpecifierInfo) -> (r: ImportSpecifierInfo)
    ensures
        r == *sp,
{
    match sp {
        ImportSpecifierInfo::Namespace(ns) => ImportSpecifierInfo::Namespace(ns.clone()),
        ImportSpecifierInfo::Named { local, imported } => ImportSpecifierInfo::Named {
            local: local.clone(),
            imported: clone_opt_string(imported),
        },
        ImportSpecifierInfo::Default(d) => ImportSpecifierInfo::Default(d.clone()),
    }
}

fn clone_import_info(im: &ImportInfo) -> (r: ImportInfo)
    ensures
        r@ == im@,
{
    let n = im.specifiers.len();
    let mut specifiers: Vec<ImportSpecifierInfo> = Vec::new();
    let mut i: usize = 0;
    while i < n
        invariant
            0 <= i <= n,
            n == im.specifiers@.len(),
            specifiers@ == im.specifiers@.take(i as int),
        decreases n - i,
    {
        specifiers.push(clone_import_specifier(&im.specifiers[i]));
        proof {
            assert(specifiers@ =~= im.specifiers@.take(i + 1));
        }
        i = i + 1;
    }
    proof {
        assert(im.specifiers@.take(n as int) =~= im.specifiers@);
    }
    let r = ImportInfo { source: im.source.clone(), specifiers };
    proof {
        assert(r@ =~= im@);
    }
    r
}

/// The views of a list of export roles.
pub open spec fn export_views(es: Seq<ExportInfo>) -> Seq<ExportView> {
    es.map_values(|e: ExportInfo| e@)
}

/// The views of a list of import roles.
pub open spec fn import_views(is: Seq<ImportInfo>) -> Seq<ImportView> {
    is.map_values(|im: ImportInfo| im@)
}

/// The export roles of a module's statements, in statement order.
pub open spec fn exports_spec(ss: Seq<Statement>) -> Seq<ExportView>
    decreases ss.len(),
{
    if ss.len() == 0 {
        Seq::empty()
    } else {
        exports_spec(ss.drop_last()) + (match ss.last().export_info {
            Some(e) => seq![e@],
            None => Seq::empty(),
        })
    }
}

/// The import roles of a module's statements, in statement order.
pub open spec fn imports_spec(ss: Seq<Statement>) -> Seq<ImportView>
    decreases ss.len(),
{
    if ss.len() == 0 {
        Seq::empty()
    } else {
        imports_spec(ss.drop_last()) + (match ss.last().import_info {
            Some(im) => seq![im@],
            None => Seq::empty(),
        })
    }
}

/// The usage tracker of one module.
#[derive(Debug)]
pub struct TreeShakeModule {
    pub module_id: String,
    pub side_effects: bool,
    pub stmt_graph: StatementGraph,
    pub used_exports: UsedExports,
    pub module_system: ModuleSystem,
}

impl TreeShakeModule {
    pub open spec fn stmts(self) -> Seq<Statement> {
        self.stmt_graph.stmts@
    }

    /// Well-formedness: the graph's statement metadata is valid, a module with
    /// side effects has all its exports demanded, a module that is not an
    /// ECMAScript module has an empty graph, and a partial demand set never
    /// holds the literal wildcard name.
    pub open spec fn wf(self) -> bool {
        &&& graph_wf(self.stmts())
        &&& self.side_effects ==> self.used_exports is All
        &&& !(self.module_system is EsModule) ==> self.stmts().len() == 0
        &&& self.used_exports matches UsedExports::Partial(req) ==> forall|i: int|
            0 <= i < req@.len() ==> req@[i]@ != "*"@
    }

    /// Builds the tracker for one module from its annotated statements.
    ///
    /// For an ECMAScript module the statement metadata is validated and the
    /// first malformed statement is reported; any other module system gets an
    /// empty graph, so the whole module is retained. A module with declared
    /// side effects starts with every export demanded, all others with none.
    pub fn new(
        module_id: String,
        module_system: ModuleSystem,
        side_effects: bool,
        statements: Vec<Statement>,
    ) -> (r: Result<TreeShakeModule, GraphError>)
        ensures
            module_system is EsModule ==> (r is Ok <==> graph_wf(statements@)),
            !(module_system is EsModule) ==> r is Ok,
            r matches Ok(m) ==> {
                &&& m.wf()
                &&& m.module_id == module_id
                &&& m.side_effects == side_effects
                &&& m.module_system == module_system
                &&& m.side_effects ==> m.used_exports is All
                &&& !m.side_effects ==> (m.used_exports matches UsedExports::Partial(v)
                    && v@.len() == 0)
                &&& module_system is EsModule ==> m.stmts() == statements@
                &&& !(module_system is EsModule) ==> m.stmts().len() == 0
            },
    {
        let stmt_graph = match module_system {
            ModuleSystem::EsModule => {
                match StatementGraph::new(statements) {
                    Ok(g) => g,
                    Err(e) => {
                        return Err(e);
                    },
                }
            },
            _ => StatementGraph::empty(),
        };
        let used_exports = if side_effects {
            UsedExports::All
        } else {
            UsedExports::Partial(Vec::new())
        };
        Ok(
            TreeShakeModule {
                module_id,
                stmt_graph,
                used_exports,
                side_effects,
                module_system,
            },
        )
    }

    /// Lists the import roles found by scanning all statements.
    pub fn imports(&self) -> (r: Vec<ImportInfo>)
        ensures
            import_views(r@) == imports_spec(self.stmts()),
    {
        let mut imports: Vec<ImportInfo> = Vec::new();
        let n = self.stmt_graph.stmts.len();
        let mut i: usize = 0;
        while i < n
            invariant
                0 <= i <= n,
                n == self.stmt_graph.stmts@.len(),
                import_views(imports@) == imports_spec(self.stmt_graph.stmts@.take(i as int)),
            decreases n - i,
        {
            if let Some(import) = &self.stmt_graph.stmts[i].import_info {
                imports.push(clone_import_info(import));
            }
            proof {
                let ssq = self.stmt_graph.stmts@;
                assert(ssq.take(i + 1).drop_last() =~= ssq.take(i as int));
                assert(ssq.take(i + 1).last() == ssq[i as int]);
                assert(import_views(imports@) =~= imports_spec(ssq.take(i + 1)));
            }
            i = i + 1;
        }
        proof {
            assert(self.stmt_graph.stmts@.take(n as int) =~= self.stmt_graph.stmts@);
        }
        imports
    }

    /// Lists the export roles found by scanning all statements.
    pub fn exports(&self) -> (r: Vec<ExportInfo>)
        ensures
            export_views(r@) == exports_spec(self.stmts()),
    {
        let mut exports: Vec<ExportInfo> = Vec::new();
        let n = self.stmt_graph.stmts.len();
        let mut i: usize = 0;
        while i < n
            invariant
                0 <= i <= n,
                n == self.stmt_graph.stmts@.len(),
                export_views(exports@) == exports_spec(self.stmt_graph.stmts@.take(i as int)),
            decreases n - i,
        {
            if let Some(export) = &self.stmt_graph.stmts[i].export_info {
                exports.push(clone_export_info(export));
            }
            proof {
                let ssq = self.stmt_graph.stmts@;
                assert(ssq.take(i + 1).drop_last() =~= ssq.take(i as int));
                assert(ssq.take(i + 1).last() == ssq[i as int]);
                assert(export_views(exports@) =~= exports_spec(ssq.take(i + 1)));
            }
            i = i + 1;
        }
        proof {
            assert(self.stmt_graph.stmts@.take(n as int) =~= self.stmt_graph.stmts@);
        }
        exports
    }

    /// Records that importers demand `name` of this module. Once every export
    /// is used this is a no-op: the demand set never shrinks.
    pub fn mark_export_used(&mut self, name: &String)
        requires
            old(self).wf(),
            name@ != "*"@,
        ensures
            final(self).wf(),
            old(self).used_exports is All ==> final(self).used_exports == UsedExports::All,
            old(self).used_exports matches UsedExports::Partial(v0)
                ==> (final(self).used_exports matches UsedExports::Partial(v1)
                && v1@ == v0@.push(*name)),
            final(self).module_id == old(self).module_id,
            final(self).side_effects == old(self).side_effects,
            final(self).stmt_graph == old(self).stmt_graph,
            final(self).module_system == old(self).module_system,
    {
        self.used_exports.add_used_export(name);
    }

    /// Records that importers demand every export of this module; irreversible.
    pub fn mark_all_exports_used(&mut self)
        requires
            old(self).wf(),
        ensures
            final(self).wf(),
            final(self).used_exports == UsedExports::All,
            final(self).module_id == old(self).module_id,
            final(self).side_effects == old(self).side_effects,
            final(self).stmt_graph == old(self).stmt_graph,
            final(self).module_system == old(self).module_system,
    {
        self.used_exports.mark_all_used();
    }
}

/// The entry one export specifier yields when every export is used.
pub open spec fn all_entry_of(sp: ExportSpecifierInfo, id: StatementId) -> (UsedIdent, StatementId) {
    match sp {
        ExportSpecifierInfo::Default => (UsedIdent::Default, id),
        ExportSpecifierInfo::Named { local, exported } => (UsedIdent::SwcIdent(local), id),
        ExportSpecifierInfo::Namespace(ns) => (UsedIdent::SwcIdent(ns), id),
        ExportSpecifierInfo::All(source) => (UsedIdent::ExportAll, id),
    }
}

/// One entry per specifier of an export statement, in order.
pub open spec fn all_entries_of_specs(
    sps: Seq<ExportSpecifierInfo>,
    id: StatementId,
) -> Seq<(UsedIdent, StatementId)>
    decreases sps.len(),
{
    if sps.len() == 0 {
        Seq::empty()
    } else {
        all_entries_of_specs(sps.drop_last(), id).push(all_entry_of(sps.last(), id))
    }
}

/// The entries resolved when every export is used: one per specifier of every
/// export statement, in statement order.
pub open spec fn all_branch_entries(exps: Seq<ExportView>) -> Seq<(UsedIdent, StatementId)>
    decreases exps.len(),
{
    if exps.len() == 0 {
        Seq::empty()
    } else {
        all_branch_entries(exps.drop_last()) + all_entries_of_specs(
            exps.last().specifiers,
            exps.last().stmt_id,
        )
    }
}

/// The externally visible name of a named specifier: the alias when present,
/// the local name otherwise.
pub open spec fn visible_name(local: String, exported: Option<String>) -> Seq<char> {
    match exported {
        Some(alias) => alias@,
        None => local@,
    }
}

/// Whether a demanded name matches one export specifier. A wildcard re-export
/// never matches directly: it is a separate fallback, not a named export.
pub open spec fn spec_matches(sp: ExportSpecifierInfo, name: Seq<char>) -> bool {
    match sp {
        ExportSpecifierInfo::Default => name == "default"@,
        ExportSpecifierInfo::Named { local, exported } => ident_matches(
            name,
            visible_name(local, exported),
        ),
        ExportSpecifierInfo::Namespace(ns) => ident_matches(name, ns@),
        ExportSpecifierInfo::All(source) => false,
    }
}

/// Whether any specifier of an export statement matches the demanded name.
pub open spec fn export_matches(e: ExportView, name: Seq<char>) -> bool {
    exists|k: int| 0 <= k < e.specifiers.len() && spec_matches(#[trigger] e.specifiers[k], name)
}

/// Position of the first export statement at or after `i` that matches `name`;
/// the length when none does.
pub open spec fn first_match_from(exps: Seq<ExportView>, name: Seq<char>, i: int) -> int
    decreases exps.len() - i when 0 <= i <= exps.len()
{
    if i >= exps.len() {
        exps.len() as int
    } else if export_matches(exps[i], name) {
        i
    } else {
        first_match_from(exps, name, i + 1)
    }
}

proof fn lemma_first_match_aux(exps: Seq<ExportView>, name: Seq<char>, i: int, f: int)
    requires
        0 <= i <= f <= exps.len(),
        f < exps.len() ==> export_matches(exps[f], name),
        forall|x: int| 0 <= x < f ==> !export_matches(exps[x], name),
    ensures
        first_match_from(exps, name, i) == f,
    decreases f - i,
{
    if i < f {
        assert(!export_matches(exps[i], name));
        lemma_first_match_aux(exps, name, i + 1, f);
    }
}

/// Identifies `first_match_from` with the position a scan found.
proof fn lemma_first_match_is(exps: Seq<ExportView>, name: Seq<char>, f: int)
    requires
        0 <= f <= exps.len(),
        f < exps.len() ==> export_matches(exps[f], name),
        forall|x: int| 0 <= x < f ==> !export_matches(exps[x], name),
    ensures
        first_match_from(exps, name, 0) == f,
{
    lemma_first_match_aux(exps, name, 0, f);
}

/// The entries one specifier of the first matching export statement yields for
/// a demanded name.
pub open spec fn matched_entry_of(
    sp: ExportSpecifierInfo,
    id: StatementId,
    name: Seq<char>,
) -> Seq<(UsedIdent, StatementId)> {
    match sp {
        ExportSpecifierInfo::Default => if name == "default"@ {
            seq![(UsedIdent::Default, id)]
        } else {
            Seq::empty()
        },
        ExportSpecifierInfo::Named { local, exported } => if ident_matches(
            name,
            visible_name(local, exported),
        ) {
            seq![(UsedIdent::SwcIdent(local), id)]
        } else {
            Seq::empty()
        },
        ExportSpecifierInfo::Namespace(ns) => if ident_matches(name, ns@) {
            seq![(UsedIdent::SwcIdent(ns), id)]
        } else {
            Seq::empty()
        },
        ExportSpecifierInfo::All(source) => Seq::empty(),
    }
}

pub open spec fn matched_entries(
    sps: Seq<ExportSpecifierInfo>,
    id: StatementId,
    name: Seq<char>,
) -> Seq<(UsedIdent, StatementId)>
    decreases sps.len(),
{
    if sps.len() == 0 {
        Seq::empty()
    } else {
        matched_entries(sps.drop_last(), id, name) + matched_entry_of(sps.last(), id, name)
    }
}

/// Whether an export statement carries a wildcard re-export.
pub open spec fn has_wildcard(e: ExportView) -> bool {
    exists|k: int| 0 <= k < e.specifiers.len() && #[trigger] e.specifiers[k] is All
}

/// The speculative entries for a name no named export provides: one per
/// statement carrying a wildcard re-export, since the true origin is unknown.
pub open spec fn wildcard_entries(
    exps: Seq<ExportView>,
    name: String,
) -> Seq<(UsedIdent, StatementId)>
    decreases exps.len(),
{
    if exps.len() == 0 {
        Seq::empty()
    } else {
        wildcard_entries(exps.drop_last(), name) + (if has_wildcard(exps.last()) {
            seq![(UsedIdent::InExportAll(name), exps.last().stmt_id)]
        } else {
            Seq::empty()
        })
    }
}

/// The entries one demanded name resolves to: those of the first matching
/// export statement, or the wildcard fallback when none matches.
pub open spec fn entries_for_name(
    exps: Seq<ExportView>,
    name: String,
) -> Seq<(UsedIdent, StatementId)> {
    let i = first_match_from(exps, name@, 0);
    if i < exps.len() {
        matched_entries(exps[i].specifiers, exps[i].stmt_id, name@)
    } else {
        wildcard_entries(exps, name)
    }
}

/// The entries resolved for a partial demand set, name by name in order.
pub open spec fn partial_branch_entries(
    exps: Seq<ExportView>,
    names: Seq<String>,
) -> Seq<(UsedIdent, StatementId)>
    decreases names.len(),
{
    if names.len() == 0 {
        Seq::empty()
    } else {
        partial_branch_entries(exps, names.drop_last()) + entries_for_name(exps, names.last())
    }
}

/// Under well-formed statement metadata, every listed export role points at a
/// statement of the module and keeps wildcard re-exports alone.
proof fn lemma_exports_spec_wf(ss: Seq<Statement>)
    requires
        graph_wf(ss),
    ensures
        forall|j: int|
            0 <= j < exports_spec(ss).len() ==> (#[trigger] exports_spec(ss)[j]).stmt_id < ss.len()
                && wildcard_alone(exports_spec(ss)[j].specifiers),
    decreases ss.len(),
{
    if ss.len() > 0 {
        let pre = ss.drop_last();
        assert forall|i: int| 0 <= i < pre.len() implies stmt_ok(pre[i], i) by {
            assert(pre[i] == ss[i]);
            assert(stmt_ok(ss[i], i));
        }
        lemma_exports_spec_wf(pre);
        assert(stmt_ok(ss.last(), ss.len() - 1));
        let whole = exports_spec(ss);
        let front = exports_spec(pre);
        assert forall|j: int|
            0 <= j < whole.len() implies (#[trigger] whole[j]).stmt_id < ss.len()
            && wildcard_alone(whole[j].specifiers) by {
            if j < front.len() {
                assert(whole[j] == front[j]);
            } else {
                assert(whole[j] == ss.last().export_info->0@);
            }
        }
    }
}

fn is_default_name(s: &String) -> (r: bool)
    ensures
        r == (s@ == "default"@),
{
    let d = String::from_str("default");
    s.eq(&d)
}

/// Decides whether any specifier of an export statement matches the name.
fn export_info_matches(e: &ExportInfo, name: &String) -> (r: bool)
    ensures
        r == export_matches(e@, name@),
{
    let m = e.specifiers.len();
    let mut k: usize = 0;
    while k < m
        invariant
            0 <= k <= m,
            m == e.specifiers@.len(),
            forall|x: int| 0 <= x < k ==> !spec_matches(#[trigger] e.specifiers@[x], name@),
        decreases m - k,
    {
        let matched = match &e.specifiers[k] {
            ExportSpecifierInfo::Default => is_default_name(name),
            ExportSpecifierInfo::Named { local, exported } => match exported {
                Some(alias) => crate::ident::is_ident_equal(name, alias),
                None => crate::ident::is_ident_equal(name, local),
            },
            ExportSpecifierInfo::Namespace(ns) => crate::ident::is_ident_equal(name, ns),
            ExportSpecifierInfo::All(_) => false,
        };
        if matched {
            proof {
                assert(spec_matches(e@.specifiers[k as int], name@));
            }
            return true;
        }
        k = k + 1;
    }
    false
}

/// Decides whether an export statement carries a wildcard re-export.
fn has_all_specifier(e: &ExportInfo) -> (r: bool)
    ensures
        r == has_wildcard(e@),
{
    let m = e.specifiers.len();
    let mut k: usize = 0;
    while k < m
        invariant
            0 <= k <= m,
            m == e.specifiers@.len(),
            forall|x: int| 0 <= x < k ==> !(#[trigger] e.specifiers@[x] is All),
        decreases m - k,
    {
        if let ExportSpecifierInfo::All(_) = &e.specifiers[k] {
            return true;
        }
        k = k + 1;
    }
    false
}

impl TreeShakeModule {
    /// The (identifier, statement) pairs the current demand resolves to.
    pub open spec fn entries(self) -> Seq<(UsedIdent, StatementId)> {
        match self.used_exports {
            UsedExports::All => all_branch_entries(exports_spec(self.stmts())),
            UsedExports::Partial(names) => partial_branch_entries(
                exports_spec(self.stmts()),
                names@,
            ),
        }
    }

    /// Resolves the demanded export names into used identifiers, each charged
    /// to the statement that provides it.
    ///
    /// When every export is used, each specifier of each export statement
    /// yields one entry. For a partial demand, each name is matched against the
    /// export statements in order under the scoped-identity rule, the first
    /// match yields its entries, and a name nothing matches is charged
    /// speculatively to every wildcard re-export statement.
    pub fn used_exports_idents(&self) -> (r: Vec<(UsedIdent, StatementId)>)
        requires
            self.wf(),
        ensures
            r@ == self.entries(),
    {
        let ghost exps = exports_spec(self.stmts());
        proof {
            lemma_exports_spec_wf(self.stmts());
        }
        match &self.used_exports {
            UsedExports::All => {
                let exports = self.exports();
                let en = exports.len();
                let mut used_idents: Vec<(UsedIdent, StatementId)> = Vec::new();
                let mut i: usize = 0;
                while i < en
                    invariant
                        0 <= i <= en,
                        en == exports@.len(),
                        exps == exports_spec(self.stmts()),
                        export_views(exports@) == exps,
                        used_idents@ == all_branch_entries(exps.take(i as int)),
                    decreases en - i,
                {
                    let e = &exports[i];
                    let m = e.specifiers.len();
                    let mut k: usize = 0;
                    proof {
                        assert(exps[i as int] == e@);
                    }
                    while k < m
                        invariant
                            0 <= i < en,
                            en == exports@.len(),
                            0 <= k <= m,
                            *e == exports@[i as int],
                            exps == exports_spec(self.stmts()),
                            export_views(exports@) == exps,
                            m == e.specifiers@.len(),
                            exps[i as int] == e@,
                            used_idents@ == all_branch_entries(exps.take(i as int))
                                + all_entries_of_specs(e.specifiers@.take(k as int), e.stmt_id),
                        decreases m - k,
                    {
                        match &e.specifiers[k] {
                            ExportSpecifierInfo::Default => {
                                used_idents.push((UsedIdent::Default, e.stmt_id));
                            },
                            ExportSpecifierInfo::Named { local, .. } => {
                                used_idents.push((UsedIdent::SwcIdent(local.clone()), e.stmt_id));
                            },
                            ExportSpecifierInfo::Namespace(ns) => {
                                used_idents.push((UsedIdent::SwcIdent(ns.clone()), e.stmt_id));
                            },
                            ExportSpecifierInfo::All(_) => {
                                used_idents.push((UsedIdent::ExportAll, e.stmt_id));
                            },
                        }
                        proof {
                            assert(e.specifiers@.take(k + 1).drop_last() =~= e.specifiers@.take(
                                k as int,
                            ));
                            assert(e.specifiers@.take(k + 1).last() == e.specifiers@[k as int]);
                            assert(used_idents@ =~= all_branch_entries(exps.take(i as int))
                                + all_entries_of_specs(e.specifiers@.take(k + 1), e.stmt_id));
                        }
                        k = k + 1;
                    }
                    proof {
                        assert(e.specifiers@.take(m as int) =~= e.specifiers@);
                        assert(exps.take(i + 1).drop_last() =~= exps.take(i as int));
                        assert(exps.take(i + 1).last() == exps[i as int]);
                        assert(used_idents@ =~= all_branch_entries(exps.take(i + 1)));
                    }
                    i = i + 1;
                }
                proof {
                    assert(exps.take(en as int) =~= exps);
                }
                used_idents
            },
            UsedExports::Partial(idents) => {
                let exports = self.exports();
                let en = exports.len();
                let pn = idents.len();
                let mut used_idents: Vec<(UsedIdent, StatementId)> = Vec::new();
                let mut j: usize = 0;
                while j < pn
                    invariant
                        0 <= j <= pn,
                        pn == idents@.len(),
                        en == exports@.len(),
                        exps == exports_spec(self.stmts()),
                        export_views(exports@) == exps,
                        forall|x: int|
                            0 <= x < exps.len() ==> wildcard_alone(
                                (#[trigger] exps[x]).specifiers,
                            ),
                        used_idents@ == partial_branch_entries(exps, idents@.take(j as int)),
                    decreases pn - j,
                {
                    let ident = &idents[j];
                    let ghost pre = used_idents@;
                    // find the first export statement with a matching specifier
                    let mut found: usize = en;
                    let mut fi: usize = 0;
                    while fi < en
                        invariant
                            0 <= fi <= en,
                            en == exports@.len(),
                            exps == exports_spec(self.stmts()),
                            export_views(exports@) == exps,
                            *ident == idents@[j as int],
                            0 <= j < pn,
                            pn == idents@.len(),
                            found <= en,
                            found == en ==> forall|x: int|
                                0 <= x < fi ==> !export_matches(exps[x], ident@),
                            found < en ==> found < fi && export_matches(exps[found as int], ident@)
                                && (forall|x: int|
                                0 <= x < found ==> !export_matches(exps[x], ident@)),
                        decreases en - fi,
                    {
                        if found == en && export_info_matches(&exports[fi], ident) {
                            found = fi;
                        }
                        fi = fi + 1;
                    }
                    proof {
                        assert(exps.len() == en);
                        lemma_first_match_is(exps, ident@, found as int);
                    }
                    if found < en {
                        let e = &exports[found];
                        let m = e.specifiers.len();
                        let mut k: usize = 0;
                        proof {
                            assert(exps[found as int] == e@);
                        }
                        while k < m
                            invariant
                                0 <= k <= m,
                                m == e.specifiers@.len(),
                                0 <= found < en,
                                en == exports@.len(),
                                *e == exports@[found as int],
                                exps == exports_spec(self.stmts()),
                                export_views(exports@) == exps,
                                exps[found as int] == e@,
                                export_matches(e@, ident@),
                                wildcard_alone(e.specifiers@),
                                *ident == idents@[j as int],
                                0 <= j < pn,
                                pn == idents@.len(),
                                used_idents@ == pre + matched_entries(
                                    e.specifiers@.take(k as int),
                                    e.stmt_id,
                                    ident@,
                                ),
                            decreases m - k,
                        {
                            match &e.specifiers[k] {
                                ExportSpecifierInfo::Default => {
                                    if is_default_name(ident) {
                                        used_idents.push((UsedIdent::Default, e.stmt_id));
                                    }
                                },
                                ExportSpecifierInfo::Named { local, exported } => {
                                    let matched = match exported {
                                        Some(alias) => crate::ident::is_ident_equal(ident, alias),
                                        None => crate::ident::is_ident_equal(ident, local),
                                    };
                                    if matched {
                                        used_idents.push(
                                            (UsedIdent::SwcIdent(local.clone()), e.stmt_id),
                                        );
                                    }
                                },
                                ExportSpecifierInfo::Namespace(ns) => {
                                    if crate::ident::is_ident_equal(ident, ns) {
                                        used_idents.push(
                                            (UsedIdent::SwcIdent(ns.clone()), e.stmt_id),
                                        );
                                    }
                                },
                                ExportSpecifierInfo::All(_) => {
                                    proof {
                                        // a wildcard re-export stands alone on its
                                        // statement, and a wildcard never matches a
                                        // name, so a matching statement carries none
                                        let k0 = choose|k0: int|
                                            0 <= k0 < e@.specifiers.len() && spec_matches(
                                                e@.specifiers[k0],
                                                ident@,
                                            );
                                        assert(e.specifiers@.len() == 1);
                                        assert(k0 == k as int);
                                        assert(false);
                                    }
                                },
                            }
                            proof {
                                assert(e.specifiers@.take(k + 1).drop_last() =~= e.specifiers@.take(
                                    k as int,
                                ));
                                assert(e.specifiers@.take(k + 1).last()
                                    == e.specifiers@[k as int]);
                                assert(used_idents@ =~= pre + matched_entries(
                                    e.specifiers@.take(k + 1),
                                    e.stmt_id,
                                    ident@,
                                ));
                            }
                            k = k + 1;
                        }
                        proof {
                            assert(e.specifiers@.take(m as int) =~= e.specifiers@);
                            assert(used_idents@ == pre + entries_for_name(
                                exps,
                                idents@[j as int],
                            ));
                        }
                    } else {
                        // no named export provides the name: charge every
                        // wildcard re-export statement speculatively
                        let mut fi2: usize = 0;
                        while fi2 < en
                            invariant
                                0 <= fi2 <= en,
                                en == exports@.len(),
                                exps == exports_spec(self.stmts()),
                                export_views(exports@) == exps,
                                *ident == idents@[j as int],
                                0 <= j < pn,
                                pn == idents@.len(),
                                used_idents@ == pre + wildcard_entries(
                                    exps.take(fi2 as int),
                                    idents@[j as int],
                                ),
                            decreases en - fi2,
                        {
                            let e2 = &exports[fi2];
                            if has_all_specifier(e2) {
                                used_idents.push(
                                    (UsedIdent::InExportAll(ident.clone()), e2.stmt_id),
                                );
                            }
                            proof {
                                assert(exps.take(fi2 + 1).drop_last() =~= exps.take(fi2 as int));
                                assert(exps.take(fi2 + 1).last() == exps[fi2 as int]);
                                assert(exps[fi2 as int] == e2@);
                                assert(used_idents@ =~= pre + wildcard_entries(
                                    exps.take(fi2 + 1),
                                    idents@[j as int],
                                ));
                            }
                            fi2 = fi2 + 1;
                        }
                        proof {
                            assert(exps.take(en as int) =~= exps);
                            assert(used_idents@ == pre + entries_for_name(
                                exps,
                                idents@[j as int],
                            ));
                        }
                    }
                    proof {
                        assert(idents@.take(j + 1).drop_last() =~= idents@.take(j as int));
                        assert(idents@.take(j + 1).last() == idents@[j as int]);
                        assert(used_idents@ == partial_branch_entries(exps, idents@.take(j + 1)));
                    }
                    j = j + 1;
                }
                proof {
                    assert(idents@.take(pn as int) =~= idents@);
                }
                used_idents
            },
        }
    }
}

proof fn lemma_specs_entries_ids(sps: Seq<ExportSpecifierInfo>, id: StatementId)
    ensures
        all_entries_of_specs(sps, id).len() == sps.len(),
        forall|j: int|
            0 <= j < sps.len() ==> (#[trigger] all_entries_of_specs(sps, id)[j]).1 == id,
    decreases sps.len(),
{
    if sps.len() > 0 {
        lemma_specs_entries_ids(sps.drop_last(), id);
    }
}

proof fn lemma_all_branch_ids(exps: Seq<ExportView>, n: int)
    requires
        forall|i: int| 0 <= i < exps.len() ==> (#[trigger] exps[i]).stmt_id < n,
    ensures
        forall|j: int|
            0 <= j < all_branch_entries(exps).len() ==> (#[trigger] all_branch_entries(
                exps,
            )[j]).1 < n,
    decreases exps.len(),
{
    if exps.len() > 0 {
        let pre = exps.drop_last();
        assert forall|i: int| 0 <= i < pre.len() implies (#[trigger] pre[i]).stmt_id < n by {
            assert(pre[i] == exps[i]);
        }
        lemma_all_branch_ids(pre, n);
        lemma_specs_entries_ids(exps.last().specifiers, exps.last().stmt_id);
        assert(exps.last().stmt_id < n);
        let whole = all_branch_entries(exps);
        let front = all_branch_entries(pre);
        let back = all_entries_of_specs(exps.last().specifiers, exps.last().stmt_id);
        assert forall|j: int| 0 <= j < whole.len() implies (#[trigger] whole[j]).1 < n by {
            if j < front.len() {
                assert(whole[j] == front[j]);
            } else {
                assert(whole[j] == back[j - front.len()]);
            }
        }
    }
}

proof fn lemma_matched_ids(sps: Seq<ExportSpecifierInfo>, id: StatementId, name: Seq<char>)
    ensures
        forall|j: int|
            0 <= j < matched_entries(sps, id, name).len() ==> (#[trigger] matched_entries(
                sps,
                id,
                name,
            )[j]).1 == id,
    decreases sps.len(),
{
    if sps.len() > 0 {
        lemma_matched_ids(sps.drop_last(), id, name);
        let whole = matched_entries(sps, id, name);
        let front = matched_entries(sps.drop_last(), id, name);
        let back = matched_entry_of(sps.last(), id, name);
        assert forall|j: int| 0 <= j < whole.len() implies (#[trigger] whole[j]).1 == id by {
            if j < front.len() {
                assert(whole[j] == front[j]);
            } else {
                assert(whole[j] == back[j - front.len()]);
            }
        }
    }
}

proof fn lemma_wildcard_ids(exps: Seq<ExportView>, name: String, n: int)
    requires
        forall|i: int| 0 <= i < exps.len() ==> (#[trigger] exps[i]).stmt_id < n,
    ensures
        forall|j: int|
            0 <= j < wildcard_entries(exps, name).len() ==> (#[trigger] wildcard_entries(
                exps,
                name,
            )[j]).1 < n,
    decreases exps.len(),
{
    if exps.len() > 0 {
        let pre = exps.drop_last();
        assert forall|i: int| 0 <= i < pre.len() implies (#[trigger] pre[i]).stmt_id < n by {
            assert(pre[i] == exps[i]);
        }
        lemma_wildcard_ids(pre, name, n);
        assert(exps.last().stmt_id < n);
        let whole = wildcard_entries(exps, name);
        let front = wildcard_entries(pre, name);
        assert forall|j: int| 0 <= j < whole.len() implies (#[trigger] whole[j]).1 < n by {
            if j < front.len() {
                assert(whole[j] == front[j]);
            } else {
                assert(has_wildcard(exps.last()));
                assert(whole[j] == (UsedIdent::InExportAll(name), exps.last().stmt_id));
            }
        }
    }
}

proof fn lemma_first_match_bounds(exps: Seq<ExportView>, name: Seq<char>, i: int)
    requires
        0 <= i <= exps.len(),
    ensures
        i <= first_match_from(exps, name, i) <= exps.len(),
    decreases exps.len() - i,
{
    if i < exps.len() && !export_matches(exps[i], name) {
        lemma_first_match_bounds(exps, name, i + 1);
    }
}

proof fn lemma_partial_ids(exps: Seq<ExportView>, names: Seq<String>, n: int)
    requires
        forall|i: int| 0 <= i < exps.len() ==> (#[trigger] exps[i]).stmt_id < n,
    ensures
        forall|j: int|
            0 <= j < partial_branch_entries(exps, names).len()
                ==> (#[trigger] partial_branch_entries(exps, names)[j]).1 < n,
    decreases names.len(),
{
    if names.len() > 0 {
        lemma_partial_ids(exps, names.drop_last(), n);
        let name = names.last();
        lemma_first_match_bounds(exps, name@, 0);
        let f = first_match_from(exps, name@, 0);
        if f < exps.len() {
            lemma_matched_ids(exps[f].specifiers, exps[f].stmt_id, name@);
        } else {
            lemma_wildcard_ids(exps, name, n);
        }
        let whole = partial_branch_entries(exps, names);
        let front = partial_branch_entries(exps, names.drop_last());
        let back = entries_for_name(exps, name);
        assert forall|j: int| 0 <= j < whole.len() implies (#[trigger] whole[j]).1 < n by {
            if j < front.len() {
                assert(whole[j] == front[j]);
            } else {
                assert(whole[j] == back[j - front.len()]);
            }
        }
    }
}

/// Every resolved entry points at a statement of the module.
pub proof fn lemma_entries_ids_in_range(m: TreeShakeModule)
    requires
        m.wf(),
    ensures
        forall|j: int|
            0 <= j < m.entries().len() ==> (#[trigger] m.entries()[j]).1 < m.stmts().len(),
{
    lemma_exports_spec_wf(m.stmts());
    match m.used_exports {
        UsedExports::All => {
            lemma_all_branch_ids(exports_spec(m.stmts()), m.stmts().len() as int);
        },
        UsedExports::Partial(names) => {
            lemma_partial_ids(exports_spec(m.stmts()), names@, m.stmts().len() as int);
        },
    }
}

/// Adds `name` to the seed entry of statement `t`, creating the entry if the
/// statement was not yet marked.
fn add_seed_ident(seed: &mut Vec<Option<Vec<String>>>, t: usize, name: String)
    requires
        (t as int) < old(seed)@.len(),
    ensures
        final(seed)@.len() == old(seed)@.len(),
        forall|t2: int|
            0 <= t2 < final(seed)@.len() ==> ((#[trigger] final(seed)@[t2]) is Some <==> old(
                seed,
            )@[t2] is Some || t2 == t as int),
        forall|t2: int, nm: Seq<char>| #![all_triggers]
            row_has(final(seed)@, t2, nm) <==> row_has(old(seed)@, t2, nm) || (t2 == t as int && nm
                == name@),
{
    let ghost before = seed@;
    let ghost namev = name@;
    let was_in = seed[t].is_some();
    let row0 = seed[t].take();
    let mut row = match row0 {
        Some(v) => v,
        None => Vec::new(),
    };
    row.push(name);
    seed[t] = Some(row);
    proof {
        assert(seed@ =~= before.update(t as int, seed@[t as int]));
        assert forall|t2: int, nm: Seq<char>| #![all_triggers]
            row_has(seed@, t2, nm) implies row_has(before, t2, nm) || (t2 == t as int && nm
            == namev) by {
            if t2 == t as int {
                let rowv = seed@[t2]->0;
                let idx = choose|ii: int| 0 <= ii < rowv@.len() && rowv@[ii]@ == nm;
                if was_in && idx < rowv@.len() - 1 {
                    assert(row_has(before, t2, nm));
                } else {
                    assert(rowv@[idx]@ == namev);
                }
            }
        }
        assert forall|t2: int, nm: Seq<char>| #![all_triggers]
            row_has(before, t2, nm) implies row_has(seed@, t2, nm) by {
            if t2 == t as int {
                let oldrow = before[t2]->0;
                let idx = choose|ii: int| 0 <= ii < oldrow@.len() && oldrow@[ii]@ == nm;
                assert(seed@[t2]->0@[idx]@ == nm);
            }
        }
        assert(row_has(seed@, t as int, namev)) by {
            let rowv = seed@[t as int]->0;
            assert(rowv@.last()@ == namev);
        }
    }
}

/// Marks statement `t` as used without charging any identifier to it yet.
fn ensure_seed_entry(seed: &mut Vec<Option<Vec<String>>>, t: usize)
    requires
        (t as int) < old(seed)@.len(),
    ensures
        final(seed)@.len() == old(seed)@.len(),
        forall|t2: int|
            0 <= t2 < final(seed)@.len() ==> ((#[trigger] final(seed)@[t2]) is Some <==> old(
                seed,
            )@[t2] is Some || t2 == t as int),
        forall|t2: int, nm: Seq<char>| #![all_triggers]
            row_has(final(seed)@, t2, nm) <==> row_has(old(seed)@, t2, nm),
{
    let ghost before = seed@;
    let present = seed[t].is_some();
    if !present {
        let empty_row: Vec<String> = Vec::new();
        seed[t] = Some(empty_row);
        proof {
            assert forall|t2: int, nm: Seq<char>| #![all_triggers]
                row_has(seed@, t2, nm) implies row_has(before, t2, nm) by {
                if t2 == t as int {
                    let rowv = seed@[t2]->0;
                    let idx = choose|ii: int| 0 <= ii < rowv@.len() && rowv@[ii]@ == nm;
                }
            }
            assert forall|t2: int, nm: Seq<char>| #![all_triggers]
                row_has(before, t2, nm) implies row_has(seed@, t2, nm) by {
                if t2 == t as int {
                    assert(before[t2] is None);
                }
            }
        }
    }
}

/// A self-executed statement among the first `s_bound` charges `name` to
/// statement `t`: it references `name` and `t` (another statement) defines it.
pub open spec fn self_exec_charges(
    ss: Seq<Statement>,
    t: int,
    name: Seq<char>,
    s_bound: int,
) -> bool {
    &&& 0 <= t < ss.len()
    &&& exists|s: int|
        0 <= s < s_bound && s != t && (#[trigger] ss[s]).is_self_executed && stmt_references(
            ss[s],
            name,
        ) && stmt_defines_name(ss[t], name)
}

/// Statement `t` is marked used by the self-execution pass over the first
/// `s_bound` statements: it is itself self-executed, or such a statement
/// charges one of its definitions.
pub open spec fn self_exec_marks(ss: Seq<Statement>, t: int, s_bound: int) -> bool {
    ||| (0 <= t < s_bound && ss[t].is_self_executed)
    ||| exists|name: Seq<char>| #[trigger] self_exec_charges(ss, t, name, s_bound)
}

proof fn lemma_self_exec_monotone(ss: Seq<Statement>, t: int, s_bound: int)
    requires
        self_exec_marks(ss, t, s_bound),
    ensures
        self_exec_marks(ss, t, s_bound + 1),
{
    if !(0 <= t < s_bound && ss[t].is_self_executed) {
        let nm = choose|nm: Seq<char>| #[trigger] self_exec_charges(ss, t, nm, s_bound);
        lemma_self_exec_monotone_charge(ss, t, nm, s_bound);
    }
}

proof fn lemma_self_exec_monotone_charge(ss: Seq<Statement>, t: int, nm: Seq<char>, s_bound: int)
    requires
        self_exec_charges(ss, t, nm, s_bound),
    ensures
        self_exec_charges(ss, t, nm, s_bound + 1),
{
    let s2 = choose|s2: int|
        0 <= s2 < s_bound && s2 != t && (#[trigger] ss[s2]).is_self_executed && stmt_references(
            ss[s2],
            nm,
        ) && stmt_defines_name(ss[t], nm);
    assert(0 <= s2 < s_bound + 1 && s2 != t && ss[s2].is_self_executed && stmt_references(
        ss[s2],
        nm,
    ) && stmt_defines_name(ss[t], nm));
}

/// Force-includes the self-executed statement `s` and charges every identifier
/// it references to the other statements that define it.
fn charge_self_executed(seed: &mut Vec<Option<Vec<String>>>, stmts: &Vec<Statement>, s: usize)
    requires
        (s as int) < old(seed)@.len(),
        old(seed)@.len() == stmts@.len(),
        stmts@[s as int].is_self_executed,
    ensures
        final(seed)@.len() == old(seed)@.len(),
        forall|t2: int|
            0 <= t2 < final(seed)@.len() ==> ((#[trigger] final(seed)@[t2]) is Some <==> old(
                seed,
            )@[t2] is Some || t2 == s as int || (t2 != s as int && exists|nm: Seq<char>|
                #[trigger] stmt_references(stmts@[s as int], nm) && stmt_defines_name(
                    stmts@[t2],
                    nm,
                ))),
        forall|t2: int, nm: Seq<char>| #![all_triggers]
            row_has(final(seed)@, t2, nm) <==> row_has(old(seed)@, t2, nm) || (0 <= t2
                < stmts@.len() && t2 != s as int && stmt_references(stmts@[s as int], nm)
                && stmt_defines_name(stmts@[t2], nm)),
{
    let ghost pre = seed@;
    let ghost ss = stmts@;
    let ghost s_i = s as int;
    let n = stmts.len();
    ensure_seed_entry(seed, s);
    let stmt = &stmts[s];
    let m = stmt.used_idents.len();
    let mut k: usize = 0;
    while k < m
        invariant
            0 <= k <= m,
            0 <= s_i < n,
            s_i == s as int,
            ss == stmts@,
            n == ss.len(),
            seed@.len() == n,
            pre.len() == n,
            *stmt == ss[s_i],
            m == ss[s_i].used_idents@.len(),
            forall|t2: int|
                0 <= t2 < n ==> ((#[trigger] seed@[t2]) is Some <==> pre[t2] is Some || t2 == s_i
                    || (t2 != s_i && exists|kk: int|
                    0 <= kk < k && stmt_defines_name(
                        ss[t2],
                        #[trigger] ss[s_i].used_idents@[kk]@,
                    ))),
            forall|t2: int, nm: Seq<char>| #![all_triggers]
                row_has(seed@, t2, nm) <==> row_has(pre, t2, nm) || (0 <= t2 < n && t2 != s_i
                    && stmt_defines_name(ss[t2], nm) && exists|kk: int|
                    0 <= kk < k && #[trigger] ss[s_i].used_idents@[kk]@ == nm),
        decreases m - k,
    {
        let name = &stmt.used_idents[k];
        let mut t: usize = 0;
        while t < n
            invariant
                0 <= t <= n,
                0 <= k < m,
                0 <= s_i < n,
                s_i == s as int,
                ss == stmts@,
                n == ss.len(),
                seed@.len() == n,
                pre.len() == n,
                *stmt == ss[s_i],
                m == ss[s_i].used_idents@.len(),
                name@ == ss[s_i].used_idents@[k as int]@,
                forall|t2: int|
                    0 <= t2 < n ==> ((#[trigger] seed@[t2]) is Some <==> pre[t2] is Some || t2
                        == s_i || (t2 != s_i && exists|kk: int|
                        0 <= kk < k && stmt_defines_name(
                            ss[t2],
                            #[trigger] ss[s_i].used_idents@[kk]@,
                        )) || (t2 < t && t2 != s_i && stmt_defines_name(ss[t2], name@))),
                forall|t2: int, nm: Seq<char>| #![all_triggers]
                    row_has(seed@, t2, nm) <==> row_has(pre, t2, nm) || (0 <= t2 < n && t2 != s_i
                        && stmt_defines_name(ss[t2], nm) && exists|kk: int|
                        0 <= kk < k && #[trigger] ss[s_i].used_idents@[kk]@ == nm) || (nm == name@
                        && 0 <= t2 < t && t2 != s_i && stmt_defines_name(ss[t2], nm)),
            decreases n - t,
        {
            if t != s {
                if stmt_defines_matching(&stmts[t], name) {
                    add_seed_ident(seed, t, name.clone());
                }
            }
            t = t + 1;
        }
        proof {
            assert forall|t2: int|
                0 <= t2 < n implies ((#[trigger] seed@[t2]) is Some <==> pre[t2] is Some || t2
                == s_i || (t2 != s_i && exists|kk: int|
                0 <= kk < k + 1 && stmt_defines_name(
                    ss[t2],
                    #[trigger] ss[s_i].used_idents@[kk]@,
                ))) by {
                if seed@[t2] is Some && !(pre[t2] is Some) && t2 != s_i {
                    if exists|kk: int|
                        0 <= kk < k && stmt_defines_name(
                            ss[t2],
                            #[trigger] ss[s_i].used_idents@[kk]@,
                        ) {
                        let kk = choose|kk: int|
                            0 <= kk < k && stmt_defines_name(
                                ss[t2],
                                #[trigger] ss[s_i].used_idents@[kk]@,
                            );
                        assert(0 <= kk < k + 1 && stmt_defines_name(
                            ss[t2],
                            ss[s_i].used_idents@[kk]@,
                        ));
                    } else {
                        assert(stmt_defines_name(ss[t2], ss[s_i].used_idents@[k as int]@));
                    }
                }
                if !(seed@[t2] is Some) && t2 != s_i && !(pre[t2] is Some) {
                    if exists|kk: int|
                        0 <= kk < k + 1 && stmt_defines_name(
                            ss[t2],
                            #[trigger] ss[s_i].used_idents@[kk]@,
                        ) {
                        let kk = choose|kk: int|
                            0 <= kk < k + 1 && stmt_defines_name(
                                ss[t2],
                                #[trigger] ss[s_i].used_idents@[kk]@,
                            );
                        assert(kk == k);
                        assert(seed@[t2] is Some);
                    }
                }
            }
            assert forall|t2: int, nm: Seq<char>| #![all_triggers]
                row_has(seed@, t2, nm) <==> row_has(pre, t2, nm) || (0 <= t2 < n && t2 != s_i
                && stmt_defines_name(ss[t2], nm) && exists|kk: int|
                0 <= kk < k + 1 && #[trigger] ss[s_i].used_idents@[kk]@ == nm) by {
                if row_has(seed@, t2, nm) && !row_has(pre, t2, nm) {
                    if exists|kk: int| 0 <= kk < k && #[trigger] ss[s_i].used_idents@[kk]@ == nm {
                        let kk = choose|kk: int|
                            0 <= kk < k && #[trigger] ss[s_i].used_idents@[kk]@ == nm;
                        assert(0 <= kk < k + 1 && ss[s_i].used_idents@[kk]@ == nm);
                    } else {
                        assert(nm == ss[s_i].used_idents@[k as int]@);
                    }
                }
                if !row_has(seed@, t2, nm) && !row_has(pre, t2, nm) && 0 <= t2 < n && t2 != s_i
                    && stmt_defines_name(ss[t2], nm) {
                    if exists|kk: int| 0 <= kk < k + 1 && #[trigger] ss[s_i].used_idents@[kk]@
                        == nm {
                        let kk = choose|kk: int|
                            0 <= kk < k + 1 && #[trigger] ss[s_i].used_idents@[kk]@ == nm;
                        assert(kk == k);
                        assert(nm == name@);
                        assert(row_has(seed@, t2, nm));
                    }
                }
            }
        }
        k = k + 1;
    }
    proof {
        assert forall|t2: int|
            0 <= t2 < n implies ((#[trigger] seed@[t2]) is Some <==> pre[t2] is Some || t2 == s_i
            || (t2 != s_i && exists|nm: Seq<char>|
            #[trigger] stmt_references(ss[s_i], nm) && stmt_defines_name(ss[t2], nm))) by {
            if seed@[t2] is Some && !(pre[t2] is Some) && t2 != s_i {
                let kk = choose|kk: int|
                    0 <= kk < m && stmt_defines_name(ss[t2], #[trigger] ss[s_i].used_idents@[kk]@);
                let nm = ss[s_i].used_idents@[kk]@;
                assert(stmt_references(ss[s_i], nm) && stmt_defines_name(ss[t2], nm));
            }
            if !(seed@[t2] is Some) && t2 != s_i && !(pre[t2] is Some) {
                if exists|nm: Seq<char>|
                    #[trigger] stmt_references(ss[s_i], nm) && stmt_defines_name(ss[t2], nm) {
                    let nm = choose|nm: Seq<char>|
                        #[trigger] stmt_references(ss[s_i], nm) && stmt_defines_name(ss[t2], nm);
                    let kk = choose|kk: int|
                        0 <= kk < ss[s_i].used_idents@.len() && ss[s_i].used_idents@[kk]@ == nm;
                    assert(stmt_defines_name(ss[t2], ss[s_i].used_idents@[kk]@));
                    assert(seed@[t2] is Some);
                }
            }
        }
        assert forall|t2: int, nm: Seq<char>| #![all_triggers]
            row_has(seed@, t2, nm) <==> row_has(pre, t2, nm) || (0 <= t2 < ss.len() && t2 != s_i
            && stmt_references(ss[s_i], nm) && stmt_defines_name(ss[t2], nm)) by {
            if row_has(seed@, t2, nm) && !row_has(pre, t2, nm) {
                let kk = choose|kk: int|
                    0 <= kk < m && #[trigger] ss[s_i].used_idents@[kk]@ == nm;
                assert(stmt_references(ss[s_i], nm));
            }
            if !row_has(seed@, t2, nm) && !row_has(pre, t2, nm) && 0 <= t2 < ss.len() && t2 != s_i
                && stmt_references(ss[s_i], nm) && stmt_defines_name(ss[t2], nm) {
                let kk = choose|kk: int|
                    0 <= kk < ss[s_i].used_idents@.len() && ss[s_i].used_idents@[kk]@ == nm;
                assert(row_has(seed@, t2, nm));
            }
        }
    }
}

impl TreeShakeModule {
    /// Some resolved entry charges statement `t`.
    pub open spec fn entry_seed_dom(self, t: int) -> bool {
        exists|j: int| 0 <= j < self.entries().len() && (#[trigger] self.entries()[j]).1 == t
    }

    /// Some resolved entry charges `name` to statement `t`.
    pub open spec fn entry_seed_has(self, t: int, name: Seq<char>) -> bool {
        exists|j: int|
            0 <= j < self.entries().len() && (#[trigger] self.entries()[j]).1 == t && self.entries()[j].0.as_name()
                == name
    }

    /// The names the seed map charges to statement `t`: those of the resolved
    /// export entries plus those charged by self-executed statements.
    pub open spec fn seed_has(self, t: int, name: Seq<char>) -> bool {
        self.entry_seed_has(t, name) || self_exec_charges(
            self.stmts(),
            t,
            name,
            self.stmts().len() as int,
        )
    }

    /// The statements the seed map marks as used.
    pub open spec fn seed_marks(self, t: int) -> bool {
        &&& 0 <= t < self.stmts().len()
        &&& (self.entry_seed_dom(t) || self_exec_marks(
            self.stmts(),
            t,
            self.stmts().len() as int,
        ))
    }

    pub open spec fn seed_set(self) -> Set<int> {
        Set::new(|t: int| self.seed_marks(t))
    }

    /// Statement `t` must be retained: it is reachable from the seed along
    /// dependency edges.
    pub open spec fn retained(self, t: int) -> bool {
        reached(self.stmts(), self.seed_set(), t)
    }

    /// `name` is charged to the retained statement `t`.
    pub open spec fn retained_name(self, t: int, name: Seq<char>) -> bool {
        self.seed_has(t, name) || closure_adds(self.stmts(), self.seed_set(), t, name)
    }

    /// Full characterization of what `used_statements` returns: for an
    /// ECMAScript module, exactly the reachable statements with exactly the
    /// names charged to them; for any other module system, every statement,
    /// with no identifier analysis.
    pub open spec fn is_retained_result(self, r: Seq<Option<Vec<String>>>) -> bool {
        &&& r.len() == self.stmts().len()
        &&& if self.module_system is EsModule {
            &&& (forall|t: int| 0 <= t < r.len() ==> ((#[trigger] r[t]) is Some <==> self.retained(t)))
            &&& (forall|t: int, name: Seq<char>| row_has(r, t, name) <==> self.retained_name(t, name))
        } else {
            forall|t: int|
                0 <= t < r.len() ==> ((#[trigger] r[t]) matches Some(v) && v@.len() == 0)
        }
    }

    /// Computes the retained statements and, for each, the identifiers used of it.
    ///
    /// The resolved export entries seed the analysis; every self-executed
    /// statement is force-included, and each identifier it references is
    /// charged to the other statements defining it; the statement graph then
    /// closes the seed under dependency edges. A module under any other module
    /// system short-circuits: every statement is retained unconditionally.
    pub fn used_statements(&self) -> (r: Vec<Option<Vec<String>>>)
        requires
            self.wf(),
        ensures
            self.is_retained_result(r@),
    {
        let n = self.stmt_graph.stmts.len();
        match self.module_system {
            ModuleSystem::EsModule => {},
            _ => {
                let mut all: Vec<Option<Vec<String>>> = Vec::new();
                let mut i: usize = 0;
                while i < n
                    invariant
                        0 <= i <= n,
                        all@.len() == i,
                        forall|t: int|
                            0 <= t < i ==> ((#[trigger] all@[t]) matches Some(v) && v@.len() == 0),
                    decreases n - i,
                {
                    let empty_row: Vec<String> = Vec::new();
                    all.push(Some(empty_row));
                    i = i + 1;
                }
                return all;
            },
        }

        let ghost ss = self.stmts();
        let entries = self.used_exports_idents();
        proof {
            lemma_entries_ids_in_range(*self);
        }
        let en = entries.len();

        let mut seed: Vec<Option<Vec<String>>> = Vec::new();
        let mut i: usize = 0;
        while i < n
            invariant
                0 <= i <= n,
                seed@.len() == i,
                forall|t: int| 0 <= t < i ==> (#[trigger] seed@[t]) is None,
            decreases n - i,
        {
            seed.push(None);
            i = i + 1;
        }

        // seed from the resolved export entries, grouped by statement
        let mut j: usize = 0;
        while j < en
            invariant
                0 <= j <= en,
                en == entries@.len(),
                entries@ == self.entries(),
                ss == self.stmts(),
                n == ss.len(),
                seed@.len() == n,
                forall|jj: int| 0 <= jj < en ==> (#[trigger] entries@[jj]).1 < n,
                forall|t: int|
                    0 <= t < n ==> ((#[trigger] seed@[t]) is Some <==> exists|jj: int|
                        0 <= jj < j && (#[trigger] entries@[jj]).1 == t),
                forall|t: int, nm: Seq<char>| #![all_triggers]
                    row_has(seed@, t, nm) <==> exists|jj: int|
                        0 <= jj < j && (#[trigger] entries@[jj]).1 == t && entries@[jj].0.as_name()
                            == nm,
            decreases en - j,
        {
            let ghost pre = seed@;
            let pair = &entries[j];
            let name = pair.0.to_string();
            let ghost namev = name@;
            let id = pair.1;
            add_seed_ident(&mut seed, id, name);
            proof {
                assert(*pair == entries@[j as int]);
                assert(namev == entries@[j as int].0.as_name());
                assert forall|t: int|
                    0 <= t < n implies ((#[trigger] seed@[t]) is Some <==> exists|jj: int|
                    0 <= jj < j + 1 && (#[trigger] entries@[jj]).1 == t) by {
                    if seed@[t] is Some {
                        if pre[t] is Some {
                            let jj = choose|jj: int| 0 <= jj < j && (#[trigger] entries@[jj]).1 == t;
                            assert(0 <= jj < j + 1 && entries@[jj].1 == t);
                        } else {
                            assert(entries@[j as int].1 == t);
                        }
                    } else {
                        assert(forall|jj: int|
                            0 <= jj < j + 1 ==> (#[trigger] entries@[jj]).1 != t) by {
                            assert(!(pre[t] is Some));
                            assert(t != id as int);
                        }
                    }
                }
                assert forall|t: int, nm: Seq<char>| #![all_triggers]
                    row_has(seed@, t, nm) <==> (exists|jj: int|
                    0 <= jj < j + 1 && (#[trigger] entries@[jj]).1 == t && entries@[jj].0.as_name()
                        == nm) by {
                    if row_has(seed@, t, nm) {
                        if row_has(pre, t, nm) {
                            let jj = choose|jj: int|
                                0 <= jj < j && (#[trigger] entries@[jj]).1 == t
                                    && entries@[jj].0.as_name() == nm;
                            assert(0 <= jj < j + 1 && entries@[jj].1 == t
                                && entries@[jj].0.as_name() == nm);
                        } else {
                            assert(t == id as int && nm == namev);
                            assert(entries@[j as int].1 == t && entries@[j as int].0.as_name()
                                == nm);
                        }
                    }
                    if exists|jj: int|
                        0 <= jj < j + 1 && (#[trigger] entries@[jj]).1 == t
                            && entries@[jj].0.as_name() == nm {
                        let jj = choose|jj: int|
                            0 <= jj < j + 1 && (#[trigger] entries@[jj]).1 == t
                                && entries@[jj].0.as_name() == nm;
                        if jj < j {
                            assert(row_has(pre, t, nm));
                        } else {
                            assert(t == id as int && nm == namev);
                        }
                        assert(row_has(seed@, t, nm));
                    }
                }
            }
            j = j + 1;
        }

        proof {
            assert forall|t: int|
                0 <= t < n implies ((#[trigger] seed@[t]) is Some <==> self.entry_seed_dom(t)) by {}
            assert forall|t: int, nm: Seq<char>| #![all_triggers]
                row_has(seed@, t, nm) <==> self.entry_seed_has(t, nm) by {}
        }

        // force-include self-executed statements and charge what they reference
        let mut s: usize = 0;
        while s < n
            invariant
                0 <= s <= n,
                en == entries@.len(),
                entries@ == self.entries(),
                ss == self.stmts(),
                n == ss.len(),
                seed@.len() == n,
                forall|t: int|
                    0 <= t < n ==> ((#[trigger] seed@[t]) is Some <==> self.entry_seed_dom(t)
                        || self_exec_marks(ss, t, s as int)),
                forall|t: int, nm: Seq<char>| #![all_triggers]
                    row_has(seed@, t, nm) <==> self.entry_seed_has(t, nm) || self_exec_charges(
                        ss,
                        t,
                        nm,
                        s as int,
                    ),
            decreases n - s,
        {
            let ghost s_i = s as int;
            let ghost pre0 = seed@;
            if self.stmt_graph.stmts[s].is_self_executed {
                charge_self_executed(&mut seed, &self.stmt_graph.stmts, s);
                proof {
                    assert forall|t: int|
                        0 <= t < n implies ((#[trigger] seed@[t]) is Some <==> self.entry_seed_dom(
                        t,
                    ) || self_exec_marks(ss, t, s_i + 1)) by {
                        if seed@[t] is Some {
                            if !self.entry_seed_dom(t) && !(pre0[t] is Some) {
                                if t == s_i {
                                    assert(self_exec_marks(ss, t, s_i + 1));
                                } else {
                                    let nm = choose|nm: Seq<char>|
                                        t != s_i && #[trigger] stmt_references(ss[s_i], nm)
                                            && stmt_defines_name(ss[t], nm);
                                    assert(self_exec_charges(ss, t, nm, s_i + 1));
                                    assert(self_exec_marks(ss, t, s_i + 1));
                                }
                            } else if pre0[t] is Some && !self.entry_seed_dom(t) {
                                assert(self_exec_marks(ss, t, s_i));
                                lemma_self_exec_monotone(ss, t, s_i);
                            }
                        } else {
                            if self_exec_marks(ss, t, s_i + 1) {
                                if 0 <= t < s_i + 1 && ss[t].is_self_executed {
                                    if t == s_i {
                                        assert(seed@[t] is Some);
                                    } else {
                                        assert(self_exec_marks(ss, t, s_i));
                                        assert(pre0[t] is Some);
                                    }
                                } else {
                                    let nm = choose|nm: Seq<char>| #[trigger] self_exec_charges(
                                        ss,
                                        t,
                                        nm,
                                        s_i + 1,
                                    );
                                    let s2 = choose|s2: int|
                                        0 <= s2 < s_i + 1 && s2 != t
                                            && (#[trigger] ss[s2]).is_self_executed
                                            && stmt_references(ss[s2], nm) && stmt_defines_name(
                                            ss[t],
                                            nm,
                                        );
                                    if s2 < s_i {
                                        assert(self_exec_charges(ss, t, nm, s_i));
                                        assert(pre0[t] is Some);
                                    } else {
                                        assert(seed@[t] is Some);
                                    }
                                }
                                assert(false);
                            }
                        }
                    }
                    assert forall|t: int, nm: Seq<char>| #![all_triggers]
                        row_has(seed@, t, nm) <==> self.entry_seed_has(t, nm) || self_exec_charges(
                        ss,
                        t,
                        nm,
                        s_i + 1,
                    ) by {
                        if row_has(seed@, t, nm) {
                            if !row_has(pre0, t, nm) {
                                assert(self_exec_charges(ss, t, nm, s_i + 1));
                            } else if !self.entry_seed_has(t, nm) {
                                assert(self_exec_charges(ss, t, nm, s_i));
                                lemma_self_exec_monotone_charge(ss, t, nm, s_i);
                            }
                        }
                        if self.entry_seed_has(t, nm) || self_exec_charges(ss, t, nm, s_i + 1) {
                            if self.entry_seed_has(t, nm) {
                                assert(row_has(pre0, t, nm));
                                assert(row_has(seed@, t, nm));
                            } else {
                                let s2 = choose|s2: int|
                                    0 <= s2 < s_i + 1 && s2 != t
                                        && (#[trigger] ss[s2]).is_self_executed
                                        && stmt_references(ss[s2], nm) && stmt_defines_name(
                                        ss[t],
                                        nm,
                                    );
                                if s2 < s_i {
                                    assert(self_exec_charges(ss, t, nm, s_i));
                                    assert(row_has(pre0, t, nm));
                                } else {
                                    assert(s2 == s_i);
                                }
                                assert(row_has(seed@, t, nm));
                            }
                        }
                    }
                }
            } else {
                proof {
                    assert forall|t: int|
                        0 <= t < n implies ((#[trigger] seed@[t]) is Some <==> self.entry_seed_dom(
                        t,
                    ) || self_exec_marks(ss, t, s_i + 1)) by {
                        if seed@[t] is Some && !self.entry_seed_dom(t) {
                            assert(self_exec_marks(ss, t, s_i));
                            lemma_self_exec_monotone(ss, t, s_i);
                        }
                        if !(seed@[t] is Some) && self_exec_marks(ss, t, s_i + 1) {
                            if 0 <= t < s_i + 1 && ss[t].is_self_executed {
                                assert(t != s_i);
                                assert(self_exec_marks(ss, t, s_i));
                            } else {
                                let nm = choose|nm: Seq<char>| #[trigger] self_exec_charges(
                                    ss,
                                    t,
                                    nm,
                                    s_i + 1,
                                );
                                let s2 = choose|s2: int|
                                    0 <= s2 < s_i + 1 && s2 != t
                                        && (#[trigger] ss[s2]).is_self_executed
                                        && stmt_references(ss[s2], nm) && stmt_defines_name(
                                        ss[t],
                                        nm,
                                    );
                                assert(s2 != s_i);
                                assert(self_exec_charges(ss, t, nm, s_i));
                                assert(self_exec_marks(ss, t, s_i));
                            }
                            assert(false);
                        }
                    }
                    assert forall|t: int, nm: Seq<char>| #![all_triggers]
                        row_has(seed@, t, nm) <==> self.entry_seed_has(t, nm) || self_exec_charges(
                        ss,
                        t,
                        nm,
                        s_i + 1,
                    ) by {
                        if row_has(seed@, t, nm) && !self.entry_seed_has(t, nm) {
                            assert(self_exec_charges(ss, t, nm, s_i));
                            lemma_self_exec_monotone_charge(ss, t, nm, s_i);
                        }
                        if !row_has(seed@, t, nm) && self_exec_charges(ss, t, nm, s_i + 1) {
                            let s2 = choose|s2: int|
                                0 <= s2 < s_i + 1 && s2 != t && (#[trigger] ss[s2]).is_self_executed
                                    && stmt_references(ss[s2], nm) && stmt_defines_name(
                                    ss[t],
                                    nm,
                                );
                            assert(s2 != s_i);
                            assert(self_exec_charges(ss, t, nm, s_i));
                            assert(false);
                        }
                    }
                }
            }
            s = s + 1;
        }

        // close the seed under dependency edges
        let ghost seedv = seed@;
        let r = self.stmt_graph.analyze_used_statements_and_idents(seed);
        proof {
            assert(map_dom(seedv) =~= self.seed_set());
            assert forall|t: int|
                0 <= t < r@.len() implies ((#[trigger] r@[t]) is Some <==> self.retained(t)) by {}
            assert forall|t: int, name: Seq<char>|
                row_has(r@, t, name) <==> self.retained_name(t, name) by {
                if self.retained_name(t, name) && !row_has(r@, t, name) {
                    if self.entry_seed_has(t, name) {
                        let jj = choose|j2: int|
                            0 <= j2 < self.entries().len() && (#[trigger] self.entries()[j2]).1 == t
                                && self.entries()[j2].0.as_name() == name;
                        assert(0 <= t < n);
                        assert(row_has(seedv, t, name));
                    } else if self_exec_charges(ss, t, name, n as int) {
                        assert(row_has(seedv, t, name));
                    }
                }
                if row_has(r@, t, name) && !row_has(seedv, t, name) {
                    assert(closure_adds(ss, map_dom(seedv), t, name));
                    assert(closure_adds(ss, self.seed_set(), t, name));
                }
            }
        }
        r
    }
}

proof fn lemma_specs_entries_at(sps: Seq<ExportSpecifierInfo>, id: StatementId)
    ensures
        all_entries_of_specs(sps, id).len() == sps.len(),
        forall|j: int|
            0 <= j < sps.len() ==> all_entries_of_specs(sps, id)[j] == all_entry_of(
                #[trigger] sps[j],
                id,
            ),
    decreases sps.len(),
{
    if sps.len() > 0 {
        lemma_specs_entries_at(sps.drop_last(), id);
        let whole = all_entries_of_specs(sps, id);
        let front = all_entries_of_specs(sps.drop_last(), id);
        assert forall|j: int|
            0 <= j < sps.len() implies whole[j] == all_entry_of(#[trigger] sps[j], id) by {
            if j < sps.len() - 1 {
                assert(whole[j] == front[j]);
                assert(sps.drop_last()[j] == sps[j]);
            } else {
                assert(whole[j] == all_entry_of(sps.last(), id));
            }
        }
    }
}

proof fn lemma_exports_spec_has(ss: Seq<Statement>, i: int)
    requires
        0 <= i < ss.len(),
        ss[i].export_info is Some,
    ensures
        exports_spec(ss).contains(ss[i].export_info->0@),
    decreases ss.len(),
{
    if i == ss.len() - 1 {
        let whole = exports_spec(ss);
        let front = exports_spec(ss.drop_last());
        assert(whole[front.len() as int] == ss[i].export_info->0@);
    } else {
        let pre = ss.drop_last();
        assert(pre[i] == ss[i]);
        lemma_exports_spec_has(pre, i);
        let jf = choose|jf: int|
            0 <= jf < exports_spec(pre).len() && exports_spec(pre)[jf] == ss[i].export_info->0@;
        assert(exports_spec(ss)[jf] == ss[i].export_info->0@);
    }
}

proof fn lemma_all_branch_has(exps: Seq<ExportView>, i: int, k: int)
    requires
        0 <= i < exps.len(),
        0 <= k < exps[i].specifiers.len(),
    ensures
        all_branch_entries(exps).contains(
            all_entry_of(exps[i].specifiers[k], exps[i].stmt_id),
        ),
    decreases exps.len(),
{
    if i == exps.len() - 1 {
        let whole = all_branch_entries(exps);
        let front = all_branch_entries(exps.drop_last());
        lemma_specs_entries_at(exps[i].specifiers, exps[i].stmt_id);
        assert(whole[front.len() + k] == all_entry_of(exps[i].specifiers[k], exps[i].stmt_id));
    } else {
        let pre = exps.drop_last();
        assert(pre[i] == exps[i]);
        lemma_all_branch_has(pre, i, k);
        let jf = choose|jf: int|
            0 <= jf < all_branch_entries(pre).len() && all_branch_entries(pre)[jf] == all_entry_of(
                exps[i].specifiers[k],
                exps[i].stmt_id,
            );
        assert(all_branch_entries(exps)[jf] == all_entry_of(
            exps[i].specifiers[k],
            exps[i].stmt_id,
        ));
    }
}

/// A module with declared side effects has every export demanded, so resolving
/// the demand yields one entry per export specifier, and the retained set
/// includes every export statement and every self-executed statement.
pub proof fn lemma_side_effects_retain_all(m: TreeShakeModule)
    requires
        m.wf(),
        m.side_effects,
    ensures
        forall|i: int, k: int|
            0 <= i < m.stmts().len() && (#[trigger] m.stmts()[i]).export_info is Some && 0 <= k
                < m.stmts()[i].export_info->0.specifiers@.len() ==> m.entries().contains(
                all_entry_of(
                    #[trigger] m.stmts()[i].export_info->0.specifiers@[k],
                    m.stmts()[i].export_info->0.stmt_id,
                ),
            ),
        forall|t: int|
            0 <= t < m.stmts().len() && ((#[trigger] m.stmts()[t]).export_info is Some
                && m.stmts()[t].export_info->0.specifiers@.len() > 0) ==> m.retained(t),
        forall|t: int|
            0 <= t < m.stmts().len() && (#[trigger] m.stmts()[t]).is_self_executed ==> m.retained(
                t,
            ),
{
    let ss = m.stmts();
    let exps = exports_spec(ss);
    lemma_exports_spec_wf(ss);
    assert(m.used_exports is All);
    assert(m.entries() == all_branch_entries(exps));
    assert forall|i: int, k: int|
        0 <= i < ss.len() && (#[trigger] ss[i]).export_info is Some && 0 <= k
            < ss[i].export_info->0.specifiers@.len() implies m.entries().contains(
        all_entry_of(
            #[trigger] ss[i].export_info->0.specifiers@[k],
            ss[i].export_info->0.stmt_id,
        ),
    ) by {
        lemma_exports_spec_has(ss, i);
        let jf = choose|jf: int|
            0 <= jf < exps.len() && exps[jf] == ss[i].export_info->0@;
        lemma_all_branch_has(exps, jf, k);
    }
    assert forall|t: int|
        0 <= t < ss.len() && ((#[trigger] ss[t]).export_info is Some
            && ss[t].export_info->0.specifiers@.len() > 0) implies m.retained(t) by {
        let e = ss[t].export_info->0;
        assert(stmt_ok(ss[t], t));
        assert(e.stmt_id == t);
        assert(m.entries().contains(all_entry_of(e.specifiers@[0], e.stmt_id)));
        let j = choose|j: int|
            0 <= j < m.entries().len() && m.entries()[j] == all_entry_of(
                e.specifiers@[0],
                e.stmt_id,
            );
        assert((m.entries()[j]).1 == t);
        assert(m.entry_seed_dom(t));
        assert(m.seed_set().contains(t));
        lemma_reached_seed(ss, m.seed_set(), t);
    }
    assert forall|t: int|
        0 <= t < ss.len() && (#[trigger] ss[t]).is_self_executed implies m.retained(t) by {
        assert(self_exec_marks(ss, t, ss.len() as int));
        assert(m.seed_set().contains(t));
        lemma_reached_seed(ss, m.seed_set(), t);
    }
}

/// The retained map as a mapping from statement id to the set of names used of it.
pub open spec fn retained_view(r: Seq<Option<Vec<String>>>) -> Map<int, Set<Seq<char>>> {
    Map::new(
        |t: int| 0 <= t < r.len() && r[t] is Some,
        |t: int| Set::new(|nm: Seq<char>| row_has(r, t, nm)),
    )
}

/// Idempotence of the retained-statement computation: without intervening
/// demand changes, any two results agree as mappings from statement id to the
/// set of identifiers used of that statement.
pub proof fn lemma_used_statements_deterministic(
    m: TreeShakeModule,
    r1: Seq<Option<Vec<String>>>,
    r2: Seq<Option<Vec<String>>>,
)
    requires
        m.is_retained_result(r1),
        m.is_retained_result(r2),
    ensures
        retained_view(r1) == retained_view(r2),
{
    if m.module_system is EsModule {
        assert forall|t: int| 0 <= t < r1.len() implies ((#[trigger] r1[t]) is Some <==> r2[t]
            is Some) by {}
        assert forall|t: int, nm: Seq<char>| #![all_triggers]
            row_has(r1, t, nm) <==> row_has(r2, t, nm) by {}
    } else {
        assert forall|t: int, nm: Seq<char>| #![all_triggers]
            row_has(r1, t, nm) <==> row_has(r2, t, nm) by {
            assert(!row_has(r1, t, nm) && !row_has(r2, t, nm));
        }
    }
    assert(retained_view(r1) =~~= retained_view(r2));
}

} // verus!
