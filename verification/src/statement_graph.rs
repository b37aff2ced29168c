//! Per-module statement graph.
//!
//! Nodes are top-level statements annotated with the identifiers they define,
//! the free identifiers they reference, their import/export roles and a
//! self-execution flag. The graph computes which statements must be retained:
//! starting from a seed of statements known to be used, it repeatedly marks the
//! statements that define an identifier referenced by an already-used statement,
//! until a fixed point is reached.

use vstd::prelude::*;
use vstd::set_lib::*;
use crate::ident::ident_matches;
use crate::ident::is_ident_equal;

verus! {

/// Index of a statement inside its module, unique per module.
pub type StatementId = usize;

/// How an import statement names what it brings in.
#[derive(Debug)]
pub enum ImportSpecifierInfo {
    /// `import * as ns from '..'`
    Namespace(String),
    /// `import { a as b } from '..'`
    Named { local: String, imported: Option<String> },
    /// `import d from '..'`
    Default(String),
}

/// The import role of a statement: its source module and specifiers.
#[derive(Debug)]
pub struct ImportInfo {
    pub source: String,
    pub specifiers: Vec<ImportSpecifierInfo>,
}

/// How an export statement exposes a name externally.
#[derive(Debug)]
pub enum ExportSpecifierInfo {
    /// `export * from '..'`, carrying the source module.
    All(String),
    /// `export default ..`
    Default,
    /// `export { local as exported }`; the exported alias defaults to the local name.
    Named { local: String, exported: Option<String> },
    /// `export * as ns from '..'`
    Namespace(String),
}

/// The export role of a statement: its specifiers and a back-pointer to the
/// statement that carries them.
#[derive(Debug)]
pub struct ExportInfo {
    pub specifiers: Vec<ExportSpecifierInfo>,
    pub stmt_id: StatementId,
}

/// Ghost mirror of `ExportInfo`, with the specifier list as a sequence.
#[verifier::ext_equal]
pub struct ExportView {
    pub specifiers: Seq<ExportSpecifierInfo>,
    pub stmt_id: StatementId,
}

impl View for ExportInfo {
    type V = ExportView;

    open spec fn view(&self) -> ExportView {
        ExportView { specifiers: self.specifiers@, stmt_id: self.stmt_id }
    }
}

/// Ghost mirror of `ImportInfo`.
#[verifier::ext_equal]
pub struct ImportView {
    pub source: Seq<char>,
    pub specifiers: Seq<ImportSpecifierInfo>,
}

impl View for ImportInfo {
    type V = ImportView;

    open spec fn view(&self) -> ImportView {
        ImportView { source: self.source@, specifiers: self.specifiers@ }
    }
}

/// A top-level statement with the metadata the analysis needs.
#[derive(Debug)]
pub struct Statement {
    pub id: StatementId,
    pub import_info: Option<ImportInfo>,
    pub export_info: Option<ExportInfo>,
    /// Identifiers this statement defines.
    pub defined_idents: Vec<String>,
    /// Free identifiers this statement references.
    pub used_idents: Vec<String>,
    /// Whether the statement has an effect independent of export demand.
    pub is_self_executed: bool,
}

/// `s` references the free identifier `name`.
pub open spec fn stmt_references(s: Statement, name: Seq<char>) -> bool {
    exists|i: int| 0 <= i < s.used_idents@.len() && s.used_idents@[i]@ == name
}

/// `s` defines an identifier that `name` matches under the scoped-identity rule.
pub open spec fn stmt_defines_name(s: Statement, name: Seq<char>) -> bool {
    exists|i: int| 0 <= i < s.defined_idents@.len() && ident_matches(name, s.defined_idents@[i]@)
}

/// Statement `a` depends on statement `b`: `a` references a name that `b` defines.
pub open spec fn edge(ss: Seq<Statement>, a: int, b: int) -> bool {
    &&& 0 <= a < ss.len()
    &&& 0 <= b < ss.len()
    &&& exists|name: Seq<char>| stmt_references(ss[a], name) && stmt_defines_name(ss[b], name)
}

/// A dependency path from some seed statement.
pub open spec fn is_reach_path(ss: Seq<Statement>, seeds: Set<int>, p: Seq<int>) -> bool {
    &&& p.len() > 0
    &&& seeds.contains(p[0])
    &&& 0 <= p[0] < ss.len()
    &&& forall|j: int| 0 < j < p.len() ==> edge(ss, p[j - 1], #[trigger] p[j])
}

/// Statement `t` is reachable from the seed set along dependency edges.
pub open spec fn reached(ss: Seq<Statement>, seeds: Set<int>, t: int) -> bool {
    exists|p: Seq<int>| is_reach_path(ss, seeds, p) && p.last() == t
}

/// The statements a seed map marks as used.
pub open spec fn map_dom(r: Seq<Option<Vec<String>>>) -> Set<int> {
    Set::new(|t: int| 0 <= t < r.len() && r[t] is Some)
}

/// The entry for statement `t` in map `r` holds `name`.
pub open spec fn row_has(r: Seq<Option<Vec<String>>>, t: int, name: Seq<char>) -> bool {
    &&& 0 <= t < r.len()
    &&& r[t] matches Some(row) && (exists|i: int| 0 <= i < row@.len() && row@[i]@ == name)
}

/// The closure charges `name` to statement `t`: some reachable statement
/// references `name` and `t` defines it.
pub open spec fn closure_adds(
    ss: Seq<Statement>,
    seeds: Set<int>,
    t: int,
    name: Seq<char>,
) -> bool {
    &&& 0 <= t < ss.len()
    &&& exists|s: int|
        reached(ss, seeds, s) && stmt_references(ss[s], name) && stmt_defines_name(ss[t], name)
}

/// Full characterization of the retained-statement map the closure returns for
/// a given seed map: a statement is retained exactly when it is reachable from
/// the seed, and it is charged exactly with its seed names plus every name a
/// reachable statement references and it defines.
pub open spec fn is_closure_result(
    ss: Seq<Statement>,
    seed: Seq<Option<Vec<String>>>,
    r: Seq<Option<Vec<String>>>,
) -> bool {
    &&& r.len() == ss.len()
    &&& forall|t: int|
        0 <= t < ss.len() ==> (r[t] is Some <==> reached(ss, map_dom(seed), t))
    &&& forall|t: int, name: Seq<char>|
        row_has(r, t, name) <==> row_has(seed, t, name) || closure_adds(ss, map_dom(seed), t, name)
}

pub proof fn lemma_reached_seed(ss: Seq<Statement>, seeds: Set<int>, t: int)
    requires
        seeds.contains(t),
        0 <= t < ss.len(),
    ensures
        reached(ss, seeds, t),
{
    let p = seq![t];
    assert(is_reach_path(ss, seeds, p));
    assert(p.last() == t);
}

pub proof fn lemma_reached_step(ss: Seq<Statement>, seeds: Set<int>, a: int, b: int)
    requires
        reached(ss, seeds, a),
        edge(ss, a, b),
    ensures
        reached(ss, seeds, b),
{
    let p = choose|p: Seq<int>| is_reach_path(ss, seeds, p) && p.last() == a;
    let q = p.push(b);
    assert forall|j: int| 0 < j < q.len() implies edge(ss, q[j - 1], #[trigger] q[j]) by {
        if j < p.len() {
            assert(edge(ss, p[j - 1], p[j]));
        } else {
            assert(q[j - 1] == p.last());
        }
    }
    assert(is_reach_path(ss, seeds, q));
    assert(q.last() == b);
}

pub proof fn lemma_reached_in_range(ss: Seq<Statement>, seeds: Set<int>, t: int)
    requires
        reached(ss, seeds, t),
    ensures
        0 <= t < ss.len(),
{
    let p = choose|p: Seq<int>| is_reach_path(ss, seeds, p) && p.last() == t;
    if p.len() == 1 {
        assert(p.last() == p[0]);
    } else {
        assert(edge(ss, p[p.len() - 2], p[p.len() - 1]));
    }
}

proof fn lemma_path_lands_in_closed(
    ss: Seq<Statement>,
    seeds: Set<int>,
    dom: Set<int>,
    p: Seq<int>,
)
    requires
        forall|t: int| seeds.contains(t) && 0 <= t < ss.len() ==> dom.contains(t),
        forall|a: int, b: int| dom.contains(a) && edge(ss, a, b) ==> dom.contains(b),
        is_reach_path(ss, seeds, p),
    ensures
        dom.contains(p.last()),
    decreases p.len(),
{
    if p.len() == 1 {
        assert(p.last() == p[0]);
    } else {
        let q = p.drop_last();
        assert forall|j: int| 0 < j < q.len() implies edge(ss, q[j - 1], #[trigger] q[j]) by {
            assert(edge(ss, p[j - 1], p[j]));
        }
        assert(is_reach_path(ss, seeds, q));
        lemma_path_lands_in_closed(ss, seeds, dom, q);
        assert(edge(ss, p[p.len() - 2], p[p.len() - 1]));
    }
}

/// Any set that contains the seeds and is closed under dependency edges
/// contains everything reachable.
pub proof fn lemma_reached_in_closed(
    ss: Seq<Statement>,
    seeds: Set<int>,
    dom: Set<int>,
    t: int,
)
    requires
        forall|u: int| seeds.contains(u) && 0 <= u < ss.len() ==> dom.contains(u),
        forall|a: int, b: int| dom.contains(a) && edge(ss, a, b) ==> dom.contains(b),
        reached(ss, seeds, t),
    ensures
        dom.contains(t),
{
    let p = choose|p: Seq<int>| is_reach_path(ss, seeds, p) && p.last() == t;
    lemma_path_lands_in_closed(ss, seeds, dom, p);
}

/// Decides whether `stmt` defines an identifier matching `name`.
pub fn stmt_defines_matching(stmt: &Statement, name: &String) -> (r: bool)
    ensures
        r == stmt_defines_name(*stmt, name@),
{
    let len = stmt.defined_idents.len();
    let mut i: usize = 0;
    while i < len
        invariant
            0 <= i <= len,
            len == stmt.defined_idents@.len(),
            forall|j: int| 0 <= j < i ==> !ident_matches(name@, stmt.defined_idents@[j]@),
        decreases len - i,
    {
        if is_ident_equal(name, &stmt.defined_idents[i]) {
            return true;
        }
        i = i + 1;
    }
    false
}

/// A wildcard re-export statement carries nothing besides its wildcard specifier.
pub open spec fn wildcard_alone(sps: Seq<ExportSpecifierInfo>) -> bool {
    (exists|k: int| 0 <= k < sps.len() && sps[k] is All) ==> sps.len() == 1
}

/// Statement metadata is well formed when it sits at the position its id names,
/// its export role points back at it, and wildcard re-exports stand alone.
pub open spec fn stmt_ok(s: Statement, i: int) -> bool {
    &&& s.id == i
    &&& match s.export_info {
        Some(e) => e.stmt_id == i && wildcard_alone(e.specifiers@),
        None => true,
    }
}

pub open spec fn graph_wf(ss: Seq<Statement>) -> bool {
    forall|i: int| 0 <= i < ss.len() ==> stmt_ok(ss[i], i)
}

/// Rejected statement metadata: the position of the offending statement and
/// what was wrong with it.
#[derive(Debug, PartialEq, Eq)]
pub enum GraphError {
    /// The statement's id differs from its position.
    MisnumberedStatement { position: usize, id: usize },
    /// The statement's export role points at another statement.
    ExportOwnerMismatch { position: usize, export_stmt_id: usize },
    /// A wildcard re-export shares its statement with other specifiers.
    MixedWildcardExport { position: usize },
}

/// The error reported for a malformed statement, checked in this order.
pub open spec fn stmt_error(s: Statement, i: int) -> GraphError {
    if s.id != i {
        GraphError::MisnumberedStatement { position: i as usize, id: s.id }
    } else if s.export_info matches Some(e) && e.stmt_id != i {
        GraphError::ExportOwnerMismatch {
            position: i as usize,
            export_stmt_id: s.export_info->0.stmt_id,
        }
    } else {
        GraphError::MixedWildcardExport { position: i as usize }
    }
}

/// Position of the first malformed statement at or after `i`; the length when
/// all are well formed.
pub open spec fn first_bad_from(ss: Seq<Statement>, i: int) -> int
    decreases ss.len() - i when 0 <= i <= ss.len()
{
    if i >= ss.len() {
        ss.len() as int
    } else if !stmt_ok(ss[i], i) {
        i
    } else {
        first_bad_from(ss, i + 1)
    }
}

proof fn lemma_first_bad_skip(ss: Seq<Statement>, i: int)
    requires
        0 <= i <= ss.len(),
        forall|j: int| 0 <= j < i ==> stmt_ok(ss[j], j),
    ensures
        first_bad_from(ss, 0) == first_bad_from(ss, i),
    decreases i,
{
    if i > 0 {
        lemma_first_bad_skip_step(ss, i - 1);
        lemma_first_bad_skip(ss, i - 1);
    }
}

proof fn lemma_first_bad_skip_step(ss: Seq<Statement>, i: int)
    requires
        0 <= i < ss.len(),
        stmt_ok(ss[i], i),
    ensures
        first_bad_from(ss, i) == first_bad_from(ss, i + 1),
{
}

/// The statement graph of one module: its statements, indexed by their ids.
#[derive(Debug)]
pub struct StatementGraph {
    pub stmts: Vec<Statement>,
}

impl StatementGraph {
    /// The graph of a module that is not analyzed statement by statement.
    pub fn empty() -> (r: StatementGraph)
        ensures
            r.stmts@.len() == 0,
    {
        StatementGraph { stmts: Vec::new() }
    }

    /// Builds a graph after checking that the statement metadata is well
    /// formed; reports the first malformed statement otherwise.
    pub fn new(statements: Vec<Statement>) -> (r: Result<StatementGraph, GraphError>)
        ensures
            r is Ok <==> graph_wf(statements@),
            r matches Ok(g) ==> g.stmts@ == statements@,
            r matches Err(e) ==> {
                let i = first_bad_from(statements@, 0);
                &&& 0 <= i < statements@.len()
                &&& !stmt_ok(statements@[i], i)
                &&& e == stmt_error(statements@[i], i)
            },
    {
        let n = statements.len();
        let mut i: usize = 0;
        while i < n
            invariant
                0 <= i <= n,
                n == statements@.len(),
                forall|j: int| 0 <= j < i ==> stmt_ok(statements@[j], j),
            decreases n - i,
        {
            let stmt = &statements[i];
            if stmt.id != i {
                proof {
                    lemma_first_bad_skip(statements@, i as int);
                }
                return Err(GraphError::MisnumberedStatement { position: i, id: stmt.id });
            }
            if let Some(export) = &stmt.export_info {
                if export.stmt_id != i {
                    proof {
                        lemma_first_bad_skip(statements@, i as int);
                    }
                    return Err(GraphError::ExportOwnerMismatch {
                        position: i,
                        export_stmt_id: export.stmt_id,
                    });
                }
                let sps = &export.specifiers;
                let m = sps.len();
                let mut k: usize = 0;
                let mut has_wildcard = false;
                while k < m
                    invariant
                        0 <= k <= m,
                        m == sps@.len(),
                        has_wildcard <==> exists|j: int| 0 <= j < k && sps@[j] is All,
                    decreases m - k,
                {
                    if let ExportSpecifierInfo::All(_) = &sps[k] {
                        has_wildcard = true;
                    }
                    k = k + 1;
                }
                if has_wildcard && m != 1 {
                    proof {
                        lemma_first_bad_skip(statements@, i as int);
                        assert(!stmt_ok(statements@[i as int], i as int));
                    }
                    return Err(GraphError::MixedWildcardExport { position: i });
                }
                proof {
                    assert(wildcard_alone(sps@));
                }
            }
            i = i + 1;
        }
        Ok(StatementGraph { stmts: statements })
    }

    /// Transitive-closure reachability: grows the seed map until every
    /// statement referenced (through identifier definitions) by a used
    /// statement is itself marked used, and returns the final map.
    ///
    /// Works through an explicit queue of statement ids rather than recursion,
    /// so deeply chained references cannot exhaust the stack.
    pub fn analyze_used_statements_and_idents(
        &self,
        seed: Vec<Option<Vec<String>>>,
    ) -> (r: Vec<Option<Vec<String>>>)
        requires
            seed@.len() == self.stmts@.len(),
        ensures
            is_closure_result(self.stmts@, seed@, r@),
    {
        let ghost ss = self.stmts@;
        let ghost seed0 = seed@;
        let ghost seeds: Set<int> = map_dom(seed0);
        let n = self.stmts.len();
        let mut retained = seed;
        let mut queue: Vec<StatementId> = Vec::new();

        let mut i: usize = 0;
        while i < n
            invariant
                0 <= i <= n,
                retained@ == seed0,
                n == ss.len(),
                seed0.len() == n,
                forall|k: int|
                    0 <= k < queue@.len() ==> queue@[k] < i && seed0[queue@[k] as int] is Some,
                forall|t: int| 0 <= t < i && seed0[t] is Some ==> queue@.contains(t as usize),
                queue@.no_duplicates(),
            decreases n - i,
        {
            if retained[i].is_some() {
                proof {
                    assert forall|k1: int, k2: int|
                        0 <= k1 < k2 < queue@.push(i).len() implies queue@.push(i)[k1]
                        != queue@.push(i)[k2] by {
                        if k2 < queue@.len() {
                            assert(queue@[k1] != queue@[k2]);
                        } else {
                            assert(queue@[k1] < i);
                        }
                    }
                }
                let ghost q0 = queue@;
                queue.push(i);
                proof {
                    assert forall|t: int| 0 <= t < i + 1 && seed0[t] is Some implies
                        queue@.contains(t as usize) by {
                        if t < i {
                            let kk = choose|kk: int| 0 <= kk < q0.len() && q0[kk] == t as usize;
                            assert(queue@[kk] == t as usize);
                        } else {
                            assert(queue@[q0.len() as int] == i);
                        }
                    }
                }
            }
            i = i + 1;
        }

        let ghost mut processed: Set<int> = Set::empty();
        proof {
            assert(processed.finite());
            lemma_int_range(0, n as int);
            lemma_len_subset(processed, set_int_range(0, n as int));
            assert forall|t: int| 0 <= t < n && retained@[t] is Some implies reached(
                ss,
                seeds,
                t,
            ) by {
                assert(seeds.contains(t));
                lemma_reached_seed(ss, seeds, t);
            }
        }

        while queue.len() > 0
            invariant
                n == ss.len(),
                ss == self.stmts@,
                seed0.len() == n,
                retained@.len() == n,
                seeds == map_dom(seed0),
                processed.finite(),
                processed.subset_of(set_int_range(0, n as int)),
                forall|s: int| processed.contains(s) ==> 0 <= s < n && retained@[s] is Some,
                forall|k: int|
                    0 <= k < queue@.len() ==> queue@[k] < n && retained@[queue@[k] as int] is Some
                        && !processed.contains(queue@[k] as int),
                queue@.no_duplicates(),
                forall|t: int|
                    0 <= t < n && retained@[t] is Some ==> processed.contains(t) || queue@.contains(
                        t as usize,
                    ),
                forall|t: int| 0 <= t < n && seed0[t] is Some ==> retained@[t] is Some,
                forall|t: int, name: Seq<char>|
                    row_has(seed0, t, name) ==> row_has(retained@, t, name),
                forall|t: int| 0 <= t < n && retained@[t] is Some ==> reached(ss, seeds, t),
                forall|t: int, name: Seq<char>|
                    row_has(retained@, t, name) ==> row_has(seed0, t, name) || (exists|s: int|
                        processed.contains(s) && stmt_references(ss[s], name) && stmt_defines_name(
                            ss[t],
                            name,
                        )),
                forall|s: int, name: Seq<char>, t: int|
                    processed.contains(s) && stmt_references(ss[s], name) && 0 <= t < n
                        && stmt_defines_name(ss[t], name) ==> row_has(retained@, t, name),
            decreases n - processed.len(),
        {
            let ghost q0 = queue@;
            let s = match queue.pop() {
                Some(s) => s,
                None => {
                    proof {
                        assert(false);
                    }
                    0
                },
            };
            let ghost s_int = s as int;
            proof {
                assert(q0[q0.len() - 1] == s);
                assert(queue@ == q0.drop_last());
                // the rest of the queue keeps its properties and loses only `s`
                assert forall|kk: int| 0 <= kk < queue@.len() implies queue@[kk] != s by {
                    assert(queue@[kk] == q0[kk]);
                    assert(q0[kk] != q0[q0.len() - 1]);
                }
                assert forall|t: int|
                    0 <= t < n && retained@[t] is Some implies processed.contains(t)
                    || queue@.contains(t as usize) || t == s_int by {
                    if !processed.contains(t) && t != s_int {
                        let kk = choose|kk: int| 0 <= kk < q0.len() && q0[kk] == t as usize;
                        assert(kk < q0.len() - 1);
                        assert(queue@[kk] == t as usize);
                    }
                }
            }
            let stmt = &self.stmts[s];
            let m = stmt.used_idents.len();
            let mut k: usize = 0;
            while k < m
                invariant
                    n == ss.len(),
                    ss == self.stmts@,
                    seed0.len() == n,
                    retained@.len() == n,
                    seeds == map_dom(seed0),
                    processed.finite(),
                    processed.subset_of(set_int_range(0, n as int)),
                    0 <= s_int < n,
                    s_int == s as int,
                    !processed.contains(s_int),
                    retained@[s_int] is Some,
                    reached(ss, seeds, s_int),
                    *stmt == ss[s_int],
                    m == ss[s_int].used_idents@.len(),
                    0 <= k <= m,
                    forall|s2: int| processed.contains(s2) ==> 0 <= s2 < n && retained@[s2] is Some,
                    forall|kk: int|
                        0 <= kk < queue@.len() ==> queue@[kk] < n && retained@[queue@[kk] as int]
                            is Some && !processed.contains(queue@[kk] as int) && queue@[kk] != s,
                    queue@.no_duplicates(),
                    forall|t: int|
                        0 <= t < n && retained@[t] is Some ==> processed.contains(t)
                            || queue@.contains(t as usize) || t == s_int,
                    forall|t: int| 0 <= t < n && seed0[t] is Some ==> retained@[t] is Some,
                    forall|t: int, name: Seq<char>|
                        row_has(seed0, t, name) ==> row_has(retained@, t, name),
                    forall|t: int| 0 <= t < n && retained@[t] is Some ==> reached(ss, seeds, t),
                    forall|t: int, name: Seq<char>|
                        row_has(retained@, t, name) ==> row_has(seed0, t, name) || (exists|s2: int|
                            processed.contains(s2) && stmt_references(ss[s2], name)
                                && stmt_defines_name(ss[t], name)) || (stmt_references(
                            ss[s_int],
                            name,
                        ) && stmt_defines_name(ss[t], name)),
                    forall|s2: int, name: Seq<char>, t: int|
                        processed.contains(s2) && stmt_references(ss[s2], name) && 0 <= t < n
                            && stmt_defines_name(ss[t], name) ==> row_has(retained@, t, name),
                    forall|j: int, t: int|
                        0 <= j < k && 0 <= t < n && stmt_defines_name(
                            ss[t],
                            ss[s_int].used_idents@[j]@,
                        ) ==> row_has(retained@, t, ss[s_int].used_idents@[j]@),
                decreases m - k,
            {
                let name = &stmt.used_idents[k];
                let mut t: usize = 0;
                while t < n
                    invariant
                        n == ss.len(),
                        ss == self.stmts@,
                        seed0.len() == n,
                        retained@.len() == n,
                        seeds == map_dom(seed0),
                        processed.finite(),
                        processed.subset_of(set_int_range(0, n as int)),
                        0 <= s_int < n,
                        s_int == s as int,
                        !processed.contains(s_int),
                        retained@[s_int] is Some,
                        reached(ss, seeds, s_int),
                        *stmt == ss[s_int],
                        m == ss[s_int].used_idents@.len(),
                        0 <= k < m,
                        name@ == ss[s_int].used_idents@[k as int]@,
                        stmt_references(ss[s_int], name@),
                        0 <= t <= n,
                        forall|s2: int|
                            processed.contains(s2) ==> 0 <= s2 < n && retained@[s2] is Some,
                        forall|kk: int|
                            0 <= kk < queue@.len() ==> queue@[kk] < n && retained@[queue@[kk] as int]
                                is Some && !processed.contains(queue@[kk] as int) && queue@[kk]
                                != s,
                        queue@.no_duplicates(),
                        forall|t2: int|
                            0 <= t2 < n && retained@[t2] is Some ==> processed.contains(t2)
                                || queue@.contains(t2 as usize) || t2 == s_int,
                        forall|t2: int| 0 <= t2 < n && seed0[t2] is Some ==> retained@[t2] is Some,
                        forall|t2: int, nm: Seq<char>|
                            row_has(seed0, t2, nm) ==> row_has(retained@, t2, nm),
                        forall|t2: int| 0 <= t2 < n && retained@[t2] is Some ==> reached(
                            ss,
                            seeds,
                            t2,
                        ),
                        forall|t2: int, nm: Seq<char>|
                            row_has(retained@, t2, nm) ==> row_has(seed0, t2, nm) || (exists|
                                s2: int,
                            |
                                processed.contains(s2) && stmt_references(ss[s2], nm)
                                    && stmt_defines_name(ss[t2], nm)) || (stmt_references(
                                ss[s_int],
                                nm,
                            ) && stmt_defines_name(ss[t2], nm)),
                        forall|s2: int, nm: Seq<char>, t2: int|
                            processed.contains(s2) && stmt_references(ss[s2], nm) && 0 <= t2 < n
                                && stmt_defines_name(ss[t2], nm) ==> row_has(retained@, t2, nm),
                        forall|j: int, t2: int|
                            0 <= j < k && 0 <= t2 < n && stmt_defines_name(
                                ss[t2],
                                ss[s_int].used_idents@[j]@,
                            ) ==> row_has(retained@, t2, ss[s_int].used_idents@[j]@),
                        forall|t2: int|
                            0 <= t2 < t && stmt_defines_name(ss[t2], name@) ==> row_has(
                                retained@,
                                t2,
                                name@,
                            ),
                    decreases n - t,
                {
                    let ghost before = retained@;
                    if stmt_defines_matching(&self.stmts[t], name) {
                        let was_in = retained[t].is_some();
                        let row0 = retained[t].take();
                        let mut row = match row0 {
                            Some(v) => v,
                            None => Vec::new(),
                        };
                        row.push(name.clone());
                        retained[t] = Some(row);
                        proof {
                            assert(retained@ =~= before.update(t as int, retained@[t as int]));
                            assert forall|t2: int, nm: Seq<char>|
                                row_has(retained@, t2, nm) implies row_has(before, t2, nm) || (t2
                                == t as int && nm == name@) by {
                                if t2 == t as int {
                                    let rowv = retained@[t2]->0;
                                    let idx = choose|ii: int|
                                        0 <= ii < rowv@.len() && rowv@[ii]@ == nm;
                                    if was_in && idx < rowv@.len() - 1 {
                                        assert(row_has(before, t2, nm));
                                    } else {
                                        assert(rowv@[idx] == *name || nm == name@);
                                    }
                                }
                            }
                            assert forall|t2: int, nm: Seq<char>|
                                row_has(before, t2, nm) implies row_has(retained@, t2, nm) by {
                                if t2 == t as int {
                                    let oldrow = before[t2]->0;
                                    let idx = choose|ii: int|
                                        0 <= ii < oldrow@.len() && oldrow@[ii]@ == nm;
                                    assert(retained@[t2]->0@[idx]@ == nm);
                                }
                            }
                            assert(row_has(retained@, t as int, name@)) by {
                                let rowv = retained@[t as int]->0;
                                assert(rowv@.last() == *name);
                            }
                            if !was_in {
                                assert(stmt_references(ss[s_int], name@) && stmt_defines_name(
                                    ss[t as int],
                                    name@,
                                ));
                                assert(edge(ss, s_int, t as int));
                                lemma_reached_step(ss, seeds, s_int, t as int);
                            }
                        }
                        if !was_in {
                            let ghost q1 = queue@;
                            queue.push(t);
                            proof {
                                // the fresh statement differs from everything queued,
                                // whose entries were already present
                                assert forall|k1: int, k2: int|
                                    0 <= k1 < k2 < queue@.len() implies queue@[k1]
                                    != queue@[k2] by {
                                    if k2 < q1.len() {
                                        assert(q1[k1] != q1[k2]);
                                    } else {
                                        assert(before[q1[k1] as int] is Some);
                                        assert(before[t as int] is None);
                                    }
                                }
                                assert(before[s_int] is Some);
                                assert(t as int != s_int);
                                assert forall|t2: int|
                                    0 <= t2 < n && retained@[t2] is Some implies
                                    processed.contains(t2) || queue@.contains(t2 as usize) || t2
                                    == s_int by {
                                    if t2 == t as int {
                                        assert(queue@[q1.len() as int] == t);
                                    } else if !processed.contains(t2) && t2 != s_int
                                        && before[t2] is Some {
                                        let kk = choose|kk: int|
                                            0 <= kk < q1.len() && q1[kk] == t2 as usize;
                                        assert(queue@[kk] == t2 as usize);
                                    }
                                }
                            }
                        } else {
                            proof {
                                assert forall|t2: int|
                                    0 <= t2 < n && retained@[t2] is Some implies
                                    processed.contains(t2) || queue@.contains(t2 as usize) || t2
                                    == s_int by {
                                    assert(before[t2] is Some);
                                }
                            }
                        }
                    }
                    proof {
                        assert forall|t2: int, nm: Seq<char>|
                            row_has(before, t2, nm) implies row_has(retained@, t2, nm) by {}
                        assert forall|t2: int|
                            0 <= t2 <= t && stmt_defines_name(ss[t2], name@) implies row_has(
                            retained@,
                            t2,
                            name@,
                        ) by {
                            if t2 < t as int {
                                assert(row_has(before, t2, name@));
                            }
                        }
                        assert forall|s2: int, nm: Seq<char>, t2: int|
                            processed.contains(s2) && stmt_references(ss[s2], nm) && 0 <= t2 < n
                                && stmt_defines_name(ss[t2], nm) implies row_has(
                            retained@,
                            t2,
                            nm,
                        ) by {
                            assert(row_has(before, t2, nm));
                        }
                        assert forall|j: int, t2: int|
                            0 <= j < k && 0 <= t2 < n && stmt_defines_name(
                                ss[t2],
                                ss[s_int].used_idents@[j]@,
                            ) implies row_has(retained@, t2, ss[s_int].used_idents@[j]@) by {
                            assert(row_has(before, t2, ss[s_int].used_idents@[j]@));
                        }
                    }
                    t = t + 1;
                }
                k = k + 1;
            }
            proof {
                lemma_int_range(0, n as int);
                let p0 = processed;
                processed = processed.insert(s_int);
                assert forall|nm: Seq<char>, t2: int|
                    stmt_references(ss[s_int], nm) && 0 <= t2 < n && stmt_defines_name(ss[t2], nm)
                    implies row_has(retained@, t2, nm) by {
                    let j = choose|j: int|
                        0 <= j < ss[s_int].used_idents@.len() && ss[s_int].used_idents@[j]@ == nm;
                }
                assert forall|t2: int, nm: Seq<char>|
                    row_has(retained@, t2, nm) implies row_has(seed0, t2, nm) || (exists|s2: int|
                    processed.contains(s2) && stmt_references(ss[s2], nm) && stmt_defines_name(
                        ss[t2],
                        nm,
                    )) by {
                    if !row_has(seed0, t2, nm) {
                        if stmt_references(ss[s_int], nm) && stmt_defines_name(ss[t2], nm) {
                            assert(processed.contains(s_int));
                        } else {
                            let s2 = choose|s2: int|
                                p0.contains(s2) && stmt_references(ss[s2], nm)
                                    && stmt_defines_name(ss[t2], nm);
                            assert(processed.contains(s2));
                        }
                    }
                }
                lemma_len_subset(processed, set_int_range(0, n as int));
            }
        }

        proof {
            // the retained domain contains the seeds and is closed under edges,
            // so it contains everything reachable
            let dom = map_dom(retained@);
            assert forall|a: int, b: int| dom.contains(a) && edge(ss, a, b) implies dom.contains(
                b,
            ) by {
                assert(processed.contains(a));
                let nm = choose|nm: Seq<char>|
                    stmt_references(ss[a], nm) && stmt_defines_name(ss[b], nm);
                assert(row_has(retained@, b, nm));
            }
            assert forall|t: int| 0 <= t < n && reached(ss, seeds, t) implies retained@[t]
                is Some by {
                lemma_reached_in_closed(ss, seeds, dom, t);
            }
            assert forall|t: int, name: Seq<char>|
                row_has(seed0, t, name) || closure_adds(ss, seeds, t, name) implies row_has(
                retained@,
                t,
                name,
            ) by {
                if closure_adds(ss, seeds, t, name) && !row_has(seed0, t, name) {
                    let s2 = choose|s2: int|
                        reached(ss, seeds, s2) && stmt_references(ss[s2], name)
                            && stmt_defines_name(ss[t], name);
                    lemma_reached_in_range(ss, seeds, s2);
                    lemma_reached_in_closed(ss, seeds, dom, s2);
                    assert(processed.contains(s2));
                }
            }
            assert forall|t: int, name: Seq<char>| row_has(retained@, t, name) implies row_has(
                seed0,
                t,
                name,
            ) || closure_adds(ss, seeds, t, name) by {
                if !row_has(seed0, t, name) {
                    let s2 = choose|s2: int|
                        processed.contains(s2) && stmt_references(ss[s2], name)
                            && stmt_defines_name(ss[t], name);
                    assert(reached(ss, seeds, s2));
                }
            }
        }
        retained
    }
}

} // verus!
