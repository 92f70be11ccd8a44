//! The whole analysis run: classify entry points, resolve call sites into
//! a graph, compute the reachable closure with the conditional-root fixed
//! point for macro-synthesized initializers, and assemble the report.
//!
//! Fatal errors (no entry point, a graph integrity violation) abort the
//! run with no partial report; unresolved references are recoverable and
//! come back as diagnostics beside the findings.

use vstd::prelude::*;
use crate::AnalysisError;
use crate::callgraph::{
    CallSite, Diagnostic, Edge, EdgeKind, ImplEntry, check_integrity, edges_well_formed,
    resolved_edges, resolve_call_sites, unresolved_diagnostics,
};
use crate::reach::{
    compute_reachable, contains_id, is_reachable_set, lemma_distinct_ids_bounded,
    lemma_reachable_monotone, reaches, covers_roots, closed_under, traversal_order,
};
use crate::report::{
    DeadClass, DeadGroup, collect_dead, collect_dead_by_visibility, dead_ids,
    dead_ids_by_visibility, group_dead, has_dead_caller,
};
use crate::roots::{EntryPolicy, classify_roots, lemma_root_ids_wf, root_ids};
use crate::symbols::{Symbol, SymbolTable, has_id, is_test_only_id};

verus! {

/// The edges with both endpoints outside the test-only set: in default
/// mode test-only declarations are excluded from the reachable universe,
/// so neither an edge into one nor an edge out of one takes part.
pub open spec fn prod_edges(syms: Seq<Symbol>, edges: Seq<Edge>) -> Seq<Edge>
    decreases edges.len(),
{
    if edges.len() == 0 {
        Seq::empty()
    } else {
        let rest = prod_edges(syms, edges.drop_last());
        if !is_test_only_id(syms, edges.last().source) && !is_test_only_id(syms, edges.last().target) {
            rest.push(edges.last())
        } else {
            rest
        }
    }
}

/// The edge set one analysis run traverses.
pub open spec fn used_edges(syms: Seq<Symbol>, impls: Seq<ImplEntry>, sites: Seq<CallSite>, p: EntryPolicy) -> Seq<Edge> {
    if p.include_tests {
        resolved_edges(syms, impls, sites)
    } else {
        prod_edges(syms, resolved_edges(syms, impls, sites))
    }
}

/// True when `t` is the target of a macro-synthesized edge whose source
/// is reachable: the justification for promoting `t` to a conditional
/// root.
pub open spec fn promoted_root_ok(e: Seq<Edge>, reach: Set<u64>, t: u64) -> bool {
    exists|j: int| 0 <= j < e.len() && (#[trigger] e[j]).kind == EdgeKind::MacroSynthesized
        && e[j].target == t && reach.contains(e[j].source)
}

/// The justification survives any growth of the reachable set.
pub proof fn lemma_promoted_root_monotone(e: Seq<Edge>, s1: Set<u64>, s2: Set<u64>, t: u64)
    requires
        promoted_root_ok(e, s1, t),
        s1.subset_of(s2),
    ensures
        promoted_root_ok(e, s2, t),
{
    let j = choose|j: int| 0 <= j < e.len()
        && (#[trigger] e[j]).kind == EdgeKind::MacroSynthesized
        && e[j].target == t && s1.contains(e[j].source);
    assert(s2.contains(e[j].source));
}

/// One promotion pass: walks the edges in order, promoting each
/// macro-synthesized target whose source is reachable and which is not
/// yet a root.
pub open spec fn promote_pass(edges: Seq<Edge>, roots: Seq<u64>, reach: Set<u64>, j: int) -> Seq<u64>
    decreases edges.len() - j,
{
    if j < 0 || j >= edges.len() {
        roots
    } else {
        let r2 = if edges[j].kind == EdgeKind::MacroSynthesized && reach.contains(edges[j].source)
            && !roots.contains(edges[j].target) {
            roots.push(edges[j].target)
        } else {
            roots
        };
        promote_pass(edges, r2, reach, j + 1)
    }
}

/// The fixed point of conditional-root promotion: promotion passes over
/// the current reachable set repeat until one adds nothing.
pub open spec fn promoted_roots(edges: Seq<Edge>, roots: Seq<u64>, bound: nat, fuel: nat) -> Seq<u64>
    decreases fuel,
{
    if fuel == 0 {
        roots
    } else {
        let r2 = promote_pass(edges, roots, traversal_order(roots, edges, bound).to_set(), 0);
        if r2.len() == roots.len() {
            roots
        } else {
            promoted_roots(edges, r2, bound, (fuel - 1) as nat)
        }
    }
}

/// The edges that remain when approximate dispatch edges are ignored.
pub open spec fn exact_edges(edges: Seq<Edge>) -> Seq<Edge>
    decreases edges.len(),
{
    if edges.len() == 0 {
        Seq::empty()
    } else {
        let rest = exact_edges(edges.drop_last());
        if edges.last().kind != EdgeKind::DispatchApproximate {
            rest.push(edges.last())
        } else {
            rest
        }
    }
}

/// How many approximate dispatch edges a graph holds.
pub open spec fn approx_count(edges: Seq<Edge>) -> int
    decreases edges.len(),
{
    if edges.len() == 0 {
        0
    } else {
        approx_count(edges.drop_last())
            + if edges.last().kind == EdgeKind::DispatchApproximate { 1int } else { 0 }
    }
}

/// The elements of `a` outside the set `b`, in order.
pub open spec fn seq_diff(a: Seq<u64>, b: Set<u64>) -> Seq<u64>
    decreases a.len(),
{
    if a.len() == 0 {
        Seq::empty()
    } else {
        let rest = seq_diff(a.drop_last(), b);
        if !b.contains(a.last()) {
            rest.push(a.last())
        } else {
            rest
        }
    }
}

/// Identities of the test-only symbols outside the reachable set, in
/// table order; they are reported separately, never as dead-code findings.
pub open spec fn test_only_ids(syms: Seq<Symbol>, reach: Set<u64>) -> Seq<u64>
    decreases syms.len(),
{
    if syms.len() == 0 {
        Seq::empty()
    } else {
        let rest = test_only_ids(syms.drop_last(), reach);
        if syms.last().test_only && !reach.contains(syms.last().id) {
            rest.push(syms.last().id)
        } else {
            rest
        }
    }
}

/// The counts a run reports for verification of its output.
#[derive(Clone, Copy, PartialEq, Eq, Structural, Debug)]
pub struct Summary {
    pub total_symbols: usize,
    pub reachable_count: usize,
    pub dead_count: usize,
    pub unresolved_count: usize,
    pub approximate_count: usize,
}

/// The result of one analysis run.
pub struct AnalysisReport {
    /// The final root set: the unconditional roots first, then the
    /// initializers promoted by the fixed-point step.
    pub roots: Vec<u64>,
    /// Every reachable symbol, each exactly once.
    pub reachable: Vec<u64>,
    /// The symbols still reachable when approximate dispatch edges are
    /// ignored.
    pub reachable_exact: Vec<u64>,
    /// Reachable only through an approximate dispatch edge: live with
    /// lower confidence, flagged for the consumer.
    pub provisional: Vec<u64>,
    /// Test-only symbols outside the reachable set, reported apart from
    /// the dead-code findings.
    pub test_only_unreachable: Vec<u64>,
    /// Unresolved references, recorded and skipped.
    pub diagnostics: Vec<Diagnostic>,
    /// The dead-code findings, grouped by unreachable chain.
    pub groups: Vec<DeadGroup>,
    /// The dead public symbols, listed apart: removing one changes the
    /// library's contract.
    pub public_dead: Vec<u64>,
    /// The dead private and module-local symbols.
    pub private_dead: Vec<u64>,
    pub summary: Summary,
}

/// True when some symbol in `syms` has identity `id` and `test_only` set.
fn is_test_symbol(table: &SymbolTable, id: u64) -> (r: bool)
    requires
        table.wf(),
    ensures
        r == is_test_only_id(table@, id),
{
    match table.lookup(id) {
        Some(s) => {
            proof {
                let i = choose|i: int| 0 <= i < table@.len() && table@[i] == s;
                if !s.test_only && is_test_only_id(table@, id) {
                    let j = choose|j: int| 0 <= j < table@.len() && table@[j].id == id
                        && table@[j].test_only;
                    assert(i == j);
                }
            }
            s.test_only
        },
        None => false,
    }
}

/// Drops every edge that touches a test-only symbol.
fn filter_prod_edges(table: &SymbolTable, edges: &Vec<Edge>) -> (r: Vec<Edge>)
    requires
        table.wf(),
    ensures
        r@ =~= prod_edges(table@, edges@),
{
    let n = edges.len();
    let mut out: Vec<Edge> = Vec::new();
    let mut i: usize = 0;
    while i < n
        invariant
            table.wf(),
            n == edges@.len(),
            0 <= i <= n,
            out@ =~= prod_edges(table@, edges@.take(i as int)),
        decreases n - i,
    {
        let e = edges[i];
        proof {
            assert(edges@.take(i as int + 1).drop_last() =~= edges@.take(i as int));
            assert(edges@.take(i as int + 1).last() == edges@[i as int]);
        }
        if !is_test_symbol(table, e.source) && !is_test_symbol(table, e.target) {
            out.push(e);
        }
        i += 1;
    }
    proof {
        assert(edges@.take(n as int) =~= edges@);
    }
    out
}

/// Keeps every edge that is not approximate dispatch.
fn filter_exact_edges(edges: &Vec<Edge>) -> (r: Vec<Edge>)
    ensures
        r@ =~= exact_edges(edges@),
{
    let n = edges.len();
    let mut out: Vec<Edge> = Vec::new();
    let mut i: usize = 0;
    while i < n
        invariant
            n == edges@.len(),
            0 <= i <= n,
            out@ =~= exact_edges(edges@.take(i as int)),
        decreases n - i,
    {
        let e = edges[i];
        proof {
            assert(edges@.take(i as int + 1).drop_last() =~= edges@.take(i as int));
            assert(edges@.take(i as int + 1).last() == edges@[i as int]);
        }
        if !(e.kind == EdgeKind::DispatchApproximate) {
            out.push(e);
        }
        i += 1;
    }
    proof {
        assert(edges@.take(n as int) =~= edges@);
    }
    out
}

/// Counts the approximate dispatch edges.
fn count_approx(edges: &Vec<Edge>) -> (r: usize)
    ensures
        r == approx_count(edges@),
{
    let n = edges.len();
    let mut c: usize = 0;
    let mut i: usize = 0;
    while i < n
        invariant
            n == edges@.len(),
            0 <= i <= n,
            c == approx_count(edges@.take(i as int)),
            c <= i,
        decreases n - i,
    {
        proof {
            assert(edges@.take(i as int + 1).drop_last() =~= edges@.take(i as int));
            assert(edges@.take(i as int + 1).last() == edges@[i as int]);
        }
        if edges[i].kind == EdgeKind::DispatchApproximate {
            c += 1;
        }
        i += 1;
    }
    proof {
        assert(edges@.take(n as int) =~= edges@);
    }
    c
}

/// The elements of `a` that are not in `b`, in the order of `a`.
fn diff_ids(a: &Vec<u64>, b: &Vec<u64>) -> (r: Vec<u64>)
    ensures
        r@ =~= seq_diff(a@, b@.to_set()),
{
    let n = a.len();
    let mut out: Vec<u64> = Vec::new();
    let mut i: usize = 0;
    while i < n
        invariant
            n == a@.len(),
            0 <= i <= n,
            out@ =~= seq_diff(a@.take(i as int), b@.to_set()),
        decreases n - i,
    {
        proof {
            assert(a@.take(i as int + 1).drop_last() =~= a@.take(i as int));
            assert(a@.take(i as int + 1).last() == a@[i as int]);
        }
        let x = a[i];
        if !contains_id(b, x) {
            proof {
                if b@.to_set().contains(x) {
                    assert(b@.contains(x));
                }
            }
            out.push(x);
        } else {
            proof {
                assert(b@.to_set().contains(x));
            }
        }
        i += 1;
    }
    proof {
        assert(a@.take(n as int) =~= a@);
    }
    out
}

/// The test-only symbols outside the reachable set, in table order.
fn collect_test_only(table: &SymbolTable, reachable: &Vec<u64>) -> (r: Vec<u64>)
    ensures
        r@ =~= test_only_ids(table@, reachable@.to_set()),
{
    let n = table.len();
    let mut out: Vec<u64> = Vec::new();
    let mut i: usize = 0;
    while i < n
        invariant
            n == table@.len(),
            0 <= i <= n,
            out@ =~= test_only_ids(table@.take(i as int), reachable@.to_set()),
        decreases n - i,
    {
        let s = table.symbol_at(i);
        proof {
            assert(table@.take(i as int + 1).drop_last() =~= table@.take(i as int));
            assert(table@.take(i as int + 1).last() == table@[i as int]);
        }
        if s.test_only && !contains_id(reachable, s.id) {
            proof {
                if reachable@.to_set().contains(s.id) {
                    assert(reachable@.contains(s.id));
                }
            }
            out.push(s.id);
        } else {
            proof {
                if reachable@.contains(s.id) {
                    assert(reachable@.to_set().contains(s.id));
                }
            }
        }
        i += 1;
    }
    proof {
        assert(table@.take(n as int) =~= table@);
    }
    out
}

/// Every exact edge is one of the original edges, so well-formedness
/// carries over.
proof fn lemma_exact_edges_wf(syms: Seq<Symbol>, edges: Seq<Edge>)
    requires
        edges_well_formed(syms, edges),
    ensures
        edges_well_formed(syms, exact_edges(edges)),
    decreases edges.len(),
{
    if edges.len() > 0 {
        assert(edges_well_formed(syms, edges.drop_last())) by {
            assert forall|i: int| 0 <= i < edges.drop_last().len()
                implies has_id(syms, #[trigger] edges.drop_last()[i].source)
                    && has_id(syms, edges.drop_last()[i].target) by {
                assert(edges.drop_last()[i] == edges[i]);
            }
        }
        lemma_exact_edges_wf(syms, edges.drop_last());
        let rest = exact_edges(edges.drop_last());
        assert forall|i: int| 0 <= i < exact_edges(edges).len()
            implies has_id(syms, #[trigger] exact_edges(edges)[i].source)
                && has_id(syms, exact_edges(edges)[i].target) by {
            if i < rest.len() {
                assert(exact_edges(edges)[i] == rest[i]);
            } else {
                assert(exact_edges(edges)[i] == edges.last());
                assert(edges[edges.len() - 1] == edges.last());
            }
        }
    }
}

/// Runs the whole pipeline over immutable inputs.
///
/// Fails with the no-entry-point error exactly when no symbol qualifies
/// as a root, and with the integrity error exactly when a traversed edge
/// references an unregistered symbol; otherwise it succeeds, and the
/// report's reachable set is the unique closure of the unconditional
/// roots over the traversed edges.
pub fn run_analysis(
    table: &SymbolTable,
    sites: &Vec<CallSite>,
    impls: &Vec<ImplEntry>,
    policy: EntryPolicy,
) -> (r: Result<AnalysisReport, AnalysisError>)
    requires
        table.wf(),
    ensures
        r is Err <==> (root_ids(policy, table@).len() == 0
            || !edges_well_formed(table@, used_edges(table@, impls@, sites@, policy))),
        r == Err::<AnalysisReport, AnalysisError>(AnalysisError::NoEntryPoint)
            <==> root_ids(policy, table@).len() == 0,
        match r {
            Ok(rep) => {
                let e = used_edges(table@, impls@, sites@, policy);
                let rs = root_ids(policy, table@);
                let reach = rep.reachable@.to_set();
                &&& is_reachable_set(rs, e, reach)
                &&& is_reachable_set(rep.roots@, e, reach)
                &&& rep.reachable@.no_duplicates()
                &&& rep.roots@.take(rs.len() as int) =~= rs
                &&& rep.roots@ =~= promoted_roots(e, rs, table@.len() as nat, (table@.len() + 1) as nat)
                &&& rep.roots@.len() >= rs.len()
                &&& forall|k: int| rs.len() <= k < rep.roots@.len()
                    ==> promoted_root_ok(e, reach, #[trigger] rep.roots@[k])
                &&& forall|j: int| 0 <= j < e.len()
                    && (#[trigger] e[j]).kind == EdgeKind::MacroSynthesized
                    && reach.contains(e[j].source)
                    ==> rep.roots@.contains(e[j].target)
                &&& rep.reachable@ =~= traversal_order(rep.roots@, e, table@.len() as nat)
                &&& is_reachable_set(rep.roots@, exact_edges(e), rep.reachable_exact@.to_set())
                &&& rep.reachable_exact@ =~= traversal_order(rep.roots@, exact_edges(e), table@.len() as nat)
                &&& rep.provisional@ =~= seq_diff(rep.reachable@, rep.reachable_exact@.to_set())
                &&& rep.test_only_unreachable@ =~= test_only_ids(table@, reach)
                &&& rep.diagnostics@ =~= unresolved_diagnostics(table@, impls@, sites@)
                &&& crate::report::group_ids(rep.groups@).to_set() =~= dead_ids(table@, reach).to_set()
                &&& crate::report::group_ids(rep.groups@).no_duplicates()
                &&& forall|gi: int| 0 <= gi < rep.groups@.len()
                    ==> (#[trigger] rep.groups@[gi].root).classification == DeadClass::UnreachableRoot
                &&& forall|gi: int, mi: int|
                    #![trigger rep.groups@[gi].members@[mi]]
                    0 <= gi < rep.groups@.len() && 0 <= mi < rep.groups@[gi].members@.len()
                    ==> rep.groups@[gi].members@[mi].classification == DeadClass::TransitivelyDead
                        && has_dead_caller(e, dead_ids(table@, reach).to_set(), rep.groups@[gi].members@[mi].id)
                &&& forall|d: u64|
                    dead_ids(table@, reach).to_set().contains(d)
                        && !has_dead_caller(e, dead_ids(table@, reach).to_set(), d)
                    ==> exists|gi: int| 0 <= gi < rep.groups@.len() && (#[trigger] rep.groups@[gi].root).id == d
                &&& rep.public_dead@ =~= dead_ids_by_visibility(table@, reach, true)
                &&& rep.private_dead@ =~= dead_ids_by_visibility(table@, reach, false)
                &&& rep.summary.total_symbols == table@.len()
                &&& rep.summary.reachable_count == rep.reachable@.len()
                &&& rep.summary.dead_count == dead_ids(table@, reach).len()
                &&& rep.summary.unresolved_count == unresolved_diagnostics(table@, impls@, sites@).len()
                &&& rep.summary.approximate_count == approx_count(e)
            },
            Err(err) => err == AnalysisError::NoEntryPoint
                || (err matches AnalysisError::GraphIntegrity { .. }),
        },
{
    let roots0 = match classify_roots(table, policy) {
        Ok(v) => v,
        Err(err) => {
            return Err(err);
        },
    };
    let (all_edges, diags) = resolve_call_sites(table, impls, sites);
    let edges = if policy.include_tests {
        all_edges
    } else {
        filter_prod_edges(table, &all_edges)
    };
    match check_integrity(table, &edges) {
        Ok(()) => (),
        Err(err) => {
            return Err(err);
        },
    }

    proof {
        lemma_root_ids_wf(policy, table@);
        lemma_distinct_ids_bounded(table@, root_ids(policy, table@));
    }
    let ghost e = edges@;
    let ghost rs = roots0@;
    let mut roots = roots0;
    let mut reachable = compute_reachable(table, &edges, &roots);
    let mut settled: bool = false;
    let ghost mut passes: int = 0;
    let ghost fuel0: nat = (table@.len() + 1) as nat;
    let ghost bound: nat = table@.len() as nat;
    while !settled
        invariant
            table.wf(),
            e == edges@,
            rs =~= roots0@,
            fuel0 == (table@.len() + 1) as nat,
            bound == table@.len() as nat,
            0 <= passes,
            passes <= roots@.len() - rs.len(),
            promoted_roots(e, roots@, bound, (fuel0 - passes) as nat)
                =~= promoted_roots(e, rs, bound, fuel0),
            settled ==> roots@ =~= promoted_roots(e, rs, bound, fuel0),
            edges_well_formed(table@, e),
            roots@.no_duplicates(),
            forall|k: int| 0 <= k < roots@.len() ==> has_id(table@, #[trigger] roots@[k]),
            roots@.len() <= table@.len(),
            roots@.len() >= rs.len(),
            roots@.take(rs.len() as int) =~= rs,
            is_reachable_set(roots@, e, reachable@.to_set()),
            reachable@ =~= traversal_order(roots@, e, table@.len() as nat),
            reachable@.no_duplicates(),
            forall|k: int| 0 <= k < reachable@.len() ==> has_id(table@, #[trigger] reachable@[k]),
            forall|x: u64| reachable@.to_set().contains(x) ==> reaches(rs, e, x),
            forall|k: int| rs.len() <= k < roots@.len()
                ==> promoted_root_ok(e, reachable@.to_set(), #[trigger] roots@[k]),
            settled ==> forall|j: int| 0 <= j < e.len()
                && (#[trigger] e[j]).kind == EdgeKind::MacroSynthesized
                && reachable@.to_set().contains(e[j].source)
                ==> roots@.contains(e[j].target),
        decreases
            table@.len() + 1 - roots@.len(),
            1int - if settled { 1int } else { 0int },
    {
        let ghost roots_pre = roots@;
        let ghost reach_pre = reachable@.to_set();
        let mut added: bool = false;
        proof {
            assert forall|k: int| 0 <= k < roots@.len()
                implies reach_pre.contains(#[trigger] roots@[k]) by {
                assert(covers_roots(roots@, reach_pre));
            }
        }
        let nedges = edges.len();
        let mut j: usize = 0;
        while j < nedges
            invariant
                table.wf(),
                e == edges@,
                nedges == e.len(),
                0 <= j <= nedges,
                edges_well_formed(table@, e),
                roots@.no_duplicates(),
                forall|k: int| 0 <= k < roots@.len() ==> has_id(table@, #[trigger] roots@[k]),
                roots@.len() >= rs.len(),
                roots@.take(rs.len() as int) =~= rs,
                reach_pre == reachable@.to_set(),
                is_reachable_set(roots_pre, e, reach_pre),
                roots@.take(roots_pre.len() as int) =~= roots_pre,
                forall|x: u64| reach_pre.contains(x) ==> reaches(rs, e, x),
                forall|k: int| rs.len() <= k < roots@.len()
                    ==> promoted_root_ok(e, reach_pre, #[trigger] roots@[k]),
                !added ==> roots@ =~= roots_pre,
                added ==> roots@.len() > roots_pre.len(),
                promote_pass(e, roots@, reach_pre, j as int)
                    =~= promote_pass(e, roots_pre, reach_pre, 0),
                forall|jj: int| 0 <= jj < j
                    && (#[trigger] e[jj]).kind == EdgeKind::MacroSynthesized
                    && reach_pre.contains(e[jj].source)
                    ==> roots@.contains(e[jj].target),
                // Every root stays covered by the stale reachable set's
                // closure properties: each promoted target is reachable.
                forall|k: int| 0 <= k < roots@.len() ==> reach_pre.contains(#[trigger] roots@[k]),
            decreases nedges - j,
        {
            let ed = edges[j];
            if ed.kind == EdgeKind::MacroSynthesized && contains_id(&reachable, ed.source)
                && !contains_id(&roots, ed.target) {
                proof {
                    assert(reach_pre.contains(ed.source)) by {
                        assert(reachable@.contains(ed.source));
                    }
                    assert(reach_pre.contains(ed.target)) by {
                        assert(closed_under(e, reach_pre));
                        assert(reach_pre.contains(e[j as int].source));
                    }
                }
                let ghost old_roots = roots@;
                roots.push(ed.target);
                added = true;
                proof {
                    assert(roots@.drop_last() =~= old_roots);
                    assert(roots@.no_duplicates());
                    assert(roots@.take(rs.len() as int) =~= old_roots.take(rs.len() as int));
                    assert(roots@.take(roots_pre.len() as int)
                        =~= old_roots.take(roots_pre.len() as int));
                    assert forall|k: int| rs.len() <= k < roots@.len()
                        implies promoted_root_ok(e, reach_pre, #[trigger] roots@[k]) by {
                        if k < old_roots.len() {
                            assert(roots@[k] == old_roots[k]);
                            assert(promoted_root_ok(e, reach_pre, old_roots[k]));
                        } else {
                            assert(roots@[k] == ed.target);
                            assert((e[j as int]).kind == EdgeKind::MacroSynthesized
                                && e[j as int].target == roots@[k]
                                && reach_pre.contains(e[j as int].source));
                        }
                    }
                    assert forall|jj: int| 0 <= jj < j + 1
                        && (#[trigger] e[jj]).kind == EdgeKind::MacroSynthesized
                        && reach_pre.contains(e[jj].source)
                        implies roots@.contains(e[jj].target) by {
                        if jj < j {
                            assert(old_roots.contains(e[jj].target));
                            let m = choose|m: int| 0 <= m < old_roots.len()
                                && old_roots[m] == e[jj].target;
                            assert(roots@[m] == e[jj].target);
                        } else {
                            assert(roots@[roots@.len() - 1] == ed.target);
                        }
                    }
                }
            } else {
                proof {
                    if e[j as int].kind == EdgeKind::MacroSynthesized
                        && reach_pre.contains(e[j as int].source) {
                        assert(reachable@.contains(e[j as int].source));
                        assert(roots@.contains(e[j as int].target));
                    }
                }
            }
            j += 1;
        }
        proof {
            // The completed scan is exactly one promotion pass.
            assert(promote_pass(e, roots@, reach_pre, nedges as int) == roots@);
            assert(roots@ =~= promote_pass(e, roots_pre, reach_pre, 0));
            assert(reach_pre == traversal_order(roots_pre, e, bound).to_set()) by {
                assert(reachable@ =~= traversal_order(roots_pre, e, bound));
            }
        }
        if !added {
            settled = true;
            proof {
                assert(roots@ =~= roots_pre);
                assert(promote_pass(e, roots@, traversal_order(roots@, e, bound).to_set(), 0)
                    =~= roots@);
                assert(promoted_roots(e, roots@, bound, (fuel0 - passes) as nat) =~= roots@);
                assert(roots@ =~= promoted_roots(e, rs, bound, fuel0));
            }
        } else {
            proof {
                // The pass added a root, so the spec fixed point takes one
                // more step; the fuel left always covers it.
                assert(fuel0 - passes >= 1);
                assert(promote_pass(e, roots_pre, traversal_order(roots_pre, e, bound).to_set(), 0)
                    =~= roots@);
                assert(roots@.len() != roots_pre.len());
                assert(promoted_roots(e, roots_pre, bound, (fuel0 - passes) as nat)
                    == promoted_roots(e, roots@, bound, (fuel0 - passes - 1) as nat));
                passes = passes + 1;
            }
            proof {
                lemma_distinct_ids_bounded(table@, roots@);
            }
            let new_reachable = compute_reachable(table, &edges, &roots);
            proof {
                // The recomputed set keeps everything: the root list only
                // grew.
                assert forall|k: int| 0 <= k < roots_pre.len()
                    implies roots@.contains(#[trigger] roots_pre[k]) by {
                    assert(roots@.take(roots_pre.len() as int)[k] == roots_pre[k]);
                    assert(roots@[k] == roots_pre[k]);
                }
                assert forall|k: int| 0 <= k < e.len() implies e.contains(#[trigger] e[k]) by {}
                lemma_reachable_monotone(
                    roots_pre, e, reach_pre,
                    roots@, e, new_reachable@.to_set(),
                );
                // And everything in it is still forced by the original
                // unconditional roots, because every promoted root already
                // lay in the old reachable set.
                assert forall|x: u64| new_reachable@.to_set().contains(x)
                    implies reaches(rs, e, x) by {
                    assert forall|s: Set<u64>| covers_roots(rs, s) && closed_under(e, s)
                        implies s.contains(x) by {
                        assert(covers_roots(roots@, s)) by {
                            assert forall|k: int| 0 <= k < roots@.len()
                                implies s.contains(#[trigger] roots@[k]) by {
                                assert(reach_pre.contains(roots@[k]));
                                assert(reaches(rs, e, roots@[k]));
                            }
                        }
                        assert(reaches(roots@, e, x));
                    }
                }
                // The promoted-root justification lifts to the larger set.
                assert forall|k: int| rs.len() <= k < roots@.len()
                    implies promoted_root_ok(e, new_reachable@.to_set(), #[trigger] roots@[k]) by {
                    lemma_promoted_root_monotone(
                        e, reach_pre, new_reachable@.to_set(), roots@[k],
                    );
                }
            }
            reachable = new_reachable;
        }
    }

    let ghost reach = reachable@.to_set();
    proof {
        // The closure over the final roots equals the closure over the
        // unconditional roots alone.
        assert(is_reachable_set(rs, e, reach)) by {
            assert(covers_roots(rs, reach)) by {
                assert forall|k: int| 0 <= k < rs.len() implies reach.contains(#[trigger] rs[k]) by {
                    assert(roots@[k] == rs[k]);
                    assert(covers_roots(roots@, reach));
                }
            }
        }
        lemma_exact_edges_wf(table@, e);
    }

    let exact = filter_exact_edges(&edges);
    let reachable_exact = compute_reachable(table, &exact, &roots);
    let provisional = diff_ids(&reachable, &reachable_exact);
    let test_only_unreachable = collect_test_only(table, &reachable);
    let groups = group_dead(table, &edges, &reachable);
    let dead = collect_dead(table, &reachable);
    let public_dead = collect_dead_by_visibility(table, &reachable, true);
    let private_dead = collect_dead_by_visibility(table, &reachable, false);

    let total_symbols = table.len();
    let reachable_count = reachable.len();
    let dead_count = dead.len();
    let unresolved_count = diags.len();
    let approximate_count = count_approx(&edges);

    Ok(AnalysisReport {
        roots,
        reachable,
        reachable_exact,
        provisional,
        test_only_unreachable,
        diagnostics: diags,
        groups,
        public_dead,
        private_dead,
        summary: Summary {
            total_symbols,
            reachable_count,
            dead_count,
            unresolved_count,
            approximate_count,
        },
    })
}

} // verus!
