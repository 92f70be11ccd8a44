//! The edge builder: turns each recorded call site into zero or more
//! resolved edges, with explicit policies for dynamic dispatch, callables
//! passed as values, and macro-synthesized initializers.
//!
//! Resolution is pure: for identical inputs it produces the same edges and
//! the same diagnostics, in the same order.

use vstd::prelude::*;
use crate::AnalysisError;
use crate::symbols::{Symbol, SymbolTable, has_id};

verus! {

/// The reference a call site carries, as the front-end recorded it.
#[derive(Clone, Copy, PartialEq, Eq, Debug)]
pub enum CallRef {
    /// A direct reference to a declared name.
    Direct { name: u64 },
    /// A method call through an interface; `known_target` is the concrete
    /// implementing symbol when the call site pins it down statically.
    Dispatch { interface: u64, method: u64, known_target: Option<u64> },
    /// A function referenced as a value (closure or function pointer);
    /// taking the identity counts as a potential call.
    ValueRef { name: u64 },
    /// An invocation synthesized by a macro expander; resolved like a
    /// direct reference. For a lazily-initialized global the front-end
    /// makes the global itself the source, so the initializer is live
    /// exactly when the global is.
    MacroSynthesized { name: u64 },
}

/// One recorded call or reference site, immutable once recorded.
#[derive(Clone, Copy, PartialEq, Eq, Debug)]
pub struct CallSite {
    /// The symbol whose body holds the site.
    pub source: u64,
    pub reference: CallRef,
}

/// How an edge was obtained from its call site.
#[derive(Clone, Copy, PartialEq, Eq, Structural, Debug)]
pub enum EdgeKind {
    Direct,
    DispatchExact,
    DispatchApproximate,
    ClosureCapture,
    MacroSynthesized,
}

/// A resolved call-graph edge.
#[derive(Clone, Copy, PartialEq, Eq, Structural, Debug)]
pub struct Edge {
    pub source: u64,
    pub target: u64,
    pub kind: EdgeKind,
}

/// One interface-implementer relationship the front-end supplied:
/// `implementer` is the method symbol of one concrete variant.
#[derive(Clone, Copy, PartialEq, Eq, Structural, Debug)]
pub struct ImplEntry {
    pub interface: u64,
    pub method: u64,
    pub implementer: u64,
}

/// A recoverable diagnostic: a call site that resolved to no unique target
/// and therefore contributed no edge.
#[derive(Clone, Copy, PartialEq, Eq, Structural, Debug)]
pub struct Diagnostic {
    /// The symbol holding the unresolved site.
    pub source: u64,
}

/// Identities of the symbols named `name`, in table order.
pub open spec fn matching_targets(syms: Seq<Symbol>, name: u64) -> Seq<u64>
    decreases syms.len(),
{
    if syms.len() == 0 {
        Seq::empty()
    } else {
        let rest = matching_targets(syms.drop_last(), name);
        if syms.last().name == name {
            rest.push(syms.last().id)
        } else {
            rest
        }
    }
}

/// Implementer method symbols registered for `interface`/`method`, in
/// input order.
pub open spec fn implementer_targets(impls: Seq<ImplEntry>, interface: u64, method: u64) -> Seq<u64>
    decreases impls.len(),
{
    if impls.len() == 0 {
        Seq::empty()
    } else {
        let rest = implementer_targets(impls.drop_last(), interface, method);
        if impls.last().interface == interface && impls.last().method == method {
            rest.push(impls.last().implementer)
        } else {
            rest
        }
    }
}

/// The edges one call site resolves to.
///
/// A direct, value or macro-synthesized reference resolves only when
/// exactly one symbol matches the name. Dispatch with a known concrete
/// target yields one exact edge; otherwise a single implementer yields one
/// exact edge, and several implementers yield an approximate edge to every
/// one of them — the conservative over-approximation that keeps a possibly
/// live implementer from being reported dead.
pub open spec fn site_edges(syms: Seq<Symbol>, impls: Seq<ImplEntry>, site: CallSite) -> Seq<Edge> {
    match site.reference {
        CallRef::Direct { name } => {
            let ts = matching_targets(syms, name);
            if ts.len() == 1 {
                seq![Edge { source: site.source, target: ts[0], kind: EdgeKind::Direct }]
            } else {
                Seq::empty()
            }
        },
        CallRef::ValueRef { name } => {
            let ts = matching_targets(syms, name);
            if ts.len() == 1 {
                seq![Edge { source: site.source, target: ts[0], kind: EdgeKind::ClosureCapture }]
            } else {
                Seq::empty()
            }
        },
        CallRef::MacroSynthesized { name } => {
            let ts = matching_targets(syms, name);
            if ts.len() == 1 {
                seq![Edge { source: site.source, target: ts[0], kind: EdgeKind::MacroSynthesized }]
            } else {
                Seq::empty()
            }
        },
        CallRef::Dispatch { interface, method, known_target } => {
            match known_target {
                Some(t) => {
                    if has_id(syms, t) {
                        seq![Edge { source: site.source, target: t, kind: EdgeKind::DispatchExact }]
                    } else {
                        Seq::empty()
                    }
                },
                None => {
                    let ts = implementer_targets(impls, interface, method);
                    if ts.len() == 1 {
                        seq![Edge { source: site.source, target: ts[0], kind: EdgeKind::DispatchExact }]
                    } else {
                        ts.map_values(
                            |t: u64| Edge { source: site.source, target: t, kind: EdgeKind::DispatchApproximate },
                        )
                    }
                },
            }
        },
    }
}

/// True when the site contributes no edge and is recorded as an
/// unresolved-reference diagnostic instead.
pub open spec fn site_unresolved(syms: Seq<Symbol>, impls: Seq<ImplEntry>, site: CallSite) -> bool {
    match site.reference {
        CallRef::Direct { name } => matching_targets(syms, name).len() != 1,
        CallRef::ValueRef { name } => matching_targets(syms, name).len() != 1,
        CallRef::MacroSynthesized { name } => matching_targets(syms, name).len() != 1,
        CallRef::Dispatch { interface, method, known_target } => {
            match known_target {
                Some(t) => !has_id(syms, t),
                None => implementer_targets(impls, interface, method).len() == 0,
            }
        },
    }
}

/// All edges of a run: the concatenation of each site's edges, in site
/// order.
pub open spec fn resolved_edges(syms: Seq<Symbol>, impls: Seq<ImplEntry>, sites: Seq<CallSite>) -> Seq<Edge>
    decreases sites.len(),
{
    if sites.len() == 0 {
        Seq::empty()
    } else {
        resolved_edges(syms, impls, sites.drop_last()) + site_edges(syms, impls, sites.last())
    }
}

/// All diagnostics of a run, in site order.
pub open spec fn unresolved_diagnostics(syms: Seq<Symbol>, impls: Seq<ImplEntry>, sites: Seq<CallSite>) -> Seq<Diagnostic>
    decreases sites.len(),
{
    if sites.len() == 0 {
        Seq::empty()
    } else {
        let rest = unresolved_diagnostics(syms, impls, sites.drop_last());
        if site_unresolved(syms, impls, sites.last()) {
            rest.push(Diagnostic { source: sites.last().source })
        } else {
            rest
        }
    }
}

/// Identities of the symbols named `name`, in table order.
fn find_matching(table: &SymbolTable, name: u64) -> (r: Vec<u64>)
    ensures
        r@ =~= matching_targets(table@, name),
{
    let n = table.len();
    let mut out: Vec<u64> = Vec::new();
    let mut i: usize = 0;
    while i < n
        invariant
            n == table@.len(),
            0 <= i <= n,
            out@ =~= matching_targets(table@.take(i as int), name),
        decreases n - i,
    {
        let s = table.symbol_at(i);
        proof {
            assert(table@.take(i as int + 1).drop_last() =~= table@.take(i as int));
            assert(table@.take(i as int + 1).last() == table@[i as int]);
        }
        if s.name == name {
            out.push(s.id);
        }
        i += 1;
    }
    proof {
        assert(table@.take(n as int) =~= table@);
    }
    out
}

/// Implementer method symbols registered for `interface`/`method`.
fn find_implementers(impls: &Vec<ImplEntry>, interface: u64, method: u64) -> (r: Vec<u64>)
    ensures
        r@ =~= implementer_targets(impls@, interface, method),
{
    let n = impls.len();
    let mut out: Vec<u64> = Vec::new();
    let mut i: usize = 0;
    while i < n
        invariant
            n == impls@.len(),
            0 <= i <= n,
            out@ =~= implementer_targets(impls@.take(i as int), interface, method),
        decreases n - i,
    {
        let e = impls[i];
        proof {
            assert(impls@.take(i as int + 1).drop_last() =~= impls@.take(i as int));
            assert(impls@.take(i as int + 1).last() == impls@[i as int]);
        }
        if e.interface == interface && e.method == method {
            out.push(e.implementer);
        }
        i += 1;
    }
    proof {
        assert(impls@.take(n as int) =~= impls@);
    }
    out
}

/// Resolves every call site, in order, into edges and unresolved-reference
/// diagnostics. Pure with respect to its inputs: the results are fixed by
/// the table, the implementer relation and the sites alone.
pub fn resolve_call_sites(table: &SymbolTable, impls: &Vec<ImplEntry>, sites: &Vec<CallSite>) -> (r: (Vec<Edge>, Vec<Diagnostic>))
    ensures
        r.0@ =~= resolved_edges(table@, impls@, sites@),
        r.1@ =~= unresolved_diagnostics(table@, impls@, sites@),
{
    let n = sites.len();
    let mut edges: Vec<Edge> = Vec::new();
    let mut diags: Vec<Diagnostic> = Vec::new();
    let mut i: usize = 0;
    while i < n
        invariant
            n == sites@.len(),
            0 <= i <= n,
            edges@ =~= resolved_edges(table@, impls@, sites@.take(i as int)),
            diags@ =~= unresolved_diagnostics(table@, impls@, sites@.take(i as int)),
        decreases n - i,
    {
        let site = sites[i];
        proof {
            assert(sites@.take(i as int + 1).drop_last() =~= sites@.take(i as int));
            assert(sites@.take(i as int + 1).last() == sites@[i as int]);
        }
        match site.reference {
            CallRef::Direct { name } => {
                let ts = find_matching(table, name);
                if ts.len() == 1 {
                    edges.push(Edge { source: site.source, target: ts[0], kind: EdgeKind::Direct });
                } else {
                    diags.push(Diagnostic { source: site.source });
                }
            },
            CallRef::ValueRef { name } => {
                let ts = find_matching(table, name);
                if ts.len() == 1 {
                    edges.push(Edge { source: site.source, target: ts[0], kind: EdgeKind::ClosureCapture });
                } else {
                    diags.push(Diagnostic { source: site.source });
                }
            },
            CallRef::MacroSynthesized { name } => {
                let ts = find_matching(table, name);
                if ts.len() == 1 {
                    edges.push(Edge { source: site.source, target: ts[0], kind: EdgeKind::MacroSynthesized });
                } else {
                    diags.push(Diagnostic { source: site.source });
                }
            },
            CallRef::Dispatch { interface, method, known_target } => {
                match known_target {
                    Some(t) => {
                        if table.contains_id(t) {
                            edges.push(Edge { source: site.source, target: t, kind: EdgeKind::DispatchExact });
                        } else {
                            diags.push(Diagnostic { source: site.source });
                        }
                    },
                    None => {
                        let ts = find_implementers(impls, interface, method);
                        if ts.len() == 1 {
                            edges.push(Edge { source: site.source, target: ts[0], kind: EdgeKind::DispatchExact });
                        } else {
                            if ts.len() == 0 {
                                diags.push(Diagnostic { source: site.source });
                            }
                            let ghost site_ghost = site;
                            let m = ts.len();
                            let mut j: usize = 0;
                            while j < m
                                invariant
                                    m == ts@.len(),
                                    0 <= j <= m,
                                    m != 1,
                                    ts@ =~= implementer_targets(impls@, site_ghost.reference->Dispatch_interface, site_ghost.reference->Dispatch_method),
                                    site_ghost.reference matches CallRef::Dispatch { known_target: kt, .. } && kt is None,
                                    site_ghost.source == site.source,
                                    edges@ =~= resolved_edges(table@, impls@, sites@.take(i as int))
                                        + site_edges(table@, impls@, site_ghost).take(j as int),
                                decreases m - j,
                            {
                                edges.push(Edge { source: site.source, target: ts[j], kind: EdgeKind::DispatchApproximate });
                                j += 1;
                            }
                            proof {
                                assert(site_edges(table@, impls@, site_ghost).take(m as int)
                                    =~= site_edges(table@, impls@, site_ghost));
                            }
                        }
                    },
                }
            },
        }
        i += 1;
    }
    proof {
        assert(sites@.take(n as int) =~= sites@);
    }
    (edges, diags)
}

/// True when every edge's endpoints are registered symbols.
pub open spec fn edges_well_formed(syms: Seq<Symbol>, edges: Seq<Edge>) -> bool {
    forall|i: int| 0 <= i < edges.len()
        ==> has_id(syms, #[trigger] edges[i].source) && has_id(syms, edges[i].target)
}

/// True when `e` names the endpoints of the first edge with an
/// unregistered endpoint.
pub open spec fn reports_first_bad_edge(syms: Seq<Symbol>, edges: Seq<Edge>, e: AnalysisError) -> bool {
    exists|i: int|
        #![trigger edges[i]]
        0 <= i < edges.len()
        && !(has_id(syms, edges[i].source) && has_id(syms, edges[i].target))
        && (forall|j: int| 0 <= j < i
            ==> has_id(syms, (#[trigger] edges[j]).source) && has_id(syms, edges[j].target))
        && e == (AnalysisError::GraphIntegrity { source: edges[i].source, target: edges[i].target })
}

/// Checks that every edge endpoint exists in the table; a violation is the
/// fatal integrity error, an internal defect rather than an input error,
/// naming the first offending edge's endpoints.
pub fn check_integrity(table: &SymbolTable, edges: &Vec<Edge>) -> (r: Result<(), AnalysisError>)
    ensures
        r is Ok <==> edges_well_formed(table@, edges@),
        r matches Err(e) ==> (e matches AnalysisError::GraphIntegrity { .. }),
        r matches Err(e) ==> reports_first_bad_edge(table@, edges@, e),
{
    let n = edges.len();
    let mut i: usize = 0;
    while i < n
        invariant
            n == edges@.len(),
            0 <= i <= n,
            forall|k: int| 0 <= k < i
                ==> has_id(table@, #[trigger] edges@[k].source) && has_id(table@, edges@[k].target),
        decreases n - i,
    {
        let e = edges[i];
        if !table.contains_id(e.source) || !table.contains_id(e.target) {
            return Err(AnalysisError::GraphIntegrity { source: e.source, target: e.target });
        }
        i += 1;
    }
    Ok(())
}

} // verus!
