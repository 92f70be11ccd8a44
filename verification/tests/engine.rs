use reachcore::callgraph::{CallRef, CallSite, ImplEntry};
use reachcore::pipeline::run_analysis;
use reachcore::report::DeadClass;
use reachcore::roots::EntryPolicy;
use reachcore::symbols::{Symbol, SymbolKind, SymbolTable, Visibility};
use reachcore::AnalysisError;

fn sym(id: u64, name: u64) -> Symbol {
    Symbol {
        id,
        name,
        location: id,
        kind: SymbolKind::Function,
        visibility: Visibility::Private,
        test_only: false,
        entry_candidate: false,
    }
}

fn table_of(syms: Vec<Symbol>) -> SymbolTable {
    let mut t = SymbolTable::new();
    for s in syms {
        t.register(s).unwrap();
    }
    t
}

fn direct(source: u64, name: u64) -> CallSite {
    CallSite { source, reference: CallRef::Direct { name } }
}

const MAIN_NAME: u64 = 100;

fn default_policy() -> EntryPolicy {
    EntryPolicy { entry_name: MAIN_NAME, library_mode: false, include_tests: false }
}

#[test]
fn chain_and_unconnected_function() {
    // A -> B -> C with A the sole root; D is unconnected.
    let a = sym(1, MAIN_NAME);
    let b = sym(2, 101);
    let c = sym(3, 102);
    let d = sym(4, 103);
    let table = table_of(vec![a, b, c, d]);
    let sites = vec![direct(1, 101), direct(2, 102)];
    let rep = run_analysis(&table, &sites, &vec![], default_policy()).unwrap();
    assert_eq!(rep.reachable, vec![1, 2, 3]);
    assert_eq!(rep.roots, vec![1]);
    assert_eq!(rep.groups.len(), 1);
    assert_eq!(rep.groups[0].root.id, 4);
    assert_eq!(rep.groups[0].root.classification, DeadClass::UnreachableRoot);
    assert!(rep.groups[0].members.is_empty());
    assert_eq!(rep.summary.total_symbols, 4);
    assert_eq!(rep.summary.reachable_count, 3);
    assert_eq!(rep.summary.dead_count, 1);
    assert_eq!(rep.summary.unresolved_count, 0);
    assert_eq!(rep.summary.approximate_count, 0);
}

#[test]
fn dead_chain_groups_under_its_root() {
    let a = sym(1, MAIN_NAME);
    let s = sym(2, 110);
    let m = sym(3, 111);
    let e = sym(4, 112);
    let table = table_of(vec![a, s, m, e]);
    // start -> middle -> end, none reachable from main.
    let sites = vec![direct(2, 111), direct(3, 112)];
    let rep = run_analysis(&table, &sites, &vec![], default_policy()).unwrap();
    assert_eq!(rep.reachable, vec![1]);
    assert_eq!(rep.groups.len(), 1);
    assert_eq!(rep.groups[0].root.id, 2);
    let member_ids: Vec<u64> = rep.groups[0].members.iter().map(|f| f.id).collect();
    assert_eq!(member_ids, vec![3, 4]);
    for f in &rep.groups[0].members {
        assert_eq!(f.classification, DeadClass::TransitivelyDead);
    }
}

#[test]
fn dead_cycle_collapses_to_one_group() {
    // E -> F -> E, neither reachable from the root.
    let a = sym(1, MAIN_NAME);
    let e = sym(5, 120);
    let f = sym(6, 121);
    let table = table_of(vec![a, e, f]);
    let sites = vec![direct(5, 121), direct(6, 120)];
    let rep = run_analysis(&table, &sites, &vec![], default_policy()).unwrap();
    assert_eq!(rep.groups.len(), 1);
    // The nominal root is the member with the lowest identity.
    assert_eq!(rep.groups[0].root.id, 5);
    let member_ids: Vec<u64> = rep.groups[0].members.iter().map(|f| f.id).collect();
    assert_eq!(member_ids, vec![6]);
}

#[test]
fn approximate_dispatch_reaches_every_implementer() {
    // A call on a value of unknown concrete type: both implementers of
    // the interface method become reachable, flagged provisional.
    let a = sym(1, MAIN_NAME);
    let h1 = sym(10, 130);
    let h2 = sym(11, 131);
    let table = table_of(vec![a, h1, h2]);
    let iface = 200;
    let method = 201;
    let sites = vec![CallSite {
        source: 1,
        reference: CallRef::Dispatch { interface: iface, method, known_target: None },
    }];
    let impls = vec![
        ImplEntry { interface: iface, method, implementer: 10 },
        ImplEntry { interface: iface, method, implementer: 11 },
    ];
    let rep = run_analysis(&table, &sites, &impls, default_policy()).unwrap();
    assert_eq!(rep.reachable, vec![1, 10, 11]);
    assert_eq!(rep.summary.approximate_count, 2);
    assert_eq!(rep.provisional, vec![10, 11]);
    assert!(rep.groups.is_empty());
}

#[test]
fn known_receiver_gives_exact_dispatch() {
    let a = sym(1, MAIN_NAME);
    let h1 = sym(10, 130);
    let h2 = sym(11, 131);
    let table = table_of(vec![a, h1, h2]);
    let sites = vec![CallSite {
        source: 1,
        reference: CallRef::Dispatch { interface: 200, method: 201, known_target: Some(10) },
    }];
    let impls = vec![
        ImplEntry { interface: 200, method: 201, implementer: 10 },
        ImplEntry { interface: 200, method: 201, implementer: 11 },
    ];
    let rep = run_analysis(&table, &sites, &impls, default_policy()).unwrap();
    assert_eq!(rep.reachable, vec![1, 10]);
    assert_eq!(rep.summary.approximate_count, 0);
    assert!(rep.provisional.is_empty());
}

#[test]
fn initializer_follows_its_global() {
    // A lazily-initialized global G with a macro-synthesized initializer:
    // the initializer is reachable exactly when G is.
    let mut g = sym(20, 140);
    g.kind = SymbolKind::Constant;
    let mut init = sym(21, 141);
    init.kind = SymbolKind::StaticInitializer;
    let a = sym(1, MAIN_NAME);

    // G is referenced from the live root.
    let table = table_of(vec![a, g, init]);
    let sites = vec![
        direct(1, 140),
        CallSite { source: 20, reference: CallRef::MacroSynthesized { name: 141 } },
    ];
    let rep = run_analysis(&table, &sites, &vec![], default_policy()).unwrap();
    assert!(rep.reachable.contains(&21));
    assert!(rep.roots.contains(&21));

    // G is never referenced: the initializer stays dead and unrooted.
    let table2 = table_of(vec![a, g, init]);
    let sites2 = vec![CallSite { source: 20, reference: CallRef::MacroSynthesized { name: 141 } }];
    let rep2 = run_analysis(&table2, &sites2, &vec![], default_policy()).unwrap();
    assert!(!rep2.reachable.contains(&21));
    assert!(!rep2.roots.contains(&21));
    assert_eq!(rep2.roots, vec![1]);
}

#[test]
fn no_entry_point_is_an_error() {
    let b = sym(2, 101);
    let table = table_of(vec![b]);
    let r = run_analysis(&table, &vec![], &vec![], default_policy());
    assert_eq!(r.err(), Some(AnalysisError::NoEntryPoint));
}

#[test]
fn test_only_symbols_never_root_by_default() {
    let mut t1 = sym(30, MAIN_NAME);
    t1.test_only = true;
    t1.entry_candidate = true;
    let a = sym(1, MAIN_NAME);
    let table = table_of(vec![a, t1]);
    let rep = run_analysis(&table, &vec![], &vec![], default_policy()).unwrap();
    assert_eq!(rep.roots, vec![1]);
    assert_eq!(rep.test_only_unreachable, vec![30]);

    // With test inclusion, the test case becomes its own root.
    let table2 = table_of(vec![a, t1]);
    let mut p = default_policy();
    p.include_tests = true;
    let rep2 = run_analysis(&table2, &vec![], &vec![], p).unwrap();
    assert!(rep2.roots.contains(&30));
    assert!(rep2.reachable.contains(&30));
}

#[test]
fn test_edges_excluded_by_default() {
    // A test-only caller must not keep production code alive in the
    // default mode.
    let a = sym(1, MAIN_NAME);
    let helper = sym(2, 150);
    let mut tc = sym(3, 151);
    tc.test_only = true;
    let table = table_of(vec![a, helper, tc]);
    let sites = vec![direct(3, 150)];
    let rep = run_analysis(&table, &sites, &vec![], default_policy()).unwrap();
    assert!(!rep.reachable.contains(&2));
    assert_eq!(rep.summary.dead_count, 1);
}

#[test]
fn unresolved_reference_is_recorded_and_skipped() {
    let a = sym(1, MAIN_NAME);
    let table = table_of(vec![a]);
    let sites = vec![direct(1, 999)];
    let rep = run_analysis(&table, &sites, &vec![], default_policy()).unwrap();
    assert_eq!(rep.diagnostics.len(), 1);
    assert_eq!(rep.diagnostics[0].source, 1);
    assert_eq!(rep.summary.unresolved_count, 1);
    assert_eq!(rep.reachable, vec![1]);
}

#[test]
fn integrity_violation_is_fatal() {
    let a = sym(1, MAIN_NAME);
    let table = table_of(vec![a]);
    let sites = vec![CallSite {
        source: 1,
        reference: CallRef::Dispatch { interface: 200, method: 201, known_target: None },
    }];
    // The implementer was never registered: resolution produces an edge
    // whose target is absent from the table.
    let impls = vec![
        ImplEntry { interface: 200, method: 201, implementer: 77 },
        ImplEntry { interface: 200, method: 201, implementer: 78 },
    ];
    let r = run_analysis(&table, &sites, &impls, default_policy());
    assert_eq!(r.err(), Some(AnalysisError::GraphIntegrity { source: 1, target: 77 }));
}

#[test]
fn duplicate_registration_is_refused() {
    let mut t = SymbolTable::new();
    t.register(sym(1, MAIN_NAME)).unwrap();
    let r = t.register(sym(1, 101));
    assert_eq!(r.err(), Some(AnalysisError::DuplicateSymbol { id: 1 }));
    assert_eq!(t.len(), 1);
    assert!(t.lookup(1).is_some());
    assert!(t.lookup(2).is_none());
}

#[test]
fn identical_inputs_give_identical_reports() {
    let a = sym(1, MAIN_NAME);
    let b = sym(2, 101);
    let c = sym(3, 102);
    let d = sym(4, 103);
    let syms = vec![a, b, c, d];
    let sites = vec![
        direct(1, 101),
        direct(2, 102),
        CallSite {
            source: 1,
            reference: CallRef::Dispatch { interface: 200, method: 201, known_target: None },
        },
    ];
    let impls = vec![
        ImplEntry { interface: 200, method: 201, implementer: 3 },
        ImplEntry { interface: 200, method: 201, implementer: 4 },
    ];
    let rep1 = run_analysis(&table_of(syms.clone()), &sites, &impls, default_policy()).unwrap();
    let rep2 = run_analysis(&table_of(syms), &sites, &impls, default_policy()).unwrap();
    assert_eq!(rep1.reachable, rep2.reachable);
    assert_eq!(rep1.roots, rep2.roots);
    assert_eq!(rep1.provisional, rep2.provisional);
    assert_eq!(rep1.summary, rep2.summary);
    let ids1: Vec<(u64, Vec<u64>)> = rep1
        .groups
        .iter()
        .map(|g| (g.root.id, g.members.iter().map(|f| f.id).collect()))
        .collect();
    let ids2: Vec<(u64, Vec<u64>)> = rep2
        .groups
        .iter()
        .map(|g| (g.root.id, g.members.iter().map(|f| f.id).collect()))
        .collect();
    assert_eq!(ids1, ids2);
}

#[test]
fn growing_the_graph_never_shrinks_the_reachable_set() {
    let a = sym(1, MAIN_NAME);
    let b = sym(2, 101);
    let c = sym(3, 102);
    let syms = vec![a, b, c];
    let sites1 = vec![direct(1, 101)];
    let rep1 = run_analysis(&table_of(syms.clone()), &sites1, &vec![], default_policy()).unwrap();
    // One more edge: everything reachable before stays reachable.
    let mut sites2 = sites1.clone();
    sites2.push(direct(2, 102));
    let rep2 = run_analysis(&table_of(syms), &sites2, &vec![], default_policy()).unwrap();
    for id in &rep1.reachable {
        assert!(rep2.reachable.contains(id));
    }
    assert!(rep2.reachable.contains(&3));
}

#[test]
fn library_mode_roots_every_entry_candidate() {
    let a = sym(1, MAIN_NAME);
    let mut api = sym(2, 101);
    api.entry_candidate = true;
    api.visibility = Visibility::Public;
    let table = table_of(vec![a, api]);
    let mut p = default_policy();
    p.library_mode = true;
    let rep = run_analysis(&table, &vec![], &vec![], p).unwrap();
    assert_eq!(rep.roots, vec![1, 2]);
    assert_eq!(rep.reachable, vec![1, 2]);
}
