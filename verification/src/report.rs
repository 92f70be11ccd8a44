//! The dead-code reporter: everything declared but not reachable, grouped
//! the way a reader wants to delete it — the root of each unreachable
//! chain first, its transitively dead dependents nested under it.
//!
//! A dead symbol with no dead caller is an unreachable-chain root. A cycle
//! of dead symbols has no such root; its group is seeded by the member
//! with the lowest identity, a deterministic tie-break.

use vstd::prelude::*;
use vstd::seq_lib::*;
use vstd::set_lib::lemma_len_subset;
use crate::callgraph::Edge;
use crate::reach::contains_id;
use crate::symbols::{Symbol, SymbolTable, Visibility, has_id};

verus! {

/// How a dead symbol is classified in a finding.
#[derive(Clone, Copy, PartialEq, Eq, Structural, Debug)]
pub enum DeadClass {
    /// No dead symbol calls it: the one declaration to delete first.
    UnreachableRoot,
    /// Called only by other dead symbols: removable as a consequence.
    TransitivelyDead,
}

/// One dead-code finding.
#[derive(Clone, Copy, PartialEq, Eq, Structural, Debug)]
pub struct Finding {
    pub id: u64,
    pub name: u64,
    pub location: u64,
    pub visibility: Visibility,
    pub classification: DeadClass,
}

/// One group of findings: an unreachable-chain root and the dependents
/// that become removable with it.
pub struct DeadGroup {
    pub root: Finding,
    pub members: Vec<Finding>,
}

/// Identities of the production symbols (not test-only) outside the
/// reachable set, in table order.
pub open spec fn dead_ids(syms: Seq<Symbol>, reach: Set<u64>) -> Seq<u64>
    decreases syms.len(),
{
    if syms.len() == 0 {
        Seq::empty()
    } else {
        let rest = dead_ids(syms.drop_last(), reach);
        if !syms.last().test_only && !reach.contains(syms.last().id) {
            rest.push(syms.last().id)
        } else {
            rest
        }
    }
}

/// The dead production identities of one visibility class, in table
/// order: public when `public` is set, else private or module-local.
/// Removing a public symbol changes the library's contract, so the two
/// are reported apart.
pub open spec fn dead_ids_by_visibility(syms: Seq<Symbol>, reach: Set<u64>, public: bool) -> Seq<u64>
    decreases syms.len(),
{
    if syms.len() == 0 {
        Seq::empty()
    } else {
        let rest = dead_ids_by_visibility(syms.drop_last(), reach, public);
        if !syms.last().test_only && !reach.contains(syms.last().id)
            && ((syms.last().visibility == Visibility::Public) == public) {
            rest.push(syms.last().id)
        } else {
            rest
        }
    }
}

/// True when some other dead symbol calls `x`.
pub open spec fn has_dead_caller(edges: Seq<Edge>, dead: Set<u64>, x: u64) -> bool {
    exists|j: int| 0 <= j < edges.len() && #[trigger] edges[j].target == x
        && edges[j].source != x && dead.contains(edges[j].source)
}

/// True when `f` carries the identity, name, location and visibility of a
/// registered symbol.
pub open spec fn finding_matches(syms: Seq<Symbol>, f: Finding) -> bool {
    exists|i: int| 0 <= i < syms.len() && #[trigger] syms[i].id == f.id
        && syms[i].name == f.name && syms[i].location == f.location
        && syms[i].visibility == f.visibility
}

/// The identities of a sequence of findings, in order.
pub open spec fn finding_ids(fs: Seq<Finding>) -> Seq<u64> {
    fs.map_values(|f: Finding| f.id)
}

/// All identities a report's groups mention, group by group, root first.
pub open spec fn group_ids(gs: Seq<DeadGroup>) -> Seq<u64>
    decreases gs.len(),
{
    if gs.len() == 0 {
        Seq::empty()
    } else {
        group_ids(gs.drop_last()) + seq![gs.last().root.id] + finding_ids(gs.last().members@)
    }
}

/// True when a group's root or one of its members bears identity `x`.
pub open spec fn group_mentions(g: DeadGroup, x: u64) -> bool {
    g.root.id == x || finding_ids(g.members@).contains(x)
}

/// Membership in the flattened group identities.
pub proof fn lemma_group_ids_membership(gs: Seq<DeadGroup>, x: u64)
    ensures
        group_ids(gs).contains(x)
            <==> exists|gi: int| 0 <= gi < gs.len() && group_mentions(#[trigger] gs[gi], x),
    decreases gs.len(),
{
    if gs.len() > 0 {
        lemma_group_ids_membership(gs.drop_last(), x);
        let rest = group_ids(gs.drop_last());
        let tail = seq![gs.last().root.id] + finding_ids(gs.last().members@);
        if group_ids(gs).contains(x) {
            let j = choose|j: int| 0 <= j < group_ids(gs).len() && group_ids(gs)[j] == x;
            if j < rest.len() {
                assert(rest[j] == x);
                let gi = choose|gi: int| 0 <= gi < gs.drop_last().len()
                    && group_mentions(#[trigger] gs.drop_last()[gi], x);
                assert(gs.drop_last()[gi] =~= gs[gi]);
                assert(group_mentions(gs[gi], x));
            } else {
                assert(tail[j - rest.len()] == x);
                if j - rest.len() > 0 {
                    assert(finding_ids(gs.last().members@)[j - rest.len() - 1] == x);
                    assert(finding_ids(gs.last().members@).contains(x));
                }
                assert(group_mentions(gs[gs.len() - 1], x));
            }
        }
        if exists|gi: int| 0 <= gi < gs.len() && group_mentions(#[trigger] gs[gi], x) {
            let gi = choose|gi: int| 0 <= gi < gs.len() && group_mentions(#[trigger] gs[gi], x);
            if gi < gs.len() - 1 {
                assert(gs.drop_last()[gi] =~= gs[gi]);
                assert(group_mentions(gs.drop_last()[gi], x));
                assert(rest.contains(x));
                let j = choose|j: int| 0 <= j < rest.len() && rest[j] == x;
                assert(group_ids(gs)[j] == x);
            } else {
                if gs[gi].root.id == x {
                    assert(gs.last() =~= gs[gi]);
                    assert(group_ids(gs)[rest.len() as int] == x);
                } else {
                    assert(gs.last() =~= gs[gi]);
                    let m = choose|m: int| 0 <= m < finding_ids(gs[gi].members@).len()
                        && finding_ids(gs[gi].members@)[m] == x;
                    assert(group_ids(gs)[rest.len() + 1 + m] == x);
                }
            }
        }
    }
}

/// With distinct flattened identities, only one group mentions `x`.
pub proof fn lemma_mention_unique(gs: Seq<DeadGroup>, x: u64, gi: int, gj: int)
    requires
        group_ids(gs).no_duplicates(),
        0 <= gi < gs.len(),
        0 <= gj < gs.len(),
        group_mentions(gs[gi], x),
        group_mentions(gs[gj], x),
    ensures
        gi == gj,
    decreases gs.len(),
{
    if gi != gj {
        let lo = if gi < gj { gi } else { gj };
        let hi = if gi < gj { gj } else { gi };
        let rest = group_ids(gs.drop_last());
        assert(group_ids(gs)
            =~= rest + seq![gs.last().root.id] + finding_ids(gs.last().members@));
        if hi < gs.len() - 1 {
            assert(rest.no_duplicates()) by {
                assert forall|p: int, q: int| 0 <= p < q < rest.len()
                    implies rest[p] != rest[q] by {
                    assert(group_ids(gs)[p] == rest[p]);
                    assert(group_ids(gs)[q] == rest[q]);
                }
            }
            assert(gs.drop_last()[lo] == gs[lo]);
            assert(gs.drop_last()[hi] == gs[hi]);
            lemma_mention_unique(gs.drop_last(), x, lo, hi);
        } else {
            // x sits in the last segment and, via the earlier mention, in
            // the prefix too: two positions with one value.
            lemma_group_ids_membership(gs.drop_last(), x);
            assert(gs.drop_last()[lo] == gs[lo]);
            assert(rest.contains(x));
            let p1 = choose|p1: int| 0 <= p1 < rest.len() && rest[p1] == x;
            assert(group_ids(gs)[p1] == x);
            let p2: int = if gs[hi].root.id == x {
                rest.len() as int
            } else {
                let m = choose|m: int| 0 <= m < finding_ids(gs[hi].members@).len()
                    && finding_ids(gs[hi].members@)[m] == x;
                rest.len() + 1 + m
            };
            assert(gs.last() == gs[hi]);
            assert(group_ids(gs)[p2] == x);
            assert(p1 < p2);
            assert(false);
        }
    }
}

/// True when `s` is closed under the edges that stay inside `dead`.
pub open spec fn dead_closed(edges: Seq<Edge>, dead: Set<u64>, s: Set<u64>) -> bool {
    forall|j: int| 0 <= j < edges.len()
        && s.contains((#[trigger] edges[j]).source)
        && dead.contains(edges[j].source) && dead.contains(edges[j].target)
        ==> s.contains(edges[j].target)
}

/// True when `b` is reachable from `a` along edges inside `dead`.
pub open spec fn reaches_within(edges: Seq<Edge>, dead: Set<u64>, a: u64, b: u64) -> bool {
    forall|s: Set<u64>| s.contains(a) && dead_closed(edges, dead, s) ==> s.contains(b)
}

/// Whatever a group's symbols reach inside the dead set is mentioned by
/// that group or an earlier one.
proof fn lemma_reached_in_prefix(edges: Seq<Edge>, dead: Set<u64>, gs: Seq<DeadGroup>, a: u64, ga: int, b: u64)
    requires
        forall|gi: int, j: int|
            #![trigger gs[gi], edges[j]]
            0 <= gi < gs.len() && 0 <= j < edges.len()
                && group_mentions(gs[gi], edges[j].source) && dead.contains(edges[j].target)
            ==> group_ids(gs.take(gi + 1)).contains(edges[j].target),
        0 <= ga < gs.len(),
        group_mentions(gs[ga], a),
        reaches_within(edges, dead, a, b),
    ensures
        group_ids(gs.take(ga + 1)).contains(b),
{
    let s = group_ids(gs.take(ga + 1)).to_set();
    assert(s.contains(a)) by {
        lemma_group_ids_membership(gs.take(ga + 1), a);
        assert(gs.take(ga + 1)[ga] == gs[ga]);
        assert(group_mentions(gs.take(ga + 1)[ga], a));
        assert(group_ids(gs.take(ga + 1)).contains(a));
    }
    assert(dead_closed(edges, dead, s)) by {
        assert forall|j: int|
            0 <= j < edges.len() && s.contains((#[trigger] edges[j]).source)
                && dead.contains(edges[j].source) && dead.contains(edges[j].target)
            implies s.contains(edges[j].target) by {
            assert(group_ids(gs.take(ga + 1)).contains(edges[j].source));
            lemma_group_ids_membership(gs.take(ga + 1), edges[j].source);
            let gi = choose|gi: int| 0 <= gi < gs.take(ga + 1).len()
                && group_mentions(#[trigger] gs.take(ga + 1)[gi], edges[j].source);
            assert(gs.take(ga + 1)[gi] == gs[gi]);
            assert(group_mentions(gs[gi], edges[j].source));
            assert(group_ids(gs.take(gi + 1)).contains(edges[j].target));
            lemma_group_ids_membership(gs.take(gi + 1), edges[j].target);
            let gg = choose|gg: int| 0 <= gg < gs.take(gi + 1).len()
                && group_mentions(#[trigger] gs.take(gi + 1)[gg], edges[j].target);
            assert(gs.take(gi + 1)[gg] == gs[gg]);
            lemma_group_ids_membership(gs.take(ga + 1), edges[j].target);
            assert(gs.take(ga + 1)[gg] == gs[gg]);
            assert(group_mentions(gs.take(ga + 1)[gg], edges[j].target));
            assert(group_ids(gs.take(ga + 1)).contains(edges[j].target));
        }
    }
    assert(s.contains(b));
}

/// A dead cycle collapses into one group: two dead symbols reachable
/// from each other inside the dead set are mentioned by the same group.
/// The hypotheses are exactly what `group_dead` ensures of its result.
pub proof fn lemma_cycle_same_group(
    edges: Seq<Edge>, dead: Set<u64>, gs: Seq<DeadGroup>,
    a: u64, b: u64, ga: int, gb: int,
)
    requires
        group_ids(gs).no_duplicates(),
        forall|gi: int, j: int|
            #![trigger gs[gi], edges[j]]
            0 <= gi < gs.len() && 0 <= j < edges.len()
                && group_mentions(gs[gi], edges[j].source) && dead.contains(edges[j].target)
            ==> group_ids(gs.take(gi + 1)).contains(edges[j].target),
        0 <= ga < gs.len(),
        group_mentions(gs[ga], a),
        0 <= gb < gs.len(),
        group_mentions(gs[gb], b),
        reaches_within(edges, dead, a, b),
        reaches_within(edges, dead, b, a),
    ensures
        ga == gb,
{
    lemma_reached_in_prefix(edges, dead, gs, a, ga, b);
    lemma_group_ids_membership(gs.take(ga + 1), b);
    let g1 = choose|g1: int| 0 <= g1 < gs.take(ga + 1).len()
        && group_mentions(#[trigger] gs.take(ga + 1)[g1], b);
    assert(gs.take(ga + 1)[g1] == gs[g1]);
    lemma_mention_unique(gs, b, g1, gb);
    assert(gb <= ga);
    lemma_reached_in_prefix(edges, dead, gs, b, gb, a);
    lemma_group_ids_membership(gs.take(gb + 1), a);
    let g2 = choose|g2: int| 0 <= g2 < gs.take(gb + 1).len()
        && group_mentions(#[trigger] gs.take(gb + 1)[g2], a);
    assert(gs.take(gb + 1)[g2] == gs[g2]);
    lemma_mention_unique(gs, a, g2, ga);
    assert(ga <= gb);
}

/// A sequence of distinct values drawn from another sequence is no longer
/// than that sequence.
proof fn lemma_distinct_within(sub: Seq<u64>, sup: Seq<u64>)
    requires
        sub.no_duplicates(),
        forall|i: int| 0 <= i < sub.len() ==> sup.contains(#[trigger] sub[i]),
    ensures
        sub.len() <= sup.len(),
{
    broadcast use seq_to_set_is_finite;
    sub.unique_seq_to_set();
    assert(sub.to_set().subset_of(sup.to_set())) by {
        assert forall|x: u64| sub.to_set().contains(x) implies sup.to_set().contains(x) by {
            assert(sub.contains(x));
        }
    }
    lemma_len_subset(sub.to_set(), sup.to_set());
    sup.lemma_cardinality_of_set();
}

/// The dead production symbols, in table order.
pub fn collect_dead(table: &SymbolTable, reachable: &Vec<u64>) -> (r: Vec<u64>)
    ensures
        r@ =~= dead_ids(table@, reachable@.to_set()),
{
    let ghost rset = reachable@.to_set();
    let n = table.len();
    let mut out: Vec<u64> = Vec::new();
    let mut i: usize = 0;
    while i < n
        invariant
            n == table@.len(),
            0 <= i <= n,
            rset == reachable@.to_set(),
            out@ =~= dead_ids(table@.take(i as int), rset),
        decreases n - i,
    {
        let s = table.symbol_at(i);
        proof {
            assert(table@.take(i as int + 1).drop_last() =~= table@.take(i as int));
            assert(table@.take(i as int + 1).last() == table@[i as int]);
        }
        if !s.test_only && !contains_id(reachable, s.id) {
            proof {
                if reachable@.contains(s.id) {
                    assert(rset.contains(s.id));
                }
                if rset.contains(s.id) {
                    assert(reachable@.contains(s.id));
                }
            }
            out.push(s.id);
        } else {
            proof {
                if reachable@.contains(s.id) {
                    assert(rset.contains(s.id));
                }
            }
        }
        i += 1;
    }
    proof {
        assert(table@.take(n as int) =~= table@);
    }
    out
}

/// The dead production symbols of one visibility class, in table order.
pub fn collect_dead_by_visibility(table: &SymbolTable, reachable: &Vec<u64>, public: bool) -> (r: Vec<u64>)
    ensures
        r@ =~= dead_ids_by_visibility(table@, reachable@.to_set(), public),
{
    let ghost rset = reachable@.to_set();
    let n = table.len();
    let mut out: Vec<u64> = Vec::new();
    let mut i: usize = 0;
    while i < n
        invariant
            n == table@.len(),
            0 <= i <= n,
            rset == reachable@.to_set(),
            out@ =~= dead_ids_by_visibility(table@.take(i as int), rset, public),
        decreases n - i,
    {
        let s = table.symbol_at(i);
        proof {
            assert(table@.take(i as int + 1).drop_last() =~= table@.take(i as int));
            assert(table@.take(i as int + 1).last() == table@[i as int]);
            if reachable@.contains(s.id) {
                assert(rset.contains(s.id));
            }
            if rset.contains(s.id) {
                assert(reachable@.contains(s.id));
            }
        }
        if !s.test_only && !contains_id(reachable, s.id)
            && ((s.visibility == Visibility::Public) == public) {
            out.push(s.id);
        }
        i += 1;
    }
    proof {
        assert(table@.take(n as int) =~= table@);
    }
    out
}

/// True when some other dead symbol calls `x`.
fn dead_caller_exists(edges: &Vec<Edge>, dead: &Vec<u64>, x: u64) -> (r: bool)
    ensures
        r == has_dead_caller(edges@, dead@.to_set(), x),
{
    let n = edges.len();
    let mut j: usize = 0;
    while j < n
        invariant
            n == edges@.len(),
            0 <= j <= n,
            forall|k: int| 0 <= k < j
                ==> !(#[trigger] edges@[k].target == x && edges@[k].source != x
                    && dead@.to_set().contains(edges@[k].source)),
        decreases n - j,
    {
        let e = edges[j];
        if e.target == x && e.source != x && contains_id(dead, e.source) {
            proof {
                assert(dead@.to_set().contains(e.source));
            }
            return true;
        }
        proof {
            if dead@.to_set().contains(edges@[j as int].source) {
                assert(dead@.contains(edges@[j as int].source));
            }
        }
        j += 1;
    }
    false
}

/// Builds the finding for a dead symbol.
fn make_finding(table: &SymbolTable, id: u64, class: DeadClass) -> (r: Finding)
    requires
        has_id(table@, id),
    ensures
        r.id == id,
        r.classification == class,
        finding_matches(table@, r),
{
    match table.lookup(id) {
        Some(s) => {
            let f = Finding {
                id,
                name: s.name,
                location: s.location,
                visibility: s.visibility,
                classification: class,
            };
            proof {
                let i = choose|i: int| 0 <= i < table@.len() && table@[i] == s;
                assert(table@[i].id == f.id && table@[i].name == f.name
                    && table@[i].location == f.location && table@[i].visibility == f.visibility);
            }
            f
        },
        None => vstd::pervasive::unreached(),
    }
}

/// Groups the dead production symbols.
///
/// Every dead symbol appears in exactly one group, exactly once. Group
/// roots are classified unreachable-root, members transitively dead, and
/// every member really does have a dead caller; consequently a dead symbol
/// without one — the root of an unreachable chain — is always the root of
/// its group. Groups are seeded in table order, structural roots first,
/// then remaining cycles by lowest identity; members are collected along
/// edges in edge order, so the whole report is deterministic in the
/// inputs.
pub fn group_dead(table: &SymbolTable, edges: &Vec<Edge>, reachable: &Vec<u64>) -> (r: Vec<DeadGroup>)
    requires
        table.wf(),
    ensures
        group_ids(r@).no_duplicates(),
        group_ids(r@).to_set() =~= dead_ids(table@, reachable@.to_set()).to_set(),
        forall|gi: int| 0 <= gi < r@.len()
            ==> (#[trigger] r@[gi].root).classification == DeadClass::UnreachableRoot
                && finding_matches(table@, r@[gi].root),
        forall|gi: int, mi: int|
            #![trigger r@[gi].members@[mi]]
            0 <= gi < r@.len() && 0 <= mi < r@[gi].members@.len()
            ==> r@[gi].members@[mi].classification == DeadClass::TransitivelyDead
                && finding_matches(table@, r@[gi].members@[mi])
                && has_dead_caller(
                    edges@,
                    dead_ids(table@, reachable@.to_set()).to_set(),
                    r@[gi].members@[mi].id,
                ),
        forall|d: u64|
            dead_ids(table@, reachable@.to_set()).to_set().contains(d)
                && !has_dead_caller(edges@, dead_ids(table@, reachable@.to_set()).to_set(), d)
            ==> exists|gi: int| 0 <= gi < r@.len() && (#[trigger] r@[gi].root).id == d,
        // Tie-break: a group's root is a chain root, or — for a rootless
        // cycle — the member with the lowest identity.
        forall|gi: int| 0 <= gi < r@.len()
            ==> !has_dead_caller(edges@, dead_ids(table@, reachable@.to_set()).to_set(), (#[trigger] r@[gi]).root.id)
                || (forall|mi: int| 0 <= mi < r@[gi].members@.len()
                    ==> r@[gi].root.id < (#[trigger] r@[gi].members@[mi]).id),
        // Prefix closure: a dead symbol called from a group is mentioned
        // by that group or an earlier one; hence a dead cycle collapses
        // into a single group.
        forall|gi: int, j: int|
            #![trigger r@[gi], edges@[j]]
            0 <= gi < r@.len() && 0 <= j < edges@.len()
                && group_mentions(r@[gi], edges@[j].source)
                && dead_ids(table@, reachable@.to_set()).to_set().contains(edges@[j].target)
            ==> group_ids(r@.take(gi + 1)).contains(edges@[j].target),
{
    let dead = collect_dead(table, reachable);
    let ghost dset = dead@.to_set();
    proof {
        lemma_dead_ids_have_id(table@, reachable@.to_set());
        lemma_dead_ids_distinct(table@, reachable@.to_set());
    }
    let nedges = edges.len();
    let ndead = dead.len();

    let mut groups: Vec<DeadGroup> = Vec::new();
    let mut assigned: Vec<u64> = Vec::new();
    while assigned.len() < ndead
        invariant
            table.wf(),
            ndead == dead@.len(),
            nedges == edges@.len(),
            dset == dead@.to_set(),
            dead@ =~= dead_ids(table@, reachable@.to_set()),
            dead@.no_duplicates(),
            forall|k: int| 0 <= k < dead@.len() ==> has_id(table@, #[trigger] dead@[k]),
            assigned@.no_duplicates(),
            assigned@.len() <= ndead,
            forall|k: int| 0 <= k < assigned@.len() ==> dead@.contains(#[trigger] assigned@[k]),
            assigned@ =~= group_ids(groups@),
            forall|gi: int| 0 <= gi < groups@.len()
                ==> (#[trigger] groups@[gi].root).classification == DeadClass::UnreachableRoot
                    && finding_matches(table@, groups@[gi].root),
            forall|gi: int, mi: int|
                #![trigger groups@[gi].members@[mi]]
                0 <= gi < groups@.len() && 0 <= mi < groups@[gi].members@.len()
                ==> groups@[gi].members@[mi].classification == DeadClass::TransitivelyDead
                    && finding_matches(table@, groups@[gi].members@[mi])
                    && has_dead_caller(edges@, dset, groups@[gi].members@[mi].id),
            forall|gi: int| 0 <= gi < groups@.len()
                ==> !has_dead_caller(edges@, dset, (#[trigger] groups@[gi]).root.id)
                    || (forall|mi: int| 0 <= mi < groups@[gi].members@.len()
                        ==> groups@[gi].root.id < (#[trigger] groups@[gi].members@[mi]).id),
            forall|gi: int, j: int|
                #![trigger groups@[gi], edges@[j]]
                0 <= gi < groups@.len() && 0 <= j < edges@.len()
                    && group_mentions(groups@[gi], edges@[j].source)
                    && dset.contains(edges@[j].target)
                ==> group_ids(groups@.take(gi + 1)).contains(edges@[j].target),
        decreases ndead - assigned.len(),
    {
        proof {
            lemma_distinct_within(assigned@, dead@);
            if forall|k: int| 0 <= k < dead@.len() ==> assigned@.contains(#[trigger] dead@[k]) {
                lemma_distinct_within(dead@, assigned@);
            }
        }
        // Seed selection: the first unassigned structural root in table
        // order, else the unassigned symbol with the lowest identity.
        let mut seed: u64 = 0;
        let mut found: bool = false;
        let mut di: usize = 0;
        while di < ndead
            invariant
                ndead == dead@.len(),
                nedges == edges@.len(),
                dset == dead@.to_set(),
                0 <= di <= ndead,
                found ==> dead@.contains(seed) && !assigned@.contains(seed)
                    && !has_dead_caller(edges@, dset, seed),
                !found ==> forall|k: int| 0 <= k < di
                    ==> !(!assigned@.contains(#[trigger] dead@[k])
                        && !has_dead_caller(edges@, dset, dead@[k])),
            decreases ndead - di,
        {
            let d = dead[di];
            if !contains_id(&assigned, d) && !dead_caller_exists(edges, &dead, d) {
                seed = d;
                found = true;
                proof {
                    assert(dead@.contains(dead@[di as int]));
                }
                break;
            }
            di += 1;
        }
        if !found {
            let mut best: u64 = 0;
            let mut have: bool = false;
            let mut k: usize = 0;
            while k < ndead
                invariant
                    ndead == dead@.len(),
                    0 <= k <= ndead,
                    have ==> dead@.contains(best) && !assigned@.contains(best),
                    forall|m: int| 0 <= m < k && !assigned@.contains(#[trigger] dead@[m])
                        ==> have && best <= dead@[m],
                decreases ndead - k,
            {
                let d = dead[k];
                if !contains_id(&assigned, d) && (!have || d < best) {
                    best = d;
                    have = true;
                    proof {
                        assert(dead@.contains(dead@[k as int]));
                    }
                }
                k += 1;
            }
            proof {
                if !have {
                    assert forall|m: int| 0 <= m < dead@.len()
                        implies assigned@.contains(#[trigger] dead@[m]) by {}
                    lemma_distinct_within(dead@, assigned@);
                    assert(false);
                }
            }
            seed = best;
        }
        let ghost seed_structural = found;
        proof {
            if !seed_structural {
                assert forall|d: u64| dead@.contains(d) && !assigned@.contains(d)
                    implies seed <= d by {
                    let m = choose|m: int| 0 <= m < dead@.len() && dead@[m] == d;
                }
            }
        }
        // Collect the group: a worklist traversal within the dead set.
        let root_finding = make_finding(table, seed, DeadClass::UnreachableRoot);
        let mut members: Vec<Finding> = Vec::new();
        let mut work: Vec<u64> = Vec::new();
        work.push(seed);
        assigned.push(seed);
        proof {
            assert(assigned@.drop_last() =~= group_ids(groups@));
            assert(assigned@.no_duplicates());
        }
        let ghost base = group_ids(groups@);
        let mut done: usize = 0;
        while done < work.len()
            invariant
                table.wf(),
                ndead == dead@.len(),
                nedges == edges@.len(),
                dset == dead@.to_set(),
                dead@ =~= dead_ids(table@, reachable@.to_set()),
                dead@.no_duplicates(),
                forall|k: int| 0 <= k < dead@.len() ==> has_id(table@, #[trigger] dead@[k]),
                0 <= done <= work@.len(),
                work@.len() >= 1,
                work@[0] == seed,
                work@ =~= seq![seed] + finding_ids(members@),
                assigned@ =~= base + work@,
                assigned@.no_duplicates(),
                forall|k: int| 0 <= k < assigned@.len() ==> dead@.contains(#[trigger] assigned@[k]),
                forall|mi: int| 0 <= mi < members@.len()
                    ==> (#[trigger] members@[mi]).classification == DeadClass::TransitivelyDead
                        && finding_matches(table@, members@[mi])
                        && has_dead_caller(edges@, dset, members@[mi].id),
                seed_structural ==> !has_dead_caller(edges@, dset, seed),
                !seed_structural ==> forall|d: u64| dead@.contains(d) && !assigned@.contains(d)
                    ==> seed <= d,
                !seed_structural ==> forall|mi: int| 0 <= mi < members@.len()
                    ==> seed < (#[trigger] members@[mi]).id,
                forall|k: int, j: int|
                    #![trigger work@[k], edges@[j]]
                    0 <= k < done && 0 <= j < edges@.len()
                        && edges@[j].source == work@[k] && dset.contains(edges@[j].target)
                    ==> assigned@.contains(edges@[j].target),
            decreases ndead - done,
        {
            proof {
                assert forall|k: int| 0 <= k < work@.len()
                    implies dead@.contains(#[trigger] work@[k]) by {
                    assert(work@[k] == assigned@[base.len() + k]);
                }
                assert(work@.no_duplicates()) by {
                    assert forall|a: int, b: int| 0 <= a < b < work@.len()
                        implies work@[a] != work@[b] by {
                        assert(work@[a] == assigned@[base.len() + a]);
                        assert(work@[b] == assigned@[base.len() + b]);
                    }
                }
                lemma_distinct_within(work@, dead@);
                assert(dead@.contains(work@[done as int])) by {
                    assert(work@[done as int] == assigned@[base.len() + done]);
                }
            }
            let cur = work[done];
            let mut j: usize = 0;
            while j < nedges
                invariant
                    table.wf(),
                    ndead == dead@.len(),
                    nedges == edges@.len(),
                    dset == dead@.to_set(),
                    dead@.no_duplicates(),
                    forall|k: int| 0 <= k < dead@.len() ==> has_id(table@, #[trigger] dead@[k]),
                    0 <= done < work@.len(),
                    0 <= j <= nedges,
                    work@[0] == seed,
                    cur == work@[done as int],
                    dead@.contains(cur),
                    work@ =~= seq![seed] + finding_ids(members@),
                    assigned@ =~= base + work@,
                    assigned@.no_duplicates(),
                    forall|k: int| 0 <= k < assigned@.len() ==> dead@.contains(#[trigger] assigned@[k]),
                    forall|mi: int| 0 <= mi < members@.len()
                        ==> (#[trigger] members@[mi]).classification == DeadClass::TransitivelyDead
                            && finding_matches(table@, members@[mi])
                            && has_dead_caller(edges@, dset, members@[mi].id),
                    !seed_structural ==> forall|d: u64| dead@.contains(d) && !assigned@.contains(d)
                        ==> seed <= d,
                    !seed_structural ==> forall|mi: int| 0 <= mi < members@.len()
                        ==> seed < (#[trigger] members@[mi]).id,
                    forall|k: int, jj: int|
                        #![trigger work@[k], edges@[jj]]
                        0 <= k < done && 0 <= jj < edges@.len()
                            && edges@[jj].source == work@[k] && dset.contains(edges@[jj].target)
                        ==> assigned@.contains(edges@[jj].target),
                    forall|jj: int| 0 <= jj < j
                        && (#[trigger] edges@[jj]).source == cur && dset.contains(edges@[jj].target)
                        ==> assigned@.contains(edges@[jj].target),
                decreases nedges - j,
            {
                let e = edges[j];
                if e.source == cur && contains_id(&dead, e.target) && !contains_id(&assigned, e.target) {
                    proof {
                        // The discovered member has a dead caller: `cur` is
                        // dead, assigned, and distinct from the target.
                        assert(assigned@.contains(cur)) by {
                            assert(assigned@[base.len() + done] == cur);
                        }
                        assert(e.source != e.target);
                        assert(dset.contains(e.source)) by {
                            assert(dead@.contains(cur));
                        }
                        assert(has_dead_caller(edges@, dset, e.target)) by {
                            assert(edges@[j as int].target == e.target
                                && edges@[j as int].source != e.target
                                && dset.contains(edges@[j as int].source));
                        }
                    }
                    proof {
                        if !seed_structural {
                            // The new member was unassigned, so it lies at
                            // or above the seed, and differs from it.
                            assert(dead@.contains(e.target));
                            assert(seed <= e.target);
                            assert(assigned@.contains(seed)) by {
                                assert(assigned@[base.len() as int] == seed);
                            }
                            assert(seed < e.target);
                        }
                    }
                    let f = make_finding(table, e.target, DeadClass::TransitivelyDead);
                    let ghost old_work = work@;
                    let ghost old_members = members@;
                    let ghost old_assigned = assigned@;
                    work.push(e.target);
                    members.push(f);
                    assigned.push(e.target);
                    proof {
                        assert(finding_ids(members@) =~= finding_ids(old_members).push(e.target));
                        assert(work@ =~= seq![seed] + finding_ids(members@));
                        assert(assigned@ =~= base + work@);
                        assert(assigned@.drop_last() =~= old_assigned);
                        assert(assigned@.no_duplicates());
                        assert forall|k: int| 0 <= k < work@.len()
                            implies dead@.contains(#[trigger] work@[k]) by {
                            assert(work@[k] == assigned@[base.len() + k]);
                        }
                        assert forall|y: u64| old_assigned.contains(y)
                            implies assigned@.contains(y) by {
                            let m = choose|m: int| 0 <= m < old_assigned.len()
                                && old_assigned[m] == y;
                            assert(assigned@[m] == y);
                        }
                        assert(assigned@.contains(e.target)) by {
                            assert(assigned@[assigned@.len() - 1] == e.target);
                        }
                    }
                } else {
                    proof {
                        if edges@[j as int].source == cur && dset.contains(edges@[j as int].target) {
                            assert(dead@.contains(e.target));
                            assert(assigned@.contains(e.target));
                        }
                    }
                }
                j += 1;
            }
            done += 1;
        }
        let ghost old_groups = groups@;
        groups.push(DeadGroup { root: root_finding, members });
        proof {
            assert(groups@.drop_last() =~= old_groups);
            assert(group_ids(groups@) =~= group_ids(old_groups) + seq![seed]
                + finding_ids(groups@.last().members@));
            assert(assigned@ =~= group_ids(groups@));
            assert forall|gi: int, mi: int|
                #![trigger groups@[gi].members@[mi]]
                0 <= gi < groups@.len() && 0 <= mi < groups@[gi].members@.len()
                implies groups@[gi].members@[mi].classification == DeadClass::TransitivelyDead
                    && finding_matches(table@, groups@[gi].members@[mi])
                    && has_dead_caller(edges@, dset, groups@[gi].members@[mi].id) by {
                if gi < old_groups.len() {
                    assert(old_groups[gi].members@[mi] == groups@[gi].members@[mi]);
                }
            }
            // Tie-break carried to the new group: a structural seed has no
            // dead caller; a cycle seed lies below every member.
            assert forall|gi: int| 0 <= gi < groups@.len()
                implies !has_dead_caller(edges@, dset, (#[trigger] groups@[gi]).root.id)
                    || (forall|mi: int| 0 <= mi < groups@[gi].members@.len()
                        ==> groups@[gi].root.id < (#[trigger] groups@[gi].members@[mi]).id) by {
                if gi < old_groups.len() {
                    assert(groups@[gi] == old_groups[gi]);
                } else {
                    assert(groups@[gi].root.id == seed);
                    if !seed_structural {
                        assert forall|mi: int| 0 <= mi < groups@[gi].members@.len()
                            implies groups@[gi].root.id
                                < (#[trigger] groups@[gi].members@[mi]).id by {
                            assert(groups@[gi].members@[mi] == members@[mi]);
                        }
                    }
                }
            }
            // Prefix closure carried forward: the finished group's dead
            // successors all sit in the assigned set, which is exactly the
            // identities of the groups so far.
            assert forall|gi: int, j: int|
                #![trigger groups@[gi], edges@[j]]
                0 <= gi < groups@.len() && 0 <= j < edges@.len()
                    && group_mentions(groups@[gi], edges@[j].source)
                    && dset.contains(edges@[j].target)
                implies group_ids(groups@.take(gi + 1)).contains(edges@[j].target) by {
                if gi < old_groups.len() {
                    assert(groups@[gi] == old_groups[gi]);
                    assert(group_mentions(old_groups[gi], edges@[j].source));
                    assert(groups@.take(gi + 1) =~= old_groups.take(gi + 1));
                    assert(group_ids(groups@.take(gi + 1))
                        == group_ids(old_groups.take(gi + 1)));
                } else {
                    // The source is the seed or a member, hence in the
                    // worklist; the traversal finished, so the target was
                    // assigned.
                    let src = edges@[j].source;
                    assert(work@.contains(src)) by {
                        if groups@[gi].root.id == src {
                            assert(work@[0] == src);
                        } else {
                            let m = choose|m: int|
                                0 <= m < finding_ids(groups@[gi].members@).len()
                                    && finding_ids(groups@[gi].members@)[m] == src;
                            assert(work@[1 + m] == src);
                        }
                    }
                    let k = choose|k: int| 0 <= k < work@.len() && work@[k] == src;
                    assert(assigned@.contains(edges@[j].target));
                    assert(groups@.take(gi + 1) =~= groups@);
                    assert(group_ids(groups@.take(gi + 1)) == group_ids(groups@));
                }
            }
            lemma_distinct_within(assigned@, dead@);
        }
    }
    proof {
        // All dead symbols are assigned, so the groups cover the dead set.
        broadcast use seq_to_set_is_finite;
        assert forall|d: u64| dset.contains(d) implies group_ids(groups@).to_set().contains(d) by {
            assert(dead@.contains(d));
            if !assigned@.contains(d) {
                assert(assigned@.to_set().subset_of(dset.remove(d))) by {
                    assert forall|y: u64| assigned@.to_set().contains(y)
                        implies dset.remove(d).contains(y) by {
                        assert(assigned@.contains(y));
                        let k = choose|k: int| 0 <= k < assigned@.len() && assigned@[k] == y;
                        assert(dead@.contains(assigned@[k]));
                    }
                }
                lemma_len_subset(assigned@.to_set(), dset.remove(d));
                assigned@.unique_seq_to_set();
                dead@.unique_seq_to_set();
                assert(dset.remove(d).len() == dset.len() - 1);
                assert(false);
            }
            assert(group_ids(groups@).contains(d));
        }
        assert forall|d: u64| group_ids(groups@).to_set().contains(d) implies dset.contains(d) by {
            assert(assigned@.contains(d));
            let k = choose|k: int| 0 <= k < assigned@.len() && assigned@[k] == d;
            assert(dead@.contains(assigned@[k]));
        }
        // A structural root can never be a member, so it roots its group.
        assert forall|d: u64| dset.contains(d) && !has_dead_caller(edges@, dset, d)
            implies exists|gi: int| 0 <= gi < groups@.len() && (#[trigger] groups@[gi].root).id == d by {
            assert(group_ids(groups@).to_set().contains(d));
            lemma_group_ids_membership(groups@, d);
            let gi = choose|gi: int| 0 <= gi < groups@.len()
                && group_mentions(#[trigger] groups@[gi], d);
            if groups@[gi].root.id != d {
                let mi = choose|mi: int| 0 <= mi < finding_ids(groups@[gi].members@).len()
                    && finding_ids(groups@[gi].members@)[mi] == d;
                assert(groups@[gi].members@[mi].id == d);
                assert(has_dead_caller(edges@, dset, d));
            }
        }
    }
    groups
}

/// Every dead identity belongs to a registered symbol.
proof fn lemma_dead_ids_have_id(syms: Seq<Symbol>, reach: Set<u64>)
    ensures
        forall|k: int| 0 <= k < dead_ids(syms, reach).len()
            ==> has_id(syms, #[trigger] dead_ids(syms, reach)[k]),
    decreases syms.len(),
{
    if syms.len() > 0 {
        lemma_dead_ids_have_id(syms.drop_last(), reach);
        let rest = dead_ids(syms.drop_last(), reach);
        assert forall|k: int| 0 <= k < dead_ids(syms, reach).len()
            implies has_id(syms, #[trigger] dead_ids(syms, reach)[k]) by {
            if k < rest.len() {
                assert(has_id(syms.drop_last(), rest[k]));
                let i = choose|i: int| 0 <= i < syms.drop_last().len()
                    && syms.drop_last()[i].id == rest[k];
                assert(syms[i].id == rest[k]);
            } else {
                assert(syms[syms.len() - 1].id == dead_ids(syms, reach)[k]);
            }
        }
    }
}

/// With distinct table identities, the dead identities are distinct.
proof fn lemma_dead_ids_distinct(syms: Seq<Symbol>, reach: Set<u64>)
    requires
        crate::symbols::unique_ids(syms),
    ensures
        dead_ids(syms, reach).no_duplicates(),
        forall|x: u64| dead_ids(syms, reach).contains(x)
            ==> has_id(syms, x) && !reach.contains(x),
    decreases syms.len(),
{
    if syms.len() > 0 {
        assert(crate::symbols::unique_ids(syms.drop_last()));
        lemma_dead_ids_distinct(syms.drop_last(), reach);
        let rest = dead_ids(syms.drop_last(), reach);
        assert forall|x: u64| dead_ids(syms, reach).contains(x)
            implies has_id(syms, x) && !reach.contains(x) by {
            let k = choose|k: int| 0 <= k < dead_ids(syms, reach).len()
                && dead_ids(syms, reach)[k] == x;
            if k < rest.len() {
                assert(rest[k] == x);
                assert(rest.contains(x));
                assert(has_id(syms.drop_last(), x) && !reach.contains(x));
                let i = choose|i: int| 0 <= i < syms.drop_last().len()
                    && syms.drop_last()[i].id == x;
                assert(syms.drop_last()[i] == syms[i]);
                assert(syms[i].id == x);
            } else {
                assert(x == syms.last().id);
                assert(syms[syms.len() - 1].id == x);
            }
        }
        if !syms.last().test_only && !reach.contains(syms.last().id) {
            if rest.contains(syms.last().id) {
                let i = choose|i: int| 0 <= i < syms.drop_last().len()
                    && syms.drop_last()[i].id == syms.last().id;
                assert(syms[i].id == syms[syms.len() - 1].id);
                assert(false);
            }
            assert(dead_ids(syms, reach) =~= rest.push(syms.last().id));
            assert(dead_ids(syms, reach).drop_last() =~= rest);
        }
    }
}

} // verus!
