//! The reachability engine: the transitive closure of the call graph from
//! the root set, characterized as the least set that contains the roots and
//! is closed under the edges.
//!
//! The characterization pins the result down uniquely, so two runs over the
//! same roots and edges yield the same set, and growing the graph or the
//! root set can only grow the result.

use vstd::prelude::*;
use vstd::seq_lib::*;
use vstd::set_lib::lemma_len_subset;
use crate::callgraph::{Edge, edges_well_formed};
use crate::symbols::{Symbol, SymbolTable, has_id, unique_ids};

verus! {

/// True when `s` contains every root.
pub open spec fn covers_roots(roots: Seq<u64>, s: Set<u64>) -> bool {
    forall|i: int| 0 <= i < roots.len() ==> s.contains(#[trigger] roots[i])
}

/// True when `s` is closed under the edges: following any edge out of `s`
/// stays in `s`.
pub open spec fn closed_under(edges: Seq<Edge>, s: Set<u64>) -> bool {
    forall|i: int| 0 <= i < edges.len() && s.contains(#[trigger] edges[i].source)
        ==> s.contains(edges[i].target)
}

/// True when `x` lies in every set that covers the roots and is closed
/// under the edges — that is, `x` is reachable from the roots.
pub open spec fn reaches(roots: Seq<u64>, edges: Seq<Edge>, x: u64) -> bool {
    forall|s: Set<u64>| covers_roots(roots, s) && closed_under(edges, s) ==> s.contains(x)
}

/// True when `r` is the reachable set: it covers the roots, is closed
/// under the edges, and holds nothing more than what those two demands
/// force. These three clauses determine `r` uniquely.
pub open spec fn is_reachable_set(roots: Seq<u64>, edges: Seq<Edge>, r: Set<u64>) -> bool {
    &&& covers_roots(roots, r)
    &&& closed_under(edges, r)
    &&& forall|x: u64| r.contains(x) ==> reaches(roots, edges, x)
}

/// Closure property: for every edge whose source is reachable, the target
/// is reachable as well.
pub proof fn lemma_closure_property(roots: Seq<u64>, edges: Seq<Edge>, r: Set<u64>, i: int)
    requires
        is_reachable_set(roots, edges, r),
        0 <= i < edges.len(),
        r.contains(edges[i].source),
    ensures
        r.contains(edges[i].target),
{
}

/// Root inclusion: every root is reachable.
pub proof fn lemma_root_inclusion(roots: Seq<u64>, edges: Seq<Edge>, r: Set<u64>, i: int)
    requires
        is_reachable_set(roots, edges, r),
        0 <= i < roots.len(),
    ensures
        r.contains(roots[i]),
{
}

/// The reachable set is unique: any two sets satisfying the
/// characterization over the same roots and edges are equal. Hence the
/// engine is deterministic in its result, whatever order it visits in.
pub proof fn lemma_reachable_set_unique(roots: Seq<u64>, edges: Seq<Edge>, r1: Set<u64>, r2: Set<u64>)
    requires
        is_reachable_set(roots, edges, r1),
        is_reachable_set(roots, edges, r2),
    ensures
        r1 =~= r2,
{
    assert forall|x: u64| r1.contains(x) implies r2.contains(x) by {
        assert(reaches(roots, edges, x));
    }
    assert forall|x: u64| r2.contains(x) implies r1.contains(x) by {
        assert(reaches(roots, edges, x));
    }
}

/// Monotonicity: enlarging the root set or the edge set (in any order,
/// with any additions) never removes a symbol from the reachable set.
pub proof fn lemma_reachable_monotone(
    roots1: Seq<u64>, edges1: Seq<Edge>, r1: Set<u64>,
    roots2: Seq<u64>, edges2: Seq<Edge>, r2: Set<u64>,
)
    requires
        is_reachable_set(roots1, edges1, r1),
        is_reachable_set(roots2, edges2, r2),
        forall|i: int| 0 <= i < roots1.len() ==> roots2.contains(#[trigger] roots1[i]),
        forall|i: int| 0 <= i < edges1.len() ==> edges2.contains(#[trigger] edges1[i]),
    ensures
        r1.subset_of(r2),
{
    assert(covers_roots(roots1, r2)) by {
        assert forall|i: int| 0 <= i < roots1.len() implies r2.contains(#[trigger] roots1[i]) by {
            let j = choose|j: int| 0 <= j < roots2.len() && roots2[j] == roots1[i];
            assert(r2.contains(roots2[j]));
        }
    }
    assert(closed_under(edges1, r2)) by {
        assert forall|i: int| 0 <= i < edges1.len() && r2.contains(#[trigger] edges1[i].source)
            implies r2.contains(edges1[i].target) by {
            let j = choose|j: int| 0 <= j < edges2.len() && edges2[j] == edges1[i];
            assert(r2.contains(edges2[j].source));
        }
    }
    assert forall|x: u64| r1.contains(x) implies r2.contains(x) by {
        assert(reaches(roots1, edges1, x));
    }
}

/// Adding one edge never shrinks the reachable set.
pub proof fn lemma_monotone_add_edge(
    roots: Seq<u64>, edges: Seq<Edge>, e: Edge, r1: Set<u64>, r2: Set<u64>,
)
    requires
        is_reachable_set(roots, edges, r1),
        is_reachable_set(roots, edges.push(e), r2),
    ensures
        r1.subset_of(r2),
{
    assert forall|i: int| 0 <= i < edges.len() implies edges.push(e).contains(#[trigger] edges[i]) by {
        assert(edges.push(e)[i] == edges[i]);
    }
    assert forall|i: int| 0 <= i < roots.len() implies roots.contains(#[trigger] roots[i]) by {}
    lemma_reachable_monotone(roots, edges, r1, roots, edges.push(e), r2);
}

/// Adding one root never shrinks the reachable set.
pub proof fn lemma_monotone_add_root(
    roots: Seq<u64>, edges: Seq<Edge>, x: u64, r1: Set<u64>, r2: Set<u64>,
)
    requires
        is_reachable_set(roots, edges, r1),
        is_reachable_set(roots.push(x), edges, r2),
    ensures
        r1.subset_of(r2),
{
    assert forall|i: int| 0 <= i < roots.len() implies roots.push(x).contains(#[trigger] roots[i]) by {
        assert(roots.push(x)[i] == roots[i]);
    }
    assert forall|i: int| 0 <= i < edges.len() implies edges.contains(#[trigger] edges[i]) by {}
    lemma_reachable_monotone(roots, edges, r1, roots.push(x), edges, r2);
}

/// The identities of a symbol sequence, in order.
pub open spec fn id_seq(syms: Seq<Symbol>) -> Seq<u64> {
    syms.map_values(|s: Symbol| s.id)
}

/// A sequence of distinct identities drawn from the table is no longer
/// than the table itself.
pub proof fn lemma_distinct_ids_bounded(syms: Seq<Symbol>, ids: Seq<u64>)
    requires
        unique_ids(syms),
        ids.no_duplicates(),
        forall|i: int| 0 <= i < ids.len() ==> has_id(syms, #[trigger] ids[i]),
    ensures
        ids.len() <= syms.len(),
{
    broadcast use seq_to_set_is_finite;
    ids.unique_seq_to_set();
    assert(ids.to_set().subset_of(id_seq(syms).to_set())) by {
        assert forall|x: u64| ids.to_set().contains(x) implies id_seq(syms).to_set().contains(x) by {
            let i = choose|i: int| 0 <= i < syms.len() && syms[i].id == x;
            assert(id_seq(syms)[i] == x);
        }
    }
    lemma_len_subset(ids.to_set(), id_seq(syms).to_set());
    id_seq(syms).lemma_cardinality_of_set();
}

/// The roots with duplicates dropped, first appearance kept: the seed of
/// the traversal.
pub open spec fn seeded(roots: Seq<u64>) -> Seq<u64>
    decreases roots.len(),
{
    if roots.len() == 0 {
        Seq::empty()
    } else {
        let rest = seeded(roots.drop_last());
        if rest.contains(roots.last()) {
            rest
        } else {
            rest.push(roots.last())
        }
    }
}

/// One expansion step of the traversal: walks the edges in order from
/// position `j`, appending each unvisited target of `cur`.
pub open spec fn expand_from(edges: Seq<Edge>, visited: Seq<u64>, cur: u64, j: int) -> Seq<u64>
    decreases edges.len() - j,
{
    if j < 0 || j >= edges.len() {
        visited
    } else {
        let v2 = if edges[j].source == cur && !visited.contains(edges[j].target) {
            visited.push(edges[j].target)
        } else {
            visited
        };
        expand_from(edges, v2, cur, j + 1)
    }
}

/// The traversal from position `done` on: expands each listed symbol in
/// turn until the list is exhausted (or the fuel, which callers set to a
/// bound the list cannot outgrow).
pub open spec fn traverse(edges: Seq<Edge>, visited: Seq<u64>, done: int, fuel: nat) -> Seq<u64>
    decreases fuel,
{
    if fuel == 0 || done < 0 || done >= visited.len() {
        visited
    } else {
        traverse(edges, expand_from(edges, visited, visited[done], 0), done + 1, (fuel - 1) as nat)
    }
}

/// The deterministic order the engine lists the reachable symbols in:
/// the deduplicated roots in root order, then each symbol's unvisited
/// edge targets in edge order — insertion order throughout.
pub open spec fn traversal_order(roots: Seq<u64>, edges: Seq<Edge>, bound: nat) -> Seq<u64> {
    traverse(edges, seeded(roots), 0, bound)
}

/// True when a vector of identities contains `x`.
pub fn contains_id(v: &Vec<u64>, x: u64) -> (r: bool)
    ensures
        r == v@.contains(x),
{
    let n = v.len();
    let mut i: usize = 0;
    while i < n
        invariant
            n == v@.len(),
            0 <= i <= n,
            forall|k: int| 0 <= k < i ==> v@[k] != x,
        decreases n - i,
    {
        if v[i] == x {
            return true;
        }
        i += 1;
    }
    false
}

/// Computes the reachable set by a worklist traversal from the roots.
///
/// The result lists each reachable symbol exactly once; its set of
/// identities is the unique reachable set over the given roots and edges.
/// Cycles are handled by the visited check: a symbol is expanded once.
pub fn compute_reachable(table: &SymbolTable, edges: &Vec<Edge>, roots: &Vec<u64>) -> (r: Vec<u64>)
    requires
        table.wf(),
        edges_well_formed(table@, edges@),
        forall|i: int| 0 <= i < roots@.len() ==> has_id(table@, #[trigger] roots@[i]),
    ensures
        is_reachable_set(roots@, edges@, r@.to_set()),
        r@.no_duplicates(),
        forall|i: int| 0 <= i < r@.len() ==> has_id(table@, #[trigger] r@[i]),
        r@ =~= traversal_order(roots@, edges@, table@.len() as nat),
{
    let mut visited: Vec<u64> = Vec::new();
    let nroots = roots.len();
    let mut i: usize = 0;
    while i < nroots
        invariant
            nroots == roots@.len(),
            0 <= i <= nroots,
            forall|k: int| 0 <= k < roots@.len() ==> has_id(table@, #[trigger] roots@[k]),
            visited@.no_duplicates(),
            visited@ =~= seeded(roots@.take(i as int)),
            forall|k: int| 0 <= k < visited@.len() ==> has_id(table@, #[trigger] visited@[k]),
            forall|k: int| 0 <= k < visited@.len() ==> reaches(roots@, edges@, #[trigger] visited@[k]),
            forall|k: int| 0 <= k < i ==> visited@.contains(#[trigger] roots@[k]),
        decreases nroots - i,
    {
        let x = roots[i];
        let ghost pre = visited@;
        proof {
            assert(roots@.take(i as int + 1).drop_last() =~= roots@.take(i as int));
            assert(roots@.take(i as int + 1).last() == roots@[i as int]);
        }
        if !contains_id(&visited, x) {
            proof {
                assert forall|s: Set<u64>| covers_roots(roots@, s) && closed_under(edges@, s)
                    implies s.contains(x) by {
                    assert(s.contains(roots@[i as int]));
                }
            }
            visited.push(x);
        }
        proof {
            assert forall|y: u64| pre.contains(y) implies visited@.contains(y) by {
                let m = choose|m: int| 0 <= m < pre.len() && pre[m] == y;
                assert(visited@[m] == y);
            }
            if !pre.contains(x) {
                assert(visited@[pre.len() as int] == x);
            }
            assert(visited@.contains(x));
            assert forall|k: int| 0 <= k < i + 1 implies visited@.contains(#[trigger] roots@[k]) by {
                if k < i {
                    assert(pre.contains(roots@[k]));
                }
            }
        }
        i += 1;
    }

    proof {
        assert(roots@.take(nroots as int) =~= roots@);
        assert(seeded(roots@.take(nroots as int)) =~= seeded(roots@));
    }
    let ghost target_order = traversal_order(roots@, edges@, table@.len() as nat);
    let nedges = edges.len();
    let mut done: usize = 0;
    while done < visited.len()
        invariant
            table.wf(),
            nedges == edges@.len(),
            edges_well_formed(table@, edges@),
            0 <= done <= visited@.len(),
            target_order == traversal_order(roots@, edges@, table@.len() as nat),
            traverse(edges@, visited@, done as int, (table@.len() - done) as nat) =~= target_order,
            visited@.no_duplicates(),
            forall|k: int| 0 <= k < visited@.len() ==> has_id(table@, #[trigger] visited@[k]),
            forall|k: int| 0 <= k < visited@.len() ==> reaches(roots@, edges@, #[trigger] visited@[k]),
            forall|k: int| 0 <= k < roots@.len() ==> visited@.contains(#[trigger] roots@[k]),
            forall|k: int, j: int|
                #![trigger visited@[k], edges@[j]]
                0 <= k < done && 0 <= j < edges@.len() && edges@[j].source == visited@[k]
                    ==> visited@.contains(edges@[j].target),
        decreases table@.len() - done,
    {
        proof {
            lemma_distinct_ids_bounded(table@, visited@);
        }
        let cur = visited[done];
        let ghost entry_visited = visited@;
        let mut j: usize = 0;
        while j < nedges
            invariant
                table.wf(),
                nedges == edges@.len(),
                edges_well_formed(table@, edges@),
                0 <= done < visited@.len(),
                cur == visited@[done as int],
                0 <= j <= nedges,
                expand_from(edges@, visited@, cur, j as int)
                    =~= expand_from(edges@, entry_visited, cur, 0),
                visited@.no_duplicates(),
                forall|k: int| 0 <= k < visited@.len() ==> has_id(table@, #[trigger] visited@[k]),
                forall|k: int| 0 <= k < visited@.len() ==> reaches(roots@, edges@, #[trigger] visited@[k]),
                forall|k: int| 0 <= k < roots@.len() ==> visited@.contains(#[trigger] roots@[k]),
                forall|k: int, jj: int|
                    #![trigger visited@[k], edges@[jj]]
                    0 <= k < done && 0 <= jj < edges@.len() && edges@[jj].source == visited@[k]
                        ==> visited@.contains(edges@[jj].target),
                forall|jj: int| 0 <= jj < j && edges@[jj].source == cur
                    ==> visited@.contains(#[trigger] edges@[jj].target),
            decreases nedges - j,
        {
            let e = edges[j];
            let ghost pre = visited@;
            if e.source == cur && !contains_id(&visited, e.target) {
                proof {
                    assert(reaches(roots@, edges@, cur));
                    assert forall|s: Set<u64>| covers_roots(roots@, s) && closed_under(edges@, s)
                        implies s.contains(e.target) by {
                        assert(s.contains(cur));
                        assert(s.contains(edges@[j as int].source));
                    }
                }
                visited.push(e.target);
                proof {
                    assert(visited@.drop_last() =~= pre);
                    assert(visited@.no_duplicates());
                }
            }
            proof {
                assert forall|y: u64| pre.contains(y) implies visited@.contains(y) by {
                    let m = choose|m: int| 0 <= m < pre.len() && pre[m] == y;
                    assert(visited@[m] == y);
                }
                if edges@[j as int].source == cur {
                    assert(visited@.contains(edges@[j as int].target)) by {
                        if !pre.contains(e.target) {
                            assert(visited@[pre.len() as int] == e.target);
                        }
                    }
                }
            }
            j += 1;
        }
        proof {
            assert(expand_from(edges@, visited@, cur, nedges as int) == visited@);
            assert(visited@ =~= expand_from(edges@, entry_visited, cur, 0));
            assert((table@.len() - done) as nat >= 1);
            assert(traverse(edges@, entry_visited, done as int, (table@.len() - done) as nat)
                == traverse(
                    edges@,
                    expand_from(edges@, entry_visited, cur, 0),
                    done as int + 1,
                    (table@.len() - done - 1) as nat,
                ));
        }
        done += 1;
    }

    proof {
        assert(traverse(edges@, visited@, done as int, (table@.len() - done) as nat) == visited@);
        let r = visited@.to_set();
        assert(covers_roots(roots@, r)) by {
            assert forall|k: int| 0 <= k < roots@.len() implies r.contains(#[trigger] roots@[k]) by {
                assert(visited@.contains(roots@[k]));
            }
        }
        assert(closed_under(edges@, r)) by {
            assert forall|jj: int| 0 <= jj < edges@.len() && r.contains(#[trigger] edges@[jj].source)
                implies r.contains(edges@[jj].target) by {
                let k = choose|k: int| 0 <= k < visited@.len() && visited@[k] == edges@[jj].source;
                assert(visited@.contains(edges@[jj].target));
            }
        }
        assert forall|x: u64| r.contains(x) implies reaches(roots@, edges@, x) by {
            let k = choose|k: int| 0 <= k < visited@.len() && visited@[k] == x;
            assert(reaches(roots@, edges@, visited@[k]));
        }
    }
    visited
}

} // verus!

verus! {

/// Determinism of the engine's output lists: two runs over the same
/// roots and edges produce the same set of symbols and, listing each
/// exactly once, the same count.
pub proof fn lemma_reachable_count_deterministic(
    roots: Seq<u64>, edges: Seq<Edge>, r1: Seq<u64>, r2: Seq<u64>,
)
    requires
        is_reachable_set(roots, edges, r1.to_set()),
        is_reachable_set(roots, edges, r2.to_set()),
        r1.no_duplicates(),
        r2.no_duplicates(),
    ensures
        r1.to_set() =~= r2.to_set(),
        r1.len() == r2.len(),
{
    lemma_reachable_set_unique(roots, edges, r1.to_set(), r2.to_set());
    r1.unique_seq_to_set();
    r2.unique_seq_to_set();
}

} // verus!
