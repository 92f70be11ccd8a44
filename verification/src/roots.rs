//! The entry-point classifier: computes the unconditional root set from
//! the symbol table under a configurable policy, and refuses to run an
//! analysis with no entry point at all.
//!
//! Test-only symbols are never roots in the default mode; with test
//! inclusion switched on, each test case (a test-only entry candidate)
//! becomes its own root while test-only helpers stay excluded.

use vstd::prelude::*;
use crate::AnalysisError;
use crate::symbols::{Symbol, SymbolTable, unique_ids};

verus! {

/// The root-selection policy for one analysis run.
#[derive(Clone, Copy, PartialEq, Eq, Structural, Debug)]
pub struct EntryPolicy {
    /// Interned name of the designated program entry convention.
    pub entry_name: u64,
    /// Library mode: every entry candidate (the public API surface) is a
    /// potential external caller and therefore a root.
    pub library_mode: bool,
    /// Test-inclusion mode: each test case becomes its own root.
    pub include_tests: bool,
}

/// Whether one symbol qualifies as an unconditional root under the policy.
///
/// A test-only symbol qualifies only in test-inclusion mode, and only as a
/// test case (an entry candidate); test-only helpers never qualify. Any
/// other symbol qualifies by bearing the entry name, or as an entry
/// candidate in library mode.
pub open spec fn is_root_symbol(p: EntryPolicy, s: Symbol) -> bool {
    if s.test_only {
        p.include_tests && s.entry_candidate
    } else {
        s.name == p.entry_name || (p.library_mode && s.entry_candidate)
    }
}

/// The identities of all qualifying symbols, in table order.
pub open spec fn root_ids(p: EntryPolicy, syms: Seq<Symbol>) -> Seq<u64>
    decreases syms.len(),
{
    if syms.len() == 0 {
        Seq::empty()
    } else {
        let rest = root_ids(p, syms.drop_last());
        if is_root_symbol(p, syms.last()) {
            rest.push(syms.last().id)
        } else {
            rest
        }
    }
}

/// An identity is a root exactly when some qualifying symbol bears it.
pub proof fn lemma_root_ids_membership(p: EntryPolicy, syms: Seq<Symbol>, id: u64)
    ensures
        root_ids(p, syms).contains(id)
            <==> exists|i: int| 0 <= i < syms.len() && syms[i].id == id
                && is_root_symbol(p, #[trigger] syms[i]),
    decreases syms.len(),
{
    if syms.len() > 0 {
        lemma_root_ids_membership(p, syms.drop_last(), id);
        let rest = root_ids(p, syms.drop_last());
        if is_root_symbol(p, syms.last()) && syms.last().id == id {
            assert(rest.push(id)[rest.len() as int] == id);
            assert(root_ids(p, syms).contains(id));
        }
        if root_ids(p, syms).contains(id) {
            let j = choose|j: int| 0 <= j < root_ids(p, syms).len() && root_ids(p, syms)[j] == id;
            if is_root_symbol(p, syms.last()) {
                if j < rest.len() {
                    assert(rest[j] == id);
                }
            }
        }
        if exists|i: int| 0 <= i < syms.len() && syms[i].id == id
            && is_root_symbol(p, #[trigger] syms[i]) {
            let i = choose|i: int| 0 <= i < syms.len() && syms[i].id == id
                && is_root_symbol(p, #[trigger] syms[i]);
            if i < syms.len() - 1 {
                assert(syms.drop_last()[i] == syms[i]);
                assert(rest.contains(id));
                let j = choose|j: int| 0 <= j < rest.len() && rest[j] == id;
                if is_root_symbol(p, syms.last()) {
                    assert(rest.push(syms.last().id)[j] == id);
                }
            }
        }
    }
}

/// Test exclusion: without test-inclusion mode, no test-only symbol is a
/// root.
pub proof fn lemma_test_exclusion(p: EntryPolicy, syms: Seq<Symbol>, i: int)
    requires
        !p.include_tests,
        unique_ids(syms),
        0 <= i < syms.len(),
        syms[i].test_only,
    ensures
        !root_ids(p, syms).contains(syms[i].id),
{
    lemma_root_ids_membership(p, syms, syms[i].id);
    if root_ids(p, syms).contains(syms[i].id) {
        let j = choose|j: int| 0 <= j < syms.len() && syms[j].id == syms[i].id
            && is_root_symbol(p, #[trigger] syms[j]);
        assert(j == i);
    }
}

/// Test inclusion: with test-inclusion mode set, every test case — a
/// test-only entry candidate — is a root.
pub proof fn lemma_test_inclusion(p: EntryPolicy, syms: Seq<Symbol>, i: int)
    requires
        p.include_tests,
        0 <= i < syms.len(),
        syms[i].test_only,
        syms[i].entry_candidate,
    ensures
        root_ids(p, syms).contains(syms[i].id),
{
    lemma_root_ids_membership(p, syms, syms[i].id);
    assert(is_root_symbol(p, syms[i]));
}

/// Every root identity belongs to a registered symbol, and with distinct
/// table identities the root identities are distinct.
pub proof fn lemma_root_ids_wf(p: EntryPolicy, syms: Seq<Symbol>)
    requires
        unique_ids(syms),
    ensures
        forall|k: int| 0 <= k < root_ids(p, syms).len()
            ==> crate::symbols::has_id(syms, #[trigger] root_ids(p, syms)[k]),
        root_ids(p, syms).no_duplicates(),
    decreases syms.len(),
{
    if syms.len() > 0 {
        assert(unique_ids(syms.drop_last()));
        lemma_root_ids_wf(p, syms.drop_last());
        let rest = root_ids(p, syms.drop_last());
        assert forall|k: int| 0 <= k < root_ids(p, syms).len()
            implies crate::symbols::has_id(syms, #[trigger] root_ids(p, syms)[k]) by {
            if k < rest.len() {
                assert(crate::symbols::has_id(syms.drop_last(), rest[k]));
                let i = choose|i: int| 0 <= i < syms.drop_last().len()
                    && syms.drop_last()[i].id == rest[k];
                assert(syms[i].id == rest[k]);
            } else {
                assert(syms[syms.len() - 1].id == root_ids(p, syms)[k]);
            }
        }
        if is_root_symbol(p, syms.last()) {
            if rest.contains(syms.last().id) {
                let k = choose|k: int| 0 <= k < rest.len() && rest[k] == syms.last().id;
                assert(crate::symbols::has_id(syms.drop_last(), rest[k]));
                let i = choose|i: int| 0 <= i < syms.drop_last().len()
                    && syms.drop_last()[i].id == syms.last().id;
                assert(syms[i].id == syms[syms.len() - 1].id);
                assert(false);
            }
            assert(root_ids(p, syms) =~= rest.push(syms.last().id));
            assert(root_ids(p, syms).drop_last() =~= rest);
        }
    }
}

/// Computes the unconditional root set, in table order, or fails with the
/// no-entry-point error when nothing qualifies: an empty root set signals
/// a misconfiguration, not a program in which everything is dead.
pub fn classify_roots(table: &SymbolTable, p: EntryPolicy) -> (r: Result<Vec<u64>, AnalysisError>)
    ensures
        match r {
            Ok(v) => v@ =~= root_ids(p, table@) && v@.len() > 0,
            Err(e) => root_ids(p, table@).len() == 0 && e == AnalysisError::NoEntryPoint,
        },
{
    let n = table.len();
    let mut out: Vec<u64> = Vec::new();
    let mut i: usize = 0;
    while i < n
        invariant
            n == table@.len(),
            0 <= i <= n,
            out@ =~= root_ids(p, table@.take(i as int)),
        decreases n - i,
    {
        let s = table.symbol_at(i);
        proof {
            assert(table@.take(i as int + 1).drop_last() =~= table@.take(i as int));
            assert(table@.take(i as int + 1).last() == table@[i as int]);
        }
        let qualifies = if s.test_only {
            p.include_tests && s.entry_candidate
        } else {
            s.name == p.entry_name || (p.library_mode && s.entry_candidate)
        };
        if qualifies {
            out.push(s.id);
        }
        i += 1;
    }
    proof {
        assert(table@.take(n as int) =~= table@);
    }
    if out.len() == 0 {
        Err(AnalysisError::NoEntryPoint)
    } else {
        Ok(out)
    }
}

} // verus!
