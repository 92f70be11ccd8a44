//! The symbol table: every declared unit the front-end saw, with identity,
//! kind, visibility and the attributes the entry-point classifier reads.
//!
//! Identifiers, names and locations are integer tokens interned by the
//! front-end; the engine never inspects their text.

use vstd::prelude::*;
use crate::AnalysisError;

verus! {

/// What a declared unit is.
#[derive(Clone, Copy, PartialEq, Eq, Structural, Debug)]
pub enum SymbolKind {
    Function,
    Method,
    StaticInitializer,
    Type,
    Constant,
}

/// Declared visibility of a symbol.
#[derive(Clone, Copy, PartialEq, Eq, Structural, Debug)]
pub enum Visibility {
    Public,
    Private,
    ModuleLocal,
}

/// One declared unit.
#[derive(Clone, Copy, PartialEq, Eq, Structural, Debug)]
pub struct Symbol {
    /// Stable identity, unique within one analysis run.
    pub id: u64,
    /// Interned declared name; direct references resolve against it.
    pub name: u64,
    /// Interned declared location, carried through to findings.
    pub location: u64,
    pub kind: SymbolKind,
    pub visibility: Visibility,
    /// True for declarations that exist only for tests.
    pub test_only: bool,
    /// True for symbols whose name follows an entry-point convention
    /// (the blessed start function, a test case, a public API candidate).
    pub entry_candidate: bool,
}

/// True when some symbol in `syms` has identity `id`.
pub open spec fn has_id(syms: Seq<Symbol>, id: u64) -> bool {
    exists|i: int| 0 <= i < syms.len() && syms[i].id == id
}

/// True when the identities in `syms` are pairwise distinct.
pub open spec fn unique_ids(syms: Seq<Symbol>) -> bool {
    forall|i: int, j: int| 0 <= i < j < syms.len() ==> syms[i].id != syms[j].id
}

/// True when `syms` holds a symbol with identity `id` whose `test_only`
/// flag is set.
pub open spec fn is_test_only_id(syms: Seq<Symbol>, id: u64) -> bool {
    exists|i: int| 0 <= i < syms.len() && syms[i].id == id && syms[i].test_only
}

/// Holds every registered symbol in insertion order; registration of a
/// duplicate identity fails and leaves the table unchanged.
pub struct SymbolTable {
    symbols: Vec<Symbol>,
}

impl SymbolTable {
    /// The registered symbols, in insertion order.
    pub closed spec fn view(&self) -> Seq<Symbol> {
        self.symbols@
    }

    /// Table invariant: identities are pairwise distinct.
    pub open spec fn wf(&self) -> bool {
        unique_ids(self@)
    }

    pub fn new() -> (r: SymbolTable)
        ensures
            r@ =~= Seq::<Symbol>::empty(),
            r.wf(),
    {
        SymbolTable { symbols: Vec::new() }
    }

    pub fn len(&self) -> (r: usize)
        ensures
            r == self@.len(),
    {
        self.symbols.len()
    }

    /// Registers a symbol; fails with the duplicate-symbol error if the
    /// identity is already present, leaving the table unchanged.
    pub fn register(&mut self, s: Symbol) -> (r: Result<(), AnalysisError>)
        requires
            old(self).wf(),
        ensures
            final(self).wf(),
            r is Ok ==> !has_id(old(self)@, s.id) && final(self)@ =~= old(self)@.push(s),
            r is Err ==> has_id(old(self)@, s.id) && final(self)@ =~= old(self)@
                && r == Err::<(), AnalysisError>(AnalysisError::DuplicateSymbol { id: s.id }),
    {
        if self.contains_id(s.id) {
            Err(AnalysisError::DuplicateSymbol { id: s.id })
        } else {
            self.symbols.push(s);
            Ok(())
        }
    }

    /// True when a symbol with this identity is registered.
    pub fn contains_id(&self, id: u64) -> (r: bool)
        ensures
            r == has_id(self@, id),
    {
        let n = self.symbols.len();
        let mut i: usize = 0;
        while i < n
            invariant
                n == self@.len(),
                0 <= i <= n,
                forall|k: int| 0 <= k < i ==> self@[k].id != id,
            decreases n - i,
        {
            if self.symbols[i].id == id {
                return true;
            }
            i += 1;
        }
        false
    }

    /// Looks an identity up; `None` when it was never registered.
    pub fn lookup(&self, id: u64) -> (r: Option<Symbol>)
        ensures
            match r {
                Some(s) => s.id == id && self@.contains(s),
                None => !has_id(self@, id),
            },
    {
        let n = self.symbols.len();
        let mut i: usize = 0;
        while i < n
            invariant
                n == self@.len(),
                0 <= i <= n,
                forall|k: int| 0 <= k < i ==> self@[k].id != id,
            decreases n - i,
        {
            if self.symbols[i].id == id {
                return Some(self.symbols[i]);
            }
            i += 1;
        }
        None
    }

    /// Every registered symbol, in insertion order; the deterministic
    /// ordering that reports rely on.
    pub fn all_symbols(&self) -> (r: &Vec<Symbol>)
        ensures
            r@ == self@,
    {
        &self.symbols
    }

    /// Direct access by position, for callers that walk the table.
    pub fn symbol_at(&self, i: usize) -> (r: Symbol)
        requires
            i < self@.len(),
        ensures
            r == self@[i as int],
    {
        self.symbols[i]
    }
}

} // verus!
