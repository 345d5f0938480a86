//! Scopes of names for the compiler: where each name lives (a global slot, a
//! local slot of the current function, or a captured free variable).
use vstd::prelude::*;
use crate::assoc::{assoc, assoc_position, assoc_insert};
use crate::text::string_from_chars;

verus! {

/// Where a name's value lives at run time.
#[derive(Clone, Copy, Debug, PartialEq, Eq, Structural)]
pub enum SymbolScope {
    Global,
    Local,
    Free,
}

/// A name's place: its scope, its slot there, and whether it is constant.
#[derive(Clone, Copy, Debug, PartialEq, Eq, Structural)]
pub struct Symbol {
    pub scope: SymbolScope,
    pub index: usize,
    pub is_const: bool,
}

/// `s` is the free-variable entry made for `o`.
pub open spec fn captures(s: Symbol, o: Symbol) -> bool {
    s.index == o.index && s.scope == o.scope
}

/// The position of the first entry of `fs` made for `o`, or the length of
/// `fs` when there is none.
pub open spec fn free_slot(fs: Seq<Symbol>, o: Symbol) -> nat
    decreases fs.len(),
{
    if fs.len() == 0 {
        0
    } else if captures(fs[0], o) {
        0
    } else {
        1 + free_slot(fs.drop_first(), o)
    }
}

/// The free variables after capturing `o`: unchanged when it is already
/// captured, else with `o` added at the end.
pub open spec fn with_free(fs: Seq<Symbol>, o: Symbol) -> Seq<Symbol> {
    if free_slot(fs, o) < fs.len() { fs } else { fs.push(o) }
}

/// `free_slot` is the first position made for `o`.
proof fn lemma_free_slot(fs: Seq<Symbol>, o: Symbol)
    ensures
        free_slot(fs, o) <= fs.len(),
        free_slot(fs, o) < fs.len() ==> captures(fs[free_slot(fs, o) as int], o),
        forall|i: int| 0 <= i < free_slot(fs, o) ==> !captures(#[trigger] fs[i], o),
    decreases fs.len(),
{
    if fs.len() > 0 && !captures(fs[0], o) {
        lemma_free_slot(fs.drop_first(), o);
        assert forall|i: int| 0 <= i < free_slot(fs, o) implies !captures(#[trigger] fs[i], o) by {
            if i > 0 {
                assert(fs[i] == fs.drop_first()[i - 1]);
            }
        }
    }
}

/// A position made for `o` with none before it is `free_slot`.
proof fn lemma_free_slot_at(fs: Seq<Symbol>, o: Symbol, i: int)
    requires
        0 <= i <= fs.len(),
        i < fs.len() ==> captures(fs[i], o),
        forall|k: int| 0 <= k < i ==> !captures(#[trigger] fs[k], o),
    ensures
        free_slot(fs, o) == i,
    decreases fs.len(),
{
    if fs.len() > 0 && i > 0 {
        assert forall|k: int| 0 <= k < i - 1 implies !captures(#[trigger] fs.drop_first()[k], o) by {
            assert(fs.drop_first()[k] == fs[k + 1]);
        }
        lemma_free_slot_at(fs.drop_first(), o, i - 1);
    }
}

/// Capturing a variable a second time gives the slot of the first capture
/// and adds nothing.
pub proof fn law_define_free_twice(fs: Seq<Symbol>, o: Symbol)
    ensures
        free_slot(with_free(fs, o), o) == free_slot(fs, o),
        with_free(with_free(fs, o), o) == with_free(fs, o),
{
    lemma_free_slot(fs, o);
    let fs1 = with_free(fs, o);
    if free_slot(fs, o) == fs.len() {
        assert forall|k: int| 0 <= k < fs.len() implies !captures(#[trigger] fs1[k], o) by {
            assert(fs1[k] == fs[k]);
        }
        lemma_free_slot_at(fs1, o, fs.len() as int);
    }
}

/// The names of one scope, the number of slots defined in it, the scope
/// around it, and the free variables it captures from outside.
#[derive(Debug)]
pub struct SymbolTable {
    pub store: Vec<(String, Symbol)>,
    pub num_definitions: usize,
    pub outer: Option<Box<SymbolTable>>,
    pub free_symbols: Vec<Symbol>,
}

impl SymbolTable {
    /// What `name` resolves to: this scope's entry, or else the outer scope's.
    pub open spec fn resolves(&self, name: Seq<char>) -> Option<Symbol>
        decreases self,
    {
        match assoc(self.store@, name) {
            Some(sym) => Some(sym),
            None => match self.outer {
                Some(outer) => outer.resolves(name),
                None => None,
            },
        }
    }

    /// The scope that new definitions in this table get.
    pub open spec fn definition_scope(&self) -> SymbolScope {
        if self.outer is None { SymbolScope::Global } else { SymbolScope::Local }
    }

    /// A global scope in which `print` is the constant in slot 0.
    pub fn new() -> (table: Self)
        ensures
            table.outer is None,
            table.num_definitions == 1,
            table.store@.len() == 1,
            table.free_symbols@.len() == 0,
            table.resolves(seq!['p', 'r', 'i', 'n', 't']) == Some(
                Symbol { scope: SymbolScope::Global, index: 0, is_const: true }),
            forall|n: Seq<char>| n != seq!['p', 'r', 'i', 'n', 't'] ==> table.resolves(n) is None,
    {
        let mut table = Self {
            store: Vec::new(),
            num_definitions: 0,
            outer: None,
            free_symbols: Vec::new(),
        };
        table.define(string_from_chars(&['p', 'r', 'i', 'n', 't']), true);
        proof {
            reveal_with_fuel(assoc, 2);
        }
        table
    }

    /// A scope inside `outer`, with nothing defined yet.
    pub fn new_enclosed(outer: SymbolTable) -> (table: Self)
        ensures
            table.outer == Some(Box::new(outer)),
            table.num_definitions == 0,
            table.store@.len() == 0,
            table.free_symbols@.len() == 0,
            forall|n: Seq<char>| table.resolves(n) == outer.resolves(n),
    {
        Self {
            store: Vec::new(),
            num_definitions: 0,
            outer: Some(Box::new(outer)),
            free_symbols: Vec::new(),
        }
    }

    /// Defines `name` in this scope, in the next free slot; a name defined
    /// again gets the new slot.
    pub fn define(&mut self, name: String, is_const: bool) -> (symbol: Symbol)
        requires
            old(self).num_definitions < usize::MAX,
        ensures
            symbol == (Symbol { scope: old(self).definition_scope(), index: old(self).num_definitions, is_const }),
            final(self).num_definitions == old(self).num_definitions + 1,
            final(self).outer == old(self).outer,
            final(self).free_symbols == old(self).free_symbols,
            final(self).resolves(name@) == Some(symbol),
            assoc(final(self).store@, name@) == Some(symbol),
            old(self).store@.len() == 0 ==> final(self).store@.len() == 1,
            forall|n: Seq<char>| n != name@ ==> final(self).resolves(n) == old(self).resolves(n),
            forall|n: Seq<char>| n != name@ ==> assoc(final(self).store@, n) == assoc(old(self).store@, n),
    {
        let symbol = Symbol {
            scope: if self.outer.is_none() { SymbolScope::Global } else { SymbolScope::Local },
            index: self.num_definitions,
            is_const,
        };
        let ghost key = name@;
        let ghost old_store = self.store@;
        assoc_insert(&mut self.store, name, symbol);
        self.num_definitions += 1;
        symbol
    }

    /// The free-variable symbol that captures `original` from an outer
    /// scope: the one already made for it, or a new one at the end.
    pub fn define_free(&mut self, original: &Symbol) -> (symbol: Symbol)
        ensures
            symbol.scope == SymbolScope::Free,
            symbol.is_const == original.is_const,
            (symbol.index as int) < final(self).free_symbols@.len(),
            final(self).free_symbols@[symbol.index as int].index == original.index,
            final(self).free_symbols@[symbol.index as int].scope == original.scope,
            forall|i: int| 0 <= i < symbol.index ==> !(final(self).free_symbols@[i].index == original.index
                && final(self).free_symbols@[i].scope == original.scope),
            symbol.index == free_slot(old(self).free_symbols@, *original),
            final(self).free_symbols@ == with_free(old(self).free_symbols@, *original),
            final(self).store == old(self).store,
            final(self).num_definitions == old(self).num_definitions,
            final(self).outer == old(self).outer,
    {
        let mut i: usize = 0;
        while i < self.free_symbols.len()
            invariant
                i <= self.free_symbols@.len(),
                self.free_symbols == old(self).free_symbols,
                self.store == old(self).store,
                self.num_definitions == old(self).num_definitions,
                self.outer == old(self).outer,
                forall|k: int| 0 <= k < i ==> !(self.free_symbols@[k].index == original.index
                    && self.free_symbols@[k].scope == original.scope),
            decreases self.free_symbols@.len() - i,
        {
            let sym = self.free_symbols[i];
            if sym.index == original.index && sym.scope == original.scope {
                proof {
                    lemma_free_slot_at(self.free_symbols@, *original, i as int);
                }
                return Symbol { scope: SymbolScope::Free, index: i, is_const: original.is_const };
            }
            i += 1;
        }
        let idx = self.free_symbols.len();
        proof {
            lemma_free_slot_at(self.free_symbols@, *original, idx as int);
        }
        self.free_symbols.push(*original);
        Symbol { scope: SymbolScope::Free, index: idx, is_const: original.is_const }
    }

    /// What `name` resolves to (see `resolves`).
    pub fn resolve(&self, name: &str) -> (r: Option<Symbol>)
        ensures
            r == self.resolves(name@),
        decreases self,
    {
        match assoc_position(&self.store, name) {
            Some(i) => Some(self.store[i].1),
            None => match &self.outer {
                Some(outer) => outer.resolve(name),
                None => None,
            },
        }
    }

    /// A copy of this table, scopes and all.
    pub fn duplicate(&self) -> (r: SymbolTable)
        ensures
            r.store@ == self.store@,
            r.num_definitions == self.num_definitions,
            r.free_symbols@ == self.free_symbols@,
            r.outer is Some == self.outer is Some,
            forall|n: Seq<char>| r.resolves(n) == self.resolves(n),
        decreases self,
    {
        let outer = match &self.outer {
            Some(o) => Some(Box::new(o.duplicate())),
            None => None,
        };
        let r = SymbolTable {
            store: copy_store(&self.store),
            num_definitions: self.num_definitions,
            outer,
            free_symbols: copy_symbols(&self.free_symbols),
        };
        proof {
            assert forall|n: Seq<char>| r.resolves(n) == self.resolves(n) by {
                assert(assoc(r.store@, n) == assoc(self.store@, n));
                match self.outer {
                    Some(o) => {
                        assert(r.outer.unwrap().resolves(n) == o.resolves(n));
                    },
                    None => {},
                }
            }
        }
        r
    }
}

/// A copy of a store of names.
fn copy_store(v: &Vec<(String, Symbol)>) -> (r: Vec<(String, Symbol)>)
    ensures
        r@ == v@,
{
    let mut r: Vec<(String, Symbol)> = Vec::new();
    let mut i: usize = 0;
    while i < v.len()
        invariant
            i <= v@.len(),
            r@ == v@.take(i as int),
        decreases v@.len() - i,
    {
        r.push((v[i].0.clone(), v[i].1));
        i += 1;
        assert(r@ =~= v@.take(i as int));
    }
    assert(v@.take(v@.len() as int) =~= v@);
    r
}

/// A copy of a list of symbols.
fn copy_symbols(v: &Vec<Symbol>) -> (r: Vec<Symbol>)
    ensures
        r@ == v@,
{
    let mut r: Vec<Symbol> = Vec::new();
    let mut i: usize = 0;
    while i < v.len()
        invariant
            i <= v@.len(),
            r@ == v@.take(i as int),
        decreases v@.len() - i,
    {
        r.push(v[i]);
        i += 1;
        assert(r@ =~= v@.take(i as int));
    }
    assert(v@.take(v@.len() as int) =~= v@);
    r
}

} // verus!
