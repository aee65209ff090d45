//! The symbol table: a mapping from variable names to sequentially assigned
//! global storage slots, within the single global scope.
//!
//! Slot indices are handed out in the order `define` is called, starting at
//! zero.  Redefining a name replaces its entry and does not reuse the old
//! index.  The table is modelled as a `Map` from the name's characters to the
//! symbol it denotes; a later definition shadows an earlier one.

use vstd::prelude::*;

verus! {

/// A resolved name: the storage slot it was assigned and the scope it lives
/// in (currently always the global scope).
pub struct Symbol {
    index: u16,
    scope: String,
}

/// The mathematical value of a `Symbol`.
pub struct SymbolView {
    pub index: u16,
    pub scope: Seq<char>,
}

impl View for Symbol {
    type V = SymbolView;

    closed spec fn view(&self) -> SymbolView {
        SymbolView { index: self.index, scope: self.scope@ }
    }
}

impl Symbol {
    pub fn new(index: u16, scope: String) -> (r: Symbol)
        ensures
            r@ == (SymbolView { index, scope: scope@ }),
    {
        Symbol { index, scope }
    }
}

/// The name-to-symbol mapping of a table: later entries shadow earlier ones.
spec fn table_map(s: Seq<(String, Symbol)>) -> Map<Seq<char>, SymbolView>
    decreases s.len(),
{
    if s.len() == 0 {
        Map::empty()
    } else {
        table_map(s.drop_last()).insert(s.last().0@, s.last().1@)
    }
}

/// Maps variable names to storage slots.  `define` assigns the next free
/// index; `resolve` looks a name up without changing the table.
pub struct SymbolTable {
    symbols: Vec<(String, Symbol)>,
    next_index: u16,
}

/// The mathematical value of a `SymbolTable`.
pub struct SymbolTableView {
    pub symbols: Map<Seq<char>, SymbolView>,
    pub next_index: u16,
}

impl View for SymbolTable {
    type V = SymbolTableView;

    closed spec fn view(&self) -> SymbolTableView {
        SymbolTableView { symbols: table_map(self.symbols@), next_index: self.next_index }
    }
}

/// In a table whose entries at or after position `i` all miss `k` except a
/// hit at `i` itself, the map resolves `k` to the entry at `i`.
proof fn lemma_table_map_found(s: Seq<(String, Symbol)>, i: int, k: Seq<char>)
    requires
        0 <= i < s.len(),
        s[i].0@ == k,
        forall|j: int| i < j < s.len() ==> #[trigger] s[j].0@ != k,
    ensures
        table_map(s).contains_key(k),
        table_map(s)[k] == s[i].1@,
    decreases s.len(),
{
    if i + 1 == s.len() {
    } else {
        lemma_table_map_found(s.drop_last(), i, k);
    }
}

/// A name no entry carries is absent from the map.
proof fn lemma_table_map_absent(s: Seq<(String, Symbol)>, k: Seq<char>)
    requires
        forall|j: int| 0 <= j < s.len() ==> #[trigger] s[j].0@ != k,
    ensures
        !table_map(s).contains_key(k),
    decreases s.len(),
{
    if s.len() > 0 {
        lemma_table_map_absent(s.drop_last(), k);
    }
}

impl SymbolTable {
    /// An empty table; the first `define` will assign slot 0.
    pub fn new() -> (r: SymbolTable)
        ensures
            r@.symbols == Map::<Seq<char>, SymbolView>::empty(),
            r@.next_index == 0,
    {
        SymbolTable { symbols: Vec::new(), next_index: 0 }
    }

    /// The index the next `define` will assign; also the number of `define`
    /// calls made so far.
    pub fn next_index(&self) -> (r: u16)
        ensures
            r == self@.next_index,
    {
        self.next_index
    }

    /// Assign the next sequential slot to `name`, replacing any earlier entry
    /// for the same name, and return the assigned slot.
    pub fn define(&mut self, name: String, scope: String) -> (r: u16)
        requires
            old(self)@.next_index < u16::MAX,
        ensures
            r == old(self)@.next_index,
            final(self)@.next_index == old(self)@.next_index + 1,
            final(self)@.symbols == old(self)@.symbols.insert(
                name@,
                SymbolView { index: old(self)@.next_index, scope: scope@ },
            ),
    {
        let ghost old_entries = self.symbols@;
        let symbol = Symbol::new(self.next_index, scope);
        self.symbols.push((name, symbol));
        proof {
            assert(self.symbols@.drop_last() =~= old_entries);
        }
        self.next_index += 1;
        self.next_index - 1
    }

    /// Look `name` up: the slot of its latest definition, or `None` when the
    /// name was never defined.
    pub fn resolve(&self, name: String) -> (r: Option<u16>)
        ensures
            match r {
                Some(idx) => self@.symbols.contains_key(name@) && idx == self@.symbols[name@].index,
                None => !self@.symbols.contains_key(name@),
            },
    {
        let mut i = self.symbols.len();
        while i > 0
            invariant
                i <= self.symbols.len(),
                forall|j: int| i <= j < self.symbols@.len() ==> #[trigger] self.symbols@[j].0@
                    != name@,
            decreases i,
        {
            i -= 1;
            if self.symbols[i].0 == name {
                proof {
                    lemma_table_map_found(self.symbols@, i as int, name@);
                }
                return Some(self.symbols[i].1.index);
            }
        }
        proof {
            lemma_table_map_absent(self.symbols@, name@);
        }
        None
    }
}

} // verus!
