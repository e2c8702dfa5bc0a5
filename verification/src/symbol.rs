//! The unit that symbol extraction produces.

use vstd::prelude::*;

verus! {

/// A function symbol: its name as the file spells it, where it starts and
/// how many bytes it takes.
#[derive(Debug, Clone, PartialEq, Eq)]
pub struct SymbolData {
    pub name: String,
    pub address: u64,
    pub size: u64,
}

/// The mathematical content of a [`SymbolData`].
pub struct Symbol {
    pub name: Seq<char>,
    pub address: u64,
    pub size: u64,
}

impl View for SymbolData {
    type V = Symbol;

    open spec fn view(&self) -> Symbol {
        Symbol { name: self.name@, address: self.address, size: self.size }
    }
}

/// The contents of a list of symbols.
pub open spec fn symbols_view(list: Seq<SymbolData>) -> Seq<Symbol> {
    list.map_values(|s: SymbolData| s@)
}

} // verus!
