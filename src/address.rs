//! Value-typed identities used by every component: principals and short symbols.

use vstd::prelude::*;

verus! {

/// A principal on the ledger (an account or a contract), identified by its
/// textual key. Two addresses denote the same principal exactly when their
/// texts are equal.
#[derive(Clone, Debug, PartialEq, Eq, Hash)]
pub struct Address {
    pub key: String,
}

impl View for Address {
    type V = Seq<char>;

    open spec fn view(&self) -> Seq<char> {
        self.key@
    }
}

impl Address {
    /// Builds an address from its textual key.
    pub fn new(key: &str) -> (r: Address)
        ensures
            r@ == key@,
    {
        Address { key: key.to_string() }
    }

    /// Whether `self` and `other` denote the same principal.
    pub fn same_as(&self, other: &Address) -> (r: bool)
        ensures
            r == (self@ == other@),
    {
        self.key == other.key
    }

    /// An identical copy of this address.
    pub fn duplicate(&self) -> (r: Address)
        ensures
            r == *self,
    {
        Address { key: self.key.clone() }
    }
}

} // verus!

verus! {

/// A short textual tag (a donor reference, a storage location).
#[derive(Clone, Debug, PartialEq, Eq, Hash)]
pub struct Symbol {
    pub text: String,
}

impl View for Symbol {
    type V = Seq<char>;

    open spec fn view(&self) -> Seq<char> {
        self.text@
    }
}

/// The text of the reserved symbol that stands for an anonymous donation.
pub open spec fn anon_text() -> Seq<char> {
    seq!['A', 'N', 'O', 'N']
}

impl Symbol {
    /// Builds a symbol from its text.
    pub fn new(text: &str) -> (r: Symbol)
        ensures
            r@ == text@,
    {
        Symbol { text: text.to_string() }
    }

    /// The reserved symbol for an anonymous donation.
    pub fn anon() -> (r: Symbol)
        ensures
            r@ == anon_text(),
    {
        proof {
            reveal_strlit("ANON");
        }
        Symbol::new("ANON")
    }

    /// Whether the two symbols have the same text.
    pub fn same_as(&self, other: &Symbol) -> (r: bool)
        ensures
            r == (self@ == other@),
    {
        self.text == other.text
    }

    /// An identical copy of this symbol.
    pub fn duplicate(&self) -> (r: Symbol)
        ensures
            r == *self,
    {
        Symbol { text: self.text.clone() }
    }
}

} // verus!
