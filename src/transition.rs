use vstd::prelude::*;
use crate::btset::SetElement;
use crate::symbol::Symbol;

verus! {

/// A pair of a symbol and a content: a state, or a set of states.
#[derive(Debug, Hash)]
pub struct Transition<T> {
    symbol: Symbol,
    content: T,
}

impl<T: View> View for Transition<T> {
    type V = (Seq<char>, T::V);

    open spec fn view(&self) -> (Seq<char>, T::V) {
        (self.spec_symbol()@, self.spec_content()@)
    }
}

impl<T> Transition<T> {
    pub closed spec fn spec_symbol(&self) -> Symbol {
        self.symbol
    }

    pub closed spec fn spec_content(&self) -> T {
        self.content
    }

    pub fn new(symbol: Symbol, content: T) -> (r: Self)
        ensures
            r.spec_symbol() == symbol,
            r.spec_content() == content,
    {
        Transition { symbol, content }
    }

    pub fn get_symbol(&self) -> (r: &Symbol)
        ensures
            *r == self.spec_symbol(),
    {
        &self.symbol
    }

    pub fn get_content(&self) -> (r: &T)
        ensures
            *r == self.spec_content(),
    {
        &self.content
    }
}

impl<T: SetElement> Clone for Transition<T> {
    fn clone(&self) -> (r: Self)
        ensures
            r@ == self@,
    {
        Transition { symbol: self.symbol.clone(), content: self.content.duplicate() }
    }
}

impl<T: SetElement> PartialEq for Transition<T> {
    fn eq(&self, other: &Self) -> (r: bool) {
        self.symbol.same(&other.symbol) && self.content.same(&other.content)
    }
}

impl<T: SetElement> Eq for Transition<T> {

}

impl<T: SetElement> vstd::std_specs::cmp::PartialEqSpecImpl for Transition<T> {
    open spec fn obeys_eq_spec() -> bool {
        true
    }

    open spec fn eq_spec(&self, other: &Self) -> bool {
        self@ == other@
    }
}

impl<T: SetElement> SetElement for Transition<T> {
    fn same(&self, other: &Self) -> (r: bool) {
        self.symbol.same(&other.symbol) && self.content.same(&other.content)
    }

    fn duplicate(&self) -> (r: Self) {
        Transition { symbol: self.symbol.clone(), content: self.content.duplicate() }
    }
}

} // verus!
