use vstd::prelude::*;
use crate::btset::SetElement;
use vstd::string::StrSliceExecFns;

verus! {

/// A letter of an automaton's alphabet, identified by its text.
#[derive(Debug, Hash, Eq, PartialOrd, Ord)]
pub struct Symbol {
    value: String,
}

impl View for Symbol {
    type V = Seq<char>;

    open spec fn view(&self) -> Seq<char> {
        self.spec_value()@
    }
}

impl Symbol {
    pub closed spec fn spec_value(&self) -> String {
        self.value
    }

    pub fn new(value: String) -> (r: Self)
        ensures
            r@ == value@,
    {
        Symbol { value }
    }

    pub fn from_str(value: &str) -> (r: Self)
        ensures
            r@ == value@,
    {
        Symbol { value: value.to_owned() }
    }

    /// The symbol that the `i`-th character of `word` is read as.
    pub(crate) fn of_char(word: &str, i: usize) -> (r: Self)
        requires
            i < word@.len() <= usize::MAX,
        ensures
            r@ == seq![word@[i as int]],
    {
        let c = word.substring_char(i, i + 1);
        assert(c@ =~= seq![word@[i as int]]);
        Symbol { value: c.to_owned() }
    }

    pub fn get_value(&self) -> (r: &String)
        ensures
            r@ == self@,
    {
        &self.value
    }
}

impl Clone for Symbol {
    fn clone(&self) -> (r: Self)
        ensures
            r == *self,
    {
        Symbol { value: self.value.clone() }
    }
}

impl PartialEq for Symbol {
    fn eq(&self, other: &Symbol) -> (r: bool) {
        self.value == other.value
    }
}

impl vstd::std_specs::cmp::PartialEqSpecImpl for Symbol {
    open spec fn obeys_eq_spec() -> bool {
        true
    }

    open spec fn eq_spec(&self, other: &Symbol) -> bool {
        self@ == other@
    }
}

impl SetElement for Symbol {
    fn same(&self, other: &Self) -> (r: bool) {
        self.value == other.value
    }

    fn duplicate(&self) -> (r: Self) {
        self.clone()
    }
}

} // verus!
