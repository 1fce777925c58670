use vstd::prelude::*;
use crate::btset::SetElement;

verus! {

/// A state of an automaton, identified by its name.
#[derive(Debug, Hash, Eq, PartialOrd, Ord)]
pub struct State {
    name: String,
}

impl View for State {
    type V = Seq<char>;

    open spec fn view(&self) -> Seq<char> {
        self.spec_name()@
    }
}

impl State {
    pub closed spec fn spec_name(&self) -> String {
        self.name
    }

    pub fn new(name: String) -> (r: Self)
        ensures
            r@ == name@,
    {
        State { name }
    }

    pub fn from_str(name: &str) -> (r: Self)
        ensures
            r@ == name@,
    {
        State { name: name.to_owned() }
    }

    pub fn get_name(&self) -> (r: &String)
        ensures
            r@ == self@,
    {
        &self.name
    }
}

impl Clone for State {
    fn clone(&self) -> (r: Self)
        ensures
            r == *self,
    {
        State { name: self.name.clone() }
    }
}

impl PartialEq for State {
    fn eq(&self, other: &State) -> (r: bool) {
        self.name == other.name
    }
}

impl vstd::std_specs::cmp::PartialEqSpecImpl for State {
    open spec fn obeys_eq_spec() -> bool {
        true
    }

    open spec fn eq_spec(&self, other: &State) -> bool {
        self@ == other@
    }
}

impl SetElement for State {
    fn same(&self, other: &Self) -> (r: bool) {
        self.name == other.name
    }

    fn duplicate(&self) -> (r: Self) {
        self.clone()
    }
}

} // verus!
