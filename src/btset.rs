use vstd::prelude::*;

verus! {

broadcast use {Seq::lemma_push_to_set_commute, Seq::lemma_push_map_commute};

/// A value that a `BTSet` can hold: two values are the same element exactly when
/// their views are equal.
pub trait SetElement: View + Sized {
    fn same(&self, other: &Self) -> (r: bool)
        ensures
            r == (self@ == other@),
    ;

    fn duplicate(&self) -> (r: Self)
        ensures
            r@ == self@,
    ;
}

/// A finite set whose identity is the set of its elements' views, whatever the
/// order in which they were inserted.
#[derive(Debug)]
pub struct BTSet<T: SetElement> {
    items: Vec<T>,
}

impl<T: SetElement> View for BTSet<T> {
    type V = Set<T::V>;

    open spec fn view(&self) -> Set<T::V> {
        self.elems().to_set()
    }
}

impl<T: SetElement> BTSet<T> {
    /// The views of the elements, in the order in which they were inserted.
    pub closed spec fn elems(&self) -> Seq<T::V> {
        self.items@.map_values(|t: T| t@)
    }

    #[verifier::type_invariant]
    spec fn distinct(&self) -> bool {
        self.elems().no_duplicates()
    }

    proof fn lemma_elems(&self)
        requires
            self.elems().no_duplicates(),
        ensures
            self@.finite(),
            self@.len() == self.elems().len(),
    {
        self.elems().unique_seq_to_set();
    }

    pub fn new() -> (r: Self)
        ensures
            r@ == Set::<T::V>::empty(),
            r.elems() == Seq::<T::V>::empty(),
    {
        let r = BTSet { items: Vec::new() };
        assert(r.elems() =~= Seq::<T::V>::empty());
        r
    }

    /// A set of the elements of `v`; `self` serves only to name the type.
    pub fn from_vect(&self, v: Vec<T>) -> (r: BTSet<T>)
        ensures
            r@ == v@.map_values(|t: T| t@).to_set(),
    {
        let mut r = BTSet::new();
        let mut i: usize = 0;
        while i < v.len()
            invariant
                i <= v.len(),
                r@ == v@.map_values(|t: T| t@).subrange(0, i as int).to_set(),
            decreases v.len() - i,
        {
            r.insert(v[i].duplicate());
            assert(v@.map_values(|t: T| t@).subrange(0, i + 1) =~= v@.map_values(
                |t: T| t@,
            ).subrange(0, i as int).push(v[i as int]@));
            i = i + 1;
        }
        assert(v@.map_values(|t: T| t@).subrange(0, i as int) =~= v@.map_values(|t: T| t@));
        r
    }

    /// The elements, each once, in the order in which they were inserted.
    pub fn get(&self) -> (r: &Vec<T>)
        ensures
            r@.map_values(|t: T| t@) == self.elems(),
            self.elems().no_duplicates(),
    {
        proof {
            use_type_invariant(self);
        }
        &self.items
    }

    fn position(&self, value: &T) -> (r: Option<usize>)
        ensures
            match r {
                Some(i) => i < self.elems().len() && self.elems()[i as int] == value@,
                None => !self.elems().contains(value@),
            },
    {
        let mut i: usize = 0;
        while i < self.items.len()
            invariant
                i <= self.items.len(),
                forall|j: int| 0 <= j < i ==> self.elems()[j] != value@,
            decreases self.items.len() - i,
        {
            if self.items[i].same(value) {
                return Some(i);
            }
            i = i + 1;
        }
        None
    }

    pub fn insert(&mut self, value: T) -> (r: bool)
        ensures
            final(self)@ == old(self)@.insert(value@),
            r == !old(self)@.contains(value@),
    {
        proof {
            use_type_invariant(&*self);
        }
        if self.position(&value).is_some() {
            false
        } else {
            let ghost v = value@;
            let mut items: Vec<T> = Vec::new();
            std::mem::swap(&mut self.items, &mut items);
            items.push(value);
            assert(items@.map_values(|t: T| t@) =~= old(self).elems().push(v));
            self.items = items;
            true
        }
    }

    pub fn contains(&self, value: &T) -> (r: bool)
        ensures
            r == self@.contains(value@),
    {
        self.position(value).is_some()
    }

    pub fn is_empty(&self) -> (r: bool)
        ensures
            r == (self@ == Set::<T::V>::empty()),
    {
        proof {
            use_type_invariant(self);
            self.lemma_elems();
            if self.items.len() > 0 {
                assert(self@.contains(self.elems()[0]));
            } else {
                assert(self@ =~= Set::<T::V>::empty());
            }
        }
        self.items.len() == 0
    }

    /// The elements of `self` that `other` lacks.
    pub fn difference(&self, other: BTSet<T>) -> (r: BTSet<T>)
        ensures
            r@ == self@.difference(other@),
    {
        let mut r = BTSet::new();
        let mut i: usize = 0;
        while i < self.items.len()
            invariant
                i <= self.items.len(),
                r@ == self.elems().subrange(0, i as int).to_set().difference(other@),
            decreases self.items.len() - i,
        {
            if !other.contains(&self.items[i]) {
                r.insert(self.items[i].duplicate());
            }
            assert(self.elems().subrange(0, i + 1) =~= self.elems().subrange(0, i as int).push(
                self.items[i as int]@,
            ));
            i = i + 1;
            assert(r@ =~= self.elems().subrange(0, i as int).to_set().difference(other@));
        }
        assert(self.elems().subrange(0, i as int) =~= self.elems());
        r
    }

    /// Whether `self` and `other` have an element in common.
    pub fn intersects(&self, other: &Self) -> (r: bool)
        ensures
            r == exists|v: T::V| #[trigger] self@.contains(v) && other@.contains(v),
    {
        proof {
            use_type_invariant(self);
        }
        let mut i: usize = 0;
        while i < self.items.len()
            invariant
                i <= self.items.len(),
                forall|j: int| 0 <= j < i ==> !other@.contains(#[trigger] self.elems()[j]),
            decreases self.items.len() - i,
        {
            if other.contains(&self.items[i]) {
                assert(self@.contains(self.elems()[i as int]));
                return true;
            }
            i = i + 1;
        }
        proof {
            assert forall|v: T::V| #[trigger] self@.contains(v) implies !other@.contains(v) by {
                let j = self.elems().index_of(v);
            }
        }
        false
    }

    pub fn len(&self) -> (r: usize)
        ensures
            r == self@.len(),
    {
        proof {
            use_type_invariant(self);
            self.lemma_elems();
        }
        self.items.len()
    }

    /// Adds every element of `new` to `self`.
    pub fn insert_all(&mut self, new: BTSet<T>) -> (r: bool)
        ensures
            final(self)@ == old(self)@.union(new@),
            r,
    {
        let mut i: usize = 0;
        while i < new.items.len()
            invariant
                i <= new.items.len(),
                self@ == old(self)@.union(new.elems().subrange(0, i as int).to_set()),
            decreases new.items.len() - i,
        {
            self.insert(new.items[i].duplicate());
            assert(new.elems().subrange(0, i + 1) =~= new.elems().subrange(0, i as int).push(
                new.items[i as int]@,
            ));
            i = i + 1;
            assert(self@ =~= old(self)@.union(new.elems().subrange(0, i as int).to_set()));
        }
        assert(new.elems().subrange(0, i as int) =~= new.elems());
        true
    }

    fn copy_items(&self) -> (r: Self)
        ensures
            r@ == self@,
            r.elems() == self.elems(),
    {
        proof {
            use_type_invariant(self);
        }
        let mut items: Vec<T> = Vec::new();
        let mut i: usize = 0;
        while i < self.items.len()
            invariant
                i <= self.items.len(),
                items@.map_values(|t: T| t@) == self.elems().subrange(0, i as int),
                self.elems().no_duplicates(),
            decreases self.items.len() - i,
        {
            items.push(self.items[i].duplicate());
            i = i + 1;
            assert(items@.map_values(|t: T| t@) =~= self.elems().subrange(0, i as int));
        }
        assert(self.elems().subrange(0, i as int) =~= self.elems());
        BTSet { items }
    }
}

impl<T: SetElement> Clone for BTSet<T> {
    fn clone(&self) -> (r: Self)
        ensures
            r@ == self@,
    {
        self.copy_items()
    }
}

impl<T: SetElement> PartialEq for BTSet<T> {
    fn eq(&self, other: &Self) -> (r: bool) {
        self.same(other)
    }
}

impl<T: SetElement> vstd::std_specs::cmp::PartialEqSpecImpl for BTSet<T> {
    open spec fn obeys_eq_spec() -> bool {
        true
    }

    open spec fn eq_spec(&self, other: &Self) -> bool {
        self@ == other@
    }
}

impl<T: SetElement> SetElement for BTSet<T> {
    /// Equal sizes and every element of `self` in `other`.
    fn same(&self, other: &Self) -> (r: bool) {
        proof {
            use_type_invariant(self);
            use_type_invariant(other);
            self.lemma_elems();
            other.lemma_elems();
        }
        if self.items.len() != other.items.len() {
            proof {
                if self@ == other@ {
                    assert(self@.len() == other@.len());
                }
            }
            return false;
        }
        let mut i: usize = 0;
        while i < self.items.len()
            invariant
                i <= self.items.len(),
                forall|j: int| 0 <= j < i ==> other@.contains(#[trigger] self.elems()[j]),
            decreases self.items.len() - i,
        {
            if !other.contains(&self.items[i]) {
                assert(self@.contains(self.elems()[i as int]));
                return false;
            }
            i = i + 1;
        }
        proof {
            assert(self@.subset_of(other@)) by {
                assert forall|v: T::V| self@.contains(v) implies other@.contains(v) by {
                    let j = self.elems().index_of(v);
                }
            }
            vstd::set_lib::lemma_subset_equality(self@, other@);
        }
        true
    }

    fn duplicate(&self) -> (r: Self) {
        self.copy_items()
    }
}

} // verus!
