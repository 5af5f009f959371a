//! The global variables of a machine: a flat map from names to values,
//! kept as two parallel lists in which no name occurs twice.

use crate::value::{Value, ValueView};
use vstd::prelude::*;

verus! {

/// The global variables: names and the values that they are bound to.
pub struct Globals {
    names: Vec<String>,
    values: Vec<Value>,
}

impl Globals {
    /// Both lists have the same length and no name occurs twice.
    pub closed spec fn wf(&self) -> bool {
        &&& self.names.len() == self.values.len()
        &&& forall|i: int, j: int|
            0 <= i < j < self.names.len() ==> self.names[i]@ != self.names[j]@
    }

    spec fn holds(&self, i: int, name: Seq<char>) -> bool {
        0 <= i < self.names.len() && self.names[i]@ == name
    }

    spec fn index_of(&self, name: Seq<char>) -> int {
        choose|i: int| self.holds(i, name)
    }

    proof fn lemma_index_of(&self, i: int, name: Seq<char>)
        requires
            self.wf(),
            self.holds(i, name),
        ensures
            self.index_of(name) == i,
    {
        let j = self.index_of(name);
        assert(self.holds(j, name));
        if i < j {
            assert(self.names[i]@ != self.names[j]@);
        }
        if j < i {
            assert(self.names[j]@ != self.names[i]@);
        }
    }
}

impl View for Globals {
    type V = Map<Seq<char>, ValueView>;

    closed spec fn view(&self) -> Map<Seq<char>, ValueView> {
        Map::new(
            |name: Seq<char>| exists|i: int| self.holds(i, name),
            |name: Seq<char>| self.values[self.index_of(name)]@,
        )
    }
}

impl Globals {
    /// No variable is bound yet.
    pub fn new() -> (g: Globals)
        ensures
            g.wf(),
            g@ == Map::<Seq<char>, ValueView>::empty(),
    {
        let g = Globals { names: Vec::new(), values: Vec::new() };
        assert(g@ =~= Map::<Seq<char>, ValueView>::empty());
        g
    }

    fn find(&self, name: &String) -> (r: Option<usize>)
        requires
            self.wf(),
        ensures
            match r {
                Some(i) => self.holds(i as int, name@) && self.index_of(name@) == i,
                None => forall|i: int| !self.holds(i, name@),
            },
    {
        let mut i: usize = 0;
        while i < self.names.len()
            invariant
                self.wf(),
                i <= self.names.len(),
                forall|j: int| 0 <= j < i ==> !self.holds(j, name@),
            decreases self.names.len() - i,
        {
            if self.names[i] == *name {
                proof {
                    self.lemma_index_of(i as int, name@);
                }
                return Some(i);
            }
            i += 1;
        }
        None
    }

    /// Whether `name` is bound.
    pub fn has(&self, name: &String) -> (b: bool)
        requires
            self.wf(),
        ensures
            b == self@.dom().contains(name@),
    {
        self.find(name).is_some()
    }

    /// The value that `name` is bound to.
    pub fn get(&self, name: &String) -> (r: Option<&Value>)
        requires
            self.wf(),
        ensures
            match r {
                Some(v) => self@.dom().contains(name@) && self@[name@] == v@,
                None => !self@.dom().contains(name@),
            },
    {
        match self.find(name) {
            Some(i) => Some(&self.values[i]),
            None => None,
        }
    }

    /// Binds `name` to `value`, in place of what it was bound to before.
    pub fn set(&mut self, name: String, value: Value)
        requires
            old(self).wf(),
        ensures
            final(self).wf(),
            final(self)@ == old(self)@.insert(name@, value@),
    {
        let ghost key = name@;
        let ghost val = value@;
        match self.find(&name) {
            Some(i) => {
                self.values[i] = value;
                assert(forall|k: Seq<char>, j: int| self.holds(j, k) == old(self).holds(j, k));
                assert(self.wf());
                assert forall|k: Seq<char>| self@.dom().contains(k) implies #[trigger] self@[k]
                    == old(self)@.insert(key, val)[k] by {
                    let j = self.index_of(k);
                    assert(self.holds(j, k));
                    old(self).lemma_index_of(j, k);
                    if k == key {
                        self.lemma_index_of(i as int, k);
                    }
                }
                assert(old(self).holds(i as int, key));
                assert(self@ =~= old(self)@.insert(key, val));
            },
            None => {
                self.names.push(name);
                self.values.push(value);
                let ghost n = old(self).names.len() as int;
                assert(self.holds(n, key));
                assert(forall|j: int| 0 <= j < n ==> !old(self).holds(j, key));
                assert(self.wf()) by {
                    assert forall|i: int, j: int| 0 <= i < j < self.names.len() implies self.names[i]@
                        != self.names[j]@ by {
                        if j == n {
                            assert(!old(self).holds(i, key));
                        }
                    }
                }
                assert forall|k: Seq<char>| self@.dom().contains(k) implies #[trigger] self@[k]
                    == old(self)@.insert(key, val)[k] by {
                    let j = self.index_of(k);
                    assert(self.holds(j, k));
                    if k != key {
                        assert(old(self).holds(j, k));
                        old(self).lemma_index_of(j, k);
                    } else {
                        self.lemma_index_of(n, k);
                    }
                }
                assert forall|k: Seq<char>| self@.dom().contains(k) == old(self)@.insert(
                    key,
                    val,
                ).dom().contains(k) by {
                    if self@.dom().contains(k) {
                        let j = choose|j: int| self.holds(j, k);
                        if j < n {
                            assert(old(self).holds(j, k));
                        }
                    }
                    if old(self)@.dom().contains(k) {
                        let j = choose|j: int| old(self).holds(j, k);
                        assert(self.holds(j, k));
                    }
                }
                assert(self@ =~= old(self)@.insert(key, val));
            },
        }
    }
}

} // verus!
