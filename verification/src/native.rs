//! The registry of host functions. The machine only needs to know which
//! names the host answers for; the callbacks themselves stay with the host.

use vstd::prelude::*;

verus! {

/// The names of the host functions.
pub struct FFI {
    names: Vec<String>,
}

impl View for FFI {
    type V = Set<Seq<char>>;

    closed spec fn view(&self) -> Set<Seq<char>> {
        Set::new(|name: Seq<char>| exists|i: int| 0 <= i < self.names.len() && self.names[i]@ == name)
    }
}

impl FFI {
    /// A registry without a name in it.
    pub fn new() -> (ffi: FFI)
        ensures
            ffi@ == Set::<Seq<char>>::empty(),
    {
        let ffi = FFI { names: Vec::new() };
        assert(ffi@ =~= Set::<Seq<char>>::empty());
        ffi
    }

    /// Registers `s` as the name of a host function.
    pub fn insert(&mut self, s: String)
        ensures
            final(self)@ == old(self)@.insert(s@),
    {
        self.names.push(s);
        assert forall|name: Seq<char>| self@.contains(name) == old(self)@.insert(s@).contains(
            name,
        ) by {
            if old(self)@.contains(name) {
                let i = choose|i: int| 0 <= i < old(self).names.len() && old(self).names[i]@ == name;
                assert(self.names[i]@ == name);
            }
            if name == s@ {
                assert(self.names[self.names.len() - 1]@ == name);
            }
        }
        assert(self@ =~= old(self)@.insert(s@));
    }

    /// Whether the host answers for `s`.
    pub fn has(&self, s: &String) -> (b: bool)
        ensures
            b == self@.contains(s@),
    {
        let mut i: usize = 0;
        while i < self.names.len()
            invariant
                i <= self.names.len(),
                forall|j: int| 0 <= j < i ==> self.names[j]@ != s@,
            decreases self.names.len() - i,
        {
            if self.names[i] == *s {
                assert(self.names[i as int]@ == s@);
                return true;
            }
            i += 1;
        }
        false
    }
}

} // verus!
