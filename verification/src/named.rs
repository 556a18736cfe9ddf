//! Values under names.

use crate::text::same_text;
use vstd::prelude::*;
use vstd::string::*;

verus! {

/// Values under names.
#[derive(Debug)]
pub struct Named<T> {
    names: Vec<String>,
    values: Vec<T>,
}

/// The name is one of the list.
spec fn named(names: Seq<String>, name: Seq<char>) -> bool {
    exists|i: int| 0 <= i < names.len() && (#[trigger] names[i])@ == name
}

/// Where a name of the list stands.
spec fn name_place(names: Seq<String>, name: Seq<char>) -> int {
    choose|i: int| 0 <= i < names.len() && (#[trigger] names[i])@ == name
}

impl<T> View for Named<T> {
    type V = Map<Seq<char>, T>;

    closed spec fn view(&self) -> Map<Seq<char>, T> {
        Map::new(
            |n: Seq<char>| named(self.names@, n),
            |n: Seq<char>| self.values@[name_place(self.names@, n)],
        )
    }
}

impl<T> Named<T> {
    /// Every name stands once.
    pub closed spec fn wf(&self) -> bool {
        &&& self.names@.len() == self.values@.len()
        &&& forall|i: int, j: int|
            0 <= i < j < self.names@.len() ==> (#[trigger] self.names@[i])@ != (
            #[trigger] self.names@[j])@
    }

    /// The value under a name.
    pub open spec fn value(&self, name: Seq<char>) -> Option<T> {
        if self@.contains_key(name) {
            Some(self@[name])
        } else {
            None
        }
    }

    /// Nothing under any name.
    pub fn new() -> (n: Named<T>)
        ensures
            n.wf(),
            n@ == Map::<Seq<char>, T>::empty(),
    {
        let n = Named { names: Vec::new(), values: Vec::new() };
        proof {
            assert(n@ =~= Map::<Seq<char>, T>::empty());
        }
        n
    }

    /// Where a name stands.
    fn find(&self, name: &str) -> (at: Option<usize>)
        requires
            self.wf(),
        ensures
            match at {
                Some(i) => i < self.names@.len() && self.names@[i as int]@ == name@ && self.value(
                    name@,
                ) == Some(self.values@[i as int]),
                None => self.value(name@) is None && !named(self.names@, name@),
            },
    {
        for i in 0..self.names.len()
            invariant
                self.wf(),
                forall|j: int| 0 <= j < i ==> (#[trigger] self.names@[j])@ != name@,
        {
            if same_text(&self.names[i], name) {
                proof {
                    assert(self.names@[i as int]@ == name@);
                    assert(named(self.names@, name@));
                    let p = name_place(self.names@, name@);
                    assert(self.names@[p]@ == name@);
                    assert(p == i);
                }
                return Some(i);
            }
        }
        None
    }

    /// The value under a name.
    pub fn get(&self, name: &str) -> (v: Option<&T>)
        requires
            self.wf(),
        ensures
            match v {
                Some(x) => self.value(name@) == Some(*x),
                None => self.value(name@) is None,
            },
    {
        match self.find(name) {
            Some(i) => Some(&self.values[i]),
            None => None,
        }
    }

    /// Puts a value under a name, in place of the one that was there.
    pub fn insert(&mut self, name: String, v: T)
        requires
            old(self).wf(),
        ensures
            final(self).wf(),
            final(self)@ == old(self)@.insert(name@, v),
    {
        let ghost before = *self;
        match self.find(name.as_str()) {
            Some(i) => {
                self.values.set(i, v);
                proof {
                    assert(self.names@ == before.names@);
                    assert forall|n: Seq<char>| named(self.names@, n) implies self@[n]
                        == before@.insert(name@, v)[n] by {
                        let p = name_place(self.names@, n);
                        assert(self.names@[p]@ == n);
                        if n == name@ {
                            assert(p == i);
                        }
                    }
                    assert(self@ =~= before@.insert(name@, v));
                }
            },
            None => {
                let ghost key = name@;
                self.names.push(name);
                self.values.push(v);
                proof {
                    let last = before.names@.len() as int;
                    assert forall|j: int| 0 <= j < last implies self.names@[j]@ != key by {
                        assert(self.names@[j] == before.names@[j]);
                    }
                    assert(self.names@[last]@ == key);
                    assert(self.wf());
                    assert forall|n: Seq<char>|
                        named(self.names@, n) == (n == key || named(before.names@, n)) by {
                        if named(before.names@, n) {
                            let p = name_place(before.names@, n);
                            assert(self.names@[p]@ == n);
                        }
                        if named(self.names@, n) {
                            let p = name_place(self.names@, n);
                            if p < last {
                                assert(before.names@[p]@ == n);
                            }
                        }
                    }
                    assert forall|n: Seq<char>| named(self.names@, n) implies self@[n]
                        == before@.insert(key, v)[n] by {
                        let p = name_place(self.names@, n);
                        assert(self.names@[p]@ == n);
                        if n == key {
                            assert(p == last);
                        } else {
                            let o = name_place(before.names@, n);
                            assert(before.names@[o]@ == n);
                            assert(self.names@[o]@ == n);
                            assert(p == o);
                        }
                    }
                    assert(self@ =~= before@.insert(key, v));
                }
            },
        }
    }
}

} // verus!
