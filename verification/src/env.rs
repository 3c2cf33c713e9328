//! A table from names to shared cells.
use crate::data::Data;
use std::rc::Rc;
use vstd::prelude::*;

verus! {

fn f_add(_a: Data, _b: Data, _e: &Env) {
}

/// Bindings of names to cells, each name at most once.
pub struct Env {
    table: Vec<(String, Rc<Data>)>,
}

/// The index of the entry for `name` in `t`.
pub open spec fn entry_of(t: Seq<(String, Rc<Data>)>, name: Seq<char>) -> int {
    choose|i: int| 0 <= i < t.len() && t[i].0@ == name
}

/// Whether `t` has an entry for `name`.
pub open spec fn has_entry(t: Seq<(String, Rc<Data>)>, name: Seq<char>) -> bool {
    exists|i: int| 0 <= i < t.len() && #[trigger] t[i].0@ == name
}

impl View for Env {
    type V = Map<Seq<char>, Data>;

    closed spec fn view(&self) -> Map<Seq<char>, Data> {
        Map::new(
            |name: Seq<char>| has_entry(self.table@, name),
            |name: Seq<char>| *self.table@[entry_of(self.table@, name)].1,
        )
    }
}

impl Env {
    /// No name has two entries.
    pub closed spec fn wf(&self) -> bool {
        forall|i: int, j: int|
            0 <= i < self.table@.len() && 0 <= j < self.table@.len() && #[trigger] self.table@[i].0@
                == #[trigger] self.table@[j].0@ ==> i == j
    }

    /// An empty table.
    pub fn new() -> (e: Env)
        ensures
            e.wf(),
            e@ == Map::<Seq<char>, Data>::empty(),
    {
        let e = Env { table: Vec::new() };
        assert(e@ =~= Map::<Seq<char>, Data>::empty());
        e
    }

    /// Finds the position of the entry for `name`.
    fn find(&self, name: &String) -> (r: Option<usize>)
        requires
            self.wf(),
        ensures
            match r {
                Some(i) => i < self.table@.len() && self.table@[i as int].0@ == name@,
                None => !has_entry(self.table@, name@),
            },
    {
        let mut i: usize = 0;
        while i < self.table.len()
            invariant
                i <= self.table@.len(),
                forall|j: int| 0 <= j < i ==> self.table@[j].0@ != name@,
            decreases self.table@.len() - i,
        {
            if self.table[i].0 == *name {
                return Some(i);
            }
            i = i + 1;
        }
        None
    }

    /// The cell bound to `name`, if any.
    pub fn get(&self, name: &String) -> (r: Option<&Rc<Data>>)
        requires
            self.wf(),
        ensures
            r is Some <==> self@.contains_key(name@),
            r is Some ==> **r.unwrap() == self@[name@],
    {
        match self.find(name) {
            Some(i) => {
                assert(has_entry(self.table@, name@));
                assert(entry_of(self.table@, name@) == i as int);
                Some(&self.table[i].1)
            },
            None => None,
        }
    }

    /// Binds `name` to `data`, in place of its earlier binding if any.
    pub fn set(&mut self, name: String, data: Rc<Data>)
        requires
            old(self).wf(),
        ensures
            final(self).wf(),
            final(self)@ == old(self)@.insert(name@, *data),
    {
        let ghost old_t = self.table@;
        let ghost k = name@;
        let ghost d = *data;
        match self.find(&name) {
            Some(i) => {
                self.table.set(i, (name, data));
                assert forall|n: Seq<char>| #[trigger] has_entry(self.table@, n) == has_entry(old_t, n) by {
                    if has_entry(old_t, n) {
                        let j = choose|j: int| 0 <= j < old_t.len() && #[trigger] old_t[j].0@ == n;
                        assert(self.table@[j].0@ == n);
                    }
                    if has_entry(self.table@, n) {
                        let j = choose|j: int| 0 <= j < self.table@.len() && #[trigger] self.table@[j].0@ == n;
                        assert(old_t[j].0@ == n);
                    }
                }
                assert forall|n: Seq<char>| has_entry(self.table@, n) implies #[trigger] entry_of(self.table@, n)
                    == entry_of(old_t, n) || n == k by {
                    let a = entry_of(self.table@, n);
                    let b = entry_of(old_t, n);
                    if n != k {
                        assert(old_t[a].0@ == n);
                        assert(self.table@[b].0@ == n);
                    }
                }
                assert(self@ =~= old(self)@.insert(k, d));
            },
            None => {
                self.table.push((name, data));
                assert forall|n: Seq<char>| #[trigger] has_entry(self.table@, n) == (has_entry(old_t, n) || n == k) by {
                    if has_entry(old_t, n) {
                        let j = choose|j: int| 0 <= j < old_t.len() && #[trigger] old_t[j].0@ == n;
                        assert(self.table@[j].0@ == n);
                    }
                    if n == k {
                        assert(self.table@[old_t.len() as int].0@ == n);
                    }
                    if has_entry(self.table@, n) {
                        let j = choose|j: int| 0 <= j < self.table@.len() && #[trigger] self.table@[j].0@ == n;
                        if j < old_t.len() {
                            assert(old_t[j].0@ == n);
                        }
                    }
                }
                assert forall|n: Seq<char>| has_entry(self.table@, n) implies (n != k ==> #[trigger] entry_of(self.table@, n)
                    == entry_of(old_t, n)) && (n == k ==> entry_of(self.table@, n) == old_t.len()) by {
                    let a = entry_of(self.table@, n);
                    if n != k {
                        let b = entry_of(old_t, n);
                        assert(old_t[b].0@ == n);
                        assert(self.table@[b].0@ == n);
                    } else {
                        assert(self.table@[old_t.len() as int].0@ == n);
                    }
                }
                assert(self@ =~= old(self)@.insert(k, d));
            },
        }
    }
}

} // verus!
