//! Substitutions: finite maps from variable names to formulas.

use vstd::prelude::*;
use crate::expr::{Expr, Formula};

verus! {

/// A substitution from variable names to formulas.
pub struct Subst {
    entries: Vec<(String, Expr)>,
}

impl Subst {
    spec fn key_at(self, i: int) -> Seq<char> {
        self.entries@[i].0@
    }

    spec fn has_key_at(self, k: Seq<char>, i: int) -> bool {
        0 <= i < self.entries@.len() && self.key_at(i) == k
    }

    #[verifier::type_invariant]
    spec fn keys_distinct(self) -> bool {
        forall|i: int, j: int|
            0 <= i < j < self.entries@.len() ==> #[trigger] self.key_at(i) != #[trigger] self.key_at(j)
    }
}

impl View for Subst {
    type V = Map<Seq<char>, Formula>;

    closed spec fn view(&self) -> Map<Seq<char>, Formula> {
        Map::new(
            |k: Seq<char>| exists|i: int| self.has_key_at(k, i),
            |k: Seq<char>| self.entries@[choose|i: int| self.has_key_at(k, i)].1@,
        )
    }
}

impl Subst {
    proof fn lemma_entry(self, i: int)
        requires
            0 <= i < self.entries@.len(),
            self.keys_distinct(),
        ensures
            self@.contains_key(self.key_at(i)),
            self@[self.key_at(i)] == self.entries@[i].1@,
    {
        let k = self.key_at(i);
        assert(self.has_key_at(k, i));
        let j = choose|j: int| self.has_key_at(k, j);
        if j != i {
            if j < i {
                assert(self.key_at(j) != self.key_at(i));
            } else {
                assert(self.key_at(i) != self.key_at(j));
            }
        }
    }

    /// The empty substitution.
    pub fn new() -> (s: Subst)
        ensures
            s@ == Map::<Seq<char>, Formula>::empty(),
    {
        let s = Subst { entries: Vec::new() };
        assert(s@ =~= Map::<Seq<char>, Formula>::empty());
        s
    }

    /// The number of bound variables.
    pub fn len(&self) -> (n: usize)
        ensures
            n == self@.len(),
    {
        proof {
            use_type_invariant(self);
        }
        let n = self.entries.len();
        proof {
            self.lemma_len();
        }
        n
    }

    proof fn lemma_len(self)
        requires
            self.keys_distinct(),
        ensures
            self@.dom().finite(),
            self@.len() == self.entries@.len(),
    {
        let keys = Seq::new(self.entries@.len(), |i: int| self.key_at(i));
        assert(keys.no_duplicates()) by {
            assert forall|i: int, j: int|
                0 <= i < keys.len() && 0 <= j < keys.len() && i != j implies keys[i] != keys[j] by {
                if i < j {
                    assert(self.key_at(i) != self.key_at(j));
                } else {
                    assert(self.key_at(j) != self.key_at(i));
                }
            }
        }
        assert(self@.dom() =~= keys.to_set()) by {
            assert forall|k: Seq<char>| self@.dom().contains(k) implies keys.to_set().contains(k) by {
                let i = choose|i: int| self.has_key_at(k, i);
                assert(keys[i] == k);
            }
            assert forall|k: Seq<char>| keys.to_set().contains(k) implies self@.dom().contains(k) by {
                let i = choose|i: int| 0 <= i < keys.len() && keys[i] == k;
                assert(self.has_key_at(k, i));
            }
        }
        keys.unique_seq_to_set();
    }

    /// The formula bound to `name`, if any.
    pub fn get(&self, name: &String) -> (r: Option<&Expr>)
        ensures
            r is Some <==> self@.contains_key(name@),
            r matches Some(e) ==> e@ == self@[name@],
    {
        proof {
            use_type_invariant(self);
        }
        let mut i: usize = 0;
        while i < self.entries.len()
            invariant
                i <= self.entries@.len(),
                self.keys_distinct(),
                forall|j: int| 0 <= j < i ==> self.key_at(j) != name@,
            decreases self.entries@.len() - i,
        {
            if self.entries[i].0 == *name {
                proof {
                    self.lemma_entry(i as int);
                }
                return Some(&self.entries[i].1);
            }
            i = i + 1;
        }
        assert(!self@.contains_key(name@)) by {
            if self@.contains_key(name@) {
                let j = choose|j: int| self.has_key_at(name@, j);
                assert(self.key_at(j) != name@);
            }
        }
        None
    }

    /// Bind `name` to `e`, replacing any earlier binding of `name`.
    pub fn insert(&mut self, name: String, e: Expr)
        ensures
            final(self)@ == old(self)@.insert(name@, e@),
    {
        proof {
            use_type_invariant(&*self);
        }
        let ghost old_self = *self;
        let mut i: usize = 0;
        let n = self.entries.len();
        while i < n
            invariant
                i <= n,
                n == self.entries@.len(),
                *self == old_self,
                old_self == *old(self),
                self.keys_distinct(),
                forall|j: int| 0 <= j < i ==> self.key_at(j) != name@,
            decreases n - i,
        {
            if self.entries[i].0 == name {
                let mut entries: Vec<(String, Expr)> = Vec::new();
                std::mem::swap(&mut entries, &mut self.entries);
                let ghost nm = name@;
                let ghost ev = e@;
                entries.set(i, (name, e));
                let ghost new_s = Subst { entries: entries };
                proof {
                    assert(entries@ == old_self.entries@.update(i as int, (name, e)));
                    assert forall|a: int, b: int| 0 <= a < b < entries@.len() implies
                        #[trigger] new_s.key_at(a) != #[trigger] new_s.key_at(b) by {
                        assert(new_s.key_at(a) == old_self.key_at(a));
                        assert(new_s.key_at(b) == old_self.key_at(b));
                        assert(old_self.key_at(a) != old_self.key_at(b));
                    }
                    assert(new_s.keys_distinct());
                    assert forall|k: Seq<char>| #![auto] new_s@.contains_key(k) <==> old_self@.insert(name@, e@).contains_key(k) by {
                        if k == name@ {
                            assert(new_s.has_key_at(k, i as int));
                        } else {
                            if old_self@.contains_key(k) {
                                let j = choose|j: int| old_self.has_key_at(k, j);
                                assert(new_s.has_key_at(k, j));
                            }
                            if new_s@.contains_key(k) {
                                let j = choose|j: int| new_s.has_key_at(k, j);
                                assert(old_self.has_key_at(k, j));
                            }
                        }
                    }
                    assert forall|k: Seq<char>| #![auto] new_s@.contains_key(k) implies new_s@[k] == old_self@.insert(name@, e@)[k] by {
                        let j = choose|j: int| new_s.has_key_at(k, j);
                        new_s.lemma_entry(j);
                        if k != name@ {
                            assert(j != i);
                            assert(new_s.entries@[j] == old_self.entries@[j]);
                            old_self.lemma_entry(j);
                        } else {
                            new_s.lemma_entry(i as int);
                        }
                    }
                    assert(new_s@ =~= old_self@.insert(name@, e@));
                }
                self.entries = entries;
                assert(self@ == new_s@);

                return;
            }
            i = i + 1;
        }
        assert(forall|j: int| 0 <= j < n ==> old_self.key_at(j) != name@);
        let mut entries: Vec<(String, Expr)> = Vec::new();
        std::mem::swap(&mut entries, &mut self.entries);
        entries.push((name, e));
        proof {
            let new_s = Subst { entries: entries };
            assert(new_s.entries@ == old_self.entries@.push((name, e)));
            assert forall|a: int, b: int| 0 <= a < b < new_s.entries@.len() implies
                #[trigger] new_s.key_at(a) != #[trigger] new_s.key_at(b) by {
                assert(new_s.key_at(a) == old_self.key_at(a));
                if b < n {
                    assert(new_s.key_at(b) == old_self.key_at(b));
                    assert(old_self.key_at(a) != old_self.key_at(b));
                } else {
                    assert(new_s.key_at(b) == name@);
                }
            }
            assert(new_s.keys_distinct());
            assert forall|k: Seq<char>| #![auto] new_s@.contains_key(k) <==> old_self@.insert(name@, e@).contains_key(k) by {
                if k == name@ {
                    assert(new_s.has_key_at(k, n as int));
                } else {
                    if old_self@.contains_key(k) {
                        let j = choose|j: int| old_self.has_key_at(k, j);
                        assert(new_s.has_key_at(k, j));
                    }
                    if new_s@.contains_key(k) {
                        let j = choose|j: int| new_s.has_key_at(k, j);
                        assert(old_self.has_key_at(k, j));
                    }
                }
            }
            assert forall|k: Seq<char>| #![auto] new_s@.contains_key(k) implies new_s@[k] == old_self@.insert(name@, e@)[k] by {
                let j = choose|j: int| new_s.has_key_at(k, j);
                new_s.lemma_entry(j);
                if k != name@ {
                    assert(j < n);
                    assert(new_s.entries@[j] == old_self.entries@[j]);
                    old_self.lemma_entry(j);
                } else {
                    if j < n {
                        assert(new_s.key_at(j) == old_self.key_at(j));
                        assert(old_self.key_at(j) != name@);
                    }
                }
            }
            assert(new_s@ =~= old_self@.insert(name@, e@));
        }
        self.entries = entries;
    }
}

impl Clone for Subst {
    fn clone(&self) -> (r: Self)
        ensures
            r@ == self@,
    {
        proof {
            use_type_invariant(self);
        }
        let mut entries: Vec<(String, Expr)> = Vec::new();
        let mut i: usize = 0;
        while i < self.entries.len()
            invariant
                i <= self.entries@.len(),
                entries@.len() == i,
                forall|j: int| 0 <= j < i ==> #[trigger] entries@[j].0@ == self.entries@[j].0@
                    && entries@[j].1@ == self.entries@[j].1@,
            decreases self.entries@.len() - i,
        {
            let k = self.entries[i].0.clone();
            let v = self.entries[i].1.clone();
            entries.push((k, v));
            i = i + 1;
        }
        let ghost g = Subst { entries };
        proof {
            assert forall|a: int, b: int| 0 <= a < b < g.entries@.len() implies
                #[trigger] g.key_at(a) != #[trigger] g.key_at(b) by {
                assert(self.key_at(a) != self.key_at(b));
            }
        }
        let r = Subst { entries };
        proof {
            assert forall|k: Seq<char>| #![auto] r@.contains_key(k) <==> self@.contains_key(k) by {
                if r@.contains_key(k) {
                    let j = choose|j: int| r.has_key_at(k, j);
                    assert(self.has_key_at(k, j));
                }
                if self@.contains_key(k) {
                    let j = choose|j: int| self.has_key_at(k, j);
                    assert(r.has_key_at(k, j));
                }
            }
            assert forall|k: Seq<char>| #![auto] r@.contains_key(k) implies r@[k] == self@[k] by {
                let j = choose|j: int| r.has_key_at(k, j);
                r.lemma_entry(j);
                self.lemma_entry(j);
            }
            assert(r@ =~= self@);
        }
        r
    }
}

} // verus!
