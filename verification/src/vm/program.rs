//! A compiled program: code, functions, and how much room it needs.

use vstd::prelude::*;
use crate::text::{lemma_seq_less_asym, lemma_seq_less_total, lemma_seq_less_trans, seq_less, str_eq, str_less};
use crate::vm::op::Op;

verus! {

/// Where a function starts and what it needs.
#[derive(Clone, Copy, Debug)]
pub struct FnDef {
    /// Index into the code where the body begins.
    pub addr: usize,
    pub arity: usize,
    /// Registers the body needs, parameters included.
    pub frame: usize,
}

/// Functions by key, held in key order so that walking them is
/// deterministic: the same table always lists its functions the same way.
///
/// Looked up by name at run time, so a function can be called before it is
/// defined and can call itself. The key is whatever the language decided
/// identity means, which is why nothing here folds it.
#[derive(Debug)]
pub struct FnTable {
    entries: Vec<(String, FnDef)>,
}

impl FnTable {
    /// The keys, in the order the table holds them.
    pub closed spec fn names(&self) -> Seq<Seq<char>> {
        self.entries@.map_values(|e: (String, FnDef)| e.0@)
    }

    /// The functions, in the same order as their keys.
    pub closed spec fn defs(&self) -> Seq<FnDef> {
        self.entries@.map_values(|e: (String, FnDef)| e.1)
    }

    /// Each key with its function, in key order.
    pub open spec fn listing(&self) -> Seq<(Seq<char>, FnDef)> {
        Seq::new(self.names().len(), |i: int| (self.names()[i], self.defs()[i]))
    }

    /// Keys strictly increase, so none occurs twice.
    pub open spec fn wf(&self) -> bool {
        &&& self.names().len() == self.defs().len()
        &&& forall|a: int, b: int| 0 <= a < b < self.names().len() ==> seq_less(self.names()[a], self.names()[b])
    }

    pub fn new() -> (t: FnTable)
        ensures
            t.wf(),
            t.names() == Seq::<Seq<char>>::empty(),
            t@ == Map::<Seq<char>, FnDef>::empty(),
    {
        let t = FnTable { entries: Vec::new() };
        proof {
            assert(t.names() =~= Seq::<Seq<char>>::empty());
            assert(t@ =~= Map::<Seq<char>, FnDef>::empty());
        }
        t
    }

    /// How many functions the table holds.
    pub fn len(&self) -> (n: usize)
        ensures
            n == self.names().len(),
    {
        self.entries.len()
    }

    /// The `i`th function in key order.
    pub fn entry(&self, i: usize) -> (e: (&String, FnDef))
        requires
            i < self.names().len(),
        ensures
            e.0@ == self.names()[i as int],
            e.1 == self.defs()[i as int],
    {
        let e = &self.entries[i];
        (&e.0, e.1)
    }

    /// Where `name` would sit: past every smaller key.
    fn position(&self, name: &str) -> (k: usize)
        requires
            self.wf(),
        ensures
            k <= self.names().len(),
            forall|q: int| 0 <= q < k ==> seq_less(#[trigger] self.names()[q], name@),
            k < self.names().len() ==> !seq_less(self.names()[k as int], name@),
    {
        let mut k: usize = 0;
        while k < self.entries.len() && str_less(self.entries[k].0.as_str(), name)
            invariant
                self.wf(),
                k <= self.names().len(),
                forall|q: int| 0 <= q < k ==> seq_less(#[trigger] self.names()[q], name@),
            decreases self.names().len() - k,
        {
            k = k + 1;
        }
        k
    }

    /// The function called `name`, if there is one.
    pub fn get(&self, name: &str) -> (r: Option<FnDef>)
        requires
            self.wf(),
        ensures
            r == (if self@.contains_key(name@) { Some(self@[name@]) } else { None::<FnDef> }),
    {
        let k = self.position(name);
        if k < self.entries.len() && str_eq(self.entries[k].0.as_str(), name) {
            proof {
                self.lemma_index_of(k as int);
            }
            Some(self.entries[k].1)
        } else {
            proof {
                if self.names().contains(name@) {
                    let j = self.names().index_of(name@);
                    if j < k {
                        lemma_seq_less_asym(name@, name@);
                    } else if j > k {
                        lemma_seq_less_total(self.names()[k as int], name@);
                    }
                }
            }
            None
        }
    }

    /// Adds `name`, or replaces what it held.
    pub fn insert(&mut self, name: String, def: FnDef)
        requires
            old(self).wf(),
        ensures
            final(self).wf(),
            final(self)@ == old(self)@.insert(name@, def),
    {
        let k = self.position(name.as_str());
        let ghost before = self.entries@;
        if k < self.entries.len() && str_eq(self.entries[k].0.as_str(), name.as_str()) {
            self.entries.set(k, (name, def));
            proof {
                assert(self.names() =~= old(self).names());
                assert(self.defs() =~= old(self).defs().update(k as int, def));
                assert(self@ =~= old(self)@.insert(name@, def)) by {
                    old(self).lemma_index_of(k as int);
                    self.lemma_index_of(k as int);
                    assert forall|w: Seq<char>| self@.contains_key(w) implies self@[w] == old(self)@.insert(name@, def)[w] by {
                        let j = self.names().index_of(w);
                        self.lemma_index_of(j);
                        old(self).lemma_index_of(j);
                    }
                }
            }
        } else {
            proof {
                if k < old(self).names().len() {
                    lemma_seq_less_total(old(self).names()[k as int], name@);
                }
            }
            self.entries.insert(k, (name, def));
            proof {
                let n0 = old(self).names();
                assert(self.names() =~= n0.insert(k as int, name@));
                assert(self.defs() =~= old(self).defs().insert(k as int, def));
                assert forall|j: int| k <= j < n0.len() implies seq_less(name@, #[trigger] n0[j]) by {
                    if j > k {
                        assert(seq_less(n0[k as int], n0[j]));
                        lemma_seq_less_trans(name@, n0[k as int], n0[j]);
                    }
                }
                assert forall|a: int, b: int| 0 <= a < b < self.names().len() implies seq_less(self.names()[a], self.names()[b]) by {
                    if b < k {
                    } else if b == k {
                    } else if a < k {
                        assert(seq_less(n0[a], name@));
                        assert(seq_less(name@, n0[b - 1]));
                        lemma_seq_less_trans(n0[a], name@, n0[b - 1]);
                    } else if a == k {
                        assert(seq_less(name@, n0[b - 1]));
                    } else {
                        assert(seq_less(n0[a - 1], n0[b - 1]));
                    }
                }
                assert(!n0.contains(name@)) by {
                    if n0.contains(name@) {
                        let j = n0.index_of(name@);
                        if j < k {
                            lemma_seq_less_asym(name@, name@);
                        } else if j == k {
                        } else {
                            assert(seq_less(n0[k as int], n0[j]));
                            lemma_seq_less_asym(n0[k as int], name@);
                        }
                    }
                }
                assert(self@ =~= old(self)@.insert(name@, def)) by {
                    self.lemma_index_of(k as int);
                    assert forall|w: Seq<char>| #![auto] self@.contains_key(w) implies self@[w] == old(self)@.insert(name@, def)[w] by {
                        let j = self.names().index_of(w);
                        self.lemma_index_of(j);
                        if j < k {
                            old(self).lemma_index_of(j);
                        } else if j > k {
                            old(self).lemma_index_of(j - 1);
                        }
                    }
                    assert forall|w: Seq<char>| #![auto] old(self)@.insert(name@, def).contains_key(w) implies self@.contains_key(w) by {
                        if w != name@ {
                            let j = n0.index_of(w);
                            if j < k {
                                assert(self.names()[j] == w);
                            } else {
                                assert(self.names()[j + 1] == w);
                            }
                        }
                    }
                }
            }
        }
    }

    /// In a table whose keys do not repeat, the key at `i` finds `i`.
    pub proof fn lemma_index_of(&self, i: int)
        requires
            self.wf(),
            0 <= i < self.names().len(),
        ensures
            self.names().contains(self.names()[i]),
            self.names().index_of(self.names()[i]) == i,
            self@.contains_key(self.names()[i]),
            self@[self.names()[i]] == self.defs()[i],
    {
        let w = self.names()[i];
        assert(self.names().contains(w));
        let j = self.names().index_of(w);
        if j < i {
            lemma_seq_less_asym(w, w);
        } else if j > i {
            lemma_seq_less_asym(w, w);
        }
    }
}

impl View for FnTable {
    type V = Map<Seq<char>, FnDef>;

    /// Each key to its function.
    open spec fn view(&self) -> Map<Seq<char>, FnDef> {
        Map::new(
            |k: Seq<char>| self.names().contains(k),
            |k: Seq<char>| self.defs()[self.names().index_of(k)],
        )
    }
}

#[derive(Debug)]
pub struct Program<X> {
    pub code: Vec<Op<X>>,
    /// Functions by key.
    pub fns: FnTable,
    /// Registers the top-level frame needs.
    pub frame: usize,
    /// Global slots the program touches.
    pub globals: usize,
}

impl<X> Default for Program<X> {
    fn default() -> (p: Program<X>)
        ensures
            p.code@ == Seq::<Op<X>>::empty(),
            p.fns.wf(),
            p.fns.names() == Seq::<Seq<char>>::empty(),
            p.frame == 1,
            p.globals == 0,
    {
        Program { code: Vec::new(), fns: FnTable::new(), frame: 1, globals: 0 }
    }
}

} // verus!
