//! An environment table: text keys mapped to text values.
use vstd::prelude::*;

verus! {

/// A table of environment variables, each key present at most once.
///
/// It stands for a process environment restricted to the entries whose key and
/// value are both valid text.
pub struct Environment {
    vars: Vec<(String, String)>,
}

/// Whether `m` holds exactly the entries of `vars`.
pub open spec fn holds_entries(vars: Seq<(String, String)>, m: Map<Seq<char>, Seq<char>>) -> bool {
    &&& forall|i: int|
        0 <= i < vars.len() ==> #[trigger] m.contains_key(vars[i].0@) && m[vars[i].0@]
            == vars[i].1@
    &&& forall|k: Seq<char>|
        #[trigger] m.contains_key(k) ==> exists|i: int| 0 <= i < vars.len() && vars[i].0@ == k
}

/// Whether no key occurs twice among `vars`.
pub open spec fn keys_distinct(vars: Seq<(String, String)>) -> bool {
    forall|i: int, j: int| 0 <= i < j < vars.len() ==> vars[i].0@ != vars[j].0@
}

impl View for Environment {
    type V = Map<Seq<char>, Seq<char>>;

    closed spec fn view(&self) -> Map<Seq<char>, Seq<char>> {
        Map::new(
            |k: Seq<char>| exists|i: int| 0 <= i < self.vars@.len() && self.vars@[i].0@ == k,
            |k: Seq<char>|
                self.vars@[choose|i: int| 0 <= i < self.vars@.len() && self.vars@[i].0@ == k].1@,
        )
    }
}

impl Environment {
    /// Whether no key occurs twice in the table.
    pub closed spec fn wf(&self) -> bool {
        keys_distinct(self.vars@)
    }

    proof fn lemma_view(&self)
        requires
            keys_distinct(self.vars@),
        ensures
            holds_entries(self.vars@, self@),
    {
        let vars = self.vars@;
        assert forall|i: int| 0 <= i < vars.len() implies #[trigger] self@.contains_key(
            vars[i].0@,
        ) && self@[vars[i].0@] == vars[i].1@ by {
            let k = vars[i].0@;
            assert(exists|j: int| 0 <= j < vars.len() && vars[j].0@ == k);
            let j = choose|j: int| 0 <= j < vars.len() && vars[j].0@ == k;
            if j != i {
                if j < i {
                    assert(vars[j].0@ != vars[i].0@);
                } else {
                    assert(vars[i].0@ != vars[j].0@);
                }
            }
        }
    }

    proof fn lemma_view_is(&self, m: Map<Seq<char>, Seq<char>>)
        requires
            holds_entries(self.vars@, m),
        ensures
            self@ == m,
    {
        let vars = self.vars@;
        assert forall|k: Seq<char>| #[trigger] self@.contains_key(k) <==> m.contains_key(k) by {
            if self@.contains_key(k) {
                let i = choose|i: int| 0 <= i < vars.len() && vars[i].0@ == k;
                assert(m.contains_key(vars[i].0@));
            }
        }
        assert forall|k: Seq<char>| #[trigger] self@.contains_key(k) implies self@[k] == m[k] by {
            let i = choose|i: int| 0 <= i < vars.len() && vars[i].0@ == k;
            assert(m.contains_key(vars[i].0@));
        }
        assert(self@ =~= m);
    }


    /// An empty table.
    pub fn new() -> (r: Self)
        ensures
            r.wf(),
            r@ == Map::<Seq<char>, Seq<char>>::empty(),
    {
        let r = Environment { vars: Vec::new() };
        proof {
            r.lemma_view_is(Map::empty());
        }
        r
    }

    /// A table of the entries `vars`, whose keys are distinct.
    pub(crate) fn from_entries(vars: Vec<(String, String)>) -> (r: Self)
        requires
            keys_distinct(vars@),
        ensures
            r.wf(),
            forall|m: Map<Seq<char>, Seq<char>>| #[trigger] holds_entries(vars@, m) ==> r@ == m,
    {
        let r = Environment { vars };
        proof {
            assert forall|m: Map<Seq<char>, Seq<char>>| #[trigger] holds_entries(vars@, m) implies r@
                == m by {
                r.lemma_view_is(m);
            }
        }
        r
    }

    /// Index of the entry whose key is `name`, if there is one.
    fn find(&self, name: &String) -> (r: Option<usize>)
        ensures
            match r {
                Some(i) => i < self.vars@.len() && self.vars@[i as int].0@ == name@,
                None => forall|i: int| 0 <= i < self.vars@.len() ==> self.vars@[i].0@ != name@,
            },
    {
        let mut i: usize = 0;
        while i < self.vars.len()
            invariant
                i <= self.vars@.len(),
                forall|j: int| 0 <= j < i ==> self.vars@[j].0@ != name@,
            decreases self.vars@.len() - i,
        {
            if self.vars[i].0 == *name {
                return Some(i);
            }
            i = i + 1;
        }
        None
    }

    /// The value of `name`, if the table holds it.
    pub fn get(&self, name: &str) -> (r: Option<String>)
        requires
            self.wf(),
        ensures
            match r {
                Some(v) => self@.contains_key(name@) && self@[name@] == v@,
                None => !self@.contains_key(name@),
            },
    {
        proof {
            self.lemma_view();
        }
        let key = name.to_owned();
        match self.find(&key) {
            Some(i) => Some(self.vars[i].1.clone()),
            None => None,
        }
    }

    /// Whether the table holds `name`.
    pub fn contains_key(&self, name: &str) -> (r: bool)
        requires
            self.wf(),
        ensures
            r == self@.contains_key(name@),
    {
        proof {
            self.lemma_view();
        }
        let key = name.to_owned();
        self.find(&key).is_some()
    }

    /// The table holds finitely many entries, one for each of its stored pairs.
    proof fn lemma_len(&self)
        requires
            self.wf(),
        ensures
            self@.dom().finite(),
            self@.len() == self.vars@.len(),
    {
        self.lemma_view();
        let keys = self.vars@.map_values(|p: (String, String)| p.0@);
        assert(keys.no_duplicates()) by {
            assert forall|i: int, j: int|
                0 <= i < keys.len() && 0 <= j < keys.len() && i != j implies keys[i] != keys[j] by {
                if i < j {
                    assert(self.vars@[i].0@ != self.vars@[j].0@);
                } else {
                    assert(self.vars@[j].0@ != self.vars@[i].0@);
                }
            }
        }
        keys.unique_seq_to_set();
        assert forall|k: Seq<char>| #[trigger] keys.to_set().contains(k) <==> self@.dom().contains(k) by {
            if keys.to_set().contains(k) {
                let i = choose|i: int| 0 <= i < keys.len() && keys[i] == k;
                assert(self@.contains_key(self.vars@[i].0@));
            }
            if self@.dom().contains(k) {
                let i = choose|i: int| 0 <= i < self.vars@.len() && self.vars@[i].0@ == k;
                assert(keys[i] == k);
            }
        }
        assert(keys.to_set() =~= self@.dom());
    }

    /// A well-formed table holds finitely many entries.
    pub proof fn lemma_finite(&self)
        requires
            self.wf(),
        ensures
            self@.dom().finite(),
    {
        self.lemma_len();
    }

    /// The number of entries.
    pub fn len(&self) -> (r: usize)
        requires
            self.wf(),
        ensures
            r == self@.len(),
    {
        proof {
            self.lemma_len();
        }
        self.vars.len()
    }

    /// Sets `name` to `value`, replacing any value that `name` had.
    pub fn set(&mut self, name: &str, value: &str)
        requires
            old(self).wf(),
        ensures
            final(self).wf(),
            final(self)@ == old(self)@.insert(name@, value@),
    {
        proof {
            self.lemma_view();
        }
        let key = name.to_owned();
        let val = value.to_owned();
        let ghost m = old(self)@.insert(name@, value@);
        let ghost before = self.vars@;
        match self.find(&key) {
            Some(i) => {
                self.vars.set(i, (key, val));
                proof {
                    let vars = self.vars@;
                    assert forall|a: int, b: int| 0 <= a < b < vars.len() implies vars[a].0@
                        != vars[b].0@ by {
                        assert(before[a].0@ != before[b].0@);
                    }
                    assert forall|k: Seq<char>| #[trigger] m.contains_key(k) implies exists|j: int|
                        0 <= j < vars.len() && vars[j].0@ == k by {
                        if k != name@ {
                            let j = choose|j: int| 0 <= j < before.len() && before[j].0@ == k;
                            assert(vars[j].0@ == k);
                        } else {
                            assert(vars[i as int].0@ == k);
                        }
                    }
                    assert forall|j: int| 0 <= j < vars.len() implies #[trigger] m.contains_key(
                        vars[j].0@,
                    ) && m[vars[j].0@] == vars[j].1@ by {
                        if j != i {
                            assert(before[j] == vars[j]);
                        }
                    }
                    self.lemma_view_is(m);
                }
            },
            None => {
                self.vars.push((key, val));
                proof {
                    let vars = self.vars@;
                    assert forall|a: int, b: int| 0 <= a < b < vars.len() implies vars[a].0@
                        != vars[b].0@ by {
                        if b < before.len() {
                            assert(before[a].0@ != before[b].0@);
                        } else {
                            assert(before[a].0@ != name@);
                        }
                    }
                    assert forall|k: Seq<char>| #[trigger] m.contains_key(k) implies exists|j: int|
                        0 <= j < vars.len() && vars[j].0@ == k by {
                        if k != name@ {
                            let j = choose|j: int| 0 <= j < before.len() && before[j].0@ == k;
                            assert(vars[j].0@ == k);
                        } else {
                            assert(vars[before.len() as int].0@ == k);
                        }
                    }
                    assert forall|j: int| 0 <= j < vars.len() implies #[trigger] m.contains_key(
                        vars[j].0@,
                    ) && m[vars[j].0@] == vars[j].1@ by {
                        if j < before.len() {
                            assert(before[j] == vars[j]);
                            assert(before[j].0@ != name@);
                        }
                    }
                    self.lemma_view_is(m);
                }
            },
        }
    }

    /// Removes `name` from the table; a key that is absent is no error.
    pub fn remove(&mut self, name: &str)
        requires
            old(self).wf(),
        ensures
            final(self).wf(),
            final(self)@ == old(self)@.remove(name@),
    {
        proof {
            self.lemma_view();
        }
        let key = name.to_owned();
        let ghost m = old(self)@.remove(name@);
        let ghost before = self.vars@;
        match self.find(&key) {
            Some(i) => {
                let _ = self.vars.remove(i);
                proof {
                    let vars = self.vars@;
                    assert forall|j: int| 0 <= j < vars.len() implies #[trigger] vars[j] == if j < i {
                        before[j]
                    } else {
                        before[j + 1]
                    } by {}
                    assert forall|a: int, b: int| 0 <= a < b < vars.len() implies vars[a].0@
                        != vars[b].0@ by {
                        if a < i {
                            if b < i {
                                assert(before[a].0@ != before[b].0@);
                            } else {
                                assert(before[a].0@ != before[b + 1].0@);
                            }
                        } else {
                            assert(before[a + 1].0@ != before[b + 1].0@);
                        }
                    }
                    assert forall|k: Seq<char>| #[trigger] m.contains_key(k) implies exists|j: int|
                        0 <= j < vars.len() && vars[j].0@ == k by {
                        let j = choose|j: int| 0 <= j < before.len() && before[j].0@ == k;
                        if j < i {
                            assert(vars[j].0@ == k);
                        } else {
                            assert(j != i);
                            assert(vars[j - 1].0@ == k);
                        }
                    }
                    assert forall|j: int| 0 <= j < vars.len() implies #[trigger] m.contains_key(
                        vars[j].0@,
                    ) && m[vars[j].0@] == vars[j].1@ by {
                        if j < i {
                            assert(before[j].0@ != before[i as int].0@);
                        } else {
                            assert(before[i as int].0@ != before[j + 1].0@);
                        }
                    }
                    self.lemma_view_is(m);
                }
            },
            None => {
                proof {
                    assert(!old(self)@.contains_key(name@));
                    assert(m =~= old(self)@);
                }
            },
        }
    }

    /// The entries of the table, each key once, in no particular order.
    pub fn vars(&self) -> (r: Vec<(String, String)>)
        requires
            self.wf(),
        ensures
            keys_distinct(r@),
            holds_entries(r@, self@),
    {
        proof {
            self.lemma_view();
        }
        let mut r: Vec<(String, String)> = Vec::new();
        let mut i: usize = 0;
        while i < self.vars.len()
            invariant
                i <= self.vars@.len(),
                r@.len() == i,
                forall|j: int| 0 <= j < i ==> #[trigger] r@[j].0@ == self.vars@[j].0@ && r@[j].1@ == self.vars@[j].1@,
            decreases self.vars@.len() - i,
        {
            let k = self.vars[i].0.clone();
            let v = self.vars[i].1.clone();
            r.push((k, v));
            i = i + 1;
        }
        proof {
            assert forall|k: Seq<char>| #[trigger] self@.contains_key(k) implies exists|j: int|
                0 <= j < r@.len() && r@[j].0@ == k by {
                let j = choose|j: int| 0 <= j < self.vars@.len() && self.vars@[j].0@ == k;
                assert(r@[j].0@ == k);
            }
        }
        r
    }
}

} // verus!
