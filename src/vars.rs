//! The variable mapping: names and values taken from the environment.
use vstd::prelude::*;

verus! {

/// `s` begins with `p`.
pub open spec fn starts_with(s: Seq<char>, p: Seq<char>) -> bool {
    p.len() <= s.len() && s.subrange(0, p.len() as int) == p
}

/// The mapping that a list of (name, value) pairs gives when only the names that begin with
/// `prefix` are kept; of two pairs with one name, the later one wins.
pub open spec fn prefix_map(vars: Seq<(String, String)>, prefix: Seq<char>) -> Map<
    Seq<char>,
    Seq<char>,
>
    decreases vars.len(),
{
    if vars.len() == 0 {
        Map::empty()
    } else {
        let m = prefix_map(vars.drop_last(), prefix);
        let last = vars.last();
        if starts_with(last.0@, prefix) {
            m.insert(last.0@, last.1@)
        } else {
            m
        }
    }
}

/// Tells whether `s` begins with `p`.
pub fn has_prefix(s: &str, p: &str) -> (r: bool)
    ensures
        r == starts_with(s@, p@),
{
    let n = s.unicode_len();
    let m = p.unicode_len();
    if m > n {
        return false;
    }
    let mut i: usize = 0;
    while i < m
        invariant
            n == s@.len(),
            m == p@.len(),
            m <= n,
            i <= m,
            forall|k: int| 0 <= k < i ==> s@[k] == p@[k],
        decreases m - i,
    {
        if s.get_char(i) != p.get_char(i) {
            proof {
                assert(s@.subrange(0, m as int)[i as int] == s@[i as int]);
            }
            return false;
        }
        i = i + 1;
    }
    proof {
        assert(s@.subrange(0, m as int) =~= p@);
    }
    true
}

/// A mapping from variable names to values, each name held once.
pub struct VarMap {
    entries: Vec<(String, String)>,
}

/// The mapping that a list of entries holds, where each name stands once.
pub open spec fn entries_map(e: Seq<(String, String)>) -> Map<Seq<char>, Seq<char>> {
    Map::new(
        |k: Seq<char>| exists|i: int| 0 <= i < e.len() && e[i].0@ == k,
        |k: Seq<char>| e[choose|i: int| 0 <= i < e.len() && e[i].0@ == k].1@,
    )
}

/// No two entries hold one name.
pub open spec fn distinct_names(e: Seq<(String, String)>) -> bool {
    forall|a: int, b: int| 0 <= a < b < e.len() ==> e[a].0@ != e[b].0@
}

proof fn lemma_value_at(e: Seq<(String, String)>, i: int)
    requires
        distinct_names(e),
        0 <= i < e.len(),
    ensures
        entries_map(e).contains_key(e[i].0@),
        entries_map(e)[e[i].0@] == e[i].1@,
{
    let k = e[i].0@;
    assert(entries_map(e).contains_key(k));
    let j = choose|j: int| 0 <= j < e.len() && e[j].0@ == k;
    assert(j == i);
}

impl View for VarMap {
    type V = Map<Seq<char>, Seq<char>>;

    closed spec fn view(&self) -> Map<Seq<char>, Seq<char>> {
        entries_map(self.entries@)
    }
}

impl VarMap {
    /// Each name is held by one entry only.
    pub closed spec fn wf(&self) -> bool {
        distinct_names(self.entries@)
    }

    /// The empty mapping.
    pub fn new() -> (r: VarMap)
        ensures
            r.wf(),
            r@ == Map::<Seq<char>, Seq<char>>::empty(),
    {
        let r = VarMap { entries: Vec::new() };
        assert(r@ =~= Map::<Seq<char>, Seq<char>>::empty());
        r
    }

    /// The number of names held.
    pub fn len(&self) -> (r: usize)
        requires
            self.wf(),
        ensures
            self@.dom().finite(),
            r == self@.dom().len(),
    {
        proof {
            self.lemma_len();
        }
        self.entries.len()
    }

    proof fn lemma_len(&self)
        requires
            self.wf(),
        ensures
            self@.dom().finite(),
            self@.dom().len() == self.entries@.len(),
        decreases self.entries@.len(),
    {
        let names = self.entries@.map_values(|e: (String, String)| e.0@);
        assert forall|a: int, b: int| 0 <= a < b < names.len() implies names[a] != names[b] by {}
        assert(names.no_duplicates());
        names.unique_seq_to_set();
        assert(self@.dom() =~= names.to_set()) by {
            assert forall|k: Seq<char>| self@.dom().contains(k) implies names.to_set().contains(k) by {
                let i = choose|i: int| 0 <= i < self.entries@.len() && self.entries@[i].0@ == k;
                assert(names[i] == k);
            }
            assert forall|k: Seq<char>| names.to_set().contains(k) implies self@.dom().contains(k) by {
                let i = choose|i: int| 0 <= i < names.len() && names[i] == k;
                assert(self.entries@[i].0@ == k);
            }
        }
    }

    /// The value held under `name`, if any.
    pub fn get(&self, name: &String) -> (r: Option<&String>)
        requires
            self.wf(),
        ensures
            r is Some <==> self@.contains_key(name@),
            r matches Some(v) ==> v@ == self@[name@],
    {
        let mut i: usize = 0;
        while i < self.entries.len()
            invariant
                self.wf(),
                i <= self.entries@.len(),
                forall|k: int| 0 <= k < i ==> self.entries@[k].0@ != name@,
            decreases self.entries@.len() - i,
        {
            if self.entries[i].0 == *name {
                proof {
                    lemma_value_at(self.entries@, i as int);
                }
                return Some(&self.entries[i].1);
            }
            i = i + 1;
        }
        None
    }

    /// Holds `value` under `name`, in place of what `name` held before.
    pub fn insert(&mut self, name: String, value: String)
        requires
            old(self).wf(),
        ensures
            final(self).wf(),
            final(self)@ == old(self)@.insert(name@, value@),
    {
        let ghost prev = self@;
        let mut i: usize = 0;
        while i < self.entries.len()
            invariant
                self.wf(),
                self@ == prev,
                prev == old(self)@,
                i <= self.entries@.len(),
                forall|k: int| 0 <= k < i ==> self.entries@[k].0@ != name@,
            decreases self.entries@.len() - i,
        {
            if self.entries[i].0 == name {
                let ghost before = self.entries@;
                assert(entries_map(before) == prev);
                self.entries.set(i, (name, value));
                proof {
                    assert forall|k: int| 0 <= k < self.entries@.len() && k != i implies self.entries@[k]
                        == before[k] by {}
                    assert(self.wf());
                    assert(self@ =~= prev.insert(name@, value@)) by {
                        assert forall|key: Seq<char>| #[trigger] self@.contains_key(key) implies prev.insert(name@, value@).contains_key(key) && self@[key] == prev.insert(name@, value@)[key] by {
                            let k = choose|k: int| 0 <= k < self.entries@.len() && self.entries@[k].0@ == key;
                            lemma_value_at(self.entries@, k);
                            if k != i {
                                assert(before[k].0@ == key);
                                lemma_value_at(before, k);
                            }
                        }
                        assert forall|key: Seq<char>| #[trigger] prev.insert(name@, value@).contains_key(key) implies self@.contains_key(key) by {
                            if key != name@ {
                                let k = choose|k: int| 0 <= k < before.len() && before[k].0@ == key;
                                assert(self.entries@[k] == before[k]);
                            } else {
                                assert(self.entries@[i as int].0@ == key);
                            }
                        }
                    }
                }
                return;
            }
            i = i + 1;
        }
        let ghost before = self.entries@;
        self.entries.push((name, value));
        proof {
            let n = before.len() as int;
            assert(self.wf());
            assert(entries_map(before) == prev);
            assert(self@ =~= prev.insert(name@, value@)) by {
                assert forall|key: Seq<char>| #[trigger] self@.contains_key(key) implies prev.insert(name@, value@).contains_key(key) && self@[key] == prev.insert(name@, value@)[key] by {
                    let k = choose|k: int| 0 <= k < self.entries@.len() && self.entries@[k].0@ == key;
                    lemma_value_at(self.entries@, k);
                    if k != n {
                        assert(before[k] == self.entries@[k]);
                        lemma_value_at(before, k);
                    }
                }
                assert forall|key: Seq<char>| #[trigger] prev.insert(name@, value@).contains_key(key) implies self@.contains_key(key) by {
                    if key != name@ {
                        let k = choose|k: int| 0 <= k < before.len() && before[k].0@ == key;
                        assert(self.entries@[k] == before[k]);
                    } else {
                        assert(self.entries@[n].0@ == key);
                    }
                }
            }
        }
    }

    /// The names held, each once.
    pub fn names(&self) -> (r: Vec<String>)
        requires
            self.wf(),
        ensures
            crate::tokens::names_of(r@) == self@.dom(),
    {
        let mut r: Vec<String> = Vec::new();
        let mut i: usize = 0;
        while i < self.entries.len()
            invariant
                i <= self.entries@.len(),
                r@.len() == i,
                forall|k: int| 0 <= k < i ==> #[trigger] r@[k]@ == self.entries@[k].0@,
            decreases self.entries@.len() - i,
        {
            r.push(self.entries[i].0.clone());
            i = i + 1;
        }
        proof {
            assert(crate::tokens::names_of(r@) =~= self@.dom()) by {
                assert forall|k: Seq<char>| crate::tokens::names_of(r@).contains(k) implies self@.dom().contains(k) by {
                    let a = choose|a: int| 0 <= a < r@.len() && r@[a]@ == k;
                    assert(self.entries@[a].0@ == k);
                }
                assert forall|k: Seq<char>| self@.dom().contains(k) implies crate::tokens::names_of(r@).contains(k) by {
                    let a = choose|a: int| 0 <= a < self.entries@.len() && self.entries@[a].0@ == k;
                    assert(r@[a]@ == k);
                }
            }
        }
        r
    }

    /// The mapping of the pairs of `vars` whose name begins with `prefix`; of two pairs with
    /// one name, the later one wins.
    pub fn from_vars(vars: &Vec<(String, String)>, prefix: &String) -> (r: VarMap)
        ensures
            r.wf(),
            r@ == prefix_map(vars@, prefix@),
    {
        let mut r = VarMap::new();
        let mut i: usize = 0;
        while i < vars.len()
            invariant
                i <= vars@.len(),
                r.wf(),
                r@ == prefix_map(vars@.subrange(0, i as int), prefix@),
            decreases vars@.len() - i,
        {
            proof {
                assert(vars@.subrange(0, i + 1).drop_last() =~= vars@.subrange(0, i as int));
            }
            if has_prefix(vars[i].0.as_str(), prefix.as_str()) {
                r.insert(vars[i].0.clone(), vars[i].1.clone());
            }
            i = i + 1;
        }
        proof {
            assert(vars@.subrange(0, vars@.len() as int) =~= vars@);
        }
        r
    }
}

} // verus!
