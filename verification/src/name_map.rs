//! A map from names to values, kept in insertion order, each name once.
use vstd::prelude::*;
use crate::text::{owned, str_eq};

verus! {

/// Names mapped to values; a name occurs at most once.
#[derive(Debug)]
pub struct NameMap<V> {
    entries: Vec<(String, V)>,
}

/// The names of a list of entries.
pub open spec fn entry_names<V>(e: Seq<(String, V)>) -> Seq<Seq<char>> {
    Seq::new(e.len(), |i: int| e[i].0@)
}

/// The map that a list of entries denotes (a later entry for a name overriding).
pub open spec fn entries_map<V>(e: Seq<(String, V)>) -> Map<Seq<char>, V>
    decreases e.len(),
{
    if e.len() == 0 {
        Map::empty()
    } else {
        entries_map(e.drop_last()).insert(e.last().0@, e.last().1)
    }
}

proof fn lemma_entries_map<V>(e: Seq<(String, V)>)
    requires
        entry_names(e).no_duplicates(),
    ensures
        forall|k: Seq<char>| #[trigger] entries_map(e).contains_key(k) <==> entry_names(e).contains(k),
        forall|i: int|
            0 <= i < e.len() ==> #[trigger] entries_map(e)[e[i].0@] == e[i].1,
        entries_map(e).dom() == entry_names(e).to_set(),
    decreases e.len(),
{
    if e.len() > 0 {
        let d = e.drop_last();
        assert(entry_names(d) =~= entry_names(e).drop_last());
        lemma_entries_map(d);
        assert forall|k: Seq<char>| #[trigger] entries_map(e).contains_key(k) <==> entry_names(e).contains(k) by {
            if entry_names(e).contains(k) {
                let j = choose|j: int| 0 <= j < entry_names(e).len() && entry_names(e)[j] == k;
                if j < d.len() {
                    assert(entry_names(d)[j] == k);
                }
            }
            if entries_map(d).contains_key(k) {
                let j = choose|j: int| 0 <= j < entry_names(d).len() && entry_names(d)[j] == k;
                assert(entry_names(e)[j] == k);
            }
            if k == e.last().0@ {
                assert(entry_names(e)[e.len() - 1] == k);
            }
        }
        assert forall|i: int| 0 <= i < e.len() implies #[trigger] entries_map(e)[e[i].0@] == e[i].1 by {
            if i < e.len() - 1 {
                assert(d[i] == e[i]);
                assert(entry_names(e)[i] != entry_names(e)[e.len() - 1]);
            }
        }
        assert(entries_map(e).dom() =~= entry_names(e).to_set());
    } else {
        assert(entries_map(e).dom() =~= entry_names(e).to_set());
    }
}

impl<V> View for NameMap<V> {
    type V = Map<Seq<char>, V>;

    closed spec fn view(&self) -> Map<Seq<char>, V> {
        entries_map(self.entries@)
    }
}

impl<V> NameMap<V> {
    #[verifier::type_invariant]
    spec fn inv(self) -> bool {
        entry_names(self.entries@).no_duplicates()
    }

    /// The names, in insertion order.
    pub closed spec fn names(&self) -> Seq<Seq<char>> {
        entry_names(self.entries@)
    }

    /// An empty map.
    pub fn new() -> (r: Self)
        ensures
            r@ == Map::<Seq<char>, V>::empty(),
    {
        let r = NameMap { entries: Vec::new() };
        proof {
            assert(entry_names(r.entries@) =~= Seq::<Seq<char>>::empty());
        }
        r
    }

    fn index_of(&self, key: &str) -> (r: Option<usize>)
        ensures
            r matches Some(i) ==> i < self.entries@.len() && self.entries@[i as int].0@ == key@,
            r is None ==> !self@.contains_key(key@),
    {
        proof {
            use_type_invariant(self);
            lemma_entries_map(self.entries@);
        }
        let mut i: usize = 0;
        while i < self.entries.len()
            invariant
                i <= self.entries@.len(),
                forall|j: int| 0 <= j < i ==> self.entries@[j].0@ != key@,
            decreases self.entries@.len() - i,
        {
            if str_eq(self.entries[i].0.as_str(), key) {
                return Some(i);
            }
            i = i + 1;
        }
        proof {
            if entry_names(self.entries@).contains(key@) {
                let j = choose|j: int| 0 <= j < entry_names(self.entries@).len() && entry_names(self.entries@)[j] == key@;
                assert(self.entries@[j].0@ == key@);
            }
        }
        None
    }

    /// The value of `key`.
    pub fn get(&self, key: &str) -> (r: Option<&V>)
        ensures
            r matches Some(v) ==> self@.contains_key(key@) && *v == self@[key@],
            r is None ==> !self@.contains_key(key@),
    {
        proof {
            use_type_invariant(self);
            lemma_entries_map(self.entries@);
        }
        match self.index_of(key) {
            Some(i) => {
                proof {
                    assert(entry_names(self.entries@)[i as int] == key@);
                }
                Some(&self.entries[i].1)
            },
            None => None,
        }
    }

    /// Whether `key` has a value.
    pub fn contains_key(&self, key: &str) -> (r: bool)
        ensures
            r == self@.contains_key(key@),
    {
        proof {
            use_type_invariant(self);
            lemma_entries_map(self.entries@);
        }
        match self.index_of(key) {
            Some(i) => {
                proof {
                    assert(entry_names(self.entries@)[i as int] == key@);
                }
                true
            },
            None => false,
        }
    }

    /// Sets the value of `key`, replacing any earlier one.
    pub fn insert(&mut self, key: String, value: V)
        ensures
            final(self)@ == old(self)@.insert(key@, value),
    {
        proof {
            use_type_invariant(&*self);
            lemma_entries_map(self.entries@);
        }
        let ghost e = self.entries@;
        let mut h: Vec<(String, V)> = Vec::new();
        std::mem::swap(&mut h, &mut self.entries);
        match self_index_of(&h, key.as_str()) {
            Some(i) => {
                let ghost k = key@;
                h.set(i, (key, value));
                proof {
                    assert(entry_names(h@) =~= entry_names(e));
                    lemma_entries_map(h@);
                    assert(e[i as int].0@ == k);
                    assert(entry_names(e)[i as int] == k);
                    assert(entry_names(e).contains(k));
                    assert(entries_map(e).contains_key(k));
                    assert(entries_map(h@).dom() == entry_names(h@).to_set());
                    assert(entries_map(e).dom() == entry_names(e).to_set());
                    assert(entries_map(h@).dom() =~= entries_map(e).insert(k, value).dom());
                    assert forall|x: Seq<char>| #[trigger] entries_map(h@).contains_key(x) implies entries_map(h@)[x] == entries_map(e).insert(k, value)[x] by {
                        let j = choose|j: int| 0 <= j < entry_names(h@).len() && entry_names(h@)[j] == x;
                        assert(entries_map(h@)[h@[j].0@] == h@[j].1);
                        if j != i {
                            assert(h@[j] == e[j]);
                            assert(entry_names(h@)[j] != entry_names(h@)[i as int]);
                            assert(x != k);
                            assert(entries_map(e)[e[j].0@] == e[j].1);
                        }
                    }
                    assert(entries_map(h@) =~= entries_map(e).insert(k, value));
                }
            },
            None => {
                let ghost k = key@;
                h.push((key, value));
                proof {
                    assert(entry_names(h@) =~= entry_names(e).push(k));
                    assert(h@.drop_last() =~= e);
                    assert(!entry_names(e).contains(k));
                }
            },
        }
        self.entries = h;
    }

    /// Removes `key`.
    pub fn remove(&mut self, key: &str)
        ensures
            final(self)@ == old(self)@.remove(key@),
    {
        proof {
            use_type_invariant(&*self);
            lemma_entries_map(self.entries@);
        }
        let ghost e = self.entries@;
        match self.index_of(key) {
            Some(i) => {
                let mut h: Vec<(String, V)> = Vec::new();
                std::mem::swap(&mut h, &mut self.entries);
                h.remove(i);
                proof {
                    assert(entry_names(h@) =~= entry_names(e).remove(i as int));
                    lemma_entries_map(h@);
                    assert(entry_names(e)[i as int] == key@);
                    assert forall|x: Seq<char>| #[trigger] entries_map(h@).contains_key(x) == entries_map(e).remove(key@).contains_key(x) by {
                        if entry_names(h@).contains(x) {
                            let j = choose|j: int| 0 <= j < entry_names(h@).len() && entry_names(h@)[j] == x;
                            if j < i {
                                assert(entry_names(e)[j] == x);
                                assert(entry_names(e)[j] != entry_names(e)[i as int]);
                            } else {
                                assert(entry_names(e)[j + 1] == x);
                                assert(entry_names(e)[j + 1] != entry_names(e)[i as int]);
                            }
                        }
                        if entry_names(e).contains(x) && x != key@ {
                            let j = choose|j: int| 0 <= j < entry_names(e).len() && entry_names(e)[j] == x;
                            if j < i {
                                assert(entry_names(h@)[j] == x);
                            } else {
                                assert(j != i);
                                assert(entry_names(h@)[j - 1] == x);
                            }
                        }
                    }
                    assert forall|x: Seq<char>| #[trigger] entries_map(h@).contains_key(x) implies entries_map(h@)[x] == entries_map(e)[x] by {
                        let j = choose|j: int| 0 <= j < entry_names(h@).len() && entry_names(h@)[j] == x;
                        assert(entries_map(h@)[h@[j].0@] == h@[j].1);
                        if j < i {
                            assert(h@[j] == e[j]);
                            assert(entries_map(e)[e[j].0@] == e[j].1);
                        } else {
                            assert(h@[j] == e[j + 1]);
                            assert(entries_map(e)[e[j + 1].0@] == e[j + 1].1);
                        }
                    }
                    assert(entries_map(h@) =~= entries_map(e).remove(key@));
                }
                self.entries = h;
            },
            None => {
                proof {
                    assert(old(self)@.remove(key@) =~= old(self)@);
                }
            },
        }
    }

    /// The names, in insertion order.
    pub fn keys(&self) -> (r: Vec<String>)
        ensures
            self.names().no_duplicates(),
            self.names().to_set() == self@.dom(),
            r@.len() == self.names().len(),
            forall|i: int| 0 <= i < r@.len() ==> (#[trigger] r@[i])@ == self.names()[i],
    {
        proof {
            use_type_invariant(self);
            lemma_entries_map(self.entries@);
        }
        let mut out: Vec<String> = Vec::new();
        let mut i: usize = 0;
        while i < self.entries.len()
            invariant
                i <= self.entries@.len(),
                out@.len() == i,
                forall|j: int| 0 <= j < i ==> (#[trigger] out@[j])@ == self.entries@[j].0@,
            decreases self.entries@.len() - i,
        {
            out.push(owned(self.entries[i].0.as_str()));
            i = i + 1;
        }
        out
    }

    /// The values, in the order of `names()`.
    pub fn values(&self) -> (r: Vec<&V>)
        ensures
            self.names().no_duplicates(),
            self.names().to_set() == self@.dom(),
            r@.len() == self.names().len(),
            forall|i: int| 0 <= i < r@.len() ==> *(#[trigger] r@[i]) == self@[self.names()[i]],
    {
        proof {
            use_type_invariant(self);
            lemma_entries_map(self.entries@);
        }
        let mut out: Vec<&V> = Vec::new();
        let mut i: usize = 0;
        while i < self.entries.len()
            invariant
                i <= self.entries@.len(),
                out@.len() == i,
                entry_names(self.entries@).no_duplicates(),
                forall|j: int| 0 <= j < self.entries@.len() ==> #[trigger] entries_map(self.entries@)[self.entries@[j].0@] == self.entries@[j].1,
                forall|j: int| 0 <= j < i ==> *(#[trigger] out@[j]) == self.entries@[j].1,
            decreases self.entries@.len() - i,
        {
            out.push(&self.entries[i].1);
            i = i + 1;
        }
        out
    }

    /// Removes every entry.
    pub fn clear(&mut self)
        ensures
            final(self)@ == Map::<Seq<char>, V>::empty(),
    {
        let mut h: Vec<(String, V)> = Vec::new();
        std::mem::swap(&mut h, &mut self.entries);
        proof {
            assert(entry_names(self.entries@) =~= Seq::<Seq<char>>::empty());
        }
    }
}

fn self_index_of<V>(entries: &Vec<(String, V)>, key: &str) -> (r: Option<usize>)
    ensures
        r matches Some(i) ==> i < entries@.len() && entries@[i as int].0@ == key@,
        r is None ==> !entry_names(entries@).contains(key@),
{
    let mut i: usize = 0;
    while i < entries.len()
        invariant
            i <= entries@.len(),
            forall|j: int| 0 <= j < i ==> entries@[j].0@ != key@,
        decreases entries@.len() - i,
    {
        if str_eq(entries[i].0.as_str(), key) {
            return Some(i);
        }
        i = i + 1;
    }
    proof {
        if entry_names(entries@).contains(key@) {
            let j = choose|j: int| 0 <= j < entry_names(entries@).len() && entry_names(entries@)[j] == key@;
            assert(entries@[j].0@ == key@);
        }
    }
    None
}

} // verus!
