//! Keyed collections over string identifiers: a map from identifiers to
//! values and a set of identifiers. Both keep their entries in insertion
//! order without repetition, so they can be walked by index.
use vstd::prelude::*;

verus! {

/// The character sequences of a sequence of strings.
pub open spec fn str_views(s: Seq<String>) -> Seq<Seq<char>> {
    s.map_values(|x: String| x@)
}

/// In a sequence without repetition, the first index of an element is its only index.
pub proof fn lemma_index_of_unique(s: Seq<Seq<char>>, i: int)
    requires
        s.no_duplicates(),
        0 <= i < s.len(),
    ensures
        s.index_of(s[i]) == i,
{
    assert(0 <= i < s.len() && s[i] == s[i]);
}

/// Appending a fresh element to a sequence adds exactly that element to its set.
pub proof fn lemma_push_to_set(s: Seq<Seq<char>>, x: Seq<char>)
    ensures
        s.push(x).to_set() =~= s.to_set().insert(x),
{
    assert forall|y: Seq<char>| s.push(x).to_set().contains(y) implies s.to_set().insert(
        x,
    ).contains(y) by {
        let j = choose|j: int| 0 <= j < s.push(x).len() && s.push(x)[j] == y;
        if j < s.len() {
            assert(s[j] == y);
        }
    }
    assert forall|y: Seq<char>| s.to_set().insert(x).contains(y) implies s.push(x).to_set().contains(
        y,
    ) by {
        if y == x {
            assert(s.push(x)[s.len() as int] == x);
        } else {
            let j = choose|j: int| 0 <= j < s.len() && s[j] == y;
            assert(s.push(x)[j] == y);
        }
    }
}

/// A map from string identifiers to values.
///
/// Each identifier occurs once; entries keep the order in which their
/// identifiers were first inserted.
pub struct IdMap<V> {
    keys: Vec<String>,
    vals: Vec<V>,
}

impl<V> View for IdMap<V> {
    type V = Map<Seq<char>, V>;

    closed spec fn view(&self) -> Map<Seq<char>, V> {
        Map::new(
            |k: Seq<char>| self.key_seq().contains(k),
            |k: Seq<char>| self.vals@[self.key_seq().index_of(k)],
        )
    }
}

impl<V> IdMap<V> {
    /// The identifiers, in the order of the entries.
    pub closed spec fn key_seq(&self) -> Seq<Seq<char>> {
        str_views(self.keys@)
    }

    /// Well-formedness: one value per key and no identifier twice.
    pub closed spec fn wf(&self) -> bool {
        &&& self.keys@.len() == self.vals@.len()
        &&& self.key_seq().no_duplicates()
    }

    /// What a well-formed map's entry order tells about its view.
    pub proof fn lemma_entries(&self)
        requires
            self.wf(),
        ensures
            self.key_seq().no_duplicates(),
            self@.dom() =~= self.key_seq().to_set(),
            self@.dom().finite(),
            self@.dom().len() == self.key_seq().len(),
    {
        self.key_seq().unique_seq_to_set();
    }

    proof fn lemma_value_at(&self, i: int)
        requires
            self.wf(),
            0 <= i < self.keys@.len(),
        ensures
            self@.contains_key(self.key_seq()[i]),
            self@[self.key_seq()[i]] == self.vals@[i],
    {
        lemma_index_of_unique(self.key_seq(), i);
    }

    /// An empty map.
    pub fn new() -> (m: Self)
        ensures
            m.wf(),
            m@ == Map::<Seq<char>, V>::empty(),
            m.key_seq() == Seq::<Seq<char>>::empty(),
    {
        let m = IdMap { keys: Vec::new(), vals: Vec::new() };
        assert(m@ =~= Map::<Seq<char>, V>::empty());
        assert(m.key_seq() =~= Seq::<Seq<char>>::empty());
        m
    }

    /// The number of entries.
    pub fn len(&self) -> (n: usize)
        requires
            self.wf(),
        ensures
            n == self.key_seq().len(),
            n == self@.len(),
    {
        proof {
            self.lemma_entries();
        }
        self.keys.len()
    }

    /// The identifier of the entry at position `i`.
    pub fn key_at(&self, i: usize) -> (k: &String)
        requires
            self.wf(),
            i < self.key_seq().len(),
        ensures
            k@ == self.key_seq()[i as int],
            self@.contains_key(k@),
    {
        proof {
            self.lemma_value_at(i as int);
        }
        &self.keys[i]
    }

    /// The value of the entry at position `i`.
    pub fn value_at(&self, i: usize) -> (v: &V)
        requires
            self.wf(),
            i < self.key_seq().len(),
        ensures
            *v == self@[self.key_seq()[i as int]],
    {
        proof {
            self.lemma_value_at(i as int);
        }
        &self.vals[i]
    }

    fn find(&self, k: &String) -> (r: Option<usize>)
        requires
            self.wf(),
        ensures
            match r {
                Some(i) => i < self.keys@.len() && self.key_seq()[i as int] == k@,
                None => !self.key_seq().contains(k@),
            },
    {
        let mut i: usize = 0;
        while i < self.keys.len()
            invariant
                self.wf(),
                i <= self.keys@.len(),
                forall|j: int| 0 <= j < i ==> self.key_seq()[j] != k@,
            decreases self.keys@.len() - i,
        {
            if self.keys[i] == *k {
                return Some(i);
            }
            i += 1;
        }
        None
    }

    /// Whether `k` has an entry.
    pub fn contains_key(&self, k: &String) -> (b: bool)
        requires
            self.wf(),
        ensures
            b == self@.contains_key(k@),
    {
        self.find(k).is_some()
    }

    /// The value stored under `k`, if any.
    pub fn get(&self, k: &String) -> (r: Option<&V>)
        requires
            self.wf(),
        ensures
            match r {
                Some(v) => self@.contains_key(k@) && *v == self@[k@],
                None => !self@.contains_key(k@),
            },
    {
        match self.find(k) {
            Some(i) => {
                proof {
                    self.lemma_value_at(i as int);
                }
                Some(&self.vals[i])
            },
            None => None,
        }
    }

    /// Stores `v` under `k`, replacing an earlier value; a new identifier
    /// goes after the existing entries.
    pub fn insert(&mut self, k: String, v: V)
        requires
            old(self).wf(),
        ensures
            final(self).wf(),
            final(self)@ == old(self)@.insert(k@, v),
            old(self)@.contains_key(k@) ==> final(self).key_seq() == old(self).key_seq(),
            !old(self)@.contains_key(k@) ==> final(self).key_seq() == old(self).key_seq().push(
                k@,
            ),
    {
        let ghost old_map = *self;
        match self.find(&k) {
            Some(i) => {
                self.vals.set(i, v);
                proof {
                    assert(self.key_seq() =~= old_map.key_seq());
                    assert forall|q: Seq<char>| #[trigger]
                        self@.contains_key(q) implies self@[q] == old_map@.insert(k@, v)[q] by {
                        let j = self.key_seq().index_of(q);
                        lemma_index_of_unique(self.key_seq(), j);
                        lemma_index_of_unique(old_map.key_seq(), j);
                        lemma_index_of_unique(self.key_seq(), i as int);
                    }
                    assert(self@ =~= old_map@.insert(k@, v));
                }
            },
            None => {
                let ghost kv = k@;
                self.keys.push(k);
                self.vals.push(v);
                proof {
                    assert(self.key_seq() =~= old_map.key_seq().push(kv));
                    let n = old_map.keys@.len() as int;
                    assert forall|a: int, b: int|
                        0 <= a < self.key_seq().len() && 0 <= b < self.key_seq().len() && a
                            != b implies self.key_seq()[a] != self.key_seq()[b] by {
                        if a == n {
                            assert(old_map.key_seq()[b] == self.key_seq()[b]);
                        } else if b == n {
                            assert(old_map.key_seq()[a] == self.key_seq()[a]);
                        }
                    }
                    assert forall|q: Seq<char>|
                        self@.contains_key(q) <==> old_map@.insert(kv, v).contains_key(q) by {
                        if self.key_seq().contains(q) && q != kv {
                            let j = choose|j: int| 0 <= j < self.key_seq().len() && self.key_seq()[j] == q;
                            assert(old_map.key_seq()[j] == q);
                        }
                        if old_map.key_seq().contains(q) {
                            let j = choose|j: int| 0 <= j < old_map.key_seq().len() && old_map.key_seq()[j] == q;
                            assert(self.key_seq()[j] == q);
                        }
                        if q == kv {
                            assert(self.key_seq()[n] == q);
                        }
                    }
                    assert forall|q: Seq<char>| #[trigger]
                        self@.contains_key(q) implies self@[q] == old_map@.insert(kv, v)[q] by {
                        let j = self.key_seq().index_of(q);
                        lemma_index_of_unique(self.key_seq(), j);
                        if j < n {
                            assert(old_map.key_seq()[j] == q);
                            lemma_index_of_unique(old_map.key_seq(), j);
                        }
                    }
                    assert(self@ =~= old_map@.insert(kv, v));
                }
            },
        }
    }
}

/// A set of string identifiers, kept in insertion order without repetition.
pub struct IdSet {
    items: Vec<String>,
}

impl View for IdSet {
    type V = Set<Seq<char>>;

    closed spec fn view(&self) -> Set<Seq<char>> {
        self.item_seq().to_set()
    }
}

impl IdSet {
    /// The identifiers, in insertion order.
    pub closed spec fn item_seq(&self) -> Seq<Seq<char>> {
        str_views(self.items@)
    }

    /// Well-formedness: no identifier twice.
    pub closed spec fn wf(&self) -> bool {
        self.item_seq().no_duplicates()
    }

    /// What a well-formed set's order tells about its view.
    pub proof fn lemma_items(&self)
        requires
            self.wf(),
        ensures
            self.item_seq().no_duplicates(),
            self@ == self.item_seq().to_set(),
            self@.finite(),
            self@.len() == self.item_seq().len(),
    {
        self.item_seq().unique_seq_to_set();
    }

    /// An empty set.
    pub fn new() -> (s: Self)
        ensures
            s.wf(),
            s@ == Set::<Seq<char>>::empty(),
    {
        let s = IdSet { items: Vec::new() };
        assert(s@ =~= Set::<Seq<char>>::empty());
        s
    }

    /// The number of identifiers.
    pub fn len(&self) -> (n: usize)
        requires
            self.wf(),
        ensures
            n == self.item_seq().len(),
            n == self@.len(),
    {
        proof {
            self.lemma_items();
        }
        self.items.len()
    }

    /// The identifier at position `i`.
    pub fn item_at(&self, i: usize) -> (k: &String)
        requires
            self.wf(),
            i < self.item_seq().len(),
        ensures
            k@ == self.item_seq()[i as int],
            self@.contains(k@),
    {
        proof {
            assert(self.item_seq().contains(self.item_seq()[i as int]));
        }
        &self.items[i]
    }

    /// Whether `k` is in the set.
    pub fn contains(&self, k: &String) -> (b: bool)
        requires
            self.wf(),
        ensures
            b == self@.contains(k@),
    {
        let mut i: usize = 0;
        while i < self.items.len()
            invariant
                i <= self.items@.len(),
                forall|j: int| 0 <= j < i ==> self.item_seq()[j] != k@,
            decreases self.items@.len() - i,
        {
            if self.items[i] == *k {
                proof {
                    assert(self.item_seq()[i as int] == k@);
                }
                return true;
            }
            i += 1;
        }
        false
    }

    /// Adds `k`; a set that already holds it is left as it was.
    pub fn insert(&mut self, k: String)
        requires
            old(self).wf(),
        ensures
            final(self).wf(),
            final(self)@ == old(self)@.insert(k@),
    {
        if !self.contains(&k) {
            let ghost old_seq = self.item_seq();
            let ghost kv = k@;
            self.items.push(k);
            proof {
                assert(self.item_seq() =~= old_seq.push(kv));
                let n = old_seq.len() as int;
                assert forall|a: int, b: int|
                    0 <= a < self.item_seq().len() && 0 <= b < self.item_seq().len() && a
                        != b implies self.item_seq()[a] != self.item_seq()[b] by {
                    if a == n {
                        assert(old_seq[b] == self.item_seq()[b]);
                    } else if b == n {
                        assert(old_seq[a] == self.item_seq()[a]);
                    }
                }
                lemma_push_to_set(old_seq, kv);
            }
        } else {
            proof {
                assert(self@.insert(k@) =~= self@);
            }
        }
    }

    /// A copy of the set.
    pub fn duplicate(&self) -> (s: Self)
        requires
            self.wf(),
        ensures
            s.wf(),
            s@ == self@,
            s.item_seq() == self.item_seq(),
    {
        let mut items: Vec<String> = Vec::new();
        let mut i: usize = 0;
        while i < self.items.len()
            invariant
                i <= self.items@.len(),
                str_views(items@) =~= self.item_seq().take(i as int),
            decreases self.items@.len() - i,
        {
            let c = self.items[i].clone();
            let ghost prev = items@;
            items.push(c);
            proof {
                assert(items@ == prev.push(c));
                assert(str_views(items@) =~= str_views(prev).push(c@));
                assert(self.item_seq().take(i + 1) =~= self.item_seq().take(i as int).push(
                    self.item_seq()[i as int],
                ));
            }
            i += 1;
        }
        let s = IdSet { items };
        assert(s.item_seq() =~= self.item_seq());
        s
    }
}

} // verus!
