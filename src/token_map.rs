//! A map from token ids to values, kept as a vector of entries with unique
//! keys. Its view is the mathematical map that the entries denote.
use vstd::prelude::*;

verus! {

/// Identifier of a reward token or of an underlying asset.
pub type TokenId = String;

/// The map denoted by a sequence of entries; a later entry overrides an
/// earlier one with the same key.
pub open spec fn entries_map<V>(s: Seq<(TokenId, V)>) -> Map<Seq<char>, V>
    decreases s.len(),
{
    if s.len() == 0 {
        Map::empty()
    } else {
        entries_map(s.drop_last()).insert(s.last().0@, s.last().1)
    }
}

pub open spec fn keys_unique<V>(s: Seq<(TokenId, V)>) -> bool {
    forall|i: int, j: int|
        0 <= i < s.len() && 0 <= j < s.len() && i != j ==> s[i].0@ != s[j].0@
}

/// A key is in the map exactly when some entry carries it.
pub proof fn lemma_entries_map_dom<V>(s: Seq<(TokenId, V)>, k: Seq<char>)
    ensures
        entries_map(s).contains_key(k) <==> exists|i: int| 0 <= i < s.len() && s[i].0@ == k,
    decreases s.len(),
{
    if s.len() > 0 {
        let t = s.drop_last();
        lemma_entries_map_dom(t, k);
        if entries_map(s).contains_key(k) && k != s.last().0@ {
            let i = choose|i: int| 0 <= i < t.len() && t[i].0@ == k;
            assert(s[i].0@ == k);
        }
        if exists|i: int| 0 <= i < s.len() && s[i].0@ == k {
            let i = choose|i: int| 0 <= i < s.len() && s[i].0@ == k;
            if i < t.len() {
                assert(t[i].0@ == k);
            }
        }
    }
}

/// With unique keys, each entry's value is what the map holds at its key.
pub proof fn lemma_entries_map_index<V>(s: Seq<(TokenId, V)>, i: int)
    requires
        keys_unique(s),
        0 <= i < s.len(),
    ensures
        entries_map(s).contains_key(s[i].0@),
        entries_map(s)[s[i].0@] == s[i].1,
    decreases s.len(),
{
    let t = s.drop_last();
    if i < t.len() {
        assert(keys_unique(t)) by {
            assert forall|a: int, b: int|
                0 <= a < t.len() && 0 <= b < t.len() && a != b implies t[a].0@ != t[b].0@ by {
                assert(t[a] == s[a] && t[b] == s[b]);
            }
        }
        lemma_entries_map_index(t, i);
        assert(t[i] == s[i]);
        assert(s[i].0@ != s[s.len() - 1].0@);
    }
}

/// Two unique-key entry sequences denote the same map when they hold the same
/// keys and agree on each key's value.
pub proof fn lemma_entries_map_ext<V>(s: Seq<(TokenId, V)>, m: Map<Seq<char>, V>)
    requires
        keys_unique(s),
        forall|i: int| 0 <= i < s.len() ==> #[trigger] m.contains_key(s[i].0@) && m[s[i].0@] == s[i].1,
        forall|k: Seq<char>| #[trigger] m.contains_key(k) ==> exists|i: int| 0 <= i < s.len() && s[i].0@ == k,
    ensures
        entries_map(s) == m,
{
    assert forall|k: Seq<char>| #[trigger] entries_map(s).contains_key(k) == m.contains_key(k) by {
        lemma_entries_map_dom(s, k);
    }
    assert forall|k: Seq<char>| #[trigger] entries_map(s).contains_key(k) implies entries_map(s)[k] == m[k] by {
        lemma_entries_map_dom(s, k);
        let i = choose|i: int| 0 <= i < s.len() && s[i].0@ == k;
        lemma_entries_map_index(s, i);
    }
    assert(entries_map(s) =~= m);
}

/// A map keyed by token id, with unique keys and insertion order kept.
pub struct TokenMap<V> {
    pub entries: Vec<(TokenId, V)>,
}

impl<V> TokenMap<V> {
    pub open spec fn view(&self) -> Map<Seq<char>, V> {
        entries_map(self.entries@)
    }

    pub open spec fn wf(&self) -> bool {
        keys_unique(self.entries@)
    }

    pub fn new() -> (r: Self)
        ensures
            r.wf(),
            r@ == Map::<Seq<char>, V>::empty(),
    {
        TokenMap { entries: Vec::new() }
    }

    pub fn len(&self) -> (r: usize)
        requires
            self.wf(),
        ensures
            r as nat == self@.len(),
    {
        proof {
            self.lemma_len();
        }
        self.entries.len()
    }

    proof fn lemma_len(&self)
        requires
            self.wf(),
        ensures
            self@.dom().finite(),
            self@.len() == self.entries@.len(),
        decreases self.entries@.len(),
    {
        let s = self.entries@;
        let keys = Seq::new(s.len(), |i: int| s[i].0@);
        assert forall|k: Seq<char>| #[trigger] self@.contains_key(k) == keys.contains(k) by {
            lemma_entries_map_dom(s, k);
            if keys.contains(k) {
                let i = choose|i: int| 0 <= i < keys.len() && keys[i] == k;
                assert(s[i].0@ == k);
            }
            if self@.contains_key(k) {
                let i = choose|i: int| 0 <= i < s.len() && s[i].0@ == k;
                assert(keys[i] == k);
            }
        }
        assert(self@.dom() =~= keys.to_set());
        assert(keys.no_duplicates());
        keys.unique_seq_to_set();
    }

    /// An independent copy of this map, entry for entry.
    pub fn copied(&self) -> (r: Self)
        where
            V: Copy,
        ensures
            r.entries@ == self.entries@,
    {
        let mut entries: Vec<(TokenId, V)> = Vec::new();
        let mut i: usize = 0;
        while i < self.entries.len()
            invariant
                i <= self.entries@.len(),
                entries@ == self.entries@.take(i as int),
            decreases self.entries@.len() - i,
        {
            let key = self.entries[i].0.clone();
            let value = self.entries[i].1;
            entries.push((key, value));
            proof {
                assert(self.entries@.take(i + 1) == self.entries@.take(i as int).push(self.entries@[i as int]));
            }
            i = i + 1;
        }
        proof {
            assert(self.entries@.take(i as int) == self.entries@);
        }
        TokenMap { entries }
    }

    /// The position of the entry with key `k`, if there is one.
    pub fn find(&self, k: &TokenId) -> (r: Option<usize>)
        requires
            self.wf(),
        ensures
            r matches Some(i) ==> i < self.entries@.len() && self.entries@[i as int].0@ == k@,
            r is None <==> !self@.contains_key(k@),
    {
        let mut i: usize = 0;
        while i < self.entries.len()
            invariant
                i <= self.entries@.len(),
                forall|j: int| 0 <= j < i ==> self.entries@[j].0@ != k@,
            decreases self.entries@.len() - i,
        {
            if self.entries[i].0 == *k {
                proof {
                    lemma_entries_map_dom(self.entries@, k@);
                }
                return Some(i);
            }
            i = i + 1;
        }
        proof {
            lemma_entries_map_dom(self.entries@, k@);
        }
        None
    }

    pub fn get(&self, k: &TokenId) -> (r: Option<&V>)
        requires
            self.wf(),
        ensures
            r matches Some(v) ==> self@.contains_key(k@) && *v == self@[k@],
            r is None <==> !self@.contains_key(k@),
    {
        match self.find(k) {
            Some(i) => {
                proof {
                    lemma_entries_map_index(self.entries@, i as int);
                }
                Some(&self.entries[i].1)
            },
            None => None,
        }
    }

    /// Inserts or overwrites the value at `k`.
    pub fn insert(&mut self, k: TokenId, v: V)
        requires
            old(self).wf(),
        ensures
            final(self).wf(),
            final(self)@ == old(self)@.insert(k@, v),
    {
        match self.find(&k) {
            Some(i) => {
                let ghost s = self.entries@;
                let ghost kv = k@;
                self.entries.set(i, (k, v));
                proof {
                    let t = self.entries@;
                    assert(keys_unique(t)) by {
                        assert forall|a: int, b: int|
                            0 <= a < t.len() && 0 <= b < t.len() && a != b implies t[a].0@ != t[b].0@ by {
                            assert(t[a].0@ == s[a].0@ && t[b].0@ == s[b].0@);
                        }
                    }
                    let m = entries_map(s).insert(kv, v);
                    assert forall|j: int| 0 <= j < t.len() implies #[trigger] m.contains_key(t[j].0@)
                        && m[t[j].0@] == t[j].1 by {
                        if j != i {
                            lemma_entries_map_index(s, j);
                        }
                    }
                    assert forall|key: Seq<char>| #[trigger] m.contains_key(key) implies exists|j: int|
                        0 <= j < t.len() && t[j].0@ == key by {
                        if key != kv {
                            lemma_entries_map_dom(s, key);
                            let j = choose|j: int| 0 <= j < s.len() && s[j].0@ == key;
                            assert(t[j].0@ == key);
                        } else {
                            assert(t[i as int].0@ == key);
                        }
                    }
                    lemma_entries_map_ext(t, m);
                }
            },
            None => {
                let ghost s = self.entries@;
                self.entries.push((k, v));
                proof {
                    let t = self.entries@;
                    assert(t.drop_last() == s);
                    assert(keys_unique(t)) by {
                        assert forall|a: int, b: int|
                            0 <= a < t.len() && 0 <= b < t.len() && a != b implies t[a].0@ != t[b].0@ by {
                            if a == s.len() {
                                lemma_entries_map_dom(s, t[a].0@);
                                assert(s[b] == t[b]);
                            } else if b == s.len() {
                                lemma_entries_map_dom(s, t[b].0@);
                                assert(s[a] == t[a]);
                            } else {
                                assert(s[a] == t[a] && s[b] == t[b]);
                            }
                        }
                    }
                }
            },
        }
    }

    /// Removes the entry at `k` and returns its value, if there was one.
    pub fn remove(&mut self, k: &TokenId) -> (r: Option<V>)
        requires
            old(self).wf(),
        ensures
            final(self).wf(),
            final(self)@ == old(self)@.remove(k@),
            r matches Some(v) ==> old(self)@.contains_key(k@) && v == old(self)@[k@],
            r is None <==> !old(self)@.contains_key(k@),
    {
        match self.find(k) {
            Some(i) => {
                let ghost s = self.entries@;
                proof {
                    lemma_entries_map_index(s, i as int);
                }
                let (_, v) = self.entries.remove(i);
                proof {
                    let t = self.entries@;
                    assert(t == s.remove(i as int));
                    assert(keys_unique(t)) by {
                        assert forall|a: int, b: int|
                            0 <= a < t.len() && 0 <= b < t.len() && a != b implies t[a].0@ != t[b].0@ by {
                            let sa = if a < i { a } else { a + 1 };
                            let sb = if b < i { b } else { b + 1 };
                            assert(t[a] == s[sa] && t[b] == s[sb]);
                        }
                    }
                    let m = entries_map(s).remove(k@);
                    assert forall|j: int| 0 <= j < t.len() implies #[trigger] m.contains_key(t[j].0@)
                        && m[t[j].0@] == t[j].1 by {
                        let sj = if j < i { j } else { j + 1 };
                        assert(t[j] == s[sj]);
                        lemma_entries_map_index(s, sj);
                    }
                    assert forall|key: Seq<char>| #[trigger] m.contains_key(key) implies exists|j: int|
                        0 <= j < t.len() && t[j].0@ == key by {
                        lemma_entries_map_dom(s, key);
                        let sj = choose|sj: int| 0 <= sj < s.len() && s[sj].0@ == key;
                        let j = if sj < i { sj } else { sj - 1 };
                        assert(t[j] == s[sj]);
                    }
                    lemma_entries_map_ext(t, m);
                }
                Some(v)
            },
            None => {
                proof {
                    assert(self@.remove(k@) =~= self@);
                }
                None
            },
        }
    }
}

} // verus!
