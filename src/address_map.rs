//! A map from ROM addresses to values, kept in insertion order.
use vstd::prelude::*;

verus! {

/// The map that the entries `s` describe; a later entry for a key wins.
pub open spec fn to_map<V>(s: Seq<(usize, V)>) -> Map<usize, V>
    decreases s.len(),
{
    if s.len() == 0 {
        Map::empty()
    } else {
        to_map(s.drop_last()).insert(s.last().0, s.last().1)
    }
}

/// No key occurs twice in `s`.
pub open spec fn keys_unique<V>(s: Seq<(usize, V)>) -> bool {
    forall|i: int, j: int| 0 <= i < j < s.len() ==> s[i].0 != s[j].0
}

/// A key is in the map exactly when an entry holds it.
pub proof fn lemma_to_map_dom<V>(s: Seq<(usize, V)>, k: usize)
    ensures
        to_map(s).contains_key(k) <==> exists|i: int| 0 <= i < s.len() && s[i].0 == k,
    decreases s.len(),
{
    if s.len() > 0 {
        lemma_to_map_dom(s.drop_last(), k);
        if to_map(s).contains_key(k) && k != s.last().0 {
            let i = choose|i: int| 0 <= i < s.drop_last().len() && s.drop_last()[i].0 == k;
            assert(s[i].0 == k);
        }
        if exists|i: int| 0 <= i < s.len() && s[i].0 == k {
            let i = choose|i: int| 0 <= i < s.len() && s[i].0 == k;
            if i < s.len() - 1 {
                assert(s.drop_last()[i].0 == k);
            }
        }
    }
}

/// With unique keys, each entry is what the map holds for its key.
pub proof fn lemma_to_map_index<V>(s: Seq<(usize, V)>, i: int)
    requires
        keys_unique(s),
        0 <= i < s.len(),
    ensures
        to_map(s).contains_key(s[i].0),
        to_map(s)[s[i].0] == s[i].1,
    decreases s.len(),
{
    if i < s.len() - 1 {
        assert(s.drop_last()[i] == s[i]);
        lemma_to_map_index(s.drop_last(), i);
    }
}

/// Replacing the entry at `i` by `(k, v)`, where `k` is its key or a key that
/// no entry holds, removes its old key and maps `k` to `v`.
pub proof fn lemma_to_map_update<V>(s: Seq<(usize, V)>, i: int, k: usize, v: V)
    requires
        keys_unique(s),
        0 <= i < s.len(),
        k == s[i].0 || !to_map(s).contains_key(k),
    ensures
        to_map(s.update(i, (k, v))) == to_map(s).remove(s[i].0).insert(k, v),
        keys_unique(s.update(i, (k, v))),
    decreases s.len(),
{
    let t = s.update(i, (k, v));
    if !(k == s[i].0) {
        assert forall|j: int| 0 <= j < s.len() implies s[j].0 != k by {
            lemma_to_map_dom(s, k);
        }
    }
    if i == s.len() - 1 {
        assert(t.drop_last() =~= s.drop_last());
        assert(!to_map(s.drop_last()).contains_key(s[i].0)) by {
            lemma_to_map_dom(s.drop_last(), s[i].0);
        }
        assert(to_map(t) =~= to_map(s).remove(s[i].0).insert(k, v));
    } else {
        let d = s.drop_last();
        assert(t.drop_last() =~= d.update(i, (k, v)));
        assert(!to_map(d).contains_key(k) || k == d[i].0) by {
            lemma_to_map_dom(d, k);
            lemma_to_map_dom(s, k);
            if to_map(d).contains_key(k) {
                let j = choose|j: int| 0 <= j < d.len() && d[j].0 == k;
                assert(s[j].0 == k);
            }
        }
        lemma_to_map_update(d, i, k, v);
        assert(to_map(t) =~= to_map(s).remove(s[i].0).insert(k, v));
    }
}

/// Two entry sequences with the same keys in the same places have the same
/// domain, and each maps every key to the value at its place.
pub proof fn lemma_same_keys<V>(s: Seq<(usize, V)>, t: Seq<(usize, V)>)
    requires
        keys_unique(s),
        s.len() == t.len(),
        forall|p: int| 0 <= p < s.len() ==> #[trigger] s[p].0 == t[p].0,
    ensures
        keys_unique(t),
        to_map(t).dom() == to_map(s).dom(),
        forall|p: int| 0 <= p < t.len() ==> to_map(t)[#[trigger] t[p].0] == t[p].1,
{
    assert(keys_unique(t)) by {
        assert forall|i: int, j: int| 0 <= i < j < t.len() implies t[i].0 != t[j].0 by {
            assert(s[i].0 == t[i].0 && s[j].0 == t[j].0);
        }
    }
    assert forall|k: usize| to_map(t).contains_key(k) <==> to_map(s).contains_key(k) by {
        lemma_to_map_dom(t, k);
        lemma_to_map_dom(s, k);
        if to_map(t).contains_key(k) {
            let p = choose|p: int| 0 <= p < t.len() && t[p].0 == k;
            assert(s[p].0 == k);
        }
        if to_map(s).contains_key(k) {
            let p = choose|p: int| 0 <= p < s.len() && s[p].0 == k;
            assert(t[p].0 == k);
        }
    }
    assert(to_map(t).dom() =~= to_map(s).dom());
    assert forall|p: int| 0 <= p < t.len() implies to_map(t)[#[trigger] t[p].0] == t[p].1 by {
        lemma_to_map_index(t, p);
    }
}

/// Values keyed by ROM address, in the order their keys were first inserted.
#[derive(Debug)]
pub struct AddressMap<V> {
    pub entries: Vec<(usize, V)>,
}

impl<V> AddressMap<V> {
    /// The map from address to value.
    pub open spec fn view(&self) -> Map<usize, V> {
        to_map(self.entries@)
    }

    /// No address occurs twice.
    pub open spec fn wf(&self) -> bool {
        keys_unique(self.entries@)
    }

    /// The addresses, in order.
    pub open spec fn key_seq(&self) -> Seq<usize> {
        self.entries@.map_values(|e: (usize, V)| e.0)
    }

    /// An empty map.
    pub fn new() -> (r: Self)
        ensures
            r.wf(),
            r@ == Map::<usize, V>::empty(),
            r.entries@.len() == 0,
    {
        AddressMap { entries: Vec::new() }
    }

    /// Number of addresses.
    pub fn len(&self) -> (r: usize)
        requires
            self.wf(),
        ensures
            r == self@.dom().len(),
            r == self.entries@.len(),
    {
        proof {
            self.lemma_dom_is_keys();
        }
        self.entries.len()
    }

    /// The domain is the set of keys of the entries, one per entry.
    pub proof fn lemma_dom_is_keys(&self)
        requires
            self.wf(),
        ensures
            self@.dom() == self.key_seq().to_set(),
            self@.dom().len() == self.entries@.len(),
            self@.dom().finite(),
    {
        let ks = self.key_seq();
        assert forall|k: usize| self@.dom().contains(k) <==> ks.to_set().contains(k) by {
            lemma_to_map_dom(self.entries@, k);
            if ks.contains(k) {
                let i = choose|i: int| 0 <= i < ks.len() && ks[i] == k;
                assert(self.entries@[i].0 == k);
            }
            if self@.dom().contains(k) {
                let i = choose|i: int| 0 <= i < self.entries@.len() && self.entries@[i].0 == k;
                assert(ks[i] == k);
            }
        }
        assert(self@.dom() =~= ks.to_set());
        assert(ks.no_duplicates()) by {
            assert forall|i: int, j: int| 0 <= i < ks.len() && 0 <= j < ks.len() && i != j implies ks[i]
                != ks[j] by {
                if i < j {
                    assert(self.entries@[i].0 != self.entries@[j].0);
                } else {
                    assert(self.entries@[j].0 != self.entries@[i].0);
                }
            }
        }
        ks.unique_seq_to_set();
    }

    /// The position of the entry for `k`.
    pub fn find(&self, k: usize) -> (r: Option<usize>)
        requires
            self.wf(),
        ensures
            r.is_some() <==> self@.contains_key(k),
            r.is_some() ==> r.unwrap() < self.entries@.len() && self.entries@[r.unwrap() as int].0
                == k && self@[k] == self.entries@[r.unwrap() as int].1,
    {
        let mut i: usize = 0;
        while i < self.entries.len()
            invariant
                self.wf(),
                i <= self.entries@.len(),
                forall|j: int| 0 <= j < i ==> self.entries@[j].0 != k,
            decreases self.entries@.len() - i,
        {
            if self.entries[i].0 == k {
                proof {
                    lemma_to_map_index(self.entries@, i as int);
                }
                return Some(i);
            }
            i += 1;
        }
        proof {
            lemma_to_map_dom(self.entries@, k);
        }
        None
    }

    /// Whether `k` has a value.
    pub fn contains_key(&self, k: usize) -> (r: bool)
        requires
            self.wf(),
        ensures
            r == self@.contains_key(k),
    {
        self.find(k).is_some()
    }

    /// The value at `k`.
    pub fn get(&self, k: usize) -> (r: Option<&V>)
        requires
            self.wf(),
        ensures
            r.is_some() <==> self@.contains_key(k),
            r.is_some() ==> *r.unwrap() == self@[k],
    {
        match self.find(k) {
            Some(i) => Some(&self.entries[i].1),
            None => None,
        }
    }

    /// Sets the value at `k`, adding `k` at the end when it is new.
    pub fn insert(&mut self, k: usize, v: V)
        requires
            old(self).wf(),
        ensures
            final(self).wf(),
            final(self)@ == old(self)@.insert(k, v),
            old(self)@.contains_key(k) ==> final(self).key_seq() == old(self).key_seq(),
            !old(self)@.contains_key(k) ==> final(self).key_seq() == old(self).key_seq().push(k),
    {
        match self.find(k) {
            Some(i) => {
                proof {
                    lemma_to_map_update(self.entries@, i as int, k, v);
                    assert(old(self)@.remove(k).insert(k, v) =~= old(self)@.insert(k, v));
                }
                self.entries.set(i, (k, v));
                assert(self.key_seq() =~= old(self).key_seq());
            },
            None => {
                proof {
                    lemma_to_map_dom(self.entries@, k);
                }
                self.entries.push((k, v));
                assert(self.entries@.drop_last() =~= old(self).entries@);
                assert(self.key_seq() =~= old(self).key_seq().push(k));
            },
        }
    }

    /// The addresses, in order.
    pub fn keys(&self) -> (r: Vec<usize>)
        ensures
            r@ == self.key_seq(),
    {
        let mut r: Vec<usize> = Vec::new();
        let mut i: usize = 0;
        while i < self.entries.len()
            invariant
                i <= self.entries@.len(),
                r@ == self.key_seq().subrange(0, i as int),
            decreases self.entries@.len() - i,
        {
            r.push(self.entries[i].0);
            i += 1;
            assert(r@ =~= self.key_seq().subrange(0, i as int));
        }
        assert(r@ =~= self.key_seq());
        r
    }
}

} // verus!
