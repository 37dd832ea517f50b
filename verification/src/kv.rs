//! Association lists with distinct string keys, viewed as finite maps.
//!
//! Every index structure of the hub (peers, servers, presence records,
//! per-IP counters) is a vector of key/value pairs whose keys are pairwise
//! distinct; its mathematical model is the `Map` built by `kv_map`.

use vstd::prelude::*;

verus! {

/// The finite map described by an association list, later pairs shadowing
/// earlier ones (with distinct keys nothing is shadowed).
pub open spec fn kv_map<K: View, V: View>(s: Seq<(K, V)>) -> Map<K::V, V::V>
    decreases s.len(),
{
    if s.len() == 0 {
        Map::empty()
    } else {
        kv_map(s.drop_last()).insert(s.last().0@, s.last().1@)
    }
}

/// Keys are pairwise distinct (as abstract values).
pub open spec fn kv_distinct<K: View, V>(s: Seq<(K, V)>) -> bool {
    forall|i: int, j: int| 0 <= i < j < s.len() ==> s[i].0@ != s[j].0@
}

pub proof fn lemma_kv_contains<K: View, V: View>(s: Seq<(K, V)>, k: K::V)
    ensures
        kv_map(s).contains_key(k) <==> exists|i: int| 0 <= i < s.len() && s[i].0@ == k,
    decreases s.len(),
{
    if s.len() > 0 {
        lemma_kv_contains(s.drop_last(), k);
        if s.last().0@ == k {
            assert(s[s.len() - 1].0@ == k);
        } else if kv_map(s).contains_key(k) {
            let i = choose|i: int| 0 <= i < s.drop_last().len() && s.drop_last()[i].0@ == k;
            assert(s[i].0@ == k);
        } else {
            assert forall|i: int| 0 <= i < s.len() implies s[i].0@ != k by {
                if i < s.len() - 1 {
                    assert(s.drop_last()[i].0@ == s[i].0@);
                }
            }
        }
    }
}

pub proof fn lemma_kv_get<K: View, V: View>(s: Seq<(K, V)>, i: int)
    requires
        kv_distinct(s),
        0 <= i < s.len(),
    ensures
        kv_map(s).contains_key(s[i].0@),
        kv_map(s)[s[i].0@] == s[i].1@,
    decreases s.len(),
{
    if i == s.len() - 1 {
    } else {
        assert(s.drop_last()[i] == s[i]);
        lemma_kv_get(s.drop_last(), i);
        assert(s[i].0@ != s.last().0@);
    }
}

pub proof fn lemma_kv_push<K: View, V: View>(s: Seq<(K, V)>, e: (K, V))
    ensures
        kv_map(s.push(e)) == kv_map(s).insert(e.0@, e.1@),
        kv_distinct(s) && (forall|i: int| 0 <= i < s.len() ==> s[i].0@ != e.0@)
            ==> kv_distinct(s.push(e)),
{
    assert(s.push(e).drop_last() =~= s);
    assert(s.push(e).last() == e);
    if kv_distinct(s) && (forall|i: int| 0 <= i < s.len() ==> s[i].0@ != e.0@) {
        assert forall|i: int, j: int| 0 <= i < j < s.push(e).len() implies s.push(e)[i].0@
            != s.push(e)[j].0@ by {
            if j < s.len() {
                assert(s.push(e)[i] == s[i] && s.push(e)[j] == s[j]);
            } else {
                assert(s.push(e)[i] == s[i] && s.push(e)[j] == e);
            }
        }
    }
}

pub proof fn lemma_kv_remove<K: View, V: View>(s: Seq<(K, V)>, i: int)
    requires
        kv_distinct(s),
        0 <= i < s.len(),
    ensures
        kv_map(s.remove(i)) == kv_map(s).remove(s[i].0@),
        kv_distinct(s.remove(i)),
    decreases s.len(),
{
    lemma_kv_contains(s.drop_last(), s.last().0@);
    if i == s.len() - 1 {
        assert(s.remove(i) =~= s.drop_last());
        assert(!kv_map(s.drop_last()).contains_key(s.last().0@));
        assert(kv_map(s.drop_last()).insert(s.last().0@, s.last().1@).remove(s.last().0@)
            =~= kv_map(s.drop_last()));
    } else {
        assert(s.remove(i).drop_last() =~= s.drop_last().remove(i));
        assert(s.remove(i).last() == s.last());
        lemma_kv_remove(s.drop_last(), i);
        assert(s.drop_last()[i] == s[i]);
        assert(s[i].0@ != s.last().0@);
        assert(kv_map(s.drop_last()).remove(s[i].0@).insert(s.last().0@, s.last().1@)
            =~= kv_map(s.drop_last()).insert(s.last().0@, s.last().1@).remove(s[i].0@));
        assert forall|a: int, b: int| 0 <= a < b < s.remove(i).len() implies s.remove(i)[a].0@
            != s.remove(i)[b].0@ by {
            let a0 = if a < i { a } else { a + 1 };
            let b0 = if b < i { b } else { b + 1 };
            assert(s.remove(i)[a] == s[a0] && s.remove(i)[b] == s[b0]);
        }
    }
}

pub proof fn lemma_kv_update<K: View, V: View>(s: Seq<(K, V)>, i: int, e: (K, V))
    requires
        kv_distinct(s),
        0 <= i < s.len(),
        e.0@ == s[i].0@,
    ensures
        kv_map(s.update(i, e)) == kv_map(s).insert(e.0@, e.1@),
        kv_distinct(s.update(i, e)),
    decreases s.len(),
{
    lemma_kv_contains(s.drop_last(), s.last().0@);
    if i == s.len() - 1 {
        assert(s.update(i, e).drop_last() =~= s.drop_last());
        assert(s.update(i, e).last() == e);
        assert(kv_map(s.drop_last()).insert(s.last().0@, s.last().1@).insert(e.0@, e.1@)
            =~= kv_map(s.drop_last()).insert(e.0@, e.1@));
    } else {
        assert(s.update(i, e).drop_last() =~= s.drop_last().update(i, e));
        assert(s.update(i, e).last() == s.last());
        assert(s.drop_last()[i] == s[i]);
        lemma_kv_update(s.drop_last(), i, e);
        assert(s[i].0@ != s.last().0@);
        assert(kv_map(s.drop_last()).insert(e.0@, e.1@).insert(s.last().0@, s.last().1@)
            =~= kv_map(s.drop_last()).insert(s.last().0@, s.last().1@).insert(e.0@, e.1@));
    }
    assert forall|a: int, b: int| 0 <= a < b < s.update(i, e).len() implies s.update(i, e)[a].0@
        != s.update(i, e)[b].0@ by {
        assert(s.update(i, e)[a].0@ == s[a].0@ && s.update(i, e)[b].0@ == s[b].0@);
    }
}

/// Find the entry whose key is the pair `(k0, k1)` in an association list
/// keyed by pairs of strings.
pub fn kv_find2<V>(entries: &Vec<((String, String), V)>, k0: &String, k1: &String) -> (r: Option<
    usize,
>)
    ensures
        match r {
            Some(i) => i < entries@.len() && entries@[i as int].0@ == (k0@, k1@),
            None => forall|i: int| 0 <= i < entries@.len() ==> entries@[i].0@ != (k0@, k1@),
        },
{
    let n = entries.len();
    for i in 0..n
        invariant
            n == entries@.len(),
            forall|j: int| 0 <= j < i ==> entries@[j].0@ != (k0@, k1@),
    {
        if entries[i].0.0 == *k0 && entries[i].0.1 == *k1 {
            return Some(i);
        }
    }
    None
}

/// An association list keyed by strings; its view is the map it describes.
pub struct AList<V> {
    pub entries: Vec<(String, V)>,
}

impl<V: View> View for AList<V> {
    type V = Map<Seq<char>, V::V>;

    open spec fn view(&self) -> Map<Seq<char>, V::V> {
        kv_map(self.entries@)
    }
}

impl<V: View> AList<V> {
    pub open spec fn wf(&self) -> bool {
        kv_distinct(self.entries@)
    }

    pub fn new() -> (r: Self)
        ensures
            r.wf(),
            r@ == Map::<Seq<char>, V::V>::empty(),
            r.entries@.len() == 0,
    {
        AList { entries: Vec::new() }
    }

    pub fn find(&self, k: &String) -> (r: Option<usize>)
        ensures
            match r {
                Some(i) => i < self.entries@.len() && self.entries@[i as int].0@ == k@,
                None => forall|i: int| 0 <= i < self.entries@.len() ==> self.entries@[i].0@ != k@,
            },
    {
        let n = self.entries.len();
        for i in 0..n
            invariant
                n == self.entries@.len(),
                forall|j: int| 0 <= j < i ==> self.entries@[j].0@ != k@,
        {
            if self.entries[i].0 == *k {
                return Some(i);
            }
        }
        None
    }

    pub fn contains_key(&self, k: &String) -> (r: bool)
        requires
            self.wf(),
        ensures
            r == self@.contains_key(k@),
    {
        let r = self.find(k);
        proof {
            lemma_kv_contains(self.entries@, k@);
        }
        r.is_some()
    }

    pub fn get<'a>(&'a self, k: &String) -> (r: Option<&'a V>)
        requires
            self.wf(),
        ensures
            r is Some <==> self@.contains_key(k@),
            match r {
                Some(x) => x@ == self@[k@] && exists|i: int|
                    0 <= i < self.entries@.len() && self.entries@[i].0@ == k@
                        && self.entries@[i].1 == *x,
                None => true,
            },
    {
        proof {
            lemma_kv_contains(self.entries@, k@);
        }
        match self.find(k) {
            Some(i) => {
                proof {
                    lemma_kv_get(self.entries@, i as int);
                }
                Some(&self.entries[i].1)
            },
            None => None,
        }
    }

    pub fn insert(&mut self, k: String, v: V)
        requires
            old(self).wf(),
        ensures
            final(self).wf(),
            final(self)@ == old(self)@.insert(k@, v@),
            forall|j: int| 0 <= j < final(self).entries@.len()
                ==> (final(self).entries@[j] == (k, v)
                    || old(self).entries@.contains(final(self).entries@[j])),
    {
        proof {
            lemma_kv_contains(self.entries@, k@);
        }
        match self.find(&k) {
            Some(i) => {
                let ghost s0 = self.entries@;
                proof {
                    lemma_kv_update(s0, i as int, (k, v));
                }
                self.entries.remove(i);
                self.entries.insert(i, (k, v));
                proof {
                    assert(self.entries@ =~= s0.update(i as int, (k, v)));
                }
            },
            None => {
                let ghost s0 = self.entries@;
                proof {
                    lemma_kv_push(s0, (k, v));
                }
                self.entries.push((k, v));
            },
        }
    }

    pub fn remove(&mut self, k: &String) -> (r: Option<V>)
        requires
            old(self).wf(),
        ensures
            final(self).wf(),
            final(self)@ == old(self)@.remove(k@),
            r is Some <==> old(self)@.contains_key(k@),
            match r {
                Some(v) => v@ == old(self)@[k@] && exists|i: int|
                    0 <= i < old(self).entries@.len() && old(self).entries@[i].0@ == k@
                        && old(self).entries@[i].1 == v,
                None => true,
            },
            forall|j: int| 0 <= j < final(self).entries@.len()
                ==> old(self).entries@.contains(final(self).entries@[j]),
    {
        proof {
            lemma_kv_contains(self.entries@, k@);
        }
        match self.find(k) {
            Some(i) => {
                let ghost s0 = self.entries@;
                proof {
                    lemma_kv_get(s0, i as int);
                    lemma_kv_remove(s0, i as int);
                }
                let (_, v) = self.entries.remove(i);
                proof {
                    assert(self.entries@ =~= s0.remove(i as int));
                }
                Some(v)
            },
            None => {
                proof {
                    assert(self@ =~= self@.remove(k@));
                }
                None
            },
        }
    }

    pub fn len(&self) -> (r: usize)
        ensures
            r == self.entries@.len(),
    {
        self.entries.len()
    }
}

} // verus!
