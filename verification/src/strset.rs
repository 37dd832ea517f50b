//! Sets of strings backed by duplicate-free vectors, and maps from strings
//! to such sets.  These are the building blocks of the hub's reverse
//! indexes: peers per server, peers per signing key, peers per connection,
//! users per signing key.

use vstd::prelude::*;
use crate::kv::{AList, kv_distinct, kv_map};

verus! {

/// A set of strings; the order of `sseq` is the insertion order.
pub struct StrSet {
    pub items: Vec<String>,
}

impl View for StrSet {
    type V = Set<Seq<char>>;

    open spec fn view(&self) -> Set<Seq<char>> {
        self.sseq().to_set()
    }
}

impl StrSet {
    pub open spec fn sseq(&self) -> Seq<Seq<char>> {
        self.items.deep_view()
    }

    pub open spec fn wf(&self) -> bool {
        self.sseq().no_duplicates()
    }

    pub fn new() -> (r: Self)
        ensures
            r.wf(),
            r.sseq() == Seq::<Seq<char>>::empty(),
            r@ == Set::<Seq<char>>::empty(),
    {
        let r = StrSet { items: Vec::new() };
        proof {
            assert(r.sseq() =~= Seq::<Seq<char>>::empty());
            assert(r@ =~= Set::<Seq<char>>::empty());
        }
        r
    }

    pub fn from_one(s: String) -> (r: Self)
        ensures
            r.wf(),
            r.sseq() == seq![s@],
            r@ == Set::<Seq<char>>::empty().insert(s@),
    {
        let mut items = Vec::new();
        items.push(s);
        let r = StrSet { items };
        proof {
            assert(r.sseq() =~= seq![s@]);
            assert(r.sseq()[0] == s@);
            assert forall|x: Seq<char>| r@.contains(x) implies x == s@ by {
                let i = choose|i: int| 0 <= i < r.sseq().len() && r.sseq()[i] == x;
                assert(i == 0);
            }
            assert(r@ =~= Set::<Seq<char>>::empty().insert(s@));
        }
        r
    }

    pub fn len(&self) -> (r: usize)
        ensures
            r == self.sseq().len(),
    {
        self.items.len()
    }

    pub fn is_empty(&self) -> (r: bool)
        ensures
            r == (self.sseq().len() == 0),
            r == self@.is_empty(),
    {
        proof {
            if self.sseq().len() == 0 {
                assert(self@ =~= Set::<Seq<char>>::empty());
            } else {
                assert(self@.contains(self.sseq()[0]));
            }
        }
        self.items.len() == 0
    }

    pub fn at(&self, i: usize) -> (r: &String)
        requires
            i < self.sseq().len(),
        ensures
            r@ == self.sseq()[i as int],
            self@.contains(r@),
    {
        &self.items[i]
    }

    fn index_of(&self, s: &String) -> (r: Option<usize>)
        ensures
            match r {
                Some(i) => i < self.sseq().len() && self.sseq()[i as int] == s@,
                None => !self@.contains(s@),
            },
    {
        let n = self.items.len();
        for i in 0..n
            invariant
                n == self.items@.len(),
                forall|j: int| 0 <= j < i ==> self.sseq()[j] != s@,
        {
            if self.items[i] == *s {
                return Some(i);
            }
        }
        proof {
            assert(!self.sseq().contains(s@));
        }
        None
    }

    pub fn contains(&self, s: &String) -> (r: bool)
        ensures
            r == self@.contains(s@),
    {
        self.index_of(s).is_some()
    }

    /// Insert; returns whether the element was new.
    pub fn insert(&mut self, s: String) -> (added: bool)
        requires
            old(self).wf(),
        ensures
            final(self).wf(),
            final(self)@ == old(self)@.insert(s@),
            added == !old(self)@.contains(s@),
            added ==> final(self).sseq() == old(self).sseq().push(s@),
            !added ==> *final(self) == *old(self),
    {
        if self.contains(&s) {
            proof {
                assert(final(self)@ =~= old(self)@.insert(s@));
            }
            false
        } else {
            let ghost s0 = self.sseq();
            self.items.push(s);
            proof {
                assert(self.sseq() =~= s0.push(s@));
                assert forall|x: Seq<char>| self@.contains(x) implies old(self)@.insert(
                    s@,
                ).contains(x) by {
                    let i = choose|i: int| 0 <= i < self.sseq().len() && self.sseq()[i] == x;
                    if i < s0.len() {
                        assert(s0[i] == x);
                    }
                }
                assert forall|x: Seq<char>| old(self)@.insert(s@).contains(x) implies
                    self@.contains(x) by {
                    if x == s@ {
                        assert(self.sseq()[s0.len() as int] == x);
                    } else {
                        let i = choose|i: int| 0 <= i < s0.len() && s0[i] == x;
                        assert(self.sseq()[i] == x);
                    }
                }
                assert(self@ =~= old(self)@.insert(s@));
                assert(s0.push(s@).no_duplicates());
            }
            true
        }
    }

    /// Remove; returns whether the element was present.
    pub fn remove(&mut self, s: &String) -> (removed: bool)
        requires
            old(self).wf(),
        ensures
            final(self).wf(),
            final(self)@ == old(self)@.remove(s@),
            removed == old(self)@.contains(s@),
            final(self).sseq().len() == old(self).sseq().len() - (if removed { 1int } else { 0int }),
    {
        match self.index_of(s) {
            Some(i) => {
                let ghost s0 = self.sseq();
                self.items.remove(i);
                proof {
                    assert(self.sseq() =~= s0.remove(i as int));
                    assert(s0.remove(i as int).no_duplicates());
                    assert forall|x: Seq<char>| self@.contains(x) implies old(self)@.remove(
                        s@,
                    ).contains(x) by {
                        let j = choose|j: int| 0 <= j < s0.remove(i as int).len() && s0.remove(
                            i as int,
                        )[j] == x;
                        let j0 = if j < i { j } else { j + 1 };
                        assert(s0[j0] == x);
                        assert(j0 != i);
                    }
                    assert forall|x: Seq<char>| old(self)@.remove(s@).contains(x) implies
                        self@.contains(x) by {
                        let j = choose|j: int| 0 <= j < s0.len() && s0[j] == x;
                        assert(j != i);
                        let j1 = if j < i { j } else { j - 1 };
                        assert(s0.remove(i as int)[j1] == x);
                    }
                    assert(final(self)@ =~= old(self)@.remove(s@));
                }
                true
            },
            None => {
                proof {
                    assert(final(self)@ =~= old(self)@.remove(s@));
                }
                false
            },
        }
    }

    /// A copy of the contents, in order.
    pub fn to_vec(&self) -> (r: Vec<String>)
        ensures
            r.deep_view() == self.sseq(),
    {
        let n = self.items.len();
        let mut out: Vec<String> = Vec::new();
        for i in 0..n
            invariant
                n == self.items@.len(),
                out@.len() == i,
                forall|j: int| 0 <= j < i ==> out@[j]@ == self.items@[j]@,
        {
            out.push(self.items[i].clone());
        }
        proof {
            assert forall|j: int| 0 <= j < n implies out.deep_view()[j] == self.sseq()[j] by {
                assert(out@[j]@ == self.items@[j]@);
            }
            assert(out.deep_view() =~= self.sseq());
        }
        out
    }

    pub fn duplicate(&self) -> (r: Self)
        ensures
            r.sseq() == self.sseq(),
            r@ == self@,
            self.wf() ==> r.wf(),
    {
        StrSet { items: self.to_vec() }
    }
}

/// Add `x` to the set at key `k` of a map of sets, creating the key if absent.
pub open spec fn mm_add(m: Map<Seq<char>, Set<Seq<char>>>, k: Seq<char>, x: Seq<char>) -> Map<
    Seq<char>,
    Set<Seq<char>>,
> {
    m.insert(k, (if m.contains_key(k) { m[k] } else { Set::empty() }).insert(x))
}

/// Remove `x` from the set at key `k`, dropping the key if its set empties.
pub open spec fn mm_del(m: Map<Seq<char>, Set<Seq<char>>>, k: Seq<char>, x: Seq<char>) -> Map<
    Seq<char>,
    Set<Seq<char>>,
> {
    if m.contains_key(k) {
        if m[k].remove(x).is_empty() {
            m.remove(k)
        } else {
            m.insert(k, m[k].remove(x))
        }
    } else {
        m
    }
}

/// Remove `x` from every set of a map of sets, dropping keys whose set
/// empties.
pub open spec fn mm_purge(m: Map<Seq<char>, Set<Seq<char>>>, x: Seq<char>) -> Map<
    Seq<char>,
    Set<Seq<char>>,
> {
    Map::new(
        |k: Seq<char>| m.contains_key(k) && !(m[k].remove(x).is_empty()),
        |k: Seq<char>| m[k].remove(x),
    )
}

/// A map from strings to non-empty string sets.
pub struct SetMap {
    pub inner: AList<StrSet>,
}

impl View for SetMap {
    type V = Map<Seq<char>, Set<Seq<char>>>;

    open spec fn view(&self) -> Map<Seq<char>, Set<Seq<char>>> {
        self.inner@
    }
}

impl SetMap {
    pub open spec fn wf(&self) -> bool {
        &&& self.inner.wf()
        &&& forall|i: int| 0 <= i < self.inner.entries@.len() ==> {
            &&& (#[trigger] self.inner.entries@[i]).1.wf()
            &&& self.inner.entries@[i].1.sseq().len() > 0
        }
    }

    /// Every set held under a key is non-empty.
    pub proof fn lemma_nonempty(&self, k: Seq<char>)
        requires
            self.wf(),
            self@.contains_key(k),
        ensures
            !self@[k].is_empty(),
    {
        crate::kv::lemma_kv_contains(self.inner.entries@, k);
        let i = choose|i: int| 0 <= i < self.inner.entries@.len() && self.inner.entries@[i].0@
            == k;
        crate::kv::lemma_kv_get(self.inner.entries@, i);
        assert(self@[k].contains(self.inner.entries@[i].1.sseq()[0]));
    }

    pub fn new() -> (r: Self)
        ensures
            r.wf(),
            r@ == Map::<Seq<char>, Set<Seq<char>>>::empty(),
    {
        SetMap { inner: AList::new() }
    }

    pub fn contains_key(&self, k: &String) -> (r: bool)
        requires
            self.wf(),
        ensures
            r == self@.contains_key(k@),
    {
        self.inner.contains_key(k)
    }

    pub fn get_set<'a>(&'a self, k: &String) -> (r: Option<&'a StrSet>)
        requires
            self.wf(),
        ensures
            r is Some <==> self@.contains_key(k@),
            match r {
                Some(x) => x@ == self@[k@] && x.wf() && x.sseq().len() > 0,
                None => true,
            },
    {
        self.inner.get(k)
    }

    /// Insert `x` into the set at `k`, creating the entry if needed.
    pub fn add_elem(&mut self, k: &String, x: String)
        requires
            old(self).wf(),
        ensures
            final(self).wf(),
            final(self)@ == mm_add(old(self)@, k@, x@),
    {
        match self.inner.remove(k) {
            Some(mut s) => {
                s.insert(x);
                self.inner.insert(k.clone(), s);
                proof {
                    assert(final(self)@ =~= mm_add(old(self)@, k@, x@));
                }
            },
            None => {
                self.inner.insert(k.clone(), StrSet::from_one(x));
                proof {
                    assert(final(self)@ =~= mm_add(old(self)@, k@, x@));
                }
            },
        }
    }

    /// Remove `x` from the set at `k`; an entry whose set empties is dropped.
    pub fn remove_elem(&mut self, k: &String, x: &String)
        requires
            old(self).wf(),
        ensures
            final(self).wf(),
            final(self)@ == mm_del(old(self)@, k@, x@),
    {
        match self.inner.remove(k) {
            Some(mut s) => {
                s.remove(x);
                if !s.is_empty() {
                    self.inner.insert(k.clone(), s);
                    proof {
                        assert(final(self)@ =~= mm_del(old(self)@, k@, x@));
                    }
                } else {
                    proof {
                        assert(final(self)@ =~= mm_del(old(self)@, k@, x@));
                    }
                }
            },
            None => {
                proof {
                    assert(final(self)@ =~= mm_del(old(self)@, k@, x@));
                }
            },
        }
    }

    /// Remove `x` from every set of the map, dropping entries that empty.
    pub fn purge(&mut self, x: &String)
        requires
            old(self).wf(),
        ensures
            final(self).wf(),
            final(self)@ == mm_purge(old(self)@, x@),
    {
        let n = self.inner.entries.len();
        let ghost s0 = self.inner.entries@;
        let mut out: Vec<(String, StrSet)> = Vec::new();
        for i in 0..n
            invariant
                n == s0.len(),
                self.inner.entries@ == s0,
                kv_distinct(s0),
                forall|t: int| 0 <= t < s0.len() ==> (#[trigger] s0[t]).1.wf()
                    && s0[t].1.sseq().len() > 0,
                kv_distinct(out@),
                forall|t: int| 0 <= t < out@.len() ==> (#[trigger] out@[t]).1.wf()
                    && out@[t].1.sseq().len() > 0,
                forall|t: int| 0 <= t < out@.len() ==> exists|jj: int|
                    0 <= jj < i && (#[trigger] out@[t]).0@ == s0[jj].0@,
                kv_map(out@) =~= mm_purge(kv_map(s0.take(i as int)), x@),
        {
            let ghost key_i = s0[i as int].0@;
            let entry = &self.inner.entries[i];
            let mut kept = entry.1.duplicate();
            kept.remove(x);
            if !kept.is_empty() {
                let new_entry = (entry.0.clone(), kept);
                let ghost out0 = out@;
                proof {
                    assert forall|t: int| 0 <= t < out0.len() implies out0[t].0@ != key_i by {
                        let jj = choose|jj: int| 0 <= jj < i && out0[t].0@ == s0[jj].0@;
                        assert(s0[jj].0@ != s0[i as int].0@);
                    }
                    crate::kv::lemma_kv_push(out0, new_entry);
                }
                out.push(new_entry);
            }
            proof {
                assert(s0.take(i + 1).drop_last() =~= s0.take(i as int));
                assert(s0.take(i + 1).last() == s0[i as int]);
                crate::kv::lemma_kv_contains(s0.take(i as int), key_i);
                assert forall|jj: int| 0 <= jj < i implies s0.take(i as int)[jj].0@ != key_i by {
                    assert(s0[jj].0@ != s0[i as int].0@);
                }
                assert(!kv_map(s0.take(i as int)).contains_key(key_i));
                assert(kv_map(out@) =~= mm_purge(kv_map(s0.take(i + 1)), x@));
            }
        }
        proof {
            assert(s0.take(n as int) =~= s0);
        }
        self.inner = crate::kv::AList { entries: out };
    }

    /// Remove and return the whole set at `k`.
    pub fn take(&mut self, k: &String) -> (r: Option<StrSet>)
        requires
            old(self).wf(),
        ensures
            final(self).wf(),
            final(self)@ == old(self)@.remove(k@),
            r is Some <==> old(self)@.contains_key(k@),
            match r {
                Some(s) => s@ == old(self)@[k@] && s.wf() && s.sseq().len() > 0,
                None => true,
            },
    {
        self.inner.remove(k)
    }
}

} // verus!
