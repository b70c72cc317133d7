//! An in-memory key-value store with integer keys, the explicit stand-in for
//! the runtime storage maps that the accounting engine keeps its state in.
//!
//! The store is a pair of parallel vectors holding distinct keys and their
//! values; its view is the finite map from keys to values.  Accounts, eras
//! and composite (era, account) pairs are all encoded as `u128` keys.

use vstd::prelude::*;

verus! {

pub struct Store<V> {
    keys: Vec<u128>,
    vals: Vec<V>,
}

impl<V> Store<V> {
    /// The store is a well-shaped pair of parallel vectors: one value per
    /// key, no key twice.
    pub closed spec fn wf(self) -> bool {
        &&& self.keys@.len() == self.vals@.len()
        &&& self.keys@.no_duplicates()
    }

    /// The keys in insertion order.
    pub closed spec fn key_seq(self) -> Seq<u128> {
        self.keys@
    }

    /// The position of `k` among the keys; meaningful only when `k` is
    /// present, in which case no-duplication makes it unique.
    closed spec fn key_at(self, k: u128) -> int {
        self.keys@.index_of(k)
    }

    pub closed spec fn view(self) -> Map<u128, V> {
        Map::new(
            |k: u128| self.keys@.contains(k),
            |k: u128| self.vals@[self.keys@.index_of(k)],
        )
    }

    /// Each slot of the vectors is one entry of the map.
    proof fn lemma_entry(self, i: int)
        requires
            self.wf(),
            0 <= i < self.key_seq().len(),
        ensures
            self@.dom().contains(self.key_seq()[i]),
            self@[self.key_seq()[i]] == self.vals@[i],
            self.key_at(self.key_seq()[i]) == i,
    {
        let k = self.keys@[i];
        assert(self.keys@.contains(k));
        let j = self.keys@.index_of(k);
        assert(self.keys@[j] == k);
        if i != j {
            assert(false);
        }
    }

    /// The domain of the view is exactly the key sequence.
    pub proof fn lemma_dom(self)
        requires
            self.wf(),
        ensures
            forall|k: u128| self@.dom().contains(k) <==> self.key_seq().contains(k),
    {
    }

    pub fn new() -> (s: Self)
        ensures
            s.wf(),
            s@ =~= Map::<u128, V>::empty(),
            s.key_seq() =~= Seq::<u128>::empty(),
    {
        let s = Store { keys: Vec::new(), vals: Vec::new() };
        proof {
            assert forall|k: u128| !s@.dom().contains(k) by {}
        }
        s
    }

    pub fn len(&self) -> (n: usize)
        requires
            self.wf(),
        ensures
            n == self.key_seq().len(),
    {
        self.keys.len()
    }

    /// The index of `k` in the key vector, if present.
    fn find(&self, k: u128) -> (r: Option<usize>)
        requires
            self.wf(),
        ensures
            match r {
                Some(i) => {
                    &&& 0 <= i < self.key_seq().len()
                    &&& self.key_seq()[i as int] == k
                    &&& i == self.key_at(k)
                    &&& self@.dom().contains(k)
                },
                None => !self@.dom().contains(k),
            },
    {
        let n = self.keys.len();
        let mut i: usize = 0;
        while i < n
            invariant
                n == self.key_seq().len(),
                0 <= i <= n,
                self.wf(),
                forall|j: int| 0 <= j < i ==> self.key_seq()[j] != k,
            decreases n - i,
        {
            if self.keys[i] == k {
                proof {
                    self.lemma_entry(i as int);
                }
                return Some(i);
            }
            i += 1;
        }
        proof {
            assert(!self.keys@.contains(k));
        }
        None
    }

    pub fn contains_key(&self, k: u128) -> (r: bool)
        requires
            self.wf(),
        ensures
            r == self@.dom().contains(k),
    {
        self.find(k).is_some()
    }

    pub fn get(&self, k: u128) -> (r: Option<&V>)
        requires
            self.wf(),
        ensures
            match r {
                Some(v) => self@.dom().contains(k) && *v == self@[k],
                None => !self@.dom().contains(k),
            },
    {
        match self.find(k) {
            Some(i) => {
                proof {
                    self.lemma_entry(i as int);
                }
                Some(&self.vals[i])
            },
            None => None,
        }
    }

    /// Insert `v` under `k`, replacing any previous value.  A fresh key goes
    /// to the end of the key order; an existing key keeps its place.
    pub fn insert(&mut self, k: u128, v: V)
        requires
            old(self).wf(),
        ensures
            final(self).wf(),
            final(self)@ =~= old(self)@.insert(k, v),
            final(self).key_seq() == if old(self)@.dom().contains(k) {
                old(self).key_seq()
            } else {
                old(self).key_seq().push(k)
            },
    {
        let ghost pre = *self;
        match self.find(k) {
            Some(i) => {
                let slot = &mut self.vals[i];
                *slot = v;
                proof {
                    assert forall|k2: u128|
                        self@.dom().contains(k2) == pre@.insert(k, v).dom().contains(k2) by {}
                    assert forall|k2: u128| #[trigger] self@.dom().contains(k2)
                        implies self@[k2] == pre@.insert(k, v)[k2] by {
                        let j = self.keys@.index_of(k2);
                        assert(self.keys@.contains(k2));
                        self.lemma_entry(j);
                        if k2 == k {
                            assert(j == i);
                        } else {
                            assert(self.keys@[j] == k2);
                            assert(j != i);
                            assert(self.vals@[j] == pre.vals@[j]);
                            pre.lemma_entry(j);
                        }
                    }
                }
            },
            None => {
                self.keys.push(k);
                self.vals.push(v);
                proof {
                    assert(self.keys@.no_duplicates()) by {
                        assert forall|p: int, q: int|
                            0 <= p < self.keys@.len() && 0 <= q < self.keys@.len() && p != q
                            implies self.keys@[p] != self.keys@[q] by {
                            if p < pre.keys@.len() && q < pre.keys@.len() {
                                assert(pre.keys@.no_duplicates());
                            } else if p == pre.keys@.len() {
                                assert(self.keys@[q] == pre.keys@[q]);
                                assert(!pre.keys@.contains(k));
                            } else if q == pre.keys@.len() {
                                assert(self.keys@[p] == pre.keys@[p]);
                                assert(!pre.keys@.contains(k));
                            }
                        }
                    }
                    assert forall|k2: u128|
                        self@.dom().contains(k2) == pre@.insert(k, v).dom().contains(k2) by {
                        assert(self.keys@[pre.keys@.len() as int] == k);
                        assert(self.keys@.contains(k));
                        if k2 != k && self.keys@.contains(k2) {
                            let j = self.keys@.index_of(k2);
                            assert(self.keys@[j] == k2);
                            assert(j < pre.keys@.len());
                            assert(pre.keys@[j] == k2);
                            assert(pre.keys@.contains(k2));
                        }
                        if k2 != k && pre.keys@.contains(k2) {
                            let j = pre.keys@.index_of(k2);
                            assert(pre.keys@[j] == k2);
                            assert(self.keys@[j] == k2);
                            assert(self.keys@.contains(k2));
                        }
                    }
                    assert forall|k2: u128| #[trigger] self@.dom().contains(k2)
                        implies self@[k2] == pre@.insert(k, v)[k2] by {
                        let j = self.keys@.index_of(k2);
                        assert(self.keys@.contains(k2));
                        self.lemma_entry(j);
                        if k2 == k {
                            assert(j == pre.keys@.len());
                        } else {
                            assert(j < pre.keys@.len());
                            assert(pre.keys@[j] == k2);
                            assert(pre.keys@.contains(k2));
                            pre.lemma_entry(j);
                        }
                    }
                }
            },
        }
    }

    /// Remove the entry under `k`, returning its value.  The key order of
    /// the other entries may be rearranged.
    pub fn remove(&mut self, k: u128) -> (r: Option<V>)
        requires
            old(self).wf(),
        ensures
            final(self).wf(),
            final(self)@ =~= old(self)@.remove(k),
            match r {
                Some(v) => old(self)@.dom().contains(k) && v == old(self)@[k],
                None => !old(self)@.dom().contains(k) && *final(self) == *old(self),
            },
    {
        let ghost pre = *self;
        match self.find(k) {
            Some(i) => {
                proof {
                    pre.lemma_entry(i as int);
                }
                self.keys.swap_remove(i);
                let v = self.vals.swap_remove(i);
                proof {
                    let n = pre.keys@.len() - 1;
                    assert(self.keys@ =~= pre.keys@.update(i as int, pre.keys@[n]).take(n));
                    assert(self.vals@ =~= pre.vals@.update(i as int, pre.vals@[n]).take(n));
                    assert(self.keys@.no_duplicates()) by {
                        assert forall|p: int, q: int|
                            0 <= p < self.keys@.len() && 0 <= q < self.keys@.len() && p != q
                            implies self.keys@[p] != self.keys@[q] by {
                            assert(pre.keys@.no_duplicates());
                        }
                    }
                    assert forall|k2: u128|
                        self@.dom().contains(k2) == pre@.remove(k).dom().contains(k2) by {
                        if self.keys@.contains(k2) {
                            let j = self.keys@.index_of(k2);
                            assert(self.keys@[j] == k2);
                            if j == i && i < n {
                                assert(pre.keys@[n] == k2);
                                assert(pre.keys@.contains(k2));
                            } else {
                                assert(pre.keys@[j] == k2);
                                assert(pre.keys@.contains(k2));
                            }
                            assert(k2 != k) by {
                                if k2 == k {
                                    let j2 = if j == i && i < n { n } else { j };
                                    assert(pre.keys@[j2] == k);
                                    assert(pre.keys@[i as int] == k);
                                    assert(pre.keys@.no_duplicates());
                                }
                            }
                        }
                        if k2 != k && pre.keys@.contains(k2) {
                            let j = pre.keys@.index_of(k2);
                            assert(pre.keys@[j] == k2);
                            assert(j != i);
                            if j == n {
                                assert(i < n);
                                assert(self.keys@[i as int] == k2);
                            } else {
                                assert(self.keys@[j] == k2);
                            }
                            assert(self.keys@.contains(k2));
                        }
                    }
                    assert forall|k2: u128| #[trigger] self@.dom().contains(k2)
                        implies self@[k2] == pre@.remove(k)[k2] by {
                        let j = self.keys@.index_of(k2);
                        assert(self.keys@.contains(k2));
                        self.lemma_entry(j);
                        if j == i && i < n {
                            assert(pre.keys@[n] == k2 && pre.vals@[n] == self.vals@[j]);
                            pre.lemma_entry(n);
                        } else {
                            assert(pre.keys@[j] == k2 && pre.vals@[j] == self.vals@[j]);
                            pre.lemma_entry(j);
                        }
                    }
                }
                Some(v)
            },
            None => {
                proof {
                    assert(pre@.remove(k) =~= pre@);
                }
                None
            },
        }
    }

    /// A copy of the keys, in the store's key order.
    pub fn keys(&self) -> (r: Vec<u128>)
        requires
            self.wf(),
        ensures
            r@ == self.key_seq(),
            r@.no_duplicates(),
            forall|k: u128| r@.contains(k) <==> self@.dom().contains(k),
    {
        let n = self.keys.len();
        let mut r: Vec<u128> = Vec::new();
        let mut i: usize = 0;
        while i < n
            invariant
                n == self.key_seq().len(),
                0 <= i <= n,
                self.wf(),
                r@ =~= self.key_seq().take(i as int),
            decreases n - i,
        {
            r.push(self.keys[i]);
            i += 1;
        }
        proof {
            assert(r@ =~= self.key_seq());
        }
        r
    }
}

} // verus!
