//! A map from text keys to values, held as a vector of pairs with unique keys.
use vstd::prelude::*;
use vstd::utf8::{decode_utf8, encode_utf8, encode_utf8_decode_utf8};

verus! {

/// Whether two byte slices hold the same bytes.
pub fn bytes_eq(a: &[u8], b: &[u8]) -> (r: bool)
    ensures
        r == (a@ == b@),
{
    if a.len() != b.len() {
        return false;
    }
    let mut i: usize = 0;
    while i < a.len()
        invariant
            a@.len() == b@.len(),
            i <= a@.len(),
            forall|j: int| 0 <= j < i ==> a@[j] == b@[j],
        decreases a@.len() - i,
    {
        if a[i] != b[i] {
            return false;
        }
        i = i + 1;
    }
    assert(a@ =~= b@);
    true
}

/// Whether two strings hold the same characters.
pub fn text_eq(a: &str, b: &str) -> (r: bool)
    ensures
        r == (a@ == b@),
{
    let r = bytes_eq(a.as_bytes(), b.as_bytes());
    proof {
        encode_utf8_decode_utf8(a@);
        encode_utf8_decode_utf8(b@);
    }
    r
}

/// Text keys mapped to values; no key appears twice.
pub struct StrMap<V> {
    items: Vec<(String, V)>,
}

impl<V> StrMap<V> {
    /// The keys in the order they are held.
    pub closed spec fn order(&self) -> Seq<Seq<char>> {
        Seq::new(self.items@.len(), |i: int| self.items@[i].0@)
    }

    pub closed spec fn wf(&self) -> bool {
        self.order().no_duplicates()
    }

    closed spec fn pos(&self, k: Seq<char>) -> int {
        choose|i: int| 0 <= i < self.items@.len() && self.items@[i].0@ == k
    }

    pub closed spec fn view(&self) -> Map<Seq<char>, V> {
        self.order().to_set().mk_map(|k: Seq<char>| self.items@[self.pos(k)].1)
    }

    /// The held order lists each key of the map once.
    pub proof fn lemma_order(&self)
        requires
            self.wf(),
        ensures
            self.order().no_duplicates(),
            self.order().len() == self@.len(),
            self@.dom().finite(),
            forall|k: Seq<char>| self@.contains_key(k) <==> self.order().contains(k),
    {
        self.order().unique_seq_to_set();
        assert(self@.dom() =~= self.order().to_set());
    }

    proof fn lemma_at(&self, i: int)
        requires
            self.wf(),
            0 <= i < self.items@.len(),
        ensures
            self@.contains_key(self.items@[i].0@),
            self@[self.items@[i].0@] == self.items@[i].1,
            self.order()[i] == self.items@[i].0@,
    {
        let k = self.items@[i].0@;
        assert(self.order()[i] == k);
        assert(self.order().contains(k));
        let j = self.pos(k);
        assert(0 <= j < self.items@.len() && self.items@[j].0@ == k);
        assert(self.order()[j] == k);
    }

    proof fn lemma_absent(&self, k: Seq<char>)
        requires
            forall|i: int| 0 <= i < self.items@.len() ==> self.items@[i].0@ != k,
        ensures
            !self@.contains_key(k),
    {
        if self.order().contains(k) {
            let i = choose|i: int| 0 <= i < self.order().len() && self.order()[i] == k;
            assert(self.items@[i].0@ == k);
        }
    }

    pub fn new() -> (m: Self)
        ensures
            m.wf(),
            m@ == Map::<Seq<char>, V>::empty(),
    {
        let m = StrMap { items: Vec::new() };
        assert(m.order() =~= Seq::<Seq<char>>::empty());
        assert(m@ =~= Map::<Seq<char>, V>::empty());
        m
    }

    pub fn len(&self) -> (r: usize)
        requires
            self.wf(),
        ensures
            r == self@.len(),
    {
        proof {
            self.lemma_order();
        }
        self.items.len()
    }

    /// Where `k` is held, if it is.
    fn find(&self, k: &str) -> (r: Option<usize>)
        requires
            self.wf(),
        ensures
            r is Some <==> self@.contains_key(k@),
            r matches Some(i) ==> i < self.items@.len() && self.items@[i as int].0@ == k@,
    {
        let mut i: usize = 0;
        while i < self.items.len()
            invariant
                self.wf(),
                i <= self.items@.len(),
                forall|j: int| 0 <= j < i ==> self.items@[j].0@ != k@,
            decreases self.items@.len() - i,
        {
            if text_eq(self.items[i].0.as_str(), k) {
                proof {
                    self.lemma_at(i as int);
                }
                return Some(i);
            }
            i = i + 1;
        }
        proof {
            self.lemma_absent(k@);
        }
        None
    }

    pub fn contains_key(&self, k: &str) -> (r: bool)
        requires
            self.wf(),
        ensures
            r == self@.contains_key(k@),
    {
        self.find(k).is_some()
    }

    pub fn get(&self, k: &str) -> (r: Option<&V>)
        requires
            self.wf(),
        ensures
            r is Some <==> self@.contains_key(k@),
            r matches Some(v) ==> *v == self@[k@],
    {
        match self.find(k) {
            Some(i) => {
                proof {
                    self.lemma_at(i as int);
                }
                Some(&self.items[i].1)
            },
            None => None,
        }
    }

    /// The key held at place `i` of the held order.
    pub fn key_at(&self, i: usize) -> (r: &String)
        requires
            self.wf(),
            i < self@.len(),
        ensures
            r@ == self.order()[i as int],
    {
        proof {
            self.lemma_order();
        }
        &self.items[i].0
    }

    /// The value held at place `i` of the held order.
    pub fn value_at(&self, i: usize) -> (r: &V)
        requires
            self.wf(),
            i < self@.len(),
        ensures
            *r == self@[self.order()[i as int]],
    {
        proof {
            self.lemma_order();
            self.lemma_at(i as int);
        }
        &self.items[i].1
    }

    /// Removes `k` and hands back its value, if it was there.
    pub fn remove(&mut self, k: &str) -> (r: Option<V>)
        requires
            old(self).wf(),
        ensures
            final(self).wf(),
            final(self)@ == old(self)@.remove(k@),
            r is Some <==> old(self)@.contains_key(k@),
            r matches Some(v) ==> v == old(self)@[k@],
    {
        match self.find(k) {
            None => {
                assert(self@ =~= old(self)@.remove(k@));
                None
            },
            Some(i) => {
                proof {
                    self.lemma_at(i as int);
                }
                let ghost before = *self;
                let (_, v) = self.items.remove(i);
                assert(self.order() =~= before.order().remove(i as int));
                assert(self.wf()) by {
                    assert forall|a: int, b: int|
                        0 <= a < b < self.order().len() implies self.order()[a]
                        != self.order()[b] by {
                        let a0 = if a < i { a } else { a + 1 };
                        let b0 = if b < i { b } else { b + 1 };
                        assert(self.order()[a] == before.order()[a0]);
                        assert(self.order()[b] == before.order()[b0]);
                    }
                }
                assert forall|q: Seq<char>| #[trigger]
                    self@.contains_key(q) == before@.remove(k@).contains_key(q) && (
                    self@.contains_key(q) ==> self@[q] == before@[q]) by {
                    if before@.contains_key(q) && q != k@ {
                        before.lemma_order();
                        let j = choose|j: int| 0 <= j < before.order().len() && before.order()[j] == q;
                        assert(j != i);
                        let j1 = if j < i { j } else { j - 1 };
                        assert(self.items@[j1] == before.items@[j]);
                        before.lemma_at(j);
                        self.lemma_at(j1);
                    }
                    if self@.contains_key(q) {
                        self.lemma_order();
                        let j = choose|j: int| 0 <= j < self.order().len() && self.order()[j] == q;
                        let j0 = if j < i { j } else { j + 1 };
                        assert(self.items@[j] == before.items@[j0]);
                        before.lemma_at(j0);
                        self.lemma_at(j);
                        assert(before.order()[j0] == q);
                        assert(q != k@) by {
                            assert(before.order()[i as int] == k@);
                        }
                    }
                }
                assert(self@ =~= before@.remove(k@));
                Some(v)
            },
        }
    }

    /// Sets `k` to `v` and hands back the value it replaced, if any.
    pub fn insert(&mut self, k: String, v: V) -> (r: Option<V>)
        requires
            old(self).wf(),
        ensures
            final(self).wf(),
            final(self)@ == old(self)@.insert(k@, v),
            r is Some <==> old(self)@.contains_key(k@),
            r matches Some(x) ==> x == old(self)@[k@],
    {
        let prev = self.remove(k.as_str());
        let ghost mid = *self;
        self.items.push((k, v));
        let ghost kv = k@;
        assert(self.order() =~= mid.order().push(kv));
        assert(self.wf()) by {
            assert(!mid.order().contains(kv)) by {
                mid.lemma_order();
            }
        }
        assert forall|q: Seq<char>| #[trigger]
            self@.contains_key(q) == mid@.insert(kv, v).contains_key(q) && (self@.contains_key(q)
                ==> self@[q] == mid@.insert(kv, v)[q]) by {
            let n = mid.items@.len() as int;
            self.lemma_at(n);
            if mid@.contains_key(q) {
                mid.lemma_order();
                let j = choose|j: int| 0 <= j < mid.order().len() && mid.order()[j] == q;
                assert(self.items@[j] == mid.items@[j]);
                mid.lemma_at(j);
                self.lemma_at(j);
            }
            if self@.contains_key(q) && q != kv {
                self.lemma_order();
                let j = choose|j: int| 0 <= j < self.order().len() && self.order()[j] == q;
                assert(j != n);
                assert(self.items@[j] == mid.items@[j]);
                mid.lemma_at(j);
            }
        }
        assert(self@ =~= mid@.insert(kv, v));
        assert(mid@.insert(kv, v) =~= old(self)@.insert(kv, v));
        prev
    }
}

} // verus!
