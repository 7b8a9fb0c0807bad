//! The typed keyspace: strings, lists, sets and hashes under text keys, each
//! with an optional deadline after which the key reads as absent.
use crate::frame::copy_bytes;
use crate::glob::{glob_match, glob_matches};
use crate::strmap::StrMap;
use std::collections::VecDeque;
use vstd::prelude::*;
use vstd::utf8::encode_utf8;

verus! {

/// A stored value.
pub enum Value {
    String(Vec<u8>),
    List(VecDeque<Vec<u8>>),
    Members(StrMap<()>),
    Hash(StrMap<Vec<u8>>),
}

pub open spec fn value_type(v: Value) -> Seq<char> {
    match v {
        Value::String(_) => "string"@,
        Value::List(_) => "list"@,
        Value::Members(_) => "set"@,
        Value::Hash(_) => "hash"@,
    }
}

impl Value {
    pub fn kind_name(&self) -> (r: &'static str)
        ensures
            r@ == value_type(*self),
    {
        match self {
            Value::String(_) => "string",
            Value::List(_) => "list",
            Value::Members(_) => "set",
            Value::Hash(_) => "hash",
        }
    }
}

/// A stored record: a value and the time (in milliseconds) from which it is gone.
pub struct Entry {
    pub value: Value,
    pub expires_at: Option<u64>,
}

pub open spec fn bytes_of(v: Seq<Vec<u8>>) -> Seq<Seq<u8>> {
    v.map_values(|b: Vec<u8>| b@)
}

pub open spec fn texts_of(v: Seq<String>) -> Seq<Seq<char>> {
    v.map_values(|s: String| s@)
}

/// The elements of a list entry, head first.
pub open spec fn list_of(e: Entry) -> Seq<Seq<u8>> {
    match e.value {
        Value::List(l) => bytes_of(l@),
        _ => seq![],
    }
}

/// The members of a set entry.
pub open spec fn set_of(e: Entry) -> Set<Seq<char>> {
    match e.value {
        Value::Members(s) => s@.dom(),
        _ => Set::empty(),
    }
}

/// The fields of a hash entry and their values.
pub open spec fn hash_of(e: Entry) -> Map<Seq<char>, Seq<u8>> {
    match e.value {
        Value::Hash(h) => h@.map_values(|v: Vec<u8>| v@),
        _ => Map::empty(),
    }
}

/// Containers hold at least one element, and their keys are unique.
pub open spec fn entry_wf(e: Entry) -> bool {
    match e.value {
        Value::String(_) => true,
        Value::List(l) => l@.len() > 0,
        Value::Members(s) => s.wf() && s@.len() > 0,
        Value::Hash(h) => h.wf() && h@.len() > 0,
    }
}

/// Whether the entry is still there at time `now`.
pub open spec fn live(e: Entry, now: u64) -> bool {
    match e.expires_at {
        Some(t) => now < t,
        None => true,
    }
}

/// The store after a visit of `k` at `now` has dropped an expired entry.
pub open spec fn reaped(m: Map<Seq<char>, Entry>, k: Seq<char>, now: u64) -> Map<Seq<char>, Entry> {
    if m.contains_key(k) && !live(m[k], now) {
        m.remove(k)
    } else {
        m
    }
}

/// Where `LRANGE` starts and stops (exclusive) on a list of length `len`.
pub open spec fn range_start(len: int, start: int) -> int {
    if start < 0 {
        if len + start < 0 {
            0
        } else {
            len + start
        }
    } else if start < len {
        start
    } else {
        len
    }
}

pub open spec fn range_stop(len: int, stop: int) -> int {
    if stop < 0 {
        if len + stop < -1 {
            0
        } else {
            len + stop + 1
        }
    } else if stop + 1 < len {
        stop + 1
    } else {
        len
    }
}

/// The elements that `LRANGE start stop` selects.
pub open spec fn range_of(l: Seq<Seq<u8>>, start: int, stop: int) -> Seq<Seq<u8>> {
    let a = range_start(l.len() as int, start);
    let b = range_stop(l.len() as int, stop);
    if a >= b {
        seq![]
    } else {
        l.subrange(a, b)
    }
}

/// What a stored value holds.
pub enum ValueModel {
    Str(Seq<u8>),
    List(Seq<Seq<u8>>),
    Members(Set<Seq<char>>),
    Hash(Map<Seq<char>, Seq<u8>>),
}

/// What a stored record holds.
pub struct EntryModel {
    pub value: ValueModel,
    pub expires_at: Option<u64>,
}

pub open spec fn entry_model(e: Entry) -> EntryModel {
    EntryModel {
        value: match e.value {
            Value::String(b) => ValueModel::Str(b@),
            Value::List(_) => ValueModel::List(list_of(e)),
            Value::Members(_) => ValueModel::Members(set_of(e)),
            Value::Hash(_) => ValueModel::Hash(hash_of(e)),
        },
        expires_at: e.expires_at,
    }
}

/// What the keyspace holds, key by key.
pub open spec fn store_model(m: Map<Seq<char>, Entry>) -> Map<Seq<char>, EntryModel> {
    m.map_values(|e: Entry| entry_model(e))
}

pub open spec fn live_model(e: EntryModel, now: u64) -> bool {
    match e.expires_at {
        Some(t) => now < t,
        None => true,
    }
}

/// The store after a visit of `k` at `now` has dropped an expired record.
pub open spec fn reap_model(s: Map<Seq<char>, EntryModel>, k: Seq<char>, now: u64) -> Map<
    Seq<char>,
    EntryModel,
> {
    if s.contains_key(k) && !live_model(s[k], now) {
        s.remove(k)
    } else {
        s
    }
}

pub proof fn lemma_store_reaped(m: Map<Seq<char>, Entry>, k: Seq<char>, now: u64)
    ensures
        store_model(reaped(m, k, now)) == reap_model(store_model(m), k, now),
{
    assert(store_model(reaped(m, k, now)) =~= reap_model(store_model(m), k, now));
}

pub proof fn lemma_store_remove(m: Map<Seq<char>, Entry>, k: Seq<char>)
    ensures
        store_model(m.remove(k)) == store_model(m).remove(k),
{
    assert(store_model(m.remove(k)) =~= store_model(m).remove(k));
}

/// A store that differs from `m` only at `k`, where it holds `e`.
pub proof fn lemma_store_at(a: Map<Seq<char>, Entry>, m: Map<Seq<char>, Entry>, k: Seq<char>)
    requires
        a.remove(k) == m.remove(k),
        a.contains_key(k),
    ensures
        store_model(a) == store_model(m).insert(k, entry_model(a[k])),
{
    let l = store_model(a);
    let r = store_model(m).insert(k, entry_model(a[k]));
    assert forall|q: Seq<char>| #[trigger] l.contains_key(q) == r.contains_key(q) by {
        if q != k {
            assert(a.remove(k).contains_key(q) == a.contains_key(q));
            assert(m.remove(k).contains_key(q) == m.contains_key(q));
        }
    }
    assert forall|q: Seq<char>| #[trigger] l.contains_key(q) implies l[q] == r[q] by {
        if q != k {
            assert(a.remove(k).contains_key(q) == a.contains_key(q));
            assert(m.remove(k).contains_key(q) == m.contains_key(q));
            assert(a.remove(k)[q] == a[q]);
            assert(m.remove(k)[q] == m[q]);
        }
    }
    assert(l =~= r);
}

/// A list, set or hash with nothing in it.
pub open spec fn empty_container(v: ValueModel) -> bool {
    match v {
        ValueModel::List(l) => l.len() == 0,
        ValueModel::Members(m) => m.len() == 0,
        ValueModel::Hash(h) => h.len() == 0,
        ValueModel::Str(_) => false,
    }
}

/// Once a record's deadline has passed at `t1`, it stays passed at every later
/// time, and a visit then drops the key.
pub proof fn lemma_expiry_is_final(
    s: Map<Seq<char>, EntryModel>,
    k: Seq<char>,
    t1: u64,
    t2: u64,
)
    requires
        s.contains_key(k),
        !live_model(s[k], t1),
        t1 <= t2,
    ensures
        !live_model(s[k], t2),
        !reap_model(s, k, t1).contains_key(k),
        !reap_model(s, k, t2).contains_key(k),
{
}

/// The keyspace.
pub struct Db {
    entries: StrMap<Entry>,
}

impl Default for Db {
    fn default() -> (r: Db)
        ensures
            r.wf(),
            r@ == Map::<Seq<char>, Entry>::empty(),
    {
        Db::new()
    }
}

proof fn lemma_bytes_of_push(v: Seq<Vec<u8>>, b: Vec<u8>)
    ensures
        bytes_of(v.push(b)) == bytes_of(v).push(b@),
{
    assert(bytes_of(v.push(b)) =~= bytes_of(v).push(b@));
}

/// The values of `v` in a deque, in the same order.
fn into_deque(v: Vec<Vec<u8>>) -> (r: VecDeque<Vec<u8>>)
    ensures
        r@ == v@,
{
    let mut v = v;
    let ghost vs = v@;
    let mut out: VecDeque<Vec<u8>> = VecDeque::new();
    while v.len() > 0
        invariant
            v@.len() <= vs.len(),
            v@ == vs.subrange(0, v@.len() as int),
            out@ == vs.subrange(v@.len() as int, vs.len() as int),
        decreases v@.len(),
    {
        let x = v.pop().unwrap();
        out.push_front(x);
        assert(out@ =~= vs.subrange(v@.len() as int, vs.len() as int));
        assert(v@ =~= vs.subrange(0, v@.len() as int));
    }
    assert(out@ =~= vs);
    out
}

/// The values of `v` in a deque, last first.
fn into_reversed_deque(v: Vec<Vec<u8>>) -> (r: VecDeque<Vec<u8>>)
    ensures
        r@ == v@.reverse(),
{
    let mut v = v;
    let ghost vs = v@;
    let mut out: VecDeque<Vec<u8>> = VecDeque::new();
    while v.len() > 0
        invariant
            v@.len() <= vs.len(),
            v@ == vs.subrange(0, v@.len() as int),
            out@ == vs.subrange(v@.len() as int, vs.len() as int).reverse(),
        decreases v@.len(),
    {
        let x = v.pop().unwrap();
        out.push_back(x);
        assert(out@ =~= vs.subrange(v@.len() as int, vs.len() as int).reverse());
        assert(v@ =~= vs.subrange(0, v@.len() as int));
    }
    assert(vs.subrange(0, vs.len() as int) =~= vs);
    out
}

/// The texts of `ms`, as a set.
pub open spec fn text_set(ms: Seq<String>) -> Set<Seq<char>> {
    texts_of(ms).to_set()
}

proof fn lemma_text_set_step(ms: Seq<String>, i: int)
    requires
        0 <= i < ms.len(),
    ensures
        text_set(ms.take(i + 1)) == text_set(ms.take(i)).insert(ms[i]@),
{
    let a = texts_of(ms.take(i + 1));
    let b = texts_of(ms.take(i));
    assert(a =~= b.push(ms[i]@));
    assert forall|k: Seq<char>| a.contains(k) <==> b.contains(k) || k == ms[i]@ by {
        if a.contains(k) {
            let t = choose|t: int| 0 <= t < a.len() && a[t] == k;
            if t < i {
                assert(b[t] == k);
            }
        }
        if b.contains(k) {
            let t = choose|t: int| 0 <= t < b.len() && b[t] == k;
            assert(a[t] == k);
        }
        if k == ms[i]@ {
            assert(a[i] == k);
        }
    }
    assert(text_set(ms.take(i + 1)) =~= text_set(ms.take(i)).insert(ms[i]@));
}

/// Adds each text of `ms` as a key of `s` with `value`, and counts the new keys.
fn add_all(s: &mut StrMap<()>, ms: &Vec<String>) -> (r: usize)
    requires
        old(s).wf(),
    ensures
        final(s).wf(),
        final(s)@.dom() == old(s)@.dom() + text_set(ms@),
        r == final(s)@.len() - old(s)@.len(),
{
    let mut added: usize = 0;
    let mut i: usize = 0;
    proof {
        old(s).lemma_order();
        assert(text_set(ms@.take(0)) =~= Set::<Seq<char>>::empty());
    }
    while i < ms.len()
        invariant
            s.wf(),
            i <= ms@.len(),
            s@.dom() == old(s)@.dom() + text_set(ms@.take(i as int)),
            added == s@.len() - old(s)@.len(),
            old(s)@.dom().finite(),
        decreases ms@.len() - i,
    {
        let m = ms[i].clone();
        let ghost before = s@;
        proof {
            s.lemma_order();
            lemma_text_set_step(ms@, i as int);
        }
        let prev = s.insert(m, ());
        let n = s.len();
        proof {
            s.lemma_order();
        }
        if prev.is_none() {
            assert(s@.dom() == before.dom().insert(ms@[i as int]@));
            added = added + 1;
        } else {
            assert(s@.dom() =~= before.dom());
        }
        assert(s@.dom() =~= old(s)@.dom() + text_set(ms@.take(i + 1)));
        i = i + 1;
    }
    assert(ms@.take(i as int) =~= ms@);
    added
}

/// Removes each text of `ms` from the keys of `s`, and counts the removed keys.
fn remove_all<V>(s: &mut StrMap<V>, ms: &Vec<String>) -> (r: usize)
    requires
        old(s).wf(),
    ensures
        final(s).wf(),
        final(s)@ == old(s)@.remove_keys(text_set(ms@)),
        r == old(s)@.len() - final(s)@.len(),
{
    let total = s.len();
    let mut removed: usize = 0;
    let mut i: usize = 0;
    proof {
        old(s).lemma_order();
        assert(text_set(ms@.take(0)) =~= Set::<Seq<char>>::empty());
        assert(old(s)@ =~= old(s)@.remove_keys(Set::<Seq<char>>::empty()));
    }
    while i < ms.len()
        invariant
            s.wf(),
            i <= ms@.len(),
            s@ == old(s)@.remove_keys(text_set(ms@.take(i as int))),
            removed == old(s)@.len() - s@.len(),
            total == old(s)@.len(),
            old(s)@.dom().finite(),
        decreases ms@.len() - i,
    {
        let ghost before = s@;
        proof {
            s.lemma_order();
            lemma_text_set_step(ms@, i as int);
        }
        let prev = s.remove(ms[i].as_str());
        proof {
            s.lemma_order();
        }
        if prev.is_some() {
            removed = removed + 1;
        } else {
            assert(s@.dom() =~= before.dom());
        }
        assert(s@ =~= old(s)@.remove_keys(text_set(ms@.take(i + 1))));
        i = i + 1;
    }
    assert(ms@.take(i as int) =~= ms@);
    removed
}

impl View for Db {
    type V = Map<Seq<char>, Entry>;

    closed spec fn view(&self) -> Map<Seq<char>, Entry> {
        self.entries@
    }
}

impl Db {
    pub closed spec fn wf(&self) -> bool {
        &&& self.entries.wf()
        &&& forall|k: Seq<char>| #[trigger] self@.contains_key(k) ==> entry_wf(self@[k])
    }

    /// No list, set or hash in a well-formed store is empty.
    pub proof fn lemma_no_empty_containers(&self, k: Seq<char>)
        requires
            self.wf(),
            self@.contains_key(k),
        ensures
            self@[k].value is List ==> list_of(self@[k]).len() > 0,
            self@[k].value is Members ==> set_of(self@[k]).len() > 0,
            self@[k].value is Hash ==> hash_of(self@[k]).len() > 0,
            set_of(self@[k]).finite(),
            hash_of(self@[k]).dom().finite(),
    {
        match self@[k].value {
            Value::Hash(h) => {
                h.lemma_order();
                assert(hash_of(self@[k]).dom() =~= h@.dom());
            },
            Value::Members(m) => {
                m.lemma_order();
            },
            _ => {},
        }
    }

    /// No key of a well-formed store holds an empty list, set or hash.
    pub proof fn lemma_no_empty_in_model(&self)
        requires
            self.wf(),
        ensures
            forall|k: Seq<char>|
                #[trigger] store_model(self@).contains_key(k) ==> !empty_container(
                    store_model(self@)[k].value,
                ),
    {
        assert forall|k: Seq<char>| #[trigger] store_model(self@).contains_key(k) implies !empty_container(
            store_model(self@)[k].value,
        ) by {
            self.lemma_no_empty_containers(k);
        }
    }

    pub fn new() -> (db: Db)
        ensures
            db.wf(),
            db@ == Map::<Seq<char>, Entry>::empty(),
    {
        Db { entries: StrMap::new() }
    }

    /// Drops `key` when its deadline has passed.
    fn reap(&mut self, key: &str, now: u64)
        requires
            old(self).wf(),
        ensures
            final(self).wf(),
            final(self)@ == reaped(old(self)@, key@, now),
    {
        let expired = match self.entries.get(key) {
            Some(e) => match e.expires_at {
                Some(t) => t <= now,
                None => false,
            },
            None => false,
        };
        if expired {
            self.entries.remove(key);
        }
        assert forall|k: Seq<char>| #[trigger] self@.contains_key(k) implies entry_wf(self@[k]) by {
            assert(old(self)@.contains_key(k));
        }
    }

    /// Takes the live entry of `key` out of the store.
    fn take(&mut self, key: &str, now: u64) -> (r: Option<Entry>)
        requires
            old(self).wf(),
        ensures
            final(self).wf(),
            final(self)@ == reaped(old(self)@, key@, now).remove(key@),
            r is Some <==> reaped(old(self)@, key@, now).contains_key(key@),
            r matches Some(e) ==> e == reaped(old(self)@, key@, now)[key@] && entry_wf(e),
    {
        self.reap(key, now);
        self.entries.remove(key)
    }

    /// Stores `e` under `key`.
    fn put(&mut self, key: String, e: Entry)
        requires
            old(self).wf(),
            entry_wf(e),
        ensures
            final(self).wf(),
            final(self)@ == old(self)@.insert(key@, e),
    {
        let ghost kv = key@;
        self.entries.insert(key, e);
        assert forall|k: Seq<char>| #[trigger] self@.contains_key(k) implies entry_wf(self@[k]) by {
            if k != kv {
                assert(old(self)@.contains_key(k));
            }
        }
    }

    /// The string value of `key`; absent for a missing, expired or non-string key.
    pub fn read_string(&mut self, key: &str, now: u64) -> (r: Option<Vec<u8>>)
        requires
            old(self).wf(),
        ensures
            final(self).wf(),
            final(self)@ == reaped(old(self)@, key@, now),
            ({
                let m = reaped(old(self)@, key@, now);
                match r {
                    Some(b) => m.contains_key(key@) && (m[key@].value matches Value::String(s)
                        && b@ == s@),
                    None => !(m.contains_key(key@) && m[key@].value is String),
                }
            }),
    {
        self.reap(key, now);
        match self.entries.get(key) {
            Some(e) => match &e.value {
                Value::String(b) => Some(copy_bytes(b.as_slice())),
                _ => None,
            },
            None => None,
        }
    }

    /// Stores a string under `key`, replacing whatever was there.
    pub fn write_string(&mut self, key: String, value: Vec<u8>, expires_at: Option<u64>)
        requires
            old(self).wf(),
        ensures
            final(self).wf(),
            final(self)@.remove(key@) == old(self)@.remove(key@),
            final(self)@.contains_key(key@),
            final(self)@[key@].value matches Value::String(s) && s@ == value@,
            final(self)@[key@].expires_at == expires_at,
    {
        let ghost v = value@;
        self.put(key, Entry { value: Value::String(value), expires_at });
        assert(self@.remove(key@) =~= old(self)@.remove(key@));
    }

    /// The type name of the value under `key`; absent for a missing or expired key.
    pub fn get_type(&mut self, key: &str, now: u64) -> (r: Option<&'static str>)
        requires
            old(self).wf(),
        ensures
            final(self).wf(),
            final(self)@ == reaped(old(self)@, key@, now),
            ({
                let m = reaped(old(self)@, key@, now);
                match r {
                    Some(t) => m.contains_key(key@) && t@ == value_type(m[key@].value),
                    None => !m.contains_key(key@),
                }
            }),
    {
        self.reap(key, now);
        match self.entries.get(key) {
            Some(e) => Some(e.value.kind_name()),
            None => None,
        }
    }

    /// Whether a live entry is stored under `key`.
    pub fn key_exists(&mut self, key: &str, now: u64) -> (r: bool)
        requires
            old(self).wf(),
        ensures
            final(self).wf(),
            final(self)@ == reaped(old(self)@, key@, now),
            r == (old(self)@.contains_key(key@) && live(old(self)@[key@], now)),
    {
        self.reap(key, now);
        self.entries.contains_key(key)
    }

    /// Removes `key`; true when a live entry was there.
    pub fn delete(&mut self, key: &str, now: u64) -> (r: bool)
        requires
            old(self).wf(),
        ensures
            final(self).wf(),
            final(self)@ == old(self)@.remove(key@),
            r == (old(self)@.contains_key(key@) && live(old(self)@[key@], now)),
    {
        let r = self.take(key, now).is_some();
        assert(self@ =~= old(self)@.remove(key@));
        r
    }

    /// The number of stored keys, expired ones not yet dropped included.
    pub fn dbsize(&self) -> (r: usize)
        requires
            self.wf(),
        ensures
            r == self@.len(),
    {
        self.entries.len()
    }

    /// Removes every key.
    pub fn flushdb(&mut self)
        requires
            old(self).wf(),
        ensures
            final(self).wf(),
            final(self)@ == Map::<Seq<char>, Entry>::empty(),
    {
        self.entries = StrMap::new();
    }

    /// The stored keys that `pattern` matches, each once, expired ones not yet
    /// dropped included.
    pub fn keys(&self, pattern: &str) -> (r: Vec<String>)
        requires
            self.wf(),
        ensures
            texts_of(r@).no_duplicates(),
            forall|k: Seq<char>|
                #[trigger] texts_of(r@).contains(k) <==> (self@.contains_key(k) && glob_matches(
                    encode_utf8(pattern@),
                    encode_utf8(k),
                )),
    {
        let mut out: Vec<String> = Vec::new();
        let n = self.entries.len();
        proof {
            self.entries.lemma_order();
        }
        let ghost order = self.entries.order();
        let ghost p = pattern@;
        let mut i: usize = 0;
        while i < n
            invariant
                self.wf(),
                order == self.entries.order(),
                n == order.len(),
                n == self@.len(),
                p == pattern@,
                order.no_duplicates(),
                forall|k: Seq<char>| self@.contains_key(k) <==> order.contains(k),
                i <= n,
                texts_of(out@).no_duplicates(),
                forall|k: Seq<char>|
                    texts_of(out@).contains(k) <==> (exists|j: int|
                        0 <= j < i && order[j] == k && glob_matches(encode_utf8(p), encode_utf8(k))),
            decreases n - i,
        {
            let k = self.entries.key_at(i);
            let ghost kv = k@;
            if glob_match(pattern, k.as_str()) {
                let ghost before = texts_of(out@);
                out.push(k.clone());
                let ghost after = texts_of(out@);
                assert(after =~= before.push(kv));
                assert forall|q: Seq<char>|
                    after.contains(q) <==> (exists|j: int|
                        0 <= j < i + 1 && order[j] == q && glob_matches(encode_utf8(p), encode_utf8(q))) by {
                    if after.contains(q) {
                        let t = choose|t: int| 0 <= t < after.len() && after[t] == q;
                        if t == before.len() {
                            assert(order[i as int] == q);
                        } else {
                            assert(before[t] == q);
                            assert(before.contains(q));
                        }
                    }
                    if exists|j: int| 0 <= j < i + 1 && order[j] == q && glob_matches(encode_utf8(p), encode_utf8(q)) {
                        let j = choose|j: int| 0 <= j < i + 1 && order[j] == q && glob_matches(encode_utf8(p), encode_utf8(q));
                        if j == i {
                            assert(after[before.len() as int] == q);
                        } else {
                            assert(before.contains(q));
                            let t = choose|t: int| 0 <= t < before.len() && before[t] == q;
                            assert(after[t] == q);
                        }
                    }
                }
                assert(!before.contains(kv)) by {
                    if before.contains(kv) {
                        let j = choose|j: int| 0 <= j < i && order[j] == kv && glob_matches(encode_utf8(p), encode_utf8(kv));
                        assert(order[i as int] == kv);
                    }
                }
            } else {
                assert forall|q: Seq<char>|
                    texts_of(out@).contains(q) <==> (exists|j: int|
                        0 <= j < i + 1 && order[j] == q && glob_matches(encode_utf8(p), encode_utf8(q))) by {
                    if exists|j: int| 0 <= j < i + 1 && order[j] == q && glob_matches(encode_utf8(p), encode_utf8(q)) {
                        let j = choose|j: int| 0 <= j < i + 1 && order[j] == q && glob_matches(encode_utf8(p), encode_utf8(q));
                        assert(j != i);
                    }
                }
            }
            i = i + 1;
        }
        assert forall|k: Seq<char>|
            texts_of(out@).contains(k) <==> (self@.contains_key(k) && glob_matches(encode_utf8(p), encode_utf8(k))) by {
            if texts_of(out@).contains(k) {
                let j = choose|j: int| 0 <= j < i && order[j] == k && glob_matches(encode_utf8(p), encode_utf8(k));
                assert(order.contains(k));
            }
            if self@.contains_key(k) && glob_matches(encode_utf8(p), encode_utf8(k)) {
                assert(order.contains(k));
                let j = choose|j: int| 0 <= j < order.len() && order[j] == k;
                assert(0 <= j < i && order[j] == k && glob_matches(encode_utf8(p), encode_utf8(k)));
            }
        }
        out
    }

    /// Pushes `values` onto the head of the list under `key`, one after another,
    /// and hands back the new length. A missing key gets a new list (none when
    /// `values` is empty); a key of another type is left alone and gives 0.
    pub fn lpush(&mut self, key: String, values: Vec<Vec<u8>>, now: u64) -> (r: usize)
        requires
            old(self).wf(),
        ensures
            final(self).wf(),
            ({
                let m = reaped(old(self)@, key@, now);
                if m.contains_key(key@) && !(m[key@].value is List) {
                    final(self)@ == m && r == 0
                } else if !m.contains_key(key@) && values@.len() == 0 {
                    final(self)@ == m && r == 0
                } else {
                    &&& final(self)@.remove(key@) == m.remove(key@)
                    &&& final(self)@.contains_key(key@)
                    &&& final(self)@[key@].value is List
                    &&& final(self)@[key@].expires_at == (if m.contains_key(key@) {
                        m[key@].expires_at
                    } else {
                        None
                    })
                    &&& list_of(final(self)@[key@]) == bytes_of(values@).reverse() + (
                    if m.contains_key(key@) {
                        list_of(m[key@])
                    } else {
                        seq![]
                    })
                    &&& r == list_of(final(self)@[key@]).len()
                }
            }),
    {
        let ghost m = reaped(old(self)@, key@, now);
        let ghost vs = values@;
        let taken = self.take(key.as_str(), now);
        let (mut list, expires_at) = match taken {
            None => {
                if values.len() == 0 {
                    assert(self@ =~= m);
                    return 0;
                }
                (VecDeque::new(), None)
            },
            Some(Entry { value: Value::List(l), expires_at }) => (l, expires_at),
            Some(e) => {
                self.put(key, e);
                assert(self@ =~= m);
                return 0;
            },
        };
        let ghost old_list = list@;
        let mut front = into_reversed_deque(values);
        front.append(&mut list);
        let n = front.len();
        assert(bytes_of(front@) =~= bytes_of(vs).reverse() + bytes_of(old_list));
        let ghost kv = key@;
        self.put(key, Entry { value: Value::List(front), expires_at });
        assert(self@.remove(kv) =~= m.remove(kv));
        n
    }

    /// Appends `values` to the tail of the list under `key` and hands back the
    /// new length, with the same rules as `lpush` for missing and other keys.
    pub fn rpush(&mut self, key: String, values: Vec<Vec<u8>>, now: u64) -> (r: usize)
        requires
            old(self).wf(),
        ensures
            final(self).wf(),
            ({
                let m = reaped(old(self)@, key@, now);
                if m.contains_key(key@) && !(m[key@].value is List) {
                    final(self)@ == m && r == 0
                } else if !m.contains_key(key@) && values@.len() == 0 {
                    final(self)@ == m && r == 0
                } else {
                    &&& final(self)@.remove(key@) == m.remove(key@)
                    &&& final(self)@.contains_key(key@)
                    &&& final(self)@[key@].value is List
                    &&& final(self)@[key@].expires_at == (if m.contains_key(key@) {
                        m[key@].expires_at
                    } else {
                        None
                    })
                    &&& list_of(final(self)@[key@]) == (if m.contains_key(key@) {
                        list_of(m[key@])
                    } else {
                        seq![]
                    }) + bytes_of(values@)
                    &&& r == list_of(final(self)@[key@]).len()
                }
            }),
    {
        let ghost m = reaped(old(self)@, key@, now);
        let ghost vs = values@;
        let taken = self.take(key.as_str(), now);
        let (mut list, expires_at) = match taken {
            None => {
                if values.len() == 0 {
                    assert(self@ =~= m);
                    return 0;
                }
                (VecDeque::new(), None)
            },
            Some(Entry { value: Value::List(l), expires_at }) => (l, expires_at),
            Some(e) => {
                self.put(key, e);
                assert(self@ =~= m);
                return 0;
            },
        };
        let ghost old_list = list@;
        let mut tail = into_deque(values);
        list.append(&mut tail);
        let n = list.len();
        assert(bytes_of(list@) =~= bytes_of(old_list) + bytes_of(vs));
        let ghost kv = key@;
        self.put(key, Entry { value: Value::List(list), expires_at });
        assert(self@.remove(kv) =~= m.remove(kv));
        n
    }

    /// Takes the first (`from_head`) or last element of the list under `key`;
    /// the key goes when the list is left empty.
    fn pop_end(&mut self, key: &str, now: u64, from_head: bool) -> (r: Option<Vec<u8>>)
        requires
            old(self).wf(),
        ensures
            final(self).wf(),
            ({
                let m = reaped(old(self)@, key@, now);
                if m.contains_key(key@) && m[key@].value is List {
                    let l = list_of(m[key@]);
                    &&& r matches Some(b) && b@ == (if from_head { l[0] } else { l.last() })
                    &&& if l.len() == 1 {
                        final(self)@ == m.remove(key@)
                    } else {
                        &&& final(self)@.remove(key@) == m.remove(key@)
                        &&& final(self)@.contains_key(key@)
                        &&& final(self)@[key@].value is List
                        &&& final(self)@[key@].expires_at == m[key@].expires_at
                        &&& list_of(final(self)@[key@]) == (if from_head {
                            l.subrange(1, l.len() as int)
                        } else {
                            l.drop_last()
                        })
                    }
                } else {
                    final(self)@ == m && r is None
                }
            }),
    {
        let ghost m = reaped(old(self)@, key@, now);
        let (mut list, expires_at) = match self.take(key, now) {
            None => {
                assert(self@ =~= m);
                return None;
            },
            Some(Entry { value: Value::List(l), expires_at }) => (l, expires_at),
            Some(e) => {
                self.put(key.to_string(), e);
                assert(self@ =~= m);
                return None;
            },
        };
        let ghost old_list = list@;
        let popped = if from_head {
            list.pop_front()
        } else {
            list.pop_back()
        };
        let b = popped.unwrap();
        if from_head {
            assert(bytes_of(list@) =~= bytes_of(old_list).subrange(1, old_list.len() as int));
        } else {
            assert(bytes_of(list@) =~= bytes_of(old_list).drop_last());
        }
        if list.len() > 0 {
            self.put(key.to_string(), Entry { value: Value::List(list), expires_at });
            assert(self@.remove(key@) =~= m.remove(key@));
        }
        Some(b)
    }

    /// Takes the head of the list under `key`.
    pub fn lpop(&mut self, key: &str, now: u64) -> (r: Option<Vec<u8>>)
        requires
            old(self).wf(),
        ensures
            final(self).wf(),
            ({
                let m = reaped(old(self)@, key@, now);
                if m.contains_key(key@) && m[key@].value is List {
                    let l = list_of(m[key@]);
                    &&& r matches Some(b) && b@ == l[0]
                    &&& if l.len() == 1 {
                        final(self)@ == m.remove(key@)
                    } else {
                        &&& final(self)@.remove(key@) == m.remove(key@)
                        &&& final(self)@.contains_key(key@)
                        &&& final(self)@[key@].value is List
                        &&& final(self)@[key@].expires_at == m[key@].expires_at
                        &&& list_of(final(self)@[key@]) == l.subrange(1, l.len() as int)
                    }
                } else {
                    final(self)@ == m && r is None
                }
            }),
    {
        self.pop_end(key, now, true)
    }

    /// Takes the tail of the list under `key`.
    pub fn rpop(&mut self, key: &str, now: u64) -> (r: Option<Vec<u8>>)
        requires
            old(self).wf(),
        ensures
            final(self).wf(),
            ({
                let m = reaped(old(self)@, key@, now);
                if m.contains_key(key@) && m[key@].value is List {
                    let l = list_of(m[key@]);
                    &&& r matches Some(b) && b@ == l.last()
                    &&& if l.len() == 1 {
                        final(self)@ == m.remove(key@)
                    } else {
                        &&& final(self)@.remove(key@) == m.remove(key@)
                        &&& final(self)@.contains_key(key@)
                        &&& final(self)@[key@].value is List
                        &&& final(self)@[key@].expires_at == m[key@].expires_at
                        &&& list_of(final(self)@[key@]) == l.drop_last()
                    }
                } else {
                    final(self)@ == m && r is None
                }
            }),
    {
        self.pop_end(key, now, false)
    }

    /// The elements from `start` to `stop` (both included) of the list under
    /// `key`; negative places count from the tail and places out of range are
    /// clamped to its ends. Absent for a missing key or one of another type.
    pub fn lrange(&mut self, key: &str, start: i64, stop: i64, now: u64) -> (r: Option<
        Vec<Vec<u8>>,
    >)
        requires
            old(self).wf(),
        ensures
            final(self).wf(),
            final(self)@ == reaped(old(self)@, key@, now),
            ({
                let m = reaped(old(self)@, key@, now);
                if m.contains_key(key@) && m[key@].value is List {
                    r matches Some(v) && bytes_of(v@) == range_of(
                        list_of(m[key@]),
                        start as int,
                        stop as int,
                    )
                } else {
                    r is None
                }
            }),
    {
        self.reap(key, now);
        let list = match self.entries.get(key) {
            Some(Entry { value: Value::List(l), .. }) => l,
            _ => return None,
        };
        let len = list.len() as i128;
        let s = start as i128;
        let t = stop as i128;
        let a: i128 = if s < 0 {
            if len + s < 0 {
                0
            } else {
                len + s
            }
        } else if s < len {
            s
        } else {
            len
        };
        let b: i128 = if t < 0 {
            if len + t < -1 {
                0
            } else {
                len + t + 1
            }
        } else if t + 1 < len {
            t + 1
        } else {
            len
        };
        let mut out: Vec<Vec<u8>> = Vec::new();
        if a >= b {
            assert(bytes_of(out@) =~= seq![]);
            return Some(out);
        }
        let a = a as usize;
        let b = b as usize;
        let ghost l = bytes_of(list@);
        let mut i: usize = a;
        while i < b
            invariant
                a <= i <= b,
                b <= list@.len(),
                l == bytes_of(list@),
                bytes_of(out@) == l.subrange(a as int, i as int),
            decreases b - i,
        {
            let x = copy_bytes(list[i].as_slice());
            let ghost before = out@;
            out.push(x);
            proof {
                lemma_bytes_of_push(before, x);
            }
            assert(l[i as int] == x@);
            assert(bytes_of(out@) =~= l.subrange(a as int, i + 1));
            i = i + 1;
        }
        Some(out)
    }

    /// The length of the list under `key`; absent for a missing key or one of
    /// another type.
    pub fn llen(&mut self, key: &str, now: u64) -> (r: Option<usize>)
        requires
            old(self).wf(),
        ensures
            final(self).wf(),
            final(self)@ == reaped(old(self)@, key@, now),
            ({
                let m = reaped(old(self)@, key@, now);
                if m.contains_key(key@) && m[key@].value is List {
                    r matches Some(n) && n == list_of(m[key@]).len()
                } else {
                    r is None
                }
            }),
    {
        self.reap(key, now);
        match self.entries.get(key) {
            Some(Entry { value: Value::List(l), .. }) => Some(l.len()),
            _ => None,
        }
    }

    /// Adds `members` to the set under `key` and counts those that were new.
    /// A missing key gets a new set (none when `members` is empty); a key of
    /// another type is left alone and gives 0.
    pub fn sadd(&mut self, key: String, members: Vec<String>, now: u64) -> (r: usize)
        requires
            old(self).wf(),
        ensures
            final(self).wf(),
            ({
                let m = reaped(old(self)@, key@, now);
                if m.contains_key(key@) && !(m[key@].value is Members) {
                    final(self)@ == m && r == 0
                } else if !m.contains_key(key@) && members@.len() == 0 {
                    final(self)@ == m && r == 0
                } else {
                    let before = if m.contains_key(key@) {
                        set_of(m[key@])
                    } else {
                        Set::empty()
                    };
                    &&& final(self)@.remove(key@) == m.remove(key@)
                    &&& final(self)@.contains_key(key@)
                    &&& final(self)@[key@].value is Members
                    &&& final(self)@[key@].expires_at == (if m.contains_key(key@) {
                        m[key@].expires_at
                    } else {
                        None
                    })
                    &&& set_of(final(self)@[key@]) == before + text_set(members@)
                    &&& r == set_of(final(self)@[key@]).len() - before.len()
                }
            }),
    {
        let ghost m = reaped(old(self)@, key@, now);
        let (mut set, expires_at) = match self.take(key.as_str(), now) {
            None => {
                if members.len() == 0 {
                    assert(self@ =~= m);
                    return 0;
                }
                (StrMap::new(), None)
            },
            Some(Entry { value: Value::Members(s), expires_at }) => (s, expires_at),
            Some(e) => {
                self.put(key, e);
                assert(self@ =~= m);
                return 0;
            },
        };
        let ghost before = set@.dom();
        let added = add_all(&mut set, &members);
        proof {
            set.lemma_order();
            if members@.len() > 0 {
                assert(text_set(members@).contains(members@[0]@)) by {
                    assert(texts_of(members@)[0] == members@[0]@);
                }
                assert(set@.dom().contains(members@[0]@));
            }
        }
        let ghost kv = key@;
        self.put(key, Entry { value: Value::Members(set), expires_at });
        assert(self@.remove(kv) =~= m.remove(kv));
        added
    }

    /// Removes `members` from the set under `key` and counts those that were
    /// there; the key goes when the set is left empty.
    pub fn srem(&mut self, key: &str, members: Vec<String>, now: u64) -> (r: usize)
        requires
            old(self).wf(),
        ensures
            final(self).wf(),
            ({
                let m = reaped(old(self)@, key@, now);
                if m.contains_key(key@) && m[key@].value is Members {
                    let after = set_of(m[key@]) - text_set(members@);
                    &&& set_of(m[key@]).finite()
                    &&& r == set_of(m[key@]).len() - after.len()
                    &&& r == set_of(m[key@]).intersect(text_set(members@)).len()
                    &&& if after.len() == 0 {
                        final(self)@ == m.remove(key@)
                    } else {
                        &&& final(self)@.remove(key@) == m.remove(key@)
                        &&& final(self)@.contains_key(key@)
                        &&& final(self)@[key@].value is Members
                        &&& final(self)@[key@].expires_at == m[key@].expires_at
                        &&& set_of(final(self)@[key@]) == after
                    }
                } else {
                    final(self)@ == m && r == 0
                }
            }),
    {
        let ghost m = reaped(old(self)@, key@, now);
        let (mut set, expires_at) = match self.take(key, now) {
            None => {
                assert(self@ =~= m);
                return 0;
            },
            Some(Entry { value: Value::Members(s), expires_at }) => (s, expires_at),
            Some(e) => {
                self.put(key.to_string(), e);
                assert(self@ =~= m);
                return 0;
            },
        };
        let ghost before = set@;
        proof {
            set.lemma_order();
            vstd::seq_lib::seq_to_set_is_finite(texts_of(members@));
            vstd::set_lib::lemma_set_difference_len(before.dom(), text_set(members@));
        }
        let removed = remove_all(&mut set, &members);
        proof {
            set.lemma_order();
            assert(set@.dom() =~= before.dom() - text_set(members@));
        }
        if set.len() > 0 {
            self.put(key.to_string(), Entry { value: Value::Members(set), expires_at });
            assert(self@.remove(key@) =~= m.remove(key@));
        }
        removed
    }

    /// The members of the set under `key`, each once; absent for a missing key
    /// or one of another type.
    pub fn smembers(&mut self, key: &str, now: u64) -> (r: Option<Vec<String>>)
        requires
            old(self).wf(),
        ensures
            final(self).wf(),
            final(self)@ == reaped(old(self)@, key@, now),
            ({
                let m = reaped(old(self)@, key@, now);
                if m.contains_key(key@) && m[key@].value is Members {
                    r matches Some(v) && texts_of(v@).no_duplicates() && text_set(v@) == set_of(
                        m[key@],
                    )
                } else {
                    r is None
                }
            }),
    {
        self.reap(key, now);
        let set = match self.entries.get(key) {
            Some(Entry { value: Value::Members(s), .. }) => s,
            _ => return None,
        };
        let n = set.len();
        proof {
            set.lemma_order();
        }
        let mut out: Vec<String> = Vec::new();
        let mut i: usize = 0;
        while i < n
            invariant
                set.wf(),
                n == set@.len(),
                n == set.order().len(),
                set.order().no_duplicates(),
                forall|k: Seq<char>| set@.contains_key(k) <==> set.order().contains(k),
                i <= n,
                texts_of(out@) == set.order().take(i as int),
            decreases n - i,
        {
            let k = set.key_at(i).clone();
            let ghost before = out@;
            let ghost kv = k@;
            out.push(k);
            assert(texts_of(out@) =~= texts_of(before).push(kv));
            assert(texts_of(out@) =~= set.order().take(i + 1));
            i = i + 1;
        }
        assert(set.order().take(n as int) =~= set.order());
        assert(text_set(out@) =~= set@.dom());
        Some(out)
    }

    /// Whether `member` is in the set under `key`.
    pub fn sismember(&mut self, key: &str, member: &str, now: u64) -> (r: bool)
        requires
            old(self).wf(),
        ensures
            final(self).wf(),
            final(self)@ == reaped(old(self)@, key@, now),
            ({
                let m = reaped(old(self)@, key@, now);
                r == (m.contains_key(key@) && m[key@].value is Members && set_of(
                    m[key@],
                ).contains(member@))
            }),
    {
        self.reap(key, now);
        match self.entries.get(key) {
            Some(Entry { value: Value::Members(s), .. }) => s.contains_key(member),
            _ => false,
        }
    }

    /// The size of the set under `key`; 0 for a missing key or one of another type.
    pub fn scard(&mut self, key: &str, now: u64) -> (r: usize)
        requires
            old(self).wf(),
        ensures
            final(self).wf(),
            final(self)@ == reaped(old(self)@, key@, now),
            ({
                let m = reaped(old(self)@, key@, now);
                r == (if m.contains_key(key@) && m[key@].value is Members {
                    set_of(m[key@]).len()
                } else {
                    0
                })
            }),
    {
        self.reap(key, now);
        match self.entries.get(key) {
            Some(Entry { value: Value::Members(s), .. }) => s.len(),
            _ => 0,
        }
    }

    /// Sets `field` of the hash under `key` to `value`; true when the field is
    /// new. A missing key gets a new hash; a key of another type is left alone
    /// and gives false.
    pub fn hset(&mut self, key: String, field: String, value: Vec<u8>, now: u64) -> (r: bool)
        requires
            old(self).wf(),
        ensures
            final(self).wf(),
            ({
                let m = reaped(old(self)@, key@, now);
                if m.contains_key(key@) && !(m[key@].value is Hash) {
                    final(self)@ == m && !r
                } else {
                    let before = if m.contains_key(key@) {
                        hash_of(m[key@])
                    } else {
                        Map::empty()
                    };
                    &&& final(self)@.remove(key@) == m.remove(key@)
                    &&& final(self)@.contains_key(key@)
                    &&& final(self)@[key@].value is Hash
                    &&& final(self)@[key@].expires_at == (if m.contains_key(key@) {
                        m[key@].expires_at
                    } else {
                        None
                    })
                    &&& hash_of(final(self)@[key@]) == before.insert(field@, value@)
                    &&& r == !before.contains_key(field@)
                }
            }),
    {
        let ghost m = reaped(old(self)@, key@, now);
        let (mut hash, expires_at) = match self.take(key.as_str(), now) {
            None => (StrMap::new(), None),
            Some(Entry { value: Value::Hash(h), expires_at }) => (h, expires_at),
            Some(e) => {
                self.put(key, e);
                assert(self@ =~= m);
                return false;
            },
        };
        let ghost before = hash@;
        let ghost fv = field@;
        let ghost vv = value@;
        let prev = hash.insert(field, value);
        proof {
            hash.lemma_order();
            assert(hash@.contains_key(fv));
        }
        assert(hash@.map_values(|v: Vec<u8>| v@) =~= before.map_values(|v: Vec<u8>| v@).insert(fv, vv));
        let ghost kv = key@;
        self.put(key, Entry { value: Value::Hash(hash), expires_at });
        assert(self@.remove(kv) =~= m.remove(kv));
        prev.is_none()
    }

    /// The value of `field` in the hash under `key`.
    pub fn hget(&mut self, key: &str, field: &str, now: u64) -> (r: Option<Vec<u8>>)
        requires
            old(self).wf(),
        ensures
            final(self).wf(),
            final(self)@ == reaped(old(self)@, key@, now),
            ({
                let m = reaped(old(self)@, key@, now);
                if m.contains_key(key@) && m[key@].value is Hash && hash_of(m[key@]).contains_key(
                    field@,
                ) {
                    r matches Some(b) && b@ == hash_of(m[key@])[field@]
                } else {
                    r is None
                }
            }),
    {
        self.reap(key, now);
        match self.entries.get(key) {
            Some(Entry { value: Value::Hash(h), .. }) => match h.get(field) {
                Some(v) => Some(copy_bytes(v.as_slice())),
                None => None,
            },
            _ => None,
        }
    }

    /// Every field of the hash under `key` with its value, each field once;
    /// absent for a missing key or one of another type.
    pub fn hgetall(&mut self, key: &str, now: u64) -> (r: Option<Vec<(String, Vec<u8>)>>)
        requires
            old(self).wf(),
        ensures
            final(self).wf(),
            final(self)@ == reaped(old(self)@, key@, now),
            ({
                let m = reaped(old(self)@, key@, now);
                if m.contains_key(key@) && m[key@].value is Hash {
                    let h = hash_of(m[key@]);
                    r matches Some(v) && v@.len() == h.len() && (forall|i: int|
                        0 <= i < v@.len() ==> h.contains_key(#[trigger] v@[i].0@) && v@[i].1@
                            == h[v@[i].0@]) && (forall|i: int, j: int|
                        0 <= i < j < v@.len() ==> v@[i].0@ != v@[j].0@) && (forall|f: Seq<char>|
                        h.contains_key(f) ==> exists|i: int| 0 <= i < v@.len() && #[trigger] v@[i].0@ == f)
                } else {
                    r is None
                }
            }),
    {
        self.reap(key, now);
        let hash = match self.entries.get(key) {
            Some(Entry { value: Value::Hash(h), .. }) => h,
            _ => return None,
        };
        let n = hash.len();
        proof {
            hash.lemma_order();
        }
        let mut out: Vec<(String, Vec<u8>)> = Vec::new();
        let mut i: usize = 0;
        while i < n
            invariant
                hash.wf(),
                n == hash@.len(),
                n == hash.order().len(),
                hash.order().no_duplicates(),
                forall|k: Seq<char>| hash@.contains_key(k) <==> hash.order().contains(k),
                i <= n,
                out@.len() == i,
                forall|t: int| 0 <= t < i ==> (#[trigger] out@[t]).0@ == hash.order()[t] && out@[t].1@ == hash@[hash.order()[t]]@,
            decreases n - i,
        {
            let k = hash.key_at(i).clone();
            let v = copy_bytes(hash.value_at(i).as_slice());
            out.push((k, v));
            i = i + 1;
        }
        proof {
            let hv = hash@.map_values(|v: Vec<u8>| v@);
            assert(hv.dom() =~= hash@.dom());
            assert forall|a: int, b: int| 0 <= a < b < out@.len() implies out@[a].0@ != out@[b].0@ by {
                assert(out@[a].0@ == hash.order()[a]);
                assert(out@[b].0@ == hash.order()[b]);
            }
            assert forall|t: int| 0 <= t < out@.len() implies hv.contains_key(#[trigger] out@[t].0@) && out@[t].1@ == hv[out@[t].0@] by {
                assert(hash.order().contains(hash.order()[t]));
            }
            assert forall|f: Seq<char>| hv.contains_key(f) implies exists|t: int| 0 <= t < out@.len() && #[trigger] out@[t].0@ == f by {
                assert(hash.order().contains(f));
                let t = choose|t: int| 0 <= t < hash.order().len() && hash.order()[t] == f;
                assert(out@[t].0@ == f);
            }
        }
        Some(out)
    }

    /// Removes `fields` from the hash under `key` and counts those that were
    /// there; the key goes when the hash is left empty.
    pub fn hdel(&mut self, key: &str, fields: Vec<String>, now: u64) -> (r: usize)
        requires
            old(self).wf(),
        ensures
            final(self).wf(),
            ({
                let m = reaped(old(self)@, key@, now);
                if m.contains_key(key@) && m[key@].value is Hash {
                    let after = hash_of(m[key@]).remove_keys(text_set(fields@));
                    &&& hash_of(m[key@]).dom().finite()
                    &&& r == hash_of(m[key@]).len() - after.len()
                    &&& r == hash_of(m[key@]).dom().intersect(text_set(fields@)).len()
                    &&& if after.len() == 0 {
                        final(self)@ == m.remove(key@)
                    } else {
                        &&& final(self)@.remove(key@) == m.remove(key@)
                        &&& final(self)@.contains_key(key@)
                        &&& final(self)@[key@].value is Hash
                        &&& final(self)@[key@].expires_at == m[key@].expires_at
                        &&& hash_of(final(self)@[key@]) == after
                    }
                } else {
                    final(self)@ == m && r == 0
                }
            }),
    {
        let ghost m = reaped(old(self)@, key@, now);
        let (mut hash, expires_at) = match self.take(key, now) {
            None => {
                assert(self@ =~= m);
                return 0;
            },
            Some(Entry { value: Value::Hash(h), expires_at }) => (h, expires_at),
            Some(e) => {
                self.put(key.to_string(), e);
                assert(self@ =~= m);
                return 0;
            },
        };
        let ghost before = hash@;
        proof {
            hash.lemma_order();
            vstd::seq_lib::seq_to_set_is_finite(texts_of(fields@));
            vstd::set_lib::lemma_set_difference_len(before.dom(), text_set(fields@));
            assert(before.map_values(|v: Vec<u8>| v@).dom() =~= before.dom());
            assert(before.remove_keys(text_set(fields@)).dom() =~= before.dom().difference(text_set(fields@)));
        }
        let removed = remove_all(&mut hash, &fields);
        proof {
            hash.lemma_order();
            assert(hash@.map_values(|v: Vec<u8>| v@) =~= before.map_values(|v: Vec<u8>| v@).remove_keys(text_set(fields@)));
            assert(hash@.map_values(|v: Vec<u8>| v@).dom() =~= hash@.dom());
            assert(before.map_values(|v: Vec<u8>| v@).dom() =~= before.dom());
        }
        if hash.len() > 0 {
            self.put(key.to_string(), Entry { value: Value::Hash(hash), expires_at });
            assert(self@.remove(key@) =~= m.remove(key@));
        }
        removed
    }

    /// Whether `field` is in the hash under `key`.
    pub fn hexists(&mut self, key: &str, field: &str, now: u64) -> (r: bool)
        requires
            old(self).wf(),
        ensures
            final(self).wf(),
            final(self)@ == reaped(old(self)@, key@, now),
            ({
                let m = reaped(old(self)@, key@, now);
                r == (m.contains_key(key@) && m[key@].value is Hash && hash_of(
                    m[key@],
                ).contains_key(field@))
            }),
    {
        self.reap(key, now);
        match self.entries.get(key) {
            Some(Entry { value: Value::Hash(h), .. }) => h.contains_key(field),
            _ => false,
        }
    }

    /// The number of fields of the hash under `key`; 0 for a missing key or one
    /// of another type.
    pub fn hlen(&mut self, key: &str, now: u64) -> (r: usize)
        requires
            old(self).wf(),
        ensures
            final(self).wf(),
            final(self)@ == reaped(old(self)@, key@, now),
            ({
                let m = reaped(old(self)@, key@, now);
                r == (if m.contains_key(key@) && m[key@].value is Hash {
                    hash_of(m[key@]).len()
                } else {
                    0
                })
            }),
    {
        self.reap(key, now);
        match self.entries.get(key) {
            Some(Entry { value: Value::Hash(h), .. }) => {
                proof {
                    assert(hash_of(Entry { value: Value::Hash(*h), expires_at: None }).dom() =~= h@.dom());
                }
                h.len()
            },
            _ => 0,
        }
    }
}

} // verus!
