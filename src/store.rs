use vstd::prelude::*;
use vstd::slice::slice_to_vec;

use crate::cas::entry_at;
use crate::cas::entry_opt;
use crate::cas::upsert_step;
use crate::cas::EntryView;
use crate::cas::KvEntry;
use crate::cas::MatchSeq;
use crate::cas::UpsertOutcome;
use crate::error::RegistryError;

verus! {

/// The bytes of an optional value.
pub open spec fn opt_bytes(v: Option<Vec<u8>>) -> Option<Seq<u8>> {
    match v {
        Some(b) => Some(b@),
        None => None,
    }
}

/// `prefix` starts `key`.
pub open spec fn has_prefix(key: Seq<u8>, prefix: Seq<u8>) -> bool {
    prefix.len() <= key.len() && key.subrange(0, prefix.len() as int) == prefix
}

/// `found` is the set of all entries of `kv` under `prefix`, each once, in
/// any order.
pub open spec fn scan_result(
    kv: Map<Seq<u8>, EntryView>,
    prefix: Seq<u8>,
    found: Seq<(Vec<u8>, KvEntry)>,
) -> bool {
    &&& forall|i: int|
        0 <= i < found.len() ==> {
            &&& has_prefix(#[trigger] found[i].0@, prefix)
            &&& kv.contains_key(found[i].0@)
            &&& kv[found[i].0@] == found[i].1@
        }
    &&& forall|k: Seq<u8>|
        #[trigger] kv.contains_key(k) && has_prefix(k, prefix) ==> exists|i: int|
            0 <= i < found.len() && found[i].0@ == k
    &&& forall|i: int, j: int| 0 <= i < j < found.len() ==> found[i].0@ != found[j].0@
}

/// A versioned key-value store with linearizable conditional writes.
///
/// `kv` is the store's content. Every method may fail with
/// `RegistryError::Store` (the store could not be reached); after such a
/// failure nothing is known of a write.
pub trait KvApi {
    spec fn kv(&self) -> Map<Seq<u8>, EntryView>;

    /// What the client keeps true of itself between calls.
    spec fn inv(&self) -> bool;

    /// A stored entry has been written at least once, so its sequence is
    /// not the sentinel 0.
    proof fn lemma_seq_positive(&self)
        requires
            self.inv(),
        ensures
            forall|k: Seq<u8>| #[trigger] self.kv().contains_key(k) ==> self.kv()[k].seq > 0,
    ;

    /// A conditional write of `value` to `key`; `None` deletes the key.
    fn upsert_kv(
        &mut self,
        key: &[u8],
        cond: MatchSeq,
        value: Option<Vec<u8>>,
        meta: Option<u64>,
    ) -> (r: Result<UpsertOutcome, RegistryError>)
        requires
            old(self).inv(),
        ensures
            final(self).inv(),
            r matches Ok(o) ==> upsert_step(
                old(self).kv(),
                final(self).kv(),
                key@,
                cond,
                opt_bytes(value),
                o,
            ),
            r matches Err(e) ==> e == RegistryError::Store,
    ;

    /// The entry of `key`.
    fn get_kv(&self, key: &[u8]) -> (r: Result<Option<KvEntry>, RegistryError>)
        requires
            self.inv(),
        ensures
            r matches Ok(e) ==> entry_opt(e) == entry_at(self.kv(), key@),
            r matches Err(e) ==> e == RegistryError::Store,
    ;

    /// The entries of `keys`, position by position.
    fn mget_kv(&self, keys: &Vec<Vec<u8>>) -> (r: Result<Vec<Option<KvEntry>>, RegistryError>)
        requires
            self.inv(),
        ensures
            r matches Ok(v) ==> v@.len() == keys@.len() && forall|i: int|
                0 <= i < keys@.len() ==> entry_opt(#[trigger] v@[i]) == entry_at(
                    self.kv(),
                    keys@[i]@,
                ),
            r matches Err(e) ==> e == RegistryError::Store,
    ;

    /// Every key under `prefix`, with its entry.
    fn prefix_list_kv(&self, prefix: &[u8]) -> (r: Result<Vec<(Vec<u8>, KvEntry)>, RegistryError>)
        requires
            self.inv(),
        ensures
            r matches Ok(v) ==> scan_result(self.kv(), prefix@, v@),
            r matches Err(e) ==> e == RegistryError::Store,
    ;
}

/// One key of the in-memory store with its entry.
pub struct StoredEntry {
    pub key: Vec<u8>,
    pub entry: KvEntry,
}

/// An in-memory store that keeps one entry per key and gives every
/// successful write the next sequence of a store-wide counter.
pub struct MemStore {
    entries: Vec<StoredEntry>,
    last_seq: u64,
}

/// No key occurs twice.
pub open spec fn keys_unique(s: Seq<StoredEntry>) -> bool {
    forall|i: int, j: int| 0 <= i < s.len() && 0 <= j < s.len() && i != j ==> s[i].key@ != s[j].key@
}

/// The content that a sequence of keyed entries stands for.
pub open spec fn store_map(s: Seq<StoredEntry>) -> Map<Seq<u8>, EntryView> {
    Map::new(
        |k: Seq<u8>| exists|i: int| 0 <= i < s.len() && s[i].key@ == k,
        |k: Seq<u8>| s[choose|i: int| 0 <= i < s.len() && s[i].key@ == k].entry@,
    )
}

proof fn lemma_lookup(s: Seq<StoredEntry>, i: int)
    requires
        keys_unique(s),
        0 <= i < s.len(),
    ensures
        store_map(s).contains_key(s[i].key@),
        store_map(s)[s[i].key@] == s[i].entry@,
{
    let k = s[i].key@;
    assert(exists|j: int| 0 <= j < s.len() && s[j].key@ == k);
    let j = choose|j: int| 0 <= j < s.len() && s[j].key@ == k;
    assert(i == j);
}

proof fn lemma_update(s: Seq<StoredEntry>, i: int, e: StoredEntry)
    requires
        keys_unique(s),
        0 <= i < s.len(),
        e.key@ == s[i].key@,
    ensures
        keys_unique(s.update(i, e)),
        store_map(s.update(i, e)) == store_map(s).insert(e.key@, e.entry@),
{
    let t = s.update(i, e);
    assert(keys_unique(t)) by {
        assert forall|a: int, b: int|
            0 <= a < t.len() && 0 <= b < t.len() && a != b implies t[a].key@ != t[b].key@ by {
            assert(t[a].key@ == s[a].key@);
            assert(t[b].key@ == s[b].key@);
        }
    }
    assert forall|k: Seq<u8>| #[trigger]
        store_map(t).contains_key(k) == store_map(s).insert(e.key@, e.entry@).contains_key(k) by {
        if store_map(s).contains_key(k) {
            let j = choose|j: int| 0 <= j < s.len() && s[j].key@ == k;
            assert(t[j].key@ == k);
        }
        if store_map(t).contains_key(k) {
            let j = choose|j: int| 0 <= j < t.len() && t[j].key@ == k;
            assert(s[j].key@ == k);
        }
    }
    assert forall|k: Seq<u8>| #[trigger] store_map(t).contains_key(k) implies store_map(t)[k]
        == store_map(s).insert(e.key@, e.entry@)[k] by {
        let j = choose|j: int| 0 <= j < t.len() && t[j].key@ == k;
        lemma_lookup(t, j);
        if j != i {
            lemma_lookup(s, j);
        }
    }
    assert(store_map(t) =~= store_map(s).insert(e.key@, e.entry@));
}

proof fn lemma_push(s: Seq<StoredEntry>, e: StoredEntry)
    requires
        keys_unique(s),
        !store_map(s).contains_key(e.key@),
    ensures
        keys_unique(s.push(e)),
        store_map(s.push(e)) == store_map(s).insert(e.key@, e.entry@),
{
    let t = s.push(e);
    assert(keys_unique(t)) by {
        assert forall|a: int, b: int|
            0 <= a < t.len() && 0 <= b < t.len() && a != b implies t[a].key@ != t[b].key@ by {
            if a < s.len() && b < s.len() {
                assert(t[a].key@ == s[a].key@);
                assert(t[b].key@ == s[b].key@);
            } else if a < s.len() {
                assert(t[a].key@ == s[a].key@);
            } else {
                assert(t[b].key@ == s[b].key@);
            }
        }
    }
    assert forall|k: Seq<u8>| #[trigger]
        store_map(t).contains_key(k) == store_map(s).insert(e.key@, e.entry@).contains_key(k) by {
        if store_map(s).contains_key(k) {
            let j = choose|j: int| 0 <= j < s.len() && s[j].key@ == k;
            assert(t[j].key@ == k);
        }
        if k == e.key@ {
            assert(t[s.len() as int].key@ == k);
        }
        if store_map(t).contains_key(k) {
            let j = choose|j: int| 0 <= j < t.len() && t[j].key@ == k;
            if j < s.len() {
                assert(s[j].key@ == k);
            }
        }
    }
    assert forall|k: Seq<u8>| #[trigger] store_map(t).contains_key(k) implies store_map(t)[k]
        == store_map(s).insert(e.key@, e.entry@)[k] by {
        let j = choose|j: int| 0 <= j < t.len() && t[j].key@ == k;
        lemma_lookup(t, j);
        if j < s.len() {
            lemma_lookup(s, j);
        }
    }
    assert(store_map(t) =~= store_map(s).insert(e.key@, e.entry@));
}

proof fn lemma_remove(s: Seq<StoredEntry>, i: int)
    requires
        keys_unique(s),
        0 <= i < s.len(),
    ensures
        keys_unique(s.remove(i)),
        store_map(s.remove(i)) == store_map(s).remove(s[i].key@),
{
    let t = s.remove(i);
    let k0 = s[i].key@;
    assert forall|a: int| 0 <= a < t.len() implies #[trigger] t[a] == s[if a < i {
        a
    } else {
        a + 1
    }] by {}
    assert(keys_unique(t)) by {
        assert forall|a: int, b: int|
            0 <= a < t.len() && 0 <= b < t.len() && a != b implies t[a].key@ != t[b].key@ by {
            let a1 = if a < i { a } else { a + 1 };
            let b1 = if b < i { b } else { b + 1 };
            assert(t[a] == s[a1]);
            assert(t[b] == s[b1]);
        }
    }
    assert forall|k: Seq<u8>| #[trigger]
        store_map(t).contains_key(k) == store_map(s).remove(k0).contains_key(k) by {
        if store_map(s).contains_key(k) && k != k0 {
            let j = choose|j: int| 0 <= j < s.len() && s[j].key@ == k;
            assert(j != i);
            let j1 = if j < i { j } else { j - 1 };
            assert(t[j1] == s[j]);
        }
        if store_map(t).contains_key(k) {
            let j = choose|j: int| 0 <= j < t.len() && t[j].key@ == k;
            let j1 = if j < i { j } else { j + 1 };
            assert(t[j] == s[j1]);
            assert(j1 != i);
        }
    }
    assert forall|k: Seq<u8>| #[trigger] store_map(t).contains_key(k) implies store_map(t)[k]
        == store_map(s).remove(k0)[k] by {
        let j = choose|j: int| 0 <= j < t.len() && t[j].key@ == k;
        let j1 = if j < i { j } else { j + 1 };
        assert(t[j] == s[j1]);
        lemma_lookup(t, j);
        lemma_lookup(s, j1);
    }
    assert(store_map(t) =~= store_map(s).remove(k0));
}

fn copy_bytes(b: &Vec<u8>) -> (r: Vec<u8>)
    ensures
        r@ == b@,
{
    slice_to_vec(b.as_slice())
}

fn copy_entry(e: &KvEntry) -> (r: KvEntry)
    ensures
        r@ == e@,
{
    KvEntry { seq: e.seq, value: copy_bytes(&e.value), meta: e.meta }
}

fn bytes_eq(a: &[u8], b: &[u8]) -> (r: bool)
    ensures
        r == (a@ == b@),
{
    if a.len() != b.len() {
        return false;
    }
    let mut i: usize = 0;
    while i < a.len()
        invariant
            a@.len() == b@.len(),
            i <= a@.len(),
            forall|j: int| 0 <= j < i ==> a@[j] == b@[j],
        decreases a@.len() - i,
    {
        if a[i] != b[i] {
            return false;
        }
        i = i + 1;
    }
    assert(a@ =~= b@);
    true
}

fn starts_with(key: &[u8], prefix: &[u8]) -> (r: bool)
    ensures
        r == has_prefix(key@, prefix@),
{
    if prefix.len() > key.len() {
        return false;
    }
    let mut i: usize = 0;
    while i < prefix.len()
        invariant
            prefix@.len() <= key@.len(),
            i <= prefix@.len(),
            forall|j: int| 0 <= j < i ==> key@[j] == prefix@[j],
        decreases prefix@.len() - i,
    {
        if key[i] != prefix[i] {
            assert(key@.subrange(0, prefix@.len() as int)[i as int] == key@[i as int]);
            return false;
        }
        i = i + 1;
    }
    assert(key@.subrange(0, prefix@.len() as int) =~= prefix@);
    true
}

impl MemStore {
    /// Keys are unique, and every stored sequence is positive and no larger
    /// than the last one given out.
    pub closed spec fn wf(&self) -> bool {
        &&& keys_unique(self.entries@)
        &&& forall|i: int|
            0 <= i < self.entries@.len() ==> 0 < #[trigger] self.entries@[i].entry.seq
                <= self.last_seq
    }

    /// Every sequence has been given out: no further value can be written.
    pub closed spec fn exhausted(&self) -> bool {
        self.last_seq == u64::MAX
    }

    /// An empty store.
    pub fn new() -> (r: MemStore)
        ensures
            r.wf(),
            !r.exhausted(),
            r.kv() == Map::<Seq<u8>, EntryView>::empty(),
    {
        let r = MemStore { entries: Vec::new(), last_seq: 0 };
        assert(r.kv() =~= Map::<Seq<u8>, EntryView>::empty());
        r
    }

    fn find(&self, key: &[u8]) -> (r: Option<usize>)
        requires
            self.wf(),
        ensures
            r matches Some(i) ==> i < self.entries@.len() && self.entries@[i as int].key@ == key@,
            r is None ==> !self.kv().contains_key(key@),
    {
        let mut i: usize = 0;
        while i < self.entries.len()
            invariant
                i <= self.entries@.len(),
                forall|j: int| 0 <= j < i ==> self.entries@[j].key@ != key@,
            decreases self.entries@.len() - i,
        {
            if bytes_eq(self.entries[i].key.as_slice(), key) {
                return Some(i);
            }
            i = i + 1;
        }
        None
    }
}

impl KvApi for MemStore {
    closed spec fn kv(&self) -> Map<Seq<u8>, EntryView> {
        store_map(self.entries@)
    }

    open spec fn inv(&self) -> bool {
        self.wf()
    }

    proof fn lemma_seq_positive(&self) {
        assert forall|k: Seq<u8>| #[trigger] self.kv().contains_key(k) implies self.kv()[k].seq
            > 0 by {
            let j = choose|j: int| 0 <= j < self.entries@.len() && self.entries@[j].key@ == k;
            lemma_lookup(self.entries@, j);
        }
    }

    fn upsert_kv(
        &mut self,
        key: &[u8],
        cond: MatchSeq,
        value: Option<Vec<u8>>,
        meta: Option<u64>,
    ) -> (r: Result<UpsertOutcome, RegistryError>)
        ensures
            r is Err ==> value is Some && old(self).exhausted() && final(self).kv() == old(
                self,
            ).kv(),
    {
        let found = self.find(key);
        let cur: Option<KvEntry> = match found {
            Some(i) => Some(copy_entry(&self.entries[i].entry)),
            None => None,
        };
        proof {
            if let Some(i) = found {
                lemma_lookup(self.entries@, i as int);
            }
            assert(entry_opt(cur) == entry_at(self.kv(), key@));
        }
        let holds = match cond {
            MatchSeq::Any => true,
            MatchSeq::Exact(s) => {
                if s == 0 {
                    cur.is_none()
                } else {
                    match &cur {
                        Some(c) => c.seq == s,
                        None => false,
                    }
                }
            },
        };
        if !holds {
            let result = match &cur {
                Some(c) => Some(copy_entry(c)),
                None => None,
            };
            return Ok(UpsertOutcome { prev: cur, result });
        }
        match value {
            None => {
                if let Some(i) = found {
                    proof {
                        lemma_remove(self.entries@, i as int);
                    }
                    self.entries.remove(i);
                    assert forall|j: int| 0 <= j < self.entries@.len() implies 0
                        < #[trigger] self.entries@[j].entry.seq <= self.last_seq by {
                        assert(self.entries@[j] == old(self).entries@[if j < i {
                            j
                        } else {
                            j + 1
                        }]);
                    }
                } else {
                    assert(self.kv() =~= old(self).kv().remove(key@));
                }
                Ok(UpsertOutcome { prev: cur, result: None })
            },
            Some(v) => {
                if self.last_seq == u64::MAX {
                    return Err(RegistryError::Store);
                }
                let seq = self.last_seq + 1;
                let stored = KvEntry { seq, value: copy_bytes(&v), meta };
                let e = StoredEntry { key: slice_to_vec(key), entry: KvEntry { seq, value: v, meta } };
                let ghost before = self.entries@;
                match found {
                    Some(i) => {
                        proof {
                            lemma_update(before, i as int, e);
                        }
                        self.entries.set(i, e);
                    },
                    None => {
                        proof {
                            lemma_push(before, e);
                        }
                        self.entries.push(e);
                    },
                }
                self.last_seq = seq;
                assert forall|j: int| 0 <= j < self.entries@.len() implies 0
                    < #[trigger] self.entries@[j].entry.seq <= self.last_seq by {
                    if j < before.len() && self.entries@[j] == before[j] {
                        assert(before[j].entry.seq <= old(self).last_seq);
                    }
                }
                Ok(UpsertOutcome { prev: cur, result: Some(stored) })
            },
        }
    }

    fn get_kv(&self, key: &[u8]) -> (r: Result<Option<KvEntry>, RegistryError>)
        ensures
            r is Ok,
    {
        match self.find(key) {
            Some(i) => {
                proof {
                    lemma_lookup(self.entries@, i as int);
                }
                Ok(Some(copy_entry(&self.entries[i].entry)))
            },
            None => Ok(None),
        }
    }

    fn mget_kv(&self, keys: &Vec<Vec<u8>>) -> (r: Result<Vec<Option<KvEntry>>, RegistryError>)
        ensures
            r is Ok,
    {
        let mut out: Vec<Option<KvEntry>> = Vec::new();
        let mut i: usize = 0;
        while i < keys.len()
            invariant
                self.wf(),
                i <= keys@.len(),
                out@.len() == i,
                forall|j: int|
                    0 <= j < i ==> entry_opt(#[trigger] out@[j]) == entry_at(self.kv(), keys@[j]@),
            decreases keys@.len() - i,
        {
            let e = match self.get_kv(keys[i].as_slice()) {
                Ok(e) => e,
                Err(e) => {
                    return Err(e);
                },
            };
            out.push(e);
            i = i + 1;
        }
        Ok(out)
    }

    fn prefix_list_kv(&self, prefix: &[u8]) -> (r: Result<Vec<(Vec<u8>, KvEntry)>, RegistryError>)
        ensures
            r is Ok,
    {
        let mut out: Vec<(Vec<u8>, KvEntry)> = Vec::new();
        let ghost mut idx: Seq<int> = seq![];
        let mut i: usize = 0;
        while i < self.entries.len()
            invariant
                self.wf(),
                i <= self.entries@.len(),
                idx.len() == out@.len(),
                forall|a: int|
                    0 <= a < out@.len() ==> 0 <= #[trigger] idx[a] < i && out@[a].0@
                        == self.entries@[idx[a]].key@ && out@[a].1@ == self.entries@[idx[a]].entry@
                        && has_prefix(out@[a].0@, prefix@),
                forall|a: int, b: int| 0 <= a < b < out@.len() ==> idx[a] < idx[b],
                forall|j: int|
                    0 <= j < i && has_prefix(self.entries@[j].key@, prefix@) ==> exists|a: int|
                        0 <= a < out@.len() && idx[a] == j,
            decreases self.entries@.len() - i,
        {
            let se = &self.entries[i];
            let ghost idx0 = idx;
            if starts_with(se.key.as_slice(), prefix) {
                proof {
                    idx = idx.push(i as int);
                }
                out.push((copy_bytes(&se.key), copy_entry(&se.entry)));
            }
            proof {
                assert forall|j: int|
                    0 <= j < i + 1 && has_prefix(self.entries@[j].key@, prefix@) implies exists|
                    a: int,
                | 0 <= a < out@.len() && idx[a] == j by {
                    if j == i {
                        assert(idx[out@.len() - 1] == j);
                    } else {
                        let a = choose|a: int| 0 <= a < idx0.len() && idx0[a] == j;
                        assert(idx[a] == j);
                    }
                }
            }
            i = i + 1;
        }
        proof {
            let s = self.entries@;
            assert forall|a: int| 0 <= a < out@.len() implies {
                &&& has_prefix(#[trigger] out@[a].0@, prefix@)
                &&& self.kv().contains_key(out@[a].0@)
                &&& self.kv()[out@[a].0@] == out@[a].1@
            } by {
                lemma_lookup(s, idx[a]);
            }
            assert forall|k: Seq<u8>| #[trigger]
                self.kv().contains_key(k) && has_prefix(k, prefix@) implies exists|a: int|
                0 <= a < out@.len() && out@[a].0@ == k by {
                let j = choose|j: int| 0 <= j < s.len() && s[j].key@ == k;
                let a = choose|a: int| 0 <= a < out@.len() && idx[a] == j;
                assert(out@[a].0@ == k);
            }
            assert forall|a: int, b: int| 0 <= a < b < out@.len() implies out@[a].0@
                != out@[b].0@ by {
                assert(idx[a] < idx[b]);
            }
        }
        Ok(out)
    }
}

} // verus!
