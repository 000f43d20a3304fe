use vstd::prelude::*;

use crate::error::RegistryError;

verus! {

/// The condition a conditional write puts on the current sequence of its key.
#[derive(Debug, Clone, Copy, PartialEq, Eq, Structural)]
pub enum MatchSeq {
    /// No condition.
    Any,
    /// The key's sequence must equal this; `Exact(0)` means the key must be absent.
    Exact(u64),
}

/// A stored value and the sequence the store gave its last write.
#[derive(Debug, Clone)]
pub struct KvEntry {
    pub seq: u64,
    pub value: Vec<u8>,
    /// Expiry metadata passed through to the store, if any.
    pub meta: Option<u64>,
}

/// What a stored entry is, for the registry: its bytes and its sequence.
pub struct EntryView {
    pub value: Seq<u8>,
    pub seq: u64,
}

impl View for KvEntry {
    type V = EntryView;

    open spec fn view(&self) -> EntryView {
        EntryView { value: self.value@, seq: self.seq }
    }
}

/// The view of an optional entry.
pub open spec fn entry_opt(e: Option<KvEntry>) -> Option<EntryView> {
    match e {
        Some(x) => Some(x@),
        None => None,
    }
}

/// The raw answer of a conditional write: the entry before and after it.
#[derive(Debug)]
pub struct UpsertOutcome {
    pub prev: Option<KvEntry>,
    pub result: Option<KvEntry>,
}

/// The entry of `key` in a store state, if it has one.
pub open spec fn entry_at(kv: Map<Seq<u8>, EntryView>, key: Seq<u8>) -> Option<EntryView> {
    if kv.contains_key(key) {
        Some(kv[key])
    } else {
        None
    }
}

/// Whether `cond` admits a write on a key whose current entry is `cur`.
pub open spec fn cond_holds(cur: Option<EntryView>, cond: MatchSeq) -> bool {
    match cond {
        MatchSeq::Any => true,
        MatchSeq::Exact(s) => if s == 0 {
            cur is None
        } else {
            cur matches Some(c) && c.seq == s
        },
    }
}

/// A linearizable conditional write of `value` (a delete when absent) to
/// `key`, taking the store from `old` to `new` and answering `o`. The store's
/// API does not rule out an answer that is empty on both sides when a write
/// finds the key absent, so that answer is admitted, with no change.
pub open spec fn upsert_step(
    old: Map<Seq<u8>, EntryView>,
    new: Map<Seq<u8>, EntryView>,
    key: Seq<u8>,
    cond: MatchSeq,
    value: Option<Seq<u8>>,
    o: UpsertOutcome,
) -> bool {
    let cur = entry_at(old, key);
    &&& entry_opt(o.prev) == cur
    &&& if !cond_holds(cur, cond) {
        new == old && entry_opt(o.result) == cur
    } else {
        match value {
            None => new == old.remove(key) && o.result is None,
            Some(v) => match o.result {
                Some(e) => {
                    &&& e@.value == v
                    &&& e@.seq > 0
                    &&& (cur matches Some(c) ==> e@.seq > c.seq)
                    &&& new == old.insert(key, e@)
                },
                // The answer may also be empty on both sides where the key
                // was absent; the write then did not happen.
                None => cur is None && o.prev is None && new == old,
            },
        }
    }
}

/// The verdict on a write that required the key to be absent.
pub open spec fn create_verdict(prev: Option<EntryView>, result: Option<EntryView>) -> Result<(), RegistryError> {
    if prev is Some {
        Err(RegistryError::NodeAlreadyExists)
    } else if result is Some {
        Ok(())
    } else {
        Err(RegistryError::UnknownException)
    }
}

/// The verdict on a write that required the key's sequence to be `expected`.
pub open spec fn update_verdict(prev: Option<EntryView>, result: Option<EntryView>, expected: u64) -> Result<(), RegistryError> {
    match prev {
        None => Err(RegistryError::NodeNotFound),
        Some(p) => if p.seq != expected {
            Err(RegistryError::StaleSequence)
        } else if result is Some {
            Ok(())
        } else {
            Err(RegistryError::UnknownException)
        },
    }
}

/// The verdict on a delete made on sequence `expected`, or on no condition.
pub open spec fn delete_verdict(prev: Option<EntryView>, result: Option<EntryView>, expected: Option<u64>) -> Result<(), RegistryError> {
    match prev {
        None => Err(RegistryError::NodeNotFound),
        Some(p) => if result is None {
            Ok(())
        } else if expected matches Some(s) && p.seq != s {
            Err(RegistryError::StaleSequence)
        } else {
            Err(RegistryError::UnknownException)
        },
    }
}

/// Classifies the answer to a write that required the key to be absent.
pub fn classify_create(o: &UpsertOutcome) -> (r: Result<(), RegistryError>)
    ensures
        r == create_verdict(entry_opt(o.prev), entry_opt(o.result)),
{
    match (&o.prev, &o.result) {
        (Some(_), _) => Err(RegistryError::NodeAlreadyExists),
        (None, Some(_)) => Ok(()),
        (None, None) => Err(RegistryError::UnknownException),
    }
}

/// Classifies the answer to a write that required the key's sequence to be
/// `expected`.
pub fn classify_update(o: &UpsertOutcome, expected: u64) -> (r: Result<(), RegistryError>)
    ensures
        r == update_verdict(entry_opt(o.prev), entry_opt(o.result), expected),
{
    match &o.prev {
        None => Err(RegistryError::NodeNotFound),
        Some(p) => {
            if p.seq != expected {
                Err(RegistryError::StaleSequence)
            } else if o.result.is_some() {
                Ok(())
            } else {
                Err(RegistryError::UnknownException)
            }
        },
    }
}

/// Classifies the answer to a delete, made on sequence `expected` or on no
/// condition.
pub fn classify_delete(o: &UpsertOutcome, expected: Option<u64>) -> (r: Result<(), RegistryError>)
    ensures
        r == delete_verdict(entry_opt(o.prev), entry_opt(o.result), expected),
{
    match &o.prev {
        None => Err(RegistryError::NodeNotFound),
        Some(p) => {
            if o.result.is_none() {
                Ok(())
            } else {
                match expected {
                    Some(s) => {
                        if p.seq != s {
                            Err(RegistryError::StaleSequence)
                        } else {
                            Err(RegistryError::UnknownException)
                        }
                    },
                    None => Err(RegistryError::UnknownException),
                }
            }
        },
    }
}

/// A conditional write on sequence `s` made after another writer moved the
/// key on is judged stale and leaves the store as it was.
pub proof fn lemma_update_race(
    old: Map<Seq<u8>, EntryView>,
    new: Map<Seq<u8>, EntryView>,
    key: Seq<u8>,
    s: u64,
    value: Seq<u8>,
    o: UpsertOutcome,
)
    requires
        upsert_step(old, new, key, MatchSeq::Exact(s), Some(value), o),
        old.contains_key(key),
        old[key].seq != s,
    ensures
        update_verdict(entry_opt(o.prev), entry_opt(o.result), s) == Err::<(), RegistryError>(
            RegistryError::StaleSequence,
        ),
        new == old,
{
}

} // verus!
