use vstd::prelude::*;
use vstd::utf8::encode_utf8;

use crate::cas::classify_create;
use crate::cas::classify_delete;
use crate::cas::classify_update;
use crate::cas::entry_at;
use crate::cas::entry_opt;
use crate::cas::EntryView;
use crate::cas::KvEntry;
use crate::cas::MatchSeq;
use crate::error::RegistryError;
use crate::keys::encode_key;
use crate::keys::is_ident;
use crate::keys::namespace_prefix;
use crate::keys::namespace_prefix_of;
use crate::keys::node_key_of;
use crate::node::decode_node;
use crate::node::encode_node;
use crate::node::is_record;
use crate::node::node_bytes;
use crate::node::node_fits;
use crate::node::NodeInfo;
use crate::node::stores;
use crate::node::NodeView;
use crate::store::has_prefix;
use crate::store::scan_result;
use crate::store::KvApi;

verus! {

/// How many read-then-write rounds an update makes before it gives up.
pub const UPDATE_ATTEMPTS: u64 = 3;

/// A state of the store: each key's value and sequence.
pub type Store = Map<Seq<u8>, EntryView>;

/// Tenant, namespace and node id are all free of the separator.
pub open spec fn ids_valid(tenant: Seq<char>, namespace: Seq<char>, node_id: Seq<char>) -> bool {
    is_ident(encode_utf8(tenant)) && is_ident(encode_utf8(namespace)) && is_ident(
        encode_utf8(node_id),
    )
}

/// The key of a node record.
pub open spec fn key_of(tenant: Seq<char>, namespace: Seq<char>, node_id: Seq<char>) -> Seq<u8> {
    node_key_of(encode_utf8(tenant), encode_utf8(namespace), encode_utf8(node_id))
}

/// What `add_node` does to the store `old`, giving `new` and answering `r`.
pub open spec fn add_result(
    old: Store,
    new: Store,
    tenant: Seq<char>,
    namespace: Seq<char>,
    node: NodeView,
    r: Result<(), RegistryError>,
) -> bool {
    let k = key_of(tenant, namespace, node.id);
    if !ids_valid(tenant, namespace, node.id) {
        r == Err::<(), RegistryError>(RegistryError::InvalidIdentifier) && new == old
    } else if r == Err::<(), RegistryError>(RegistryError::Store) {
        true
    } else if old.contains_key(k) {
        r == Err::<(), RegistryError>(RegistryError::NodeAlreadyExists) && new == old
    } else if r == Err::<(), RegistryError>(RegistryError::UnknownException) {
        new == old
    } else {
        &&& r is Ok
        &&& new.contains_key(k)
        &&& new == old.insert(k, EntryView { value: node_bytes(node), seq: new[k].seq })
    }
}

/// What `get_node` answers on the store `kv`.
pub open spec fn get_result(
    kv: Store,
    tenant: Seq<char>,
    namespace: Seq<char>,
    node_id: Seq<char>,
    r: Result<NodeInfo, RegistryError>,
) -> bool {
    let k = key_of(tenant, namespace, node_id);
    if !ids_valid(tenant, namespace, node_id) {
        r == Err::<NodeInfo, RegistryError>(RegistryError::InvalidIdentifier)
    } else if r == Err::<NodeInfo, RegistryError>(RegistryError::Store) {
        true
    } else if !kv.contains_key(k) {
        r == Err::<NodeInfo, RegistryError>(RegistryError::NodeNotFound)
    } else if !is_record(kv[k].value) {
        r == Err::<NodeInfo, RegistryError>(RegistryError::CorruptRecord)
    } else {
        r matches Ok(n) && stores(kv[k].value, n@)
    }
}

/// What `update_node` does to the store `old`, giving `new` and answering
/// `r`.
pub open spec fn update_result(
    old: Store,
    new: Store,
    tenant: Seq<char>,
    namespace: Seq<char>,
    node: NodeView,
    r: Result<(), RegistryError>,
) -> bool {
    let k = key_of(tenant, namespace, node.id);
    if !ids_valid(tenant, namespace, node.id) {
        r == Err::<(), RegistryError>(RegistryError::InvalidIdentifier) && new == old
    } else if r == Err::<(), RegistryError>(RegistryError::Store) {
        true
    } else if !old.contains_key(k) {
        r == Err::<(), RegistryError>(RegistryError::NodeNotFound) && new == old
    } else {
        &&& r is Ok
        &&& new.contains_key(k)
        &&& new[k].seq > old[k].seq
        &&& new == old.insert(k, EntryView { value: node_bytes(node), seq: new[k].seq })
    }
}

/// What `remove_node` does to the store `old`, giving `new` and answering
/// `r`.
pub open spec fn remove_result(
    old: Store,
    new: Store,
    tenant: Seq<char>,
    namespace: Seq<char>,
    node_id: Seq<char>,
    expected: Option<u64>,
    r: Result<(), RegistryError>,
) -> bool {
    let k = key_of(tenant, namespace, node_id);
    if !ids_valid(tenant, namespace, node_id) {
        r == Err::<(), RegistryError>(RegistryError::InvalidIdentifier) && new == old
    } else if r == Err::<(), RegistryError>(RegistryError::Store) {
        true
    } else if !old.contains_key(k) {
        r == Err::<(), RegistryError>(RegistryError::NodeNotFound) && new == old
    } else if expected matches Some(s) && s != old[k].seq {
        r == Err::<(), RegistryError>(RegistryError::StaleSequence) && new == old
    } else {
        r is Ok && new == old.remove(k)
    }
}

/// What `list_nodes` answers on the store `kv`: taking the keys under the
/// namespace in the order the scan gave them, the nodes are the values that
/// decode, each decoded once and in that order, and the count is the number
/// of values that do not decode.
pub open spec fn list_result(
    kv: Store,
    tenant: Seq<char>,
    namespace: Seq<char>,
    r: Result<(Vec<NodeInfo>, usize), RegistryError>,
) -> bool {
    let p = namespace_prefix_of(encode_utf8(tenant), encode_utf8(namespace));
    if !(is_ident(encode_utf8(tenant)) && is_ident(encode_utf8(namespace))) {
        r == Err::<(Vec<NodeInfo>, usize), RegistryError>(RegistryError::InvalidIdentifier)
    } else if r == Err::<(Vec<NodeInfo>, usize), RegistryError>(RegistryError::Store) {
        true
    } else {
        &&& r is Ok
        &&& r matches Ok(res) ==> exists|ks: Seq<Seq<u8>>|
            #![trigger scan_keys(kv, p, ks)]
            scan_keys(kv, p, ks) && decodes_records(values_at(kv, ks), res.0@) && res.1
                == corrupt_count(values_at(kv, ks))
    }
}

/// `ks` holds each key of `kv` under `p` exactly once, in some order.
pub open spec fn scan_keys(kv: Store, p: Seq<u8>, ks: Seq<Seq<u8>>) -> bool {
    &&& forall|i: int| 0 <= i < ks.len() ==> kv.contains_key(#[trigger] ks[i]) && has_prefix(ks[i], p)
    &&& forall|k: Seq<u8>| #[trigger] kv.contains_key(k) && has_prefix(k, p) ==> ks.contains(k)
    &&& ks.no_duplicates()
}

/// The values of the keys `ks`, in order.
pub open spec fn values_at(kv: Store, ks: Seq<Seq<u8>>) -> Seq<Seq<u8>> {
    Seq::new(ks.len(), |i: int| kv[ks[i]].value)
}

/// The values among `vals` that are stored forms of nodes, in order.
pub open spec fn record_values(vals: Seq<Seq<u8>>) -> Seq<Seq<u8>>
    decreases vals.len(),
{
    if vals.len() == 0 {
        seq![]
    } else if is_record(vals.last()) {
        record_values(vals.drop_last()).push(vals.last())
    } else {
        record_values(vals.drop_last())
    }
}

/// How many of `vals` are not the stored form of any node.
pub open spec fn corrupt_count(vals: Seq<Seq<u8>>) -> nat
    decreases vals.len(),
{
    if vals.len() == 0 {
        0
    } else if is_record(vals.last()) {
        corrupt_count(vals.drop_last())
    } else {
        corrupt_count(vals.drop_last()) + 1
    }
}

/// `nodes` are the records among `vals` decoded, one each, in order.
pub open spec fn decodes_records(vals: Seq<Seq<u8>>, nodes: Seq<NodeInfo>) -> bool {
    &&& nodes.len() == record_values(vals).len()
    &&& forall|a: int| 0 <= a < nodes.len() ==> stores(record_values(vals)[a], #[trigger] nodes[a]@)
}

/// What `get_nodes` answers on the store `kv` for the ids `ids`.
pub open spec fn get_nodes_result(
    kv: Store,
    tenant: Seq<char>,
    namespace: Seq<char>,
    ids: Seq<String>,
    r: Result<Vec<Option<NodeInfo>>, RegistryError>,
) -> bool {
    if exists|i: int| 0 <= i < ids.len() && !ids_valid(tenant, namespace, #[trigger] ids[i]@) {
        r == Err::<Vec<Option<NodeInfo>>, RegistryError>(RegistryError::InvalidIdentifier)
    } else if r == Err::<Vec<Option<NodeInfo>>, RegistryError>(RegistryError::Store) {
        true
    } else if exists|i: int|
        0 <= i < ids.len() && kv.contains_key(#[trigger] key_of(tenant, namespace, ids[i]@))
            && !is_record(kv[key_of(tenant, namespace, ids[i]@)].value) {
        r == Err::<Vec<Option<NodeInfo>>, RegistryError>(RegistryError::CorruptRecord)
    } else {
        r matches Ok(v) && v@.len() == ids.len() && forall|i: int|
            0 <= i < ids.len() ==> {
                let k = key_of(tenant, namespace, ids[i]@);
                if kv.contains_key(k) {
                    (#[trigger] v@[i]) matches Some(n) && stores(kv[k].value, n@)
                } else {
                    v@[i] is None
                }
            }
    }
}

/// The values of the entries of `found`, in order.
pub open spec fn found_values(found: Seq<(Vec<u8>, KvEntry)>) -> Seq<Seq<u8>> {
    Seq::new(found.len(), |j: int| found[j].1@.value)
}

/// Decodes the value of every entry, keeping the nodes in order and counting
/// the entries that do not decode.
fn decode_all(found: &Vec<(Vec<u8>, KvEntry)>) -> (r: (Vec<NodeInfo>, usize))
    ensures
        decodes_records(found_values(found@), r.0@),
        r.1 == corrupt_count(found_values(found@)),
{
    let ghost vals = found_values(found@);
    let mut nodes: Vec<NodeInfo> = Vec::new();
    let mut skipped: usize = 0;
    let mut i: usize = 0;
    while i < found.len()
        invariant
            i <= found@.len(),
            vals == found_values(found@),
            skipped <= i,
            decodes_records(vals.subrange(0, i as int), nodes@),
            skipped == corrupt_count(vals.subrange(0, i as int)),
        decreases found@.len() - i,
    {
        let ghost before = vals.subrange(0, i as int);
        let ghost after = vals.subrange(0, i + 1);
        assert(after.drop_last() =~= before);
        assert(after.last() == found@[i as int].1@.value);
        let ghost old_nodes = nodes@;
        match decode_node(found[i].1.value.as_slice()) {
            Ok(n) => {
                nodes.push(n);
                proof {
                    assert forall|a: int| 0 <= a < nodes@.len() implies stores(
                        record_values(after)[a],
                        #[trigger] nodes@[a]@,
                    ) by {
                        if a < old_nodes.len() {
                            assert(nodes@[a] == old_nodes[a]);
                        }
                    }
                }
            },
            Err(_) => {
                skipped = skipped + 1;
            },
        }
        i = i + 1;
    }
    assert(vals.subrange(0, found@.len() as int) =~= vals);
    (nodes, skipped)
}

/// What round `attempt` (from 0) of an update decides from the verdict on
/// its write: `None` to read and write again, `Some(r)` to answer `r`. A
/// stale write is tried again until `UPDATE_ATTEMPTS` rounds have run, and
/// then the update gives up with `Contention`; any other verdict is the
/// answer.
pub fn update_round(attempt: u64, verdict: Result<(), RegistryError>) -> (r: Option<
    Result<(), RegistryError>,
>)
    ensures
        verdict == Err::<(), RegistryError>(RegistryError::StaleSequence) && attempt + 1
            < UPDATE_ATTEMPTS ==> r is None,
        verdict == Err::<(), RegistryError>(RegistryError::StaleSequence) && attempt + 1
            >= UPDATE_ATTEMPTS ==> r == Some(Err::<(), RegistryError>(RegistryError::Contention)),
        verdict != Err::<(), RegistryError>(RegistryError::StaleSequence) ==> r == Some(verdict),
{
    match verdict {
        Err(RegistryError::StaleSequence) => {
            if attempt >= UPDATE_ATTEMPTS - 1 {
                Some(Err(RegistryError::Contention))
            } else {
                None
            }
        },
        _ => Some(verdict),
    }
}

/// The registry of the nodes of tenant-scoped namespaces, kept in a store.
pub struct NamespaceMgr<K: KvApi> {
    pub kv: K,
}

impl<K: KvApi> NamespaceMgr<K> {
    /// A registry kept in `kv`.
    pub fn new(kv: K) -> (r: Self)
        ensures
            r.kv == kv,
    {
        NamespaceMgr { kv }
    }

    /// Registers `node`, which must not be registered yet.
    pub fn add_node(&mut self, tenant: &str, namespace: &str, node: &NodeInfo) -> (r: Result<
        (),
        RegistryError,
    >)
        requires
            old(self).kv.inv(),
        ensures
            final(self).kv.inv(),
            node_fits(node@),
            add_result(old(self).kv.kv(), final(self).kv.kv(), tenant@, namespace@, node@, r),
    {
        let value = encode_node(node);
        let key = match encode_key(tenant, namespace, node.id.as_str()) {
            Ok(k) => k,
            Err(e) => {
                return Err(e);
            },
        };
        let o = match self.kv.upsert_kv(key.as_slice(), MatchSeq::Exact(0), Some(value), None) {
            Ok(o) => o,
            Err(e) => {
                return Err(e);
            },
        };
        classify_create(&o)
    }

    /// The node `node_id`.
    pub fn get_node(&self, tenant: &str, namespace: &str, node_id: &str) -> (r: Result<
        NodeInfo,
        RegistryError,
    >)
        requires
            self.kv.inv(),
        ensures
            get_result(self.kv.kv(), tenant@, namespace@, node_id@, r),
    {
        let key = match encode_key(tenant, namespace, node_id) {
            Ok(k) => k,
            Err(e) => {
                return Err(e);
            },
        };
        let e = match self.kv.get_kv(key.as_slice()) {
            Ok(e) => e,
            Err(e) => {
                return Err(e);
            },
        };
        match e {
            None => Err(RegistryError::NodeNotFound),
            Some(e) => decode_node(e.value.as_slice()),
        }
    }

    /// Every node of the namespace that decodes, and how many records did
    /// not.
    pub fn list_nodes(&self, tenant: &str, namespace: &str) -> (r: Result<
        (Vec<NodeInfo>, usize),
        RegistryError,
    >)
        requires
            self.kv.inv(),
        ensures
            list_result(self.kv.kv(), tenant@, namespace@, r),
    {
        let prefix = match namespace_prefix(tenant, namespace) {
            Ok(p) => p,
            Err(e) => {
                return Err(e);
            },
        };
        let found = match self.kv.prefix_list_kv(prefix.as_slice()) {
            Ok(f) => f,
            Err(e) => {
                return Err(e);
            },
        };
        let ghost kv = self.kv.kv();
        let ghost p = prefix@;
        let (nodes, skipped) = decode_all(&found);
        proof {
            let ks = Seq::new(found@.len(), |j: int| found@[j].0@);
            assert forall|k: Seq<u8>| #[trigger] kv.contains_key(k) && has_prefix(k, p) implies ks.contains(k) by {
                let j = choose|j: int| 0 <= j < found@.len() && found@[j].0@ == k;
                assert(ks[j] == k);
            }
            assert forall|i: int, j: int| 0 <= i < ks.len() && 0 <= j < ks.len() && i != j implies ks[i] != ks[j] by {
                if i < j {
                    assert(found@[i].0@ != found@[j].0@);
                } else {
                    assert(found@[j].0@ != found@[i].0@);
                }
            }
            assert(scan_keys(kv, p, ks));
            assert(values_at(kv, ks) =~= found_values(found@));
        }
        Ok((nodes, skipped))
    }

    /// The nodes `node_ids`, in one round trip: position `i` of the answer
    /// holds the node `node_ids[i]`, or `None` where it is absent.
    pub fn get_nodes(&self, tenant: &str, namespace: &str, node_ids: &Vec<String>) -> (r: Result<
        Vec<Option<NodeInfo>>,
        RegistryError,
    >)
        requires
            self.kv.inv(),
        ensures
            get_nodes_result(self.kv.kv(), tenant@, namespace@, node_ids@, r),
    {
        let mut keys: Vec<Vec<u8>> = Vec::new();
        let mut i: usize = 0;
        while i < node_ids.len()
            invariant
                i <= node_ids@.len(),
                keys@.len() == i,
                forall|j: int|
                    0 <= j < i ==> ids_valid(tenant@, namespace@, #[trigger] node_ids@[j]@)
                        && keys@[j]@ == key_of(tenant@, namespace@, node_ids@[j]@),
            decreases node_ids@.len() - i,
        {
            let k = match encode_key(tenant, namespace, node_ids[i].as_str()) {
                Ok(k) => k,
                Err(e) => {
                    return Err(e);
                },
            };
            keys.push(k);
            i = i + 1;
        }
        let found = match self.kv.mget_kv(&keys) {
            Ok(f) => f,
            Err(e) => {
                return Err(e);
            },
        };
        let ghost kv = self.kv.kv();
        let mut out: Vec<Option<NodeInfo>> = Vec::new();
        let mut j: usize = 0;
        while j < found.len()
            invariant
                kv == self.kv.kv(),
                found@.len() == keys@.len(),
                keys@.len() == node_ids@.len(),
                forall|m: int|
                    0 <= m < keys@.len() ==> ids_valid(tenant@, namespace@, #[trigger] node_ids@[m]@)
                        && keys@[m]@ == key_of(tenant@, namespace@, node_ids@[m]@),
                j <= found@.len(),
                out@.len() == j,
                forall|m: int|
                    0 <= m < keys@.len() ==> entry_opt(#[trigger] found@[m]) == entry_at(
                        kv,
                        keys@[m]@,
                    ),
                forall|m: int|
                    0 <= m < j ==> {
                        let k = keys@[m]@;
                        if kv.contains_key(k) {
                            (#[trigger] out@[m]) matches Some(n) && stores(kv[k].value, n@)
                        } else {
                            out@[m] is None
                        }
                    },
            decreases found@.len() - j,
        {
            assert(entry_opt(found@[j as int]) == entry_at(kv, keys@[j as int]@));
            match &found[j] {
                None => {
                    out.push(None);
                },
                Some(e) => {
                    match decode_node(e.value.as_slice()) {
                        Ok(n) => {
                            out.push(Some(n));
                        },
                        Err(e) => {
                            proof {
                                let k = key_of(tenant@, namespace@, node_ids@[j as int]@);
                                assert(kv.contains_key(k) && !is_record(kv[k].value));
                            }
                            return Err(e);
                        },
                    }
                },
            }
            j = j + 1;
        }
        proof {
            assert forall|m: int| 0 <= m < node_ids@.len() implies !(kv.contains_key(
                #[trigger] key_of(tenant@, namespace@, node_ids@[m]@),
            ) && !is_record(kv[key_of(tenant@, namespace@, node_ids@[m]@)].value)) by {
                reveal(is_record);
                let k = key_of(tenant@, namespace@, node_ids@[m]@);
                assert(keys@[m]@ == k);
                if kv.contains_key(k) {
                    let o = out@[m];
                    assert(o is Some);
                    let v = o->Some_0@;
                    assert(stores(kv[k].value, v));
                    assert(is_record(kv[k].value));
                }
            }
        }
        Ok(out)
    }

    /// Replaces the record of `node`, read and written again up to
    /// `UPDATE_ATTEMPTS` times while concurrent writers win the race.
    pub fn update_node(&mut self, tenant: &str, namespace: &str, node: &NodeInfo) -> (r: Result<
        (),
        RegistryError,
    >)
        requires
            old(self).kv.inv(),
        ensures
            final(self).kv.inv(),
            node_fits(node@),
            update_result(old(self).kv.kv(), final(self).kv.kv(), tenant@, namespace@, node@, r),
    {
        let value = encode_node(node);
        let key = match encode_key(tenant, namespace, node.id.as_str()) {
            Ok(k) => k,
            Err(e) => {
                return Err(e);
            },
        };
        let ghost k = key@;
        let mut attempt: u64 = 0;
        while attempt < UPDATE_ATTEMPTS
            invariant
                self.kv.inv(),
                self.kv.kv() == old(self).kv.kv(),
                k == key@,
                k == key_of(tenant@, namespace@, node@.id),
                ids_valid(tenant@, namespace@, node@.id),
                value@ == node_bytes(node@),
                node_fits(node@),
                // Through this handle the store moves only by its own
                // writes, so a round that reads the sequence and writes on it
                // is never stale here; other writers are what the bound is for.
                attempt == 0,
            decreases UPDATE_ATTEMPTS - attempt,
        {
            proof {
                self.kv.lemma_seq_positive();
            }
            let cur = match self.kv.get_kv(key.as_slice()) {
                Ok(Some(e)) => e,
                Ok(None) => {
                    return Err(RegistryError::NodeNotFound);
                },
                Err(e) => {
                    return Err(e);
                },
            };
            let seq = cur.seq;
            let o = match self.kv.upsert_kv(
                key.as_slice(),
                MatchSeq::Exact(seq),
                Some(slice_copy(&value)),
                None,
            ) {
                Ok(o) => o,
                Err(e) => {
                    return Err(e);
                },
            };
            match update_round(attempt, classify_update(&o, seq)) {
                Some(r) => {
                    return r;
                },
                None => {},
            }
            attempt = attempt + 1;
        }
        Err(RegistryError::Contention)
    }

    /// Removes the record of `node_id`; with `expected`, only while its
    /// sequence is that.
    pub fn remove_node(
        &mut self,
        tenant: &str,
        namespace: &str,
        node_id: &str,
        expected: Option<u64>,
    ) -> (r: Result<(), RegistryError>)
        requires
            old(self).kv.inv(),
        ensures
            final(self).kv.inv(),
            remove_result(
                old(self).kv.kv(),
                final(self).kv.kv(),
                tenant@,
                namespace@,
                node_id@,
                expected,
                r,
            ),
    {
        let key = match encode_key(tenant, namespace, node_id) {
            Ok(k) => k,
            Err(e) => {
                return Err(e);
            },
        };
        let cond = match expected {
            Some(s) => MatchSeq::Exact(s),
            None => MatchSeq::Any,
        };
        proof {
            self.kv.lemma_seq_positive();
            if !old(self).kv.kv().contains_key(key@) {
                assert(old(self).kv.kv().remove(key@) =~= old(self).kv.kv());
            }
        }
        let o = match self.kv.upsert_kv(key.as_slice(), cond, None, None) {
            Ok(o) => o,
            Err(e) => {
                return Err(e);
            },
        };
        classify_delete(&o, expected)
    }
}

fn slice_copy(b: &Vec<u8>) -> (r: Vec<u8>)
    ensures
        r@ == b@,
{
    vstd::slice::slice_to_vec(b.as_slice())
}

} // verus!
