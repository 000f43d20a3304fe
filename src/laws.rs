use vstd::prelude::*;
use vstd::utf8::encode_utf8;

use crate::error::RegistryError;
use crate::keys::namespace_prefix_of;
use crate::manager::add_result;
use crate::manager::get_result;
use crate::manager::ids_valid;
use crate::manager::key_of;
use crate::manager::corrupt_count;
use crate::manager::decodes_records;
use crate::manager::list_result;
use crate::manager::record_values;
use crate::manager::scan_keys;
use crate::manager::values_at;
use crate::manager::Store;
use crate::node::is_record;
use crate::node::lemma_node_bytes_injective;
use crate::node::node_bytes;
use crate::node::node_fits;
use crate::node::stores;
use crate::node::NodeView;
use crate::store::has_prefix;

verus! {

/// Adding the same node id twice with no other writer: the first add
/// succeeds and the second finds the node already there.
pub proof fn lemma_add_twice(
    m0: Store,
    m1: Store,
    m2: Store,
    tenant: Seq<char>,
    namespace: Seq<char>,
    node: NodeView,
    r1: Result<(), RegistryError>,
    r2: Result<(), RegistryError>,
)
    requires
        ids_valid(tenant, namespace, node.id),
        !m0.contains_key(key_of(tenant, namespace, node.id)),
        add_result(m0, m1, tenant, namespace, node, r1),
        add_result(m1, m2, tenant, namespace, node, r2),
        r1 != Err::<(), RegistryError>(RegistryError::Store),
        r2 != Err::<(), RegistryError>(RegistryError::Store),
        r1 != Err::<(), RegistryError>(RegistryError::UnknownException),
    ensures
        r1 is Ok,
        r2 == Err::<(), RegistryError>(RegistryError::NodeAlreadyExists),
{
}

/// Two callers add nodes with the same id to a namespace that lacks it; the
/// store orders the two writes one after the other. Exactly one add
/// succeeds, and the other finds the node already there.
pub proof fn lemma_one_winner(
    m0: Store,
    m1: Store,
    m2: Store,
    tenant: Seq<char>,
    namespace: Seq<char>,
    first: NodeView,
    second: NodeView,
    r1: Result<(), RegistryError>,
    r2: Result<(), RegistryError>,
)
    requires
        first.id == second.id,
        ids_valid(tenant, namespace, first.id),
        !m0.contains_key(key_of(tenant, namespace, first.id)),
        add_result(m0, m1, tenant, namespace, first, r1),
        add_result(m1, m2, tenant, namespace, second, r2),
        r1 != Err::<(), RegistryError>(RegistryError::Store),
        r2 != Err::<(), RegistryError>(RegistryError::Store),
        r1 != Err::<(), RegistryError>(RegistryError::UnknownException),
    ensures
        r1 is Ok != r2 is Ok,
        r1 is Err ==> r1 == Err::<(), RegistryError>(RegistryError::NodeAlreadyExists),
        r2 is Err ==> r2 == Err::<(), RegistryError>(RegistryError::NodeAlreadyExists),
{
}

proof fn lemma_stored_node_reads_back(b: Seq<u8>, node: NodeView, got: NodeView)
    requires
        node_fits(node),
        b == node_bytes(node),
        stores(b, got),
    ensures
        got == node,
{
    reveal(stores);
    lemma_node_bytes_injective(got, node);
}

/// After a successful add, reading the node back gives the node that was
/// added.
pub proof fn lemma_add_then_get(
    m0: Store,
    m1: Store,
    tenant: Seq<char>,
    namespace: Seq<char>,
    node: NodeView,
    g: Result<crate::node::NodeInfo, RegistryError>,
)
    requires
        node_fits(node),
        add_result(m0, m1, tenant, namespace, node, Ok(())),
        get_result(m1, tenant, namespace, node.id, g),
        g != Err::<crate::node::NodeInfo, RegistryError>(RegistryError::Store),
    ensures
        g matches Ok(x) && x@ == node,
{
    let k = key_of(tenant, namespace, node.id);
    assert(m1.contains_key(k) && m1[k].value == node_bytes(node));
    reveal(is_record);
    reveal(stores);
    assert(stores(m1[k].value, node));
    assert(is_record(m1[k].value));
    let x = g->Ok_0;
    lemma_stored_node_reads_back(m1[k].value, node, x@);
}

/// Every node key lies under the scan prefix of its namespace.
pub proof fn lemma_key_under_prefix(tenant: Seq<char>, namespace: Seq<char>, node_id: Seq<char>)
    ensures
        has_prefix(
            key_of(tenant, namespace, node_id),
            namespace_prefix_of(encode_utf8(tenant), encode_utf8(namespace)),
        ),
{
    let p = namespace_prefix_of(encode_utf8(tenant), encode_utf8(namespace));
    let k = key_of(tenant, namespace, node_id);
    assert(k.subrange(0, p.len() as int) =~= p);
}

/// Adding two nodes to a namespace that holds none and then listing it
/// gives exactly those two nodes, each once, with nothing skipped.
pub proof fn lemma_list_after_adds(
    m0: Store,
    m1: Store,
    m2: Store,
    tenant: Seq<char>,
    namespace: Seq<char>,
    n1: NodeView,
    n2: NodeView,
    r: Result<(Vec<crate::node::NodeInfo>, usize), RegistryError>,
)
    requires
        node_fits(n1),
        node_fits(n2),
        n1.id != n2.id,
        forall|k: Seq<u8>|
            #[trigger] m0.contains_key(k) ==> !has_prefix(
                k,
                namespace_prefix_of(encode_utf8(tenant), encode_utf8(namespace)),
            ),
        add_result(m0, m1, tenant, namespace, n1, Ok(())),
        add_result(m1, m2, tenant, namespace, n2, Ok(())),
        list_result(m2, tenant, namespace, r),
        r != Err::<(Vec<crate::node::NodeInfo>, usize), RegistryError>(RegistryError::Store),
    ensures
        r matches Ok(res) && res.1 == 0 && res.0@.len() == 2 && (res.0@[0]@ == n1 && res.0@[1]@
            == n2 || res.0@[0]@ == n2 && res.0@[1]@ == n1),
{
    reveal(is_record);
    reveal(stores);
    let p = namespace_prefix_of(encode_utf8(tenant), encode_utf8(namespace));
    let k1 = key_of(tenant, namespace, n1.id);
    let k2 = key_of(tenant, namespace, n2.id);
    lemma_key_under_prefix(tenant, namespace, n1.id);
    lemma_key_under_prefix(tenant, namespace, n2.id);
    crate::keys::lemma_node_key_injective(tenant, namespace, n1.id, n2.id);
    assert(k1 != k2);
    assert(m2.contains_key(k1) && m2[k1].value == node_bytes(n1));
    assert(m2.contains_key(k2) && m2[k2].value == node_bytes(n2));
    assert forall|k: Seq<u8>| #[trigger] m2.contains_key(k) && has_prefix(k, p) implies k == k1
        || k == k2 by {
        if k != k1 && k != k2 {
            assert(m0.contains_key(k));
        }
    }
    let res = r->Ok_0;
    let ks = choose|ks: Seq<Seq<u8>>|
        #![trigger scan_keys(m2, p, ks)]
        scan_keys(m2, p, ks) && decodes_records(values_at(m2, ks), res.0@) && res.1
            == corrupt_count(values_at(m2, ks));
    assert(ks.contains(k1));
    assert(ks.contains(k2));
    let i1 = choose|i: int| 0 <= i < ks.len() && ks[i] == k1;
    let i2 = choose|i: int| 0 <= i < ks.len() && ks[i] == k2;
    assert(ks.len() >= 2);
    if ks.len() > 2 {
        assert(ks[0] == k1 || ks[0] == k2);
        assert(ks[1] == k1 || ks[1] == k2);
        assert(ks[2] == k1 || ks[2] == k2);
        assert(ks[0] != ks[1] && ks[0] != ks[2] && ks[1] != ks[2]);
    }
    assert(ks.len() == 2);
    let vals = values_at(m2, ks);
    assert(ks[0] == k1 && ks[1] == k2 || ks[0] == k2 && ks[1] == k1);
    assert(stores(m2[k1].value, n1));
    assert(stores(m2[k2].value, n2));
    assert(is_record(vals[0]) && is_record(vals[1]));
    let d = vals.drop_last();
    assert(d.len() == 1 && d.last() == vals[0]);
    assert(d.drop_last().len() == 0);
    assert(record_values(d.drop_last()) =~= Seq::<Seq<u8>>::empty());
    assert(corrupt_count(d.drop_last()) == 0);
    assert(corrupt_count(d) == 0);
    assert(record_values(vals.drop_last()) =~= seq![vals[0]]);
    assert(record_values(vals) =~= seq![vals[0], vals[1]]);
    assert(corrupt_count(vals) == 0);
    if ks[0] == k1 {
        lemma_stored_node_reads_back(vals[0], n1, res.0@[0]@);
        lemma_stored_node_reads_back(vals[1], n2, res.0@[1]@);
    } else {
        lemma_stored_node_reads_back(vals[0], n2, res.0@[0]@);
        lemma_stored_node_reads_back(vals[1], n1, res.0@[1]@);
    }
}

} // verus!
