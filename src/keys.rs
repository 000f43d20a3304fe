use vstd::prelude::*;
use vstd::slice::slice_subrange;
use vstd::slice::slice_to_vec;
use vstd::utf8::encode_utf8;
use vstd::utf8::encode_utf8_decode_utf8;
use vstd::utf8::encode_utf8_valid_utf8;
use vstd::utf8::valid_utf8;

use crate::error::RegistryError;

verus! {

/// The byte that separates the components of a registry key (`/`).
pub const SEPARATOR: u8 = 47;

/// The constant first component of every registry key: `__fd_namespaces`.
pub open spec fn key_prefix() -> Seq<u8> {
    seq![95u8, 95, 102, 100, 95, 110, 97, 109, 101, 115, 112, 97, 99, 101, 115]
}

/// An identifier component may not hold the separator byte.
pub open spec fn is_ident(s: Seq<u8>) -> bool {
    forall|i: int| 0 <= i < s.len() ==> s[i] != SEPARATOR
}

/// The key under which every node key of a namespace starts.
pub open spec fn namespace_prefix_of(tenant: Seq<u8>, namespace: Seq<u8>) -> Seq<u8> {
    key_prefix() + seq![SEPARATOR] + tenant + seq![SEPARATOR] + namespace + seq![SEPARATOR]
}

/// The canonical key of one node record.
pub open spec fn node_key_of(tenant: Seq<u8>, namespace: Seq<u8>, node_id: Seq<u8>) -> Seq<u8> {
    namespace_prefix_of(tenant, namespace) + node_id
}

/// `key` is the node key of the three identifiers, each free of the separator.
pub open spec fn is_node_key(key: Seq<u8>, tenant: Seq<char>, namespace: Seq<char>, node_id: Seq<char>) -> bool {
    &&& is_ident(encode_utf8(tenant))
    &&& is_ident(encode_utf8(namespace))
    &&& is_ident(encode_utf8(node_id))
    &&& key == node_key_of(encode_utf8(tenant), encode_utf8(namespace), encode_utf8(node_id))
}

/// Relies on `String::from_utf8`: it accepts exactly the valid UTF-8 byte
/// sequences, and the string it builds holds those bytes.
#[verifier::external_body]
pub(crate) fn string_from_utf8(bytes: Vec<u8>) -> (r: Option<String>)
    ensures
        r is Some <==> valid_utf8(bytes@),
        r matches Some(s) ==> encode_utf8(s@) == bytes@,
{
    String::from_utf8(bytes).ok()
}

fn key_prefix_bytes() -> (r: Vec<u8>)
    ensures
        r@ == key_prefix(),
{
    let r: Vec<u8> = vec![95u8, 95, 102, 100, 95, 110, 97, 109, 101, 115, 112, 97, 99, 101, 115];
    assert(r@ =~= key_prefix());
    r
}

/// Whether the bytes hold no separator.
pub fn is_identifier(b: &[u8]) -> (r: bool)
    ensures
        r == is_ident(b@),
{
    let mut i: usize = 0;
    while i < b.len()
        invariant
            0 <= i <= b@.len(),
            forall|j: int| 0 <= j < i ==> b@[j] != SEPARATOR,
        decreases b@.len() - i,
    {
        if b[i] == SEPARATOR {
            return false;
        }
        i = i + 1;
    }
    true
}

/// The first position at or after `start` that holds the separator.
fn find_separator(b: &[u8], start: usize) -> (r: Option<usize>)
    requires
        start <= b@.len(),
    ensures
        r matches Some(p) ==> start <= p < b@.len() && b@[p as int] == SEPARATOR
            && forall|j: int| start <= j < p ==> b@[j] != SEPARATOR,
        r is None ==> forall|j: int| start <= j < b@.len() ==> b@[j] != SEPARATOR,
{
    let mut i: usize = start;
    while i < b.len()
        invariant
            start <= i <= b@.len(),
            forall|j: int| start <= j < i ==> b@[j] != SEPARATOR,
        decreases b@.len() - i,
    {
        if b[i] == SEPARATOR {
            return Some(i);
        }
        i = i + 1;
    }
    None
}

fn push_bytes(out: &mut Vec<u8>, b: &[u8])
    ensures
        final(out)@ == old(out)@ + b@,
{
    let mut tail = slice_to_vec(b);
    out.append(&mut tail);
}

/// The scan prefix of a namespace: every node key in it starts with this.
pub fn namespace_prefix(tenant: &str, namespace: &str) -> (r: Result<Vec<u8>, RegistryError>)
    ensures
        r is Ok <==> is_ident(encode_utf8(tenant@)) && is_ident(encode_utf8(namespace@)),
        r matches Ok(k) ==> k@ == namespace_prefix_of(encode_utf8(tenant@), encode_utf8(namespace@)),
        r matches Err(e) ==> e == RegistryError::InvalidIdentifier,
{
    let t = tenant.as_bytes();
    let n = namespace.as_bytes();
    if !is_identifier(t) || !is_identifier(n) {
        return Err(RegistryError::InvalidIdentifier);
    }
    let mut k = key_prefix_bytes();
    k.push(SEPARATOR);
    push_bytes(&mut k, t);
    k.push(SEPARATOR);
    push_bytes(&mut k, n);
    k.push(SEPARATOR);
    Ok(k)
}

/// The key of node `node_id` in the namespace of the tenant.
pub fn encode_key(tenant: &str, namespace: &str, node_id: &str) -> (r: Result<Vec<u8>, RegistryError>)
    ensures
        r is Ok <==> is_ident(encode_utf8(tenant@)) && is_ident(encode_utf8(namespace@))
            && is_ident(encode_utf8(node_id@)),
        r matches Ok(k) ==> k@ == node_key_of(
            encode_utf8(tenant@),
            encode_utf8(namespace@),
            encode_utf8(node_id@),
        ),
        r matches Err(e) ==> e == RegistryError::InvalidIdentifier,
{
    let i = node_id.as_bytes();
    if !is_identifier(i) {
        return Err(RegistryError::InvalidIdentifier);
    }
    let mut k = namespace_prefix(tenant, namespace)?;
    push_bytes(&mut k, i);
    Ok(k)
}

/// Where the separators of a node key stand, and what lies between them.
proof fn lemma_node_key_layout(k: Seq<u8>, t: Seq<u8>, n: Seq<u8>, i: Seq<u8>)
    requires
        is_ident(t),
        is_ident(n),
        is_ident(i),
        k == node_key_of(t, n, i),
    ensures
        k.len() == 18 + t.len() as int + n.len() as int + i.len() as int,
        k.subrange(0, 15) == key_prefix(),
        k[15] == SEPARATOR,
        k[16 + t.len() as int] == SEPARATOR,
        k[17 + t.len() as int + n.len() as int] == SEPARATOR,
        forall|j: int| 16 <= j < 16 + t.len() as int ==> k[j] != SEPARATOR,
        forall|j: int| 17 + t.len() as int <= j < 17 + t.len() as int + n.len() as int ==> k[j] != SEPARATOR,
        forall|j: int| 18 + t.len() as int + n.len() as int <= j < k.len() ==> k[j] != SEPARATOR,
        t == k.subrange(16, 16 + t.len() as int),
        n == k.subrange(17 + t.len() as int, 17 + t.len() as int + n.len() as int),
        i == k.subrange(18 + t.len() as int + n.len() as int, k.len() as int),
{
    assert(k.subrange(0, 15) =~= key_prefix());
    assert(t =~= k.subrange(16, 16 + t.len() as int));
    assert(n =~= k.subrange(17 + t.len() as int, 17 + t.len() as int + n.len() as int));
    assert(i =~= k.subrange(18 + t.len() as int + n.len() as int, k.len() as int));
    assert forall|j: int| 16 <= j < 16 + t.len() as int implies k[j] != SEPARATOR by {
        assert(k[j] == t[j - 16]);
    }
    assert forall|j: int| 17 + t.len() as int <= j < 17 + t.len() as int + n.len() as int implies k[j] != SEPARATOR by {
        assert(k[j] == n[j - 17 - t.len()]);
    }
    assert forall|j: int| 18 + t.len() as int + n.len() as int <= j < k.len() implies k[j] != SEPARATOR by {
        assert(k[j] == i[j - 18 - t.len() - n.len()]);
    }
}

/// A node key splits into its three byte components in one way only.
proof fn lemma_split_unique(t1: Seq<u8>, n1: Seq<u8>, i1: Seq<u8>, t2: Seq<u8>, n2: Seq<u8>, i2: Seq<u8>)
    requires
        is_ident(t1),
        is_ident(n1),
        is_ident(i1),
        is_ident(t2),
        is_ident(n2),
        is_ident(i2),
        node_key_of(t1, n1, i1) == node_key_of(t2, n2, i2),
    ensures
        t1 == t2,
        n1 == n2,
        i1 == i2,
{
    let k = node_key_of(t1, n1, i1);
    lemma_node_key_layout(k, t1, n1, i1);
    lemma_node_key_layout(k, t2, n2, i2);
    if t1.len() < t2.len() {
        assert(k[16 + t1.len() as int] == SEPARATOR);
    } else if t1.len() > t2.len() {
        assert(k[16 + t2.len() as int] == SEPARATOR);
    }
    if n1.len() < n2.len() {
        assert(k[17 + t1.len() as int + n1.len() as int] == SEPARATOR);
    } else if n1.len() > n2.len() {
        assert(k[17 + t1.len() as int + n2.len() as int] == SEPARATOR);
    }
}

/// A node key names one triple of identifiers only.
pub proof fn lemma_node_key_unique(
    k: Seq<u8>,
    t1: Seq<char>,
    n1: Seq<char>,
    i1: Seq<char>,
    t2: Seq<char>,
    n2: Seq<char>,
    i2: Seq<char>,
)
    requires
        is_node_key(k, t1, n1, i1),
        is_node_key(k, t2, n2, i2),
    ensures
        t1 == t2 && n1 == n2 && i1 == i2,
{
    lemma_split_unique(
        encode_utf8(t1),
        encode_utf8(n1),
        encode_utf8(i1),
        encode_utf8(t2),
        encode_utf8(n2),
        encode_utf8(i2),
    );
    encode_utf8_decode_utf8(t1);
    encode_utf8_decode_utf8(t2);
    encode_utf8_decode_utf8(n1);
    encode_utf8_decode_utf8(n2);
    encode_utf8_decode_utf8(i1);
    encode_utf8_decode_utf8(i2);
}

/// `key` is the node key of three separator-free byte strings.
pub open spec fn is_split(key: Seq<u8>, t: Seq<u8>, n: Seq<u8>, i: Seq<u8>) -> bool {
    is_ident(t) && is_ident(n) && is_ident(i) && key == node_key_of(t, n, i)
}

/// Finds the two separators that close the tenant and the namespace.
#[verifier::rlimit(40)]
fn split_key(key: &[u8]) -> (r: Option<(usize, usize)>)
    ensures
        r is Some <==> exists|t: Seq<u8>, n: Seq<u8>, i: Seq<u8>| is_split(key@, t, n, i),
        r matches Some(p) ==> 16 <= p.0 < p.1 < key@.len() && is_split(
            key@,
            key@.subrange(16, p.0 as int),
            key@.subrange(p.0 + 1, p.1 as int),
            key@.subrange(p.1 + 1, key@.len() as int),
        ),
{
    let ghost k = key@;
    let ghost any = exists|t: Seq<u8>, n: Seq<u8>, i: Seq<u8>| is_split(k, t, n, i);
    let ghost mut w: (Seq<u8>, Seq<u8>, Seq<u8>) = (seq![], seq![], seq![]);
    proof {
        if any {
            let (t, n, i) = choose|t: Seq<u8>, n: Seq<u8>, i: Seq<u8>| is_split(k, t, n, i);
            w = (t, n, i);
        }
    }
    assert(any ==> is_split(k, w.0, w.1, w.2));
    proof {
        if any {
            lemma_node_key_layout(k, w.0, w.1, w.2);
        }
    }
    let plen: usize = 15;
    if key.len() <= plen {
        return None;
    }
    let pre = key_prefix_bytes();
    let mut j: usize = 0;
    while j < plen
        invariant
            j <= plen,
            plen == 15,
            k == key@,
            key@.len() > plen,
            pre@ == key_prefix(),
            forall|m: int| 0 <= m < j ==> key@[m] == pre@[m],
        decreases plen - j,
    {
        if key[j] != pre[j] {
            proof {
                if any {
                    assert(k.subrange(0, 15)[j as int] == k[j as int]);
                }
            }
            return None;
        }
        j = j + 1;
    }
    assert(k.subrange(0, 15) =~= key_prefix());
    if key[plen] != SEPARATOR {
        return None;
    }
    let p1 = match find_separator(key, plen + 1) {
        Some(p) => p,
        None => {
            proof {
                if any {
                    assert(k[16 + w.0.len() as int] == SEPARATOR);
                }
            }
            return None;
        },
    };
    assert(any ==> p1 == 16 + w.0.len()) by {
        if any {
            if p1 < 16 + w.0.len() {
                assert(k[p1 as int] != SEPARATOR);
            } else if p1 > 16 + w.0.len() {
                assert(k[16 + w.0.len() as int] == SEPARATOR);
            }
        }
    }
    let p2 = match find_separator(key, p1 + 1) {
        Some(p) => p,
        None => {
            proof {
                if any {
                    assert(k[17 + w.0.len() + w.1.len() as int] == SEPARATOR);
                }
            }
            return None;
        },
    };
    assert(any ==> p2 == 17 + w.0.len() + w.1.len()) by {
        if any {
            if p2 < 17 + w.0.len() + w.1.len() {
                assert(k[p2 as int] != SEPARATOR);
            } else if p2 > 17 + w.0.len() + w.1.len() {
                assert(k[17 + w.0.len() + w.1.len() as int] == SEPARATOR);
            }
        }
    }
    match find_separator(key, p2 + 1) {
        Some(p) => {
            proof {
                if any {
                    assert(k[p as int] != SEPARATOR);
                }
            }
            None
        },
        None => {
            let ghost t = k.subrange(16, p1 as int);
            let ghost n = k.subrange(p1 + 1, p2 as int);
            let ghost i = k.subrange(p2 + 1, k.len() as int);
            assert(k =~= node_key_of(t, n, i));
            assert(is_split(k, t, n, i));
            Some((p1, p2))
        },
    }
}

/// Parses a node key back into tenant, namespace and node id.
pub fn decode_key(key: &[u8]) -> (r: Result<(String, String, String), RegistryError>)
    ensures
        r is Ok <==> exists|t: Seq<char>, n: Seq<char>, i: Seq<char>| is_node_key(key@, t, n, i),
        r matches Ok(parts) ==> is_node_key(key@, parts.0@, parts.1@, parts.2@),
        r matches Err(e) ==> e == RegistryError::InvalidIdentifier,
{
    broadcast use encode_utf8_valid_utf8;

    let ghost k = key@;
    let ghost any = exists|t: Seq<char>, n: Seq<char>, i: Seq<char>| is_node_key(k, t, n, i);
    let ghost mut w: (Seq<char>, Seq<char>, Seq<char>) = (seq![], seq![], seq![]);
    proof {
        if any {
            let (t, n, i) = choose|t: Seq<char>, n: Seq<char>, i: Seq<char>| is_node_key(k, t, n, i);
            w = (t, n, i);
            assert(is_split(k, encode_utf8(t), encode_utf8(n), encode_utf8(i)));
        }
    }
    let p = match split_key(key) {
        Some(p) => p,
        None => {
            return Err(RegistryError::InvalidIdentifier);
        },
    };
    let p1 = p.0;
    let p2 = p.1;
    let klen = key.len();
    assert(p2 < klen);
    let tb = slice_to_vec(slice_subrange(key, 16, p1));
    let nb = slice_to_vec(slice_subrange(key, p1 + 1, p2));
    let ib = slice_to_vec(slice_subrange(key, p2 + 1, klen));
    proof {
        if any {
            lemma_split_unique(
                tb@,
                nb@,
                ib@,
                encode_utf8(w.0),
                encode_utf8(w.1),
                encode_utf8(w.2),
            );
            assert(valid_utf8(encode_utf8(w.0)));
            assert(valid_utf8(encode_utf8(w.1)));
            assert(valid_utf8(encode_utf8(w.2)));
        }
    }
    let ts = match string_from_utf8(tb) {
        Some(s) => s,
        None => {
            return Err(RegistryError::InvalidIdentifier);
        },
    };
    let ns = match string_from_utf8(nb) {
        Some(s) => s,
        None => {
            return Err(RegistryError::InvalidIdentifier);
        },
    };
    let is = match string_from_utf8(ib) {
        Some(s) => s,
        None => {
            return Err(RegistryError::InvalidIdentifier);
        },
    };
    assert(is_node_key(k, ts@, ns@, is@));
    Ok((ts, ns, is))
}

/// Decoding the key of three separator-free identifiers gives them back.
pub proof fn lemma_key_round_trip(tenant: Seq<char>, namespace: Seq<char>, node_id: Seq<char>)
    requires
        is_ident(encode_utf8(tenant)),
        is_ident(encode_utf8(namespace)),
        is_ident(encode_utf8(node_id)),
    ensures
        ({
            let k = node_key_of(encode_utf8(tenant), encode_utf8(namespace), encode_utf8(node_id));
            &&& is_node_key(k, tenant, namespace, node_id)
            &&& forall|t: Seq<char>, n: Seq<char>, i: Seq<char>|
                #[trigger] is_node_key(k, t, n, i) ==> t == tenant && n == namespace && i == node_id
        }),
{
    let k = node_key_of(encode_utf8(tenant), encode_utf8(namespace), encode_utf8(node_id));
    assert forall|t: Seq<char>, n: Seq<char>, i: Seq<char>|
        #[trigger] is_node_key(k, t, n, i) implies t == tenant && n == namespace && i == node_id by {
        lemma_node_key_unique(k, t, n, i, tenant, namespace, node_id);
    }
}

/// Distinct node ids of one namespace have distinct keys.
pub proof fn lemma_node_key_injective(tenant: Seq<char>, namespace: Seq<char>, a: Seq<char>, b: Seq<char>)
    requires
        is_ident(encode_utf8(tenant)),
        is_ident(encode_utf8(namespace)),
        is_ident(encode_utf8(a)),
        is_ident(encode_utf8(b)),
        a != b,
    ensures
        node_key_of(encode_utf8(tenant), encode_utf8(namespace), encode_utf8(a)) != node_key_of(
            encode_utf8(tenant),
            encode_utf8(namespace),
            encode_utf8(b),
        ),
{
    let k = node_key_of(encode_utf8(tenant), encode_utf8(namespace), encode_utf8(a));
    if k == node_key_of(encode_utf8(tenant), encode_utf8(namespace), encode_utf8(b)) {
        lemma_node_key_unique(k, tenant, namespace, a, tenant, namespace, b);
    }
}

} // verus!
