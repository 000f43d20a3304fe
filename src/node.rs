use vstd::bytes::lemma_auto_spec_u32_to_from_le_bytes;
use vstd::bytes::lemma_auto_spec_u64_to_from_le_bytes;
use vstd::bytes::spec_u32_from_le_bytes;
use vstd::bytes::spec_u32_to_le_bytes;
use vstd::bytes::spec_u64_from_le_bytes;
use vstd::bytes::spec_u64_to_le_bytes;
use vstd::bytes::u32_from_le_bytes;
use vstd::bytes::u32_to_le_bytes;
use vstd::bytes::u64_from_le_bytes;
use vstd::bytes::u64_to_le_bytes;
use vstd::prelude::*;
use vstd::slice::slice_subrange;
use vstd::slice::slice_to_vec;
use vstd::utf8::encode_utf8;
use vstd::utf8::encode_utf8_decode_utf8;
use vstd::utf8::encode_utf8_valid_utf8;

use crate::error::RegistryError;
use crate::keys::string_from_utf8;

verus! {

/// One compute node of a namespace.
#[derive(Debug, Clone)]
pub struct NodeInfo {
    pub id: String,
    pub cpu_nums: u64,
    pub version: u32,
    pub ip: String,
    pub port: u32,
}

/// The value of a `NodeInfo`, with its strings as character sequences.
pub struct NodeView {
    pub id: Seq<char>,
    pub cpu_nums: u64,
    pub version: u32,
    pub ip: Seq<char>,
    pub port: u32,
}

impl View for NodeInfo {
    type V = NodeView;

    open spec fn view(&self) -> NodeView {
        NodeView {
            id: self.id@,
            cpu_nums: self.cpu_nums,
            version: self.version,
            ip: self.ip@,
            port: self.port,
        }
    }
}

impl PartialEq for NodeInfo {
    fn eq(&self, o: &NodeInfo) -> (r: bool)
        ensures
            r == (self@ == o@),
    {
        self.id == o.id && self.cpu_nums == o.cpu_nums && self.version == o.version && self.ip
            == o.ip && self.port == o.port
    }
}

impl vstd::std_specs::cmp::PartialEqSpecImpl for NodeInfo {
    open spec fn obeys_eq_spec() -> bool {
        true
    }

    open spec fn eq_spec(&self, o: &NodeInfo) -> bool {
        self@ == o@
    }
}

/// Both strings of the node are short enough for their length to fit the
/// eight-byte length field.
pub open spec fn node_fits(v: NodeView) -> bool {
    encode_utf8(v.id).len() <= u64::MAX && encode_utf8(v.ip).len() <= u64::MAX
}

/// The stored form of a node: each string as its UTF-8 bytes after its
/// length, each integer little-endian, in field order.
#[verifier::opaque]
pub open spec fn node_bytes(v: NodeView) -> Seq<u8> {
    let id = encode_utf8(v.id);
    let ip = encode_utf8(v.ip);
    spec_u64_to_le_bytes(id.len() as u64) + id + spec_u64_to_le_bytes(v.cpu_nums)
        + spec_u32_to_le_bytes(v.version) + spec_u64_to_le_bytes(ip.len() as u64) + ip
        + spec_u32_to_le_bytes(v.port)
}

/// `b` is the stored form of the node `v`.
#[verifier::opaque]
pub open spec fn stores(b: Seq<u8>, v: NodeView) -> bool {
    node_fits(v) && b == node_bytes(v)
}

/// The bytes are the stored form of some node.
#[verifier::opaque]
pub open spec fn is_record(b: Seq<u8>) -> bool {
    exists|v: NodeView| stores(b, v)
}

/// Where each field lies in the stored form of a node.
proof fn lemma_node_layout(v: NodeView)
    requires
        node_fits(v),
    ensures
        ({
            let s = node_bytes(v);
            let id = encode_utf8(v.id);
            let ip = encode_utf8(v.ip);
            let a: int = id.len() as int;
            let b: int = ip.len() as int;
            &&& s.len() == 32 + a + b
            &&& s.subrange(0, 8) == spec_u64_to_le_bytes(a as u64)
            &&& s.subrange(8, 8 + a) == id
            &&& s.subrange(8 + a, 16 + a) == spec_u64_to_le_bytes(v.cpu_nums)
            &&& s.subrange(16 + a, 20 + a) == spec_u32_to_le_bytes(v.version)
            &&& s.subrange(20 + a, 28 + a) == spec_u64_to_le_bytes(b as u64)
            &&& s.subrange(28 + a, 28 + a + b) == ip
            &&& s.subrange(28 + a + b, 32 + a + b) == spec_u32_to_le_bytes(v.port)
        }),
{
    reveal(node_bytes);
    lemma_auto_spec_u64_to_from_le_bytes();
    lemma_auto_spec_u32_to_from_le_bytes();
    let s = node_bytes(v);
    let id = encode_utf8(v.id);
    let ip = encode_utf8(v.ip);
    let a: int = id.len() as int;
    let b: int = ip.len() as int;
    assert(s.subrange(0, 8) =~= spec_u64_to_le_bytes(a as u64));
    assert(s.subrange(8, 8 + a) =~= id);
    assert(s.subrange(8 + a, 16 + a) =~= spec_u64_to_le_bytes(v.cpu_nums));
    assert(s.subrange(16 + a, 20 + a) =~= spec_u32_to_le_bytes(v.version));
    assert(s.subrange(20 + a, 28 + a) =~= spec_u64_to_le_bytes(b as u64));
    assert(s.subrange(28 + a, 28 + a + b) =~= ip);
    assert(s.subrange(28 + a + b, 32 + a + b) =~= spec_u32_to_le_bytes(v.port));
}

/// Two nodes with the same stored form are the same node.
pub proof fn lemma_node_bytes_injective(v: NodeView, w: NodeView)
    requires
        node_fits(v),
        node_fits(w),
        node_bytes(v) == node_bytes(w),
    ensures
        v == w,
{
    reveal(node_bytes);
    lemma_auto_spec_u64_to_from_le_bytes();
    lemma_auto_spec_u32_to_from_le_bytes();
    lemma_node_layout(v);
    lemma_node_layout(w);
    let s = node_bytes(v);
    let a = encode_utf8(v.id).len() as int;
    let b = encode_utf8(v.ip).len() as int;
    assert(spec_u64_from_le_bytes(s.subrange(0, 8)) == a);
    assert(encode_utf8(w.id).len() == a);
    assert(spec_u64_from_le_bytes(s.subrange(20 + a, 28 + a)) == b);
    assert(encode_utf8(w.ip).len() == b);
    encode_utf8_decode_utf8(v.id);
    encode_utf8_decode_utf8(w.id);
    encode_utf8_decode_utf8(v.ip);
    encode_utf8_decode_utf8(w.ip);
    assert(spec_u64_from_le_bytes(s.subrange(8 + a, 16 + a)) == v.cpu_nums);
    assert(spec_u32_from_le_bytes(s.subrange(16 + a, 20 + a)) == v.version);
    assert(spec_u32_from_le_bytes(s.subrange(28 + a + b, 32 + a + b)) == v.port);
}

/// The stored form of a node record.
pub fn encode_node(node: &NodeInfo) -> (r: Vec<u8>)
    ensures
        r@ == node_bytes(node@),
        node_fits(node@),
        stores(r@, node@),
{
    let id = node.id.as_str().as_bytes();
    let ip = node.ip.as_str().as_bytes();
    proof {
        reveal(node_bytes);
        reveal(stores);
    }
    let mut out = u64_to_le_bytes(id.len() as u64);
    out.append(&mut slice_to_vec(id));
    out.append(&mut u64_to_le_bytes(node.cpu_nums));
    out.append(&mut u32_to_le_bytes(node.version));
    out.append(&mut u64_to_le_bytes(ip.len() as u64));
    out.append(&mut slice_to_vec(ip));
    out.append(&mut u32_to_le_bytes(node.port));
    out
}

fn read_u64(b: &[u8], pos: usize) -> (r: Option<u64>)
    ensures
        r is Some <==> pos + 8 <= b@.len(),
        r matches Some(x) ==> x == spec_u64_from_le_bytes(b@.subrange(pos as int, pos + 8)),
{
    if pos > b.len() || b.len() - pos < 8 {
        None
    } else {
        Some(u64_from_le_bytes(slice_subrange(b, pos, pos + 8)))
    }
}

fn read_u32(b: &[u8], pos: usize) -> (r: Option<u32>)
    ensures
        r is Some <==> pos + 4 <= b@.len(),
        r matches Some(x) ==> x == spec_u32_from_le_bytes(b@.subrange(pos as int, pos + 4)),
{
    if pos > b.len() || b.len() - pos < 4 {
        None
    } else {
        Some(u32_from_le_bytes(slice_subrange(b, pos, pos + 4)))
    }
}

/// The string of `len` bytes at `pos`, if they are there and valid UTF-8.
fn read_str(b: &[u8], pos: usize, len: u64) -> (r: Option<String>)
    ensures
        r matches Some(s) ==> pos + len <= b@.len() && encode_utf8(s@) == b@.subrange(
            pos as int,
            pos + len,
        ),
        r is None ==> forall|s: Seq<char>|
            pos + len <= b@.len() ==> encode_utf8(s) != b@.subrange(pos as int, pos + len),
{
    broadcast use encode_utf8_valid_utf8;

    if pos > b.len() || ((b.len() - pos) as u64) < len {
        return None;
    }
    let end: usize = pos + len as usize;
    string_from_utf8(slice_to_vec(slice_subrange(b, pos, end)))
}

/// Parses the stored form of a node record.
#[verifier::rlimit(60)]
pub fn decode_node(bytes: &[u8]) -> (r: Result<NodeInfo, RegistryError>)
    ensures
        r is Ok <==> is_record(bytes@),
        r matches Ok(n) ==> node_fits(n@) && bytes@ == node_bytes(n@) && stores(bytes@, n@),
        r matches Err(e) ==> e == RegistryError::CorruptRecord,
{
    proof {
        reveal(is_record);
        reveal(stores);
        reveal(node_bytes);
        lemma_auto_spec_u64_to_from_le_bytes();
        lemma_auto_spec_u32_to_from_le_bytes();
    }
    let ghost s = bytes@;
    let ghost any = exists|v: NodeView| node_fits(v) && s == node_bytes(v);
    let ghost mut w: NodeView = NodeView { id: seq![], cpu_nums: 0, version: 0, ip: seq![], port: 0 };
    proof {
        if any {
            w = choose|v: NodeView| node_fits(v) && s == node_bytes(v);
            lemma_node_layout(w);
        }
    }
    proof {
        if is_record(s) {
            let v = choose|v: NodeView| stores(s, v);
            assert(node_fits(v) && s == node_bytes(v));
        }
        if any {
            assert(stores(s, w));
        }
    }
    let ghost ga = encode_utf8(w.id).len() as int;

    let ghost gb = encode_utf8(w.ip).len() as int;
    let la = match read_u64(bytes, 0) {
        Some(x) => x,
        None => {
            return Err(RegistryError::CorruptRecord);
        },
    };
    assert(any ==> la == ga);
    let id = match read_str(bytes, 8, la) {
        Some(x) => x,
        None => {
            return Err(RegistryError::CorruptRecord);
        },
    };
    let blen = bytes.len();
    assert(8 + la <= blen);
    let pa: usize = 8 + la as usize;
    let cpu_nums = match read_u64(bytes, pa) {
        Some(x) => x,
        None => {
            return Err(RegistryError::CorruptRecord);
        },
    };
    let version = match read_u32(bytes, pa + 8) {
        Some(x) => x,
        None => {
            return Err(RegistryError::CorruptRecord);
        },
    };
    let lb = match read_u64(bytes, pa + 12) {
        Some(x) => x,
        None => {
            return Err(RegistryError::CorruptRecord);
        },
    };
    assert(any ==> lb == gb);
    let ip = match read_str(bytes, pa + 20, lb) {
        Some(x) => x,
        None => {
            return Err(RegistryError::CorruptRecord);
        },
    };
    assert(pa + 20 + lb <= blen);
    let pb: usize = pa + 20 + lb as usize;
    let port = match read_u32(bytes, pb) {
        Some(x) => x,
        None => {
            return Err(RegistryError::CorruptRecord);
        },
    };
    if bytes.len() != pb + 4 {
        return Err(RegistryError::CorruptRecord);
    }
    let n = NodeInfo { id, cpu_nums, version, ip, port };
    proof {
        lemma_node_layout(n@);
        assert(s =~= node_bytes(n@));
    }
    Ok(n)
}

/// Decoding the stored form of a node gives the node back.
pub proof fn lemma_node_round_trip(v: NodeView)
    requires
        node_fits(v),
    ensures
        forall|w: NodeView| node_fits(w) && #[trigger] node_bytes(w) == node_bytes(v) ==> w == v,
{
    assert forall|w: NodeView| node_fits(w) && #[trigger] node_bytes(w) == node_bytes(v) implies w == v by {
        lemma_node_bytes_injective(w, v);
    }
}

} // verus!
