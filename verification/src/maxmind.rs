use crate::decode::spec_decode;
use crate::decode::MAX_NESTING;
use crate::node::lemma_node_inside;
use crate::node::node_size;
use crate::node::read_child;
use crate::node::spec_child;
use crate::node::spec_node_size;
use crate::node::spec_with_child;
use crate::node::valid_record_size;
use crate::node::write_child;
use crate::value::record_fields;
use crate::value::record_get;
use crate::value::Data;
use crate::value::Value;
use fxhash::FxHashMap;
use vstd::prelude::*;
use vstd::string::StringSliceAdditionalSpecFns;

verus! {

/// Why a database image was refused.
#[derive(Debug, Clone, Copy, PartialEq, Eq, Structural)]
pub enum DbError {
    /// The bytes do not follow the database format.
    MalformedDb,
}

/// What the trailer of a database says about its search tree.
#[derive(Debug)]
pub struct Metadata {
    pub node_count: u32,
    pub record_size: u16,
    pub data_section_start: usize,
}

/// A database image together with its metadata.
pub struct MaxmindDB {
    pub metadata: Metadata,
    pub data: Vec<u8>,
}

/// The search tree of a database after compaction.
pub struct ProcessedDb {
    pub node_count: u32,
    pub record_size: u16,
    pub db: Vec<u8>,
}

impl Default for Metadata {
    fn default() -> (m: Self)
        ensures
            m.node_count == 0,
            m.record_size == 0,
            m.data_section_start == 0,
    {
        Metadata { node_count: 0, record_size: 0, data_section_start: 0 }
    }
}

/// The fourteen bytes that stand before the metadata of a database.
pub const METADATA_SECTION_START: [u8; 14] = [
    0xab, 0xcd, 0xef, 0x4d, 0x61, 0x78, 0x4d, 0x69, 0x6e, 0x64, 0x2e, 0x63, 0x6f, 0x6d,
];

/// Whether the metadata marker stands at position `p` of `data`.
pub open spec fn marker_at(data: Seq<u8>, p: int) -> bool {
    &&& 0 <= p
    &&& p + 14 <= data.len()
    &&& data.subrange(p, p + 14) == METADATA_SECTION_START@
}

/// Whether `p` is the last position of `data` at which the metadata marker stands.
pub open spec fn last_marker_at(data: Seq<u8>, p: int) -> bool {
    &&& marker_at(data, p)
    &&& forall|q: int| p < q ==> !marker_at(data, q)
}

/// Whether the fourteen bytes from `p` on are the metadata marker.
fn is_marker(data: &[u8], p: usize) -> (found: bool)
    requires
        p + 14 <= data@.len(),
    ensures
        found == marker_at(data@, p as int),
{
    let mut i: usize = 0;
    let total: usize = data.len();
    while i < 14
        invariant
            i <= 14,
            p + 14 <= data@.len() == total,
            forall|j: int| 0 <= j < i ==> data@[p + j] == METADATA_SECTION_START@[j],
        decreases 14 - i,
    {
        if data[p + i] != METADATA_SECTION_START[i] {
            proof {
                assert(data@.subrange(p as int, p + 14)[i as int] == data@[p + i]);
            }
            return false;
        }
        i += 1;
    }
    proof {
        assert(data@.subrange(p as int, p + 14) =~= METADATA_SECTION_START@);
    }
    true
}

/// Finds where the metadata starts: right after the last metadata marker.
pub fn find_metadata(data: &[u8]) -> (start: Option<usize>)
    ensures
        match start {
            Some(at) => at >= 14 && last_marker_at(data@, at - 14),
            None => forall|p: int| !marker_at(data@, p),
        },
{
    let total: usize = data.len();
    if total < 14 {
        return None;
    }
    let mut p: usize = total - 14;
    loop
        invariant
            total == data@.len(),
            p + 14 <= total,
            forall|q: int| p < q ==> !marker_at(data@, q),
        decreases p,
    {
        if is_marker(data, p) {
            return Some(p + 14);
        }
        if p == 0 {
            return None;
        }
        p -= 1;
    }
}

/// An address to look up: the 32 bits of an IPv4 address or the 128 bits of an IPv6
/// address, most significant bit first.
#[derive(Debug, Clone, Copy, PartialEq, Eq, Structural)]
pub enum IpAddr {
    V4(u32),
    V6(u128),
}

/// Whether bit `index` of `ip` is set, bit 0 being the least significant.
pub open spec fn bit_of(ip: u128, index: nat) -> bool {
    (ip >> (index as u128)) & 1u128 == 1u128
}

/// The child pointer of node `node` in a tree whose nodes stand one after another
/// from the front of `image`.
pub open spec fn tree_child(image: Seq<u8>, record_size: u16, node: u32, right: bool) -> u32 {
    spec_child(node_bytes(image, record_size, node), right, record_size)
}

/// The bytes of node `node` in a tree whose nodes stand one after another from the
/// front of `image`.
pub open spec fn node_bytes(image: Seq<u8>, record_size: u16, node: u32) -> Seq<u8> {
    let size = spec_node_size(record_size) as int;
    image.subrange(node * size, node * size + size)
}

/// Where a descent ends that starts at `node` and follows the lowest `bits` bits of
/// `ip` from the most significant of them down: at each node below `node_count` it
/// takes the left child on a clear bit and the right child on a set bit.
pub open spec fn walk(
    image: Seq<u8>,
    record_size: u16,
    node_count: u32,
    node: u32,
    ip: u128,
    bits: nat,
) -> u32
    decreases bits,
{
    if bits == 0 || node >= node_count {
        node
    } else {
        walk(
            image,
            record_size,
            node_count,
            tree_child(image, record_size, node, bit_of(ip, (bits - 1) as nat)),
            ip,
            (bits - 1) as nat,
        )
    }
}

/// The key under which the metadata holds the record size.
pub open spec fn record_size_key() -> Seq<u8> {
    "record_size".spec_bytes()
}

/// The key under which the metadata holds the node count.
pub open spec fn node_count_key() -> Seq<u8> {
    "node_count".spec_bytes()
}

/// The record size and node count that the metadata map starting at `start` states,
/// if it states a tree that ends at least sixteen bytes before `start - 14`.
pub open spec fn spec_metadata_at(data: Seq<u8>, start: nat) -> Option<(u16, u32)> {
    match spec_decode(data, 0, start, MAX_NESTING as nat) {
        Some((Value::Mapping(fields), _)) => {
            if fields.contains_key(record_size_key()) && fields.contains_key(node_count_key()) {
                match (fields[record_size_key()], fields[node_count_key()]) {
                    (Value::U16(record_size), Value::U32(node_count)) => {
                        if valid_record_size(record_size) && spec_node_size(record_size)
                            * node_count + 16 + 14 <= start {
                            Some((record_size, node_count))
                        } else {
                            None
                        }
                    },
                    _ => None,
                }
            } else {
                None
            }
        },
        _ => None,
    }
}

/// The record size and node count of the database that `data` holds: those that the
/// map after the last metadata marker states.
pub open spec fn spec_metadata(data: Seq<u8>) -> Option<(u16, u32)> {
    if exists|p: int| marker_at(data, p) {
        spec_metadata_at(data, (choose|p: int| last_marker_at(data, p)) as nat + 14)
    } else {
        None
    }
}

/// There is one last metadata marker at most.
pub proof fn lemma_last_marker_unique(data: Seq<u8>, p: int)
    requires
        last_marker_at(data, p),
    ensures
        (exists|q: int| marker_at(data, q)),
        (choose|q: int| last_marker_at(data, q)) == p,
{
    let c = choose|q: int| last_marker_at(data, q);
    assert(last_marker_at(data, c));
    if c < p {
        assert(!marker_at(data, p));
    } else if p < c {
        assert(!marker_at(data, c));
    }
}

impl MaxmindDB {
    /// Whether the metadata describes a search tree that the data holds, followed by
    /// the sixteen bytes that part it from the data section.
    pub open spec fn wf(&self) -> bool {
        &&& valid_record_size(self.metadata.record_size)
        &&& self.metadata.data_section_start == spec_node_size(self.metadata.record_size)
            * self.metadata.node_count + 16
        &&& self.metadata.data_section_start <= self.data@.len()
    }

    /// Checks whether the metadata describes a search tree that the data holds.
    pub fn is_well_formed(&self) -> (ok: bool)
        ensures
            ok == self.wf(),
    {
        let record_size: u16 = self.metadata.record_size;
        if record_size != 24 && record_size != 28 {
            return false;
        }
        let size: u64 = node_size(record_size) as u64;
        assert(size * self.metadata.node_count <= 7 * 0xffff_ffff) by (nonlinear_arith)
            requires
                size <= 7,
                self.metadata.node_count <= 0xffff_ffff,
        ;
        let start: u64 = size * (self.metadata.node_count as u64) + 16;
        self.metadata.data_section_start as u64 == start && self.metadata.data_section_start
            <= self.data.len()
    }

    /// Where the walk for an address ends.  An IPv4 address starts at node 96 and
    /// follows its 32 bits; an IPv6 address starts at node 0 and follows its 128 bits.
    pub open spec fn spec_terminal(&self, addr: IpAddr) -> u32 {
        match addr {
            IpAddr::V4(a) => walk(
                self.data@,
                self.metadata.record_size,
                self.metadata.node_count,
                96,
                a as u128,
                32,
            ),
            IpAddr::V6(a) => walk(
                self.data@,
                self.metadata.record_size,
                self.metadata.node_count,
                0,
                a,
                128,
            ),
        }
    }

    /// The offset of the record that a child pointer above the node count names.
    pub open spec fn spec_record_offset(&self, child: u32) -> nat {
        (self.metadata.data_section_start + (child - self.metadata.node_count) - 16) as nat
    }

    /// The record that a child pointer above the node count names, if the bytes there
    /// spell a value.
    pub open spec fn spec_record(&self, child: u32) -> Option<Value> {
        match self.spec_read(self.spec_record_offset(child), MAX_NESTING as nat) {
            Some((value, _)) => Some(value),
            None => None,
        }
    }

    /// Reads a database: finds the last metadata marker, decodes the map behind it and
    /// takes the record size and the node count from it.  Refused are data without a
    /// marker or with metadata that is no map, lacks one of the two numbers, names a
    /// record size other than 24 and 28, or describes a tree that the data cannot hold.
    pub fn new(data: &[u8]) -> (outcome: Result<Self, DbError>)
        ensures
            match outcome {
                Ok(db) => db.data@ == data@ && db.wf() && spec_metadata(data@) == Some(
                    (db.metadata.record_size, db.metadata.node_count),
                ),
                Err(_) => spec_metadata(data@) is None,
            },
    {
        let metadata_start = match find_metadata(data) {
            Some(start) => start,
            None => {
                return Err(DbError::MalformedDb);
            },
        };
        proof {
            lemma_last_marker_unique(data@, metadata_start - 14);
        }
        let mut db = MaxmindDB { metadata: Metadata::default(), data: vstd::slice::slice_to_vec(data) };
        let m = match db.read_metadata(metadata_start) {
            Ok(m) => m,
            Err(e) => {
                return Err(e);
            },
        };
        let record_size: u16 = match record_get(&m, "record_size".as_bytes()) {
            Some(Data::U16(v)) => *v,
            _ => {
                return Err(DbError::MalformedDb);
            },
        };
        let node_count: u32 = match record_get(&m, "node_count".as_bytes()) {
            Some(Data::U32(v)) => *v,
            _ => {
                return Err(DbError::MalformedDb);
            },
        };
        if record_size != 24 && record_size != 28 {
            return Err(DbError::MalformedDb);
        }
        let size: u64 = node_size(record_size) as u64;
        assert(size * node_count <= 7 * 0xffff_ffff) by (nonlinear_arith)
            requires
                size <= 7,
                node_count <= 0xffff_ffff,
        ;
        let tree_len: u64 = size * (node_count as u64);
        if tree_len + 16 > (metadata_start - 14) as u64 {
            return Err(DbError::MalformedDb);
        }
        db.metadata = Metadata {
            data_section_start: (tree_len + 16) as usize,
            record_size,
            node_count,
        };
        Ok(db)
    }

    /// Decodes the metadata map that starts at `metadata_start`.
    fn read_metadata(&self, metadata_start: usize) -> (outcome: Result<
        FxHashMap<Vec<u8>, Data>,
        DbError,
    >)
        ensures
            match outcome {
                Ok(m) => self.spec_read(metadata_start as nat, MAX_NESTING as nat) matches Some(
                    (Value::Mapping(fields), _),
                ) && fields == record_fields(m),
                Err(_) => !(self.spec_read(metadata_start as nat, MAX_NESTING as nat) matches Some(
                    (Value::Mapping(_), _),
                )),
            },
    {
        match self.read_data(metadata_start) {
            Ok((Data::Mapping(map), _)) => Ok(map),
            _ => Err(DbError::MalformedDb),
        }
    }

    /// Reads one child pointer out of the bytes of a node: the left child when `bit`
    /// holds, which says that the address bit is clear, and the right child otherwise.
    pub fn node_from_bytes(n: &[u8], bit: bool, record_size: u16) -> (child: u32)
        requires
            valid_record_size(record_size),
            n@.len() >= spec_node_size(record_size),
        ensures
            child == spec_child(n@, !bit, record_size),
    {
        read_child(n, !bit, record_size)
    }

    /// Overwrites one child pointer in the bytes of a node with the low `record_size`
    /// bits of `val`: the left child for a `bit` of 0, the right child for a `bit` of 1.
    pub fn write_over_node_bytes(n: &mut [u8], bit: u128, record_size: u16, val: u32)
        requires
            bit <= 1,
            valid_record_size(record_size),
            old(n)@.len() >= spec_node_size(record_size),
        ensures
            final(n)@ == spec_with_child(old(n)@, bit == 1, record_size, val),
    {
        write_child(n, bit == 1, record_size, val);
    }

    /// Looks an address up: walks the search tree and decodes the record that the walk
    /// ends at.  A walk that ends at the node count finds no record.  A walk that has
    /// used up the address inside the tree, or a record that cannot be decoded, is
    /// refused.
    pub fn lookup(&self, addr: IpAddr) -> (outcome: Result<Option<Data>, DbError>)
        requires
            self.wf(),
        ensures
            match outcome {
                Ok(None) => self.spec_terminal(addr) == self.metadata.node_count,
                Ok(Some(data)) => self.spec_terminal(addr) > self.metadata.node_count
                    && self.spec_record(self.spec_terminal(addr)) == Some(data.model()),
                Err(_) => self.spec_terminal(addr) < self.metadata.node_count || (
                self.spec_terminal(addr) > self.metadata.node_count && self.spec_record(
                    self.spec_terminal(addr),
                ) is None),
            },
    {
        let record_size: u16 = self.metadata.record_size;
        let node_count: u32 = self.metadata.node_count;
        let size: usize = node_size(record_size);
        let (start, ip, width): (u32, u128, u32) = match addr {
            IpAddr::V4(a) => (96, a as u128, 32),
            IpAddr::V6(a) => (0, a, 128),
        };
        let mut node: u32 = start;
        let mut bits: u32 = width;
        let total: usize = self.data.len();
        while bits > 0 && node < node_count
            invariant
                self.wf(),
                record_size == self.metadata.record_size,
                node_count == self.metadata.node_count,
                size == spec_node_size(record_size),
                total == self.data@.len(),
                bits <= 128,
                walk(self.data@, record_size, node_count, start, ip, width as nat) == walk(
                    self.data@,
                    record_size,
                    node_count,
                    node,
                    ip,
                    bits as nat,
                ),
            decreases bits,
        {
            let right: bool = (ip >> ((bits - 1) as u128)) & 1u128 == 1u128;
            proof {
                lemma_node_inside(node as int, node_count as int, size as int);
                assert(node * size + size <= self.data@.len());
            }
            let at: usize = node as usize * size;
            let n: &[u8] = &self.data.as_slice()[at..at + size];
            node = read_child(n, right, record_size);
            bits -= 1;
        }
        if node == node_count {
            Ok(None)
        } else if node < node_count {
            Err(DbError::MalformedDb)
        } else {
            let below: usize = self.metadata.data_section_start - 16;
            let offset: u32 = node - node_count;
            if offset as u64 >= (total - below) as u64 {
                proof {
                    assert(self.spec_record_offset(node) >= self.data@.len());
                }
                return Err(DbError::MalformedDb);
            }
            match self.read_data(below + offset as usize) {
                Ok((data, _)) => Ok(Some(data)),
                Err(e) => Err(e),
            }
        }
    }
}

} // verus!
