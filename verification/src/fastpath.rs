use crate::common::MaxmindDbType;
use crate::common::ParameterTable;
use crate::maxmind::bit_of;
use crate::maxmind::node_bytes;
use crate::maxmind::tree_child;
use crate::maxmind::walk;
use crate::maxmind::IpAddr;
use crate::node::node_from_bytes;
use crate::node::node_size;
use crate::node::spec_child;
use crate::node::spec_node_size;
use crate::node::valid_record_size;
use crate::node::BLOCK_MARKER;
use vstd::prelude::*;

verus! {

/// The number of address bits that a descent follows at most.
pub const MAX_STEPS: u32 = 128;

/// How a descent through an image ended.
#[derive(Debug, Clone, Copy, PartialEq, Eq, Structural)]
pub struct Descent {
    /// The value at which the descent stopped, unless a node lay outside the image.
    pub node: Option<u32>,
    /// The number of nodes read.
    pub reads: u32,
}

/// The 128 bits that the fast path walks for an address: an IPv6 address as it is, an
/// IPv4 address in the low 32 bits below 96 clear bits.
pub open spec fn spec_widen(addr: IpAddr) -> u128 {
    match addr {
        IpAddr::V4(a) => a as u128,
        IpAddr::V6(a) => a,
    }
}

/// Whether node `node` lies inside the image.
pub open spec fn node_present(image: Seq<u8>, record_size: u16, node: u32) -> bool {
    (node + 1) * spec_node_size(record_size) <= image.len()
}

/// Where a descent ends that starts at `node` and follows the lowest `bits` bits of
/// `ip` from the most significant of them down, and how many nodes it reads.  It stops
/// at a value that is no node, when the bits are used up, and, without a value, at a
/// node that lies outside the image.
pub open spec fn spec_descend(
    image: Seq<u8>,
    record_size: u16,
    node_count: u32,
    node: u32,
    ip: u128,
    bits: nat,
) -> (Option<u32>, nat)
    decreases bits,
{
    if bits == 0 || node >= node_count {
        (Some(node), 0)
    } else if !node_present(image, record_size, node) {
        (None, 0)
    } else {
        let rest = spec_descend(
            image,
            record_size,
            node_count,
            tree_child(image, record_size, node, bit_of(ip, (bits - 1) as nat)),
            ip,
            (bits - 1) as nat,
        );
        (rest.0, rest.1 + 1)
    }
}

/// What the fast path decides for an address: to block it if both parameters of the
/// database kind are there, the record size is one that exists, and the descent from
/// node 0 over the 128 bits of the widened address ends at the marker.
pub open spec fn spec_should_block(
    parameters: Map<u8, u32>,
    db_name: MaxmindDbType,
    image: Seq<u8>,
    addr: IpAddr,
) -> bool {
    let size_key = db_name.spec_record_size_entry().spec_key();
    let count_key = db_name.spec_node_count_entry().spec_key();
    &&& parameters.contains_key(size_key)
    &&& parameters.contains_key(count_key)
    &&& (parameters[size_key] == 24 || parameters[size_key] == 28)
    &&& spec_descend(
        image,
        parameters[size_key] as u16,
        parameters[count_key],
        0,
        spec_widen(addr),
        MAX_STEPS as nat,
    ).0 == Some(BLOCK_MARKER)
}

/// A descent reads one node per address bit at most.
pub proof fn lemma_descent_bounded(
    image: Seq<u8>,
    record_size: u16,
    node_count: u32,
    node: u32,
    ip: u128,
    bits: nat,
)
    ensures
        spec_descend(image, record_size, node_count, node, ip, bits).1 <= bits,
    decreases bits,
{
    if bits > 0 && node < node_count && node_present(image, record_size, node) {
        lemma_descent_bounded(
            image,
            record_size,
            node_count,
            tree_child(image, record_size, node, bit_of(ip, (bits - 1) as nat)),
            ip,
            (bits - 1) as nat,
        );
    }
}

/// In an image that holds every node, a descent ends where the walk ends.
pub proof fn lemma_descent_is_walk(
    image: Seq<u8>,
    record_size: u16,
    node_count: u32,
    node: u32,
    ip: u128,
    bits: nat,
)
    requires
        spec_node_size(record_size) * node_count <= image.len(),
    ensures
        spec_descend(image, record_size, node_count, node, ip, bits).0 == Some(
            walk(image, record_size, node_count, node, ip, bits),
        ),
    decreases bits,
{
    if bits > 0 && node < node_count {
        assert((node + 1) * spec_node_size(record_size) <= spec_node_size(record_size)
            * node_count) by (nonlinear_arith)
            requires
                node < node_count,
        ;
        lemma_descent_is_walk(
            image,
            record_size,
            node_count,
            tree_child(image, record_size, node, bit_of(ip, (bits - 1) as nat)),
            ip,
            (bits - 1) as nat,
        );
    }
}

/// A descent in progress.  It holds the decisions of the fast path and leaves the
/// reading to its caller: it says which node it wants next, takes the bytes of that
/// node, and says in the end whether the address is blocked.
#[derive(Debug, Clone, Copy, PartialEq, Eq, Structural)]
pub struct Walker {
    pub record_size: u16,
    pub node_count: u32,
    pub ip: u128,
    pub node: u32,
    pub steps: u32,
}

impl Walker {
    /// Whether the walker is one that `start` and `feed` make.
    pub open spec fn wf(&self) -> bool {
        &&& valid_record_size(self.record_size)
        &&& self.steps <= MAX_STEPS
        &&& self.node < 0x1000_0000
    }

    /// How the rest of the descent ends on an image, and how many nodes it reads.
    pub open spec fn rest(&self, image: Seq<u8>) -> (Option<u32>, nat) {
        spec_descend(
            image,
            self.record_size,
            self.node_count,
            self.node,
            self.ip,
            (MAX_STEPS - self.steps) as nat,
        )
    }

    /// The offset of the node that the descent reads next, if it goes on.
    pub open spec fn spec_wanted(&self) -> Option<u32> {
        if self.steps < MAX_STEPS && self.node < self.node_count {
            Some((self.node * spec_node_size(self.record_size)) as u32)
        } else {
            None
        }
    }

    /// The walker after it has been given the bytes of the node it wanted.
    pub open spec fn spec_feed(&self, bytes: Seq<u8>) -> Walker {
        Walker {
            record_size: self.record_size,
            node_count: self.node_count,
            ip: self.ip,
            node: spec_child(
                bytes,
                bit_of(self.ip, (MAX_STEPS - self.steps - 1) as nat),
                self.record_size,
            ),
            steps: (self.steps + 1) as u32,
        }
    }

    /// Starts a descent at node 0 for an address, from the two parameters of a
    /// database kind.  There is no descent where a parameter is missing or the record
    /// size is neither 24 nor 28.
    pub fn start(record_size: Option<u32>, node_count: Option<u32>, addr: IpAddr) -> (walker:
        Option<Walker>)
        ensures
            match walker {
                Some(w) => record_size == Some(w.record_size as u32) && node_count == Some(
                    w.node_count,
                ) && w.wf() && w.ip == spec_widen(addr) && w.node == 0 && w.steps == 0,
                None => record_size is None || node_count is None || !(record_size == Some(24u32)
                    || record_size == Some(28u32)),
            },
    {
        let record_size: u32 = match record_size {
            Some(v) => v,
            None => {
                return None;
            },
        };
        let node_count: u32 = match node_count {
            Some(v) => v,
            None => {
                return None;
            },
        };
        if record_size != 24 && record_size != 28 {
            return None;
        }
        let ip: u128 = match addr {
            IpAddr::V4(a) => a as u128,
            IpAddr::V6(a) => a,
        };
        Some(Walker { record_size: record_size as u16, node_count, ip, node: 0, steps: 0 })
    }

    /// The offset in the image of the node that the descent reads next.  There is
    /// none once 128 nodes have been read or the descent has left the tree.
    pub fn wanted(&self) -> (offset: Option<u32>)
        requires
            self.wf(),
        ensures
            offset == self.spec_wanted(),
            offset matches Some(at) ==> at == self.node * spec_node_size(self.record_size),
    {
        if self.steps < MAX_STEPS && self.node < self.node_count {
            let size: u32 = node_size(self.record_size) as u32;
            assert(self.node * size <= 7 * 0x1000_0000) by (nonlinear_arith)
                requires
                    self.node < 0x1000_0000,
                    size <= 7,
            ;
            Some(self.node * size)
        } else {
            None
        }
    }

    /// Takes the bytes of the node that the descent wanted, and goes to the child
    /// that the next address bit selects.
    pub fn feed(self, bytes: [u8; 8]) -> (next: Walker)
        requires
            self.wf(),
            self.spec_wanted() is Some,
        ensures
            next == self.spec_feed(bytes@),
            next.wf(),
    {
        let bit: u8 = if (self.ip >> ((MAX_STEPS - self.steps - 1) as u128)) & 1u128 == 1u128 {
            1
        } else {
            0
        };
        Walker {
            record_size: self.record_size,
            node_count: self.node_count,
            ip: self.ip,
            node: node_from_bytes(bytes, bit, self.record_size),
            steps: self.steps + 1,
        }
    }

    /// Whether the descent stands at the marker.
    pub fn blocked(&self) -> (at_marker: bool)
        ensures
            at_marker == (self.node == BLOCK_MARKER),
    {
        self.node == BLOCK_MARKER
    }

    /// One step of a walker is one step of the descent: on an image that holds the
    /// wanted node, feeding the walker the bytes of that node leaves the rest of the
    /// descent, one read shorter.
    pub proof fn lemma_step(self, image: Seq<u8>, bytes: Seq<u8>)
        requires
            self.wf(),
            self.spec_wanted() is Some,
            node_present(image, self.record_size, self.node),
            forall|k: int|
                0 <= k < spec_node_size(self.record_size) ==> bytes[k] == image[self.node
                    * spec_node_size(self.record_size) + k],
        ensures
            self.rest(image).0 == self.spec_feed(bytes).rest(image).0,
            self.rest(image).1 == self.spec_feed(bytes).rest(image).1 + 1,
    {
        let held = node_bytes(image, self.record_size, self.node);
        let size = spec_node_size(self.record_size) as int;
        assert((self.node + 1) * size == self.node * size + size) by (nonlinear_arith);
        assert(forall|k: int| 0 <= k < size ==> held[k] == bytes[k]);
    }
}

/// Descends through an image from node 0 along the 128 bits of `ip`, most significant
/// bit first.  Every byte is looked up with a check; a node that the image does not
/// hold ends the descent without a value.  At most 128 nodes are read.
pub fn descend(map: &[u8], record_size: u16, node_count: u32, ip: u128) -> (descent: Descent)
    requires
        valid_record_size(record_size),
    ensures
        descent.node == spec_descend(map@, record_size, node_count, 0, ip, MAX_STEPS as nat).0,
        descent.reads == spec_descend(map@, record_size, node_count, 0, ip, MAX_STEPS as nat).1,
        descent.reads <= MAX_STEPS,
{
    let size: usize = node_size(record_size);
    let total: usize = map.len();
    let mut walker = Walker { record_size, node_count, ip, node: 0, steps: 0 };
    let ghost whole = walker.rest(map@);
    loop
        invariant
            walker.wf(),
            walker.record_size == record_size,
            size == spec_node_size(record_size),
            total == map@.len(),
            whole.0 == walker.rest(map@).0,
            whole.1 == walker.rest(map@).1 + walker.steps,
            whole == spec_descend(map@, record_size, node_count, 0, ip, MAX_STEPS as nat),
        decreases MAX_STEPS - walker.steps,
    {
        let at: usize = match walker.wanted() {
            Some(at) => at as usize,
            None => {
                return Descent { node: Some(walker.node), reads: walker.steps };
            },
        };
        if size > total || at > total - size {
            assert(!node_present(map@, record_size, walker.node)) by (nonlinear_arith)
                requires
                    walker.node * size + size > map@.len(),
                    size == spec_node_size(record_size),
            ;
            return Descent { node: None, reads: walker.steps };
        }
        assert(node_present(map@, record_size, walker.node)) by (nonlinear_arith)
            requires
                walker.node * size + size <= map@.len(),
                size == spec_node_size(record_size),
        ;
        let mut slice: [u8; 8] = [0;8];
        let mut j: usize = 0;
        while j < size
            invariant
                j <= size <= 7,
                at + size <= total == map@.len(),
                forall|k: int| 0 <= k < j ==> slice@[k] == map@[at + k],
            decreases size - j,
        {
            slice[j] = map[at + j];
            j += 1;
        }
        proof {
            walker.lemma_step(map@, slice@);
        }
        walker = walker.feed(slice);
    }
}

/// Why the fast path could not finish a descent.
#[derive(Debug, Clone, Copy, PartialEq, Eq, Structural)]
pub enum FastPathError {
    /// The parameter table lacks the record size or the node count.
    MissingParameter,
    /// The descent came to a node that the image does not hold.
    OutOfBoundsRead,
}

/// What the fast path finds for an address: whether the descent ends at the marker,
/// or why there was no descent to the end.  A record size that does not exist has no
/// tree to descend through and blocks nothing.
pub open spec fn spec_try_should_block(
    parameters: Map<u8, u32>,
    db_name: MaxmindDbType,
    image: Seq<u8>,
    addr: IpAddr,
) -> Result<bool, FastPathError> {
    let size_key = db_name.spec_record_size_entry().spec_key();
    let count_key = db_name.spec_node_count_entry().spec_key();
    if !parameters.contains_key(size_key) || !parameters.contains_key(count_key) {
        Err(FastPathError::MissingParameter)
    } else if !(parameters[size_key] == 24 || parameters[size_key] == 28) {
        Ok(false)
    } else {
        match spec_descend(
            image,
            parameters[size_key] as u16,
            parameters[count_key],
            0,
            spec_widen(addr),
            MAX_STEPS as nat,
        ).0 {
            Some(node) => Ok(node == BLOCK_MARKER),
            None => Err(FastPathError::OutOfBoundsRead),
        }
    }
}

/// Runs the fast path for an address and says how it ended: fetches the record size
/// and the node count of the database kind, descends through the image, and reports
/// whether the descent ended at the marker.
pub fn try_should_block(
    parameters: &ParameterTable,
    db_name: MaxmindDbType,
    map: &[u8],
    addr: IpAddr,
) -> (outcome: Result<bool, FastPathError>)
    ensures
        outcome == spec_try_should_block(parameters@, db_name, map@, addr),
        spec_should_block(parameters@, db_name, map@, addr) == (outcome == Ok::<
            bool,
            FastPathError,
        >(true)),
{
    let record_size: u32 = match parameters.get(db_name.record_size_entry()) {
        Some(v) => v,
        None => {
            return Err(FastPathError::MissingParameter);
        },
    };
    let node_count: u32 = match parameters.get(db_name.node_count_entry()) {
        Some(v) => v,
        None => {
            return Err(FastPathError::MissingParameter);
        },
    };
    if record_size != 24 && record_size != 28 {
        return Ok(false);
    }
    let ip: u128 = match addr {
        IpAddr::V4(a) => a as u128,
        IpAddr::V6(a) => a,
    };
    let descent = descend(map, record_size as u16, node_count, ip);
    match descent.node {
        Some(node) => Ok(node == BLOCK_MARKER),
        None => Err(FastPathError::OutOfBoundsRead),
    }
}

/// Decides whether the fast path blocks an address: it blocks if the descent through
/// the image ends at the marker.  A missing parameter, a record size that does not
/// exist and a node outside the image all let the address pass.
pub fn should_block(
    parameters: &ParameterTable,
    db_name: MaxmindDbType,
    map: &[u8],
    addr: IpAddr,
) -> (blocked: bool)
    ensures
        blocked == spec_should_block(parameters@, db_name, map@, addr),
{
    match try_should_block(parameters, db_name, map, addr) {
        Ok(blocked) => blocked,
        Err(_) => false,
    }
}

} // verus!
