use crate::common::MaxmindDbType;
use crate::compact::compacted_by;
use crate::compact::compacted_child;
use crate::compact::is_open_leaf;
use crate::compact::lemma_reach_extend;
use crate::compact::pointer_after;
use crate::compact::reach;
use crate::compact::visited;
use crate::compact::MAX_DEPTH;
use crate::decode::agree_from;
use crate::decode::lemma_decode_frame;
use crate::decode::MAX_NESTING;
use crate::fastpath::lemma_descent_is_walk;
use crate::fastpath::spec_descend;
use crate::fastpath::spec_should_block;
use crate::fastpath::spec_widen;
use crate::fastpath::MAX_STEPS;
use crate::maxmind::bit_of;
use crate::maxmind::node_bytes;
use crate::maxmind::tree_child;
use crate::maxmind::walk;
use crate::maxmind::IpAddr;
use crate::maxmind::MaxmindDB;
use crate::node::lemma_children_fix_node;
use crate::node::lemma_node_inside;
use crate::node::spec_node_size;
use crate::node::valid_record_size;
use crate::node::BLOCK_MARKER;
use crate::value::Value;
use vstd::prelude::*;

verus! {

/// Whether the parameter table holds the record size and node count of a database
/// under the entries of a database kind.
pub open spec fn installed(parameters: Map<u8, u32>, db_name: MaxmindDbType, db: MaxmindDB) -> bool {
    let size_key = db_name.spec_record_size_entry().spec_key();
    let count_key = db_name.spec_node_count_entry().spec_key();
    &&& parameters.contains_key(size_key)
    &&& parameters.contains_key(count_key)
    &&& parameters[size_key] == db.metadata.record_size
    &&& parameters[count_key] == db.metadata.node_count
}

/// Whether no child pointer of the tree holds the marker.
pub open spec fn marker_free(db: MaxmindDB) -> bool {
    forall|node: u32, right: bool|
        node < db.metadata.node_count ==> #[trigger] tree_child(
            db.data@,
            db.metadata.record_size,
            node,
            right,
        ) != BLOCK_MARKER
}

/// Where a walk stands when `stop` of its `bits` bits are left.
pub open spec fn walk_until(
    image: Seq<u8>,
    record_size: u16,
    node_count: u32,
    node: u32,
    ip: u128,
    bits: nat,
    stop: nat,
) -> u32
    decreases bits,
{
    if bits <= stop || node >= node_count {
        node
    } else {
        walk_until(
            image,
            record_size,
            node_count,
            tree_child(image, record_size, node, bit_of(ip, (bits - 1) as nat)),
            ip,
            (bits - 1) as nat,
            stop,
        )
    }
}

/// Where the 96 clear bits above an IPv4 address lead from node 0.
pub open spec fn ipv4_start(db: MaxmindDB) -> u32 {
    walk_until(db.data@, db.metadata.record_size, db.metadata.node_count, 0, 0, 128, 32)
}

/// Whether the full lookup of an address finds a record that is a map and that the
/// rule `blocks` blocks.
pub open spec fn lookup_blocks(
    db: MaxmindDB,
    blocks: spec_fn(Map<Seq<u8>, Value>) -> bool,
    addr: IpAddr,
) -> bool {
    let end = db.spec_terminal(addr);
    end > db.metadata.node_count && (db.spec_record(end) matches Some(Value::Mapping(fields))
        && blocks(fields))
}

/// Whether `again` is the database `db` with its tree replaced by `image`: the same
/// metadata, the image in front, and every byte behind the tree as it was.
pub open spec fn recompacted_input(db: MaxmindDB, image: Seq<u8>, again: MaxmindDB) -> bool {
    &&& again.metadata.record_size == db.metadata.record_size
    &&& again.metadata.node_count == db.metadata.node_count
    &&& again.metadata.data_section_start == db.metadata.data_section_start
    &&& again.data@.len() == db.data@.len()
    &&& again.data@.subrange(0, image.len() as int) == image
    &&& agree_from(again.data@, db.data@, image.len())
}

/// A walk can be cut in two: its end is the end of the walk that goes on from where
/// it stands when `stop` bits are left.
pub proof fn lemma_walk_split(
    image: Seq<u8>,
    record_size: u16,
    node_count: u32,
    node: u32,
    ip: u128,
    bits: nat,
    stop: nat,
)
    requires
        stop <= bits,
    ensures
        walk(image, record_size, node_count, node, ip, bits) == walk(
            image,
            record_size,
            node_count,
            walk_until(image, record_size, node_count, node, ip, bits, stop),
            ip,
            stop,
        ),
    decreases bits,
{
    if bits > stop && node < node_count {
        lemma_walk_split(
            image,
            record_size,
            node_count,
            tree_child(image, record_size, node, bit_of(ip, (bits - 1) as nat)),
            ip,
            (bits - 1) as nat,
            stop,
        );
    } else if node >= node_count {
        assert(walk(image, record_size, node_count, node, ip, stop) == node);
    }
}

/// Above its low 32 bits a widened IPv4 address has only clear bits.
proof fn lemma_high_bits_clear(a: u32, index: nat)
    requires
        32 <= index < 128,
    ensures
        bit_of(a as u128, index) == bit_of(0, index),
{
    let wide = a as u128;
    let i = index as u128;
    assert((wide >> i) & 1u128 == (0u128 >> i) & 1u128) by (bit_vector)
        requires
            wide <= 0xffff_ffffu128,
            32 <= i < 128,
    ;
}

/// The walk over the bits above an IPv4 address does not depend on the address.
proof fn lemma_ipv4_prefix(
    image: Seq<u8>,
    record_size: u16,
    node_count: u32,
    node: u32,
    a: u32,
    bits: nat,
)
    requires
        32 <= bits <= 128,
    ensures
        walk_until(image, record_size, node_count, node, a as u128, bits, 32) == walk_until(
            image,
            record_size,
            node_count,
            node,
            0,
            bits,
            32,
        ),
    decreases bits,
{
    if bits > 32 && node < node_count {
        lemma_high_bits_clear(a, (bits - 1) as nat);
        lemma_ipv4_prefix(
            image,
            record_size,
            node_count,
            tree_child(image, record_size, node, bit_of(0, (bits - 1) as nat)),
            a,
            (bits - 1) as nat,
        );
    }
}

/// A walk ends at the node it started from or at a child pointer of a node.
proof fn lemma_walk_end(
    image: Seq<u8>,
    record_size: u16,
    node_count: u32,
    node: u32,
    ip: u128,
    bits: nat,
)
    ensures
        ({
            let end = walk(image, record_size, node_count, node, ip, bits);
            end == node || exists|from: u32, right: bool|
                from < node_count && #[trigger] tree_child(image, record_size, from, right) == end
        }),
    decreases bits,
{
    if bits > 0 && node < node_count {
        let side = bit_of(ip, (bits - 1) as nat);
        let c = tree_child(image, record_size, node, side);
        lemma_walk_end(image, record_size, node_count, c, ip, (bits - 1) as nat);
        let end = walk(image, record_size, node_count, node, ip, bits);
        if end == c {
            assert(tree_child(image, record_size, node, side) == end);
        }
    }
}

/// Along every walk the compacted tree and the tree it was made from go through the
/// same nodes, and the compacted walk ends at what compaction makes of the end of the
/// other.
proof fn lemma_walks_agree(
    db: MaxmindDB,
    blocks: spec_fn(Map<Seq<u8>, Value>) -> bool,
    image: Seq<u8>,
    node: u32,
    ip: u128,
    bits: nat,
    depth: nat,
)
    requires
        db.metadata.node_count < BLOCK_MARKER,
        compacted_by(db, blocks, image),
        depth + bits <= MAX_DEPTH,
        node < db.metadata.node_count ==> reach(
            db.data@,
            db.metadata.record_size,
            db.metadata.node_count,
            0,
            node,
            depth,
        ),
    ensures
        ({
            let before = walk(
                db.data@,
                db.metadata.record_size,
                db.metadata.node_count,
                node,
                ip,
                bits,
            );
            let after = walk(
                image,
                db.metadata.record_size,
                db.metadata.node_count,
                node,
                ip,
                bits,
            );
            if bits == 0 || node >= db.metadata.node_count {
                after == before
            } else {
                after == pointer_after(db, blocks, before)
            }
        }),
    decreases bits,
{
    let record_size = db.metadata.record_size;
    let node_count = db.metadata.node_count;
    if bits > 0 && node < node_count {
        let side = bit_of(ip, (bits - 1) as nat);
        let c = tree_child(db.data@, record_size, node, side);
        let c2 = tree_child(image, record_size, node, side);
        assert(visited(db.data@, record_size, node_count, node));
        assert(c2 == compacted_child(db, blocks, node, side));
        if c < node_count {
            lemma_reach_extend(db.data@, record_size, node_count, 0, node, depth, side);
            lemma_walks_agree(db, blocks, image, c, ip, (bits - 1) as nat, depth + 1);
        } else {
            assert(walk(db.data@, record_size, node_count, c, ip, (bits - 1) as nat) == c);
            assert(walk(image, record_size, node_count, c2, ip, (bits - 1) as nat) == c2);
        }
    }
}

/// What the fast path decides on a compacted image: the descent from node 0 over 128
/// bits ends at the marker if and only if the walk through the tree that the image
/// was made from ends at a pointer that held the marker already, or at a record that
/// is a map and that the rule blocks.
pub proof fn theorem_compacted_descent(
    db: MaxmindDB,
    blocks: spec_fn(Map<Seq<u8>, Value>) -> bool,
    image: Seq<u8>,
    ip: u128,
)
    requires
        db.metadata.node_count < BLOCK_MARKER,
        compacted_by(db, blocks, image),
    ensures
        ({
            let end = walk(
                db.data@,
                db.metadata.record_size,
                db.metadata.node_count,
                0,
                ip,
                MAX_STEPS as nat,
            );
            spec_descend(
                image,
                db.metadata.record_size,
                db.metadata.node_count,
                0,
                ip,
                MAX_STEPS as nat,
            ).0 == Some(BLOCK_MARKER) <==> end == BLOCK_MARKER || (end > db.metadata.node_count && (
            db.spec_record(end) matches Some(Value::Mapping(fields)) && blocks(fields)))
        }),
{
    let record_size = db.metadata.record_size;
    let node_count = db.metadata.node_count;
    lemma_descent_is_walk(image, record_size, node_count, 0, ip, MAX_STEPS as nat);
    lemma_walks_agree(db, blocks, image, 0, ip, MAX_STEPS as nat, 0);
}

/// Whether the walk of the fast path, from node 0 over the 128 bits of the widened
/// address, ends where the walk of the full lookup ends.  For an IPv6 address the two
/// are one walk.
pub open spec fn walks_meet(db: MaxmindDB, addr: IpAddr) -> bool {
    walk(
        db.data@,
        db.metadata.record_size,
        db.metadata.node_count,
        0,
        spec_widen(addr),
        MAX_STEPS as nat,
    ) == db.spec_terminal(addr)
}

/// The two walks of an IPv6 address are one walk.
pub proof fn lemma_ipv6_walks_meet(db: MaxmindDB, a: u128)
    ensures
        walks_meet(db, IpAddr::V6(a)),
{
}

/// The two walks of an IPv4 address meet in every tree in which the 96 clear bits
/// above the address lead from node 0 to node 96.
pub proof fn lemma_ipv4_walks_meet(db: MaxmindDB, a: u32)
    requires
        ipv4_start(db) == 96,
    ensures
        walks_meet(db, IpAddr::V4(a)),
{
    let record_size = db.metadata.record_size;
    let node_count = db.metadata.node_count;
    lemma_walk_split(db.data@, record_size, node_count, 0, a as u128, 128, 32);
    lemma_ipv4_prefix(db.data@, record_size, node_count, 0, a, 128);
}

/// No walk ends at the marker in a tree of which no child pointer holds it.
pub proof fn lemma_marker_free_walk(db: MaxmindDB, addr: IpAddr)
    requires
        marker_free(db),
    ensures
        db.spec_terminal(addr) != BLOCK_MARKER,
{
    let record_size = db.metadata.record_size;
    let node_count = db.metadata.node_count;
    match addr {
        IpAddr::V4(a) => {
            lemma_walk_end(db.data@, record_size, node_count, 96, a as u128, 32);
        },
        IpAddr::V6(a) => {
            lemma_walk_end(db.data@, record_size, node_count, 0, a, 128);
        },
    }
}

/// Compaction keeps exactly the block relation that the rule defines: on the image
/// that compaction made and with the parameters of the database installed, the fast
/// path blocks an address if and only if the full lookup of that address finds a
/// record that the rule blocks.  This holds of every address whose two walks meet and
/// do not end at a pointer that held the marker before compaction.
pub proof fn theorem_round_trip(
    db: MaxmindDB,
    blocks: spec_fn(Map<Seq<u8>, Value>) -> bool,
    image: Seq<u8>,
    parameters: Map<u8, u32>,
    db_name: MaxmindDbType,
    addr: IpAddr,
)
    requires
        db.wf(),
        db.metadata.node_count < BLOCK_MARKER,
        compacted_by(db, blocks, image),
        installed(parameters, db_name, db),
        walks_meet(db, addr),
        db.spec_terminal(addr) != BLOCK_MARKER,
    ensures
        spec_should_block(parameters, db_name, image, addr) <==> lookup_blocks(db, blocks, addr),
{
    theorem_compacted_descent(db, blocks, image, spec_widen(addr));
}

/// Compaction never turns a pointer into one of another kind: a pointer to a node
/// and one that says "no data" stay as they were, and a pointer to a record stays or
/// becomes the marker, which lies above the node count.  So a slot of the compacted
/// tree leads to a node exactly where the slot it was made from did.
pub proof fn theorem_never_poisoned(
    db: MaxmindDB,
    blocks: spec_fn(Map<Seq<u8>, Value>) -> bool,
    image: Seq<u8>,
    node: u32,
    right: bool,
)
    requires
        db.metadata.node_count < BLOCK_MARKER,
        compacted_by(db, blocks, image),
        node < db.metadata.node_count,
    ensures
        ({
            let before = tree_child(db.data@, db.metadata.record_size, node, right);
            let after = tree_child(image, db.metadata.record_size, node, right);
            &&& before <= db.metadata.node_count ==> after == before
            &&& before > db.metadata.node_count ==> after == before || after == BLOCK_MARKER
            &&& after < db.metadata.node_count <==> before < db.metadata.node_count
            &&& after == db.metadata.node_count <==> before == db.metadata.node_count
        }),
{
    assert(tree_child(image, db.metadata.record_size, node, right) == compacted_child(
        db,
        blocks,
        node,
        right,
    ));
}

/// Two trees of the same shape whose nodes hold the same bytes are the same bytes.
proof fn lemma_images_equal(a: Seq<u8>, b: Seq<u8>, record_size: u16, node_count: u32)
    requires
        valid_record_size(record_size),
        a.len() == spec_node_size(record_size) * node_count,
        b.len() == a.len(),
        forall|node: u32|
            node < node_count ==> #[trigger] node_bytes(a, record_size, node) == node_bytes(
                b,
                record_size,
                node,
            ),
    ensures
        a == b,
{
    let size = spec_node_size(record_size) as int;
    assert forall|i: int| 0 <= i < a.len() implies a[i] == b[i] by {
        let n = i / size;
        assert(n * size <= i < n * size + size && 0 <= n < node_count) by (nonlinear_arith)
            requires
                n == i / size,
                0 <= i < size * node_count,
                size > 0,
        ;
        let node = n as u32;
        lemma_node_inside(n, node_count as int, size);
        assert(node_bytes(a, record_size, node)[i - n * size] == a[i]);
        assert(node_bytes(b, record_size, node)[i - n * size] == b[i]);
    }
    assert(a =~= b);
}

/// The bytes of a tree are fixed by its child pointers: two trees of the same shape
/// with the same child pointers are the same bytes.
pub proof fn lemma_children_fix_image(a: Seq<u8>, b: Seq<u8>, record_size: u16, node_count: u32)
    requires
        valid_record_size(record_size),
        a.len() == spec_node_size(record_size) * node_count,
        b.len() == a.len(),
        forall|node: u32, right: bool|
            node < node_count ==> #[trigger] tree_child(a, record_size, node, right)
                == tree_child(b, record_size, node, right),
    ensures
        a == b,
{
    let size = spec_node_size(record_size) as int;
    assert forall|node: u32| node < node_count implies #[trigger] node_bytes(
        a,
        record_size,
        node,
    ) == node_bytes(b, record_size, node) by {
        lemma_node_inside(node as int, node_count as int, size);
        assert(tree_child(a, record_size, node, false) == tree_child(
            b,
            record_size,
            node,
            false,
        ));
        assert(tree_child(a, record_size, node, true) == tree_child(b, record_size, node, true));
        lemma_children_fix_node(
            node_bytes(a, record_size, node),
            node_bytes(b, record_size, node),
            record_size,
        );
    }
    lemma_images_equal(a, b, record_size, node_count);
}

/// Compaction under a rule has one outcome: two images that are both the compacted
/// tree of a database under the rule are byte for byte the same.
pub proof fn theorem_compaction_determined(
    db: MaxmindDB,
    blocks: spec_fn(Map<Seq<u8>, Value>) -> bool,
    first: Seq<u8>,
    second: Seq<u8>,
)
    requires
        valid_record_size(db.metadata.record_size),
        compacted_by(db, blocks, first),
        compacted_by(db, blocks, second),
    ensures
        first == second,
{
    let record_size = db.metadata.record_size;
    let node_count = db.metadata.node_count;
    assert forall|node: u32, right: bool| node < node_count implies #[trigger] tree_child(
        first,
        record_size,
        node,
        right,
    ) == tree_child(second, record_size, node, right) by {
        assert(tree_child(first, record_size, node, right) == compacted_child(
            db,
            blocks,
            node,
            right,
        ));
        assert(tree_child(second, record_size, node, right) == compacted_child(
            db,
            blocks,
            node,
            right,
        ));
    }
    lemma_children_fix_image(first, second, record_size, node_count);
}

/// The nodes of the new input are those of the image.
proof fn lemma_tree_kept(db: MaxmindDB, image: Seq<u8>, again: MaxmindDB, node: u32)
    requires
        db.wf(),
        image.len() == spec_node_size(db.metadata.record_size) * db.metadata.node_count,
        recompacted_input(db, image, again),
        node < db.metadata.node_count,
    ensures
        node_bytes(again.data@, db.metadata.record_size, node) == node_bytes(
            image,
            db.metadata.record_size,
            node,
        ),
{
    let size = spec_node_size(db.metadata.record_size) as int;
    lemma_node_inside(node as int, db.metadata.node_count as int, size);
    assert(node * size + size <= image.len() <= again.data@.len());
    assert(node_bytes(again.data@, db.metadata.record_size, node) =~= node_bytes(
        again.data@.subrange(0, image.len() as int),
        db.metadata.record_size,
        node,
    ));
}

/// In the tree that compaction made, the paths between nodes are those of the tree
/// it was made from.
proof fn lemma_same_paths(
    db: MaxmindDB,
    blocks: spec_fn(Map<Seq<u8>, Value>) -> bool,
    image: Seq<u8>,
    again: MaxmindDB,
    from: u32,
    to: u32,
    steps: nat,
)
    requires
        db.wf(),
        db.metadata.node_count < BLOCK_MARKER,
        compacted_by(db, blocks, image),
        recompacted_input(db, image, again),
    ensures
        reach(again.data@, db.metadata.record_size, db.metadata.node_count, from, to, steps)
            == reach(db.data@, db.metadata.record_size, db.metadata.node_count, from, to, steps),
    decreases steps,
{
    let record_size = db.metadata.record_size;
    let node_count = db.metadata.node_count;
    if from < node_count && steps > 0 {
        lemma_tree_kept(db, image, again, from);
        theorem_never_poisoned(db, blocks, image, from, false);
        theorem_never_poisoned(db, blocks, image, from, true);
        let l = tree_child(db.data@, record_size, from, false);
        let r = tree_child(db.data@, record_size, from, true);
        let l2 = tree_child(again.data@, record_size, from, false);
        let r2 = tree_child(again.data@, record_size, from, true);
        assert(l2 == tree_child(image, record_size, from, false));
        assert(r2 == tree_child(image, record_size, from, true));
        assert(reach(again.data@, record_size, node_count, from, to, steps) == (reach(
            again.data@,
            record_size,
            node_count,
            l2,
            to,
            (steps - 1) as nat,
        ) || reach(again.data@, record_size, node_count, r2, to, (steps - 1) as nat)));
        if l < node_count {
            lemma_same_paths(db, blocks, image, again, l, to, (steps - 1) as nat);
        } else {
            assert(!reach(db.data@, record_size, node_count, l, to, (steps - 1) as nat));
            assert(!reach(again.data@, record_size, node_count, l2, to, (steps - 1) as nat));
        }
        if r < node_count {
            lemma_same_paths(db, blocks, image, again, r, to, (steps - 1) as nat);
        } else {
            assert(!reach(db.data@, record_size, node_count, r, to, (steps - 1) as nat));
            assert(!reach(again.data@, record_size, node_count, r2, to, (steps - 1) as nat));
        }
    }
}

/// Compaction comes by the same nodes in the tree that it made as in the tree that
/// it made it from.
proof fn lemma_same_visits(
    db: MaxmindDB,
    blocks: spec_fn(Map<Seq<u8>, Value>) -> bool,
    image: Seq<u8>,
    again: MaxmindDB,
    node: u32,
)
    requires
        db.wf(),
        db.metadata.node_count < BLOCK_MARKER,
        compacted_by(db, blocks, image),
        recompacted_input(db, image, again),
    ensures
        visited(again.data@, db.metadata.record_size, db.metadata.node_count, node) == visited(
            db.data@,
            db.metadata.record_size,
            db.metadata.node_count,
            node,
        ),
{
    let record_size = db.metadata.record_size;
    let node_count = db.metadata.node_count;
    assert forall|steps: nat|
        reach(again.data@, record_size, node_count, 0, node, steps) == reach(
            db.data@,
            record_size,
            node_count,
            0,
            node,
            steps,
        ) by {
        lemma_same_paths(db, blocks, image, again, 0, node, steps);
    }
    if visited(db.data@, record_size, node_count, node) {
        let steps = choose|steps: nat|
            steps <= MAX_DEPTH && #[trigger] reach(
                db.data@,
                record_size,
                node_count,
                0,
                node,
                steps,
            );
        assert(reach(again.data@, record_size, node_count, 0, node, steps));
    }
    if visited(again.data@, record_size, node_count, node) {
        let steps = choose|steps: nat|
            steps <= MAX_DEPTH && #[trigger] reach(
                again.data@,
                record_size,
                node_count,
                0,
                node,
                steps,
            );
        assert(reach(db.data@, record_size, node_count, 0, node, steps));
    }
}

/// Compacting twice changes nothing: where a database's tree is replaced by the image
/// that compaction made of it and the result is compacted again under the same rule,
/// the second image is byte for byte the first.  The second pass finds only markers,
/// records that the rule leaves alone, and pointers that compaction never touches.
pub proof fn theorem_idempotent(
    db: MaxmindDB,
    blocks: spec_fn(Map<Seq<u8>, Value>) -> bool,
    image: Seq<u8>,
    again: MaxmindDB,
    second: Seq<u8>,
)
    requires
        db.wf(),
        db.metadata.node_count < BLOCK_MARKER,
        compacted_by(db, blocks, image),
        recompacted_input(db, image, again),
        compacted_by(again, blocks, second),
    ensures
        second == image,
{
    let record_size = db.metadata.record_size;
    let node_count = db.metadata.node_count;
    assert forall|node: u32, right: bool| node < node_count implies #[trigger] tree_child(
        second,
        record_size,
        node,
        right,
    ) == tree_child(image, record_size, node, right) by {
        let between = tree_child(image, record_size, node, right);
        lemma_tree_kept(db, image, again, node);
        lemma_same_visits(db, blocks, image, again, node);
        assert(between == compacted_child(db, blocks, node, right));
        assert(tree_child(second, record_size, node, right) == compacted_child(
            again,
            blocks,
            node,
            right,
        ));
        if is_open_leaf(between, node_count) {
            lemma_decode_frame(
                again.data@,
                db.data@,
                db.metadata.data_section_start as nat,
                db.spec_record_offset(between),
                MAX_NESTING as nat,
                image.len(),
            );
            assert(again.spec_record(between) == db.spec_record(between));
        }
    }
    lemma_children_fix_image(second, image, record_size, node_count);
}

} // verus!
