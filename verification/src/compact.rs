use crate::maxmind::node_bytes;
use crate::maxmind::tree_child;
use crate::maxmind::DbError;
use crate::maxmind::MaxmindDB;
use crate::maxmind::ProcessedDb;
use crate::node::child_limit;
use crate::node::lemma_node_inside;
use crate::node::lemma_nodes_apart;
use crate::node::lemma_write_then_read;
use crate::node::node_size;
use crate::node::read_child;
use crate::node::spec_node_size;
use crate::node::spec_with_child;
use crate::node::valid_record_size;
use crate::node::BLOCK_MARKER;
use crate::value::record_fields;
use crate::value::Data;
use crate::value::Value;
use fxhash::FxHashMap;
use vstd::prelude::*;

verus! {

/// The deepest level of the search tree that compaction descends to.
pub const MAX_DEPTH: u32 = 128;

/// Whether `steps` child pointers lead from node `from` to node `to` inside the tree.
pub open spec fn reach(
    image: Seq<u8>,
    record_size: u16,
    node_count: u32,
    from: u32,
    to: u32,
    steps: nat,
) -> bool
    decreases steps,
{
    if from >= node_count {
        false
    } else if steps == 0 {
        from == to
    } else {
        reach(
            image,
            record_size,
            node_count,
            tree_child(image, record_size, from, false),
            to,
            (steps - 1) as nat,
        ) || reach(
            image,
            record_size,
            node_count,
            tree_child(image, record_size, from, true),
            to,
            (steps - 1) as nat,
        )
    }
}

/// Whether compaction comes by the node: some path of at most 128 child pointers leads
/// to it from node 0.
pub open spec fn visited(image: Seq<u8>, record_size: u16, node_count: u32, node: u32) -> bool {
    exists|steps: nat|
        steps <= MAX_DEPTH && #[trigger] reach(image, record_size, node_count, 0, node, steps)
}

/// Whether a child pointer names a record on which the predicate has yet to decide.
pub open spec fn is_open_leaf(child: u32, node_count: u32) -> bool {
    child > node_count && child != BLOCK_MARKER
}

/// Whether the predicate may answer `verdict` for a record with these fields.
pub open spec fn verdict_possible<F: Fn(FxHashMap<Vec<u8>, Data>) -> bool>(
    should_block: F,
    fields: Map<Seq<u8>, Value>,
    verdict: bool,
) -> bool {
    exists|m: FxHashMap<Vec<u8>, Data>| #[trigger]
        record_fields(m) == fields && call_ensures(should_block, (m,), verdict)
}

/// One path longer: a path to a node goes on to each child of it that is a node.
pub proof fn lemma_reach_extend(
    image: Seq<u8>,
    record_size: u16,
    node_count: u32,
    from: u32,
    to: u32,
    steps: nat,
    right: bool,
)
    requires
        reach(image, record_size, node_count, from, to, steps),
        tree_child(image, record_size, to, right) < node_count,
    ensures
        reach(
            image,
            record_size,
            node_count,
            from,
            tree_child(image, record_size, to, right),
            steps + 1,
        ),
    decreases steps,
{
    let next = tree_child(image, record_size, to, right);
    if steps == 0 {
        assert(reach(image, record_size, node_count, next, next, 0));
    } else {
        let l = tree_child(image, record_size, from, false);
        let r = tree_child(image, record_size, from, true);
        if reach(image, record_size, node_count, l, to, (steps - 1) as nat) {
            lemma_reach_extend(image, record_size, node_count, l, to, (steps - 1) as nat, right);
        } else {
            lemma_reach_extend(image, record_size, node_count, r, to, (steps - 1) as nat, right);
        }
    }
}

impl MaxmindDB {
    /// Whether compaction may have turned the child pointer `before` into `after`: a
    /// pointer that named a record either has become the marker, which the predicate
    /// may have asked for, or still names the record, which the predicate may have
    /// left alone; any other pointer is as it was.
    pub open spec fn pointer_settled<F: Fn(FxHashMap<Vec<u8>, Data>) -> bool>(
        &self,
        should_block: F,
        before: u32,
        after: u32,
    ) -> bool {
        if is_open_leaf(before, self.metadata.node_count) {
            self.spec_record(before) matches Some(Value::Mapping(fields)) && ((after
                == BLOCK_MARKER && verdict_possible(should_block, fields, true)) || (after
                == before && verdict_possible(should_block, fields, false)))
        } else {
            after == before
        }
    }

    /// Whether compaction has decided on one child slot of `image`.
    pub open spec fn slot_settled<F: Fn(FxHashMap<Vec<u8>, Data>) -> bool>(
        &self,
        should_block: F,
        image: Seq<u8>,
        node: u32,
        right: bool,
    ) -> bool {
        self.pointer_settled(
            should_block,
            tree_child(self.data@, self.metadata.record_size, node, right),
            tree_child(image, self.metadata.record_size, node, right),
        )
    }

    /// Whether a child slot names a record that is no map, or none at all.
    pub open spec fn slot_broken(&self, node: u32, right: bool) -> bool {
        let before = tree_child(self.data@, self.metadata.record_size, node, right);
        is_open_leaf(before, self.metadata.node_count) && !(self.spec_record(
            before,
        ) matches Some(Value::Mapping(_)))
    }

    /// Whether `image` is this database's tree after compaction under the predicate:
    /// it has the length of the tree, every slot of a node that compaction comes by is
    /// settled, and every other slot is as it was.
    pub open spec fn compacted<F: Fn(FxHashMap<Vec<u8>, Data>) -> bool>(
        &self,
        should_block: F,
        image: Seq<u8>,
    ) -> bool {
        &&& image.len() == spec_node_size(self.metadata.record_size) * self.metadata.node_count
        &&& forall|node: u32, right: bool|
            node < self.metadata.node_count ==> if visited(
                self.data@,
                self.metadata.record_size,
                self.metadata.node_count,
                node,
            ) {
                #[trigger] self.slot_settled(should_block, image, node, right)
            } else {
                tree_child(image, self.metadata.record_size, node, right) == tree_child(
                    self.data@,
                    self.metadata.record_size,
                    node,
                    right,
                )
            }
    }
}

/// Overwrites one child pointer of node `node` in `image`, leaving every byte
/// outside that node as it was.
fn write_node_child(image: &mut Vec<u8>, node: u32, right: bool, record_size: u16, val: u32)
    requires
        valid_record_size(record_size),
        (node + 1) * spec_node_size(record_size) <= old(image)@.len(),
    ensures
        final(image)@.len() == old(image)@.len(),
        node_bytes(final(image)@, record_size, node) == spec_with_child(
            node_bytes(old(image)@, record_size, node),
            right,
            record_size,
            val,
        ),
        forall|i: int|
            0 <= i < old(image)@.len() && !(node * spec_node_size(record_size) <= i < (node + 1)
                * spec_node_size(record_size)) ==> final(image)@[i] == old(image)@[i],
{
    let size: usize = node_size(record_size);
    let total: usize = image.len();
    assert((node + 1) * size == node * size + size) by (nonlinear_arith);
    let at: usize = node as usize * size;
    let mut buffer: Vec<u8> = Vec::new();
    let mut i: usize = 0;
    while i < size
        invariant
            i <= size,
            at + size <= total == image@.len(),
            buffer@ == image@.subrange(at as int, at + i),
        decreases size - i,
    {
        buffer.push(image[at + i]);
        proof {
            assert(buffer@ =~= image@.subrange(at as int, at + i + 1));
        }
        i += 1;
    }
    MaxmindDB::write_over_node_bytes(
        buffer.as_mut_slice(),
        if right {
            1
        } else {
            0
        },
        record_size,
        val,
    );
    proof {
        lemma_write_then_read(old(image)@.subrange(at as int, at + size), right, record_size, val);
    }
    let ghost before = image@;
    let mut j: usize = 0;
    while j < size
        invariant
            j <= size,
            buffer@.len() == size,
            at + size <= total == image@.len(),
            image@.len() == before.len(),
            forall|k: int| 0 <= k < j ==> image@[at + k] == buffer@[k],
            forall|k: int| 0 <= k < image@.len() && !(at <= k < at + j) ==> image@[k] == before[k],
        decreases size - j,
    {
        image[at + j] = buffer[j];
        j += 1;
    }
    proof {
        assert(node_bytes(image@, record_size, node) =~= buffer@);
    }
}

/// What overwriting one child pointer of one node does to the tree: that pointer
/// holds the value written, cut to the width of the record, and nothing else changes.
proof fn lemma_slot_written(
    before: Seq<u8>,
    after: Seq<u8>,
    record_size: u16,
    node_count: u32,
    node: u32,
    right: bool,
    val: u32,
)
    requires
        valid_record_size(record_size),
        node < node_count,
        before.len() == spec_node_size(record_size) * node_count,
        after.len() == before.len(),
        node_bytes(after, record_size, node) == spec_with_child(
            node_bytes(before, record_size, node),
            right,
            record_size,
            val,
        ),
        forall|i: int|
            0 <= i < before.len() && !(node * spec_node_size(record_size) <= i < (node + 1)
                * spec_node_size(record_size)) ==> after[i] == before[i],
    ensures
        forall|other: u32|
            other < node_count && other != node ==> #[trigger] node_bytes(
                after,
                record_size,
                other,
            ) == node_bytes(before, record_size, other),
        tree_child(after, record_size, node, right) == val as nat % child_limit(record_size),
        tree_child(after, record_size, node, !right) == tree_child(
            before,
            record_size,
            node,
            !right,
        ),
{
    let size = spec_node_size(record_size) as int;
    lemma_node_inside(node as int, node_count as int, size);
    lemma_write_then_read(node_bytes(before, record_size, node), right, record_size, val);
    assert((node + 1) * size == node * size + size) by (nonlinear_arith);
    assert forall|other: u32| other < node_count && other != node implies #[trigger] node_bytes(
        after,
        record_size,
        other,
    ) == node_bytes(before, record_size, other) by {
        lemma_node_inside(other as int, node_count as int, size);
        if other < node {
            lemma_nodes_apart(other as int, node as int, size);
        } else {
            lemma_nodes_apart(node as int, other as int, size);
        }
        assert(node_bytes(after, record_size, other) =~= node_bytes(before, record_size, other));
    }
}

/// What a node that waits at the given depth contributes to the work that is left:
/// one more than twice the contribution of a node one level deeper.
pub open spec fn weight(depth: nat) -> nat
    decreases MAX_DEPTH - depth,
{
    if depth >= MAX_DEPTH {
        1
    } else {
        2 * weight(depth + 1) + 1
    }
}

/// The work that is left for the nodes that wait on the stack.
pub open spec fn potential(stack: Seq<(u32, u32)>) -> nat
    decreases stack.len(),
{
    if stack.len() == 0 {
        0
    } else {
        potential(stack.drop_last()) + weight(stack.last().1 as nat)
    }
}

proof fn lemma_potential_push(stack: Seq<(u32, u32)>, entry: (u32, u32))
    ensures
        potential(stack.push(entry)) == potential(stack) + weight(entry.1 as nat),
        weight(entry.1 as nat) >= 1,
        entry.1 < MAX_DEPTH ==> weight(entry.1 as nat) == 2 * weight((entry.1 + 1) as nat) + 1,
{
    assert(stack.push(entry).drop_last() =~= stack);
}

/// A path ends at a node of the tree.
proof fn lemma_reach_inside(
    image: Seq<u8>,
    record_size: u16,
    node_count: u32,
    from: u32,
    to: u32,
    steps: nat,
)
    requires
        reach(image, record_size, node_count, from, to, steps),
    ensures
        to < node_count,
        from < node_count,
    decreases steps,
{
    if steps > 0 {
        let l = tree_child(image, record_size, from, false);
        let r = tree_child(image, record_size, from, true);
        if reach(image, record_size, node_count, l, to, (steps - 1) as nat) {
            lemma_reach_inside(image, record_size, node_count, l, to, (steps - 1) as nat);
        } else {
            lemma_reach_inside(image, record_size, node_count, r, to, (steps - 1) as nat);
        }
    }
}

impl MaxmindDB {
    /// Whether compaction has decided on both child slots of a node.
    pub open spec fn node_settled<F: Fn(FxHashMap<Vec<u8>, Data>) -> bool>(
        &self,
        should_block: F,
        image: Seq<u8>,
        node: u32,
    ) -> bool {
        self.slot_settled(should_block, image, node, false) && self.slot_settled(
            should_block,
            image,
            node,
            true,
        )
    }

    /// Whether every entry of the stack is a node of the tree together with the
    /// length of a path that leads to it.
    spec fn stack_sound(&self, stack: Seq<(u32, u32)>) -> bool {
        forall|i: int|
            0 <= i < stack.len() ==> (#[trigger] stack[i]).0 < self.metadata.node_count
                && stack[i].1 <= MAX_DEPTH && reach(
                self.data@,
                self.metadata.record_size,
                self.metadata.node_count,
                0,
                stack[i].0,
                stack[i].1 as nat,
            )
    }

    /// Whether some entry of the stack lies on a path of `steps` pointers to `node`.
    spec fn covered(&self, stack: Seq<(u32, u32)>, node: u32, steps: nat) -> bool {
        exists|i: int|
            0 <= i < stack.len() && (#[trigger] stack[i]).1 <= steps && reach(
                self.data@,
                self.metadata.record_size,
                self.metadata.node_count,
                stack[i].0,
                node,
                (steps - stack[i].1) as nat,
            )
    }

    /// Whether every node that compaction comes by is settled or still ahead.
    spec fn frontier_complete<F: Fn(FxHashMap<Vec<u8>, Data>) -> bool>(
        &self,
        should_block: F,
        image: Seq<u8>,
        stack: Seq<(u32, u32)>,
    ) -> bool {
        forall|node: u32, steps: nat|
            steps <= MAX_DEPTH && #[trigger] reach(
                self.data@,
                self.metadata.record_size,
                self.metadata.node_count,
                0,
                node,
                steps,
            ) ==> self.node_settled(should_block, image, node) || self.covered(stack, node, steps)
    }

    /// Whether every node of `image` is as it was or settled and come by.
    spec fn nodes_sound<F: Fn(FxHashMap<Vec<u8>, Data>) -> bool>(
        &self,
        should_block: F,
        image: Seq<u8>,
    ) -> bool {
        forall|node: u32|
            node < self.metadata.node_count ==> #[trigger] node_bytes(
                image,
                self.metadata.record_size,
                node,
            ) == node_bytes(self.data@, self.metadata.record_size, node) || (self.node_settled(
                should_block,
                image,
                node,
            ) && visited(
                self.data@,
                self.metadata.record_size,
                self.metadata.node_count,
                node,
            ))
    }

    /// Whether two images agree on every node but one.
    spec fn same_but(&self, before: Seq<u8>, after: Seq<u8>, node: u32) -> bool {
        &&& after.len() == before.len()
        &&& forall|other: u32|
            other < self.metadata.node_count && other != node ==> #[trigger] node_bytes(
                after,
                self.metadata.record_size,
                other,
            ) == node_bytes(before, self.metadata.record_size, other)
    }

    /// Decodes the record that a child pointer above the node count names.  A record
    /// that is no map is refused.
    fn read_record(&self, child: u32) -> (outcome: Result<FxHashMap<Vec<u8>, Data>, DbError>)
        requires
            self.wf(),
            child > self.metadata.node_count,
        ensures
            match outcome {
                Ok(fields) => self.spec_record(child) == Some(
                    Value::Mapping(record_fields(fields)),
                ),
                Err(_) => !(self.spec_record(child) matches Some(Value::Mapping(_))),
            },
    {
        let total: usize = self.data.len();
        let below: usize = self.metadata.data_section_start - 16;
        let offset: u32 = child - self.metadata.node_count;
        if offset as u64 >= (total - below) as u64 {
            return Err(DbError::MalformedDb);
        }
        match self.read_data(below + offset as usize) {
            Ok((Data::Mapping(fields), _)) => Ok(fields),
            _ => Err(DbError::MalformedDb),
        }
    }

    /// Decides on one child slot of a node: where it names a record, the record is
    /// decoded and shown to the predicate, and the slot is overwritten with the marker
    /// if the predicate asks for it.
    fn settle_slot<F: Fn(FxHashMap<Vec<u8>, Data>) -> bool>(
        &self,
        should_block: &F,
        image: &mut Vec<u8>,
        node: u32,
        right: bool,
    ) -> (outcome: Result<(), DbError>)
        requires
            self.wf(),
            self.metadata.node_count < BLOCK_MARKER,
            node < self.metadata.node_count,
            old(image)@.len() == spec_node_size(self.metadata.record_size)
                * self.metadata.node_count,
            forall|m: FxHashMap<Vec<u8>, Data>| call_requires(*should_block, (m,)),
            tree_child(old(image)@, self.metadata.record_size, node, right) == tree_child(
                self.data@,
                self.metadata.record_size,
                node,
                right,
            ) || self.slot_settled(*should_block, old(image)@, node, right),
        ensures
            self.same_but(old(image)@, final(image)@, node),
            tree_child(final(image)@, self.metadata.record_size, node, !right) == tree_child(
                old(image)@,
                self.metadata.record_size,
                node,
                !right,
            ),
            outcome is Ok ==> self.slot_settled(*should_block, final(image)@, node, right),
            outcome is Err ==> self.slot_broken(node, right),
    {
        let record_size: u16 = self.metadata.record_size;
        let node_count: u32 = self.metadata.node_count;
        let size: usize = node_size(record_size);
        let total: usize = self.data.len();
        proof {
            lemma_node_inside(node as int, node_count as int, size as int);
            assert(node * size + size <= self.data@.len());
        }
        let at: usize = node as usize * size;
        let n: &[u8] = &self.data.as_slice()[at..at + size];
        let child: u32 = read_child(n, right, record_size);
        if child != BLOCK_MARKER && child > node_count {
            let fields = match self.read_record(child) {
                Ok(fields) => fields,
                Err(e) => {
                    return Err(e);
                },
            };
            let ghost shown = fields;
            let verdict: bool = should_block(fields);
            proof {
                assert(record_fields(shown) == record_fields(shown) && call_ensures(
                    *should_block,
                    (shown,),
                    verdict,
                ));
                assert(verdict_possible(*should_block, record_fields(shown), verdict));
            }
            if verdict {
                let ghost before = image@;
                write_node_child(image, node, right, record_size, BLOCK_MARKER);
                proof {
                    lemma_slot_written(
                        before,
                        image@,
                        record_size,
                        node_count,
                        node,
                        right,
                        BLOCK_MARKER,
                    );
                }
            }
        }
        Ok(())
    }

    /// The stack after the node on top of it has been taken off and those of its
    /// children that are nodes have been put on, one level deeper.
    spec fn stack_after(
        &self,
        stack: Seq<(u32, u32)>,
        push_left: bool,
        push_right: bool,
    ) -> Seq<(u32, u32)> {
        let (node, depth) = stack.last();
        let l = tree_child(self.data@, self.metadata.record_size, node, false);
        let r = tree_child(self.data@, self.metadata.record_size, node, true);
        let rest = stack.drop_last();
        let with_left = if push_left {
            rest.push((l, (depth + 1) as u32))
        } else {
            rest
        };
        if push_right {
            with_left.push((r, (depth + 1) as u32))
        } else {
            with_left
        }
    }

    /// One round of compaction keeps every node that it comes by settled or ahead.
    proof fn lemma_round<F: Fn(FxHashMap<Vec<u8>, Data>) -> bool>(
        &self,
        should_block: F,
        before: Seq<u8>,
        after: Seq<u8>,
        stack: Seq<(u32, u32)>,
        push_left: bool,
        push_right: bool,
    )
        requires
            stack.len() > 0,
            self.stack_sound(stack),
            self.frontier_complete(should_block, before, stack),
            self.nodes_sound(should_block, before),
            self.same_but(before, after, stack.last().0),
            self.node_settled(should_block, after, stack.last().0),
            push_left == (stack.last().1 < MAX_DEPTH && tree_child(
                self.data@,
                self.metadata.record_size,
                stack.last().0,
                false,
            ) < self.metadata.node_count),
            push_right == (stack.last().1 < MAX_DEPTH && tree_child(
                self.data@,
                self.metadata.record_size,
                stack.last().0,
                true,
            ) < self.metadata.node_count),
        ensures
            self.stack_sound(self.stack_after(stack, push_left, push_right)),
            self.frontier_complete(
                should_block,
                after,
                self.stack_after(stack, push_left, push_right),
            ),
            self.nodes_sound(should_block, after),
            potential(self.stack_after(stack, push_left, push_right)) < potential(stack),
    {
        let record_size = self.metadata.record_size;
        let node_count = self.metadata.node_count;
        let (m, dm) = stack.last();
        let l = tree_child(self.data@, record_size, m, false);
        let r = tree_child(self.data@, record_size, m, true);
        let rest = stack.drop_last();
        let next = self.stack_after(stack, push_left, push_right);
        let with_left = if push_left {
            rest.push((l, (dm + 1) as u32))
        } else {
            rest
        };
        assert(stack[stack.len() - 1] == (m, dm));
        assert(m < node_count && dm <= MAX_DEPTH && reach(
            self.data@,
            record_size,
            node_count,
            0,
            m,
            dm as nat,
        ));
        // the work that is left
        assert(stack =~= rest.push((m, dm)));
        lemma_potential_push(rest, (m, dm));
        if push_left {
            lemma_potential_push(rest, (l, (dm + 1) as u32));
        }
        if push_right {
            lemma_potential_push(with_left, (r, (dm + 1) as u32));
        }
        // the entries of the new stack
        if push_left {
            lemma_reach_extend(self.data@, record_size, node_count, 0, m, dm as nat, false);
        }
        if push_right {
            lemma_reach_extend(self.data@, record_size, node_count, 0, m, dm as nat, true);
        }
        assert forall|i: int| 0 <= i < next.len() implies (#[trigger] next[i]).0 < node_count
            && next[i].1 <= MAX_DEPTH && reach(
            self.data@,
            record_size,
            node_count,
            0,
            next[i].0,
            next[i].1 as nat,
        ) by {
            if i < rest.len() {
                assert(next[i] == stack[i]);
            }
        }
        // the nodes of the image
        assert forall|node: u32| node < node_count implies #[trigger] node_bytes(
            after,
            record_size,
            node,
        ) == node_bytes(self.data@, record_size, node) || (self.node_settled(
            should_block,
            after,
            node,
        ) && visited(self.data@, record_size, node_count, node)) by {
            if node == m {
                assert(reach(self.data@, record_size, node_count, 0, m, dm as nat));
            } else {
                assert(node_bytes(after, record_size, node) == node_bytes(
                    before,
                    record_size,
                    node,
                ));
                assert(node_bytes(before, record_size, node) == node_bytes(
                    self.data@,
                    record_size,
                    node,
                ) || (self.node_settled(should_block, before, node) && visited(
                    self.data@,
                    record_size,
                    node_count,
                    node,
                )));
            }
        }
        // the nodes that compaction comes by
        assert forall|node: u32, steps: nat|
            steps <= MAX_DEPTH && #[trigger] reach(
                self.data@,
                record_size,
                node_count,
                0,
                node,
                steps,
            ) implies self.node_settled(should_block, after, node) || self.covered(
            next,
            node,
            steps,
        ) by {
            lemma_reach_inside(self.data@, record_size, node_count, 0, node, steps);
            if node == m {
            } else if self.node_settled(should_block, before, node) {
                assert(node_bytes(after, record_size, node) == node_bytes(
                    before,
                    record_size,
                    node,
                ));
            } else {
                assert(self.covered(stack, node, steps));
                let i = choose|i: int|
                    0 <= i < stack.len() && (#[trigger] stack[i]).1 <= steps && reach(
                        self.data@,
                        record_size,
                        node_count,
                        stack[i].0,
                        node,
                        (steps - stack[i].1) as nat,
                    );
                if i < rest.len() {
                    assert(next[i] == stack[i]);
                    assert(self.covered(next, node, steps));
                } else {
                    let k = (steps - dm) as nat;
                    assert(reach(self.data@, record_size, node_count, m, node, k));
                    assert(k > 0);
                    if reach(self.data@, record_size, node_count, l, node, (k - 1) as nat) {
                        lemma_reach_inside(
                            self.data@,
                            record_size,
                            node_count,
                            l,
                            node,
                            (k - 1) as nat,
                        );
                        assert(push_left);
                        let at = rest.len() as int;
                        assert(next[at] == (l, (dm + 1) as u32));
                        assert(self.covered(next, node, steps));
                    } else {
                        lemma_reach_inside(
                            self.data@,
                            record_size,
                            node_count,
                            r,
                            node,
                            (k - 1) as nat,
                        );
                        assert(push_right);
                        let at = with_left.len() as int;
                        assert(next[at] == (r, (dm + 1) as u32));
                        assert(self.covered(next, node, steps));
                    }
                }
            }
        }
    }

    /// Compacts the database: walks the search tree from node 0 with a stack of nodes
    /// and depths, to a depth of 128, and shows every record that a child pointer
    /// names to `should_block`; where the predicate holds, the pointer is overwritten
    /// with the marker.  What is returned is the tree alone.  A node count that the
    /// marker does not exceed, and a pointer whose record cannot be decoded or is no
    /// map, are refused.
    pub fn consume<F: Fn(FxHashMap<Vec<u8>, Data>) -> bool>(self, should_block: F) -> (outcome:
        Result<ProcessedDb, DbError>)
        requires
            self.wf(),
            forall|m: FxHashMap<Vec<u8>, Data>| call_requires(should_block, (m,)),
        ensures
            match outcome {
                Ok(processed) => processed.node_count == self.metadata.node_count
                    && processed.record_size == self.metadata.record_size
                    && processed.db@.len() == spec_node_size(self.metadata.record_size)
                    * self.metadata.node_count && self.metadata.node_count < BLOCK_MARKER
                    && self.compacted(
                    should_block,
                    processed.db@,
                ),
                Err(_) => self.metadata.node_count >= BLOCK_MARKER || exists|
                    node: u32,
                    right: bool,
                |
                    node < self.metadata.node_count && visited(
                        self.data@,
                        self.metadata.record_size,
                        self.metadata.node_count,
                        node,
                    ) && #[trigger] self.slot_broken(node, right),
            },
    {
        let record_size: u16 = self.metadata.record_size;
        let node_count: u32 = self.metadata.node_count;
        if node_count >= BLOCK_MARKER {
            return Err(DbError::MalformedDb);
        }
        let size: usize = node_size(record_size);
        let tree_len: usize = self.metadata.data_section_start - 16;
        let mut image: Vec<u8> = vstd::slice::slice_to_vec(&self.data.as_slice()[0..tree_len]);
        let mut stack: Vec<(u32, u32)> = Vec::new();
        if node_count > 0 {
            stack.push((0, 0));
        }
        proof {
            assert forall|node: u32| node < node_count implies #[trigger] node_bytes(
                image@,
                record_size,
                node,
            ) == node_bytes(self.data@, record_size, node) by {
                lemma_node_inside(node as int, node_count as int, size as int);
                assert(node_bytes(image@, record_size, node) =~= node_bytes(
                    self.data@,
                    record_size,
                    node,
                ));
            }
            assert forall|node: u32, steps: nat|
                steps <= MAX_DEPTH && #[trigger] reach(
                    self.data@,
                    record_size,
                    node_count,
                    0,
                    node,
                    steps,
                ) implies self.covered(stack@, node, steps) by {
                assert(stack@[0] == (0u32, 0u32));
            }
        }
        while stack.len() > 0
            invariant
                self.wf(),
                record_size == self.metadata.record_size,
                node_count == self.metadata.node_count,
                node_count < BLOCK_MARKER,
                size == spec_node_size(record_size),
                image@.len() == spec_node_size(record_size) * node_count,
                forall|m: FxHashMap<Vec<u8>, Data>| call_requires(should_block, (m,)),
                self.stack_sound(stack@),
                self.frontier_complete(should_block, image@, stack@),
                self.nodes_sound(should_block, image@),
            decreases potential(stack@),
        {
            let ghost waiting = stack@;
            let ghost before = image@;
            let (node, position) = stack.pop().unwrap();
            assert(waiting[waiting.len() - 1] == (node, position));
            proof {
                lemma_node_inside(node as int, node_count as int, size as int);
                assert(node * size + size <= self.data@.len());
            }
            let at: usize = node as usize * size;
            let n: &[u8] = &self.data.as_slice()[at..at + size];
            let left: u32 = Self::node_from_bytes(n, true, record_size);
            let right: u32 = Self::node_from_bytes(n, false, record_size);
            let push_left: bool = position < MAX_DEPTH && left < node_count;
            let push_right: bool = position < MAX_DEPTH && right < node_count;
            if push_left {
                stack.push((left, position + 1));
            }
            if push_right {
                stack.push((right, position + 1));
            }
            assert(stack@ =~= self.stack_after(waiting, push_left, push_right));
            assert(node_bytes(before, record_size, node) == node_bytes(
                self.data@,
                record_size,
                node,
            ) || self.node_settled(should_block, before, node));
            match self.settle_slot(&should_block, &mut image, node, false) {
                Ok(()) => {},
                Err(e) => {
                    assert(reach(self.data@, record_size, node_count, 0, node, position as nat));
                    assert(self.slot_broken(node, false));
                    return Err(e);
                },
            }
            match self.settle_slot(&should_block, &mut image, node, true) {
                Ok(()) => {},
                Err(e) => {
                    assert(reach(self.data@, record_size, node_count, 0, node, position as nat));
                    assert(self.slot_broken(node, true));
                    return Err(e);
                },
            }
            proof {
                assert(self.node_settled(should_block, image@, node));
                assert(self.same_but(before, image@, node));
                self.lemma_round(should_block, before, image@, waiting, push_left, push_right);
            }
        }
        proof {
            assert forall|node: u32, right: bool| node < node_count implies if visited(
                self.data@,
                record_size,
                node_count,
                node,
            ) {
                #[trigger] self.slot_settled(should_block, image@, node, right)
            } else {
                tree_child(image@, record_size, node, right) == tree_child(
                    self.data@,
                    record_size,
                    node,
                    right,
                )
            } by {
                if visited(self.data@, record_size, node_count, node) {
                    let steps = choose|steps: nat|
                        steps <= MAX_DEPTH && #[trigger] reach(
                            self.data@,
                            record_size,
                            node_count,
                            0,
                            node,
                            steps,
                        );
                    assert(self.node_settled(should_block, image@, node) || self.covered(
                        stack@,
                        node,
                        steps,
                    ));
                } else {
                    assert(node_bytes(image@, record_size, node) == node_bytes(
                        self.data@,
                        record_size,
                        node,
                    ));
                }
            }
        }
        Ok(ProcessedDb { node_count, record_size, db: image })
    }
}

/// Whether the predicate answers for every record what `blocks` says of its fields.
pub open spec fn decides_as<F: Fn(FxHashMap<Vec<u8>, Data>) -> bool>(
    should_block: F,
    blocks: spec_fn(Map<Seq<u8>, Value>) -> bool,
) -> bool {
    forall|m: FxHashMap<Vec<u8>, Data>, verdict: bool| #[trigger]
        call_ensures(should_block, (m,), verdict) ==> verdict == blocks(record_fields(m))
}

/// What compaction under the rule `blocks` makes of a child pointer: the marker where
/// the pointer names a record that is a map and that the rule blocks, and the pointer
/// itself otherwise.
pub open spec fn pointer_after(
    db: MaxmindDB,
    blocks: spec_fn(Map<Seq<u8>, Value>) -> bool,
    before: u32,
) -> u32 {
    if is_open_leaf(before, db.metadata.node_count) && (db.spec_record(
        before,
    ) matches Some(Value::Mapping(fields)) && blocks(fields)) {
        BLOCK_MARKER
    } else {
        before
    }
}

/// The child pointer that compaction under the rule `blocks` leaves in a slot: what
/// it makes of the pointer where it comes by the node, and the pointer that was there
/// where it does not.
pub open spec fn compacted_child(
    db: MaxmindDB,
    blocks: spec_fn(Map<Seq<u8>, Value>) -> bool,
    node: u32,
    right: bool,
) -> u32 {
    let before = tree_child(db.data@, db.metadata.record_size, node, right);
    if visited(db.data@, db.metadata.record_size, db.metadata.node_count, node) {
        pointer_after(db, blocks, before)
    } else {
        before
    }
}

/// Whether `image` is the tree of `db` compacted under the rule `blocks`.
pub open spec fn compacted_by(
    db: MaxmindDB,
    blocks: spec_fn(Map<Seq<u8>, Value>) -> bool,
    image: Seq<u8>,
) -> bool {
    &&& image.len() == spec_node_size(db.metadata.record_size) * db.metadata.node_count
    &&& forall|node: u32, right: bool|
        node < db.metadata.node_count ==> #[trigger] tree_child(
            image,
            db.metadata.record_size,
            node,
            right,
        ) == compacted_child(db, blocks, node, right)
}

/// A predicate that is a function of the record's fields cannot both block a record
/// and leave it alone.
proof fn lemma_one_verdict<F: Fn(FxHashMap<Vec<u8>, Data>) -> bool>(
    should_block: F,
    blocks: spec_fn(Map<Seq<u8>, Value>) -> bool,
    fields: Map<Seq<u8>, Value>,
)
    requires
        decides_as(should_block, blocks),
    ensures
        verdict_possible(should_block, fields, true) ==> blocks(fields),
        verdict_possible(should_block, fields, false) ==> !blocks(fields),
{
    if verdict_possible(should_block, fields, true) {
        let m = choose|m: FxHashMap<Vec<u8>, Data>| #[trigger]
            record_fields(m) == fields && call_ensures(should_block, (m,), true);
        assert(blocks(fields));
    }
    if verdict_possible(should_block, fields, false) {
        let m = choose|m: FxHashMap<Vec<u8>, Data>| #[trigger]
            record_fields(m) == fields && call_ensures(should_block, (m,), false);
        assert(!blocks(fields));
    }
}

/// Under a predicate that is a function of the record's fields, what compaction
/// returns is the tree compacted under that function.
pub proof fn lemma_compacted_by_rule<F: Fn(FxHashMap<Vec<u8>, Data>) -> bool>(
    db: MaxmindDB,
    should_block: F,
    blocks: spec_fn(Map<Seq<u8>, Value>) -> bool,
    image: Seq<u8>,
)
    requires
        db.compacted(should_block, image),
        decides_as(should_block, blocks),
    ensures
        compacted_by(db, blocks, image),
{
    let record_size = db.metadata.record_size;
    let node_count = db.metadata.node_count;
    assert forall|node: u32, right: bool| node < node_count implies #[trigger] tree_child(
        image,
        record_size,
        node,
        right,
    ) == compacted_child(db, blocks, node, right) by {
        let before = tree_child(db.data@, record_size, node, right);
        let settled = db.slot_settled(should_block, image, node, right);
        if visited(db.data@, record_size, node_count, node) {
            assert(settled);
            if is_open_leaf(before, node_count) {
                lemma_one_verdict(
                    should_block,
                    blocks,
                    db.spec_record(before)->Some_0->Mapping_0,
                );
            }
        }
    }
}

} // verus!
