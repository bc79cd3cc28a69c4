use vstd::prelude::*;

verus! {

/// Child value that marks a blocked leaf in a compacted search tree.
pub const BLOCK_MARKER: u32 = 0x00ff_ffff;

/// The record sizes, in bits per child pointer, that the search tree may use.
pub open spec fn valid_record_size(record_size: u16) -> bool {
    record_size == 24 || record_size == 28
}

/// Number of bytes that one node of the search tree occupies.
pub open spec fn spec_node_size(record_size: u16) -> nat {
    (record_size as nat * 2) / 8
}

/// The number that three bytes spell, most significant byte first.
pub open spec fn be24(a: u8, b: u8, c: u8) -> nat {
    a as nat * 0x1_0000 + b as nat * 0x100 + c as nat
}

/// The child pointer stored in a node: the left one (taken on a clear address bit)
/// or the right one (taken on a set address bit).  A 24-bit record keeps each child in
/// three bytes; a 28-bit record keeps the top four bits of the left child in the high
/// nibble of byte 3 and those of the right child in its low nibble.
pub open spec fn spec_child(n: Seq<u8>, right: bool, record_size: u16) -> u32 {
    if record_size == 24 {
        if right {
            be24(n[3], n[4], n[5]) as u32
        } else {
            be24(n[0], n[1], n[2]) as u32
        }
    } else if record_size == 28 {
        if right {
            ((n[3] as nat % 16) * 0x100_0000 + be24(n[4], n[5], n[6])) as u32
        } else {
            ((n[3] as nat / 16) * 0x100_0000 + be24(n[0], n[1], n[2])) as u32
        }
    } else {
        0
    }
}

/// The bytes of a node after one child pointer has been replaced by the low
/// `record_size` bits of `val`.
pub open spec fn spec_with_child(n: Seq<u8>, right: bool, record_size: u16, val: u32) -> Seq<u8> {
    let b1 = ((val as nat / 0x1_0000) % 0x100) as u8;
    let b2 = ((val as nat / 0x100) % 0x100) as u8;
    let b3 = (val as nat % 0x100) as u8;
    let top = (val as nat / 0x100_0000) % 16;
    if record_size == 24 {
        if right {
            n.update(3, b1).update(4, b2).update(5, b3)
        } else {
            n.update(0, b1).update(1, b2).update(2, b3)
        }
    } else if record_size == 28 {
        if right {
            n.update(4, b1).update(5, b2).update(6, b3).update(
                3,
                ((n[3] as nat / 16) * 16 + top) as u8,
            )
        } else {
            n.update(0, b1).update(1, b2).update(2, b3).update(
                3,
                (top * 16 + n[3] as nat % 16) as u8,
            )
        }
    } else {
        n
    }
}

/// The largest value that a child pointer of the given width can hold, plus one.
pub open spec fn child_limit(record_size: u16) -> nat {
    if record_size == 24 {
        0x100_0000
    } else {
        0x1000_0000
    }
}

/// The number of bytes per node, for the two record sizes that exist.
pub fn node_size(record_size: u16) -> (size: usize)
    ensures
        size == spec_node_size(record_size),
        record_size == 24 ==> size == 6,
        record_size == 28 ==> size == 7,
{
    let doubled: usize = record_size as usize * 2;
    doubled / 8
}

/// Three bytes read as one number, most significant byte first.
fn join24(a: u8, b: u8, c: u8) -> (joined: u32)
    ensures
        joined == be24(a, b, c),
        joined < 0x100_0000,
{
    (a as u32) * 0x1_0000 + (b as u32) * 0x100 + (c as u32)
}

/// Reads one child pointer out of a node held in a fixed buffer.  A `bit` of zero
/// selects the left child, any other value the right child.  A record size other than
/// 24 or 28 yields zero.
pub fn node_from_bytes(n: [u8; 8], bit: u8, record_size: u16) -> (child: u32)
    ensures
        child == spec_child(n@, bit != 0, record_size),
        child < 0x1000_0000,
{
    if record_size == 28 {
        if bit == 0 {
            let shared: u8 = n[3];
            let top: u8 = (shared & 0b1111_0000) >> 4;
            assert(((shared & 0b1111_0000) >> 4) == shared / 16) by (bit_vector);
            (top as u32) * 0x100_0000 + join24(n[0], n[1], n[2])
        } else {
            let shared: u8 = n[3];
            let top: u8 = shared & 0b0000_1111;
            assert((shared & 0b0000_1111) == shared % 16) by (bit_vector);
            (top as u32) * 0x100_0000 + join24(n[4], n[5], n[6])
        }
    } else if record_size == 24 {
        if bit == 0 {
            join24(n[0], n[1], n[2])
        } else {
            join24(n[3], n[4], n[5])
        }
    } else {
        0
    }
}

/// Reads one child pointer out of the bytes of a node.
pub fn read_child(n: &[u8], right: bool, record_size: u16) -> (child: u32)
    requires
        valid_record_size(record_size),
        n@.len() >= spec_node_size(record_size),
    ensures
        child == spec_child(n@, right, record_size),
        child < child_limit(record_size),
{
    if record_size == 28 {
        if right {
            let shared: u8 = n[3];
            let top: u8 = shared & 0b0000_1111;
            assert((shared & 0b0000_1111) == shared % 16) by (bit_vector);
            (top as u32) * 0x100_0000 + join24(n[4], n[5], n[6])
        } else {
            let shared: u8 = n[3];
            let top: u8 = (shared & 0b1111_0000) >> 4;
            assert(((shared & 0b1111_0000) >> 4) == shared / 16) by (bit_vector);
            (top as u32) * 0x100_0000 + join24(n[0], n[1], n[2])
        }
    } else {
        if right {
            join24(n[3], n[4], n[5])
        } else {
            join24(n[0], n[1], n[2])
        }
    }
}

/// Replaces one child pointer in the bytes of a node by the low `record_size` bits of
/// `val`, leaving the other child as it was.
pub fn write_child(n: &mut [u8], right: bool, record_size: u16, val: u32)
    requires
        valid_record_size(record_size),
        old(n)@.len() >= spec_node_size(record_size),
    ensures
        final(n)@ == spec_with_child(old(n)@, right, record_size, val),
{
    let b1: u8 = ((val / 0x1_0000) % 0x100) as u8;
    let b2: u8 = ((val / 0x100) % 0x100) as u8;
    let b3: u8 = (val % 0x100) as u8;
    let top: u8 = ((val / 0x100_0000) % 16) as u8;
    if record_size == 28 {
        let shared: u8 = n[3];
        if right {
            n[4] = b1;
            n[5] = b2;
            n[6] = b3;
            assert(((shared & 0b1111_0000) | (top & 0b0000_1111)) == (shared / 16) * 16 + top) by (bit_vector)
                requires
                    top < 16,
            ;
            n[3] = (shared & 0b1111_0000) | (top & 0b0000_1111);
        } else {
            n[0] = b1;
            n[1] = b2;
            n[2] = b3;
            assert(((shared & 0b0000_1111) | (top << 4)) == top * 16 + shared % 16) by (bit_vector)
                requires
                    top < 16,
            ;
            n[3] = (shared & 0b0000_1111) | (top << 4);
        }
    } else {
        if right {
            n[3] = b1;
            n[4] = b2;
            n[5] = b3;
        } else {
            n[0] = b1;
            n[1] = b2;
            n[2] = b3;
        }
    }
}

/// Writing a child and reading it back gives the value written, cut to the width of
/// the record; the other child, the length and every byte after the node stay.
pub proof fn lemma_write_then_read(n: Seq<u8>, right: bool, record_size: u16, val: u32)
    requires
        valid_record_size(record_size),
        n.len() >= spec_node_size(record_size),
    ensures
        spec_child(spec_with_child(n, right, record_size, val), right, record_size) == val as nat
            % child_limit(record_size),
        spec_child(spec_with_child(n, right, record_size, val), !right, record_size) == spec_child(
            n,
            !right,
            record_size,
        ),
        spec_with_child(n, right, record_size, val).len() == n.len(),
        forall|i: int|
            spec_node_size(record_size) <= i < n.len() ==> spec_with_child(
                n,
                right,
                record_size,
                val,
            )[i] == n[i],
{
    let v = val as nat;
    let b1 = (v / 0x1_0000) % 0x100;
    let b2 = (v / 0x100) % 0x100;
    let b3 = v % 0x100;
    let top = (v / 0x100_0000) % 16;
    assert(b1 * 0x1_0000 + b2 * 0x100 + b3 == v % 0x100_0000) by (nonlinear_arith)
        requires
            b1 == (v / 0x1_0000) % 0x100,
            b2 == (v / 0x100) % 0x100,
            b3 == v % 0x100,
    ;
    assert(top * 0x100_0000 + v % 0x100_0000 == v % 0x1000_0000) by (nonlinear_arith)
        requires
            top == (v / 0x100_0000) % 16,
    ;
    let s = n[3] as nat;
    assert(((s / 16) * 16 + top) % 16 == top && ((s / 16) * 16 + top) / 16 == s / 16 && (s / 16)
        * 16 + top < 256) by (nonlinear_arith)
        requires
            top < 16,
            s < 256,
    ;
    assert((top * 16 + s % 16) % 16 == s % 16 && (top * 16 + s % 16) / 16 == top && top * 16 + s
        % 16 < 256) by (nonlinear_arith)
        requires
            top < 16,
            s < 256,
    ;
}

/// A node's bytes are fixed by its two children: two nodes of the same width with the
/// same children are the same bytes.
pub proof fn lemma_children_fix_node(a: Seq<u8>, b: Seq<u8>, record_size: u16)
    requires
        valid_record_size(record_size),
        a.len() == spec_node_size(record_size),
        b.len() == spec_node_size(record_size),
        spec_child(a, false, record_size) == spec_child(b, false, record_size),
        spec_child(a, true, record_size) == spec_child(b, true, record_size),
    ensures
        a == b,
{
    if record_size == 24 {
        lemma_be24_injective(a[0], a[1], a[2], b[0], b[1], b[2]);
        lemma_be24_injective(a[3], a[4], a[5], b[3], b[4], b[5]);
    } else {
        lemma_be24_injective(a[0], a[1], a[2], b[0], b[1], b[2]);
        lemma_be24_injective(a[4], a[5], a[6], b[4], b[5], b[6]);
        let x = a[3] as nat;
        let y = b[3] as nat;
        let la = be24(a[0], a[1], a[2]);
        let lb = be24(b[0], b[1], b[2]);
        let ra = be24(a[4], a[5], a[6]);
        let rb = be24(b[4], b[5], b[6]);
        assert(x / 16 == y / 16 && la == lb) by (nonlinear_arith)
            requires
                (x / 16) * 0x100_0000 + la == (y / 16) * 0x100_0000 + lb,
                la < 0x100_0000,
                lb < 0x100_0000,
        ;
        assert(x % 16 == y % 16 && ra == rb) by (nonlinear_arith)
            requires
                (x % 16) * 0x100_0000 + ra == (y % 16) * 0x100_0000 + rb,
                ra < 0x100_0000,
                rb < 0x100_0000,
        ;
        assert(x == y) by (nonlinear_arith)
            requires
                x / 16 == y / 16,
                x % 16 == y % 16,
        ;
    }
    assert(a =~= b);
}

/// Three bytes are fixed by the number they spell.
pub proof fn lemma_be24_injective(a: u8, b: u8, c: u8, x: u8, y: u8, z: u8)
    ensures
        be24(a, b, c) < 0x100_0000,
        be24(a, b, c) == be24(x, y, z) ==> a == x && b == y && c == z,
{
}

/// Two different nodes do not share a byte.
pub proof fn lemma_nodes_apart(a: int, b: int, size: int)
    by (nonlinear_arith)
    requires
        a < b,
        0 <= size,
    ensures
        a * size + size <= b * size,
{
}

/// A node below the node count lies inside a tree of that many nodes.
pub proof fn lemma_node_inside(node: int, count: int, size: int)
    by (nonlinear_arith)
    requires
        0 <= node < count,
        0 <= size,
    ensures
        0 <= node * size,
        node * size + size <= count * size,
        node * size + size <= size * count,
{
}

} // verus!
