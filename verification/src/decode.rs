use crate::maxmind::DbError;
use crate::maxmind::MaxmindDB;
use crate::value::no_fields;
use crate::value::record_fields;
use crate::value::record_insert;
use crate::value::record_new;
use crate::value::Data;
use crate::value::Value;
use vstd::prelude::*;

verus! {

/// How deeply values may nest (a map in a map, or the target of a pointer) before a
/// database is refused.
pub const MAX_NESTING: usize = 512;

/// The number that a run of bytes spells, most significant byte first.
pub open spec fn be_value(bytes: Seq<u8>) -> nat
    decreases bytes.len(),
{
    if bytes.len() == 0 {
        0
    } else {
        be_value(bytes.drop_last()) * 256 + bytes.last() as nat
    }
}

/// 256 to the power `n`.
pub open spec fn pow256(n: nat) -> nat
    decreases n,
{
    if n == 0 {
        1
    } else {
        256 * pow256((n - 1) as nat)
    }
}

/// A run of `n` bytes spells a number below 256 to the power `n`.
pub proof fn lemma_be_value_bound(bytes: Seq<u8>)
    ensures
        be_value(bytes) < pow256(bytes.len()),
    decreases bytes.len(),
{
    if bytes.len() > 0 {
        lemma_be_value_bound(bytes.drop_last());
        assert(pow256(bytes.len()) == 256 * pow256((bytes.len() - 1) as nat));
    }
}

/// The powers of 256 that bound the integer types.
pub proof fn lemma_pow256_values()
    ensures
        pow256(0) == 1,
        pow256(1) == 0x100,
        pow256(2) == 0x1_0000,
        pow256(3) == 0x100_0000,
        pow256(4) == 0x1_0000_0000,
        pow256(8) == 0x1_0000_0000_0000_0000,
        pow256(16) == 0x1_0000_0000_0000_0000_0000_0000_0000_0000,
        forall|a: nat, b: nat| a <= b ==> pow256(a) <= pow256(b),
{
    reveal_with_fuel(pow256, 17);
    assert forall|a: nat, b: nat| a <= b implies pow256(a) <= pow256(b) by {
        lemma_pow256_monotonic(a, b);
    }
}

proof fn lemma_pow256_monotonic(a: nat, b: nat)
    requires
        a <= b,
    ensures
        pow256(a) <= pow256(b),
        pow256(a) >= 1,
    decreases b,
{
    if a < b {
        lemma_pow256_monotonic(a, (b - 1) as nat);
    } else if a > 0 {
        lemma_pow256_monotonic((a - 1) as nat, (a - 1) as nat);
    }
}

/// The header of a value that starts at the front of `d`: its type, the length that
/// the header states, and the number of bytes that the header takes.  The top three
/// bits of the first byte are the type; zero there means that the next byte, plus
/// seven, is the type.  The low five bits are the length, where 29, 30 and 31 announce
/// one, two and three further length bytes.  For a pointer (type 1) the low five bits
/// are returned as they stand.
pub open spec fn spec_header(d: Seq<u8>) -> Option<(u8, nat, nat)> {
    if d.len() == 0 {
        None
    } else {
        let top = d[0] / 32;
        let low = (d[0] % 32) as nat;
        if top == 0 && (d.len() < 2 || d[1] > 8) {
            None
        } else {
            let kind = if top == 0 {
                (d[1] + 7) as u8
            } else {
                top
            };
            let skip: nat = if top == 0 {
                2
            } else {
                1
            };
            if kind == 1 {
                Some((kind, low, skip))
            } else if low < 29 {
                Some((kind, low, skip))
            } else if d.len() < skip + (low - 28) {
                None
            } else {
                let extra = be_value(d.subrange(skip as int, skip + (low - 28)));
                if low == 29 {
                    Some((kind, 29 + extra, skip + 1))
                } else if low == 30 {
                    Some((kind, 285 + extra, skip + 2))
                } else {
                    Some((kind, 65821 + extra, skip + 3))
                }
            }
        }
    }
}

/// The pointer that starts at the front of `d`: the offset it names inside the data
/// section, and the number of bytes it takes.  Bits 3 and 4 of the first byte give
/// the pointer's size, its low three bits the top of the value.
pub open spec fn spec_pointer(d: Seq<u8>) -> Option<(nat, nat)> {
    if d.len() == 0 {
        None
    } else {
        let size = ((d[0] / 8) % 4) as nat;
        let top = (d[0] % 8) as nat;
        if d.len() < size + 2 {
            None
        } else {
            let rest = be_value(d.subrange(1, (size + 2) as int));
            if size == 0 {
                Some((top * 0x100 + rest, 2))
            } else if size == 1 {
                Some((top * 0x1_0000 + rest + 2048, 3))
            } else if size == 2 {
                Some((top * 0x100_0000 + rest + 526336, 4))
            } else {
                Some((rest, 5))
            }
        }
    }
}

/// The signed number that a 32-bit pattern stands for.
pub open spec fn as_signed(bits: nat) -> int {
    if bits < 0x8000_0000 {
        bits as int
    } else {
        bits - 0x1_0000_0000
    }
}

/// The value that a payload spells under a type without nested values.
pub open spec fn spec_scalar(kind: u8, payload: Seq<u8>) -> Option<Value> {
    if kind == 2 {
        Some(Value::String(payload))
    } else if kind == 3 && payload.len() == 8 {
        Some(Value::Double(be_value(payload) as u64))
    } else if kind == 4 {
        Some(Value::Bytes(payload))
    } else if kind == 5 && payload.len() <= 2 {
        Some(Value::U16(be_value(payload) as u16))
    } else if kind == 6 && payload.len() <= 4 {
        Some(Value::U32(be_value(payload) as u32))
    } else if kind == 8 && payload.len() <= 4 {
        Some(Value::I32(as_signed(be_value(payload)) as i32))
    } else if kind == 9 && payload.len() <= 8 {
        Some(Value::U64(be_value(payload) as u64))
    } else if kind == 10 && payload.len() <= 16 {
        Some(Value::U128(be_value(payload) as u128))
    } else if kind == 15 && payload.len() == 4 {
        Some(Value::Float(be_value(payload) as u32))
    } else {
        None
    }
}

/// The value that starts at `offset`, and the number of bytes that it takes there.
/// A pointer stands for the value that it leads to, `base` bytes past the offset it
/// names, and takes only its own bytes.  `depth` bounds how deeply values may nest.
pub open spec fn spec_decode(data: Seq<u8>, base: nat, offset: nat, depth: nat) -> Option<
    (Value, nat),
>
    decreases depth, 1nat, 0nat,
{
    if depth == 0 || offset >= data.len() {
        None
    } else {
        match spec_header(data.skip(offset as int)) {
            None => None,
            Some((kind, length, head)) => {
                if kind == 1 {
                    match spec_pointer(data.skip(offset as int)) {
                        None => None,
                        Some((target, used)) => match spec_decode(
                            data,
                            base,
                            base + target,
                            (depth - 1) as nat,
                        ) {
                            None => None,
                            Some((value, _)) => Some((value, used)),
                        },
                    }
                } else if kind == 7 {
                    match spec_decode_entries(
                        data,
                        base,
                        offset + head,
                        length,
                        (depth - 1) as nat,
                        no_fields(),
                    ) {
                        None => None,
                        Some((fields, end)) => Some(
                            (Value::Mapping(fields), (end - offset) as nat),
                        ),
                    }
                } else if kind == 11 {
                    match spec_decode_items(
                        data,
                        base,
                        offset + head,
                        length,
                        (depth - 1) as nat,
                        Seq::empty(),
                    ) {
                        None => None,
                        Some((items, end)) => Some((Value::Array(items), (end - offset) as nat)),
                    }
                } else if kind == 14 {
                    Some((Value::Boolean(length == 1), head))
                } else if offset + head + length > data.len() {
                    None
                } else {
                    match spec_scalar(
                        kind,
                        data.subrange((offset + head) as int, (offset + head + length) as int),
                    ) {
                        None => None,
                        Some(value) => Some((value, head + length)),
                    }
                }
            },
        }
    }
}

/// The map that `count` pairs of key and value give when they are added, in the order
/// in which they stand from `offset` on, to the entries in `fields`; and the offset
/// after the last pair.  Every key must be a string.
pub open spec fn spec_decode_entries(
    data: Seq<u8>,
    base: nat,
    offset: nat,
    count: nat,
    depth: nat,
    fields: Map<Seq<u8>, Value>,
) -> Option<(Map<Seq<u8>, Value>, nat)>
    decreases depth, 2nat, count,
{
    if count == 0 {
        Some((fields, offset))
    } else {
        match spec_decode(data, base, offset, depth) {
            Some((Value::String(key), used)) => match spec_decode(
                data,
                base,
                offset + used,
                depth,
            ) {
                Some((value, more)) => spec_decode_entries(
                    data,
                    base,
                    offset + used + more,
                    (count - 1) as nat,
                    depth,
                    fields.insert(key, value),
                ),
                None => None,
            },
            _ => None,
        }
    }
}

/// The sequence that `count` values give when they are appended, in the order in
/// which they stand from `offset` on, to `items`; and the offset after the last one.
pub open spec fn spec_decode_items(
    data: Seq<u8>,
    base: nat,
    offset: nat,
    count: nat,
    depth: nat,
    items: Seq<Value>,
) -> Option<(Seq<Value>, nat)>
    decreases depth, 2nat, count,
{
    if count == 0 {
        Some((items, offset))
    } else {
        match spec_decode(data, base, offset, depth) {
            Some((value, used)) => spec_decode_items(
                data,
                base,
                offset + used,
                (count - 1) as nat,
                depth,
                items.push(value),
            ),
            None => None,
        }
    }
}

/// The value that the pointer at `offset` leads to, and the bytes that the pointer
/// itself takes.
pub open spec fn spec_follow(data: Seq<u8>, base: nat, offset: nat, depth: nat) -> Option<
    (Value, nat),
> {
    match spec_pointer(data.skip(offset as int)) {
        None => None,
        Some((target, used)) => match spec_decode(data, base, base + target, (depth - 1) as nat) {
            None => None,
            Some((value, _)) => Some((value, used)),
        },
    }
}

/// Whether what a reader returned is what the bytes spell.
pub open spec fn decoded_as(outcome: Result<(Data, usize), DbError>, spelled: Option<(Value, nat)>) -> bool {
    match outcome {
        Ok((data, used)) => spelled == Some((data.model(), used as nat)),
        Err(_) => spelled is None,
    }
}

/// The models of a run of decoded values.
pub open spec fn models(items: Seq<Data>) -> Seq<Value> {
    Seq::new(items.len(), |i: int| items[i].model())
}

/// Whether two byte strings have the same length and the same bytes from `from` on.
pub open spec fn agree_from(a: Seq<u8>, b: Seq<u8>, from: nat) -> bool {
    &&& a.len() == b.len()
    &&& forall|i: int| from <= i < a.len() ==> a[i] == b[i]
}

/// Decoding reads no byte before the offset it starts at and none before the base of
/// its pointers: two byte strings that agree from there on spell the same value.
pub proof fn lemma_decode_frame(
    a: Seq<u8>,
    b: Seq<u8>,
    base: nat,
    offset: nat,
    depth: nat,
    from: nat,
)
    requires
        agree_from(a, b, from),
        from <= base,
        from <= offset,
    ensures
        spec_decode(a, base, offset, depth) == spec_decode(b, base, offset, depth),
    decreases depth, 1nat, 0nat,
{
    if depth > 0 && offset < a.len() {
        assert(a.skip(offset as int) =~= b.skip(offset as int));
        match spec_header(a.skip(offset as int)) {
            None => {},
            Some((kind, length, head)) => {
                if kind == 1 {
                    match spec_pointer(a.skip(offset as int)) {
                        None => {},
                        Some((target, _)) => {
                            lemma_decode_frame(
                                a,
                                b,
                                base,
                                base + target,
                                (depth - 1) as nat,
                                from,
                            );
                        },
                    }
                } else if kind == 7 {
                    lemma_entries_frame(
                        a,
                        b,
                        base,
                        offset + head,
                        length,
                        (depth - 1) as nat,
                        no_fields(),
                        from,
                    );
                } else if kind == 11 {
                    lemma_items_frame(
                        a,
                        b,
                        base,
                        offset + head,
                        length,
                        (depth - 1) as nat,
                        Seq::empty(),
                        from,
                    );
                } else if kind != 14 && offset + head + length <= a.len() {
                    assert(a.subrange((offset + head) as int, (offset + head + length) as int)
                        =~= b.subrange((offset + head) as int, (offset + head + length) as int));
                }
            },
        }
    }
}

/// The pairs of a map are decoded alike from byte strings that agree from `from` on.
pub proof fn lemma_entries_frame(
    a: Seq<u8>,
    b: Seq<u8>,
    base: nat,
    offset: nat,
    count: nat,
    depth: nat,
    fields: Map<Seq<u8>, Value>,
    from: nat,
)
    requires
        agree_from(a, b, from),
        from <= base,
        from <= offset,
    ensures
        spec_decode_entries(a, base, offset, count, depth, fields) == spec_decode_entries(
            b,
            base,
            offset,
            count,
            depth,
            fields,
        ),
    decreases depth, 2nat, count,
{
    if count > 0 {
        lemma_decode_frame(a, b, base, offset, depth, from);
        match spec_decode(a, base, offset, depth) {
            Some((Value::String(key), used)) => {
                lemma_decode_frame(a, b, base, offset + used, depth, from);
                match spec_decode(a, base, offset + used, depth) {
                    Some((value, more)) => {
                        lemma_entries_frame(
                            a,
                            b,
                            base,
                            offset + used + more,
                            (count - 1) as nat,
                            depth,
                            fields.insert(key, value),
                            from,
                        );
                    },
                    None => {},
                }
            },
            _ => {},
        }
    }
}

/// The values of an array are decoded alike from byte strings that agree from `from`
/// on.
pub proof fn lemma_items_frame(
    a: Seq<u8>,
    b: Seq<u8>,
    base: nat,
    offset: nat,
    count: nat,
    depth: nat,
    items: Seq<Value>,
    from: nat,
)
    requires
        agree_from(a, b, from),
        from <= base,
        from <= offset,
    ensures
        spec_decode_items(a, base, offset, count, depth, items) == spec_decode_items(
            b,
            base,
            offset,
            count,
            depth,
            items,
        ),
    decreases depth, 2nat, count,
{
    if count > 0 {
        lemma_decode_frame(a, b, base, offset, depth, from);
        match spec_decode(a, base, offset, depth) {
            Some((value, used)) => {
                lemma_items_frame(
                    a,
                    b,
                    base,
                    offset + used,
                    (count - 1) as nat,
                    depth,
                    items.push(value),
                    from,
                );
            },
            None => {},
        }
    }
}

/// Reads up to sixteen bytes as one number, most significant byte first.
pub fn read_be(data: &[u8], offset: usize, length: usize) -> (number: u128)
    requires
        length <= 16,
        offset + length <= data@.len(),
    ensures
        number == be_value(data@.subrange(offset as int, offset + length)),
        number < pow256(length as nat),
{
    let mut number: u128 = 0;
    let mut i: usize = 0;
    let total: usize = data.len();
    proof {
        lemma_pow256_values();
        assert(data@.subrange(offset as int, offset + 0) =~= Seq::<u8>::empty());
    }
    while i < length
        invariant
            length <= 16,
            offset + length <= data@.len() == total,
            i <= length,
            number == be_value(data@.subrange(offset as int, offset + i)),
            number < pow256(i as nat),
        decreases length - i,
    {
        proof {
            lemma_pow256_values();
            let next = data@.subrange(offset as int, offset + i + 1);
            assert(next.drop_last() =~= data@.subrange(offset as int, offset + i));
            assert(next.last() == data@[offset + i]);
            assert(pow256((i + 1) as nat) == 256 * pow256(i as nat));
            assert(pow256((i + 1) as nat) <= pow256(16));
        }
        number = number * 256 + data[offset + i] as u128;
        i += 1;
    }
    number
}

impl MaxmindDB {
    /// Reads the header of the value that starts at the front of `data`: its type, its
    /// stated length and the number of header bytes.
    pub fn read_data_meta(data: &[u8]) -> (header: Result<(u8, usize, usize), DbError>)
        ensures
            match header {
                Ok((kind, length, read)) => spec_header(data@) == Some(
                    (kind, length as nat, read as nat),
                ) && read <= data@.len() && read <= 5 && length < 0x200_0000,
                Err(_) => spec_header(data@) is None,
            },
    {
        if data.len() == 0 {
            return Err(DbError::MalformedDb);
        }
        let first: u8 = data[0];
        let top: u8 = first >> 5;
        let low: u8 = first & 0b0001_1111;
        assert(first >> 5 == first / 32) by (bit_vector);
        assert(first & 0b0001_1111 == first % 32) by (bit_vector);
        let mut read: usize = 1;
        let mut data_type: u8 = top;
        if top == 0 {
            if data.len() < 2 || data[1] > 8 {
                return Err(DbError::MalformedDb);
            }
            data_type = data[1] + 7;
            read = 2;
        }
        if data_type == 1 || low < 29 {
            return Ok((data_type, low as usize, read));
        }
        let extra: usize = (low - 28) as usize;
        if data.len() < read + extra {
            return Err(DbError::MalformedDb);
        }
        proof {
            lemma_pow256_values();
        }
        let stated: u128 = read_be(data, read, extra);
        let bias: usize = if low == 29 {
            29
        } else if low == 30 {
            285
        } else {
            65821
        };
        Ok((data_type, bias + stated as usize, read + extra))
    }

    /// The value that the bytes from `offset` on spell, with pointers resolved against
    /// this database's data section.
    pub open spec fn spec_read(&self, offset: nat, depth: nat) -> Option<(Value, nat)> {
        spec_decode(self.data@, self.metadata.data_section_start as nat, offset, depth)
    }

    /// Decodes the value at `read_offset` and says how many bytes it takes there.
    /// Bytes that do not spell a value are refused.
    pub fn read_data(&self, read_offset: usize) -> (outcome: Result<(Data, usize), DbError>)
        ensures
            decoded_as(outcome, self.spec_read(read_offset as nat, MAX_NESTING as nat)),
    {
        self.read_nested(read_offset, MAX_NESTING)
    }

    /// Decodes the value at `read_offset`, which may nest `depth` levels deep.
    pub fn read_nested(&self, read_offset: usize, depth: usize) -> (outcome: Result<
        (Data, usize),
        DbError,
    >)
        ensures
            decoded_as(outcome, self.spec_read(read_offset as nat, depth as nat)),
            outcome matches Ok((_, used)) ==> read_offset + used <= self.data@.len(),
        decreases depth, 1nat,
    {
        let total: usize = self.data.len();
        if depth == 0 || read_offset >= total {
            return Err(DbError::MalformedDb);
        }
        let data: &[u8] = &self.data.as_slice()[read_offset..total];
        assert(data@ == self.data@.skip(read_offset as int));
        let (data_type, length, read) = match Self::read_data_meta(data) {
            Ok(header) => header,
            Err(e) => {
                return Err(e);
            },
        };
        let start: usize = read_offset + read;
        if data_type == 1 {
            return self.follow_pointer(read_offset, depth);
        }
        if data_type == 7 {
            return self.read_map(read_offset, read, length, depth - 1);
        }
        if data_type == 11 {
            return self.read_array(read_offset, read, length, depth - 1);
        }
        if data_type == 14 {
            return Ok((Data::Boolean(length == 1), read));
        }
        if length > total - start {
            return Err(DbError::MalformedDb);
        }
        let payload: &[u8] = &self.data.as_slice()[start..start + length];
        if data_type == 2 {
            Ok((Data::String(vstd::slice::slice_to_vec(payload)), read + length))
        } else if data_type == 3 && length == 8 {
            Ok((Self::read_float::<8>(payload), read + length))
        } else if data_type == 4 {
            Ok((Data::Bytes(vstd::slice::slice_to_vec(payload)), read + length))
        } else if data_type == 5 && length <= 2 {
            Ok((self.read_u16(start, length), read + length))
        } else if data_type == 6 && length <= 4 {
            Ok((self.read_u32(start, length), read + length))
        } else if data_type == 8 && length <= 4 {
            Ok((self.read_i32(start, length), read + length))
        } else if data_type == 9 && length <= 8 {
            Ok((self.read_u64(start, length), read + length))
        } else if data_type == 10 && length <= 16 {
            Ok((self.read_u128(start, length), read + length))
        } else if data_type == 15 && length == 4 {
            Ok((Self::read_float::<4>(payload), read + length))
        } else {
            Err(DbError::MalformedDb)
        }
    }

    /// Decodes `length` pairs of key and value that follow the `read` header bytes of
    /// the map at `offset`.
    fn read_map(&self, offset: usize, read: usize, length: usize, depth: usize) -> (outcome: Result<
        (Data, usize),
        DbError,
    >)
        requires
            offset + read <= self.data@.len(),
        ensures
            match outcome {
                Ok((data, used)) => data.model() matches Value::Mapping(fields)
                    && spec_decode_entries(
                    self.data@,
                    self.metadata.data_section_start as nat,
                    (offset + read) as nat,
                    length as nat,
                    depth as nat,
                    no_fields(),
                ) == Some((fields, (offset + used) as nat)) && offset + used <= self.data@.len(),
                Err(_) => spec_decode_entries(
                    self.data@,
                    self.metadata.data_section_start as nat,
                    (offset + read) as nat,
                    length as nat,
                    depth as nat,
                    no_fields(),
                ) is None,
            },
        decreases depth, 2nat,
    {
        let mut map = record_new();
        let total: usize = self.data.len();
        let mut position: usize = offset + read;
        let mut remaining: usize = length;
        let ghost base = self.metadata.data_section_start as nat;
        while remaining > 0
            invariant
                offset + read <= position <= self.data@.len() == total,
                base == self.metadata.data_section_start as nat,
                spec_decode_entries(
                    self.data@,
                    base,
                    (offset + read) as nat,
                    length as nat,
                    depth as nat,
                    no_fields(),
                ) == spec_decode_entries(
                    self.data@,
                    base,
                    position as nat,
                    remaining as nat,
                    depth as nat,
                    record_fields(map),
                ),
            decreases remaining,
        {
            let (key, key_len) = match self.read_nested(position, depth) {
                Ok(pair) => pair,
                Err(e) => {
                    return Err(e);
                },
            };
            let (value, value_len) = match self.read_nested(position + key_len, depth) {
                Ok(pair) => pair,
                Err(e) => {
                    return Err(e);
                },
            };
            let key = match key {
                Data::String(bytes) => bytes,
                _ => {
                    return Err(DbError::MalformedDb);
                },
            };
            record_insert(&mut map, key, value);
            position = position + key_len + value_len;
            remaining -= 1;
        }
        Ok((Data::Mapping(map), position - offset))
    }

    /// Decodes `length` values that follow the `read` header bytes of the array at
    /// `offset`.
    fn read_array(&self, offset: usize, read: usize, length: usize, depth: usize) -> (outcome:
        Result<(Data, usize), DbError>)
        requires
            offset + read <= self.data@.len(),
        ensures
            match outcome {
                Ok((data, used)) => data.model() matches Value::Array(items) && spec_decode_items(
                    self.data@,
                    self.metadata.data_section_start as nat,
                    (offset + read) as nat,
                    length as nat,
                    depth as nat,
                    Seq::empty(),
                ) == Some((items, (offset + used) as nat)) && offset + used <= self.data@.len(),
                Err(_) => spec_decode_items(
                    self.data@,
                    self.metadata.data_section_start as nat,
                    (offset + read) as nat,
                    length as nat,
                    depth as nat,
                    Seq::empty(),
                ) is None,
            },
        decreases depth, 2nat,
    {
        let mut out: Vec<Data> = Vec::new();
        let total: usize = self.data.len();
        let mut position: usize = offset + read;
        let mut remaining: usize = length;
        let ghost base = self.metadata.data_section_start as nat;
        proof {
            assert(models(out@) =~= Seq::<Value>::empty());
        }
        while remaining > 0
            invariant
                offset + read <= position <= self.data@.len() == total,
                base == self.metadata.data_section_start as nat,
                spec_decode_items(
                    self.data@,
                    base,
                    (offset + read) as nat,
                    length as nat,
                    depth as nat,
                    Seq::empty(),
                ) == spec_decode_items(
                    self.data@,
                    base,
                    position as nat,
                    remaining as nat,
                    depth as nat,
                    models(out@),
                ),
            decreases remaining,
        {
            let (value, value_len) = match self.read_nested(position, depth) {
                Ok(pair) => pair,
                Err(e) => {
                    return Err(e);
                },
            };
            proof {
                assert(models(out@.push(value)) =~= models(out@).push(value.model()));
            }
            out.push(value);
            position = position + value_len;
            remaining -= 1;
        }
        let data = Data::Array(out);
        proof {
            assert(data.model() matches Value::Array(items) && items =~= models(out@));
        }
        Ok((data, position - offset))
    }

    /// Decodes the value that the pointer at `offset` leads to.  The bytes taken are
    /// those of the pointer alone.
    fn follow_pointer(&self, offset: usize, depth: usize) -> (outcome: Result<
        (Data, usize),
        DbError,
    >)
        requires
            depth > 0,
            offset < self.data@.len(),
        ensures
            decoded_as(
                outcome,
                spec_follow(
                    self.data@,
                    self.metadata.data_section_start as nat,
                    offset as nat,
                    depth as nat,
                ),
            ),
            outcome matches Ok((_, used)) ==> offset + used <= self.data@.len(),
        decreases depth, 0nat,
    {
        let total: usize = self.data.len();
        let data: &[u8] = &self.data.as_slice()[offset..total];
        assert(data@ == self.data@.skip(offset as int));
        let first: u8 = data[0];
        let size: u8 = (first >> 3) & 0x3;
        let top: u8 = first & 0b0000_0111;
        assert((first >> 3) & 0x3 == (first / 8) % 4) by (bit_vector);
        assert(first & 0b0000_0111 == first % 8) by (bit_vector);
        let taken: usize = size as usize + 2;
        if data.len() < taken {
            return Err(DbError::MalformedDb);
        }
        proof {
            lemma_pow256_values();
        }
        let rest: u128 = read_be(data, 1, size as usize + 1);
        let pointer: u128 = if size == 0 {
            (top as u128) * 0x100 + rest
        } else if size == 1 {
            (top as u128) * 0x1_0000 + rest + 2048
        } else if size == 2 {
            (top as u128) * 0x100_0000 + rest + 526336
        } else {
            rest
        };
        let base: usize = self.metadata.data_section_start;
        if base >= total || pointer >= (total - base) as u128 {
            return Err(DbError::MalformedDb);
        }
        match self.read_nested(base + pointer as usize, depth - 1) {
            Ok((value, _)) => Ok((value, taken)),
            Err(e) => Err(e),
        }
    }

    /// Reads an unsigned 16-bit number of up to two bytes.
    fn read_u16(&self, offset: usize, length: usize) -> (data: Data)
        requires
            length <= 2,
            offset + length <= self.data@.len(),
        ensures
            data.model() == Value::U16(
                be_value(self.data@.subrange(offset as int, offset + length)) as u16,
            ),
    {
        proof {
            lemma_pow256_values();
        }
        Data::U16(read_be(self.data.as_slice(), offset, length) as u16)
    }

    /// Reads a signed 32-bit number of up to four bytes.
    fn read_i32(&self, offset: usize, length: usize) -> (data: Data)
        requires
            length <= 4,
            offset + length <= self.data@.len(),
        ensures
            data.model() == Value::I32(
                as_signed(be_value(self.data@.subrange(offset as int, offset + length))) as i32,
            ),
    {
        proof {
            lemma_pow256_values();
        }
        let bits: u32 = read_be(self.data.as_slice(), offset, length) as u32;
        if bits < 0x8000_0000 {
            Data::I32(bits as i32)
        } else {
            Data::I32((bits - 0x8000_0000) as i32 + i32::MIN)
        }
    }

    /// Reads an unsigned 32-bit number of up to four bytes.
    fn read_u32(&self, offset: usize, length: usize) -> (data: Data)
        requires
            length <= 4,
            offset + length <= self.data@.len(),
        ensures
            data.model() == Value::U32(
                be_value(self.data@.subrange(offset as int, offset + length)) as u32,
            ),
    {
        proof {
            lemma_pow256_values();
        }
        Data::U32(read_be(self.data.as_slice(), offset, length) as u32)
    }

    /// Reads an unsigned 64-bit number of up to eight bytes.
    fn read_u64(&self, offset: usize, length: usize) -> (data: Data)
        requires
            length <= 8,
            offset + length <= self.data@.len(),
        ensures
            data.model() == Value::U64(
                be_value(self.data@.subrange(offset as int, offset + length)) as u64,
            ),
    {
        proof {
            lemma_pow256_values();
        }
        Data::U64(read_be(self.data.as_slice(), offset, length) as u64)
    }

    /// Reads an unsigned 128-bit number of up to sixteen bytes.
    fn read_u128(&self, offset: usize, length: usize) -> (data: Data)
        requires
            length <= 16,
            offset + length <= self.data@.len(),
        ensures
            data.model() == Value::U128(
                be_value(self.data@.subrange(offset as int, offset + length)) as u128,
            ),
    {
        Data::U128(read_be(self.data.as_slice(), offset, length))
    }

    /// Reads the bit pattern of a floating-point number of `T` bytes: four for single
    /// precision, eight for double precision.
    fn read_float<const T: usize>(d: &[u8]) -> (data: Data)
        requires
            T == 4 || T == 8,
            d@.len() == T,
        ensures
            T == 4 ==> data.model() == Value::Float(be_value(d@) as u32),
            T == 8 ==> data.model() == Value::Double(be_value(d@) as u64),
    {
        proof {
            lemma_pow256_values();
            assert(d@.subrange(0, T as int) =~= d@);
        }
        let bits: u128 = read_be(d, 0, T);
        if T == 4 {
            Data::Float(bits as u32)
        } else {
            Data::Double(bits as u64)
        }
    }
}

} // verus!
