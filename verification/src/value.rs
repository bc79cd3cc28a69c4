use fxhash::FxHashMap;
use vstd::prelude::*;

verus! {

/// The hasher state of `fxhash`, carried opaquely inside its maps and sets.
#[verifier::external_type_specification]
#[verifier::external_body]
pub struct ExFxHasher(fxhash::FxHasher);

/// std's hasher factory, which `fxhash` instantiates with its own hasher.
#[verifier::external_type_specification]
#[verifier::external_body]
#[verifier::reject_recursive_types(H)]
pub struct ExBuildHasherDefault<H>(std::hash::BuildHasherDefault<H>);

/// Mathematical model of a decoded value.
pub ghost enum Value {
    String(Seq<u8>),
    Double(u64),
    Bytes(Seq<u8>),
    U16(u16),
    U32(u32),
    Mapping(Map<Seq<u8>, Value>),
    I32(i32),
    U64(u64),
    U128(u128),
    Array(Seq<Value>),
    DataCache,
    End,
    Boolean(bool),
    Float(u32),
}

/// A decoded value.  Floating-point payloads are kept as their raw bit patterns.
#[derive(Debug, PartialEq)]
pub enum Data {
    String(Vec<u8>),
    Double(u64),
    Bytes(Vec<u8>),
    U16(u16),
    U32(u32),
    Mapping(FxHashMap<Vec<u8>, Data>),
    I32(i32),
    U64(u64),
    U128(u128),
    Array(Vec<Data>),
    DataCache,
    End,
    Boolean(bool),
    Float(u32),
}

/// The entries that a record map holds: the bytes of each key, and under them the
/// model of the value kept for that key.
pub uninterp spec fn record_fields(m: FxHashMap<Vec<u8>, Data>) -> Map<Seq<u8>, Value>;

impl Data {
    /// The value in mathematical terms: byte strings as sequences, maps by their
    /// entries, arrays by the models of their items.
    pub open spec fn model(self) -> Value
        decreases self,
    {
        match self {
            Data::String(s) => Value::String(s@),
            Data::Double(b) => Value::Double(b),
            Data::Bytes(s) => Value::Bytes(s@),
            Data::U16(v) => Value::U16(v),
            Data::U32(v) => Value::U32(v),
            Data::Mapping(m) => Value::Mapping(record_fields(m)),
            Data::I32(v) => Value::I32(v),
            Data::U64(v) => Value::U64(v),
            Data::U128(v) => Value::U128(v),
            Data::Array(items) => Value::Array(
                Seq::new(
                    items@.len(),
                    |i: int|
                        if 0 <= i < items@.len() {
                            items@[i].model()
                        } else {
                            Value::End
                        },
                ),
            ),
            Data::DataCache => Value::DataCache,
            Data::End => Value::End,
            Data::Boolean(b) => Value::Boolean(b),
            Data::Float(b) => Value::Float(b),
        }
    }
}

/// The record map without entries.
pub open spec fn no_fields() -> Map<Seq<u8>, Value> {
    Map::empty()
}

/// `HashMap::default` for a map with the hasher of `fxhash`: a map without entries.
#[verifier::external_body]
pub(crate) fn record_new() -> (created: FxHashMap<Vec<u8>, Data>)
    ensures
        record_fields(created) == no_fields(),
{
    FxHashMap::default()
}

/// `HashMap::insert` on a map with the hasher of `fxhash`: the value is kept under the
/// bytes of the key, in place of what was kept there, and every other entry stays.
#[verifier::external_body]
pub(crate) fn record_insert(m: &mut FxHashMap<Vec<u8>, Data>, key: Vec<u8>, value: Data)
    ensures
        record_fields(*final(m)) == record_fields(*old(m)).insert(key@, value.model()),
{
    m.insert(key, value);
}

/// `HashMap::get` on a map with the hasher of `fxhash`: the value kept under the bytes
/// of the key, and none where the map has no such key.
#[verifier::external_body]
pub(crate) fn record_get<'a>(m: &'a FxHashMap<Vec<u8>, Data>, key: &[u8]) -> (found: Option<
    &'a Data,
>)
    ensures
        match found {
            Some(d) => record_fields(*m).contains_key(key@) && record_fields(*m)[key@] == d.model(),
            None => !record_fields(*m).contains_key(key@),
        },
{
    m.get(key)
}

} // verus!
