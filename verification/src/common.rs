use std::collections::HashMap;
use vstd::prelude::*;

verus! {

broadcast use vstd::std_specs::hash::group_hash_axioms;

/// The entries of the parameter table.
#[derive(Debug, Clone, Copy, PartialEq, Eq, Structural)]
pub enum ProgramParameters {
    CountryNodeCount,
    CountryRecordSize,
    AsnNodeCount,
    AsnRecordSize,
}

/// The kinds of database that the filter consults.
#[derive(Debug, Clone, Copy, PartialEq, Eq, Structural)]
pub enum MaxmindDbType {
    Country,
    Asn,
}

impl ProgramParameters {
    /// The small integer under which the entry is kept in the parameter table.
    pub open spec fn spec_key(self) -> u8 {
        match self {
            ProgramParameters::CountryNodeCount => 1,
            ProgramParameters::CountryRecordSize => 2,
            ProgramParameters::AsnNodeCount => 3,
            ProgramParameters::AsnRecordSize => 4,
        }
    }

    /// The small integer under which the entry is kept in the parameter table.
    pub fn key(self) -> (k: u8)
        ensures
            k == self.spec_key(),
    {
        match self {
            ProgramParameters::CountryNodeCount => 1,
            ProgramParameters::CountryRecordSize => 2,
            ProgramParameters::AsnNodeCount => 3,
            ProgramParameters::AsnRecordSize => 4,
        }
    }
}

impl MaxmindDbType {
    /// The entry that holds the node count of this kind of database.
    pub open spec fn spec_node_count_entry(self) -> ProgramParameters {
        match self {
            MaxmindDbType::Country => ProgramParameters::CountryNodeCount,
            MaxmindDbType::Asn => ProgramParameters::AsnNodeCount,
        }
    }

    /// The entry that holds the record size of this kind of database.
    pub open spec fn spec_record_size_entry(self) -> ProgramParameters {
        match self {
            MaxmindDbType::Country => ProgramParameters::CountryRecordSize,
            MaxmindDbType::Asn => ProgramParameters::AsnRecordSize,
        }
    }

    /// The entry that holds the node count of this kind of database.
    pub fn node_count_entry(self) -> (entry: ProgramParameters)
        ensures
            entry == self.spec_node_count_entry(),
    {
        match self {
            MaxmindDbType::Country => ProgramParameters::CountryNodeCount,
            MaxmindDbType::Asn => ProgramParameters::AsnNodeCount,
        }
    }

    /// The entry that holds the record size of this kind of database.
    pub fn record_size_entry(self) -> (entry: ProgramParameters)
        ensures
            entry == self.spec_record_size_entry(),
    {
        match self {
            MaxmindDbType::Country => ProgramParameters::CountryRecordSize,
            MaxmindDbType::Asn => ProgramParameters::AsnRecordSize,
        }
    }

    /// The name of the edition, as the provider spells it.
    pub fn name(self) -> (text: &'static str)
        ensures
            text@ == (match self {
                MaxmindDbType::Country => "GeoLite2-Country"@,
                MaxmindDbType::Asn => "GeoLite2-ASN"@,
            }),
    {
        match self {
            MaxmindDbType::Country => "GeoLite2-Country",
            MaxmindDbType::Asn => "GeoLite2-ASN",
        }
    }
}

/// The table through which the control plane tells the fast path the shape of each
/// image: small integer keys with 32-bit values.
pub struct ParameterTable {
    pub entries: HashMap<u8, u32>,
}

impl View for ParameterTable {
    type V = Map<u8, u32>;

    open spec fn view(&self) -> Map<u8, u32> {
        self.entries@
    }
}

impl ParameterTable {
    /// A table without entries.
    pub fn new() -> (table: Self)
        ensures
            table@ == Map::<u8, u32>::empty(),
    {
        ParameterTable { entries: HashMap::new() }
    }

    /// The value kept under an entry, if any.
    pub fn get(&self, entry: ProgramParameters) -> (value: Option<u32>)
        ensures
            value == (if self@.contains_key(entry.spec_key()) {
                Some(self@[entry.spec_key()])
            } else {
                None
            }),
    {
        let k: u8 = entry.key();
        match self.entries.get(&k) {
            Some(v) => Some(*v),
            None => None,
        }
    }

    /// Sets the value kept under an entry.
    pub fn insert(&mut self, entry: ProgramParameters, value: u32)
        ensures
            final(self)@ == old(self)@.insert(entry.spec_key(), value),
    {
        self.entries.insert(entry.key(), value);
    }
}

} // verus!
