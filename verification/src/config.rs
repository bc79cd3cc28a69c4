use crate::common::MaxmindDbType;
use crate::compact::compacted_by;
use crate::compact::decides_as;
use crate::compact::lemma_compacted_by_rule;
use crate::compact::visited;
use crate::maxmind::DbError;
use crate::maxmind::MaxmindDB;
use crate::maxmind::ProcessedDb;
use crate::node::BLOCK_MARKER;
use crate::value::record_fields;
use crate::value::record_get;
use crate::value::Data;
use crate::value::Value;
use fxhash::FxHashMap;
use fxhash::FxHashSet;
use vstd::prelude::*;
use vstd::string::StringExecFns;
use vstd::string::StringSliceAdditionalSpecFns;
use vstd::utf8::valid_utf8;

verus! {

/// Where the databases come from and where they are kept.
#[derive(Debug, Clone, PartialEq)]
pub struct Db {
    pub maxmind_key: String,
    pub refresh_interval: i64,
    pub path: String,
}

/// What the filter is set up with.
#[derive(Debug, PartialEq)]
pub struct Config {
    pub db: Db,
    pub interface: String,
    pub source_countries: FxHashSet<String>,
    pub source_asn: FxHashSet<u32>,
}

/// The byte strings of the country codes that a set holds.
pub uninterp spec fn country_codes(set: FxHashSet<String>) -> Set<Seq<u8>>;

/// The set without country codes.
pub open spec fn no_codes() -> Set<Seq<u8>> {
    Set::empty()
}

/// The set without numbers.
pub open spec fn no_numbers() -> Set<u32> {
    Set::empty()
}

/// `HashSet::default` for a set of strings with the hasher of `fxhash`: a set without
/// members.
#[verifier::external_body]
fn empty_countries() -> (created: FxHashSet<String>)
    ensures
        country_codes(created) == no_codes(),
{
    FxHashSet::default()
}

/// `HashSet::default` for a set of numbers with the hasher of `fxhash`: a set without
/// members.
#[verifier::external_body]
fn empty_asns() -> (created: FxHashSet<u32>)
    ensures
        created@ == no_numbers(),
{
    FxHashSet::default()
}

/// `str::from_utf8`, without the details of its error: the bytes as text where they
/// are valid UTF-8, and nothing where they are not.
#[verifier::external_body]
fn utf8_text(code: &[u8]) -> (text: Option<&str>)
    ensures
        text is Some <==> valid_utf8(code@),
        text matches Some(t) ==> t.spec_bytes() == code@,
{
    std::str::from_utf8(code).ok()
}

/// `HashSet::contains` on a set of strings with the hasher of `fxhash`: whether the
/// set holds a string of exactly the bytes of the text.
#[verifier::external_body]
fn country_listed(set: &FxHashSet<String>, text: &str) -> (listed: bool)
    ensures
        listed == country_codes(*set).contains(text.spec_bytes()),
{
    set.contains(text)
}

/// `HashSet::contains` on a set of numbers with the hasher of `fxhash`: whether the set
/// holds the number.
#[verifier::external_body]
fn asn_listed(set: &FxHashSet<u32>, asn: u32) -> (listed: bool)
    ensures
        listed == set@.contains(asn),
{
    set.contains(&asn)
}

impl Default for Db {
    fn default() -> (db: Self)
        ensures
            db.maxmind_key@ == ""@,
            db.refresh_interval == 86400,
            db.path@ == "/tmp/geofw"@,
    {
        Db {
            maxmind_key: String::from_str(""),
            refresh_interval: 86400,
            path: String::from_str("/tmp/geofw"),
        }
    }
}

impl Default for Config {
    fn default() -> (config: Self)
        ensures
            config.db.maxmind_key@ == ""@,
            config.db.refresh_interval == 86400,
            config.db.path@ == "/tmp/geofw"@,
            config.interface@ == "enp1s0"@,
            country_codes(config.source_countries) == no_codes(),
            config.source_asn@ == no_numbers(),
    {
        Config {
            db: Db::default(),
            interface: String::from_str("enp1s0"),
            source_countries: empty_countries(),
            source_asn: empty_asns(),
        }
    }
}

/// Whether a record of the country database is blocked: its `country` is a map whose
/// `iso_code` is a string that is text and that the set of countries holds.
pub open spec fn spec_blocks_country(countries: Set<Seq<u8>>, record: Map<Seq<u8>, Value>) -> bool {
    &&& record.contains_key("country".spec_bytes())
    &&& record["country".spec_bytes()] matches Value::Mapping(country)
    &&& country.contains_key("iso_code".spec_bytes())
    &&& country["iso_code".spec_bytes()] matches Value::String(code)
    &&& valid_utf8(code)
    &&& countries.contains(code)
}

/// Whether a record of the ASN database is blocked: its `autonomous_system_number`
/// is an unsigned 32-bit number that the set of numbers holds.
pub open spec fn spec_blocks_asn(numbers: Set<u32>, record: Map<Seq<u8>, Value>) -> bool {
    &&& record.contains_key("autonomous_system_number".spec_bytes())
    &&& record["autonomous_system_number".spec_bytes()] matches Value::U32(asn)
    &&& numbers.contains(asn)
}

impl Config {
    /// Whether the configuration blocks a record of the given kind of database.
    pub open spec fn spec_blocks(&self, db_type: MaxmindDbType, record: Map<Seq<u8>, Value>) -> bool {
        match db_type {
            MaxmindDbType::Country => spec_blocks_country(
                country_codes(self.source_countries),
                record,
            ),
            MaxmindDbType::Asn => spec_blocks_asn(self.source_asn@, record),
        }
    }

    /// Whether a record of the country database names a country that is blocked.
    pub fn blocks_country(&self, record: &FxHashMap<Vec<u8>, Data>) -> (blocked: bool)
        ensures
            blocked == spec_blocks_country(
                country_codes(self.source_countries),
                record_fields(*record),
            ),
    {
        let country = match record_get(record, "country".as_bytes()) {
            Some(Data::Mapping(country)) => country,
            _ => {
                return false;
            },
        };
        let iso_code = match record_get(country, "iso_code".as_bytes()) {
            Some(Data::String(iso_code)) => iso_code,
            _ => {
                return false;
            },
        };
        match utf8_text(iso_code.as_slice()) {
            Some(text) => country_listed(&self.source_countries, text),
            None => false,
        }
    }

    /// Whether a record of the ASN database names a system that is blocked.
    pub fn blocks_asn(&self, record: &FxHashMap<Vec<u8>, Data>) -> (blocked: bool)
        ensures
            blocked == spec_blocks_asn(self.source_asn@, record_fields(*record)),
    {
        let asn: u32 = match record_get(record, "autonomous_system_number".as_bytes()) {
            Some(Data::U32(asn)) => *asn,
            _ => {
                return false;
            },
        };
        asn_listed(&self.source_asn, asn)
    }

    /// The rule by which the configuration blocks records of a kind of database.
    pub open spec fn spec_rule(&self, db_type: MaxmindDbType) -> spec_fn(
        Map<Seq<u8>, Value>,
    ) -> bool {
        |record: Map<Seq<u8>, Value>| self.spec_blocks(db_type, record)
    }

    /// Compacts a database of the given kind under the configuration: a record of the
    /// country database is blocked by its country, a record of the ASN database by its
    /// number.
    pub fn compact(&self, db: MaxmindDB, db_type: MaxmindDbType) -> (outcome: Result<
        ProcessedDb,
        DbError,
    >)
        requires
            db.wf(),
        ensures
            match outcome {
                Ok(processed) => processed.node_count == db.metadata.node_count
                    && processed.record_size == db.metadata.record_size
                    && db.metadata.node_count < BLOCK_MARKER && compacted_by(
                    db,
                    self.spec_rule(db_type),
                    processed.db@,
                ),
                Err(_) => db.metadata.node_count >= BLOCK_MARKER || exists|
                    node: u32,
                    right: bool,
                |
                    node < db.metadata.node_count && visited(
                        db.data@,
                        db.metadata.record_size,
                        db.metadata.node_count,
                        node,
                    ) && #[trigger] db.slot_broken(node, right),
            },
    {
        let ghost given = db;
        match db_type {
            MaxmindDbType::Country => {
                let rule = |data: FxHashMap<Vec<u8>, Data>| -> (blocked: bool)
                    ensures
                        blocked == spec_blocks_country(
                            country_codes(self.source_countries),
                            record_fields(data),
                        ),
                    { self.blocks_country(&data) };
                let outcome = db.consume(rule);
                proof {
                    if outcome is Ok {
                        assert(decides_as(rule, self.spec_rule(db_type)));
                        lemma_compacted_by_rule(
                            given,
                            rule,
                            self.spec_rule(db_type),
                            outcome->Ok_0.db@,
                        );
                    }
                }
                outcome
            },
            MaxmindDbType::Asn => {
                let rule = |data: FxHashMap<Vec<u8>, Data>| -> (blocked: bool)
                    ensures
                        blocked == spec_blocks_asn(self.source_asn@, record_fields(data)),
                    { self.blocks_asn(&data) };
                let outcome = db.consume(rule);
                proof {
                    if outcome is Ok {
                        assert(decides_as(rule, self.spec_rule(db_type)));
                        lemma_compacted_by_rule(
                            given,
                            rule,
                            self.spec_rule(db_type),
                            outcome->Ok_0.db@,
                        );
                    }
                }
                outcome
            },
        }
    }
}

/// The address from which the provider hands out the database of an edition to the
/// holder of a licence key.
pub fn download_url(db_type: MaxmindDbType, license_key: &str) -> (url: String)
    ensures
        url@ == "https://download.maxmind.com/app/geoip_download?edition_id="@ + (match db_type {
            MaxmindDbType::Country => "GeoLite2-Country"@,
            MaxmindDbType::Asn => "GeoLite2-ASN"@,
        }) + "&license_key="@ + license_key@ + "&suffix=tar.gz"@,
{
    let mut url = String::from_str("https://download.maxmind.com/app/geoip_download?edition_id=");
    url.append(db_type.name());
    url.append("&license_key=");
    url.append(license_key);
    url.append("&suffix=tar.gz");
    url
}

/// The name of the file in which the database of an edition is kept.
pub fn cache_file_name(db_type: MaxmindDbType) -> (name: String)
    ensures
        name@ == (match db_type {
            MaxmindDbType::Country => "GeoLite2-Country"@,
            MaxmindDbType::Asn => "GeoLite2-ASN"@,
        }) + ".mmdb"@,
{
    let mut name = String::from_str(db_type.name());
    name.append(".mmdb");
    name
}

} // verus!
