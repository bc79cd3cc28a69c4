use crate::common::MaxmindDbType;
use crate::common::ParameterTable;
use crate::maxmind::ProcessedDb;
use crate::packet::geofw;
use crate::packet::spec_geofw;
use crate::packet::Verdict;
use vstd::prelude::*;

verus! {

/// The number of bytes that the region for the country image holds: 50 MiB.
pub const COUNTRY_CAPACITY: u32 = 52_428_800;

/// The number of bytes that the region for the ASN image holds: 20 MiB.
pub const ASN_CAPACITY: u32 = 20_971_520;

/// One write into the shared channel.
#[derive(Debug, Clone, Copy, PartialEq, Eq, Structural)]
pub enum MapWrite {
    /// Sets one byte of the image of a database kind.
    Image { index: u32, byte: u8 },
    /// Sets one entry of the parameter table.
    Parameter { key: u8, value: u32 },
}

/// Why an image could not be installed.
#[derive(Debug, Clone, Copy, PartialEq, Eq, Structural)]
pub enum ChannelError {
    /// The image does not fit into its region.
    MapWriteError,
}

/// The number of bytes that the region for a database kind holds.
pub open spec fn spec_capacity(db_type: MaxmindDbType) -> u32 {
    match db_type {
        MaxmindDbType::Country => COUNTRY_CAPACITY,
        MaxmindDbType::Asn => ASN_CAPACITY,
    }
}

/// The write that a refresh makes at step `step`: first the bytes of the image, in
/// order, then the node count, then the record size.  After that there is none.
pub open spec fn spec_write(
    image: Seq<u8>,
    node_count: u32,
    record_size: u16,
    db_type: MaxmindDbType,
    step: nat,
) -> Option<MapWrite> {
    if step < image.len() {
        Some(MapWrite::Image { index: step as u32, byte: image[step as int] })
    } else if step == image.len() {
        Some(
            MapWrite::Parameter {
                key: db_type.spec_node_count_entry().spec_key(),
                value: node_count,
            },
        )
    } else if step == image.len() + 1 {
        Some(
            MapWrite::Parameter {
                key: db_type.spec_record_size_entry().spec_key(),
                value: record_size as u32,
            },
        )
    } else {
        None
    }
}

/// What the shared channel holds for one database kind: the bytes of its region and
/// the parameter table.
pub struct ChannelState {
    pub region: Seq<u8>,
    pub parameters: Map<u8, u32>,
}

/// The channel after one write.  A byte outside the region is not written.
pub open spec fn spec_apply(state: ChannelState, write: MapWrite) -> ChannelState {
    match write {
        MapWrite::Image { index, byte } => ChannelState {
            region: if index < state.region.len() {
                state.region.update(index as int, byte)
            } else {
                state.region
            },
            parameters: state.parameters,
        },
        MapWrite::Parameter { key, value } => ChannelState {
            region: state.region,
            parameters: state.parameters.insert(key, value),
        },
    }
}

/// The channel after the first `steps` writes of a refresh.
pub open spec fn spec_after(
    state: ChannelState,
    image: Seq<u8>,
    node_count: u32,
    record_size: u16,
    db_type: MaxmindDbType,
    steps: nat,
) -> ChannelState
    decreases steps,
{
    if steps == 0 {
        state
    } else {
        let earlier = spec_after(
            state,
            image,
            node_count,
            record_size,
            db_type,
            (steps - 1) as nat,
        );
        match spec_write(image, node_count, record_size, db_type, (steps - 1) as nat) {
            Some(write) => spec_apply(earlier, write),
            None => earlier,
        }
    }
}

/// The number of bytes that the region for a database kind holds.
pub fn capacity(db_type: MaxmindDbType) -> (bytes: u32)
    ensures
        bytes == spec_capacity(db_type),
{
    match db_type {
        MaxmindDbType::Country => COUNTRY_CAPACITY,
        MaxmindDbType::Asn => ASN_CAPACITY,
    }
}

/// Checks that an image fits into the region of its database kind, and says how many
/// writes its refresh takes: one per byte and two for the parameters.
pub fn plan_refresh(processed: &ProcessedDb, db_type: MaxmindDbType) -> (outcome: Result<
    usize,
    ChannelError,
>)
    ensures
        outcome == (if processed.db@.len() <= spec_capacity(db_type) {
            Ok::<usize, ChannelError>((processed.db@.len() + 2) as usize)
        } else {
            Err(ChannelError::MapWriteError)
        }),
{
    if processed.db.len() <= capacity(db_type) as usize {
        Ok(processed.db.len() + 2)
    } else {
        Err(ChannelError::MapWriteError)
    }
}

/// The write that the refresh of an image makes at step `step`.
pub fn next_write(processed: &ProcessedDb, db_type: MaxmindDbType, step: usize) -> (write: Option<
    MapWrite,
>)
    requires
        processed.db@.len() <= spec_capacity(db_type),
    ensures
        write == spec_write(
            processed.db@,
            processed.node_count,
            processed.record_size,
            db_type,
            step as nat,
        ),
{
    let len: usize = processed.db.len();
    if step < len {
        Some(MapWrite::Image { index: step as u32, byte: processed.db[step] })
    } else if step == len {
        Some(
            MapWrite::Parameter {
                key: db_type.node_count_entry().key(),
                value: processed.node_count,
            },
        )
    } else if step - len == 1 {
        Some(
            MapWrite::Parameter {
                key: db_type.record_size_entry().key(),
                value: processed.record_size as u32,
            },
        )
    } else {
        None
    }
}

/// While the image is being written the parameter table is as it was, and once a
/// parameter has been written the region holds the whole image: whoever sees a
/// parameter of a refresh sees its image behind it.
pub proof fn theorem_parameters_after_image(
    state: ChannelState,
    image: Seq<u8>,
    node_count: u32,
    record_size: u16,
    db_type: MaxmindDbType,
    steps: nat,
)
    requires
        image.len() <= state.region.len(),
        image.len() <= u32::MAX,
    ensures
        ({
            let now = spec_after(state, image, node_count, record_size, db_type, steps);
            &&& now.region.len() == state.region.len()
            &&& steps <= image.len() ==> now.parameters == state.parameters
            &&& forall|i: int| 0 <= i < steps && i < image.len() ==> now.region[i] == image[i]
            &&& forall|i: int| steps <= i < state.region.len() ==> now.region[i] == state.region[i]
            &&& steps > image.len() ==> now.region.subrange(0, image.len() as int) == image
                && now.parameters[db_type.spec_node_count_entry().spec_key()] == node_count
            &&& steps > image.len() + 1 ==> now.parameters[db_type.spec_record_size_entry().spec_key()]
                == record_size
        }),
    decreases steps,
{
    if steps > 0 {
        theorem_parameters_after_image(
            state,
            image,
            node_count,
            record_size,
            db_type,
            (steps - 1) as nat,
        );
        let now = spec_after(state, image, node_count, record_size, db_type, steps);
        if steps > image.len() {
            assert(now.region.subrange(0, image.len() as int) =~= image);
        }
    }
}

/// The shared channel held in memory: the region of each database kind and the
/// parameter table.
pub struct SharedChannel {
    pub blocked_asn: Vec<u8>,
    pub blocked_country: Vec<u8>,
    pub parameters: ParameterTable,
}

impl SharedChannel {
    /// What the channel holds for one database kind.
    pub open spec fn state(&self, db_type: MaxmindDbType) -> ChannelState {
        ChannelState {
            region: match db_type {
                MaxmindDbType::Country => self.blocked_country@,
                MaxmindDbType::Asn => self.blocked_asn@,
            },
            parameters: self.parameters@,
        }
    }

    /// A channel with regions of the given sizes, filled with zeros, and without
    /// parameters.
    pub fn with_capacity(asn_bytes: usize, country_bytes: usize) -> (channel: Self)
        ensures
            channel.blocked_asn@ == Seq::new(asn_bytes as nat, |i: int| 0u8),
            channel.blocked_country@ == Seq::new(country_bytes as nat, |i: int| 0u8),
            channel.parameters@ == Map::<u8, u32>::empty(),
    {
        let blocked_asn: Vec<u8> = vec![0u8; asn_bytes];
        let blocked_country: Vec<u8> = vec![0u8; country_bytes];
        proof {
            assert(blocked_asn@ =~= Seq::new(asn_bytes as nat, |i: int| 0u8));
            assert(blocked_country@ =~= Seq::new(country_bytes as nat, |i: int| 0u8));
        }
        SharedChannel { blocked_asn, blocked_country, parameters: ParameterTable::new() }
    }

    /// Makes one write for the given database kind.  A byte outside the region is
    /// refused and nothing is written.
    pub fn apply(&mut self, db_type: MaxmindDbType, write: MapWrite) -> (outcome: Result<
        (),
        ChannelError,
    >)
        ensures
            final(self).state(db_type) == spec_apply(old(self).state(db_type), write),
            match db_type {
                MaxmindDbType::Country => final(self).blocked_asn@ == old(self).blocked_asn@,
                MaxmindDbType::Asn => final(self).blocked_country@ == old(self).blocked_country@,
            },
            outcome is Err <==> (write matches MapWrite::Image { index, .. } && index >= old(
                self,
            ).state(db_type).region.len()),
    {
        match write {
            MapWrite::Image { index, byte } => {
                match db_type {
                    MaxmindDbType::Country => {
                        if index as usize >= self.blocked_country.len() {
                            return Err(ChannelError::MapWriteError);
                        }
                        self.blocked_country[index as usize] = byte;
                    },
                    MaxmindDbType::Asn => {
                        if index as usize >= self.blocked_asn.len() {
                            return Err(ChannelError::MapWriteError);
                        }
                        self.blocked_asn[index as usize] = byte;
                    },
                }
                Ok(())
            },
            MapWrite::Parameter { key, value } => {
                self.parameters.entries.insert(key, value);
                Ok(())
            },
        }
    }

    /// The number of bytes of the region of a database kind.
    pub fn region_len(&self, db_type: MaxmindDbType) -> (len: usize)
        ensures
            len == self.state(db_type).region.len(),
    {
        match db_type {
            MaxmindDbType::Country => self.blocked_country.len(),
            MaxmindDbType::Asn => self.blocked_asn.len(),
        }
    }

    /// Installs a compacted image: writes its bytes into the region of its database
    /// kind, in order, and then its node count and its record size into the parameter
    /// table.  An image that does not fit into the region is refused, and the channel
    /// stays as it was.
    pub fn refresh(&mut self, processed: &ProcessedDb, db_type: MaxmindDbType) -> (outcome: Result<
        (),
        ChannelError,
    >)
        ensures
            match outcome {
                Ok(()) => processed.db@.len() <= spec_capacity(db_type) && processed.db@.len()
                    <= old(self).state(db_type).region.len() && final(self).state(db_type)
                    == spec_after(
                    old(self).state(db_type),
                    processed.db@,
                    processed.node_count,
                    processed.record_size,
                    db_type,
                    processed.db@.len() + 2,
                ),
                Err(_) => (processed.db@.len() > spec_capacity(db_type) || processed.db@.len()
                    > old(self).state(db_type).region.len()) && final(self).state(db_type) == old(
                    self,
                ).state(db_type),
            },
            match db_type {
                MaxmindDbType::Country => final(self).blocked_asn@ == old(self).blocked_asn@,
                MaxmindDbType::Asn => final(self).blocked_country@ == old(self).blocked_country@,
            },
    {
        let total: usize = match plan_refresh(processed, db_type) {
            Ok(total) => total,
            Err(e) => {
                return Err(e);
            },
        };
        if processed.db.len() > self.region_len(db_type) {
            return Err(ChannelError::MapWriteError);
        }
        let mut step: usize = 0;
        while step < total
            invariant
                step <= total == processed.db@.len() + 2,
                processed.db@.len() <= spec_capacity(db_type),
                processed.db@.len() <= old(self).state(db_type).region.len(),
                self.state(db_type).region.len() == old(self).state(db_type).region.len(),
                self.state(db_type) == spec_after(
                    old(self).state(db_type),
                    processed.db@,
                    processed.node_count,
                    processed.record_size,
                    db_type,
                    step as nat,
                ),
                match db_type {
                    MaxmindDbType::Country => self.blocked_asn@ == old(self).blocked_asn@,
                    MaxmindDbType::Asn => self.blocked_country@ == old(self).blocked_country@,
                },
            decreases total - step,
        {
            match next_write(processed, db_type, step) {
                Some(write) => {
                    let _ = self.apply(db_type, write);
                },
                None => {},
            }
            step += 1;
        }
        Ok(())
    }

    /// Decides what to do with a frame from what the channel holds.
    pub fn classify(&self, frame: &[u8]) -> (verdict: Verdict)
        ensures
            verdict == spec_geofw(
                self.parameters@,
                self.blocked_asn@,
                self.blocked_country@,
                frame@,
            ),
    {
        geofw(&self.parameters, self.blocked_asn.as_slice(), self.blocked_country.as_slice(), frame)
    }
}

} // verus!
