use crate::common::MaxmindDbType;
use crate::common::ParameterTable;
use crate::decode::be_value;
use crate::decode::lemma_pow256_values;
use crate::decode::read_be;
use crate::fastpath::should_block;
use crate::fastpath::spec_should_block;
use crate::maxmind::IpAddr;
use vstd::prelude::*;

verus! {

/// The length of an Ethernet header.
pub const ETH_HEADER_LEN: usize = 14;

/// The length of an IPv4 header without options.
pub const IPV4_HEADER_LEN: usize = 20;

/// The length of the fixed IPv6 header.
pub const IPV6_HEADER_LEN: usize = 40;

/// The EtherType of IPv4.
pub const ETHER_TYPE_IPV4: u16 = 0x0800;

/// The EtherType of IPv6.
pub const ETHER_TYPE_IPV6: u16 = 0x86dd;

/// What the filter tells the network stack to do with a packet.
#[derive(Debug, Clone, Copy, PartialEq, Eq, Structural)]
pub enum Verdict {
    /// Let the packet through.
    Pass,
    /// Discard the packet.
    Drop,
    /// Discard the packet and count an error.
    Abort,
}

/// Why a packet could not be read.
#[derive(Debug, Clone, Copy, PartialEq, Eq, Structural)]
pub enum PacketError {
    /// The packet ends inside a header.
    PacketParseError,
}

/// The source address of the IP packet inside an Ethernet frame: `None` for a frame
/// that carries neither IPv4 nor IPv6, and no address at all where the frame ends
/// inside the Ethernet header or inside the IP header.
pub open spec fn spec_source(frame: Seq<u8>) -> Result<Option<IpAddr>, PacketError> {
    if frame.len() < ETH_HEADER_LEN {
        Err(PacketError::PacketParseError)
    } else {
        let ether_type = be_value(frame.subrange(12, 14));
        if ether_type == ETHER_TYPE_IPV4 {
            if frame.len() < ETH_HEADER_LEN + IPV4_HEADER_LEN {
                Err(PacketError::PacketParseError)
            } else {
                Ok(Some(IpAddr::V4(be_value(frame.subrange(26, 30)) as u32)))
            }
        } else if ether_type == ETHER_TYPE_IPV6 {
            if frame.len() < ETH_HEADER_LEN + IPV6_HEADER_LEN {
                Err(PacketError::PacketParseError)
            } else {
                Ok(Some(IpAddr::V6(be_value(frame.subrange(22, 38)) as u128)))
            }
        } else {
            Ok(None)
        }
    }
}

/// What the filter decides for a source address: to drop the packet if the image of
/// the ASN database or that of the country database blocks the address.
pub open spec fn spec_filter(
    parameters: Map<u8, u32>,
    blocked_asn: Seq<u8>,
    blocked_country: Seq<u8>,
    source: IpAddr,
) -> Verdict {
    if spec_should_block(parameters, MaxmindDbType::Asn, blocked_asn, source) || spec_should_block(
        parameters,
        MaxmindDbType::Country,
        blocked_country,
        source,
    ) {
        Verdict::Drop
    } else {
        Verdict::Pass
    }
}

/// What the filter decides for a frame, or why it could not read it.
pub open spec fn spec_try_geofw(
    parameters: Map<u8, u32>,
    blocked_asn: Seq<u8>,
    blocked_country: Seq<u8>,
    frame: Seq<u8>,
) -> Result<Verdict, PacketError> {
    match spec_source(frame) {
        Err(e) => Err(e),
        Ok(None) => Ok(Verdict::Pass),
        Ok(Some(source)) => Ok(spec_filter(parameters, blocked_asn, blocked_country, source)),
    }
}

/// What the filter decides for a frame: a frame that it cannot read passes.
pub open spec fn spec_geofw(
    parameters: Map<u8, u32>,
    blocked_asn: Seq<u8>,
    blocked_country: Seq<u8>,
    frame: Seq<u8>,
) -> Verdict {
    match spec_try_geofw(parameters, blocked_asn, blocked_country, frame) {
        Ok(verdict) => verdict,
        Err(_) => Verdict::Pass,
    }
}

/// Checks that `len` bytes from `offset` on lie inside the frame, and gives the offset
/// back if they do.
pub fn ptr_at(frame: &[u8], offset: usize, len: usize) -> (start: Option<usize>)
    ensures
        start == (if offset + len <= frame@.len() {
            Some(offset)
        } else {
            None
        }),
{
    let total: usize = frame.len();
    if offset > total || len > total - offset {
        None
    } else {
        Some(offset)
    }
}

/// Reads the source address of the IP packet inside an Ethernet frame.  A frame that
/// carries neither IPv4 nor IPv6 has none; a frame that ends inside the Ethernet
/// header or inside the IP header is refused.
pub fn read_source(frame: &[u8]) -> (source: Result<Option<IpAddr>, PacketError>)
    ensures
        source == spec_source(frame@),
{
    let eth: usize = match ptr_at(frame, 0, ETH_HEADER_LEN) {
        Some(at) => at,
        None => {
            return Err(PacketError::PacketParseError);
        },
    };
    proof {
        lemma_pow256_values();
    }
    let ether_type: u16 = read_be(frame, eth + 12, 2) as u16;
    if ether_type == ETHER_TYPE_IPV4 {
        match ptr_at(frame, ETH_HEADER_LEN, IPV4_HEADER_LEN) {
            Some(ip) => Ok(Some(IpAddr::V4(read_be(frame, ip + 12, 4) as u32))),
            None => Err(PacketError::PacketParseError),
        }
    } else if ether_type == ETHER_TYPE_IPV6 {
        match ptr_at(frame, ETH_HEADER_LEN, IPV6_HEADER_LEN) {
            Some(ip) => Ok(Some(IpAddr::V6(read_be(frame, ip + 8, 16)))),
            None => Err(PacketError::PacketParseError),
        }
    } else {
        Ok(None)
    }
}

/// Decides on the IPv4 packet that follows the Ethernet header.
pub fn filter_ip_packet(
    parameters: &ParameterTable,
    blocked_asn: &[u8],
    blocked_country: &[u8],
    frame: &[u8],
) -> (outcome: Result<Verdict, PacketError>)
    ensures
        outcome == (if frame@.len() < ETH_HEADER_LEN + IPV4_HEADER_LEN {
            Err::<Verdict, PacketError>(PacketError::PacketParseError)
        } else {
            Ok(
                spec_filter(
                    parameters@,
                    blocked_asn@,
                    blocked_country@,
                    IpAddr::V4(be_value(frame@.subrange(26, 30)) as u32),
                ),
            )
        }),
{
    let ip: usize = match ptr_at(frame, ETH_HEADER_LEN, IPV4_HEADER_LEN) {
        Some(at) => at,
        None => {
            return Err(PacketError::PacketParseError);
        },
    };
    proof {
        lemma_pow256_values();
    }
    let source = IpAddr::V4(read_be(frame, ip + 12, 4) as u32);
    let result: bool = should_block(parameters, MaxmindDbType::Asn, blocked_asn, source)
        || should_block(parameters, MaxmindDbType::Country, blocked_country, source);
    if result {
        Ok(Verdict::Drop)
    } else {
        Ok(Verdict::Pass)
    }
}

/// Decides on the IPv6 packet that follows the Ethernet header.
pub fn filter_ipv6_packet(
    parameters: &ParameterTable,
    blocked_asn: &[u8],
    blocked_country: &[u8],
    frame: &[u8],
) -> (outcome: Result<Verdict, PacketError>)
    ensures
        outcome == (if frame@.len() < ETH_HEADER_LEN + IPV6_HEADER_LEN {
            Err::<Verdict, PacketError>(PacketError::PacketParseError)
        } else {
            Ok(
                spec_filter(
                    parameters@,
                    blocked_asn@,
                    blocked_country@,
                    IpAddr::V6(be_value(frame@.subrange(22, 38)) as u128),
                ),
            )
        }),
{
    let ip: usize = match ptr_at(frame, ETH_HEADER_LEN, IPV6_HEADER_LEN) {
        Some(at) => at,
        None => {
            return Err(PacketError::PacketParseError);
        },
    };
    let source = IpAddr::V6(read_be(frame, ip + 8, 16));
    let result: bool = should_block(parameters, MaxmindDbType::Asn, blocked_asn, source)
        || should_block(parameters, MaxmindDbType::Country, blocked_country, source);
    if result {
        Ok(Verdict::Drop)
    } else {
        Ok(Verdict::Pass)
    }
}

/// Reads the Ethernet header of a frame and decides on the IP packet behind it.  A
/// frame that carries neither IPv4 nor IPv6 passes.
pub fn try_geofw(
    parameters: &ParameterTable,
    blocked_asn: &[u8],
    blocked_country: &[u8],
    frame: &[u8],
) -> (outcome: Result<Verdict, PacketError>)
    ensures
        outcome == spec_try_geofw(parameters@, blocked_asn@, blocked_country@, frame@),
{
    let eth: usize = match ptr_at(frame, 0, ETH_HEADER_LEN) {
        Some(at) => at,
        None => {
            return Err(PacketError::PacketParseError);
        },
    };
    proof {
        lemma_pow256_values();
    }
    let ether_type: u16 = read_be(frame, eth + 12, 2) as u16;
    if ether_type == ETHER_TYPE_IPV4 {
        filter_ip_packet(parameters, blocked_asn, blocked_country, frame)
    } else if ether_type == ETHER_TYPE_IPV6 {
        filter_ipv6_packet(parameters, blocked_asn, blocked_country, frame)
    } else {
        Ok(Verdict::Pass)
    }
}

/// Decides what to do with a frame: to drop it if its source address is blocked, and
/// to let it pass otherwise, also where the frame cannot be read.
pub fn geofw(
    parameters: &ParameterTable,
    blocked_asn: &[u8],
    blocked_country: &[u8],
    frame: &[u8],
) -> (verdict: Verdict)
    ensures
        verdict == spec_geofw(parameters@, blocked_asn@, blocked_country@, frame@),
        verdict != Verdict::Abort,
{
    match try_geofw(parameters, blocked_asn, blocked_country, frame) {
        Ok(ret) => ret,
        Err(_) => Verdict::Pass,
    }
}

} // verus!
