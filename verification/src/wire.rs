//! The packet layouts that the proxy reads and writes.
//!
//! The specification functions say which bytes a header is made of and which bytes a
//! checksum covers. The trusted functions are the calls into `pnet`: each names the items of
//! that crate that it calls and states their result over those bytes.
use bytes::BytesMut;
use pnet::packet::arp::{ArpOperation, ArpPacket as PnetArp, MutableArpPacket};
use pnet::packet::ethernet::{EtherType, EthernetPacket as PnetEthernet, MutableEthernetPacket};
use pnet::packet::ip::IpNextHeaderProtocol;
use pnet::packet::ipv4::{Ipv4Packet as PnetIpv4, MutableIpv4Packet};
use pnet::packet::ipv6::{Ipv6Packet as PnetIpv6, MutableIpv6Packet};
use pnet::packet::tcp::{MutableTcpPacket, TcpPacket as PnetTcp};
use pnet::packet::udp::{MutableUdpPacket, UdpPacket as PnetUdp};
use pnet::packet::Packet;
use vstd::prelude::*;

use crate::addr::{Ipv4Addr, Ipv6Addr, MacAddr};
use crate::buffer::buf_view;

verus! {

pub const ETHERTYPE_IPV4: u16 = 0x0800;

pub const ETHERTYPE_ARP: u16 = 0x0806;

pub const ETHERTYPE_IPV6: u16 = 0x86dd;

pub const ARP_REQUEST: u16 = 1;

pub const ARP_REPLY: u16 = 2;

pub const PROTOCOL_TCP: u8 = 6;

pub const PROTOCOL_UDP: u8 = 17;

pub const FIN: u8 = 0x01;

pub const SYN: u8 = 0x02;

pub const RST: u8 = 0x04;

pub const PSH: u8 = 0x08;

pub const ACK: u8 = 0x10;

pub const URG: u8 = 0x20;

pub const SYN_ACK: u8 = 0x12;

pub const FIN_ACK: u8 = 0x11;

pub const RST_ACK: u8 = 0x14;

pub const PSH_ACK: u8 = 0x18;

pub const ETHERNET_HEADER: usize = 14;

pub const ARP_LEN: usize = 28;

pub const IPV4_HEADER: usize = 20;

pub const IPV6_HEADER: usize = 40;

pub const TCP_HEADER: usize = 20;

pub const UDP_HEADER: usize = 8;

/// A length of TCP and UDP packets whose 16-bit words, with those of a pseudo header, always sum
/// up to less than 2^32.
pub const MAX_TRANSPORT_LEN: usize = 131_000;

// --- Byte order ---

/// A 16-bit value in network byte order.
pub open spec fn be16(x: u16) -> Seq<u8> {
    seq![(x / 256) as u8, (x % 256) as u8]
}

/// A 32-bit value in network byte order.
pub open spec fn be32(x: u32) -> Seq<u8> {
    seq![
        (x / 0x100_0000) as u8,
        (x / 0x1_0000 % 256) as u8,
        (x / 0x100 % 256) as u8,
        (x % 256) as u8,
    ]
}

/// The 16-bit value that stands in network byte order at `i`.
pub open spec fn u16_at(s: Seq<u8>, i: int) -> u16 {
    (s[i] * 256 + s[i + 1]) as u16
}

/// The 32-bit value that stands in network byte order at `i`.
pub open spec fn u32_at(s: Seq<u8>, i: int) -> u32 {
    (s[i] * 0x100_0000 + s[i + 1] * 0x1_0000 + s[i + 2] * 0x100 + s[i + 3]) as u32
}

pub open spec fn mac_at(s: Seq<u8>, i: int) -> MacAddr {
    MacAddr(s[i], s[i + 1], s[i + 2], s[i + 3], s[i + 4], s[i + 5])
}

pub open spec fn ipv4_at(s: Seq<u8>, i: int) -> Ipv4Addr {
    Ipv4Addr(s[i], s[i + 1], s[i + 2], s[i + 3])
}

pub open spec fn ipv6_at(s: Seq<u8>, i: int) -> Ipv6Addr {
    Ipv6Addr(
        u16_at(s, i),
        u16_at(s, i + 2),
        u16_at(s, i + 4),
        u16_at(s, i + 6),
        u16_at(s, i + 8),
        u16_at(s, i + 10),
        u16_at(s, i + 12),
        u16_at(s, i + 14),
    )
}

/// `s` with the bytes from `at` on replaced by `new`.
pub open spec fn splice(s: Seq<u8>, at: int, new: Seq<u8>) -> Seq<u8> {
    s.take(at) + new + s.skip(at + new.len())
}

/// Whether the `n` bytes from `at` on are there and are all zero.
pub open spec fn blank(s: Seq<u8>, at: int, n: nat) -> bool {
    &&& 0 <= at
    &&& at + n <= s.len()
    &&& forall|i: int| at <= i < at + n ==> s[i] == 0
}

// --- Checksums ---

/// The sum of the 16-bit words of `s` from word `i` on, leaving out the word numbered
/// `skip`. A last odd byte counts as the high half of a word.
pub open spec fn words_from(s: Seq<u8>, i: int, skip: int) -> nat
    decreases s.len() + 1 - 2 * i,
{
    if i < 0 || 2 * i >= s.len() {
        0
    } else {
        let word: nat = if i == skip {
            0
        } else if 2 * i + 1 < s.len() {
            u16_at(s, 2 * i) as nat
        } else {
            s[2 * i] as nat * 256
        };
        word + words_from(s, i + 1, skip)
    }
}

/// Folds the carries of a sum of 16-bit words back in until it fits in 16 bits.
pub open spec fn fold_carries(sum: nat) -> nat
    decreases sum,
{
    if sum < 0x1_0000 {
        sum
    } else {
        fold_carries(sum / 0x1_0000 + sum % 0x1_0000)
    }
}

/// The Internet checksum of a sum of 16-bit words: its one's complement.
pub open spec fn complement(sum: nat) -> u16 {
    (0xffff - fold_carries(sum)) as u16
}

/// The checksum of an IPv4 header, whose own checksum field counts as zero.
pub open spec fn ipv4_header_checksum(header: Seq<u8>) -> u16 {
    complement(words_from(header, 0, 5))
}

/// The sum of the words of a TCP or UDP packet under a pseudo header of two addresses, the
/// protocol number and the length. The word numbered `skip` holds the checksum and counts as
/// zero.
pub open spec fn transport_sum(
    packet: Seq<u8>,
    skip: int,
    source: Seq<u8>,
    destination: Seq<u8>,
    protocol: u8,
) -> nat {
    words_from(source, 0, -1) + words_from(destination, 0, -1) + protocol as nat + packet.len()
        + words_from(packet, 0, skip)
}

/// The checksum of a TCP or UDP packet.
pub open spec fn transport_checksum(
    packet: Seq<u8>,
    skip: int,
    source: Seq<u8>,
    destination: Seq<u8>,
    protocol: u8,
) -> u16 {
    complement(transport_sum(packet, skip, source, destination, protocol))
}

/// However many words there are, they sum up to less than 2^16 for each.
proof fn words_are_bounded(s: Seq<u8>, i: int, skip: int)
    requires
        0 <= i,
    ensures
        2 * i <= s.len() ==> 2 * words_from(s, i, skip) <= 0xffff * (s.len() + 1 - 2 * i),
        2 * i > s.len() ==> words_from(s, i, skip) == 0,
    decreases s.len() + 1 - 2 * i,
{
    if 2 * i < s.len() {
        words_are_bounded(s, i + 1, skip);
    }
}

/// The sum for a packet that is not very long can be counted in 32 bits.
pub(crate) proof fn short_packets_sum_up(
    packet: Seq<u8>,
    skip: int,
    source: Seq<u8>,
    destination: Seq<u8>,
    protocol: u8,
)
    requires
        packet.len() <= MAX_TRANSPORT_LEN,
        source.len() <= 16,
        destination.len() <= 16,
    ensures
        transport_sum(packet, skip, source, destination, protocol) < 0x1_0000_0000,
{
    words_are_bounded(packet, 0, skip);
    words_are_bounded(source, 0, -1);
    words_are_bounded(destination, 0, -1);
}

// --- Layouts ---

/// The 14 bytes of an Ethernet header.
pub open spec fn ethernet_header(
    destination: MacAddr,
    source: MacAddr,
    ethertype: u16,
) -> Seq<u8> {
    destination.bytes() + source.bytes() + be16(ethertype)
}

/// The 20 bytes of an IPv4 header without options: no type of service, identification or
/// fragmentation, time to live 64.
pub open spec fn ipv4_header(
    total_length: u16,
    protocol: u8,
    checksum: u16,
    source: Ipv4Addr,
    destination: Ipv4Addr,
) -> Seq<u8> {
    seq![0x45u8, 0] + be16(total_length) + seq![0u8, 0, 0, 0, 64, protocol] + be16(checksum)
        + source.bytes() + destination.bytes()
}

/// The 40 bytes of an IPv6 header: no traffic class or flow label, hop limit 64.
pub open spec fn ipv6_header(
    payload_length: u16,
    next_header: u8,
    source: Ipv6Addr,
    destination: Ipv6Addr,
) -> Seq<u8> {
    seq![0x60u8, 0, 0, 0] + be16(payload_length) + seq![next_header, 64] + source.bytes()
        + destination.bytes()
}

/// What the proxy chooses in a TCP header.
#[derive(Clone, Copy, Debug)]
pub struct TcpHeader {
    pub source: u16,
    pub destination: u16,
    pub sequence: u32,
    pub acknowledgement: u32,
    pub flags: u8,
    pub window: u16,
}

/// The 20 bytes of a TCP header without options or urgent data.
pub open spec fn tcp_header(h: TcpHeader, checksum: u16) -> Seq<u8> {
    be16(h.source) + be16(h.destination) + be32(h.sequence) + be32(h.acknowledgement) + seq![
        0x50u8,
        h.flags,
    ] + be16(h.window) + be16(checksum) + seq![0u8, 0]
}

/// The 8 bytes of a UDP header.
pub open spec fn udp_header(source: u16, destination: u16, length: u16, checksum: u16) -> Seq<
    u8,
> {
    be16(source) + be16(destination) + be16(length) + be16(checksum)
}

/// An ARP packet for IPv4 over Ethernet. `length` is how many bytes it was read from, which
/// counts any padding behind it.
#[derive(Clone, Copy, Debug)]
pub struct ArpPacket {
    pub hardware_type: u16,
    pub protocol_type: u16,
    pub hw_addr_len: u8,
    pub proto_addr_len: u8,
    pub operation: u16,
    pub sender_hw_addr: MacAddr,
    pub sender_proto_addr: Ipv4Addr,
    pub target_hw_addr: MacAddr,
    pub target_proto_addr: Ipv4Addr,
    pub length: usize,
}

/// The 8 bytes of an ARP packet before the addresses.
pub open spec fn arp_head(a: ArpPacket) -> Seq<u8> {
    be16(a.hardware_type) + be16(a.protocol_type) + seq![a.hw_addr_len, a.proto_addr_len]
        + be16(a.operation)
}

/// The 20 bytes of the addresses of an ARP packet.
pub open spec fn arp_addresses(a: ArpPacket) -> Seq<u8> {
    a.sender_hw_addr.bytes() + a.sender_proto_addr.bytes() + a.target_hw_addr.bytes()
        + a.target_proto_addr.bytes()
}

/// The 28 bytes of an ARP packet.
pub open spec fn arp_bytes(a: ArpPacket) -> Seq<u8> {
    arp_head(a) + arp_addresses(a)
}

/// The ARP packet that stands at the start of `s`.
pub open spec fn arp_of(s: Seq<u8>) -> ArpPacket {
    ArpPacket {
        hardware_type: u16_at(s, 0),
        protocol_type: u16_at(s, 2),
        hw_addr_len: s[4],
        proto_addr_len: s[5],
        operation: u16_at(s, 6),
        sender_hw_addr: mac_at(s, 8),
        sender_proto_addr: ipv4_at(s, 14),
        target_hw_addr: mac_at(s, 18),
        target_proto_addr: ipv4_at(s, 24),
        length: s.len() as usize,
    }
}

// --- Parsed packets ---

/// An Ethernet frame.
#[derive(Debug)]
pub struct EthernetFrame {
    pub destination: MacAddr,
    pub source: MacAddr,
    pub ethertype: u16,
    pub payload: Vec<u8>,
}

/// An IPv4 packet.
#[derive(Debug)]
pub struct Ipv4Packet {
    pub source: Ipv4Addr,
    pub destination: Ipv4Addr,
    pub next_level_protocol: u8,
    pub payload: Vec<u8>,
}

/// An IPv6 packet.
#[derive(Debug)]
pub struct Ipv6Packet {
    pub source: Ipv6Addr,
    pub destination: Ipv6Addr,
    pub next_header: u8,
    pub payload: Vec<u8>,
}

/// A TCP packet, without its options.
#[derive(Debug)]
pub struct TcpSegment {
    pub source: u16,
    pub destination: u16,
    pub sequence: u32,
    pub acknowledgement: u32,
    pub flags: u8,
    pub window: u16,
    pub payload: Vec<u8>,
}

/// A TCP option: its number and what follows its length byte.
#[derive(Debug)]
pub struct TcpOption {
    pub number: u8,
    pub data: Vec<u8>,
}

/// A UDP packet.
#[derive(Debug)]
pub struct UdpDatagram {
    pub source: u16,
    pub destination: u16,
    pub payload: Vec<u8>,
}

pub open spec fn min(a: int, b: int) -> int {
    if a < b {
        a
    } else {
        b
    }
}

/// The bytes of `s` from `start` up to `end`, as far as `s` reaches.
pub open spec fn clipped(s: Seq<u8>, start: int, end: int) -> Seq<u8> {
    if s.len() <= start {
        Seq::empty()
    } else {
        s.subrange(start, min(end, s.len() as int))
    }
}

/// The length of an IPv4 header in bytes, by its own length field.
pub open spec fn ipv4_header_len(s: Seq<u8>) -> int {
    (s[0] % 16) * 4
}

/// The payload of an IPv4 packet: what follows the header and its options, up to the total
/// length.
pub open spec fn ipv4_payload(s: Seq<u8>) -> Seq<u8> {
    let header = ipv4_header_len(s);
    let start = if header < 20 {
        20
    } else {
        header
    };
    let total = u16_at(s, 2) as int;
    let len = if total < header {
        0
    } else {
        total - header
    };
    clipped(s, start, start + len)
}

/// The payload of an IPv6 packet: what follows the header, up to the payload length.
pub open spec fn ipv6_payload(s: Seq<u8>) -> Seq<u8> {
    clipped(s, 40, 40 + u16_at(s, 4))
}

/// Where the payload of a TCP packet starts, by its data offset.
pub open spec fn tcp_data_start(s: Seq<u8>) -> int {
    if s[12] / 16 > 5 {
        (s[12] / 16) * 4
    } else {
        20
    }
}

/// The payload of a TCP packet.
pub open spec fn tcp_payload(s: Seq<u8>) -> Seq<u8> {
    clipped(s, tcp_data_start(s), s.len() as int)
}

/// The options in the bytes between a TCP header and its payload: each is a number and, but
/// for the numbers 0 and 1, a length byte that counts both and the data behind them.
pub open spec fn options_in(s: Seq<u8>) -> Seq<(u8, Seq<u8>)>
    decreases s.len(),
{
    if s.len() == 0 {
        Seq::empty()
    } else if s[0] <= 1 {
        seq![(s[0], Seq::empty())] + options_in(s.skip(1))
    } else {
        let len: int = if s.len() >= 2 && s[1] >= 2 {
            s[1] - 2
        } else {
            0
        };
        seq![(s[0], clipped(s, 2, 2 + len))] + options_in(s.skip(min(2 + len, s.len() as int)))
    }
}

/// The options of a TCP packet.
pub open spec fn tcp_options(s: Seq<u8>) -> Seq<(u8, Seq<u8>)> {
    options_in(s.subrange(20, min(tcp_data_start(s), s.len() as int)))
}

/// The number and data of each option of a list.
pub open spec fn option_views(v: Seq<TcpOption>) -> Seq<(u8, Seq<u8>)> {
    Seq::new(v.len(), |i: int| (v[i].number, v[i].data@))
}

// --- Reading packets ---

/// `EthernetPacket::new` with its accessors: there is a frame when there are at least 14
/// bytes.
#[verifier::external_body]
pub(crate) fn parse_ethernet(data: &[u8]) -> (r: Option<EthernetFrame>)
    ensures
        r is Some <==> data@.len() >= 14,
        r matches Some(p) ==> {
            &&& p.destination == mac_at(data@, 0)
            &&& p.source == mac_at(data@, 6)
            &&& p.ethertype == u16_at(data@, 12)
            &&& p.payload@ == data@.skip(14)
        },
{
    let p = PnetEthernet::new(data)?;
    let (d, s) = (p.get_destination(), p.get_source());
    Some(EthernetFrame {
        destination: MacAddr(d.0, d.1, d.2, d.3, d.4, d.5),
        source: MacAddr(s.0, s.1, s.2, s.3, s.4, s.5),
        ethertype: p.get_ethertype().0,
        payload: p.payload().to_vec(),
    })
}

/// `ArpPacket::new` with the accessors of the fields before the addresses: there is a packet
/// when there are at least 28 bytes.
#[verifier::external_body]
fn parse_arp_head(data: &[u8]) -> (r: Option<(u16, u16, u8, u8, u16)>)
    ensures
        r is Some <==> data@.len() >= 28,
        r matches Some(h) ==> h == (
            u16_at(data@, 0),
            u16_at(data@, 2),
            data@[4],
            data@[5],
            u16_at(data@, 6),
        ),
{
    let p = PnetArp::new(data)?;
    let (hardware_type, protocol_type) = (p.get_hardware_type().0, p.get_protocol_type().0);
    let (hw_addr_len, proto_addr_len) = (p.get_hw_addr_len(), p.get_proto_addr_len());
    Some((hardware_type, protocol_type, hw_addr_len, proto_addr_len, p.get_operation().0))
}

/// `ArpPacket::new` with the accessors of the addresses, the sender's before the target's:
/// there is a packet when there are at least 28 bytes.
#[verifier::external_body]
fn parse_arp_addresses(data: &[u8]) -> (r: Option<(MacAddr, Ipv4Addr, MacAddr, Ipv4Addr)>)
    ensures
        r is Some <==> data@.len() >= 28,
        r matches Some(h) ==> h == (
            mac_at(data@, 8),
            ipv4_at(data@, 14),
            mac_at(data@, 18),
            ipv4_at(data@, 24),
        ),
{
    let p = PnetArp::new(data)?;
    let (s, t) = (p.get_sender_hw_addr(), p.get_target_hw_addr());
    let (sp, tp) = (p.get_sender_proto_addr().octets(), p.get_target_proto_addr().octets());
    let sender_hw_addr = MacAddr(s.0, s.1, s.2, s.3, s.4, s.5);
    let sender_proto_addr = Ipv4Addr(sp[0], sp[1], sp[2], sp[3]);
    let target_hw_addr = MacAddr(t.0, t.1, t.2, t.3, t.4, t.5);
    let target_proto_addr = Ipv4Addr(tp[0], tp[1], tp[2], tp[3]);
    Some((sender_hw_addr, sender_proto_addr, target_hw_addr, target_proto_addr))
}

/// The ARP packet at the start of `data`, when there are at least 28 bytes.
pub(crate) fn parse_arp(data: &[u8]) -> (r: Option<ArpPacket>)
    ensures
        r is Some <==> data@.len() >= 28,
        r matches Some(p) ==> p == arp_of(data@),
{
    match (parse_arp_head(data), parse_arp_addresses(data)) {
        (Some(head), Some(addresses)) => Some(
            ArpPacket {
                hardware_type: head.0,
                protocol_type: head.1,
                hw_addr_len: head.2,
                proto_addr_len: head.3,
                operation: head.4,
                sender_hw_addr: addresses.0,
                sender_proto_addr: addresses.1,
                target_hw_addr: addresses.2,
                target_proto_addr: addresses.3,
                length: data.len(),
            },
        ),
        _ => None,
    }
}

/// `Ipv4Packet::new` with its accessors: there is a packet when there are at least 20 bytes.
#[verifier::external_body]
pub(crate) fn parse_ipv4(data: &[u8]) -> (r: Option<Ipv4Packet>)
    ensures
        r is Some <==> data@.len() >= 20,
        r matches Some(p) ==> {
            &&& p.source == ipv4_at(data@, 12)
            &&& p.destination == ipv4_at(data@, 16)
            &&& p.next_level_protocol == data@[9]
            &&& p.payload@ == ipv4_payload(data@)
        },
{
    let p = PnetIpv4::new(data)?;
    let (s, d) = (p.get_source().octets(), p.get_destination().octets());
    Some(Ipv4Packet {
        source: Ipv4Addr(s[0], s[1], s[2], s[3]),
        destination: Ipv4Addr(d[0], d[1], d[2], d[3]),
        next_level_protocol: p.get_next_level_protocol().0,
        payload: p.payload().to_vec(),
    })
}

/// `Ipv6Packet::new` with its accessors: there is a packet when there are at least 40 bytes.
#[verifier::external_body]
pub(crate) fn parse_ipv6(data: &[u8]) -> (r: Option<Ipv6Packet>)
    ensures
        r is Some <==> data@.len() >= 40,
        r matches Some(p) ==> {
            &&& p.source == ipv6_at(data@, 8)
            &&& p.destination == ipv6_at(data@, 24)
            &&& p.next_header == data@[6]
            &&& p.payload@ == ipv6_payload(data@)
        },
{
    let p = PnetIpv6::new(data)?;
    let (s, d) = (p.get_source().segments(), p.get_destination().segments());
    Some(Ipv6Packet {
        source: Ipv6Addr(s[0], s[1], s[2], s[3], s[4], s[5], s[6], s[7]),
        destination: Ipv6Addr(d[0], d[1], d[2], d[3], d[4], d[5], d[6], d[7]),
        next_header: p.get_next_header().0,
        payload: p.payload().to_vec(),
    })
}

/// `TcpPacket::new` with its accessors: there is a packet when there are at least 20 bytes.
#[verifier::external_body]
pub(crate) fn parse_tcp(data: &[u8]) -> (r: Option<TcpSegment>)
    ensures
        r is Some <==> data@.len() >= 20,
        r matches Some(p) ==> {
            &&& p.source == u16_at(data@, 0)
            &&& p.destination == u16_at(data@, 2)
            &&& p.sequence == u32_at(data@, 4)
            &&& p.acknowledgement == u32_at(data@, 8)
            &&& p.flags == data@[13]
            &&& p.window == u16_at(data@, 14)
            &&& p.payload@ == tcp_payload(data@)
        },
{
    let p = PnetTcp::new(data)?;
    Some(TcpSegment {
        source: p.get_source(),
        destination: p.get_destination(),
        sequence: p.get_sequence(),
        acknowledgement: p.get_acknowledgement(),
        flags: p.get_flags(),
        window: p.get_window(),
        payload: p.payload().to_vec(),
    })
}

/// `TcpPacket::get_options_iter`, with the number and payload of each option it yields.
#[verifier::external_body]
pub(crate) fn parse_tcp_options(data: &[u8]) -> (r: Vec<TcpOption>)
    requires
        data@.len() >= 20,
    ensures
        option_views(r@) == tcp_options(data@),
{
    PnetTcp::new(data).unwrap().get_options_iter().map(|o| TcpOption {
        number: o.get_number().0,
        data: o.payload().to_vec(),
    }).collect()
}

/// `UdpPacket::new` with its accessors: there is a packet when there are at least 8 bytes.
/// Its payload is all that follows, whatever its length field says.
#[verifier::external_body]
pub(crate) fn parse_udp(data: &[u8]) -> (r: Option<UdpDatagram>)
    ensures
        r is Some <==> data@.len() >= 8,
        r matches Some(p) ==> {
            &&& p.source == u16_at(data@, 0)
            &&& p.destination == u16_at(data@, 2)
            &&& p.payload@ == data@.skip(8)
        },
{
    let p = PnetUdp::new(data)?;
    Some(UdpDatagram {
        source: p.get_source(),
        destination: p.get_destination(),
        payload: p.payload().to_vec(),
    })
}

// --- Writing packets ---

/// `MutableEthernetPacket::new` and its setters: writes a header into the buffer.
#[verifier::external_body]
pub(crate) fn put_ethernet(
    buf: &mut BytesMut,
    destination: MacAddr,
    source: MacAddr,
    ethertype: u16,
)
    requires
        blank(buf_view(*old(buf)), 0, 14),
    ensures
        buf_view(*final(buf)) == splice(
            buf_view(*old(buf)),
            0,
            ethernet_header(destination, source, ethertype),
        ),
{
    let (d, s) = (destination, source);
    let mut p = MutableEthernetPacket::new(&mut buf[..14]).unwrap();
    p.set_destination([d.0, d.1, d.2, d.3, d.4, d.5].into());
    p.set_source([s.0, s.1, s.2, s.3, s.4, s.5].into());
    p.set_ethertype(EtherType(ethertype));
}

/// `MutableArpPacket::new` and the setters of the fields before the addresses: writes them
/// behind the Ethernet header.
#[verifier::external_body]
fn put_arp_head(buf: &mut BytesMut, a: &ArpPacket)
    requires
        blank(buf_view(*old(buf)), 14, 28),
    ensures
        buf_view(*final(buf)) == splice(buf_view(*old(buf)), 14, arp_head(*a)),
{
    let mut p = MutableArpPacket::new(&mut buf[14..42]).unwrap();
    p.set_hardware_type(pnet::packet::arp::ArpHardwareType(a.hardware_type));
    p.set_protocol_type(EtherType(a.protocol_type));
    p.set_hw_addr_len(a.hw_addr_len);
    p.set_proto_addr_len(a.proto_addr_len);
    p.set_operation(ArpOperation(a.operation));
}

/// `MutableArpPacket::new` and the setters of the addresses: writes them behind the fields
/// that stand before them.
#[verifier::external_body]
fn put_arp_addresses(buf: &mut BytesMut, a: &ArpPacket)
    requires
        blank(buf_view(*old(buf)), 22, 20),
    ensures
        buf_view(*final(buf)) == splice(buf_view(*old(buf)), 22, arp_addresses(*a)),
{
    let (s, t) = (a.sender_hw_addr, a.target_hw_addr);
    let (sp, tp) = (a.sender_proto_addr, a.target_proto_addr);
    let mut p = MutableArpPacket::new(&mut buf[14..42]).unwrap();
    p.set_sender_hw_addr([s.0, s.1, s.2, s.3, s.4, s.5].into());
    p.set_sender_proto_addr([sp.0, sp.1, sp.2, sp.3].into());
    p.set_target_hw_addr([t.0, t.1, t.2, t.3, t.4, t.5].into());
    p.set_target_proto_addr([tp.0, tp.1, tp.2, tp.3].into());
}

/// Writes an ARP packet behind the Ethernet header.
pub(crate) fn put_arp(buf: &mut BytesMut, a: &ArpPacket)
    requires
        blank(buf_view(*old(buf)), 14, 28),
    ensures
        buf_view(*final(buf)) == splice(buf_view(*old(buf)), 14, arp_bytes(*a)),
{
    let ghost before = buf_view(*buf);
    put_arp_head(buf, a);
    put_arp_addresses(buf, a);
    assert(buf_view(*buf) =~= splice(before, 14, arp_bytes(*a)));
}

/// The 20 bytes of an IPv4 header that has only these fields, its length given in words of
/// four bytes.
pub open spec fn ipv4_fields(
    version: u8,
    words: u8,
    total_length: u16,
    ttl: u8,
    protocol: u8,
    source: Ipv4Addr,
    destination: Ipv4Addr,
) -> Seq<u8> {
    seq![(version * 16 + words) as u8, 0] + be16(total_length) + seq![0u8, 0, 0, 0, ttl, protocol]
        + be16(0) + source.bytes() + destination.bytes()
}

/// `MutableIpv4Packet::new` and its setters: writes a header behind the Ethernet header.
#[verifier::external_body]
fn set_ipv4(
    buf: &mut BytesMut,
    version: u8,
    words: u8,
    total_length: u16,
    ttl: u8,
    protocol: u8,
    source: Ipv4Addr,
    destination: Ipv4Addr,
)
    requires
        blank(buf_view(*old(buf)), 14, 20),
        version < 16,
        words < 16,
    ensures
        buf_view(*final(buf)) == splice(
            buf_view(*old(buf)),
            14,
            ipv4_fields(version, words, total_length, ttl, protocol, source, destination),
        ),
{
    let (s, d) = (source, destination);
    let mut p = MutableIpv4Packet::new(&mut buf[14..34]).unwrap();
    p.set_version(version);
    p.set_header_length(words);
    p.set_total_length(total_length);
    p.set_ttl(ttl);
    p.set_next_level_protocol(IpNextHeaderProtocol(protocol));
    p.set_source([s.0, s.1, s.2, s.3].into());
    p.set_destination([d.0, d.1, d.2, d.3].into());
}

/// Writes an IPv4 header without options behind the Ethernet header, its checksum still zero.
pub(crate) fn put_ipv4(
    buf: &mut BytesMut,
    total_length: u16,
    protocol: u8,
    source: Ipv4Addr,
    destination: Ipv4Addr,
)
    requires
        blank(buf_view(*old(buf)), 14, 20),
    ensures
        buf_view(*final(buf)) == splice(
            buf_view(*old(buf)),
            14,
            ipv4_header(total_length, protocol, 0, source, destination),
        ),
{
    set_ipv4(buf, 4, 5, total_length, 64, protocol, source, destination);
}

/// The 40 bytes of an IPv6 header that has only these fields.
pub open spec fn ipv6_fields(
    version: u8,
    payload_length: u16,
    next_header: u8,
    hop_limit: u8,
    source: Ipv6Addr,
    destination: Ipv6Addr,
) -> Seq<u8> {
    seq![(version * 16) as u8, 0, 0, 0] + be16(payload_length) + seq![next_header, hop_limit]
        + source.bytes() + destination.bytes()
}

/// `MutableIpv6Packet::new` and its setters: writes a header behind the Ethernet header.
#[verifier::external_body]
fn set_ipv6(
    buf: &mut BytesMut,
    version: u8,
    payload_length: u16,
    next_header: u8,
    hop_limit: u8,
    source: Ipv6Addr,
    destination: Ipv6Addr,
)
    requires
        blank(buf_view(*old(buf)), 14, 40),
        version < 16,
    ensures
        buf_view(*final(buf)) == splice(
            buf_view(*old(buf)),
            14,
            ipv6_fields(version, payload_length, next_header, hop_limit, source, destination),
        ),
{
    let (s, d) = (source, destination);
    let mut p = MutableIpv6Packet::new(&mut buf[14..54]).unwrap();
    p.set_version(version);
    p.set_payload_length(payload_length);
    p.set_next_header(IpNextHeaderProtocol(next_header));
    p.set_hop_limit(hop_limit);
    p.set_source([s.0, s.1, s.2, s.3, s.4, s.5, s.6, s.7].into());
    p.set_destination([d.0, d.1, d.2, d.3, d.4, d.5, d.6, d.7].into());
}

/// Writes an IPv6 header behind the Ethernet header.
pub(crate) fn put_ipv6(
    buf: &mut BytesMut,
    payload_length: u16,
    next_header: u8,
    source: Ipv6Addr,
    destination: Ipv6Addr,
)
    requires
        blank(buf_view(*old(buf)), 14, 40),
    ensures
        buf_view(*final(buf)) == splice(
            buf_view(*old(buf)),
            14,
            ipv6_header(payload_length, next_header, source, destination),
        ),
{
    set_ipv6(buf, 6, payload_length, next_header, 64, source, destination);
}

/// `MutableTcpPacket::new` and its setters: writes a header of `words` words of four bytes and
/// the payload at the end of the buffer, the checksum still zero. Claimed of headers without
/// options only, behind which the payload starts.
#[verifier::external_body]
fn set_tcp(buf: &mut BytesMut, at: usize, words: u8, h: TcpHeader, payload: &[u8])
    requires
        words == 5,
        blank(buf_view(*old(buf)), at as int, 20 + payload@.len()),
        buf_view(*old(buf)).len() == at + 20 + payload@.len(),
    ensures
        buf_view(*final(buf)) == splice(
            buf_view(*old(buf)),
            at as int,
            tcp_header(h, 0) + payload@,
        ),
{
    let mut p = MutableTcpPacket::new(&mut buf[at..]).unwrap();
    p.set_source(h.source);
    p.set_destination(h.destination);
    p.set_sequence(h.sequence);
    p.set_acknowledgement(h.acknowledgement);
    p.set_data_offset(words);
    p.set_window(h.window);
    p.set_flags(h.flags);
    p.set_payload(payload);
}

/// Writes a TCP header without options and the payload at the end of the buffer, the checksum
/// still zero.
pub(crate) fn put_tcp(buf: &mut BytesMut, at: usize, h: TcpHeader, payload: &[u8])
    requires
        blank(buf_view(*old(buf)), at as int, 20 + payload@.len()),
        buf_view(*old(buf)).len() == at + 20 + payload@.len(),
    ensures
        buf_view(*final(buf)) == splice(
            buf_view(*old(buf)),
            at as int,
            tcp_header(h, 0) + payload@,
        ),
{
    set_tcp(buf, at, 5, h, payload);
}

/// `MutableUdpPacket::new` and its setters: writes a header and the payload at the end of
/// the buffer, the checksum still zero.
#[verifier::external_body]
pub(crate) fn put_udp(
    buf: &mut BytesMut,
    at: usize,
    source: u16,
    destination: u16,
    length: u16,
    payload: &[u8],
)
    requires
        blank(buf_view(*old(buf)), at as int, 8 + payload@.len()),
        buf_view(*old(buf)).len() == at + 8 + payload@.len(),
    ensures
        buf_view(*final(buf)) == splice(
            buf_view(*old(buf)),
            at as int,
            udp_header(source, destination, length, 0) + payload@,
        ),
{
    let mut p = MutableUdpPacket::new(&mut buf[at..]).unwrap();
    p.set_source(source);
    p.set_destination(destination);
    p.set_length(length);
    p.set_payload(payload);
}

/// `MutableIpv4Packet::set_checksum` on the header behind the Ethernet header.
#[verifier::external_body]
pub(crate) fn put_ipv4_checksum(buf: &mut BytesMut, checksum: u16)
    requires
        buf_view(*old(buf)).len() >= 34,
    ensures
        buf_view(*final(buf)) == splice(buf_view(*old(buf)), 24, be16(checksum)),
{
    MutableIpv4Packet::new(&mut buf[14..34]).unwrap().set_checksum(checksum);
}

/// `MutableTcpPacket::set_checksum` on the packet at `at`.
#[verifier::external_body]
pub(crate) fn put_tcp_checksum(buf: &mut BytesMut, at: usize, checksum: u16)
    requires
        buf_view(*old(buf)).len() >= at + 20,
    ensures
        buf_view(*final(buf)) == splice(buf_view(*old(buf)), at + 16, be16(checksum)),
{
    MutableTcpPacket::new(&mut buf[at..]).unwrap().set_checksum(checksum);
}

/// `MutableUdpPacket::set_checksum` on the packet at `at`.
#[verifier::external_body]
pub(crate) fn put_udp_checksum(buf: &mut BytesMut, at: usize, checksum: u16)
    requires
        buf_view(*old(buf)).len() >= at + 8,
    ensures
        buf_view(*final(buf)) == splice(buf_view(*old(buf)), at + 6, be16(checksum)),
{
    MutableUdpPacket::new(&mut buf[at..]).unwrap().set_checksum(checksum);
}

/// `ipv4::checksum` of the header behind the Ethernet header, which has no options.
#[verifier::external_body]
pub(crate) fn sum_ipv4(buf: &BytesMut) -> (r: u16)
    requires
        buf_view(*buf).len() >= 34,
        ipv4_header_len(buf_view(*buf).subrange(14, 34)) == 20,
    ensures
        r == ipv4_header_checksum(buf_view(*buf).subrange(14, 34)),
{
    pnet::packet::ipv4::checksum(&PnetIpv4::new(&buf[14..34]).unwrap())
}

/// `tcp::ipv4_checksum` of the packet that stands from `at` to the end of the buffer. It sums the
/// words up in 32 bits, which have to be enough.
#[verifier::external_body]
pub(crate) fn sum_tcp_v4(buf: &BytesMut, at: usize, s: Ipv4Addr, d: Ipv4Addr) -> (r: u16)
    requires
        at + 20 <= buf_view(*buf).len(),
        transport_sum(buf_view(*buf).skip(at as int), 8, s.bytes(), d.bytes(), 6)
            < 0x1_0000_0000,
    ensures
        r == transport_checksum(buf_view(*buf).skip(at as int), 8, s.bytes(), d.bytes(), 6),
{
    let (s, d) = ([s.0, s.1, s.2, s.3].into(), [d.0, d.1, d.2, d.3].into());
    pnet::packet::tcp::ipv4_checksum(&PnetTcp::new(&buf[at..]).unwrap(), &s, &d)
}

/// `tcp::ipv6_checksum` of the packet that stands from `at` to the end of the buffer. It sums the
/// words up in 32 bits, which have to be enough.
#[verifier::external_body]
pub(crate) fn sum_tcp_v6(buf: &BytesMut, at: usize, s: Ipv6Addr, d: Ipv6Addr) -> (r: u16)
    requires
        at + 20 <= buf_view(*buf).len(),
        transport_sum(buf_view(*buf).skip(at as int), 8, s.bytes(), d.bytes(), 6)
            < 0x1_0000_0000,
    ensures
        r == transport_checksum(buf_view(*buf).skip(at as int), 8, s.bytes(), d.bytes(), 6),
{
    let s = [s.0, s.1, s.2, s.3, s.4, s.5, s.6, s.7].into();
    let d = [d.0, d.1, d.2, d.3, d.4, d.5, d.6, d.7].into();
    pnet::packet::tcp::ipv6_checksum(&PnetTcp::new(&buf[at..]).unwrap(), &s, &d)
}

/// `udp::ipv4_checksum` of the packet that stands from `at` to the end of the buffer. It sums the
/// words up in 32 bits, which have to be enough.
#[verifier::external_body]
pub(crate) fn sum_udp_v4(buf: &BytesMut, at: usize, s: Ipv4Addr, d: Ipv4Addr) -> (r: u16)
    requires
        at + 8 <= buf_view(*buf).len(),
        transport_sum(buf_view(*buf).skip(at as int), 3, s.bytes(), d.bytes(), 17)
            < 0x1_0000_0000,
    ensures
        r == transport_checksum(buf_view(*buf).skip(at as int), 3, s.bytes(), d.bytes(), 17),
{
    let (s, d) = ([s.0, s.1, s.2, s.3].into(), [d.0, d.1, d.2, d.3].into());
    pnet::packet::udp::ipv4_checksum(&PnetUdp::new(&buf[at..]).unwrap(), &s, &d)
}

/// `udp::ipv6_checksum` of the packet that stands from `at` to the end of the buffer. It sums the
/// words up in 32 bits, which have to be enough.
#[verifier::external_body]
pub(crate) fn sum_udp_v6(buf: &BytesMut, at: usize, s: Ipv6Addr, d: Ipv6Addr) -> (r: u16)
    requires
        at + 8 <= buf_view(*buf).len(),
        transport_sum(buf_view(*buf).skip(at as int), 3, s.bytes(), d.bytes(), 17)
            < 0x1_0000_0000,
    ensures
        r == transport_checksum(buf_view(*buf).skip(at as int), 3, s.bytes(), d.bytes(), 17),
{
    let s = [s.0, s.1, s.2, s.3, s.4, s.5, s.6, s.7].into();
    let d = [d.0, d.1, d.2, d.3, d.4, d.5, d.6, d.7].into();
    pnet::packet::udp::ipv6_checksum(&PnetUdp::new(&buf[at..]).unwrap(), &s, &d)
}

} // verus!
