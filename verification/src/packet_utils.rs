//! Building and taking apart the frames that pass between the virtual machine and the proxy.
use bytes::{Bytes, BytesMut};
use vstd::prelude::*;

use crate::addr::{flipped, IpAddr, Ipv4Addr, Ipv6Addr, MacAddr, NatKey};
use crate::buffer::{buf_view, bytes_view};
use crate::wire::{
    parse_ipv4, parse_ipv6, put_arp, put_ethernet, put_ipv4, put_ipv4_checksum, put_ipv6, put_tcp,
    put_tcp_checksum, put_udp, put_udp_checksum, sum_ipv4, sum_tcp_v4, sum_tcp_v6, sum_udp_v4,
    sum_udp_v6, ArpPacket, Ipv4Packet, Ipv6Packet, TcpHeader, ARP_LEN, ARP_REPLY, ETHERNET_HEADER,
    ETHERTYPE_ARP, ETHERTYPE_IPV4, ETHERTYPE_IPV6, IPV4_HEADER, IPV6_HEADER, MAX_TRANSPORT_LEN,
    PROTOCOL_TCP, PROTOCOL_UDP, TCP_HEADER, UDP_HEADER,
};
use crate::wire::{
    arp_bytes, be16, blank, ethernet_header, ipv4_at, ipv4_header, ipv4_header_checksum,
    ipv4_header_len, ipv4_payload, ipv6_at, ipv6_header, ipv6_payload, short_packets_sum_up, splice,
    tcp_header, transport_checksum, transport_sum, udp_header,
};

verus! {

/// `n` zero bytes.
pub open spec fn zeros(n: nat) -> Seq<u8> {
    Seq::new(n, |i: int| 0u8)
}

/// The low 16 bits of a length, as a header field holds it.
pub open spec fn field16(n: nat) -> u16 {
    (n % 0x1_0000) as u16
}

// --- The frames that are built ---

/// An IPv4 header with its checksum filled in.
#[verifier::opaque]
pub open spec fn ipv4_summed(
    total_length: u16,
    protocol: u8,
    source: Ipv4Addr,
    destination: Ipv4Addr,
) -> Seq<u8> {
    ipv4_header(
        total_length,
        protocol,
        ipv4_header_checksum(ipv4_header(total_length, protocol, 0, source, destination)),
        source,
        destination,
    )
}

/// A TCP packet with its checksum filled in.
#[verifier::opaque]
pub open spec fn tcp_summed(
    h: TcpHeader,
    payload: Seq<u8>,
    source: Seq<u8>,
    destination: Seq<u8>,
) -> Seq<u8> {
    tcp_header(
        h,
        transport_checksum(tcp_header(h, 0) + payload, 8, source, destination, PROTOCOL_TCP),
    ) + payload
}

/// A UDP packet with its checksum filled in.
#[verifier::opaque]
pub open spec fn udp_summed(
    source_port: u16,
    destination_port: u16,
    payload: Seq<u8>,
    source: Seq<u8>,
    destination: Seq<u8>,
) -> Seq<u8> {
    let length = field16(8 + payload.len());
    udp_header(
        source_port,
        destination_port,
        length,
        transport_checksum(
            udp_header(source_port, destination_port, length, 0) + payload,
            3,
            source,
            destination,
            PROTOCOL_UDP,
        ),
    ) + payload
}

/// A TCP packet in an IPv4 packet in an Ethernet frame.
pub open spec fn ipv4_tcp_frame(
    source: Ipv4Addr,
    destination: Ipv4Addr,
    h: TcpHeader,
    payload: Seq<u8>,
    src_mac: MacAddr,
    dst_mac: MacAddr,
) -> Seq<u8> {
    ethernet_header(dst_mac, src_mac, ETHERTYPE_IPV4) + ipv4_summed(
        field16(40 + payload.len()),
        PROTOCOL_TCP,
        source,
        destination,
    ) + tcp_summed(h, payload, source.bytes(), destination.bytes())
}

/// A TCP packet in an IPv6 packet in an Ethernet frame.
pub open spec fn ipv6_tcp_frame(
    source: Ipv6Addr,
    destination: Ipv6Addr,
    h: TcpHeader,
    payload: Seq<u8>,
    src_mac: MacAddr,
    dst_mac: MacAddr,
) -> Seq<u8> {
    ethernet_header(dst_mac, src_mac, ETHERTYPE_IPV6) + ipv6_header(
        field16(20 + payload.len()),
        PROTOCOL_TCP,
        source,
        destination,
    ) + tcp_summed(h, payload, source.bytes(), destination.bytes())
}

/// A UDP packet in an IPv4 packet in an Ethernet frame.
pub open spec fn ipv4_udp_frame(
    source: Ipv4Addr,
    destination: Ipv4Addr,
    source_port: u16,
    destination_port: u16,
    payload: Seq<u8>,
    src_mac: MacAddr,
    dst_mac: MacAddr,
) -> Seq<u8> {
    ethernet_header(dst_mac, src_mac, ETHERTYPE_IPV4) + ipv4_summed(
        field16(28 + payload.len()),
        PROTOCOL_UDP,
        source,
        destination,
    ) + udp_summed(source_port, destination_port, payload, source.bytes(), destination.bytes())
}

/// A UDP packet in an IPv6 packet in an Ethernet frame.
pub open spec fn ipv6_udp_frame(
    source: Ipv6Addr,
    destination: Ipv6Addr,
    source_port: u16,
    destination_port: u16,
    payload: Seq<u8>,
    src_mac: MacAddr,
    dst_mac: MacAddr,
) -> Seq<u8> {
    ethernet_header(dst_mac, src_mac, ETHERTYPE_IPV6) + ipv6_header(
        field16(8 + payload.len()),
        PROTOCOL_UDP,
        source,
        destination,
    ) + udp_summed(source_port, destination_port, payload, source.bytes(), destination.bytes())
}

/// The TCP header of a packet along `key`.
pub open spec fn header_along(
    key: NatKey,
    sequence: u32,
    acknowledgement: u32,
    flags: u8,
    window: u16,
) -> TcpHeader {
    TcpHeader {
        source: key.1,
        destination: key.3,
        sequence,
        acknowledgement,
        flags,
        window,
    }
}

/// The TCP frame along `key`; nothing when its two addresses are of different families.
#[verifier::opaque]
pub open spec fn tcp_frame_window(
    key: NatKey,
    sequence: u32,
    acknowledgement: u32,
    payload: Seq<u8>,
    flags: u8,
    window: u16,
    src_mac: MacAddr,
    dst_mac: MacAddr,
) -> Seq<u8> {
    let h = header_along(key, sequence, acknowledgement, flags, window);
    match (key.0, key.2) {
        (IpAddr::V4(s), IpAddr::V4(d)) => ipv4_tcp_frame(s, d, h, payload, src_mac, dst_mac),
        (IpAddr::V6(s), IpAddr::V6(d)) => ipv6_tcp_frame(s, d, h, payload, src_mac, dst_mac),
        _ => Seq::empty(),
    }
}

/// The TCP frame along `key`, with the largest window that fits the field.
pub open spec fn tcp_frame(
    key: NatKey,
    sequence: u32,
    acknowledgement: u32,
    payload: Seq<u8>,
    flags: u8,
    src_mac: MacAddr,
    dst_mac: MacAddr,
) -> Seq<u8> {
    tcp_frame_window(key, sequence, acknowledgement, payload, flags, 0xffff, src_mac, dst_mac)
}

/// The UDP frame along `key`; nothing when its two addresses are of different families.
#[verifier::opaque]
pub open spec fn udp_frame(
    key: NatKey,
    payload: Seq<u8>,
    src_mac: MacAddr,
    dst_mac: MacAddr,
) -> Seq<u8> {
    match (key.0, key.2) {
        (IpAddr::V4(s), IpAddr::V4(d)) => ipv4_udp_frame(
            s,
            d,
            key.1,
            key.3,
            payload,
            src_mac,
            dst_mac,
        ),
        (IpAddr::V6(s), IpAddr::V6(d)) => ipv6_udp_frame(
            s,
            d,
            key.1,
            key.3,
            payload,
            src_mac,
            dst_mac,
        ),
        _ => Seq::empty(),
    }
}

/// The answer to an ARP request: the asker's own packet turned round, with the proxy's
/// addresses as the sender.
pub open spec fn arp_answer(request: ArpPacket, mac: MacAddr, ip: Ipv4Addr) -> ArpPacket {
    ArpPacket {
        operation: ARP_REPLY,
        sender_hw_addr: mac,
        sender_proto_addr: ip,
        target_hw_addr: request.sender_hw_addr,
        target_proto_addr: request.sender_proto_addr,
        ..request
    }
}

/// The frame that answers an ARP request.
pub open spec fn arp_reply_frame(request: ArpPacket, mac: MacAddr, ip: Ipv4Addr) -> Seq<u8> {
    ethernet_header(request.sender_hw_addr, mac, ETHERTYPE_ARP) + arp_bytes(
        arp_answer(request, mac, ip),
    )
}

// --- Lemmas on buffers that are filled piece by piece ---

proof fn splice_between(a: Seq<u8>, b: Seq<u8>, c: Seq<u8>, new: Seq<u8>)
    requires
        b.len() == new.len(),
    ensures
        splice(a + b + c, a.len() as int, new) == a + new + c,
{
    assert(splice(a + b + c, a.len() as int, new) =~= a + new + c);
}

proof fn blank_between(a: Seq<u8>, n: nat, c: Seq<u8>)
    ensures
        blank(a + zeros(n) + c, a.len() as int, n),
{
}

proof fn zeros_split(a: nat, b: nat)
    ensures
        zeros(a + b) == zeros(a) + zeros(b),
{
    assert(zeros(a + b) =~= zeros(a) + zeros(b));
}

proof fn tcp_header_checksum_field(h: TcpHeader, sum: u16, before: Seq<u8>, after: Seq<u8>)
    ensures
        splice(before + tcp_header(h, 0) + after, (before.len() + 16) as int, be16(sum)) == before
            + tcp_header(h, sum) + after,
{
    assert(splice(before + tcp_header(h, 0) + after, (before.len() + 16) as int, be16(sum)) =~= before
        + tcp_header(h, sum) + after);
}

proof fn udp_header_checksum_field(
    s: u16,
    d: u16,
    len: u16,
    sum: u16,
    before: Seq<u8>,
    after: Seq<u8>,
)
    ensures
        splice(before + udp_header(s, d, len, 0) + after, (before.len() + 6) as int, be16(sum)) == before
            + udp_header(s, d, len, sum) + after,
{
    assert(splice(before + udp_header(s, d, len, 0) + after, (before.len() + 6) as int, be16(sum))
        =~= before + udp_header(s, d, len, sum) + after);
}

proof fn ipv4_header_checksum_field(
    total: u16,
    protocol: u8,
    s: Ipv4Addr,
    d: Ipv4Addr,
    sum: u16,
    before: Seq<u8>,
    after: Seq<u8>,
)
    ensures
        splice(
            before + ipv4_header(total, protocol, 0, s, d) + after,
            (before.len() + 10) as int,
            be16(sum),
        ) == before + ipv4_header(total, protocol, sum, s, d) + after,
        ipv4_header_len(ipv4_header(total, protocol, 0, s, d)) == 20,
{
    assert(splice(
        before + ipv4_header(total, protocol, 0, s, d) + after,
        (before.len() + 10) as int,
        be16(sum),
    ) =~= before + ipv4_header(total, protocol, sum, s, d) + after);
}

// --- Building ---

/// Whether a TCP packet can be built: its words sum up to less than 2^32, as those of any that
/// is not very long do, and its frame can be allocated.
pub open spec fn tcp_sum_fits(
    h: TcpHeader,
    payload: Seq<u8>,
    source: Seq<u8>,
    destination: Seq<u8>,
) -> bool {
    ||| payload.len() + 20 <= MAX_TRANSPORT_LEN
    ||| {
        &&& payload.len() + 74 <= isize::MAX
        &&& transport_sum(tcp_header(h, 0) + payload, 8, source, destination, PROTOCOL_TCP)
            < 0x1_0000_0000
    }
}

/// The same of a UDP packet.
pub open spec fn udp_sum_fits(
    source_port: u16,
    destination_port: u16,
    payload: Seq<u8>,
    source: Seq<u8>,
    destination: Seq<u8>,
) -> bool {
    ||| payload.len() + 8 <= MAX_TRANSPORT_LEN
    ||| {
        &&& payload.len() + 62 <= isize::MAX
        &&& transport_sum(
            udp_header(source_port, destination_port, field16(8 + payload.len()), 0) + payload,
            3,
            source,
            destination,
            PROTOCOL_UDP,
        ) < 0x1_0000_0000
    }
}

/// Whether the TCP frame along `key` can be built.
pub open spec fn tcp_frame_fits(
    key: NatKey,
    sequence: u32,
    acknowledgement: u32,
    payload: Seq<u8>,
    flags: u8,
) -> bool {
    let h = header_along(key, sequence, acknowledgement, flags, 0xffff);
    ||| payload.len() + 20 <= MAX_TRANSPORT_LEN
    ||| match (key.0, key.2) {
        (IpAddr::V4(s), IpAddr::V4(d)) => tcp_sum_fits(h, payload, s.bytes(), d.bytes()),
        (IpAddr::V6(s), IpAddr::V6(d)) => tcp_sum_fits(h, payload, s.bytes(), d.bytes()),
        _ => true,
    }
}

/// Whether the UDP frame along `key` can be built.
pub open spec fn udp_frame_fits(key: NatKey, payload: Seq<u8>) -> bool {
    ||| payload.len() + 8 <= MAX_TRANSPORT_LEN
    ||| match (key.0, key.2) {
        (IpAddr::V4(s), IpAddr::V4(d)) => udp_sum_fits(
            key.1,
            key.3,
            payload,
            s.bytes(),
            d.bytes(),
        ),
        (IpAddr::V6(s), IpAddr::V6(d)) => udp_sum_fits(
            key.1,
            key.3,
            payload,
            s.bytes(),
            d.bytes(),
        ),
        _ => true,
    }
}

/// Empties the buffer and fills it with `len` zeros.
fn start_frame(packet_buf: &mut BytesMut, len: usize)
    requires
        len <= isize::MAX,
    ensures
        buf_view(*final(packet_buf)) == zeros(len as nat),
{
    packet_buf.clear();
    packet_buf.resize(len, 0);
    assert(buf_view(*packet_buf) =~= zeros(len as nat));
}

/// Fills the buffer with a TCP packet in an IPv4 packet in an Ethernet frame.
#[verifier::rlimit(40)]
pub(crate) fn fill_ipv4_tcp(
    packet_buf: &mut BytesMut,
    src_ip: Ipv4Addr,
    dst_ip: Ipv4Addr,
    h: TcpHeader,
    payload: &[u8],
    src_mac: MacAddr,
    dst_mac: MacAddr,
)
    requires
        tcp_sum_fits(h, payload@, src_ip.bytes(), dst_ip.bytes()),
    ensures
        buf_view(*final(packet_buf)).len() == 54 + payload@.len(),
        buf_view(*final(packet_buf)) == ipv4_tcp_frame(
            src_ip,
            dst_ip,
            h,
            payload@,
            src_mac,
            dst_mac,
        ),
{
    let n: usize = payload.len();
    let total: u16 = ((IPV4_HEADER + TCP_HEADER + n) % 0x1_0000) as u16;
    start_frame(packet_buf, ETHERNET_HEADER + IPV4_HEADER + TCP_HEADER + n);
    let ghost none = Seq::<u8>::empty();
    let ghost eth = ethernet_header(dst_mac, src_mac, ETHERTYPE_IPV4);
    let ghost ip = ipv4_header(total, PROTOCOL_TCP, 0, src_ip, dst_ip);
    let ghost seg = tcp_header(h, 0) + payload@;
    proof {
        zeros_split(14, (40 + n) as nat);
        zeros_split(20, (20 + n) as nat);
        assert(buf_view(*packet_buf) =~= none + zeros(14) + zeros((40 + n) as nat));
        blank_between(none, 14, zeros((40 + n) as nat));
        splice_between(none, zeros(14), zeros((40 + n) as nat), eth);
    }
    put_ethernet(packet_buf, dst_mac, src_mac, ETHERTYPE_IPV4);
    proof {
        assert(buf_view(*packet_buf) =~= eth + zeros(20) + zeros((20 + n) as nat));
        blank_between(eth, 20, zeros((20 + n) as nat));
        splice_between(eth, zeros(20), zeros((20 + n) as nat), ip);
    }
    put_ipv4(packet_buf, total, PROTOCOL_TCP, src_ip, dst_ip);
    proof {
        assert(buf_view(*packet_buf) =~= (eth + ip) + zeros((20 + n) as nat) + none);
        blank_between(eth + ip, (20 + n) as nat, none);
        splice_between(eth + ip, zeros((20 + n) as nat), none, seg);
    }
    put_tcp(packet_buf, ETHERNET_HEADER + IPV4_HEADER, h, payload);
    assert(buf_view(*packet_buf).skip(34) =~= seg);
    proof {
        if seg.len() <= MAX_TRANSPORT_LEN {
            short_packets_sum_up(seg, 8, src_ip.bytes(), dst_ip.bytes(), PROTOCOL_TCP);
        }
    }
    let sum: u16 = sum_tcp_v4(packet_buf, ETHERNET_HEADER + IPV4_HEADER, src_ip, dst_ip);
    proof {
        assert(buf_view(*packet_buf) =~= (eth + ip) + tcp_header(h, 0) + payload@);
        tcp_header_checksum_field(h, sum, eth + ip, payload@);
    }
    put_tcp_checksum(packet_buf, ETHERNET_HEADER + IPV4_HEADER, sum);
    let ghost rest = tcp_header(h, sum) + payload@;
    assert(buf_view(*packet_buf).subrange(14, 34) =~= ip);
    proof {
        ipv4_header_checksum_field(total, PROTOCOL_TCP, src_ip, dst_ip, 0, eth, rest);
    }
    let ip_sum: u16 = sum_ipv4(packet_buf);
    proof {
        assert(buf_view(*packet_buf) =~= eth + ip + rest);
        ipv4_header_checksum_field(total, PROTOCOL_TCP, src_ip, dst_ip, ip_sum, eth, rest);
    }
    put_ipv4_checksum(packet_buf, ip_sum);
    proof {
        reveal(ipv4_summed);
        reveal(tcp_summed);
        reveal(udp_summed);
    }
}

/// Fills the buffer with a TCP packet in an IPv6 packet in an Ethernet frame.
pub(crate) fn fill_ipv6_tcp(
    packet_buf: &mut BytesMut,
    src_ip: Ipv6Addr,
    dst_ip: Ipv6Addr,
    h: TcpHeader,
    payload: &[u8],
    src_mac: MacAddr,
    dst_mac: MacAddr,
)
    requires
        tcp_sum_fits(h, payload@, src_ip.bytes(), dst_ip.bytes()),
    ensures
        buf_view(*final(packet_buf)).len() == 74 + payload@.len(),
        buf_view(*final(packet_buf)) == ipv6_tcp_frame(
            src_ip,
            dst_ip,
            h,
            payload@,
            src_mac,
            dst_mac,
        ),
{
    let n: usize = payload.len();
    let length: u16 = ((TCP_HEADER + n) % 0x1_0000) as u16;
    start_frame(packet_buf, ETHERNET_HEADER + IPV6_HEADER + TCP_HEADER + n);
    let ghost none = Seq::<u8>::empty();
    let ghost eth = ethernet_header(dst_mac, src_mac, ETHERTYPE_IPV6);
    let ghost ip = ipv6_header(length, PROTOCOL_TCP, src_ip, dst_ip);
    let ghost seg = tcp_header(h, 0) + payload@;
    proof {
        zeros_split(14, (60 + n) as nat);
        zeros_split(40, (20 + n) as nat);
        assert(buf_view(*packet_buf) =~= none + zeros(14) + zeros((60 + n) as nat));
        blank_between(none, 14, zeros((60 + n) as nat));
        splice_between(none, zeros(14), zeros((60 + n) as nat), eth);
    }
    put_ethernet(packet_buf, dst_mac, src_mac, ETHERTYPE_IPV6);
    proof {
        assert(buf_view(*packet_buf) =~= eth + zeros(40) + zeros((20 + n) as nat));
        blank_between(eth, 40, zeros((20 + n) as nat));
        splice_between(eth, zeros(40), zeros((20 + n) as nat), ip);
    }
    put_ipv6(packet_buf, length, PROTOCOL_TCP, src_ip, dst_ip);
    proof {
        assert(buf_view(*packet_buf) =~= (eth + ip) + zeros((20 + n) as nat) + none);
        blank_between(eth + ip, (20 + n) as nat, none);
        splice_between(eth + ip, zeros((20 + n) as nat), none, seg);
    }
    put_tcp(packet_buf, ETHERNET_HEADER + IPV6_HEADER, h, payload);
    assert(buf_view(*packet_buf).skip(54) =~= seg);
    proof {
        if seg.len() <= MAX_TRANSPORT_LEN {
            short_packets_sum_up(seg, 8, src_ip.bytes(), dst_ip.bytes(), PROTOCOL_TCP);
        }
    }
    let sum: u16 = sum_tcp_v6(packet_buf, ETHERNET_HEADER + IPV6_HEADER, src_ip, dst_ip);
    proof {
        assert(buf_view(*packet_buf) =~= (eth + ip) + tcp_header(h, 0) + payload@);
        tcp_header_checksum_field(h, sum, eth + ip, payload@);
    }
    put_tcp_checksum(packet_buf, ETHERNET_HEADER + IPV6_HEADER, sum);
    reveal(tcp_summed);
}

/// Fills the buffer with a UDP packet in an IPv4 packet in an Ethernet frame.
#[verifier::rlimit(40)]
pub(crate) fn fill_ipv4_udp(
    packet_buf: &mut BytesMut,
    src_ip: Ipv4Addr,
    dst_ip: Ipv4Addr,
    src_port: u16,
    dst_port: u16,
    payload: &[u8],
    src_mac: MacAddr,
    dst_mac: MacAddr,
)
    requires
        udp_sum_fits(src_port, dst_port, payload@, src_ip.bytes(), dst_ip.bytes()),
    ensures
        buf_view(*final(packet_buf)).len() == 42 + payload@.len(),
        buf_view(*final(packet_buf)) == ipv4_udp_frame(
            src_ip,
            dst_ip,
            src_port,
            dst_port,
            payload@,
            src_mac,
            dst_mac,
        ),
{
    let n: usize = payload.len();
    let total: u16 = ((IPV4_HEADER + UDP_HEADER + n) % 0x1_0000) as u16;
    let length: u16 = ((UDP_HEADER + n) % 0x1_0000) as u16;
    start_frame(packet_buf, ETHERNET_HEADER + IPV4_HEADER + UDP_HEADER + n);
    let ghost none = Seq::<u8>::empty();
    let ghost eth = ethernet_header(dst_mac, src_mac, ETHERTYPE_IPV4);
    let ghost ip = ipv4_header(total, PROTOCOL_UDP, 0, src_ip, dst_ip);
    let ghost seg = udp_header(src_port, dst_port, length, 0) + payload@;
    proof {
        zeros_split(14, (28 + n) as nat);
        zeros_split(20, (8 + n) as nat);
        assert(buf_view(*packet_buf) =~= none + zeros(14) + zeros((28 + n) as nat));
        blank_between(none, 14, zeros((28 + n) as nat));
        splice_between(none, zeros(14), zeros((28 + n) as nat), eth);
    }
    put_ethernet(packet_buf, dst_mac, src_mac, ETHERTYPE_IPV4);
    proof {
        assert(buf_view(*packet_buf) =~= eth + zeros(20) + zeros((8 + n) as nat));
        blank_between(eth, 20, zeros((8 + n) as nat));
        splice_between(eth, zeros(20), zeros((8 + n) as nat), ip);
    }
    put_ipv4(packet_buf, total, PROTOCOL_UDP, src_ip, dst_ip);
    proof {
        assert(buf_view(*packet_buf) =~= (eth + ip) + zeros((8 + n) as nat) + none);
        blank_between(eth + ip, (8 + n) as nat, none);
        splice_between(eth + ip, zeros((8 + n) as nat), none, seg);
    }
    put_udp(packet_buf, ETHERNET_HEADER + IPV4_HEADER, src_port, dst_port, length, payload);
    assert(buf_view(*packet_buf).skip(34) =~= seg);
    proof {
        if seg.len() <= MAX_TRANSPORT_LEN {
            short_packets_sum_up(seg, 3, src_ip.bytes(), dst_ip.bytes(), PROTOCOL_UDP);
        }
    }
    let sum: u16 = sum_udp_v4(packet_buf, ETHERNET_HEADER + IPV4_HEADER, src_ip, dst_ip);
    proof {
        assert(buf_view(*packet_buf) =~= (eth + ip) + udp_header(src_port, dst_port, length, 0)
            + payload@);
        udp_header_checksum_field(src_port, dst_port, length, sum, eth + ip, payload@);
    }
    put_udp_checksum(packet_buf, ETHERNET_HEADER + IPV4_HEADER, sum);
    let ghost rest = udp_header(src_port, dst_port, length, sum) + payload@;
    assert(buf_view(*packet_buf).subrange(14, 34) =~= ip);
    proof {
        ipv4_header_checksum_field(total, PROTOCOL_UDP, src_ip, dst_ip, 0, eth, rest);
    }
    let ip_sum: u16 = sum_ipv4(packet_buf);
    proof {
        assert(buf_view(*packet_buf) =~= eth + ip + rest);
        ipv4_header_checksum_field(total, PROTOCOL_UDP, src_ip, dst_ip, ip_sum, eth, rest);
    }
    put_ipv4_checksum(packet_buf, ip_sum);
    proof {
        reveal(ipv4_summed);
        reveal(tcp_summed);
        reveal(udp_summed);
    }
}

/// Fills the buffer with a UDP packet in an IPv6 packet in an Ethernet frame.
pub(crate) fn fill_ipv6_udp(
    packet_buf: &mut BytesMut,
    src_ip: Ipv6Addr,
    dst_ip: Ipv6Addr,
    src_port: u16,
    dst_port: u16,
    payload: &[u8],
    src_mac: MacAddr,
    dst_mac: MacAddr,
)
    requires
        udp_sum_fits(src_port, dst_port, payload@, src_ip.bytes(), dst_ip.bytes()),
    ensures
        buf_view(*final(packet_buf)).len() == 62 + payload@.len(),
        buf_view(*final(packet_buf)) == ipv6_udp_frame(
            src_ip,
            dst_ip,
            src_port,
            dst_port,
            payload@,
            src_mac,
            dst_mac,
        ),
{
    let n: usize = payload.len();
    let length: u16 = ((UDP_HEADER + n) % 0x1_0000) as u16;
    start_frame(packet_buf, ETHERNET_HEADER + IPV6_HEADER + UDP_HEADER + n);
    let ghost none = Seq::<u8>::empty();
    let ghost eth = ethernet_header(dst_mac, src_mac, ETHERTYPE_IPV6);
    let ghost ip = ipv6_header(length, PROTOCOL_UDP, src_ip, dst_ip);
    let ghost seg = udp_header(src_port, dst_port, length, 0) + payload@;
    proof {
        zeros_split(14, (48 + n) as nat);
        zeros_split(40, (8 + n) as nat);
        assert(buf_view(*packet_buf) =~= none + zeros(14) + zeros((48 + n) as nat));
        blank_between(none, 14, zeros((48 + n) as nat));
        splice_between(none, zeros(14), zeros((48 + n) as nat), eth);
    }
    put_ethernet(packet_buf, dst_mac, src_mac, ETHERTYPE_IPV6);
    proof {
        assert(buf_view(*packet_buf) =~= eth + zeros(40) + zeros((8 + n) as nat));
        blank_between(eth, 40, zeros((8 + n) as nat));
        splice_between(eth, zeros(40), zeros((8 + n) as nat), ip);
    }
    put_ipv6(packet_buf, length, PROTOCOL_UDP, src_ip, dst_ip);
    proof {
        assert(buf_view(*packet_buf) =~= (eth + ip) + zeros((8 + n) as nat) + none);
        blank_between(eth + ip, (8 + n) as nat, none);
        splice_between(eth + ip, zeros((8 + n) as nat), none, seg);
    }
    put_udp(packet_buf, ETHERNET_HEADER + IPV6_HEADER, src_port, dst_port, length, payload);
    assert(buf_view(*packet_buf).skip(54) =~= seg);
    proof {
        if seg.len() <= MAX_TRANSPORT_LEN {
            short_packets_sum_up(seg, 3, src_ip.bytes(), dst_ip.bytes(), PROTOCOL_UDP);
        }
    }
    let sum: u16 = sum_udp_v6(packet_buf, ETHERNET_HEADER + IPV6_HEADER, src_ip, dst_ip);
    proof {
        assert(buf_view(*packet_buf) =~= (eth + ip) + udp_header(src_port, dst_port, length, 0)
            + payload@);
        udp_header_checksum_field(src_port, dst_port, length, sum, eth + ip, payload@);
    }
    put_udp_checksum(packet_buf, ETHERNET_HEADER + IPV6_HEADER, sum);
    reveal(udp_summed);
}

/// Fills the buffer with the answer to an ARP request.
pub(crate) fn fill_arp_reply(
    packet_buf: &mut BytesMut,
    request: &ArpPacket,
    proxy_mac: MacAddr,
    proxy_ip: Ipv4Addr,
)
    ensures
        buf_view(*final(packet_buf)) == arp_reply_frame(*request, proxy_mac, proxy_ip),
{
    start_frame(packet_buf, ETHERNET_HEADER + ARP_LEN);
    let ghost none = Seq::<u8>::empty();
    let ghost eth = ethernet_header(request.sender_hw_addr, proxy_mac, ETHERTYPE_ARP);
    proof {
        zeros_split(14, 28);
        assert(buf_view(*packet_buf) =~= none + zeros(14) + zeros(28));
        blank_between(none, 14, zeros(28));
        splice_between(none, zeros(14), zeros(28), eth);
    }
    put_ethernet(packet_buf, request.sender_hw_addr, proxy_mac, ETHERTYPE_ARP);
    let answer = ArpPacket {
        hardware_type: request.hardware_type,
        protocol_type: request.protocol_type,
        hw_addr_len: request.hw_addr_len,
        proto_addr_len: request.proto_addr_len,
        operation: ARP_REPLY,
        sender_hw_addr: proxy_mac,
        sender_proto_addr: proxy_ip,
        target_hw_addr: request.sender_hw_addr,
        target_proto_addr: request.sender_proto_addr,
        length: request.length,
    };
    proof {
        assert(buf_view(*packet_buf) =~= eth + zeros(28) + none);
        blank_between(eth, 28, none);
        splice_between(eth, zeros(28), none, arp_bytes(answer));
        assert(eth + arp_bytes(answer) + none =~= eth + arp_bytes(answer));
    }
    put_arp(packet_buf, &answer);
}

/// Hands out everything that the buffer holds and leaves it empty.
pub(crate) fn take_frame(packet_buf: &mut BytesMut, len: usize) -> (r: Bytes)
    requires
        buf_view(*old(packet_buf)).len() == len,
    ensures
        bytes_view(r) == buf_view(*old(packet_buf)),
        buf_view(*final(packet_buf)) == Seq::<u8>::empty(),
{
    let r = packet_buf.split_to(len).freeze();
    assert(bytes_view(r) =~= buf_view(*old(packet_buf)));
    assert(buf_view(*packet_buf) =~= Seq::<u8>::empty());
    r
}

/// Answers an ARP request with the proxy's hardware address. The request is the bare ARP
/// packet: one with padding behind it does not fit in the answer.
pub fn build_arp_reply(
    packet_buf: &mut BytesMut,
    request: &ArpPacket,
    proxy_mac: MacAddr,
    _vm_mac: MacAddr,
    proxy_ip: Ipv4Addr,
) -> (r: Bytes)
    requires
        request.length == ARP_LEN,
    ensures
        bytes_view(r) == arp_reply_frame(*request, proxy_mac, proxy_ip),
        buf_view(*final(packet_buf)) == Seq::<u8>::empty(),
{
    fill_arp_reply(packet_buf, request, proxy_mac, proxy_ip);
    take_frame(packet_buf, ETHERNET_HEADER + ARP_LEN)
}

/// Builds the TCP frame along `nat_key`, without flags where none are given. There is no
/// frame between addresses of different families.
pub fn build_tcp_packet(
    packet_buf: &mut BytesMut,
    nat_key: NatKey,
    tx_seq: u32,
    rx_seq: u32,
    payload: Option<&[u8]>,
    flags: Option<u8>,
    src_mac: MacAddr,
    dst_mac: MacAddr,
) -> (r: Bytes)
    requires
        tcp_frame_fits(nat_key, tx_seq, rx_seq, payload_of(payload), flags_of(flags)),
    ensures
        bytes_view(r) == tcp_frame(
            nat_key,
            tx_seq,
            rx_seq,
            payload_of(payload),
            flags_of(flags),
            src_mac,
            dst_mac,
        ),
        same_family(nat_key) ==> buf_view(*final(packet_buf)) == Seq::<u8>::empty(),
        !same_family(nat_key) ==> *final(packet_buf) == *old(packet_buf),
{
    let f: u8 = match flags {
        Some(f) => f,
        None => 0,
    };
    let h = TcpHeader {
        source: nat_key.1,
        destination: nat_key.3,
        sequence: tx_seq,
        acknowledgement: rx_seq,
        flags: f,
        window: 0xffff,
    };
    let nothing: [u8; 0] = [];
    let data: &[u8] = match payload {
        Some(p) => p,
        None => nothing.as_slice(),
    };
    assert(data@ =~= payload_of(payload));
    reveal(tcp_frame_window);
    match (nat_key.0, nat_key.2) {
        (IpAddr::V4(src), IpAddr::V4(dst)) => {
            fill_ipv4_tcp(packet_buf, src, dst, h, data, src_mac, dst_mac);
            take_frame(packet_buf, ETHERNET_HEADER + IPV4_HEADER + TCP_HEADER + data.len())
        },
        (IpAddr::V6(src), IpAddr::V6(dst)) => {
            fill_ipv6_tcp(packet_buf, src, dst, h, data, src_mac, dst_mac);
            take_frame(packet_buf, ETHERNET_HEADER + IPV6_HEADER + TCP_HEADER + data.len())
        },
        _ => Bytes::new(),
    }
}

/// Builds the UDP frame that answers along `nat_key`, from its destination back to its
/// source.
pub fn build_udp_packet(
    packet_buf: &mut BytesMut,
    nat_key: NatKey,
    payload: &[u8],
    src_mac: MacAddr,
    dst_mac: MacAddr,
) -> (r: Bytes)
    requires
        udp_frame_fits(flipped(nat_key), payload@),
    ensures
        bytes_view(r) == udp_frame(flipped(nat_key), payload@, src_mac, dst_mac),
        same_family(nat_key) ==> buf_view(*final(packet_buf)) == Seq::<u8>::empty(),
        !same_family(nat_key) ==> *final(packet_buf) == *old(packet_buf),
{
    reveal(udp_frame);
    match (nat_key.2, nat_key.0) {
        (IpAddr::V4(src), IpAddr::V4(dst)) => {
            fill_ipv4_udp(packet_buf, src, dst, nat_key.3, nat_key.1, payload, src_mac, dst_mac);
            take_frame(packet_buf, ETHERNET_HEADER + IPV4_HEADER + UDP_HEADER + payload.len())
        },
        (IpAddr::V6(src), IpAddr::V6(dst)) => {
            fill_ipv6_udp(packet_buf, src, dst, nat_key.3, nat_key.1, payload, src_mac, dst_mac);
            take_frame(packet_buf, ETHERNET_HEADER + IPV6_HEADER + UDP_HEADER + payload.len())
        },
        _ => Bytes::new(),
    }
}

/// The payload of a packet that may have none.
pub open spec fn payload_of(payload: Option<&[u8]>) -> Seq<u8> {
    match payload {
        Some(p) => p@,
        None => Seq::empty(),
    }
}

/// The flags of a packet that may have none.
pub open spec fn flags_of(flags: Option<u8>) -> u8 {
    match flags {
        Some(f) => f,
        None => 0,
    }
}

/// Whether both ends of a flow have addresses of one family.
pub open spec fn same_family(key: NatKey) -> bool {
    key.0 is V4 <==> key.2 is V4
}

// --- Generic IP packets ---

/// An IP packet of either version.
#[derive(Debug)]
pub enum IpPacket {
    V4(Ipv4Packet),
    V6(Ipv6Packet),
}

/// What the logic reads of an IP packet.
pub struct IpView {
    pub source: IpAddr,
    pub destination: IpAddr,
    pub protocol: u8,
    pub payload: Seq<u8>,
}

/// The IPv4 packet in `s`.
pub open spec fn ipv4_view(s: Seq<u8>) -> IpView {
    IpView {
        source: IpAddr::V4(ipv4_at(s, 12)),
        destination: IpAddr::V4(ipv4_at(s, 16)),
        protocol: s[9],
        payload: ipv4_payload(s),
    }
}

/// The IPv6 packet in `s`.
pub open spec fn ipv6_view(s: Seq<u8>) -> IpView {
    IpView {
        source: IpAddr::V6(ipv6_at(s, 8)),
        destination: IpAddr::V6(ipv6_at(s, 24)),
        protocol: s[6],
        payload: ipv6_payload(s),
    }
}

/// The IP packet in `s`, by the version in its first four bits.
#[verifier::opaque]
pub open spec fn ip_view(s: Seq<u8>) -> Option<IpView> {
    if s.len() >= 20 && s[0] / 16 == 4 {
        Some(ipv4_view(s))
    } else if s.len() >= 40 && s[0] / 16 == 6 {
        Some(ipv6_view(s))
    } else {
        None
    }
}

impl View for IpPacket {
    type V = IpView;

    open spec fn view(&self) -> IpView {
        match self {
            IpPacket::V4(p) => IpView {
                source: IpAddr::V4(p.source),
                destination: IpAddr::V4(p.destination),
                protocol: p.next_level_protocol,
                payload: p.payload@,
            },
            IpPacket::V6(p) => IpView {
                source: IpAddr::V6(p.source),
                destination: IpAddr::V6(p.destination),
                protocol: p.next_header,
                payload: p.payload@,
            },
        }
    }
}

impl IpPacket {
    /// Reads an IP packet of the version that its first byte names.
    pub fn new(ip_payload: &[u8]) -> (r: Option<Self>)
        ensures
            r is Some <==> ip_view(ip_payload@) is Some,
            r matches Some(p) ==> p@ == ip_view(ip_payload@)->0,
    {
        reveal(ip_view);
        if ip_payload.len() == 0 {
            return None;
        }
        let version: u8 = ip_payload[0] / 16;
        if version == 4 {
            match parse_ipv4(ip_payload) {
                Some(p) => Some(IpPacket::V4(p)),
                None => None,
            }
        } else if version == 6 {
            match parse_ipv6(ip_payload) {
                Some(p) => Some(IpPacket::V6(p)),
                None => None,
            }
        } else {
            None
        }
    }

    pub fn source(&self) -> (r: IpAddr)
        ensures
            r == self@.source,
    {
        match self {
            IpPacket::V4(p) => IpAddr::V4(p.source),
            IpPacket::V6(p) => IpAddr::V6(p.source),
        }
    }

    pub fn destination(&self) -> (r: IpAddr)
        ensures
            r == self@.destination,
    {
        match self {
            IpPacket::V4(p) => IpAddr::V4(p.destination),
            IpPacket::V6(p) => IpAddr::V6(p.destination),
        }
    }

    pub fn next_header(&self) -> (r: u8)
        ensures
            r == self@.protocol,
    {
        match self {
            IpPacket::V4(p) => p.next_level_protocol,
            IpPacket::V6(p) => p.next_header,
        }
    }

    pub fn payload(&self) -> (r: &[u8])
        ensures
            r@ == self@.payload,
    {
        match self {
            IpPacket::V4(p) => p.payload.as_slice(),
            IpPacket::V6(p) => p.payload.as_slice(),
        }
    }
}

} // verus!
