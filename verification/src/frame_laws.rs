//! What the machine reads out of a frame that the proxy built, and that its checksums are right.
use vstd::prelude::*;

use crate::addr::{IpAddr, Ipv4Addr, Ipv6Addr, MacAddr, NatKey};
use crate::packet_utils::{
    arp_answer, arp_reply_frame, field16, header_along, ip_view, ipv4_summed, same_family,
    tcp_frame_window, tcp_summed, udp_frame, udp_summed, IpView,
};
use crate::wire::{
    arp_bytes, arp_of, be16, be32, complement, ethernet_header, fold_carries, ipv4_at, ipv4_header,
    ipv4_header_checksum, ipv4_payload, ipv6_at, ipv6_header, ipv6_payload, mac_at, splice,
    tcp_header, tcp_payload, transport_checksum, u16_at, u32_at, udp_header, words_from, ArpPacket,
    TcpHeader, ETHERTYPE_ARP, ETHERTYPE_IPV4, ETHERTYPE_IPV6, PROTOCOL_TCP, PROTOCOL_UDP,
};

verus! {

/// A 16-bit value written in network byte order reads back.
pub proof fn be16_reads_back(x: u16, before: Seq<u8>, after: Seq<u8>)
    ensures
        u16_at(before + be16(x) + after, before.len() as int) == x,
{
    let s = before + be16(x) + after;
    let i = before.len() as int;
    assert(s[i] == be16(x)[0]);
    assert(s[i + 1] == be16(x)[1]);
}

/// A 32-bit value written in network byte order reads back.
pub proof fn be32_reads_back(x: u32, before: Seq<u8>, after: Seq<u8>)
    ensures
        u32_at(before + be32(x) + after, before.len() as int) == x,
{
    let s = before + be32(x) + after;
    let i = before.len() as int;
    assert(s[i] == be32(x)[0]);
    assert(s[i + 1] == be32(x)[1]);
    assert(s[i + 2] == be32(x)[2]);
    assert(s[i + 3] == be32(x)[3]);
}

/// What a TCP packet says.
#[verifier::opaque]
pub open spec fn tcp_reads(segment: Seq<u8>, h: TcpHeader, payload: Seq<u8>) -> bool {
    &&& segment.len() >= 20
    &&& u16_at(segment, 0) == h.source
    &&& u16_at(segment, 2) == h.destination
    &&& u32_at(segment, 4) == h.sequence
    &&& u32_at(segment, 8) == h.acknowledgement
    &&& segment[13] == h.flags
    &&& u16_at(segment, 14) == h.window
    &&& tcp_payload(segment) == payload
}

/// What a UDP packet says.
#[verifier::opaque]
pub open spec fn udp_reads(
    datagram: Seq<u8>,
    source: u16,
    destination: u16,
    payload: Seq<u8>,
) -> bool {
    &&& datagram.len() >= 8
    &&& u16_at(datagram, 0) == source
    &&& u16_at(datagram, 2) == destination
    &&& datagram.skip(8) == payload
}

#[verifier::rlimit(60)]
#[verifier::spinoff_prover]
proof fn tcp_header_reads(h: TcpHeader, sum: u16, payload: Seq<u8>)
    ensures
        tcp_reads(tcp_header(h, sum) + payload, h, payload),
{
    reveal(tcp_reads);
    let s = tcp_header(h, sum) + payload;
    assert(s[0] == be16(h.source)[0] && s[1] == be16(h.source)[1]);
    assert(s[2] == be16(h.destination)[0] && s[3] == be16(h.destination)[1]);
    assert(s[4] == be32(h.sequence)[0] && s[5] == be32(h.sequence)[1]);
    assert(s[6] == be32(h.sequence)[2] && s[7] == be32(h.sequence)[3]);
    assert(s[8] == be32(h.acknowledgement)[0] && s[9] == be32(h.acknowledgement)[1]);
    assert(s[10] == be32(h.acknowledgement)[2] && s[11] == be32(h.acknowledgement)[3]);
    assert(s[12] == 0x50 && s[13] == h.flags);
    assert(s[14] == be16(h.window)[0] && s[15] == be16(h.window)[1]);
    assert(tcp_payload(s) =~= payload);
}

proof fn udp_header_reads(source: u16, destination: u16, len: u16, sum: u16, payload: Seq<u8>)
    ensures
        udp_reads(
            udp_header(source, destination, len, sum) + payload,
            source,
            destination,
            payload,
        ),
{
    reveal(udp_reads);
    let s = udp_header(source, destination, len, sum) + payload;
    assert(s[0] == be16(source)[0] && s[1] == be16(source)[1]);
    assert(s[2] == be16(destination)[0] && s[3] == be16(destination)[1]);
    assert(s.skip(8) =~= payload);
}

proof fn ipv4_header_reads(
    total: u16,
    protocol: u8,
    sum: u16,
    source: Ipv4Addr,
    destination: Ipv4Addr,
    rest: Seq<u8>,
)
    requires
        total == 20 + rest.len(),
    ensures
        ip_view(ipv4_header(total, protocol, sum, source, destination) + rest) == Some(
            IpView {
                source: IpAddr::V4(source),
                destination: IpAddr::V4(destination),
                protocol,
                payload: rest,
            },
        ),
{
    reveal(ip_view);
    let s = ipv4_header(total, protocol, sum, source, destination) + rest;
    assert(s[0] == 0x45);
    assert(s[2] == be16(total)[0] && s[3] == be16(total)[1]);
    assert(s[9] == protocol);
    assert(ipv4_at(s, 12) == source);
    assert(ipv4_at(s, 16) == destination);
    assert(ipv4_payload(s) =~= rest);
}

proof fn tcp_summed_reads(h: TcpHeader, payload: Seq<u8>, s: Seq<u8>, d: Seq<u8>)
    ensures
        tcp_reads(tcp_summed(h, payload, s, d), h, payload),
        tcp_summed(h, payload, s, d).len() == 20 + payload.len(),
{
    reveal(tcp_summed);
    tcp_header_reads(
        h,
        transport_checksum(tcp_header(h, 0) + payload, 8, s, d, PROTOCOL_TCP),
        payload,
    );
}

proof fn udp_summed_reads(from: u16, to: u16, payload: Seq<u8>, s: Seq<u8>, d: Seq<u8>)
    ensures
        udp_reads(udp_summed(from, to, payload, s, d), from, to, payload),
        udp_summed(from, to, payload, s, d).len() == 8 + payload.len(),
{
    reveal(udp_summed);
    let len = field16(8 + payload.len());
    udp_header_reads(
        from,
        to,
        len,
        transport_checksum(udp_header(from, to, len, 0) + payload, 3, s, d, PROTOCOL_UDP),
        payload,
    );
}

proof fn ipv4_summed_reads(
    total: u16,
    protocol: u8,
    source: Ipv4Addr,
    destination: Ipv4Addr,
    rest: Seq<u8>,
)
    requires
        total == 20 + rest.len(),
    ensures
        ip_view(ipv4_summed(total, protocol, source, destination) + rest) == Some(
            IpView {
                source: IpAddr::V4(source),
                destination: IpAddr::V4(destination),
                protocol,
                payload: rest,
            },
        ),
{
    reveal(ipv4_summed);
    ipv4_header_reads(
        total,
        protocol,
        ipv4_header_checksum(ipv4_header(total, protocol, 0, source, destination)),
        source,
        destination,
        rest,
    );
}

proof fn ipv6_address_reads(a: Ipv6Addr, before: Seq<u8>, after: Seq<u8>)
    ensures
        ipv6_at(before + a.bytes() + after, before.len() as int) == a,
{
    let s = before + a.bytes() + after;
    let i = before.len() as int;
    assert(forall|k: int| 0 <= k < 16 ==> s[i + k] == #[trigger] a.bytes()[k]);
    assert(u16_at(s, i) == a.0);
    assert(u16_at(s, i + 2) == a.1);
    assert(u16_at(s, i + 4) == a.2);
    assert(u16_at(s, i + 6) == a.3);
    assert(u16_at(s, i + 8) == a.4);
    assert(u16_at(s, i + 10) == a.5);
    assert(u16_at(s, i + 12) == a.6);
    assert(u16_at(s, i + 14) == a.7);
}

proof fn ipv6_header_reads(
    length: u16,
    next_header: u8,
    source: Ipv6Addr,
    destination: Ipv6Addr,
    rest: Seq<u8>,
)
    requires
        length == rest.len(),
    ensures
        ip_view(ipv6_header(length, next_header, source, destination) + rest) == Some(
            IpView {
                source: IpAddr::V6(source),
                destination: IpAddr::V6(destination),
                protocol: next_header,
                payload: rest,
            },
        ),
{
    reveal(ip_view);
    let s = ipv6_header(length, next_header, source, destination) + rest;
    let head = seq![0x60u8, 0, 0, 0] + be16(length) + seq![next_header, 64];
    assert(s[0] == 0x60);
    assert(s[4] == be16(length)[0] && s[5] == be16(length)[1]);
    assert(s[6] == next_header);
    assert(s =~= head + source.bytes() + (destination.bytes() + rest));
    ipv6_address_reads(source, head, destination.bytes() + rest);
    assert(s =~= (head + source.bytes()) + destination.bytes() + rest);
    ipv6_address_reads(destination, head + source.bytes(), rest);
    assert(ipv6_payload(s) =~= rest);
}

/// The headers of an Ethernet frame around an IP packet.
#[verifier::opaque]
pub open spec fn ethernet_reads(
    frame: Seq<u8>,
    dst_mac: MacAddr,
    src_mac: MacAddr,
    ethertype: u16,
) -> bool {
    &&& frame.len() >= 14
    &&& mac_at(frame, 0) == dst_mac
    &&& mac_at(frame, 6) == src_mac
    &&& u16_at(frame, 12) == ethertype
}

proof fn ethernet_header_reads(
    dst_mac: MacAddr,
    src_mac: MacAddr,
    ethertype: u16,
    rest: Seq<u8>,
)
    ensures
        ethernet_reads(
            ethernet_header(dst_mac, src_mac, ethertype) + rest,
            dst_mac,
            src_mac,
            ethertype,
        ),
        (ethernet_header(dst_mac, src_mac, ethertype) + rest).skip(14) == rest,
{
    reveal(ethernet_reads);
    let s = ethernet_header(dst_mac, src_mac, ethertype) + rest;
    assert(mac_at(s, 0) == dst_mac);
    assert(mac_at(s, 6) == src_mac);
    assert(s[12] == be16(ethertype)[0] && s[13] == be16(ethertype)[1]);
    assert(s.skip(14) =~= rest);
}

proof fn frame_opens(
    dst_mac: MacAddr,
    src_mac: MacAddr,
    ethertype: u16,
    ip: Seq<u8>,
    rest: Seq<u8>,
)
    ensures
        ethernet_reads(
            ethernet_header(dst_mac, src_mac, ethertype) + ip + rest,
            dst_mac,
            src_mac,
            ethertype,
        ),
        (ethernet_header(dst_mac, src_mac, ethertype) + ip + rest).skip(14) == ip + rest,
{
    let eth = ethernet_header(dst_mac, src_mac, ethertype);
    assert(eth + ip + rest =~= eth + (ip + rest));
    ethernet_header_reads(dst_mac, src_mac, ethertype, ip + rest);
}

/// The ethertype of a frame whose packets have this kind of address.
pub open spec fn ethertype_of(ip: IpAddr) -> u16 {
    match ip {
        IpAddr::V4(_) => ETHERTYPE_IPV4,
        IpAddr::V6(_) => ETHERTYPE_IPV6,
    }
}

/// Whoever takes a built TCP frame apart finds what it was built from: the two hardware
/// addresses, the flow, the sequence and acknowledgement numbers, the flags, the window and
/// the payload. The payload is short enough for the length field of an IP header.
pub proof fn tcp_frame_reads_back(
    key: NatKey,
    sequence: u32,
    acknowledgement: u32,
    payload: Seq<u8>,
    flags: u8,
    window: u16,
    src_mac: MacAddr,
    dst_mac: MacAddr,
)
    requires
        same_family(key),
        payload.len() <= 0xffff - 40,
    ensures
        ({
            let frame = tcp_frame_window(
                key,
                sequence,
                acknowledgement,
                payload,
                flags,
                window,
                src_mac,
                dst_mac,
            );
            let packet = ip_view(frame.skip(14));
            &&& ethernet_reads(frame, dst_mac, src_mac, ethertype_of(key.0))
            &&& packet matches Some(ip) && ip.source == key.0 && ip.destination == key.2
                && ip.protocol == PROTOCOL_TCP && tcp_reads(
                ip.payload,
                header_along(key, sequence, acknowledgement, flags, window),
                payload,
            )
        }),
{
    reveal(tcp_frame_window);
    let h = header_along(key, sequence, acknowledgement, flags, window);
    match (key.0, key.2) {
        (IpAddr::V4(s), IpAddr::V4(d)) => {
            let seg = tcp_summed(h, payload, s.bytes(), d.bytes());
            let total = field16(40 + payload.len());
            let ip = ipv4_summed(total, PROTOCOL_TCP, s, d);
            frame_opens(dst_mac, src_mac, ETHERTYPE_IPV4, ip, seg);
            tcp_summed_reads(h, payload, s.bytes(), d.bytes());
            ipv4_summed_reads(total, PROTOCOL_TCP, s, d, seg);
        },
        (IpAddr::V6(s), IpAddr::V6(d)) => {
            let seg = tcp_summed(h, payload, s.bytes(), d.bytes());
            let len = field16(20 + payload.len());
            let ip = ipv6_header(len, PROTOCOL_TCP, s, d);
            frame_opens(dst_mac, src_mac, ETHERTYPE_IPV6, ip, seg);
            tcp_summed_reads(h, payload, s.bytes(), d.bytes());
            ipv6_header_reads(len, PROTOCOL_TCP, s, d, seg);
        },
        _ => {},
    }
}

/// Whoever takes a built UDP frame apart finds what it was built from: the two hardware
/// addresses, the flow and the payload.
pub proof fn udp_frame_reads_back(
    key: NatKey,
    payload: Seq<u8>,
    src_mac: MacAddr,
    dst_mac: MacAddr,
)
    requires
        same_family(key),
        payload.len() <= 0xffff - 28,
    ensures
        ({
            let frame = udp_frame(key, payload, src_mac, dst_mac);
            let packet = ip_view(frame.skip(14));
            &&& ethernet_reads(frame, dst_mac, src_mac, ethertype_of(key.0))
            &&& packet matches Some(ip) && ip.source == key.0 && ip.destination == key.2
                && ip.protocol == PROTOCOL_UDP && udp_reads(ip.payload, key.1, key.3, payload)
        }),
{
    reveal(udp_frame);
    let len = field16(8 + payload.len());
    match (key.0, key.2) {
        (IpAddr::V4(s), IpAddr::V4(d)) => {
            let seg = udp_summed(key.1, key.3, payload, s.bytes(), d.bytes());
            let total = field16(28 + payload.len());
            let ip = ipv4_summed(total, PROTOCOL_UDP, s, d);
            frame_opens(dst_mac, src_mac, ETHERTYPE_IPV4, ip, seg);
            udp_summed_reads(key.1, key.3, payload, s.bytes(), d.bytes());
            ipv4_summed_reads(total, PROTOCOL_UDP, s, d, seg);
        },
        (IpAddr::V6(s), IpAddr::V6(d)) => {
            let seg = udp_summed(key.1, key.3, payload, s.bytes(), d.bytes());
            let ip = ipv6_header(len, PROTOCOL_UDP, s, d);
            frame_opens(dst_mac, src_mac, ETHERTYPE_IPV6, ip, seg);
            udp_summed_reads(key.1, key.3, payload, s.bytes(), d.bytes());
            ipv6_header_reads(len, PROTOCOL_UDP, s, d, seg);
        },
        _ => {},
    }
}

/// Whoever takes the answer to an ARP request apart finds the request turned round: it is
/// sent to the asker and gives the proxy's hardware address for the proxy's IP address.
pub proof fn arp_reply_reads_back(request: ArpPacket, mac: MacAddr, ip: Ipv4Addr)
    requires
        request.length == 28,
    ensures
        ({
            let frame = arp_reply_frame(request, mac, ip);
            &&& ethernet_reads(frame, request.sender_hw_addr, mac, ETHERTYPE_ARP)
            &&& arp_of(frame.skip(14)) == arp_answer(request, mac, ip)
        }),
{
    let a = arp_answer(request, mac, ip);
    let s = arp_bytes(a);
    ethernet_header_reads(request.sender_hw_addr, mac, ETHERTYPE_ARP, s);
    assert(s[0] == be16(a.hardware_type)[0] && s[1] == be16(a.hardware_type)[1]);
    assert(s[2] == be16(a.protocol_type)[0] && s[3] == be16(a.protocol_type)[1]);
    assert(s[4] == a.hw_addr_len && s[5] == a.proto_addr_len);
    assert(s[6] == be16(a.operation)[0] && s[7] == be16(a.operation)[1]);
    assert(mac_at(s, 8) == a.sender_hw_addr);
    assert(ipv4_at(s, 14) == a.sender_proto_addr);
    assert(mac_at(s, 18) == a.target_hw_addr);
    assert(ipv4_at(s, 24) == a.target_proto_addr);
}

// --- Checksums ---

/// Folding the carries of a sum back in keeps what is left of it when divided by 0xffff, and
/// comes to nothing only where the sum was nothing.
proof fn folding_keeps_rest(sum: nat)
    ensures
        fold_carries(sum) <= sum,
        fold_carries(sum) < 0x1_0000,
        fold_carries(sum) % 0xffff == sum % 0xffff,
        sum > 0 ==> fold_carries(sum) > 0,
    decreases sum,
{
    if sum >= 0x1_0000 {
        let q = sum / 0x1_0000;
        let next = q + sum % 0x1_0000;
        assert(sum == next + 0xffff * q);
        assert(sum % 0xffff == next % 0xffff) by {
            vstd::arithmetic::div_mod::lemma_mod_multiples_vanish(q as int, next as int, 0xffff);
        }
        folding_keeps_rest(next);
    }
}

/// A sum and its complement together fold to all ones.
proof fn complement_fills_up(sum: nat)
    ensures
        fold_carries(sum + complement(sum) as nat) == 0xffff,
{
    folding_keeps_rest(sum);
    let total = sum + complement(sum) as nat;
    folding_keeps_rest(total);
    assert(total % 0xffff == 0);
}

/// The words but one and that one are all the words.
proof fn words_with_one(s: Seq<u8>, i: int, k: int)
    requires
        0 <= i <= k,
        2 * k + 1 < s.len(),
    ensures
        words_from(s, i, -1) == words_from(s, i, k) + u16_at(s, 2 * k),
    decreases k - i,
{
    if i < k {
        words_with_one(s, i + 1, k);
    } else {
        words_behind(s, s, i + 1, -1, k);
    }
}

/// The words from a place on are the same for packets that differ only before it, whichever
/// word before it is left out.
proof fn words_behind(a: Seq<u8>, b: Seq<u8>, i: int, j: int, k: int)
    requires
        0 <= i,
        j < i,
        k < i,
        a.len() == b.len(),
        forall|n: int| 2 * i <= n < a.len() ==> a[n] == b[n],
    ensures
        words_from(a, i, j) == words_from(b, i, k),
    decreases a.len() + 1 - 2 * i,
{
    if 2 * i < a.len() {
        words_behind(a, b, i + 1, j, k);
    }
}

/// A word that is left out may hold anything.
proof fn words_beside(a: Seq<u8>, b: Seq<u8>, i: int, k: int)
    requires
        0 <= i <= k,
        a.len() == b.len(),
        forall|n: int| 0 <= n < a.len() && n != 2 * k && n != 2 * k + 1 ==> a[n] == b[n],
    ensures
        words_from(a, i, k) == words_from(b, i, k),
    decreases k - i,
{
    if i < k {
        words_beside(a, b, i + 1, k);
    } else {
        words_behind(a, b, i + 1, k, k);
    }
}

/// The sum of the words of a packet whose checksum stands in word `k` is that of the packet
/// without it and the checksum.
proof fn words_with_checksum(blank: Seq<u8>, filled: Seq<u8>, k: int, sum: u16)
    requires
        0 <= k,
        2 * k + 1 < blank.len(),
        filled == splice(blank, 2 * k, be16(sum)),
    ensures
        words_from(filled, 0, -1) == words_from(blank, 0, k) + sum,
{
    assert(filled.len() == blank.len());
    words_beside(filled, blank, 0, k);
    words_with_one(filled, 0, k);
    assert(filled[2 * k] == be16(sum)[0] && filled[2 * k + 1] == be16(sum)[1]);
}

/// Whether the checksum of a TCP or UDP packet is right: all its words, and those of a pseudo
/// header, sum up to all ones.
pub open spec fn sum_is_right(
    packet: Seq<u8>,
    source: Seq<u8>,
    destination: Seq<u8>,
    protocol: u8,
) -> bool {
    fold_carries(
        words_from(source, 0, -1) + words_from(destination, 0, -1) + protocol as nat
            + packet.len() + words_from(packet, 0, -1),
    ) == 0xffff
}

/// Whether the checksum of an IPv4 header is right: all its words sum up to all ones.
pub open spec fn header_sum_is_right(header: Seq<u8>) -> bool {
    fold_carries(words_from(header, 0, -1)) == 0xffff
}

proof fn transport_sum(
    blank: Seq<u8>,
    filled: Seq<u8>,
    k: int,
    source: Seq<u8>,
    destination: Seq<u8>,
    protocol: u8,
)
    requires
        0 <= k,
        2 * k + 1 < blank.len(),
        filled == splice(
            blank,
            2 * k,
            be16(transport_checksum(blank, k, source, destination, protocol)),
        ),
    ensures
        sum_is_right(filled, source, destination, protocol),
{
    let sum = transport_checksum(blank, k, source, destination, protocol);
    words_with_checksum(blank, filled, k, sum);
    complement_fills_up(
        words_from(source, 0, -1) + words_from(destination, 0, -1) + protocol as nat
            + blank.len() + words_from(blank, 0, k),
    );
}

proof fn tcp_sum(h: TcpHeader, payload: Seq<u8>, s: Seq<u8>, d: Seq<u8>)
    ensures
        sum_is_right(tcp_summed(h, payload, s, d), s, d, PROTOCOL_TCP),
{
    reveal(tcp_summed);
    let blank = tcp_header(h, 0) + payload;
    let sum = transport_checksum(blank, 8, s, d, PROTOCOL_TCP);
    assert(tcp_header(h, sum) + payload =~= splice(blank, 16, be16(sum)));
    transport_sum(blank, tcp_header(h, sum) + payload, 8, s, d, PROTOCOL_TCP);
}

proof fn udp_sum(from: u16, to: u16, payload: Seq<u8>, s: Seq<u8>, d: Seq<u8>)
    ensures
        sum_is_right(udp_summed(from, to, payload, s, d), s, d, PROTOCOL_UDP),
{
    reveal(udp_summed);
    let len = field16(8 + payload.len());
    let blank = udp_header(from, to, len, 0) + payload;
    let sum = transport_checksum(blank, 3, s, d, PROTOCOL_UDP);
    assert(udp_header(from, to, len, sum) + payload =~= splice(blank, 6, be16(sum)));
    transport_sum(blank, udp_header(from, to, len, sum) + payload, 3, s, d, PROTOCOL_UDP);
}

proof fn ipv4_sum(total: u16, protocol: u8, source: Ipv4Addr, destination: Ipv4Addr)
    ensures
        header_sum_is_right(ipv4_summed(total, protocol, source, destination)),
        ipv4_summed(total, protocol, source, destination).len() == 20,
{
    reveal(ipv4_summed);
    let blank = ipv4_header(total, protocol, 0, source, destination);
    let sum = ipv4_header_checksum(blank);
    let filled = ipv4_header(total, protocol, sum, source, destination);
    assert(filled =~= splice(blank, 10, be16(sum)));
    words_with_checksum(blank, filled, 5, sum);
    complement_fills_up(words_from(blank, 0, 5));
}

/// The bytes of an address as they stand in a packet.
pub open spec fn address_bytes(ip: IpAddr) -> Seq<u8> {
    match ip {
        IpAddr::V4(a) => a.bytes(),
        IpAddr::V6(a) => a.bytes(),
    }
}

/// Whoever checks the checksums of a built TCP frame finds them right: that of the TCP packet,
/// and that of the IPv4 header where there is one.
pub proof fn tcp_frame_sums_up(
    key: NatKey,
    sequence: u32,
    acknowledgement: u32,
    payload: Seq<u8>,
    flags: u8,
    window: u16,
    src_mac: MacAddr,
    dst_mac: MacAddr,
)
    requires
        same_family(key),
        payload.len() <= 0xffff - 40,
    ensures
        ({
            let frame = tcp_frame_window(
                key,
                sequence,
                acknowledgement,
                payload,
                flags,
                window,
                src_mac,
                dst_mac,
            );
            &&& ip_view(frame.skip(14)) matches Some(ip) && sum_is_right(
                ip.payload,
                address_bytes(key.0),
                address_bytes(key.2),
                PROTOCOL_TCP,
            )
            &&& key.0 is V4 ==> header_sum_is_right(frame.subrange(14, 34))
        }),
{
    reveal(tcp_frame_window);
    let h = header_along(key, sequence, acknowledgement, flags, window);
    match (key.0, key.2) {
        (IpAddr::V4(s), IpAddr::V4(d)) => {
            let seg = tcp_summed(h, payload, s.bytes(), d.bytes());
            let total = field16(40 + payload.len());
            let ip = ipv4_summed(total, PROTOCOL_TCP, s, d);
            frame_opens(dst_mac, src_mac, ETHERTYPE_IPV4, ip, seg);
            tcp_summed_reads(h, payload, s.bytes(), d.bytes());
            ipv4_summed_reads(total, PROTOCOL_TCP, s, d, seg);
            tcp_sum(h, payload, s.bytes(), d.bytes());
            ipv4_sum(total, PROTOCOL_TCP, s, d);
            let eth = ethernet_header(dst_mac, src_mac, ETHERTYPE_IPV4);
            assert((eth + ip + seg).subrange(14, 34) =~= ip);
        },
        (IpAddr::V6(s), IpAddr::V6(d)) => {
            let seg = tcp_summed(h, payload, s.bytes(), d.bytes());
            let len = field16(20 + payload.len());
            let ip = ipv6_header(len, PROTOCOL_TCP, s, d);
            frame_opens(dst_mac, src_mac, ETHERTYPE_IPV6, ip, seg);
            tcp_summed_reads(h, payload, s.bytes(), d.bytes());
            ipv6_header_reads(len, PROTOCOL_TCP, s, d, seg);
            tcp_sum(h, payload, s.bytes(), d.bytes());
        },
        _ => {},
    }
}

/// Whoever checks the checksums of a built UDP frame finds them right: that of the UDP packet,
/// and that of the IPv4 header where there is one.
pub proof fn udp_frame_sums_up(
    key: NatKey,
    payload: Seq<u8>,
    src_mac: MacAddr,
    dst_mac: MacAddr,
)
    requires
        same_family(key),
        payload.len() <= 0xffff - 28,
    ensures
        ({
            let frame = udp_frame(key, payload, src_mac, dst_mac);
            &&& ip_view(frame.skip(14)) matches Some(ip) && sum_is_right(
                ip.payload,
                address_bytes(key.0),
                address_bytes(key.2),
                PROTOCOL_UDP,
            )
            &&& key.0 is V4 ==> header_sum_is_right(frame.subrange(14, 34))
        }),
{
    reveal(udp_frame);
    let len = field16(8 + payload.len());
    match (key.0, key.2) {
        (IpAddr::V4(s), IpAddr::V4(d)) => {
            let seg = udp_summed(key.1, key.3, payload, s.bytes(), d.bytes());
            let total = field16(28 + payload.len());
            let ip = ipv4_summed(total, PROTOCOL_UDP, s, d);
            frame_opens(dst_mac, src_mac, ETHERTYPE_IPV4, ip, seg);
            udp_summed_reads(key.1, key.3, payload, s.bytes(), d.bytes());
            ipv4_summed_reads(total, PROTOCOL_UDP, s, d, seg);
            udp_sum(key.1, key.3, payload, s.bytes(), d.bytes());
            ipv4_sum(total, PROTOCOL_UDP, s, d);
            let eth = ethernet_header(dst_mac, src_mac, ETHERTYPE_IPV4);
            assert((eth + ip + seg).subrange(14, 34) =~= ip);
        },
        (IpAddr::V6(s), IpAddr::V6(d)) => {
            let seg = udp_summed(key.1, key.3, payload, s.bytes(), d.bytes());
            let ip = ipv6_header(len, PROTOCOL_UDP, s, d);
            frame_opens(dst_mac, src_mac, ETHERTYPE_IPV6, ip, seg);
            udp_summed_reads(key.1, key.3, payload, s.bytes(), d.bytes());
            ipv6_header_reads(len, PROTOCOL_UDP, s, d, seg);
            udp_sum(key.1, key.3, payload, s.bytes(), d.bytes());
        },
        _ => {},
    }
}

} // verus!
