//! What the machine reads in the frames that it is sent.
use vstd::prelude::*;

use crate::addr::{IpAddr, Ipv4Addr, Ipv6Addr, MacAddr, NatKey};
use crate::frame_laws::{
    arp_reply_reads_back, ethernet_reads, tcp_frame_reads_back, tcp_reads, udp_frame_reads_back,
    udp_reads,
};
use crate::packet_utils::{
    arp_reply_frame, field16, ip_view, ipv4_summed, same_family, tcp_frame_window, tcp_summed,
    udp_frame, udp_summed,
};
use crate::proxy::{proxy_mac, vm_mac};
use crate::tcp_fsm::model::{frame_sequence, to_vm};
use crate::vm_frames::{vm_ack, vm_datagram, vm_frame};
use crate::wire::{
    arp_of, be16, ethernet_header, ipv4_header, ipv4_header_checksum, ipv6_header, mac_at,
    tcp_payload, transport_checksum, u16_at, u32_at, udp_header, ArpPacket,
};

verus! {

/// What a TCP packet says.
pub struct TcpSaid {
    pub sequence: u32,
    pub acknowledgement: u32,
    pub flags: u8,
    pub window: u16,
    pub payload: Seq<u8>,
}

/// Whether a frame goes from one hardware address to another and holds an IP packet of this
/// protocol from one address to another.
pub open spec fn carries_ip(
    frame: Seq<u8>,
    src_mac: MacAddr,
    dst_mac: MacAddr,
    source: IpAddr,
    destination: IpAddr,
    protocol: u8,
) -> bool {
    &&& mac_at(frame, 0) == dst_mac
    &&& mac_at(frame, 6) == src_mac
    &&& u16_at(frame, 12) == if source is V4 {
        0x0800u16
    } else {
        0x86ddu16
    }
    &&& ip_view(frame.skip(14)) matches Some(ip) && ip.source == source && ip.destination
        == destination && ip.protocol == protocol
}

/// What is in the IP packet of a frame.
pub open spec fn ip_content(frame: Seq<u8>) -> Seq<u8> {
    match ip_view(frame.skip(14)) {
        Some(ip) => ip.payload,
        None => Seq::empty(),
    }
}

/// Whether a frame holds a TCP packet from one end to the other that says this.
pub open spec fn tcp_says(
    frame: Seq<u8>,
    src_mac: MacAddr,
    dst_mac: MacAddr,
    source: (IpAddr, u16),
    destination: (IpAddr, u16),
    said: TcpSaid,
) -> bool {
    let segment = ip_content(frame);
    &&& carries_ip(frame, src_mac, dst_mac, source.0, destination.0, 6)
    &&& segment.len() >= 20
    &&& u16_at(segment, 0) == source.1
    &&& u16_at(segment, 2) == destination.1
    &&& u32_at(segment, 4) == said.sequence
    &&& u32_at(segment, 8) == said.acknowledgement
    &&& segment[13] == said.flags
    &&& u16_at(segment, 14) == said.window
    &&& tcp_payload(segment) == said.payload
}

/// Whether a frame holds a UDP packet with this payload from one end to the other.
pub open spec fn udp_says(
    frame: Seq<u8>,
    src_mac: MacAddr,
    dst_mac: MacAddr,
    source: (IpAddr, u16),
    destination: (IpAddr, u16),
    payload: Seq<u8>,
) -> bool {
    let datagram = ip_content(frame);
    &&& carries_ip(frame, src_mac, dst_mac, source.0, destination.0, 17)
    &&& datagram.len() >= 8
    &&& u16_at(datagram, 0) == source.1
    &&& u16_at(datagram, 2) == destination.1
    &&& datagram.skip(8) == payload
}

/// The frame along a flow goes from its first end to its second and says what it was made of.
pub proof fn tcp_frame_says(
    key: NatKey,
    sequence: u32,
    acknowledgement: u32,
    payload: Seq<u8>,
    flags: u8,
    window: u16,
    src_mac: MacAddr,
    dst_mac: MacAddr,
)
    requires
        same_family(key),
        payload.len() <= 0xffff - 40,
    ensures
        tcp_says(
            tcp_frame_window(
                key,
                sequence,
                acknowledgement,
                payload,
                flags,
                window,
                src_mac,
                dst_mac,
            ),
            src_mac,
            dst_mac,
            (key.0, key.1),
            (key.2, key.3),
            TcpSaid { sequence, acknowledgement, flags, window, payload },
        ),
{
    reveal(tcp_reads);
    reveal(ethernet_reads);
    tcp_frame_reads_back(
        key,
        sequence,
        acknowledgement,
        payload,
        flags,
        window,
        src_mac,
        dst_mac,
    );
}

/// A frame to the machine on a flow comes from the flow's second end and goes to its first. It
/// says what it was made of and leaves the machine the largest window.
pub proof fn to_vm_says(
    key: NatKey,
    sequence: u32,
    acknowledgement: u32,
    payload: Seq<u8>,
    flags: u8,
    proxy_mac: MacAddr,
    vm_mac: MacAddr,
)
    requires
        same_family(key),
        payload.len() <= 0xffff - 40,
    ensures
        tcp_says(
            to_vm(key, sequence, acknowledgement, payload, flags, proxy_mac, vm_mac),
            proxy_mac,
            vm_mac,
            (key.2, key.3),
            (key.0, key.1),
            TcpSaid { sequence, acknowledgement, flags, window: 0xffff, payload },
        ),
        frame_sequence(to_vm(key, sequence, acknowledgement, payload, flags, proxy_mac, vm_mac))
            == Some(sequence),
{
    tcp_frame_says(
        (key.2, key.3, key.0, key.1),
        sequence,
        acknowledgement,
        payload,
        flags,
        0xffff,
        proxy_mac,
        vm_mac,
    );
}

/// The two ends of a flow that the machine sees: the far end, which is the proxy's own where the
/// proxy began the flow, and the machine's.
pub open spec fn ends_seen(key: NatKey) -> ((IpAddr, u16), (IpAddr, u16)) {
    if key.0 == IpAddr::V4(Ipv4Addr(192, 168, 100, 1)) {
        ((key.0, key.1), (key.2, key.3))
    } else {
        ((key.2, key.3), (key.0, key.1))
    }
}

/// A frame to the machine comes from the far end of its flow, whichever side began the flow, and
/// says what it was made of.
pub proof fn vm_frame_says(
    key: NatKey,
    sequence: u32,
    acknowledgement: u32,
    payload: Seq<u8>,
    flags: u8,
    window: u16,
)
    requires
        same_family(key),
        payload.len() <= 0xffff - 40,
    ensures
        tcp_says(
            vm_frame(key, sequence, acknowledgement, payload, flags, window),
            MacAddr(0x02, 0x00, 0x00, 0x01, 0x02, 0x03),
            MacAddr(0xde, 0xad, 0xbe, 0xef, 0x00, 0x00),
            ends_seen(key).0,
            ends_seen(key).1,
            TcpSaid { sequence, acknowledgement, flags, window, payload },
        ),
{
    let (from, to) = ends_seen(key);
    tcp_frame_says(
        (from.0, from.1, to.0, to.1),
        sequence,
        acknowledgement,
        payload,
        flags,
        window,
        proxy_mac(),
        vm_mac(),
    );
}

/// An acknowledgement to the machine holds no data, has no flag but ACK and leaves the machine
/// the largest window.
pub proof fn vm_ack_says(key: NatKey, tx_seq: u32, tx_ack: u32)
    requires
        same_family(key),
    ensures
        tcp_says(
            vm_ack(key, tx_seq, tx_ack),
            MacAddr(0x02, 0x00, 0x00, 0x01, 0x02, 0x03),
            MacAddr(0xde, 0xad, 0xbe, 0xef, 0x00, 0x00),
            ends_seen(key).0,
            ends_seen(key).1,
            TcpSaid {
                sequence: tx_seq,
                acknowledgement: tx_ack,
                flags: 0x10,
                window: 0xffff,
                payload: Seq::empty(),
            },
        ),
{
    vm_frame_says(key, tx_seq, tx_ack, Seq::empty(), 0x10, 0xffff);
}

/// A datagram to the machine comes from the far end of its flow and goes to the machine's end.
pub proof fn vm_datagram_says(key: NatKey, payload: Seq<u8>)
    requires
        same_family(key),
        payload.len() <= 0xffff - 28,
    ensures
        udp_says(
            vm_datagram(key, payload),
            MacAddr(0x02, 0x00, 0x00, 0x01, 0x02, 0x03),
            MacAddr(0xde, 0xad, 0xbe, 0xef, 0x00, 0x00),
            (key.2, key.3),
            (key.0, key.1),
            payload,
        ),
{
    udp_frame_says((key.2, key.3, key.0, key.1), payload, proxy_mac(), vm_mac());
}

/// The UDP frame along a flow goes from its first end to its second with its payload.
pub proof fn udp_frame_says(key: NatKey, payload: Seq<u8>, src_mac: MacAddr, dst_mac: MacAddr)
    requires
        same_family(key),
        payload.len() <= 0xffff - 28,
    ensures
        udp_says(
            udp_frame(key, payload, src_mac, dst_mac),
            src_mac,
            dst_mac,
            (key.0, key.1),
            (key.2, key.3),
            payload,
        ),
{
    reveal(udp_reads);
    reveal(ethernet_reads);
    udp_frame_reads_back(key, payload, src_mac, dst_mac);
}

/// The answer to an ARP request goes back to the asker and tells it that the address it asked
/// for belongs to the proxy's hardware address.
pub proof fn arp_reply_says(request: ArpPacket, mac: MacAddr, ip: Ipv4Addr)
    requires
        request.length == 28,
    ensures
        ({
            let frame = arp_reply_frame(request, mac, ip);
            let answer = arp_of(frame.skip(14));
            &&& mac_at(frame, 0) == request.sender_hw_addr
            &&& mac_at(frame, 6) == mac
            &&& u16_at(frame, 12) == 0x0806
            &&& answer.operation == 2
            &&& answer.sender_hw_addr == mac
            &&& answer.sender_proto_addr == ip
            &&& answer.target_hw_addr == request.sender_hw_addr
            &&& answer.target_proto_addr == request.sender_proto_addr
            &&& answer.hardware_type == request.hardware_type
            &&& answer.protocol_type == request.protocol_type
        }),
{
    reveal(ethernet_reads);
    arp_reply_reads_back(request, mac, ip);
}

/// The headers of a TCP frame are plain: no options, no fragmentation, sixty-four hops, and
/// lengths that count what is there.
#[verifier::rlimit(60)]
pub proof fn tcp_frame_has_plain_headers(
    key: NatKey,
    sequence: u32,
    acknowledgement: u32,
    payload: Seq<u8>,
    flags: u8,
    window: u16,
    src_mac: MacAddr,
    dst_mac: MacAddr,
)
    requires
        same_family(key),
        payload.len() <= 0xffff - 40,
    ensures
        ({
            let frame = tcp_frame_window(
                key,
                sequence,
                acknowledgement,
                payload,
                flags,
                window,
                src_mac,
                dst_mac,
            );
            &&& key.0 is V4 ==> {
                &&& frame.len() == 54 + payload.len()
                &&& frame[14] == 0x45
                &&& u16_at(frame, 16) == 40 + payload.len()
                &&& u16_at(frame, 20) == 0
                &&& frame[22] == 64
                &&& frame[46] == 0x50
            }
            &&& key.0 is V6 ==> {
                &&& frame.len() == 74 + payload.len()
                &&& frame[14] == 0x60
                &&& u16_at(frame, 18) == 20 + payload.len()
                &&& frame[21] == 64
                &&& frame[66] == 0x50
            }
        }),
{
    reveal(tcp_frame_window);
    reveal(ipv4_summed);
    reveal(tcp_summed);
    let frame = tcp_frame_window(
        key,
        sequence,
        acknowledgement,
        payload,
        flags,
        window,
        src_mac,
        dst_mac,
    );
    let n = payload.len();
    match (key.0, key.2) {
        (IpAddr::V4(s), IpAddr::V4(d)) => {
            let total = field16(40 + n);
            assert(frame[16] == be16(total)[0] && frame[17] == be16(total)[1]);
        },
        (IpAddr::V6(s), IpAddr::V6(d)) => {
            let len = field16(20 + n);
            assert(frame[18] == be16(len)[0] && frame[19] == be16(len)[1]);
        },
        _ => {},
    }
}

/// The headers of a UDP frame are plain: no options, no fragmentation, sixty-four hops, and
/// lengths that count what is there.
#[verifier::rlimit(60)]
pub proof fn udp_frame_has_plain_headers(
    key: NatKey,
    payload: Seq<u8>,
    src_mac: MacAddr,
    dst_mac: MacAddr,
)
    requires
        same_family(key),
        payload.len() <= 0xffff - 28,
    ensures
        ({
            let frame = udp_frame(key, payload, src_mac, dst_mac);
            &&& key.0 is V4 ==> {
                &&& frame.len() == 42 + payload.len()
                &&& frame[14] == 0x45
                &&& u16_at(frame, 16) == 28 + payload.len()
                &&& u16_at(frame, 20) == 0
                &&& frame[22] == 64
                &&& u16_at(frame, 38) == 8 + payload.len()
            }
            &&& key.0 is V6 ==> {
                &&& frame.len() == 62 + payload.len()
                &&& frame[14] == 0x60
                &&& u16_at(frame, 18) == 8 + payload.len()
                &&& frame[21] == 64
                &&& u16_at(frame, 58) == 8 + payload.len()
            }
        }),
{
    reveal(udp_frame);
    reveal(ipv4_summed);
    reveal(udp_summed);
    let n = payload.len();
    let len = field16(8 + n);
    match (key.0, key.2) {
        (IpAddr::V4(s), IpAddr::V4(d)) => {
            let total = field16(28 + n);
            let sum = ipv4_header_checksum(ipv4_header(total, 17, 0, s, d));
            let datagram = udp_summed(key.1, key.3, payload, s.bytes(), d.bytes());
            ipv4_is_plain(
                ethernet_header(dst_mac, src_mac, 0x0800),
                ipv4_header(total, 17, sum, s, d),
                datagram,
                total,
            );
            udp_counts_itself(
                key.1,
                key.3,
                len,
                transport_checksum(
                    udp_header(key.1, key.3, len, 0) + payload,
                    3,
                    s.bytes(),
                    d.bytes(),
                    17,
                ),
                payload,
            );
            assert(udp_frame(key, payload, src_mac, dst_mac).skip(34) =~= datagram);
            u16_behind(udp_frame(key, payload, src_mac, dst_mac), 34, 4);
        },
        (IpAddr::V6(s), IpAddr::V6(d)) => {
            let datagram = udp_summed(key.1, key.3, payload, s.bytes(), d.bytes());
            ipv6_is_plain(
                ethernet_header(dst_mac, src_mac, 0x86dd),
                ipv6_header(len, 17, s, d),
                datagram,
                len,
            );
            udp_counts_itself(
                key.1,
                key.3,
                len,
                transport_checksum(
                    udp_header(key.1, key.3, len, 0) + payload,
                    3,
                    s.bytes(),
                    d.bytes(),
                    17,
                ),
                payload,
            );
            assert(udp_frame(key, payload, src_mac, dst_mac).skip(54) =~= datagram);
            u16_behind(udp_frame(key, payload, src_mac, dst_mac), 54, 4);
        },
        _ => {},
    }
}

/// A number further on in a frame is the same number in what lies behind.
proof fn u16_behind(s: Seq<u8>, n: int, i: int)
    requires
        0 <= n,
        0 <= i,
        n + i + 2 <= s.len(),
    ensures
        u16_at(s.skip(n), i) == u16_at(s, n + i),
{
}

proof fn ipv4_is_plain(eth: Seq<u8>, ip: Seq<u8>, rest: Seq<u8>, total: u16)
    requires
        eth.len() == 14,
        exists|protocol: u8, sum: u16, s: Ipv4Addr, d: Ipv4Addr|
            ip == #[trigger] ipv4_header(total, protocol, sum, s, d),
    ensures
        ({
            let frame = eth + ip + rest;
            &&& frame.len() == 34 + rest.len()
            &&& frame[14] == 0x45
            &&& u16_at(frame, 16) == total
            &&& u16_at(frame, 20) == 0
            &&& frame[22] == 64
        }),
{
    let frame = eth + ip + rest;
    assert(frame[16] == be16(total)[0] && frame[17] == be16(total)[1]);
}

proof fn ipv6_is_plain(eth: Seq<u8>, ip: Seq<u8>, rest: Seq<u8>, len: u16)
    requires
        eth.len() == 14,
        exists|next: u8, s: Ipv6Addr, d: Ipv6Addr| ip == #[trigger] ipv6_header(len, next, s, d),
    ensures
        ({
            let frame = eth + ip + rest;
            &&& frame.len() == 54 + rest.len()
            &&& frame[14] == 0x60
            &&& u16_at(frame, 18) == len
            &&& frame[21] == 64
        }),
{
    let frame = eth + ip + rest;
    assert(frame[18] == be16(len)[0] && frame[19] == be16(len)[1]);
}

proof fn udp_counts_itself(from: u16, to: u16, len: u16, sum: u16, payload: Seq<u8>)
    ensures
        u16_at(udp_header(from, to, len, sum) + payload, 4) == len,
        (udp_header(from, to, len, sum) + payload).len() == 8 + payload.len(),
{
    let s = udp_header(from, to, len, sum) + payload;
    assert(s[4] == be16(len)[0] && s[5] == be16(len)[1]);
}

} // verus!
