//! Frames, byte for byte and in words.
use bytes::BytesMut;
use net_proxy::addr::{IpAddr, Ipv4Addr, Ipv6Addr, MacAddr, NatKey};
use net_proxy::packet_dump::{log_packet, payload_checksum};
use net_proxy::packet_utils::{build_arp_reply, build_tcp_packet, build_udp_packet, IpPacket};
use net_proxy::text::{append_hex, append_number, format_all_tcp_flags, format_tcp_flags};
use net_proxy::wire::ArpPacket;
use net_proxy::{direct_proxy, simple_proxy};
use pnet::packet::ethernet::EthernetPacket;
use pnet::packet::ipv4::{self, Ipv4Packet};
use pnet::packet::ipv6::Ipv6Packet;
use pnet::packet::tcp::{self, TcpPacket};
use pnet::packet::udp::{self, UdpPacket};
use pnet::packet::Packet;

const SRC_MAC: MacAddr = MacAddr(0x02, 0, 0, 1, 2, 3);
const DST_MAC: MacAddr = MacAddr(0xde, 0xad, 0xbe, 0xef, 0, 0);

fn v4(a: u8, b: u8, c: u8, d: u8) -> IpAddr {
    IpAddr::V4(Ipv4Addr::new(a, b, c, d))
}

fn v6(last: u16) -> IpAddr {
    IpAddr::V6(Ipv6Addr::new(0x2001, 0xdb8, 0, 0, 0, 0, 0, last))
}

fn v4_key() -> NatKey {
    (v4(192, 168, 100, 2), 1234, v4(8, 8, 8, 8), 443)
}

fn v6_key() -> NatKey {
    (v6(2), 8080, v6(8), 80)
}

fn tcp_frame(key: NatKey, payload: &[u8], flags: u8) -> Vec<u8> {
    build_tcp_packet(
        &mut BytesMut::new(),
        key,
        7,
        9,
        Some(payload),
        Some(flags),
        SRC_MAC,
        DST_MAC,
    )
    .to_vec()
}

#[test]
fn ipv4_tcp_frame_is_whole() {
    let frame = tcp_frame(v4_key(), b"abc", 0x18);
    assert_eq!(frame.len(), 57);
    assert_eq!(&frame[..14], &[0xde, 0xad, 0xbe, 0xef, 0, 0, 2, 0, 0, 1, 2, 3, 8, 0]);
    assert_eq!(&frame[14..24], &[0x45, 0, 0, 43, 0, 0, 0, 0, 64, 6]);
    assert_eq!(&frame[26..34], &[192, 168, 100, 2, 8, 8, 8, 8]);
    assert_eq!(
        &frame[34..50],
        &[4, 210, 1, 187, 0, 0, 0, 7, 0, 0, 0, 9, 0x50, 0x18, 0xff, 0xff]
    );
    assert_eq!(&frame[52..], &[0, 0, b'a', b'b', b'c']);
    let ip = Ipv4Packet::new(&frame[14..]).unwrap();
    assert_eq!(ip.get_checksum(), ipv4::checksum(&ip));
    let segment = TcpPacket::new(ip.payload()).unwrap();
    let sum = tcp::ipv4_checksum(&segment, &ip.get_source(), &ip.get_destination());
    assert_eq!(segment.get_checksum(), sum);
}

#[test]
fn ipv6_tcp_frame_is_whole() {
    let frame = tcp_frame(v6_key(), b"odd", 0x10);
    assert_eq!(frame.len(), 77);
    let eth = EthernetPacket::new(&frame).unwrap();
    assert_eq!(eth.get_ethertype().0, 0x86dd);
    let ip = Ipv6Packet::new(eth.payload()).unwrap();
    assert_eq!((ip.get_version(), ip.get_payload_length(), ip.get_hop_limit()), (6, 23, 64));
    assert_eq!(ip.get_source().to_string(), "2001:db8::2");
    assert_eq!(ip.get_destination().to_string(), "2001:db8::8");
    let segment = TcpPacket::new(ip.payload()).unwrap();
    let sum = tcp::ipv6_checksum(&segment, &ip.get_source(), &ip.get_destination());
    assert_eq!(segment.get_checksum(), sum);
    assert_eq!(segment.payload(), b"odd");
}

#[test]
fn udp_frames_go_back_along_the_flow() {
    let mut buf = BytesMut::new();
    let frame = build_udp_packet(&mut buf, v4_key(), b"answer", SRC_MAC, DST_MAC);
    let ip = Ipv4Packet::new(&frame[14..]).unwrap();
    assert_eq!(ip.get_source().to_string(), "8.8.8.8");
    let datagram = UdpPacket::new(ip.payload()).unwrap();
    assert_eq!((datagram.get_source(), datagram.get_destination()), (443, 1234));
    assert_eq!((datagram.get_length(), datagram.payload()), (14, &b"answer"[..]));
    let sum = udp::ipv4_checksum(&datagram, &ip.get_source(), &ip.get_destination());
    assert_eq!(datagram.get_checksum(), sum);

    let frame = build_udp_packet(&mut buf, v6_key(), b"answer", SRC_MAC, DST_MAC);
    let ip = Ipv6Packet::new(&frame[14..]).unwrap();
    assert_eq!(ip.get_source().to_string(), "2001:db8::8");
    let datagram = UdpPacket::new(ip.payload()).unwrap();
    let sum = udp::ipv6_checksum(&datagram, &ip.get_source(), &ip.get_destination());
    assert_eq!(datagram.get_checksum(), sum);
}

#[test]
fn no_frame_between_families() {
    let key = (v4(1, 2, 3, 4), 1, v6(1), 2);
    assert!(tcp_frame(key, b"x", 0x10).is_empty());
    assert!(build_udp_packet(&mut BytesMut::new(), key, b"x", SRC_MAC, DST_MAC).is_empty());
    assert!(direct_proxy::build_tcp_packet(&mut BytesMut::new(), key, 1, 2, None, None).is_empty());
}

#[test]
fn frames_read_back() {
    let frame = tcp_frame(v4_key(), b"abc", 0x18);
    let ip = IpPacket::new(&frame[14..]).unwrap();
    assert_eq!(ip.source(), v4(192, 168, 100, 2));
    assert_eq!(ip.destination(), v4(8, 8, 8, 8));
    assert_eq!(ip.next_header(), 6);
    assert_eq!(&ip.payload()[20..], b"abc");
    let frame = tcp_frame(v6_key(), b"abc", 0x18);
    let ip = IpPacket::new(&frame[14..]).unwrap();
    assert_eq!(ip.source(), v6(2));
    assert_eq!(ip.destination(), v6(8));
    assert!(IpPacket::new(&[]).is_none());
    assert!(IpPacket::new(&[0x45; 19]).is_none());
    assert!(IpPacket::new(&[0x60; 39]).is_none());
    assert!(IpPacket::new(&[0x10; 60]).is_none());
}

fn arp_request() -> ArpPacket {
    ArpPacket {
        hardware_type: 1,
        protocol_type: 0x800,
        hw_addr_len: 6,
        proto_addr_len: 4,
        operation: 1,
        sender_hw_addr: DST_MAC,
        sender_proto_addr: Ipv4Addr::new(192, 168, 100, 2),
        target_hw_addr: MacAddr(0, 0, 0, 0, 0, 0),
        target_proto_addr: Ipv4Addr::new(192, 168, 100, 1),
        length: 28,
    }
}

#[test]
fn arp_reply_swaps_the_ends() {
    let own = Ipv4Addr::new(192, 168, 100, 1);
    let reply = build_arp_reply(&mut BytesMut::new(), &arp_request(), SRC_MAC, DST_MAC, own);
    assert_eq!(&reply[..14], &[0xde, 0xad, 0xbe, 0xef, 0, 0, 2, 0, 0, 1, 2, 3, 8, 6]);
    assert_eq!(&reply[14..22], &[0, 1, 8, 0, 6, 4, 0, 2]);
    assert_eq!(&reply[22..32], &[2, 0, 0, 1, 2, 3, 192, 168, 100, 1]);
    assert_eq!(&reply[32..42], &[0xde, 0xad, 0xbe, 0xef, 0, 0, 192, 168, 100, 2]);
}

#[test]
fn scratch_buffer_keeps_a_copy() {
    let mut buf = BytesMut::new();
    let frame = direct_proxy::build_tcp_packet(&mut buf, v4_key(), 1, 2, Some(b"x"), Some(0x10));
    assert_eq!(&buf[..], &frame[..]);
    let frame = direct_proxy::build_udp_packet(&mut buf, v4_key(), b"xyz");
    assert_eq!(&buf[..], &frame[..]);
    let frame = direct_proxy::build_arp_reply(&mut buf, &arp_request());
    assert_eq!(&buf[..], &frame[..]);
}

#[test]
fn window_is_in_the_header() {
    let mut buf = BytesMut::new();
    let frame =
        simple_proxy::build_tcp_packet(&mut buf, v4_key(), 1, 2, Some(b"x"), Some(0x10), 4660);
    assert_eq!(TcpPacket::new(&frame[34..]).unwrap().get_window(), 4660);
    let frame = simple_proxy::build_udp_packet(&mut buf, v4_key(), b"xyz");
    assert_eq!(UdpPacket::new(&frame[34..]).unwrap().payload(), b"xyz");
    let frame = simple_proxy::build_arp_reply(&mut buf, &arp_request());
    assert_eq!(frame[21], 2);
}

#[test]
fn numbers_in_text() {
    for n in [0u64, 7, 10, 65535, u64::MAX] {
        let mut s = String::from("n=");
        append_number(&mut s, n);
        assert_eq!(s, format!("n={}", n));
    }
    let mut s = String::new();
    append_hex(&mut s, 0x00ab_c123, 8);
    assert_eq!(s, "00abc123");
    assert_eq!(payload_checksum(true, 5), "----------");
    assert_eq!(payload_checksum(false, 5), "00000005");
}

#[test]
fn flags_in_text() {
    assert_eq!(format_tcp_flags(0x3f), "S.FRP");
    assert_eq!(format_all_tcp_flags(0x3f), "S.FRPU");
    assert_eq!(format_tcp_flags(0x20), "");
    assert_eq!(format_all_tcp_flags(0x12), "S.");
}

#[test]
fn log_lines_with_checksums() {
    let frame = tcp_frame(v4_key(), b"123456789", 0x18);
    assert_eq!(
        log_packet(&frame, "IN").unwrap(),
        "[IN] 192.168.100.2:1234 > 8.8.8.8:443: Flags [.P], seq 7, ack 9, win 65535, len 9, crc32 cbf43926"
    );
    let frame = tcp_frame(v6_key(), b"", 0x02);
    assert_eq!(
        log_packet(&frame, "OUT").unwrap(),
        "[OUT] 2001:db8::2:8080 > 2001:db8::8:80: Flags [S], seq 7, ack 9, win 65535, len 0, crc32 ----------"
    );
    let mut frame =
        build_udp_packet(&mut BytesMut::new(), v4_key(), b"123456789", SRC_MAC, DST_MAC).to_vec();
    assert_eq!(
        log_packet(&frame, "IN").unwrap(),
        "[IN] 8.8.8.8:443 > 192.168.100.2:1234: UDP len 9, crc32 cbf43926"
    );
    frame[23] = 1;
    assert_eq!(
        log_packet(&frame, "IN").unwrap(),
        "[IN] 8.8.8.8 > 192.168.100.2: Protocol IpNextHeaderProtocol(1)"
    );
    assert!(log_packet(&frame[..13], "IN").is_none());
    assert!(log_packet(&frame[..30], "IN").is_none());
}

#[test]
fn log_lines_of_any_frame() {
    let mut frame = tcp_frame(v4_key(), b"abc", 0x32);
    let line = "[IN] IP 192.168.100.2.1234 > 8.8.8.8.443: Flags [S.U], seq 7, ack 9, win 65535, len 3";
    assert_eq!(direct_proxy::packet_dumper::log_packet_in(&frame).unwrap(), line);
    assert_eq!(simple_proxy::packet_dumper::log_packet_in(&frame).fmt(), line);
    frame[23] = 17;
    assert_eq!(
        direct_proxy::packet_dumper::log_packet_out(&frame).unwrap(),
        "[OUT] IPv4 192.168.100.2 > 8.8.8.8: proto Udp"
    );
    let mut frame = tcp_frame(v6_key(), b"abc", 0x10);
    assert_eq!(
        direct_proxy::packet_dumper::log_packet_out(&frame).unwrap(),
        "[OUT] IP6 [2001:db8::2]:8080 > [2001:db8::8]:80: Flags [.], seq 7, ack 9, win 65535, len 3"
    );
    frame[20] = 58;
    assert_eq!(
        direct_proxy::packet_dumper::log_packet_in(&frame).unwrap(),
        "[IN] IPv6 2001:db8::2 > 2001:db8::8: proto Icmpv6"
    );
    frame[12] = 0x88;
    frame[13] = 0xcc;
    assert_eq!(
        direct_proxy::packet_dumper::log_packet_in(&frame).unwrap(),
        "[IN] Unknown L3 protocol: Lldp"
    );
    let own = Ipv4Addr::new(192, 168, 100, 1);
    let reply = build_arp_reply(&mut BytesMut::new(), &arp_request(), SRC_MAC, DST_MAC, own);
    assert_eq!(
        direct_proxy::packet_dumper::log_packet_out(&reply).unwrap(),
        "[OUT] ARP, reply, who has 192.168.100.2? Tell 192.168.100.1"
    );
}

#[test]
fn unreadable_frames_in_words() {
    let cases: [(&[u8], &str); 4] = [
        (&[0; 13], "[OUT] Ethernet packet (parse failed)"),
        (&[0, 0, 0, 0, 0, 0, 0, 0, 0, 0, 0, 0, 8, 0, 1], "[OUT] IPv4 packet (parse failed)"),
        (&[0, 0, 0, 0, 0, 0, 0, 0, 0, 0, 0, 0, 0x86, 0xdd, 1], "[OUT] IPv6 packet (parse failed)"),
        (&[0, 0, 0, 0, 0, 0, 0, 0, 0, 0, 0, 0, 8, 6, 1], "[OUT] ARP packet (parse failed)"),
    ];
    for (frame, text) in cases {
        assert_eq!(simple_proxy::packet_dumper::log_packet_out(frame).fmt(), text);
        assert!(direct_proxy::packet_dumper::log_packet_out(frame).is_none());
    }
    let frame = tcp_frame(v4_key(), b"", 0x10);
    assert_eq!(
        simple_proxy::packet_dumper::log_packet_in(&frame[..40]).fmt(),
        "[IN] IP 192.168.100.2 > 8.8.8.8: TCP (parse failed)"
    );
    let frame = tcp_frame(v6_key(), b"", 0x10);
    assert_eq!(
        simple_proxy::packet_dumper::log_packet_in(&frame[..60]).fmt(),
        "[IN] IP6 2001:db8::2 > 2001:db8::8: TCP (parse failed)"
    );
}

/// The one's complement sum of the 16-bit words of some bytes and a start.
fn folded(start: u32, parts: &[&[u8]]) -> u32 {
    let mut sum = start;
    for part in parts {
        for word in part.chunks(2) {
            sum += (word[0] as u32) << 8 | *word.get(1).unwrap_or(&0) as u32;
        }
    }
    while sum > 0xffff {
        sum = (sum >> 16) + (sum & 0xffff);
    }
    sum
}

#[test]
fn checksums_sum_up_to_all_ones() {
    let frame = tcp_frame(v4_key(), b"abc", 0x18);
    assert_eq!(folded(0, &[&frame[14..34]]), 0xffff);
    assert_eq!(folded(6 + 23, &[&frame[26..34], &frame[34..]]), 0xffff);
    let frame = tcp_frame(v6_key(), b"odd", 0x10);
    assert_eq!(folded(6 + 23, &[&frame[22..54], &frame[54..]]), 0xffff);
    let frame = build_udp_packet(&mut BytesMut::new(), v4_key(), b"ask", SRC_MAC, DST_MAC);
    assert_eq!(folded(0, &[&frame[14..34]]), 0xffff);
    assert_eq!(folded(17 + 11, &[&frame[26..34], &frame[34..]]), 0xffff);
}
