//! What a frame looks like in a log.
use vstd::prelude::*;
use vstd::string::StringExecFns;

use crate::addr::IpAddr;
use crate::packet_utils::{ip_view, ipv4_view, ipv6_view, IpPacket, IpView};
use crate::proxy::packets::segment_of;
use crate::tcp_fsm::model::SegmentView;
use crate::text::{
    all_flags_text, append_hex, append_ip, append_number, decimal, ethertype_display,
    ethertype_name, flags_text, format_all_tcp_flags, format_tcp_flags, hexadecimal, ip_text,
    protocol_display, protocol_name,
};
use crate::wire::{
    arp_of, parse_arp, parse_ethernet, parse_ipv4, parse_ipv6, parse_tcp, parse_udp, u16_at,
    TcpSegment, ARP_REQUEST, ETHERTYPE_ARP, ETHERTYPE_IPV4, ETHERTYPE_IPV6, PROTOCOL_TCP,
    PROTOCOL_UDP,
};

verus! {

// --- One line for a frame, with its checksum ---

/// The CRC-32 of some bytes.
pub uninterp spec fn crc32(data: Seq<u8>) -> u32;

/// `crc`'s checksum with the algorithm `CRC_32_ISO_HDLC`. The result is that number, by name.
#[verifier::external_body]
fn crc32_of(data: &[u8]) -> (r: u32)
    ensures
        r == crc32(data@),
{
    crc::Crc::<u32>::new(&crc::CRC_32_ISO_HDLC).checksum(data)
}

/// The checksum of a payload as text; there is none for no payload.
pub open spec fn checksum_text(payload: Seq<u8>) -> Seq<char> {
    if payload.len() > 0 {
        hexadecimal(crc32(payload) as nat, 8)
    } else {
        "----------"@
    }
}

/// The checksum of a payload with this CRC-32 as text; there is none for no payload.
pub fn payload_checksum(empty: bool, crc: u32) -> (r: String)
    ensures
        r@ == (if empty {
            "----------"@
        } else {
            hexadecimal(crc as nat, 8)
        }),
{
    let mut s = String::new();
    if empty {
        s.append("----------");
        assert(s@ =~= "----------"@);
    } else {
        append_hex(&mut s, crc, 8);
        assert(s@ =~= hexadecimal(crc as nat, 8));
    }
    s
}

fn checksum_of(payload: &Vec<u8>) -> (r: String)
    ensures
        r@ == checksum_text(payload@),
{
    if payload.len() > 0 {
        payload_checksum(false, crc32_of(payload.as_slice()))
    } else {
        payload_checksum(true, 0)
    }
}

/// The beginning of a line: the direction and the two ends.
pub open spec fn ends_text(
    direction: Seq<char>,
    source: Seq<char>,
    source_port: u16,
    destination: Seq<char>,
    destination_port: u16,
) -> Seq<char> {
    "["@ + direction + "] "@ + source + ":"@ + decimal(source_port as nat) + " > "@ + destination
        + ":"@ + decimal(destination_port as nat)
}

/// The line for a TCP packet.
pub open spec fn tcp_line(
    direction: Seq<char>,
    source: Seq<char>,
    destination: Seq<char>,
    t: SegmentView,
) -> Seq<char> {
    ends_text(direction, source, t.source, destination, t.destination) + ": Flags ["@ + flags_text(
        t.flags,
    ) + "], seq "@ + decimal(t.sequence as nat) + ", ack "@ + decimal(t.acknowledgement as nat)
        + ", win "@ + decimal(t.window as nat) + ", len "@ + decimal(t.payload.len())
        + ", crc32 "@ + checksum_text(t.payload)
}

/// The line for a UDP packet.
pub open spec fn udp_line(
    direction: Seq<char>,
    source: Seq<char>,
    destination: Seq<char>,
    s: Seq<u8>,
) -> Seq<char> {
    ends_text(direction, source, u16_at(s, 0), destination, u16_at(s, 2)) + ": UDP len "@
        + decimal(s.skip(8).len()) + ", crc32 "@ + checksum_text(s.skip(8))
}

/// The line for a packet of any other protocol.
pub open spec fn other_line(
    direction: Seq<char>,
    source: Seq<char>,
    destination: Seq<char>,
    protocol: u8,
) -> Seq<char> {
    "["@ + direction + "] "@ + source + " > "@ + destination
        + ": Protocol IpNextHeaderProtocol("@ + decimal(protocol as nat) + ")"@
}

/// The line for an IP packet, if it can be read.
pub open spec fn ip_line(direction: Seq<char>, ip: IpView) -> Option<Seq<char>> {
    let source = ip_text(ip.source);
    let destination = ip_text(ip.destination);
    if ip.protocol == PROTOCOL_TCP {
        if ip.payload.len() >= 20 {
            Some(tcp_line(direction, source, destination, segment_of(ip.payload)))
        } else {
            None
        }
    } else if ip.protocol == PROTOCOL_UDP {
        if ip.payload.len() >= 8 {
            Some(udp_line(direction, source, destination, ip.payload))
        } else {
            None
        }
    } else {
        Some(other_line(direction, source, destination, ip.protocol))
    }
}

/// The line for a frame, if it can be read.
pub open spec fn frame_line(direction: Seq<char>, data: Seq<u8>) -> Option<Seq<char>> {
    if data.len() < 14 {
        None
    } else {
        match ip_view(data.skip(14)) {
            Some(ip) => ip_line(direction, ip),
            None => None,
        }
    }
}

/// The beginning of a line: the direction and the two ends.
fn ends(
    direction: &str,
    source: &IpAddr,
    source_port: u16,
    destination: &IpAddr,
    destination_port: u16,
) -> (s: String)
    ensures
        s@ == ends_text(
            direction@,
            ip_text(*source),
            source_port,
            ip_text(*destination),
            destination_port,
        ),
{
    let mut s = String::from_str("[");
    s.append(direction);
    s.append("] ");
    append_ip(&mut s, source);
    s.append(":");
    append_number(&mut s, source_port as u64);
    s.append(" > ");
    append_ip(&mut s, destination);
    s.append(":");
    append_number(&mut s, destination_port as u64);
    s
}

/// The line that a frame makes in the log, if it can be read.
pub fn log_packet(data: &[u8], direction: &str) -> (r: Option<String>)
    ensures
        r is Some <==> frame_line(direction@, data@) is Some,
        r matches Some(s) ==> s@ == frame_line(direction@, data@)->0,
{
    let eth = match parse_ethernet(data) {
        Some(e) => e,
        None => {
            return None;
        },
    };
    let ip = match IpPacket::new(eth.payload.as_slice()) {
        Some(p) => p,
        None => {
            return None;
        },
    };
    let protocol: u8 = ip.next_header();
    let source = ip.source();
    let destination = ip.destination();
    if protocol == PROTOCOL_TCP {
        let tcp = match parse_tcp(ip.payload()) {
            Some(t) => t,
            None => {
                return None;
            },
        };
        assert(tcp@ == segment_of(ip@.payload));
        let mut s = ends(direction, &source, tcp.source, &destination, tcp.destination);
        s.append(": Flags [");
        let flags = format_tcp_flags(tcp.flags);
        s.append(flags.as_str());
        s.append("], seq ");
        append_number(&mut s, tcp.sequence as u64);
        s.append(", ack ");
        append_number(&mut s, tcp.acknowledgement as u64);
        s.append(", win ");
        append_number(&mut s, tcp.window as u64);
        s.append(", len ");
        append_number(&mut s, tcp.payload.len() as u64);
        s.append(", crc32 ");
        let sum = checksum_of(&tcp.payload);
        s.append(sum.as_str());
        Some(s)
    } else if protocol == PROTOCOL_UDP {
        let udp = match parse_udp(ip.payload()) {
            Some(u) => u,
            None => {
                return None;
            },
        };
        let mut s = ends(direction, &source, udp.source, &destination, udp.destination);
        s.append(": UDP len ");
        append_number(&mut s, udp.payload.len() as u64);
        s.append(", crc32 ");
        let sum = checksum_of(&udp.payload);
        s.append(sum.as_str());
        Some(s)
    } else {
        let mut s = String::from_str("[");
        s.append(direction);
        s.append("] ");
        append_ip(&mut s, &source);
        s.append(" > ");
        append_ip(&mut s, &destination);
        s.append(": Protocol IpNextHeaderProtocol(");
        append_number(&mut s, protocol as u64);
        s.append(")");
        Some(s)
    }
}

// --- A frame of any kind ---

/// What a frame looks like: a line for one that can be read, and a remark on one that cannot.
pub enum DumpView {
    Line(Seq<char>),
    Failed(Seq<char>),
}

/// The same as text.
#[derive(Debug)]
pub enum Dump {
    Line(String),
    Failed(String),
}

impl View for Dump {
    type V = DumpView;

    open spec fn view(&self) -> DumpView {
        match self {
            Dump::Line(s) => DumpView::Line(s@),
            Dump::Failed(s) => DumpView::Failed(s@),
        }
    }
}

/// The end of the line for a TCP packet.
pub open spec fn segment_text(start: Seq<char>, t: SegmentView) -> Seq<char> {
    start + ": Flags ["@ + all_flags_text(t.flags) + "], seq "@ + decimal(t.sequence as nat)
        + ", ack "@ + decimal(t.acknowledgement as nat) + ", win "@ + decimal(t.window as nat)
        + ", len "@ + decimal(t.payload.len())
}

/// What an IPv4 packet looks like.
pub open spec fn ipv4_dump(direction: Seq<char>, body: Seq<u8>) -> DumpView {
    let ip = ipv4_view(body);
    let source = ip_text(ip.source);
    let destination = ip_text(ip.destination);
    let t = segment_of(ip.payload);
    if body.len() < 20 {
        DumpView::Failed("["@ + direction + "] IPv4 packet (parse failed)"@)
    } else if ip.protocol != PROTOCOL_TCP {
        DumpView::Line(
            "["@ + direction + "] IPv4 "@ + source + " > "@ + destination + ": proto "@
                + protocol_name(ip.protocol),
        )
    } else if ip.payload.len() < 20 {
        DumpView::Failed(
            "["@ + direction + "] IP "@ + source + " > "@ + destination
                + ": TCP (parse failed)"@,
        )
    } else {
        DumpView::Line(
            segment_text(
                "["@ + direction + "] IP "@ + source + "."@ + decimal(t.source as nat) + " > "@
                    + destination + "."@ + decimal(t.destination as nat),
                t,
            ),
        )
    }
}

/// What an IPv6 packet looks like.
pub open spec fn ipv6_dump(direction: Seq<char>, body: Seq<u8>) -> DumpView {
    let ip = ipv6_view(body);
    let source = ip_text(ip.source);
    let destination = ip_text(ip.destination);
    let t = segment_of(ip.payload);
    if body.len() < 40 {
        DumpView::Failed("["@ + direction + "] IPv6 packet (parse failed)"@)
    } else if ip.protocol != PROTOCOL_TCP {
        DumpView::Line(
            "["@ + direction + "] IPv6 "@ + source + " > "@ + destination + ": proto "@
                + protocol_name(ip.protocol),
        )
    } else if ip.payload.len() < 20 {
        DumpView::Failed(
            "["@ + direction + "] IP6 "@ + source + " > "@ + destination
                + ": TCP (parse failed)"@,
        )
    } else {
        DumpView::Line(
            segment_text(
                "["@ + direction + "] IP6 ["@ + source + "]:"@ + decimal(t.source as nat)
                    + " > ["@ + destination + "]:"@ + decimal(t.destination as nat),
                t,
            ),
        )
    }
}

/// What an ARP packet looks like.
pub open spec fn arp_dump(direction: Seq<char>, body: Seq<u8>) -> DumpView {
    let a = arp_of(body);
    if body.len() < 28 {
        DumpView::Failed("["@ + direction + "] ARP packet (parse failed)"@)
    } else {
        DumpView::Line(
            "["@ + direction + "] ARP, "@ + (if a.operation == ARP_REQUEST {
                "request"@
            } else {
                "reply"@
            }) + ", who has "@ + ip_text(IpAddr::V4(a.target_proto_addr)) + "? Tell "@ + ip_text(
                IpAddr::V4(a.sender_proto_addr),
            ),
        )
    }
}

/// What a frame looks like.
pub open spec fn frame_dump(direction: Seq<char>, data: Seq<u8>) -> DumpView {
    let ethertype = u16_at(data, 12);
    if data.len() < 14 {
        DumpView::Failed("["@ + direction + "] Ethernet packet (parse failed)"@)
    } else if ethertype == ETHERTYPE_IPV4 {
        ipv4_dump(direction, data.skip(14))
    } else if ethertype == ETHERTYPE_IPV6 {
        ipv6_dump(direction, data.skip(14))
    } else if ethertype == ETHERTYPE_ARP {
        arp_dump(direction, data.skip(14))
    } else {
        DumpView::Line(
            "["@ + direction + "] Unknown L3 protocol: "@ + ethertype_name(ethertype),
        )
    }
}

/// Appends the end of the line for a TCP packet.
fn append_segment(s: &mut String, tcp: &TcpSegment)
    ensures
        final(s)@ == segment_text(old(s)@, tcp@),
{
    s.append(": Flags [");
    let flags = format_all_tcp_flags(tcp.flags);
    s.append(flags.as_str());
    s.append("], seq ");
    append_number(s, tcp.sequence as u64);
    s.append(", ack ");
    append_number(s, tcp.acknowledgement as u64);
    s.append(", win ");
    append_number(s, tcp.window as u64);
    s.append(", len ");
    append_number(s, tcp.payload.len() as u64);
}

fn dump_ipv4(body: &[u8], direction: &str) -> (r: Dump)
    ensures
        r@ == ipv4_dump(direction@, body@),
{
    let mut s = String::from_str("[");
    s.append(direction);
    let ip = match parse_ipv4(body) {
        Some(p) => p,
        None => {
            s.append("] IPv4 packet (parse failed)");
            return Dump::Failed(s);
        },
    };
    let source = IpAddr::V4(ip.source);
    let destination = IpAddr::V4(ip.destination);
    if ip.next_level_protocol != PROTOCOL_TCP {
        s.append("] IPv4 ");
        append_ip(&mut s, &source);
        s.append(" > ");
        append_ip(&mut s, &destination);
        s.append(": proto ");
        let name = protocol_display(ip.next_level_protocol);
        s.append(name.as_str());
        return Dump::Line(s);
    }
    s.append("] IP ");
    append_ip(&mut s, &source);
    match parse_tcp(ip.payload.as_slice()) {
        Some(tcp) => {
            assert(tcp@ == segment_of(ip.payload@));
            s.append(".");
            append_number(&mut s, tcp.source as u64);
            s.append(" > ");
            append_ip(&mut s, &destination);
            s.append(".");
            append_number(&mut s, tcp.destination as u64);
            append_segment(&mut s, &tcp);
            Dump::Line(s)
        },
        None => {
            s.append(" > ");
            append_ip(&mut s, &destination);
            s.append(": TCP (parse failed)");
            Dump::Failed(s)
        },
    }
}

fn dump_ipv6(body: &[u8], direction: &str) -> (r: Dump)
    ensures
        r@ == ipv6_dump(direction@, body@),
{
    let mut s = String::from_str("[");
    s.append(direction);
    let ip = match parse_ipv6(body) {
        Some(p) => p,
        None => {
            s.append("] IPv6 packet (parse failed)");
            return Dump::Failed(s);
        },
    };
    let source = IpAddr::V6(ip.source);
    let destination = IpAddr::V6(ip.destination);
    if ip.next_header != PROTOCOL_TCP {
        s.append("] IPv6 ");
        append_ip(&mut s, &source);
        s.append(" > ");
        append_ip(&mut s, &destination);
        s.append(": proto ");
        let name = protocol_display(ip.next_header);
        s.append(name.as_str());
        return Dump::Line(s);
    }
    match parse_tcp(ip.payload.as_slice()) {
        Some(tcp) => {
            assert(tcp@ == segment_of(ip.payload@));
            s.append("] IP6 [");
            append_ip(&mut s, &source);
            s.append("]:");
            append_number(&mut s, tcp.source as u64);
            s.append(" > [");
            append_ip(&mut s, &destination);
            s.append("]:");
            append_number(&mut s, tcp.destination as u64);
            append_segment(&mut s, &tcp);
            Dump::Line(s)
        },
        None => {
            s.append("] IP6 ");
            append_ip(&mut s, &source);
            s.append(" > ");
            append_ip(&mut s, &destination);
            s.append(": TCP (parse failed)");
            Dump::Failed(s)
        },
    }
}

fn dump_arp(body: &[u8], direction: &str) -> (r: Dump)
    ensures
        r@ == arp_dump(direction@, body@),
{
    let mut s = String::from_str("[");
    s.append(direction);
    match parse_arp(body) {
        Some(arp) => {
            s.append("] ARP, ");
            if arp.operation == ARP_REQUEST {
                s.append("request");
            } else {
                s.append("reply");
            }
            s.append(", who has ");
            append_ip(&mut s, &IpAddr::V4(arp.target_proto_addr));
            s.append("? Tell ");
            append_ip(&mut s, &IpAddr::V4(arp.sender_proto_addr));
            Dump::Line(s)
        },
        None => {
            s.append("] ARP packet (parse failed)");
            Dump::Failed(s)
        },
    }
}

/// What a frame looks like.
pub fn dump_frame(data: &[u8], direction: &str) -> (r: Dump)
    ensures
        r@ == frame_dump(direction@, data@),
{
    match parse_ethernet(data) {
        Some(eth) => {
            if eth.ethertype == ETHERTYPE_IPV4 {
                dump_ipv4(eth.payload.as_slice(), direction)
            } else if eth.ethertype == ETHERTYPE_IPV6 {
                dump_ipv6(eth.payload.as_slice(), direction)
            } else if eth.ethertype == ETHERTYPE_ARP {
                dump_arp(eth.payload.as_slice(), direction)
            } else {
                let mut s = String::from_str("[");
                s.append(direction);
                s.append("] Unknown L3 protocol: ");
                let name = ethertype_display(eth.ethertype);
                s.append(name.as_str());
                Dump::Line(s)
            }
        },
        None => {
            let mut s = String::from_str("[");
            s.append(direction);
            s.append("] Ethernet packet (parse failed)");
            Dump::Failed(s)
        },
    }
}

} // verus!
