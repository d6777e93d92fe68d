//! Frames from the machine.
use vstd::prelude::*;

use crate::addr::{flip_key, flipped, Instant, Interest, IpAddr, NatKey, Token};
use crate::backend::WriteError;
use crate::buffer::bytes_view;
use crate::host::{HostCall, TracedStream};
use crate::packet_utils::{
    arp_reply_frame, build_arp_reply, build_tcp_packet, ip_view, same_family, tcp_frame, IpPacket,
    IpView,
};
use crate::proxy::{
    carried_out, conn_ok, leaves_of_plain, proxy_ip, proxy_mac, vm_mac, NetProxy, NetStats, Queues,
    STATS_INTERVAL, TIME_WAIT_DURATION,
};
use crate::seqnum::{length32, low32};
use crate::simple_tcp::simple_start;
use crate::tcp_fsm::invariants::{packet_actions_plain, packet_keeps_framed, steps_in};
use crate::tcp_fsm::model::{packet_step, state_takes, SegmentView, StateView};
use crate::tcp_fsm::{AnyConnection, TcpNegotiatedOptions};
use crate::udp::{opened, routed, used};
use crate::wire::{
    arp_of, option_views, parse_arp, parse_ethernet, parse_tcp, parse_tcp_options, parse_udp,
    tcp_options, tcp_payload, u16_at, u32_at, ArpPacket, TcpOption, TcpSegment, UdpDatagram, ARP_REQUEST,
    ETHERTYPE_ARP, ETHERTYPE_IPV4, ETHERTYPE_IPV6, PROTOCOL_TCP, PROTOCOL_UDP, RST_ACK, SYN,
};

verus! {

broadcast use vstd::std_specs::hash::group_hash_axioms;

pub const OPTION_WINDOW_SCALE: u8 = 3;

pub const OPTION_SACK_PERMITTED: u8 = 4;

pub const OPTION_TIMESTAMPS: u8 = 8;

// --- What a frame is ---

/// A frame from the machine, as far as the proxy looks into it.
pub enum FrameView {
    /// Too short or not of a known version.
    Unreadable,
    Arp(ArpPacket),
    /// The two addresses and the TCP packet between them.
    Tcp(IpAddr, IpAddr, Seq<u8>),
    /// The two addresses and the UDP packet between them.
    Udp(IpAddr, IpAddr, Seq<u8>),
    /// Nothing that the proxy handles.
    Other,
}

/// What an IP packet carries.
pub open spec fn carried(ip: IpView) -> FrameView {
    if ip.protocol == PROTOCOL_TCP && ip.payload.len() >= 20 {
        FrameView::Tcp(ip.source, ip.destination, ip.payload)
    } else if ip.protocol == PROTOCOL_UDP && ip.payload.len() >= 8 {
        FrameView::Udp(ip.source, ip.destination, ip.payload)
    } else {
        FrameView::Other
    }
}

/// What an IP packet is.
pub open spec fn ip_frame(body: Seq<u8>) -> FrameView {
    match ip_view(body) {
        Some(ip) => carried(ip),
        None => FrameView::Unreadable,
    }
}

/// What a frame is.
pub open spec fn frame_view(raw: Seq<u8>) -> FrameView {
    let body = raw.skip(14);
    let ethertype = u16_at(raw, 12);
    if raw.len() < 14 {
        FrameView::Unreadable
    } else if ethertype == ETHERTYPE_IPV4 || ethertype == ETHERTYPE_IPV6 {
        ip_frame(body)
    } else if ethertype == ETHERTYPE_ARP {
        if body.len() >= 28 {
            FrameView::Arp(arp_of(body))
        } else {
            FrameView::Unreadable
        }
    } else {
        FrameView::Other
    }
}

/// The TCP packet in these bytes.
pub open spec fn segment_of(s: Seq<u8>) -> SegmentView {
    SegmentView {
        source: u16_at(s, 0),
        destination: u16_at(s, 2),
        sequence: u32_at(s, 4),
        acknowledgement: u32_at(s, 8),
        flags: s[13],
        window: u16_at(s, 14),
        payload: tcp_payload(s),
    }
}

/// The flow of a TCP or UDP packet.
pub open spec fn flow_of(source: IpAddr, destination: IpAddr, s: Seq<u8>) -> NatKey {
    (source, u16_at(s, 0), destination, u16_at(s, 2))
}

/// Whether a packet asks for the hardware address of the proxy.
pub open spec fn asks_for_proxy(a: ArpPacket) -> bool {
    a.operation == ARP_REQUEST && a.target_proto_addr == proxy_ip()
}

// --- TCP options ---

/// Whether the options that are read have all their data.
pub open spec fn options_complete(v: Seq<(u8, Seq<u8>)>) -> bool {
    forall|i: int|
        0 <= i < v.len() ==> {
            &&& (#[trigger] v[i]).0 == OPTION_WINDOW_SCALE ==> v[i].1.len() >= 1
            &&& v[i].0 == OPTION_TIMESTAMPS ==> v[i].1.len() >= 8
        }
}

/// What the options of a SYN ask for. Of an option that occurs twice, the last counts.
pub open spec fn options_asked(v: Seq<(u8, Seq<u8>)>) -> TcpNegotiatedOptions
    decreases v.len(),
{
    if v.len() == 0 {
        TcpNegotiatedOptions { window_scale: None, sack_permitted: false, timestamp: None }
    } else {
        let asked = options_asked(v.drop_last());
        let (number, data) = v.last();
        if number == OPTION_WINDOW_SCALE {
            TcpNegotiatedOptions { window_scale: Some(data[0]), ..asked }
        } else if number == OPTION_SACK_PERMITTED {
            TcpNegotiatedOptions { sack_permitted: true, ..asked }
        } else if number == OPTION_TIMESTAMPS {
            TcpNegotiatedOptions {
                timestamp: Some((u32_at(data, 0), u32_at(data, 4))),
                ..asked
            }
        } else {
            asked
        }
    }
}

/// The 32-bit value that stands in network byte order at `i`.
fn read_u32(data: &Vec<u8>, i: usize) -> (r: u32)
    requires
        i + 4 <= data@.len(),
    ensures
        r == u32_at(data@, i as int),
{
    let n: usize = data.len();
    assert(i + 4 <= n);
    data[i] as u32 * 0x100_0000 + data[i + 1] as u32 * 0x1_0000 + data[i + 2] as u32 * 0x100
        + data[i + 3] as u32
}

/// What the options of a SYN ask for.
pub fn negotiated_options(options: &Vec<TcpOption>) -> (r: TcpNegotiatedOptions)
    requires
        options_complete(option_views(options@)),
    ensures
        r == options_asked(option_views(options@)),
{
    let mut r = TcpNegotiatedOptions::default();
    let ghost v = option_views(options@);
    let mut i: usize = 0;
    while i < options.len()
        invariant
            v == option_views(options@),
            options_complete(v),
            i <= v.len(),
            r == options_asked(v.take(i as int)),
        decreases v.len() - i,
    {
        let o = &options[i];
        proof {
            assert(v[i as int] == (o.number, o.data@));
            assert(v.take(i + 1).drop_last() =~= v.take(i as int));
            assert(v.take(i + 1).last() == v[i as int]);
        }
        if o.number == OPTION_WINDOW_SCALE {
            r.window_scale = Some(o.data[0]);
        } else if o.number == OPTION_SACK_PERMITTED {
            r.sack_permitted = true;
        } else if o.number == OPTION_TIMESTAMPS {
            r.timestamp = Some((read_u32(&o.data, 0), read_u32(&o.data, 4)));
        }
        i = i + 1;
    }
    assert(v.take(i as int) =~= v);
    r
}

// --- What the host has to do ---

/// What a frame from the machine asks of the host.
#[derive(Debug)]
pub enum Demand {
    /// Nothing.
    Nothing,
    /// To open a connection to the destination of the flow.
    Connect { nat_key: NatKey, sequence: u32, options: TcpNegotiatedOptions },
    /// To send a datagram to the destination of the flow, over a socket that has to be opened
    /// first where it is new.
    SendUdp { token: Token, nat_key: NatKey, payload: Vec<u8>, open: bool },
}

impl<H: TracedStream> NetProxy<H> {
    /// Whether a TCP packet can be taken: the connection it belongs to can take it, and where
    /// it asks for a new one its options have all their data.
    pub open spec fn takes_tcp(&self, key: NatKey, s: Seq<u8>) -> bool {
        if self.tcp_nat_table@.dom().contains(key) {
            state_takes(
                self.host_connections@[self.tcp_nat_table@[key].0]@,
                segment_of(s).payload,
            )
        } else {
            segment_of(s).flags & SYN != 0 ==> options_complete(tcp_options(s))
        }
    }

    /// Whether a frame can be taken.
    pub open spec fn takes_frame(&self, raw: Seq<u8>) -> bool {
        match frame_view(raw) {
            FrameView::Arp(a) => asks_for_proxy(a) ==> a.length == 28,
            FrameView::Tcp(src, dst, s) => self.takes_tcp(flow_of(src, dst, s), s),
            FrameView::Udp(..) => self.next_token < usize::MAX,
            _ => true,
        }
    }

    /// Whether nothing that the machine or the host could notice is different.
    pub open spec fn unchanged(&self, other: &Self) -> bool {
        &&& self.queues() == other.queues()
        &&& self.host_connections@ == other.host_connections@
        &&& self.same_tables(other)
    }

    /// What a TCP packet of a known connection does: the connection takes it, and what it asks
    /// for is done.
    pub open spec fn tcp_taken(
        &self,
        after: &Self,
        token: Token,
        t: SegmentView,
        now: Instant,
    ) -> bool {
        let conn = self.host_connections@[token.0];
        let (next, action) = packet_step(conn.key(), conn@, t, proxy_mac(), vm_mac(), now);
        let left = after.host_connections@[token.0];
        &&& after.host_connections@.dom() == self.host_connections@.dom()
        &&& left@ == next
        &&& left.key() == conn.key()
        &&& exists|calls: Seq<HostCall>| #[trigger]
            carried_out(
                self.queues(),
                token,
                Some(next),
                steps_in(action),
                calls,
                now,
                after.queues(),
            ) && left.host().calls() == conn.host().calls() + calls
        &&& forall|u: usize| #[trigger]
            self.host_connections@.dom().contains(u) && u != token.0
                ==> after.host_connections@[u] == self.host_connections@[u]
        &&& after.same_tables(self)
    }

    /// The answer to a packet of an unknown connection: a reset that takes its numbers from
    /// the packet.
    pub open spec fn reset_for(key: NatKey, t: SegmentView) -> Seq<u8> {
        tcp_frame(
            flipped(key),
            t.acknowledgement,
            t.sequence.wrapping_add(low32(t.payload.len())),
            Seq::empty(),
            RST_ACK,
            proxy_mac(),
            vm_mac(),
        )
    }

    /// Handles a TCP packet from the machine.
    pub fn handle_tcp_packet(
        &mut self,
        src_addr: IpAddr,
        dst_addr: IpAddr,
        tcp_packet: &TcpSegment,
        raw: &[u8],
        now: Instant,
    ) -> (r: Result<Demand, WriteError>)
        requires
            old(self).wf(),
            raw@.len() >= 20,
            tcp_packet@ == segment_of(raw@),
            old(self).takes_tcp(flow_of(src_addr, dst_addr, raw@), raw@),
            now <= u64::MAX - TIME_WAIT_DURATION,
        ensures
            final(self).wf(),
            old(self).tcp_result(final(self), src_addr, dst_addr, raw@, now, r),
    {
        let ghost before = *self;
        let key: NatKey = (src_addr, tcp_packet.source, dst_addr, tcp_packet.destination);
        match self.tcp_nat_table.get(&key) {
            Some(token) => {
                match self.host_connections.remove(&token.0) {
                    Some(connection) => {
                        let ghost conn = connection;
                        let (next, action) = connection.handle_packet(
                            tcp_packet,
                            proxy_mac(),
                            vm_mac(),
                            now,
                        );
                        proof {
                            packet_actions_plain(
                                conn.key(),
                                conn@,
                                tcp_packet@,
                                proxy_mac(),
                                vm_mac(),
                                now,
                            );
                            leaves_of_plain(action);
                            packet_keeps_framed(
                                conn.key(),
                                conn@,
                                tcp_packet@,
                                proxy_mac(),
                                vm_mac(),
                                now,
                            );
                        }
                        let _ = self.host_connections.insert(token.0, next);
                        let ghost mid = *self;
                        self.execute_action(token, action, now);
                        proof {
                            assert(mid.host_connections@.dom()
                                =~= before.host_connections@.dom());
                            assert forall|t: usize| #[trigger]
                                self.host_connections@.dom().contains(t) implies conn_ok(
                                self.host_connections@[t],
                            ) && self.host_connections@[t].key() == self.reverse_tcp_nat@[t] by {
                                assert(mid.host_connections@.dom().contains(t));
                                assert(before.host_connections@.dom().contains(t));
                            }
                            assert(before.queues() == mid.queues());
                        }
                    },
                    None => {
                        assert(before.host_connections@.dom().contains(token.0));
                    },
                }
                Ok(Demand::Nothing)
            },
            None => {
                if (tcp_packet.flags & SYN) != 0 {
                    let options = negotiated_options(&parse_tcp_options(raw));
                    Ok(Demand::Connect { nat_key: key, sequence: tcp_packet.sequence, options })
                } else {
                    let packet = build_tcp_packet(
                        &mut self.packet_buf,
                        flip_key(key),
                        tcp_packet.acknowledgement,
                        tcp_packet.sequence.wrapping_add(length32(tcp_packet.payload.len())),
                        None,
                        Some(RST_ACK),
                        proxy_mac(),
                        vm_mac(),
                    );
                    self.to_vm_control_queue.push_back(packet);
                    assert(self.queues().control =~= before.queues().control.push(
                        bytes_view(packet),
                    ));
                    Ok(Demand::Nothing)
                }
            },
        }
    }

    /// What a TCP packet from the machine comes to.
    pub open spec fn tcp_result(
        &self,
        after: &Self,
        src_addr: IpAddr,
        dst_addr: IpAddr,
        s: Seq<u8>,
        now: Instant,
        r: Result<Demand, WriteError>,
    ) -> bool {
        let key = flow_of(src_addr, dst_addr, s);
        let t = segment_of(s);
        if self.tcp_nat_table@.dom().contains(key) {
            &&& r matches Ok(Demand::Nothing)
            &&& self.tcp_taken(after, self.tcp_nat_table@[key], t, now)
        } else if t.flags & SYN != 0 {
            &&& r matches Ok(Demand::Connect { nat_key, sequence, options }) && nat_key == key
                && sequence == t.sequence && options == options_asked(tcp_options(s))
            &&& after.unchanged(self)
        } else {
            &&& r matches Ok(Demand::Nothing)
            &&& after.queues() == (Queues {
                control: self.queues().control.push(Self::reset_for(key, t)),
                ..self.queues()
            })
            &&& after.host_connections == self.host_connections
            &&& after.same_tables(self)
        }
    }

    /// What a UDP packet from the machine comes to: it is to be sent over the socket of its
    /// flow, which gets one where it has none.
    pub open spec fn udp_result(
        &self,
        after: &Self,
        key: NatKey,
        data: Seq<u8>,
        now: Instant,
        r: Result<Demand, WriteError>,
    ) -> bool {
        let known = self.udp@.flows.dom().contains(key);
        let socket = if known {
            self.udp@.flows[key]
        } else {
            Token(self.next_token)
        };
        &&& r matches Ok(Demand::SendUdp { token, nat_key, payload, open }) && token == socket
            && nat_key == key && payload@ == data && open == !known
        &&& after.queues() == self.queues()
        &&& after.host_connections == self.host_connections
        &&& after.same_beside_udp(self)
        &&& if known {
            &&& after.next_token == self.next_token
            &&& after.udp@ == self.udp@
        } else {
            &&& after.next_token == self.next_token + 1
            &&& after.udp@ == opened(routed(self.udp@, key, socket), socket, key, now)
        }
    }

    /// Whether everything but the tables of UDP flows and the queues is the same.
    pub open spec fn same_beside_udp(&self, other: &Self) -> bool {
        &&& self.current_token == other.current_token
        &&& self.unix_listeners == other.unix_listeners
        &&& self.tcp_nat_table == other.tcp_nat_table
        &&& self.reverse_tcp_nat == other.reverse_tcp_nat
        &&& self.released == other.released
        &&& self.last_data_token_idx == other.last_data_token_idx
        &&& self.stats_last_report == other.stats_last_report
        &&& self.stats == other.stats
    }

    /// Handles a UDP packet from the machine.
    pub fn handle_udp_packet(
        &mut self,
        src_addr: IpAddr,
        dst_addr: IpAddr,
        udp_packet: UdpDatagram,
        now: Instant,
    ) -> (r: Result<Demand, WriteError>)
        requires
            old(self).wf(),
            old(self).next_token < usize::MAX,
        ensures
            final(self).wf(),
            old(self).udp_result(
                final(self),
                (src_addr, udp_packet.source, dst_addr, udp_packet.destination),
                udp_packet.payload@,
                now,
                r,
            ),
    {
        let ghost before = *self;
        let key: NatKey = (src_addr, udp_packet.source, dst_addr, udp_packet.destination);
        let (token, open) = self.udp.route(key, Token(self.next_token));
        if open {
            self.next_token = self.next_token + 1;
            self.udp.opened(token, key, now);
        }
        Ok(Demand::SendUdp { token, nat_key: key, payload: udp_packet.payload, open })
    }
}

impl<H: TracedStream> NetProxy<H> {
    /// What an ARP packet from the machine comes to: a request for the proxy's address is
    /// answered, and anything else is not.
    pub open spec fn arp_result(
        &self,
        after: &Self,
        a: ArpPacket,
        r: Result<Demand, WriteError>,
    ) -> bool {
        if asks_for_proxy(a) {
            &&& r matches Ok(Demand::Nothing)
            &&& after.queues() == (Queues {
                control: self.queues().control.push(
                    arp_reply_frame(a, proxy_mac(), proxy_ip()),
                ),
                ..self.queues()
            })
            &&& after.host_connections == self.host_connections
            &&& after.same_tables(self)
        } else {
            &&& r matches Err(WriteError::NothingWritten)
            &&& after.unchanged(self)
        }
    }

    /// Handles an ARP packet from the machine.
    pub fn handle_arp_packet(&mut self, arp_payload: &[u8]) -> (r: Result<Demand, WriteError>)
        requires
            old(self).wf(),
            arp_payload@.len() >= 28 && asks_for_proxy(arp_of(arp_payload@)) ==> arp_of(
                arp_payload@,
            ).length == 28,
        ensures
            final(self).wf(),
            if arp_payload@.len() >= 28 {
                old(self).arp_result(final(self), arp_of(arp_payload@), r)
            } else {
                r matches Err(WriteError::NothingWritten) && final(self).unchanged(old(self))
            },
    {
        let ghost before = *self;
        if let Some(arp) = parse_arp(arp_payload) {
            if arp.operation == ARP_REQUEST && arp.target_proto_addr == proxy_ip() {
                let reply = build_arp_reply(
                    &mut self.packet_buf,
                    &arp,
                    proxy_mac(),
                    vm_mac(),
                    proxy_ip(),
                );
                self.to_vm_control_queue.push_back(reply);
                assert(self.queues().control =~= before.queues().control.push(bytes_view(reply)));
                return Ok(Demand::Nothing);
            }
        }
        Err(WriteError::NothingWritten)
    }

    /// What a frame from the machine comes to.
    pub open spec fn frame_result(
        &self,
        after: &Self,
        f: FrameView,
        now: Instant,
        r: Result<Demand, WriteError>,
    ) -> bool {
        match f {
            FrameView::Unreadable => r matches Err(WriteError::NothingWritten)
                && after.unchanged(self),
            FrameView::Arp(a) => self.arp_result(after, a, r),
            FrameView::Tcp(src, dst, s) => self.tcp_result(after, src, dst, s, now, r),
            FrameView::Udp(src, dst, s) => self.udp_result(
                after,
                flow_of(src, dst, s),
                s.skip(8),
                now,
                r,
            ),
            FrameView::Other => r matches Ok(Demand::Nothing) && after.unchanged(self),
        }
    }

    /// Handles an IP packet from the machine.
    pub fn handle_ip_packet(&mut self, ip_payload: &[u8], now: Instant) -> (r: Result<
        Demand,
        WriteError,
    >)
        requires
            old(self).wf(),
            now <= u64::MAX - TIME_WAIT_DURATION,
            match ip_frame(ip_payload@) {
                FrameView::Tcp(src, dst, s) => old(self).takes_tcp(flow_of(src, dst, s), s),
                FrameView::Udp(..) => old(self).next_token < usize::MAX,
                _ => true,
            },
        ensures
            final(self).wf(),
            old(self).frame_result(final(self), ip_frame(ip_payload@), now, r),
    {
        let ip_packet = match IpPacket::new(ip_payload) {
            Some(p) => p,
            None => {
                return Err(WriteError::NothingWritten);
            },
        };
        let protocol: u8 = ip_packet.next_header();
        let payload: &[u8] = ip_packet.payload();
        if protocol == PROTOCOL_TCP {
            match parse_tcp(payload) {
                Some(tcp) => {
                    assert(tcp@ == segment_of(payload@));
                    self.handle_tcp_packet(
                        ip_packet.source(),
                        ip_packet.destination(),
                        &tcp,
                        payload,
                        now,
                    )
                },
                None => Ok(Demand::Nothing),
            }
        } else if protocol == PROTOCOL_UDP {
            match parse_udp(payload) {
                Some(udp) => self.handle_udp_packet(
                    ip_packet.source(),
                    ip_packet.destination(),
                    udp,
                    now,
                ),
                None => Ok(Demand::Nothing),
            }
        } else {
            Ok(Demand::Nothing)
        }
    }

    /// Counts a frame from the machine, and notes a report of the counters that is due.
    pub open spec fn counted_in(&self, n: nat, now: Instant) -> Self {
        NetProxy {
            stats_last_report: if self.report_due(now) {
                now
            } else {
                self.stats_last_report
            },
            stats: NetStats {
                packets_in: (self.stats.packets_in + 1) as u64,
                bytes_in: (self.stats.bytes_in + n) as u64,
                ..self.stats
            },
            ..*self
        }
    }

    /// Whether the counters are due to be reported.
    pub open spec fn report_due(&self, now: Instant) -> bool {
        now.saturating_sub(self.stats_last_report) >= STATS_INTERVAL
    }

    /// Gives the counters when they are due to be reported: the counts, how many connections
    /// there are, and how many frames go ahead of all data.
    pub fn report_stats_if_needed(&mut self, now: Instant) -> (r: Option<(NetStats, usize, usize)>)
        ensures
            r == (if old(self).report_due(now) {
                Some(
                    (
                        old(self).stats,
                        old(self).host_connections@.len() as usize,
                        old(self).to_vm_control_queue@.len() as usize,
                    ),
                )
            } else {
                None
            }),
            *final(self) == (NetProxy {
                stats_last_report: if old(self).report_due(now) {
                    now
                } else {
                    old(self).stats_last_report
                },
                ..*old(self)
            }),
    {
        if now.saturating_sub(self.stats_last_report) >= STATS_INTERVAL {
            self.stats_last_report = now;
            Some((self.stats, self.host_connections.len(), self.to_vm_control_queue.len()))
        } else {
            None
        }
    }

    /// Handles a raw Ethernet frame from the machine: counts it, does what it asks of the
    /// proxy and says what it asks of the host.
    pub fn handle_packet_from_vm(&mut self, raw_packet: &[u8], now: Instant) -> (r: Result<
        Demand,
        WriteError,
    >)
        requires
            old(self).wf(),
            old(self).takes_frame(raw_packet@),
            now <= u64::MAX - TIME_WAIT_DURATION,
            old(self).stats.packets_in < u64::MAX,
            old(self).stats.bytes_in + raw_packet@.len() <= u64::MAX,
        ensures
            final(self).wf(),
            old(self).counted_in(raw_packet@.len(), now).frame_result(
                final(self),
                frame_view(raw_packet@),
                now,
                r,
            ),
    {
        self.stats.packets_in = self.stats.packets_in + 1;
        self.stats.bytes_in = self.stats.bytes_in + raw_packet.len() as u64;
        let _ = self.report_stats_if_needed(now);
        assert(*self == old(self).counted_in(raw_packet@.len(), now));
        match parse_ethernet(raw_packet) {
            Some(eth) => {
                if eth.ethertype == ETHERTYPE_IPV4 || eth.ethertype == ETHERTYPE_IPV6 {
                    self.handle_ip_packet(eth.payload.as_slice(), now)
                } else if eth.ethertype == ETHERTYPE_ARP {
                    self.handle_arp_packet(eth.payload.as_slice())
                } else {
                    Ok(Demand::Nothing)
                }
            },
            None => Err(WriteError::NothingWritten),
        }
    }

    /// Registers a stream to the host under the next handle and enters the connection that the
    /// machine asked for. Gives the handle, and whether the stream could be registered.
    pub fn add_egress(&mut self, stream: H, nat_key: NatKey, vm_initial_seq: u32) -> (r: (
        Token,
        bool,
    ))
        requires
            old(self).wf(),
            same_family(nat_key),
            !old(self).tcp_nat_table@.dom().contains(nat_key),
            old(self).next_token < usize::MAX,
        ensures
            final(self).wf(),
            r.0 == Token(old(self).next_token),
            final(self).next_token == old(self).next_token + 1,
            final(self).tcp_nat_table@ == old(self).tcp_nat_table@.insert(nat_key, r.0),
            final(self).reverse_tcp_nat@ == old(self).reverse_tcp_nat@.insert(r.0.0, nat_key),
            ({
                let conn = final(self).host_connections@[r.0.0];
                &&& final(self).host_connections@ == old(self).host_connections@.insert(
                    r.0.0,
                    conn,
                )
                &&& conn.host().calls() == stream.calls().push(
                    HostCall::Register { token: r.0, interest: Interest::Writable, ok: r.1 },
                )
                &&& conn.key() == nat_key
                &&& conn@ matches StateView::Simple(v)
                &&& v == simple_start(vm_initial_seq, v.host_initial_seq)
            }),
            final(self).queues() == old(self).queues(),
            final(self).same_beside_flows(old(self)),
    {
        let mut stream = stream;
        let ok = stream.register(Token(self.next_token), Interest::Writable);
        let conn = AnyConnection::new_simple(stream, nat_key, vm_initial_seq);
        let token = self.enter(nat_key, conn);
        (token, ok)
    }

    /// Whether everything but the next handle and the tables of connections is the same.
    pub open spec fn same_beside_flows(&self, other: &Self) -> bool {
        &&& self.current_token == other.current_token
        &&& self.unix_listeners == other.unix_listeners
        &&& self.udp == other.udp
        &&& self.released == other.released
        &&& self.last_data_token_idx == other.last_data_token_idx
        &&& self.stats_last_report == other.stats_last_report
        &&& self.stats == other.stats
    }

    /// Enters a connection under the next handle.
    pub(crate) fn enter(&mut self, nat_key: NatKey, conn: AnyConnection<H>) -> (r: Token)
        requires
            old(self).wf(),
            conn_ok(conn),
            conn.key() == nat_key,
            old(self).next_token < usize::MAX,
        ensures
            final(self).wf(),
            r == Token(old(self).next_token),
            final(self).next_token == old(self).next_token + 1,
            final(self).tcp_nat_table@ == old(self).tcp_nat_table@.insert(nat_key, r),
            final(self).reverse_tcp_nat@ == old(self).reverse_tcp_nat@.insert(r.0, nat_key),
            final(self).host_connections@ == old(self).host_connections@.insert(r.0, conn),
            final(self).queues() == old(self).queues(),
            final(self).same_beside_flows(old(self)),
    {
        let ghost before = *self;
        let token = Token(self.next_token);
        self.next_token = self.next_token + 1;
        self.tcp_nat_table.insert(nat_key, token);
        let _ = self.reverse_tcp_nat.insert(token.0, nat_key);
        let _ = self.host_connections.insert(token.0, conn);
        proof {
            assert(!before.host_connections@.dom().contains(token.0));
            assert(self.reverse_tcp_nat@.dom() =~= self.host_connections@.dom());
        }
        token
    }

    /// Notes that a datagram was sent over a UDP socket.
    pub fn udp_sent(&mut self, token: Token, now: Instant)
        requires
            old(self).wf(),
        ensures
            final(self).wf(),
            final(self).udp@ == used(old(self).udp@, token, now),
            *final(self) == (NetProxy { udp: final(self).udp, ..*old(self) }),
    {
        self.udp.used(token, now);
    }
}

} // verus!
