//! Packets from the machine.
use bytes::{Bytes, BytesMut};
use vstd::prelude::*;

use crate::addr::{flip_key, flipped, Instant, Interest, IpAddr, NatKey, Token};
use crate::backend::WriteError;
use crate::buffer::{bytes_view, flat, flat_push, views};
use crate::direct_proxy::service_laws::packets_serve_all;
use crate::direct_proxy::{
    build_arp_reply, build_tcp_packet, countable, AnyConnection, Closing, ConnView,
    EgressConnecting, Established, Flow, IngressConnecting, NetProxy, Phase, TcpConnection,
};
use crate::host::{
    one_released, register_view, HostCall, HostWrite, RegisterView, TracedStream, WriteView,
};
use crate::packet_utils::{arp_reply_frame, ipv4_view};
use crate::proxy::packets::{asks_for_proxy, flow_of, segment_of};
use crate::proxy::{proxy_ip, proxy_mac};
use crate::seqnum::{length32, low32};
use crate::tcp_fsm::model::SegmentView;
use crate::udp::{opened, routed, used};
use crate::vm_frames::vm_ack;
use crate::wire::{
    arp_of, parse_arp, parse_ethernet, parse_ipv4, parse_tcp, parse_udp, u16_at, ArpPacket,
    TcpSegment, UdpDatagram, ACK, ARP_REQUEST, ETHERTYPE_ARP, ETHERTYPE_IPV4, ETHERTYPE_IPV6, FIN,
    PROTOCOL_TCP, PROTOCOL_UDP, RST, SYN, SYN_ACK,
};

verus! {

broadcast use vstd::std_specs::hash::group_hash_axioms;

// --- What a packet does to its connection ---

/// What the host answers while a packet is handled: what a write came to, and whether
/// registering and shutting down worked. An answer counts only where the host is asked.
pub struct Answers {
    pub took: WriteView,
    pub registered: RegisterView,
    pub shut: bool,
}

/// Whether the host can have answered this: it takes no more than it is given.
pub open spec fn answers_fit(payload: Seq<u8>, a: Answers) -> bool {
    a.took matches WriteView::Wrote(n) ==> n <= payload.len()
}

/// Where a connection goes once it has handled a packet.
pub enum Place {
    /// Back into the table.
    Kept,
    /// Back into the table, unless it is to be removed.
    KeptUnlessRemoved,
    /// Nowhere.
    Dropped,
}

/// What a packet comes to.
pub struct PacketStep {
    pub next: ConnView,
    pub place: Place,
    pub sends: Seq<Seq<u8>>,
    pub removes: bool,
    /// Whether handling stopped because a registration failed.
    pub fails: bool,
    pub calls: Seq<HostCall>,
}

/// Takes over all the data of a packet.
pub open spec fn acknowledging(f: Flow, payload: Seq<u8>) -> Flow {
    Flow { tx_ack: f.tx_ack.wrapping_add(low32(payload.len())), ..f }
}

pub open spec fn buffering(f: Flow, data: Seq<u8>) -> Flow {
    Flow { write_buffer: f.write_buffer.push(data), ..f }
}

/// What the data of a packet does: it goes behind what already waits for the host, else
/// straight to the host, and what the host does not take waits. The result is the flow,
/// whether the data is taken over, whether the host turned out to be gone, and the calls.
pub open spec fn data_step(
    f: Flow,
    payload: Seq<u8>,
    token: Token,
    a: Answers,
) -> (Flow, bool, bool, Seq<HostCall>) {
    let none = Seq::<HostCall>::empty();
    let wrote = none.push(HostCall::Write { data: payload, took: a.took });
    let waits = wrote.push(
        HostCall::Reregister { token, interest: Interest::Both, came: a.registered },
    );
    if payload.len() == 0 {
        (f, false, false, none)
    } else if f.write_buffer.len() > 0 {
        (acknowledging(buffering(f, payload), payload), true, false, none)
    } else {
        match a.took {
            WriteView::Wrote(n) => {
                if n < payload.len() {
                    (
                        acknowledging(buffering(f, payload.skip(n as int)), payload),
                        true,
                        false,
                        waits,
                    )
                } else {
                    (acknowledging(f, payload), true, false, wrote)
                }
            },
            WriteView::WouldBlock => (
                acknowledging(buffering(f, payload), payload),
                true,
                false,
                waits,
            ),
            WriteView::Failed => (f, false, true, wrote),
        }
    }
}

/// Whether handling stops because the stream could not be registered for writing.
pub open spec fn data_fails(calls: Seq<HostCall>, a: Answers) -> bool {
    calls.len() == 2 && !(a.registered is Done)
}

/// A packet while data flows. Only one that continues where the last one ended counts.
pub open spec fn established_step(
    f: Flow,
    key: NatKey,
    t: SegmentView,
    token: Token,
    a: Answers,
) -> PacketStep {
    let same = ConnView { phase: Phase::Established, flow: f };
    let idle = PacketStep {
        next: same,
        place: Place::Kept,
        sends: Seq::empty(),
        removes: false,
        fails: false,
        calls: Seq::empty(),
    };
    if t.sequence != f.tx_ack {
        idle
    } else if t.flags & RST != 0 {
        PacketStep { place: Place::Dropped, removes: true, ..idle }
    } else {
        let (fed, took_over, broken, calls) = data_step(f, t.payload, token, a);
        if data_fails(calls, a) {
            PacketStep { place: Place::Dropped, fails: true, calls, ..idle }
        } else {
            let fin = t.flags & FIN != 0;
            let bare = t.payload.len() == 0 && t.flags & 0x07 == 0;
            let done = if fin {
                Flow { tx_ack: fed.tx_ack.wrapping_add(1), ..fed }
            } else {
                fed
            };
            PacketStep {
                next: ConnView {
                    phase: if fin {
                        Phase::Closing
                    } else {
                        Phase::Established
                    },
                    flow: done,
                },
                place: if fin {
                    Place::Kept
                } else {
                    Place::KeptUnlessRemoved
                },
                sends: if took_over || bare || fin {
                    seq![vm_ack(key, done.tx_seq, done.tx_ack)]
                } else {
                    Seq::empty()
                },
                removes: broken,
                fails: false,
                calls: if fin {
                    calls.push(HostCall::ShutdownWrite { ok: a.shut })
                } else {
                    calls
                },
            }
        }
    }
}

/// A packet, whatever state the connection is in.
pub open spec fn packet_step(
    v: ConnView,
    key: NatKey,
    t: SegmentView,
    token: Token,
    a: Answers,
) -> PacketStep {
    let idle = PacketStep {
        next: v,
        place: Place::KeptUnlessRemoved,
        sends: Seq::empty(),
        removes: false,
        fails: false,
        calls: Seq::empty(),
    };
    match v.phase {
        Phase::EgressConnecting => idle,
        Phase::IngressConnecting => {
            if t.flags & SYN_ACK == SYN_ACK {
                let flow = Flow { tx_ack: t.sequence.wrapping_add(1), ..v.flow };
                let calls = seq![
                    HostCall::Reregister {
                        token,
                        interest: Interest::Readable,
                        came: a.registered,
                    },
                ];
                if a.registered is Done {
                    PacketStep {
                        next: ConnView { phase: Phase::Established, flow },
                        sends: seq![vm_ack(key, flow.tx_seq, flow.tx_ack)],
                        calls,
                        ..idle
                    }
                } else {
                    PacketStep { place: Place::Dropped, fails: true, calls, ..idle }
                }
            } else {
                idle
            }
        },
        Phase::Established => established_step(v.flow, key, t, token, a),
        Phase::Closing => {
            if t.flags & ACK != 0 && t.acknowledgement == v.flow.tx_seq {
                PacketStep { removes: true, ..idle }
            } else if t.flags & FIN != 0 {
                let flow = Flow { tx_ack: t.sequence.wrapping_add(1), ..v.flow };
                PacketStep {
                    next: ConnView { phase: Phase::Closing, flow },
                    sends: seq![vm_ack(key, flow.tx_seq, flow.tx_ack)],
                    ..idle
                }
            } else {
                idle
            }
        },
    }
}

/// What handling a packet gives back.
struct Taken<H> {
    conn: AnyConnection<H>,
    /// Whether the connection goes on.
    keeps: bool,
    unless_removed: bool,
    send: Option<Bytes>,
    removes: bool,
    error: Option<std::io::Error>,
}

impl<H: TracedStream> Taken<H> {
    spec fn sends(&self) -> Seq<Seq<u8>> {
        match self.send {
            Some(p) => seq![bytes_view(p)],
            None => Seq::empty(),
        }
    }

    /// Whether this is what a packet comes to.
    spec fn is_step(&self, s: PacketStep, before: Seq<HostCall>) -> bool {
        &&& self.sends() == s.sends
        &&& self.removes == s.removes
        &&& self.error is Some <==> s.fails
        &&& match s.place {
            Place::Dropped => !self.keeps,
            Place::Kept => self.keeps && !self.unless_removed,
            Place::KeptUnlessRemoved => self.keeps && self.unless_removed,
        }
        &&& self.keeps ==> self.conn@ == s.next
        &&& self.conn.host().calls() == before + s.calls
    }
}

/// Whether a packet's data can be kept with what waits for the host.
pub open spec fn takes_data(v: ConnView, payload: Seq<u8>) -> bool {
    flat(v.flow.write_buffer).len() + payload.len() <= usize::MAX
}

impl<H: TracedStream> TcpConnection<Established, H> {
    /// Hands the data of a packet to the host, and keeps what the host does not take. Says
    /// whether the data is taken over, whether the host is gone, and the error where a
    /// registration failed.
    fn take_data(&mut self, payload: &Vec<u8>, token: Token) -> (r: (
        bool,
        bool,
        Option<std::io::Error>,
        Ghost<Answers>,
    ))
        requires
            flat(old(self).flow().write_buffer).len() + payload@.len() <= usize::MAX,
        ensures
            ({
                let (flow, took_over, broken, calls) = data_step(
                    old(self).flow(),
                    payload@,
                    token,
                    r.3@,
                );
                &&& r.2 is None ==> final(self).flow() == flow
                &&& r.0 == took_over
                &&& r.1 == broken
                &&& r.2 is Some <==> data_fails(calls, r.3@)
                &&& final(self).stream.calls() == old(self).stream.calls() + calls
            }),
            answers_fit(payload@, r.3@),
            r.2 is None ==> flat(final(self).flow().write_buffer).len() <= flat(
                old(self).flow().write_buffer,
            ).len() + payload@.len(),
    {
        let ghost f = self.flow();
        let ghost before = self.stream.calls();
        let n: usize = payload.len();
        let ghost mut a = Answers { took: WriteView::WouldBlock, registered: RegisterView::Done, shut: true };
        if n == 0 {
            assert(before + Seq::<HostCall>::empty() =~= before);
            return (false, false, None, Ghost(a));
        }
        let acked: u32 = self.tx_ack.wrapping_add(length32(n));
        if self.write_buffer.len() > 0 {
            self.write_buffer.push_back(Bytes::copy_from_slice(payload.as_slice()));
            self.tx_ack = acked;
            proof {
                flat_push(f.write_buffer, payload@);
                assert(self.flow().write_buffer =~= f.write_buffer.push(payload@));
                assert(self.flow() =~= acknowledging(buffering(f, payload@), payload@));
                assert(before + Seq::<HostCall>::empty() =~= before);
            }
            return (true, false, None, Ghost(a));
        }
        let took = self.stream.write(payload.as_slice());
        let ghost wrote = Seq::<HostCall>::empty().push(
            HostCall::Write { data: payload@, took: took@ },
        );
        proof {
            a = Answers { took: took@, ..a };
            assert(self.stream.calls() =~= before + wrote);
            assert(f.write_buffer =~= Seq::<Seq<u8>>::empty());
        }
        let from: usize = match took {
            HostWrite::Wrote(k) => k,
            HostWrite::WouldBlock => 0,
            HostWrite::Failed => {
                return (false, true, None, Ghost(a));
            },
        };
        self.tx_ack = acked;
        if from < n {
            let rest: &[u8] = vstd::slice::slice_subrange(payload.as_slice(), from, n);
            self.write_buffer.push_back(Bytes::copy_from_slice(rest));
            proof {
                assert(rest@ =~= payload@.skip(from as int));
                assert(payload@.skip(0) =~= payload@);
                flat_push(f.write_buffer, rest@);
                assert(self.flow().write_buffer =~= f.write_buffer.push(rest@));
                assert(self.flow() =~= acknowledging(buffering(f, rest@), payload@));
            }
            let done = self.stream.reregister(token, Interest::Both);
            proof {
                a = Answers { registered: register_view(done), ..a };
                let waits = wrote.push(
                    HostCall::Reregister { token, interest: Interest::Both, came: register_view(done) },
                );
                assert(self.stream.calls() =~= before + waits);
            }
            match done {
                Ok(_) => (true, false, None, Ghost(a)),
                Err(e) => (true, false, Some(e.error), Ghost(a)),
            }
        } else {
            proof {
                assert(self.flow() =~= acknowledging(f, payload@));
            }
            (true, false, None, Ghost(a))
        }
    }

    /// Handles a packet while data flows.
    fn take_packet(
        self,
        token: Token,
        key: NatKey,
        tcp: &TcpSegment,
        packet_buf: &mut BytesMut,
    ) -> (r: (Taken<H>, Ghost<Answers>))
        requires
            flat(self.flow().write_buffer).len() + tcp.payload@.len() <= usize::MAX,
        ensures
            r.0.is_step(
                established_step(self.flow(), key, tcp@, token, r.1@),
                self.stream.calls(),
            ),
            answers_fit(tcp@.payload, r.1@),
            r.0.keeps ==> countable(r.0.conn@),
    {
        let ghost f = self.flow();
        let ghost before = self.stream.calls();
        let ghost a = Answers { took: WriteView::WouldBlock, registered: RegisterView::Done, shut: true };
        let flags: u8 = tcp.flags;
        assert(before + Seq::<HostCall>::empty() =~= before);
        if tcp.sequence != self.tx_ack {
            return (
                Taken {
                    conn: AnyConnection::Established(self),
                    keeps: true,
                    unless_removed: false,
                    send: None,
                    removes: false,
                    error: None,
                },
                Ghost(a),
            );
        }
        if (flags & RST) != 0 {
            return (
                Taken {
                    conn: AnyConnection::Established(self),
                    keeps: false,
                    unless_removed: false,
                    send: None,
                    removes: true,
                    error: None,
                },
                Ghost(a),
            );
        }
        let mut conn = self;
        let (took_over, broken, error, Ghost(b)) = conn.take_data(&tcp.payload, token);
        if error.is_some() {
            return (
                Taken {
                    conn: AnyConnection::Established(conn),
                    keeps: false,
                    unless_removed: false,
                    send: None,
                    removes: false,
                    error,
                },
                Ghost(b),
            );
        }
        let ghost fed = conn.flow();
        let fin = (flags & FIN) != 0;
        let bare = tcp.payload.len() == 0 && (flags & 0x07) == 0;
        if fin {
            conn.tx_ack = conn.tx_ack.wrapping_add(1);
        }
        let ghost done = conn.flow();
        proof {
            assert(fin ==> done =~= (Flow { tx_ack: fed.tx_ack.wrapping_add(1), ..fed }));
        }
        let send = if took_over || bare || fin {
            Some(build_tcp_packet(packet_buf, key, conn.tx_seq, conn.tx_ack, None, Some(ACK)))
        } else {
            None
        };
        if fin {
            let ghost calls = conn.stream.calls();
            let closing = conn.close();
            let ghost ok = choose|ok: bool|
                closing.stream.calls() == #[trigger] calls.push(HostCall::ShutdownWrite { ok });
            let ghost c = Answers { shut: ok, ..b };
            proof {
                let fed_calls = data_step(f, tcp@.payload, token, c).3;
                assert(calls.push(HostCall::ShutdownWrite { ok }) =~= before + fed_calls.push(
                    HostCall::ShutdownWrite { ok },
                ));
            }
            (
                Taken {
                    conn: AnyConnection::Closing(closing),
                    keeps: true,
                    unless_removed: false,
                    send,
                    removes: broken,
                    error: None,
                },
                Ghost(c),
            )
        } else {
            (
                Taken {
                    conn: AnyConnection::Established(conn),
                    keeps: true,
                    unless_removed: true,
                    send,
                    removes: broken,
                    error: None,
                },
                Ghost(b),
            )
        }
    }
}

/// Handles a packet, whatever state the connection is in.
fn take_packet<H: TracedStream>(
    conn: AnyConnection<H>,
    token: Token,
    key: NatKey,
    tcp: &TcpSegment,
    packet_buf: &mut BytesMut,
) -> (r: (Taken<H>, Ghost<Answers>))
    requires
        takes_data(conn@, tcp@.payload),
    ensures
        r.0.is_step(packet_step(conn@, key, tcp@, token, r.1@), conn.host().calls()),
        answers_fit(tcp@.payload, r.1@),
        r.0.keeps ==> countable(r.0.conn@),
{
    let ghost a = Answers { took: WriteView::WouldBlock, registered: RegisterView::Done, shut: true };
    let ghost before = conn.host().calls();
    let ghost v = conn@;
    assert(before + Seq::<HostCall>::empty() =~= before);
    match conn {
        AnyConnection::EgressConnecting(c) => (
            Taken {
                conn: AnyConnection::EgressConnecting(c),
                keeps: true,
                unless_removed: true,
                send: None,
                removes: false,
                error: None,
            },
            Ghost(a),
        ),
        AnyConnection::IngressConnecting(c) => {
            if (tcp.flags & SYN_ACK) == SYN_ACK {
                let mut c = c;
                c.tx_ack = tcp.sequence.wrapping_add(1);
                let mut established = c.establish();
                let done = established.stream.reregister(token, Interest::Readable);
                let ghost b = Answers { registered: register_view(done), ..a };
                proof {
                    assert(established.stream.calls() =~= before + seq![
                        HostCall::Reregister {
                            token,
                            interest: Interest::Readable,
                            came: register_view(done),
                        },
                    ]);
                    assert(established.flow() =~= (Flow {
                        tx_ack: tcp@.sequence.wrapping_add(1),
                        ..v.flow
                    }));
                }
                match done {
                    Ok(_) => {
                        let ack = build_tcp_packet(
                            packet_buf,
                            key,
                            established.tx_seq,
                            established.tx_ack,
                            None,
                            Some(ACK),
                        );
                        (
                            Taken {
                                conn: AnyConnection::Established(established),
                                keeps: true,
                                unless_removed: true,
                                send: Some(ack),
                                removes: false,
                                error: None,
                            },
                            Ghost(b),
                        )
                    },
                    Err(e) => (
                        Taken {
                            conn: AnyConnection::Established(established),
                            keeps: false,
                            unless_removed: false,
                            send: None,
                            removes: false,
                            error: Some(e.error),
                        },
                        Ghost(b),
                    ),
                }
            } else {
                (
                    Taken {
                        conn: AnyConnection::IngressConnecting(c),
                        keeps: true,
                        unless_removed: true,
                        send: None,
                        removes: false,
                        error: None,
                    },
                    Ghost(a),
                )
            }
        },
        AnyConnection::Established(c) => c.take_packet(token, key, tcp, packet_buf),
        AnyConnection::Closing(c) => {
            let mut c = c;
            let mut send: Option<Bytes> = None;
            let mut removes = false;
            if (tcp.flags & ACK) != 0 && tcp.acknowledgement == c.tx_seq {
                removes = true;
            } else if (tcp.flags & FIN) != 0 {
                c.tx_ack = tcp.sequence.wrapping_add(1);
                assert(c.flow() =~= (Flow { tx_ack: tcp@.sequence.wrapping_add(1), ..v.flow }));
                send = Some(
                    build_tcp_packet(packet_buf, key, c.tx_seq, c.tx_ack, None, Some(ACK)),
                );
            }
            (
                Taken {
                    conn: AnyConnection::Closing(c),
                    keeps: true,
                    unless_removed: true,
                    send,
                    removes,
                    error: None,
                },
                Ghost(a),
            )
        },
    }
}

// --- Reading from the host again ---

/// The readiness events that a connection waits for once its host is read from again.
pub open spec fn resumed_interest(v: ConnView) -> Interest {
    if v.flow.write_buffer.len() == 0 {
        Interest::Readable
    } else {
        Interest::Both
    }
}

/// The calls that have a stream registered for reading again: where it turns out not to be
/// registered at all, it is registered anew.
pub open spec fn resume_calls(
    v: ConnView,
    token: Token,
    came: RegisterView,
    anew: bool,
) -> Seq<HostCall> {
    let interest = resumed_interest(v);
    let first = Seq::<HostCall>::empty().push(HostCall::Reregister { token, interest, came });
    if came is Unregistered {
        first.push(HostCall::Register { token, interest, ok: anew })
    } else {
        first
    }
}

/// Has a stream registered for reading again.
fn resume_reading<H: TracedStream>(conn: &mut AnyConnection<H>, token: Token) -> (r: Ghost<
    (RegisterView, bool),
>)
    ensures
        final(conn)@ == old(conn)@,
        final(conn).host().calls() == old(conn).host().calls() + resume_calls(
            old(conn)@,
            token,
            r@.0,
            r@.1,
        ),
{
    let ghost before = conn.host().calls();
    let ghost v = conn@;
    let interest = if conn.write_buffer().len() == 0 {
        Interest::Readable
    } else {
        Interest::Both
    };
    assert(interest == resumed_interest(v));
    let done = conn.stream_mut().reregister(token, interest);
    let ghost came = register_view(done);
    let unregistered = match done {
        Ok(_) => false,
        Err(e) => e.unregistered,
    };
    let mut anew = true;
    if unregistered {
        anew = conn.stream_mut().register(token, interest);
    }
    assert(conn.host().calls() =~= before + resume_calls(v, token, came, anew));
    Ghost((came, anew))
}

// --- Packets for the proxy ---

/// What a frame from the machine asks of the host.
#[derive(Debug)]
pub enum Demand {
    /// Nothing.
    Nothing,
    /// To open a connection to the destination of the flow.
    Connect { nat_key: NatKey, sequence: u32 },
    /// To send a datagram to the destination of the flow, over a socket that has to be opened
    /// first where it is new.
    SendUdp { token: Token, nat_key: NatKey, payload: Vec<u8>, open: bool },
}

/// A frame from the machine, as far as the proxy looks into it.
pub enum FrameView {
    Unreadable,
    Arp(ArpPacket),
    Tcp(IpAddr, IpAddr, Seq<u8>),
    Udp(IpAddr, IpAddr, Seq<u8>),
    Other,
}

/// What an IP packet is. It is taken for one of version 4 wherever it is long enough.
pub open spec fn ip_frame(body: Seq<u8>) -> FrameView {
    let ip = ipv4_view(body);
    if body.len() < 20 {
        FrameView::Unreadable
    } else if ip.protocol == PROTOCOL_TCP {
        if ip.payload.len() >= 20 {
            FrameView::Tcp(ip.source, ip.destination, ip.payload)
        } else {
            FrameView::Unreadable
        }
    } else if ip.protocol == PROTOCOL_UDP {
        if ip.payload.len() >= 8 {
            FrameView::Udp(ip.source, ip.destination, ip.payload)
        } else {
            FrameView::Unreadable
        }
    } else {
        FrameView::Other
    }
}

/// What an ARP packet is.
pub open spec fn arp_frame(body: Seq<u8>) -> FrameView {
    if body.len() >= 28 {
        FrameView::Arp(arp_of(body))
    } else {
        FrameView::Unreadable
    }
}

/// What a frame is.
pub open spec fn frame_view(raw: Seq<u8>) -> FrameView {
    let ethertype = u16_at(raw, 12);
    if raw.len() < 14 {
        FrameView::Unreadable
    } else if ethertype == ETHERTYPE_IPV4 || ethertype == ETHERTYPE_IPV6 {
        ip_frame(raw.skip(14))
    } else if ethertype == ETHERTYPE_ARP {
        arp_frame(raw.skip(14))
    } else {
        FrameView::Other
    }
}

/// What the host answers while a packet of a connection is handled, from the beginning.
pub struct PacketIo {
    pub came: RegisterView,
    pub anew: bool,
    pub answers: Answers,
}

impl<H: TracedStream> NetProxy<H> {
    /// The frames that go ahead of all data.
    pub open spec fn control(&self) -> Seq<Seq<u8>> {
        views(self.to_vm_control_queue@)
    }

    /// Whether everything but the connections, the queues and the scratch buffer is the same.
    pub open spec fn same_tables(&self, other: &Self) -> bool {
        &&& self.next_token == other.next_token
        &&& self.unix_listeners == other.unix_listeners
        &&& self.tcp_nat_table == other.tcp_nat_table
        &&& self.reverse_tcp_nat == other.reverse_tcp_nat
        &&& self.udp == other.udp
    }

    /// Whether nothing that the machine or the host could notice is different.
    pub open spec fn unchanged(&self, other: &Self) -> bool {
        &&& self.same_tables(other)
        &&& self.host_connections@ == other.host_connections@
        &&& self.paused_reads@ == other.paused_reads@
        &&& self.connections_to_remove@ == other.connections_to_remove@
        &&& self.released@ == other.released@
        &&& self.control() == other.control()
        &&& self.data_run_queue@ == other.data_run_queue@
    }

    /// The socket of a flow, in either direction.
    pub open spec fn socket_of(&self, key: NatKey) -> Option<Token> {
        let flows = self.tcp_nat_table@;
        if flows.dom().contains(key) {
            Some(flows[key])
        } else if flows.dom().contains(flipped(key)) {
            Some(flows[flipped(key)])
        } else {
            None
        }
    }

    /// Whether a TCP packet can be taken: its data still fits.
    pub open spec fn takes_tcp(&self, key: NatKey, s: Seq<u8>) -> bool {
        match self.socket_of(key) {
            Some(t) => self.host_connections@.dom().contains(t.0) ==> takes_data(
                self.host_connections@[t.0]@,
                segment_of(s).payload,
            ),
            None => true,
        }
    }

    /// What a packet of a known flow does: a paused connection is read from again, and the
    /// connection handles the packet.
    pub open spec fn packet_handled(
        &self,
        after: &Self,
        token: Token,
        t: SegmentView,
        r: Result<Demand, WriteError>,
        io: PacketIo,
    ) -> bool {
        let conns = self.host_connections@;
        let conn = conns[token.0];
        let resumes = self.paused_reads@.contains(token.0);
        let resumed = if resumes {
            resume_calls(conn@, token, io.came, io.anew)
        } else {
            Seq::empty()
        };
        let step = packet_step(
            conn@,
            self.reverse_tcp_nat@[token.0],
            t,
            token,
            io.answers,
        );
        let removals = if step.removes {
            self.connections_to_remove@.push(token)
        } else {
            self.connections_to_remove@
        };
        let left = after.host_connections@[token.0];
        &&& answers_fit(t.payload, io.answers)
        &&& after.same_tables(self)
        &&& after.paused_reads@ == self.paused_reads@.remove(token.0)
        &&& after.data_run_queue@ == self.data_run_queue@
        &&& if conns.dom().contains(token.0) {
            &&& after.control() == self.control() + step.sends
            &&& after.connections_to_remove@ == removals
            &&& if step.place is Kept || (step.place is KeptUnlessRemoved && !removals.contains(
                token,
            )) {
                &&& after.host_connections@ == conns.insert(token.0, left)
                &&& left@ == step.next
                &&& left.host().calls() == conn.host().calls() + resumed + step.calls
                &&& after.released@ == self.released@
            } else {
                &&& after.host_connections@ == conns.remove(token.0)
                &&& one_released(
                    self.released@,
                    after.released@,
                    conn.host().calls() + resumed + step.calls,
                )
            }
            &&& if step.fails {
                r matches Err(WriteError::Internal(_))
            } else {
                r matches Ok(Demand::Nothing)
            }
        } else {
            &&& after.control() == self.control()
            &&& after.connections_to_remove@ == self.connections_to_remove@
            &&& after.host_connections@ == conns
            &&& after.released@ == self.released@
            &&& r matches Ok(Demand::Nothing)
        }
    }

    /// Whether a token is among those to be removed.
    fn to_be_removed(&self, token: Token) -> (r: bool)
        ensures
            r == self.connections_to_remove@.contains(token),
    {
        let mut i: usize = 0;
        while i < self.connections_to_remove.len()
            invariant
                i <= self.connections_to_remove@.len(),
                forall|j: int| 0 <= j < i ==> (#[trigger] self.connections_to_remove@[j]) != token,
            decreases self.connections_to_remove@.len() - i,
        {
            if self.connections_to_remove[i] == token {
                return true;
            }
            i = i + 1;
        }
        false
    }

    /// Handles a packet of a known flow.
    fn handle_known(&mut self, token: Token, tcp_packet: &TcpSegment) -> (r: (
        Result<Demand, WriteError>,
        Ghost<PacketIo>,
    ))
        requires
            old(self).wf(),
            old(self).host_connections@.dom().contains(token.0) ==> takes_data(
                old(self).host_connections@[token.0]@,
                tcp_packet@.payload,
            ),
        ensures
            final(self).wf(),
            old(self).packet_handled(final(self), token, tcp_packet@, r.0, r.1@),
    {
        let ghost before = *self;
        let ghost mut came = RegisterView::Done;
        let ghost mut anew = true;
        let ghost mut resumed = Seq::<HostCall>::empty();
        let paused = self.paused_reads.remove(&token.0);
        assert(self.paused_reads@ =~= before.paused_reads@.remove(token.0));
        let ghost start = before.host_connections@[token.0].host().calls();
        assert(start + resumed =~= start);
        match self.host_connections.remove(&token.0) {
            None => {
                proof {
                    assert(self.host_connections@ =~= before.host_connections@);
                }
                let ghost io = PacketIo {
                    came,
                    anew,
                    answers: Answers {
                        took: WriteView::WouldBlock,
                        registered: RegisterView::Done,
                        shut: true,
                    },
                };
                (Ok(Demand::Nothing), Ghost(io))
            },
            Some(conn) => {
                let mut conn = conn;
                if paused {
                    let Ghost(answer) = resume_reading(&mut conn, token);
                    proof {
                        came = answer.0;
                        anew = answer.1;
                        resumed = resume_calls(
                            before.host_connections@[token.0]@,
                            token,
                            came,
                            anew,
                        );
                    }
                }
                let ghost mid = conn.host().calls();
                assert(before.host_connections@.dom().contains(token.0));
                let key: NatKey = match self.reverse_tcp_nat.get(&token.0) {
                    Some(k) => *k,
                    None => (IpAddr::V4(proxy_ip()), 0, IpAddr::V4(proxy_ip()), 0),
                };
                let (taken, Ghost(answers)) = take_packet(
                    conn,
                    token,
                    key,
                    tcp_packet,
                    &mut self.packet_buf,
                );
                let ghost io = PacketIo { came, anew, answers };
                let ghost step = packet_step(
                    before.host_connections@[token.0]@,
                    key,
                    tcp_packet@,
                    token,
                    answers,
                );
                let ghost sends = taken.sends();
                match taken.send {
                    Some(p) => {
                        self.to_vm_control_queue.push_back(p);
                    },
                    None => {},
                }
                assert(self.control() =~= before.control() + sends);
                if taken.removes {
                    self.connections_to_remove.push(token);
                }
                let ghost left = taken.conn;
                if taken.keeps && (!taken.unless_removed || !self.to_be_removed(token)) {
                    let _ = self.host_connections.insert(token.0, taken.conn);
                    assert(self.host_connections@ =~= before.host_connections@.insert(
                        token.0,
                        left,
                    ));
                } else {
                    self.released.push(taken.conn.into_stream());
                }
                match taken.error {
                    Some(e) => (Err(WriteError::Internal(e)), Ghost(io)),
                    None => (Ok(Demand::Nothing), Ghost(io)),
                }
            },
        }
    }

    /// What a TCP packet from the machine comes to.
    pub open spec fn tcp_result(
        &self,
        after: &Self,
        src_addr: IpAddr,
        dst_addr: IpAddr,
        s: Seq<u8>,
        r: Result<Demand, WriteError>,
    ) -> bool {
        let key = flow_of(src_addr, dst_addr, s);
        let t = segment_of(s);
        match self.socket_of(key) {
            Some(token) => exists|io: PacketIo| #[trigger]
                self.packet_handled(after, token, t, r, io),
            None => {
                &&& after.unchanged(self)
                &&& if t.flags & SYN != 0 {
                    r matches Ok(Demand::Connect { nat_key, sequence }) && nat_key == key
                        && sequence == t.sequence
                } else {
                    r matches Ok(Demand::Nothing)
                }
            },
        }
    }

    /// Handles a TCP packet from the machine.
    pub fn handle_tcp_packet(
        &mut self,
        src_addr: IpAddr,
        dst_addr: IpAddr,
        tcp_packet: &TcpSegment,
        raw: &[u8],
    ) -> (r: Result<Demand, WriteError>)
        requires
            old(self).wf(),
            raw@.len() >= 20,
            tcp_packet@ == segment_of(raw@),
            old(self).takes_tcp(flow_of(src_addr, dst_addr, raw@), raw@),
        ensures
            final(self).wf(),
            old(self).tcp_result(final(self), src_addr, dst_addr, raw@, r),
    {
        let nat_key: NatKey = (src_addr, tcp_packet.source, dst_addr, tcp_packet.destination);
        let token = match self.tcp_nat_table.get(&nat_key) {
            Some(t) => Some(t),
            None => self.tcp_nat_table.get(&flip_key(nat_key)),
        };
        match token {
            Some(t) => {
                let (r, Ghost(io)) = self.handle_known(t, tcp_packet);
                assert(old(self).packet_handled(self, t, tcp_packet@, r, io));
                r
            },
            None => {
                if (tcp_packet.flags & SYN) != 0 {
                    Ok(Demand::Connect { nat_key, sequence: tcp_packet.sequence })
                } else {
                    Ok(Demand::Nothing)
                }
            },
        }
    }

    /// What a UDP packet from the machine comes to: it is to be sent over the socket of its
    /// flow, which gets a handle where it has none.
    pub open spec fn udp_result(
        &self,
        after: &Self,
        key: NatKey,
        data: Seq<u8>,
        r: Result<Demand, WriteError>,
    ) -> bool {
        let known = self.udp@.flows.dom().contains(key);
        let fresh = Token(self.next_token);
        let routes = NetProxy {
            next_token: if known {
                self.next_token
            } else {
                (self.next_token + 1) as usize
            },
            udp: after.udp,
            ..*self
        };
        &&& r matches Ok(Demand::SendUdp { token, nat_key, payload, open }) && token
            == after.udp@.flows[key] && nat_key == key && payload@ == data && open == !known
        &&& after.udp@ == routed(self.udp@, key, fresh)
        &&& after.unchanged(&routes)
    }

    /// Handles a UDP packet from the machine.
    pub fn handle_udp_packet(
        &mut self,
        src_addr: IpAddr,
        dst_addr: IpAddr,
        udp_packet: UdpDatagram,
    ) -> (r: Result<Demand, WriteError>)
        requires
            old(self).wf(),
            old(self).next_token < usize::MAX,
        ensures
            final(self).wf(),
            old(self).udp_result(
                final(self),
                (src_addr, udp_packet.source, dst_addr, udp_packet.destination),
                udp_packet.payload@,
                r,
            ),
    {
        let key: NatKey = (src_addr, udp_packet.source, dst_addr, udp_packet.destination);
        let (token, open) = self.udp.route(key, Token(self.next_token));
        if open {
            self.next_token = self.next_token + 1;
        }
        Ok(Demand::SendUdp { token, nat_key: key, payload: udp_packet.payload, open })
    }

    /// Notes that the socket of a UDP flow has been opened and connected.
    pub fn udp_opened(&mut self, token: Token, nat_key: NatKey, now: Instant)
        requires
            old(self).wf(),
            old(self).udp@.flows.dom().contains(nat_key),
            old(self).udp@.flows[nat_key] == token,
        ensures
            final(self).wf(),
            final(self).udp@ == opened(old(self).udp@, token, nat_key, now),
            *final(self) == (NetProxy { udp: final(self).udp, ..*old(self) }),
    {
        self.udp.opened(token, nat_key, now);
    }

    /// Notes that a datagram was sent over a UDP socket.
    pub fn udp_sent(&mut self, token: Token, now: Instant)
        requires
            old(self).wf(),
        ensures
            final(self).wf(),
            final(self).udp@ == used(old(self).udp@, token, now),
            *final(self) == (NetProxy { udp: final(self).udp, ..*old(self) }),
    {
        self.udp.used(token, now);
    }

    /// What an ARP packet from the machine comes to: a request for the proxy's address is
    /// answered, and anything else is not.
    pub open spec fn arp_result(
        &self,
        after: &Self,
        a: ArpPacket,
        r: Result<Demand, WriteError>,
    ) -> bool {
        let answered = NetProxy {
            to_vm_control_queue: after.to_vm_control_queue,
            packet_buf: after.packet_buf,
            ..*self
        };
        if asks_for_proxy(a) {
            &&& r matches Ok(Demand::Nothing)
            &&& after.control() == self.control().push(
                arp_reply_frame(a, proxy_mac(), proxy_ip()),
            )
            &&& after.unchanged(&answered)
        } else {
            &&& r matches Err(WriteError::NothingWritten)
            &&& after.unchanged(self)
        }
    }

    /// What a frame from the machine comes to.
    pub open spec fn frame_result(
        &self,
        after: &Self,
        f: FrameView,
        r: Result<Demand, WriteError>,
    ) -> bool {
        match f {
            FrameView::Unreadable => r matches Err(WriteError::NothingWritten)
                && after.unchanged(self),
            FrameView::Arp(a) => self.arp_result(after, a, r),
            FrameView::Tcp(src, dst, s) => self.tcp_result(after, src, dst, s, r),
            FrameView::Udp(src, dst, s) => self.udp_result(
                after,
                flow_of(src, dst, s),
                s.skip(8),
                r,
            ),
            FrameView::Other => r matches Ok(Demand::Nothing) && after.unchanged(self),
        }
    }

    /// Whether a frame can be taken.
    pub open spec fn takes(&self, f: FrameView) -> bool {
        match f {
            FrameView::Arp(a) => asks_for_proxy(a) ==> a.length == 28,
            FrameView::Tcp(src, dst, s) => self.takes_tcp(flow_of(src, dst, s), s),
            FrameView::Udp(..) => self.next_token < usize::MAX,
            _ => true,
        }
    }

    /// Handles an ARP packet from the machine.
    pub fn handle_arp_packet(&mut self, arp_payload: &[u8]) -> (r: Result<Demand, WriteError>)
        requires
            old(self).wf(),
            old(self).takes(arp_frame(arp_payload@)),
        ensures
            final(self).wf(),
            old(self).frame_result(final(self), arp_frame(arp_payload@), r),
    {
        let ghost before = *self;
        if let Some(arp) = parse_arp(arp_payload) {
            if arp.operation == ARP_REQUEST && arp.target_proto_addr == proxy_ip() {
                let reply = build_arp_reply(&mut self.packet_buf, &arp);
                self.to_vm_control_queue.push_back(reply);
                assert(self.control() =~= before.control().push(bytes_view(reply)));
                return Ok(Demand::Nothing);
            }
        }
        Err(WriteError::NothingWritten)
    }

    /// Handles an IP packet from the machine.
    pub fn handle_ip_packet(&mut self, ip_payload: &[u8]) -> (r: Result<Demand, WriteError>)
        requires
            old(self).wf(),
            old(self).takes(ip_frame(ip_payload@)),
        ensures
            final(self).wf(),
            old(self).frame_result(final(self), ip_frame(ip_payload@), r),
    {
        let ip = match parse_ipv4(ip_payload) {
            Some(p) => p,
            None => {
                return Err(WriteError::NothingWritten);
            },
        };
        let src = IpAddr::V4(ip.source);
        let dst = IpAddr::V4(ip.destination);
        let payload: &[u8] = ip.payload.as_slice();
        if ip.next_level_protocol == PROTOCOL_TCP {
            match parse_tcp(payload) {
                Some(tcp) => {
                    assert(tcp@ == segment_of(payload@));
                    self.handle_tcp_packet(src, dst, &tcp, payload)
                },
                None => Err(WriteError::NothingWritten),
            }
        } else if ip.next_level_protocol == PROTOCOL_UDP {
            match parse_udp(payload) {
                Some(udp) => self.handle_udp_packet(src, dst, udp),
                None => Err(WriteError::NothingWritten),
            }
        } else {
            Ok(Demand::Nothing)
        }
    }

    /// Handles a raw Ethernet frame from the machine.
    pub fn handle_packet_from_vm(&mut self, raw_packet: &[u8]) -> (r: Result<Demand, WriteError>)
        requires
            old(self).wf(),
            old(self).takes(frame_view(raw_packet@)),
        ensures
            final(self).wf(),
            old(self).frame_result(final(self), frame_view(raw_packet@), r),
            old(self).serves_all() ==> final(self).serves_all(),
    {
        let ghost before = *self;
        let r = match parse_ethernet(raw_packet) {
            Some(eth) => {
                if eth.ethertype == ETHERTYPE_IPV4 || eth.ethertype == ETHERTYPE_IPV6 {
                    self.handle_ip_packet(eth.payload.as_slice())
                } else if eth.ethertype == ETHERTYPE_ARP {
                    self.handle_arp_packet(eth.payload.as_slice())
                } else {
                    Ok(Demand::Nothing)
                }
            },
            None => Err(WriteError::NothingWritten),
        };
        proof {
            packets_serve_all(&before, self, frame_view(raw_packet@), r);
        }
        r
    }
}

} // verus!
