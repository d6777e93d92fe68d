//! Packets from the machine.
use bytes::{Bytes, BytesMut};
use std::collections::VecDeque;
use vstd::prelude::*;

use crate::addr::{flip_key, flipped, Instant, Interest, IpAddr, NatKey, Token};
use crate::backend::WriteError;
use crate::buffer::{bytes_view, flat, flat_push, views};
use crate::direct_proxy::packets::{arp_frame, frame_view, ip_frame, Demand, FrameView};
use crate::simple_proxy::{
    build_arp_reply, build_tcp_packet, countable, AnyConnection, Closing, ConnView,
    EgressConnecting, Established, Flow, IngressConnecting, NetProxy, Phase, TcpConnection,
};
use crate::host::{
    one_released, register_view, HostCall, HostWrite, RegisterView, TracedStream, WriteView,
};
use crate::packet_utils::arp_reply_frame;
use crate::proxy::packets::{asks_for_proxy, flow_of, segment_of};
use crate::proxy::{proxy_ip, proxy_mac};
use crate::seqnum::{covers, length32, low32, HALF_SPACE};
use crate::tcp_fsm::model::SegmentView;
use crate::udp::{opened, routed, used};
use crate::vm_frames::vm_ack;
use crate::wire::{
    ipv4_payload, parse_arp, parse_ethernet, parse_ipv4, parse_tcp, parse_udp, tcp_payload, u32_at,
    ArpPacket, TcpSegment, UdpDatagram, ACK, ARP_REQUEST, ETHERTYPE_ARP, ETHERTYPE_IPV4,
    ETHERTYPE_IPV6, FIN, PROTOCOL_TCP, PROTOCOL_UDP, RST, SYN, SYN_ACK,
};

verus! {

broadcast use vstd::std_specs::hash::group_hash_axioms;

// --- What a packet does to its connection ---

/// How writing all of some data ended.
#[derive(Debug, Clone, Copy, PartialEq, Eq, Structural)]
pub enum AllEnd {
    Done,
    WouldBlock,
    Failed,
}

/// Whether writing all of some data, until it is written or the host takes no more, makes
/// these calls. A host that takes nothing has failed.
pub open spec fn write_all_run(data: Seq<u8>, calls: Seq<HostCall>, end: AllEnd) -> bool
    decreases data.len(),
{
    if data.len() == 0 {
        calls.len() == 0 && end == AllEnd::Done
    } else {
        &&& calls.len() > 0
        &&& match calls[0] {
            HostCall::Write { data: d, took } => {
                &&& d == data
                &&& match took {
                    WriteView::Wrote(n) => {
                        if n == 0 || n > data.len() {
                            n == 0 && calls.len() == 1 && end == AllEnd::Failed
                        } else {
                            write_all_run(data.skip(n as int), calls.skip(1), end)
                        }
                    },
                    WriteView::WouldBlock => calls.len() == 1 && end == AllEnd::WouldBlock,
                    WriteView::Failed => calls.len() == 1 && end == AllEnd::Failed,
                }
            },
            _ => false,
        }
    }
}

/// What the host answers while a packet is handled: the calls that write the data and how they
/// end, and whether registering and shutting down worked. An answer counts only where the host
/// is asked.
pub struct Answers {
    pub writes: Seq<HostCall>,
    pub end: AllEnd,
    pub registered: RegisterView,
    pub shut: bool,
}

/// A host that is not asked.
pub open spec fn no_answers() -> Answers {
    Answers {
        writes: Seq::empty(),
        end: AllEnd::Done,
        registered: RegisterView::Done,
        shut: true,
    }
}

/// Where a connection goes once it has handled a packet.
pub enum Place {
    /// Back into the table, unless it is to be removed.
    KeptUnlessRemoved,
    /// Nowhere.
    Dropped,
}

/// What a packet comes to.
pub struct PacketStep {
    pub next: ConnView,
    pub place: Place,
    pub sends: Seq<Seq<u8>>,
    pub removes: bool,
    /// Whether handling stopped because a registration failed.
    pub fails: bool,
    pub calls: Seq<HostCall>,
}

/// The end of the data in a frame, if it is a TCP packet over IPv4.
pub open spec fn data_end(frame: Seq<u8>) -> Option<u32> {
    let body = frame.skip(14);
    let segment = ipv4_payload(body);
    if frame.len() < 14 || body.len() < 20 || segment.len() < 20 {
        None
    } else {
        Some(u32_at(segment, 4).wrapping_add(low32(tcp_payload(segment).len())))
    }
}

/// Whether a packet stays queued when the machine acknowledges everything up to `ack`: one does
/// whose data ends after that, or in which there is no data to be found.
pub open spec fn stays(frame: Seq<u8>, ack: u32) -> bool {
    match data_end(frame) {
        Some(end) => !covers(ack, end),
        None => true,
    }
}

/// The packets that stay queued when the machine acknowledges everything up to `ack`.
pub open spec fn pruned(q: Seq<Seq<u8>>, ack: u32) -> Seq<Seq<u8>> {
    q.filter(|p: Seq<u8>| stays(p, ack))
}

/// A packet while data flows: what it acknowledges leaves the queue, and its data goes to the
/// host. Where the host takes no more for now, all of the data waits and is not acknowledged.
pub open spec fn established_step(
    f: Flow,
    key: NatKey,
    t: SegmentView,
    token: Token,
    a: Answers,
) -> PacketStep {
    let same = ConnView { phase: Phase::Established, flow: f };
    let idle = PacketStep {
        next: same,
        place: Place::Dropped,
        sends: Seq::empty(),
        removes: false,
        fails: false,
        calls: Seq::empty(),
    };
    let acked = Flow { to_vm_buffer: pruned(f.to_vm_buffer, t.acknowledgement), ..f };
    let data = t.payload.len() > 0;
    let written = data && a.end == AllEnd::Done;
    let waits = data && a.end == AllEnd::WouldBlock;
    let fin = t.flags & FIN != 0;
    let fed = if written {
        Flow { tx_ack: f.tx_ack.wrapping_add(low32(t.payload.len())), ..acked }
    } else if waits {
        Flow { write_buffer: f.write_buffer.push(t.payload), ..acked }
    } else {
        acked
    };
    let writes = if data {
        a.writes
    } else {
        Seq::empty()
    };
    let calls = if waits {
        writes.push(HostCall::Reregister { token, interest: Interest::Both, came: a.registered })
    } else {
        writes
    };
    let done = if fin {
        Flow { tx_ack: fed.tx_ack.wrapping_add(1), ..fed }
    } else {
        fed
    };
    if t.flags & RST != 0 {
        PacketStep { removes: true, ..idle }
    } else if waits && !(a.registered is Done) {
        PacketStep { fails: true, calls, ..idle }
    } else {
        PacketStep {
            next: ConnView {
                phase: if fin {
                    Phase::Closing
                } else {
                    Phase::Established
                },
                flow: done,
            },
            place: Place::KeptUnlessRemoved,
            sends: if written || fin {
                seq![vm_ack(key, done.tx_seq, done.tx_ack)]
            } else {
                Seq::empty()
            },
            removes: data && a.end == AllEnd::Failed,
            fails: false,
            calls: if fin {
                calls.push(HostCall::ShutdownWrite { ok: a.shut })
            } else {
                calls
            },
        }
    }
}

/// A packet, whatever state the connection is in.
pub open spec fn packet_step(
    v: ConnView,
    key: NatKey,
    t: SegmentView,
    token: Token,
    a: Answers,
) -> PacketStep {
    let idle = PacketStep {
        next: v,
        place: Place::KeptUnlessRemoved,
        sends: Seq::empty(),
        removes: false,
        fails: false,
        calls: Seq::empty(),
    };
    match v.phase {
        Phase::EgressConnecting => idle,
        Phase::IngressConnecting => {
            if t.flags & SYN_ACK == SYN_ACK {
                let flow = Flow { tx_ack: t.sequence.wrapping_add(1), ..v.flow };
                let calls = seq![
                    HostCall::Reregister {
                        token,
                        interest: Interest::Readable,
                        came: a.registered,
                    },
                ];
                if a.registered is Done {
                    PacketStep {
                        next: ConnView { phase: Phase::Established, flow },
                        sends: seq![vm_ack(key, flow.tx_seq, flow.tx_ack)],
                        calls,
                        ..idle
                    }
                } else {
                    PacketStep { place: Place::Dropped, fails: true, calls, ..idle }
                }
            } else {
                idle
            }
        },
        Phase::Established => established_step(v.flow, key, t, token, a),
        Phase::Closing => PacketStep {
            removes: t.flags & ACK != 0 && t.acknowledgement == v.flow.tx_seq,
            ..idle
        },
    }
}

/// Whether the host can have answered this: data is written to it as the state has it.
pub open spec fn answers_fit(v: ConnView, t: SegmentView, a: Answers) -> bool {
    v.phase is Established && t.flags & RST == 0 && t.payload.len() > 0 ==> write_all_run(
        t.payload,
        a.writes,
        a.end,
    )
}

/// What handling a packet gives back.
struct Taken<H> {
    conn: AnyConnection<H>,
    /// Whether the connection goes on.
    keeps: bool,
    send: Option<Bytes>,
    removes: bool,
    error: Option<std::io::Error>,
}

impl<H: TracedStream> Taken<H> {
    spec fn sends(&self) -> Seq<Seq<u8>> {
        match self.send {
            Some(p) => seq![bytes_view(p)],
            None => Seq::empty(),
        }
    }

    /// Whether this is what a packet comes to.
    spec fn is_step(&self, s: PacketStep, before: Seq<HostCall>) -> bool {
        &&& self.sends() == s.sends
        &&& self.removes == s.removes
        &&& self.error is Some <==> s.fails
        &&& self.keeps <==> s.place is KeptUnlessRemoved
        &&& self.keeps ==> self.conn@ == s.next
        &&& self.conn.host().calls() == before + s.calls
    }
}

/// Whether a packet's data can be kept with what waits for the host.
pub open spec fn takes_data(v: ConnView, payload: Seq<u8>) -> bool {
    flat(v.flow.write_buffer).len() + payload.len() <= usize::MAX
}

/// Writing goes on: what was done so far and then a run on what is left make one run.
spec fn writes_on(data: Seq<u8>, left: Seq<u8>, done: Seq<HostCall>) -> bool {
    forall|rest: Seq<HostCall>, e: AllEnd| #[trigger]
        write_all_run(left, rest, e) ==> write_all_run(data, done + rest, e)
}

/// Writes all of some data, until it is written or the host takes no more.
fn write_all<H: TracedStream>(stream: &mut H, data: &[u8]) -> (r: (AllEnd, Ghost<Seq<HostCall>>))
    ensures
        final(stream).calls() == old(stream).calls() + r.1@,
        write_all_run(data@, r.1@, r.0),
{
    let n: usize = data.len();
    let ghost first = stream.calls();
    let ghost mut done = Seq::<HostCall>::empty();
    let mut at: usize = 0;
    proof {
        assert(first + done =~= first);
        assert(data@.skip(0) =~= data@);
        assert forall|rest: Seq<HostCall>, e: AllEnd| #[trigger]
            write_all_run(data@.skip(0), rest, e) implies write_all_run(
            data@,
            done + rest,
            e,
        ) by {
            assert(done + rest =~= rest);
        }
    }
    while at < n
        invariant
            at <= n,
            n == data@.len(),
            first == old(stream).calls(),
            stream.calls() == first + done,
            writes_on(data@, data@.skip(at as int), done),
        decreases n - at,
    {
        let ghost left = data@.skip(at as int);
        let rest: &[u8] = vstd::slice::slice_subrange(data, at, n);
        assert(rest@ =~= left);
        let took = stream.write(rest);
        let ghost call = HostCall::Write { data: left, took: took@ };
        let ghost one = seq![call];
        proof {
            assert(stream.calls() =~= first + done.push(call));
            assert(done + one =~= done.push(call));
        }
        match took {
            HostWrite::Wrote(k) => {
                if k == 0 {
                    assert(write_all_run(left, one, AllEnd::Failed));
                    return (AllEnd::Failed, Ghost(done.push(call)));
                }
                proof {
                    let next = done.push(call);
                    assert(left.skip(k as int) =~= data@.skip(at + k));
                    assert forall|more: Seq<HostCall>, e: AllEnd| #[trigger]
                        write_all_run(data@.skip(at + k), more, e) implies write_all_run(
                        data@,
                        next + more,
                        e,
                    ) by {
                        let all = one + more;
                        assert(all.skip(1) =~= more);
                        assert(write_all_run(left, all, e));
                        assert(next + more =~= done + all);
                    }
                    done = next;
                    assert(writes_on(data@, data@.skip(at + k), done));
                }
                at = at + k;
            },
            HostWrite::WouldBlock => {
                assert(write_all_run(left, one, AllEnd::WouldBlock));
                return (AllEnd::WouldBlock, Ghost(done.push(call)));
            },
            HostWrite::Failed => {
                assert(write_all_run(left, one, AllEnd::Failed));
                return (AllEnd::Failed, Ghost(done.push(call)));
            },
        }
    }
    proof {
        assert(write_all_run(data@.skip(at as int), Seq::empty(), AllEnd::Done));
        assert(done + Seq::<HostCall>::empty() =~= done);
    }
    (AllEnd::Done, Ghost(done))
}

/// Whether a packet stays queued when the machine acknowledges everything up to `ack`.
fn packet_stays(frame: &[u8], ack: u32) -> (r: bool)
    ensures
        r == stays(frame@, ack),
{
    if let Some(eth) = parse_ethernet(frame) {
        if let Some(ip) = parse_ipv4(eth.payload.as_slice()) {
            if let Some(tcp) = parse_tcp(ip.payload.as_slice()) {
                let end: u32 = tcp.sequence.wrapping_add(length32(tcp.payload.len()));
                return ack.wrapping_sub(end) >= HALF_SPACE;
            }
        }
    }
    true
}

/// Drops the packets that the machine has acknowledged.
fn prune(queue: &mut VecDeque<Bytes>, ack: u32)
    ensures
        views(final(queue)@) == pruned(views(old(queue)@), ack),
{
    let ghost q = views(queue@);
    let keep = Ghost(|p: Seq<u8>| stays(p, ack));
    let mut kept: VecDeque<Bytes> = VecDeque::new();
    let ghost mut i: int = 0;
    proof {
        assert(q.skip(0) =~= q);
        assert(views(kept@) =~= q.take(0).filter(keep@)) by {
            reveal(Seq::filter);
        }
    }
    while queue.len() > 0
        invariant
            q == views(old(queue)@),
            keep@ == (|p: Seq<u8>| stays(p, ack)),
            0 <= i <= q.len(),
            views(queue@) == q.skip(i),
            views(kept@) == q.take(i).filter(keep@),
        decreases queue@.len(),
    {
        let ghost left = views(queue@);
        let ghost sofar = views(kept@);
        let packet = queue.pop_front().unwrap();
        proof {
            assert(left.len() == q.skip(i).len());
            assert(left[0] == bytes_view(packet));
            assert(q.skip(i)[0] == q[i]);
            assert(views(queue@) =~= left.skip(1));
            assert(q.skip(i).skip(1) =~= q.skip(i + 1));
            assert(q.take(i + 1).drop_last() =~= q.take(i));
            assert(q.take(i + 1).last() == q[i]);
            reveal(Seq::filter);
        }
        if packet_stays(&packet, ack) {
            kept.push_back(packet);
            assert(views(kept@) =~= sofar.push(q[i]));
        }
        proof {
            i = i + 1;
        }
    }
    proof {
        assert(views(queue@).len() == q.skip(i).len());
        assert(q.take(i) =~= q);
    }
    std::mem::swap(queue, &mut kept);
}

impl<H: TracedStream> TcpConnection<Established, H> {
    /// Handles a packet while data flows.
    fn take_packet(
        self,
        token: Token,
        key: NatKey,
        tcp: &TcpSegment,
        packet_buf: &mut BytesMut,
    ) -> (r: (Taken<H>, Ghost<Answers>))
        requires
            flat(self.flow().write_buffer).len() + tcp.payload@.len() <= usize::MAX,
        ensures
            r.0.is_step(
                established_step(self.flow(), key, tcp@, token, r.1@),
                self.stream.calls(),
            ),
            answers_fit(
                ConnView { phase: Phase::Established, flow: self.flow() },
                tcp@,
                r.1@,
            ),
            r.0.keeps ==> countable(r.0.conn@),
    {
        let ghost f = self.flow();
        let ghost before = self.stream.calls();
        let ghost mut a = no_answers();
        let ghost none = Seq::<HostCall>::empty();
        assert(before + none =~= before);
        if (tcp.flags & RST) != 0 {
            return (
                Taken {
                    conn: AnyConnection::Established(self),
                    keeps: false,
                    send: None,
                    removes: true,
                    error: None,
                },
                Ghost(a),
            );
        }
        let mut conn = self;
        prune(&mut conn.to_vm_buffer, tcp.acknowledgement);
        let ghost acked = conn.flow();
        assert(acked =~= (Flow {
            to_vm_buffer: pruned(f.to_vm_buffer, tcp@.acknowledgement),
            ..f
        }));
        let n: usize = tcp.payload.len();
        let mut written = false;
        let mut removes = false;
        let ghost mut calls = none;
        if n > 0 {
            let (end, Ghost(writes)) = write_all(&mut conn.stream, tcp.payload.as_slice());
            proof {
                a = Answers { writes, end, ..a };
                calls = writes;
            }
            match end {
                AllEnd::Done => {
                    conn.tx_ack = conn.tx_ack.wrapping_add(length32(n));
                    written = true;
                    assert(conn.flow() =~= (Flow {
                        tx_ack: f.tx_ack.wrapping_add(low32(tcp@.payload.len())),
                        ..acked
                    }));
                },
                AllEnd::WouldBlock => {
                    conn.write_buffer.push_back(
                        Bytes::copy_from_slice(tcp.payload.as_slice()),
                    );
                    proof {
                        flat_push(f.write_buffer, tcp@.payload);
                        assert(conn.flow().write_buffer =~= f.write_buffer.push(tcp@.payload));
                        assert(conn.flow() =~= (Flow {
                            write_buffer: f.write_buffer.push(tcp@.payload),
                            ..acked
                        }));
                    }
                    let done = conn.stream.reregister(token, Interest::Both);
                    proof {
                        a = Answers { registered: register_view(done), ..a };
                        calls = writes.push(
                            HostCall::Reregister {
                                token,
                                interest: Interest::Both,
                                came: a.registered,
                            },
                        );
                        assert(conn.stream.calls() =~= before + calls);
                    }
                    if let Err(e) = done {
                        return (
                            Taken {
                                conn: AnyConnection::Established(conn),
                                keeps: false,
                                send: None,
                                removes: false,
                                error: Some(e.error),
                            },
                            Ghost(a),
                        );
                    }
                },
                AllEnd::Failed => {
                    removes = true;
                },
            }
        }
        let ghost fed = conn.flow();
        let fin = (tcp.flags & FIN) != 0;
        if fin {
            conn.tx_ack = conn.tx_ack.wrapping_add(1);
        }
        let ghost done = conn.flow();
        assert(fin ==> done =~= (Flow { tx_ack: fed.tx_ack.wrapping_add(1), ..fed }));
        let send = if written || fin {
            Some(
                build_tcp_packet(
                    packet_buf,
                    key,
                    conn.tx_seq,
                    conn.tx_ack,
                    None,
                    Some(ACK),
                    0xffff,
                ),
            )
        } else {
            None
        };
        if fin {
            let ghost made = conn.stream.calls();
            let closing = conn.close();
            let ghost ok = choose|ok: bool|
                closing.stream.calls() == #[trigger] made.push(HostCall::ShutdownWrite { ok });
            let ghost b = Answers { shut: ok, ..a };
            assert(closing.stream.calls() =~= before + calls.push(
                HostCall::ShutdownWrite { ok },
            ));
            (
                Taken {
                    conn: AnyConnection::Closing(closing),
                    keeps: true,
                    send,
                    removes,
                    error: None,
                },
                Ghost(b),
            )
        } else {
            (
                Taken {
                    conn: AnyConnection::Established(conn),
                    keeps: true,
                    send,
                    removes,
                    error: None,
                },
                Ghost(a),
            )
        }
    }
}

/// Handles a packet, whatever state the connection is in.
fn take_packet<H: TracedStream>(
    conn: AnyConnection<H>,
    token: Token,
    key: NatKey,
    tcp: &TcpSegment,
    packet_buf: &mut BytesMut,
) -> (r: (Taken<H>, Ghost<Answers>))
    requires
        takes_data(conn@, tcp@.payload),
    ensures
        r.0.is_step(packet_step(conn@, key, tcp@, token, r.1@), conn.host().calls()),
        answers_fit(conn@, tcp@, r.1@),
        r.0.keeps ==> countable(r.0.conn@),
{
    let ghost a = no_answers();
    let ghost before = conn.host().calls();
    let ghost v = conn@;
    assert(before + Seq::<HostCall>::empty() =~= before);
    match conn {
        AnyConnection::EgressConnecting(c) => (
            Taken {
                conn: AnyConnection::EgressConnecting(c),
                keeps: true,
                send: None,
                removes: false,
                error: None,
            },
            Ghost(a),
        ),
        AnyConnection::IngressConnecting(c) => {
            if (tcp.flags & SYN_ACK) == SYN_ACK {
                let mut c = c;
                c.tx_ack = tcp.sequence.wrapping_add(1);
                let mut established = c.establish();
                let done = established.stream.reregister(token, Interest::Readable);
                let ghost b = Answers { registered: register_view(done), ..a };
                proof {
                    assert(established.stream.calls() =~= before + seq![
                        HostCall::Reregister {
                            token,
                            interest: Interest::Readable,
                            came: register_view(done),
                        },
                    ]);
                    assert(established.flow() =~= (Flow {
                        tx_ack: tcp@.sequence.wrapping_add(1),
                        ..v.flow
                    }));
                }
                match done {
                    Ok(_) => {
                        let ack = build_tcp_packet(
                            packet_buf,
                            key,
                            established.tx_seq,
                            established.tx_ack,
                            None,
                            Some(ACK),
                            0xffff,
                        );
                        (
                            Taken {
                                conn: AnyConnection::Established(established),
                                keeps: true,
                                send: Some(ack),
                                removes: false,
                                error: None,
                            },
                            Ghost(b),
                        )
                    },
                    Err(e) => (
                        Taken {
                            conn: AnyConnection::Established(established),
                            keeps: false,
                            send: None,
                            removes: false,
                            error: Some(e.error),
                        },
                        Ghost(b),
                    ),
                }
            } else {
                (
                    Taken {
                        conn: AnyConnection::IngressConnecting(c),
                        keeps: true,
                        send: None,
                        removes: false,
                        error: None,
                    },
                    Ghost(a),
                )
            }
        },
        AnyConnection::Established(c) => c.take_packet(token, key, tcp, packet_buf),
        AnyConnection::Closing(c) => {
            let removes = (tcp.flags & ACK) != 0 && tcp.acknowledgement == c.tx_seq;
            (
                Taken {
                    conn: AnyConnection::Closing(c),
                    keeps: true,
                    send: None,
                    removes,
                    error: None,
                },
                Ghost(a),
            )
        },
    }
}

// --- Packets for the proxy ---

impl<H: TracedStream> NetProxy<H> {
    /// The frames that go ahead of all data.
    pub open spec fn control(&self) -> Seq<Seq<u8>> {
        views(self.to_vm_control_queue@)
    }

    /// Whether everything but the connections, the queues and the scratch buffer is the same.
    pub open spec fn same_tables(&self, other: &Self) -> bool {
        &&& self.next_token == other.next_token
        &&& self.unix_listeners == other.unix_listeners
        &&& self.tcp_nat_table == other.tcp_nat_table
        &&& self.reverse_tcp_nat == other.reverse_tcp_nat
        &&& self.udp == other.udp
    }

    /// Whether nothing that the machine or the host could notice is different.
    pub open spec fn unchanged(&self, other: &Self) -> bool {
        &&& self.same_tables(other)
        &&& self.host_connections@ == other.host_connections@
        &&& self.paused_reads@ == other.paused_reads@
        &&& self.connections_to_remove@ == other.connections_to_remove@
        &&& self.released@ == other.released@
        &&& self.control() == other.control()
        &&& self.to_vm_data_queue@ == other.to_vm_data_queue@
        &&& self.data_run_queue@ == other.data_run_queue@
    }

    /// The socket of a flow, in either direction.
    pub open spec fn socket_of(&self, key: NatKey) -> Option<Token> {
        let flows = self.tcp_nat_table@;
        if flows.dom().contains(key) {
            Some(flows[key])
        } else if flows.dom().contains(flipped(key)) {
            Some(flows[flipped(key)])
        } else {
            None
        }
    }

    /// Whether a TCP packet can be taken: its data still fits.
    pub open spec fn takes_tcp(&self, key: NatKey, s: Seq<u8>) -> bool {
        match self.socket_of(key) {
            Some(t) => self.host_connections@.dom().contains(t.0) ==> takes_data(
                self.host_connections@[t.0]@,
                segment_of(s).payload,
            ),
            None => true,
        }
    }

    /// What a packet of a known flow does: the connection handles it.
    pub open spec fn packet_handled(
        &self,
        after: &Self,
        token: Token,
        t: SegmentView,
        r: Result<Demand, WriteError>,
        a: Answers,
    ) -> bool {
        let conns = self.host_connections@;
        let conn = conns[token.0];
        let step = packet_step(conn@, self.reverse_tcp_nat@[token.0], t, token, a);
        let removals = if step.removes {
            self.connections_to_remove@.push(token)
        } else {
            self.connections_to_remove@
        };
        let left = after.host_connections@[token.0];
        &&& after.same_tables(self)
        &&& after.paused_reads@ == self.paused_reads@
        &&& after.to_vm_data_queue@ == self.to_vm_data_queue@
        &&& after.data_run_queue@ == self.data_run_queue@
        &&& if conns.dom().contains(token.0) {
            &&& answers_fit(conn@, t, a)
            &&& after.control() == self.control() + step.sends
            &&& after.connections_to_remove@ == removals
            &&& if step.place is KeptUnlessRemoved && !removals.contains(token) {
                &&& after.host_connections@ == conns.insert(token.0, left)
                &&& left@ == step.next
                &&& left.host().calls() == conn.host().calls() + step.calls
                &&& after.released@ == self.released@
            } else {
                &&& after.host_connections@ == conns.remove(token.0)
                &&& one_released(
                    self.released@,
                    after.released@,
                    conn.host().calls() + step.calls,
                )
            }
            &&& if step.fails {
                r matches Err(WriteError::Internal(_))
            } else {
                r matches Ok(Demand::Nothing)
            }
        } else {
            &&& after.control() == self.control()
            &&& after.connections_to_remove@ == self.connections_to_remove@
            &&& after.host_connections@ == conns
            &&& after.released@ == self.released@
            &&& r matches Ok(Demand::Nothing)
        }
    }

    /// Whether a token is among those to be removed.
    fn to_be_removed(&self, token: Token) -> (r: bool)
        ensures
            r == self.connections_to_remove@.contains(token),
    {
        let mut i: usize = 0;
        while i < self.connections_to_remove.len()
            invariant
                i <= self.connections_to_remove@.len(),
                forall|j: int| 0 <= j < i ==> (#[trigger] self.connections_to_remove@[j]) != token,
            decreases self.connections_to_remove@.len() - i,
        {
            if self.connections_to_remove[i] == token {
                return true;
            }
            i = i + 1;
        }
        false
    }

    /// Handles a packet of a known flow.
    fn handle_known(&mut self, token: Token, tcp_packet: &TcpSegment) -> (r: (
        Result<Demand, WriteError>,
        Ghost<Answers>,
    ))
        requires
            old(self).wf(),
            old(self).host_connections@.dom().contains(token.0) ==> takes_data(
                old(self).host_connections@[token.0]@,
                tcp_packet@.payload,
            ),
        ensures
            final(self).wf(),
            old(self).packet_handled(final(self), token, tcp_packet@, r.0, r.1@),
    {
        let ghost before = *self;
        match self.host_connections.remove(&token.0) {
            None => {
                assert(self.host_connections@ =~= before.host_connections@);
                (Ok(Demand::Nothing), Ghost(no_answers()))
            },
            Some(conn) => {
                assert(before.host_connections@.dom().contains(token.0));
                let key: NatKey = match self.reverse_tcp_nat.get(&token.0) {
                    Some(k) => *k,
                    None => (IpAddr::V4(proxy_ip()), 0, IpAddr::V4(proxy_ip()), 0),
                };
                let (taken, Ghost(answers)) = take_packet(
                    conn,
                    token,
                    key,
                    tcp_packet,
                    &mut self.packet_buf,
                );
                let ghost sends = taken.sends();
                match taken.send {
                    Some(p) => {
                        self.to_vm_control_queue.push_back(p);
                    },
                    None => {},
                }
                assert(self.control() =~= before.control() + sends);
                if taken.removes {
                    self.connections_to_remove.push(token);
                }
                let ghost left = taken.conn;
                if taken.keeps && !self.to_be_removed(token) {
                    let _ = self.host_connections.insert(token.0, taken.conn);
                    assert(self.host_connections@ =~= before.host_connections@.insert(
                        token.0,
                        left,
                    ));
                } else {
                    self.released.push(taken.conn.into_stream());
                }
                match taken.error {
                    Some(e) => (Err(WriteError::Internal(e)), Ghost(answers)),
                    None => (Ok(Demand::Nothing), Ghost(answers)),
                }
            },
        }
    }

    /// What a TCP packet from the machine comes to.
    pub open spec fn tcp_result(
        &self,
        after: &Self,
        src_addr: IpAddr,
        dst_addr: IpAddr,
        s: Seq<u8>,
        r: Result<Demand, WriteError>,
    ) -> bool {
        let key = flow_of(src_addr, dst_addr, s);
        let t = segment_of(s);
        match self.socket_of(key) {
            Some(token) => exists|a: Answers| #[trigger]
                self.packet_handled(after, token, t, r, a),
            None => {
                &&& after.unchanged(self)
                &&& if t.flags & SYN != 0 {
                    r matches Ok(Demand::Connect { nat_key, sequence }) && nat_key == key
                        && sequence == t.sequence
                } else {
                    r matches Ok(Demand::Nothing)
                }
            },
        }
    }

    /// Handles a TCP packet from the machine.
    pub fn handle_tcp_packet(
        &mut self,
        src_addr: IpAddr,
        dst_addr: IpAddr,
        tcp_packet: &TcpSegment,
        raw: &[u8],
    ) -> (r: Result<Demand, WriteError>)
        requires
            old(self).wf(),
            raw@.len() >= 20,
            tcp_packet@ == segment_of(raw@),
            old(self).takes_tcp(flow_of(src_addr, dst_addr, raw@), raw@),
        ensures
            final(self).wf(),
            old(self).tcp_result(final(self), src_addr, dst_addr, raw@, r),
    {
        let nat_key: NatKey = (src_addr, tcp_packet.source, dst_addr, tcp_packet.destination);
        let token = match self.tcp_nat_table.get(&nat_key) {
            Some(t) => Some(t),
            None => self.tcp_nat_table.get(&flip_key(nat_key)),
        };
        match token {
            Some(t) => {
                let (r, Ghost(a)) = self.handle_known(t, tcp_packet);
                assert(old(self).packet_handled(self, t, tcp_packet@, r, a));
                r
            },
            None => {
                if (tcp_packet.flags & SYN) != 0 {
                    Ok(Demand::Connect { nat_key, sequence: tcp_packet.sequence })
                } else {
                    Ok(Demand::Nothing)
                }
            },
        }
    }

    /// What a UDP packet from the machine comes to: it is to be sent over the socket of its
    /// flow, which gets a handle where it has none.
    pub open spec fn udp_result(
        &self,
        after: &Self,
        key: NatKey,
        data: Seq<u8>,
        r: Result<Demand, WriteError>,
    ) -> bool {
        let known = self.udp@.flows.dom().contains(key);
        let fresh = Token(self.next_token);
        let routes = NetProxy {
            next_token: if known {
                self.next_token
            } else {
                (self.next_token + 1) as usize
            },
            udp: after.udp,
            ..*self
        };
        &&& r matches Ok(Demand::SendUdp { token, nat_key, payload, open }) && token
            == after.udp@.flows[key] && nat_key == key && payload@ == data && open == !known
        &&& after.udp@ == routed(self.udp@, key, fresh)
        &&& after.unchanged(&routes)
    }

    /// Handles a UDP packet from the machine.
    pub fn handle_udp_packet(
        &mut self,
        src_addr: IpAddr,
        dst_addr: IpAddr,
        udp_packet: UdpDatagram,
    ) -> (r: Result<Demand, WriteError>)
        requires
            old(self).wf(),
            old(self).next_token < usize::MAX,
        ensures
            final(self).wf(),
            old(self).udp_result(
                final(self),
                (src_addr, udp_packet.source, dst_addr, udp_packet.destination),
                udp_packet.payload@,
                r,
            ),
    {
        let key: NatKey = (src_addr, udp_packet.source, dst_addr, udp_packet.destination);
        let (token, open) = self.udp.route(key, Token(self.next_token));
        if open {
            self.next_token = self.next_token + 1;
        }
        Ok(Demand::SendUdp { token, nat_key: key, payload: udp_packet.payload, open })
    }

    /// Notes that the socket of a UDP flow has been opened and connected.
    pub fn udp_opened(&mut self, token: Token, nat_key: NatKey, now: Instant)
        requires
            old(self).wf(),
            old(self).udp@.flows.dom().contains(nat_key),
            old(self).udp@.flows[nat_key] == token,
        ensures
            final(self).wf(),
            final(self).udp@ == opened(old(self).udp@, token, nat_key, now),
            *final(self) == (NetProxy { udp: final(self).udp, ..*old(self) }),
    {
        self.udp.opened(token, nat_key, now);
    }

    /// Notes that a datagram was sent over a UDP socket.
    pub fn udp_sent(&mut self, token: Token, now: Instant)
        requires
            old(self).wf(),
        ensures
            final(self).wf(),
            final(self).udp@ == used(old(self).udp@, token, now),
            *final(self) == (NetProxy { udp: final(self).udp, ..*old(self) }),
    {
        self.udp.used(token, now);
    }

    /// What an ARP packet from the machine comes to: a request for the proxy's address is
    /// answered, and anything else is not.
    pub open spec fn arp_result(
        &self,
        after: &Self,
        a: ArpPacket,
        r: Result<Demand, WriteError>,
    ) -> bool {
        let answered = NetProxy {
            to_vm_control_queue: after.to_vm_control_queue,
            packet_buf: after.packet_buf,
            ..*self
        };
        if asks_for_proxy(a) {
            &&& r matches Ok(Demand::Nothing)
            &&& after.control() == self.control().push(
                arp_reply_frame(a, proxy_mac(), proxy_ip()),
            )
            &&& after.unchanged(&answered)
        } else {
            &&& r matches Err(WriteError::NothingWritten)
            &&& after.unchanged(self)
        }
    }

    /// What a frame from the machine comes to.
    pub open spec fn frame_result(
        &self,
        after: &Self,
        f: FrameView,
        r: Result<Demand, WriteError>,
    ) -> bool {
        match f {
            FrameView::Unreadable => r matches Err(WriteError::NothingWritten)
                && after.unchanged(self),
            FrameView::Arp(a) => self.arp_result(after, a, r),
            FrameView::Tcp(src, dst, s) => self.tcp_result(after, src, dst, s, r),
            FrameView::Udp(src, dst, s) => self.udp_result(
                after,
                flow_of(src, dst, s),
                s.skip(8),
                r,
            ),
            FrameView::Other => r matches Ok(Demand::Nothing) && after.unchanged(self),
        }
    }

    /// Whether a frame can be taken.
    pub open spec fn takes(&self, f: FrameView) -> bool {
        match f {
            FrameView::Arp(a) => asks_for_proxy(a) ==> a.length == 28,
            FrameView::Tcp(src, dst, s) => self.takes_tcp(flow_of(src, dst, s), s),
            FrameView::Udp(..) => self.next_token < usize::MAX,
            _ => true,
        }
    }

    /// Handles an ARP packet from the machine.
    pub fn handle_arp_packet(&mut self, arp_payload: &[u8]) -> (r: Result<Demand, WriteError>)
        requires
            old(self).wf(),
            old(self).takes(arp_frame(arp_payload@)),
        ensures
            final(self).wf(),
            old(self).frame_result(final(self), arp_frame(arp_payload@), r),
    {
        let ghost before = *self;
        if let Some(arp) = parse_arp(arp_payload) {
            if arp.operation == ARP_REQUEST && arp.target_proto_addr == proxy_ip() {
                let reply = build_arp_reply(&mut self.packet_buf, &arp);
                self.to_vm_control_queue.push_back(reply);
                assert(self.control() =~= before.control().push(bytes_view(reply)));
                return Ok(Demand::Nothing);
            }
        }
        Err(WriteError::NothingWritten)
    }

    /// Handles an IP packet from the machine.
    pub fn handle_ip_packet(&mut self, ip_payload: &[u8]) -> (r: Result<Demand, WriteError>)
        requires
            old(self).wf(),
            old(self).takes(ip_frame(ip_payload@)),
        ensures
            final(self).wf(),
            old(self).frame_result(final(self), ip_frame(ip_payload@), r),
    {
        let ip = match parse_ipv4(ip_payload) {
            Some(p) => p,
            None => {
                return Err(WriteError::NothingWritten);
            },
        };
        let src = IpAddr::V4(ip.source);
        let dst = IpAddr::V4(ip.destination);
        let payload: &[u8] = ip.payload.as_slice();
        if ip.next_level_protocol == PROTOCOL_TCP {
            match parse_tcp(payload) {
                Some(tcp) => {
                    assert(tcp@ == segment_of(payload@));
                    self.handle_tcp_packet(src, dst, &tcp, payload)
                },
                None => Err(WriteError::NothingWritten),
            }
        } else if ip.next_level_protocol == PROTOCOL_UDP {
            match parse_udp(payload) {
                Some(udp) => self.handle_udp_packet(src, dst, udp),
                None => Err(WriteError::NothingWritten),
            }
        } else {
            Ok(Demand::Nothing)
        }
    }

    /// Handles a raw Ethernet frame from the machine.
    pub fn handle_packet_from_vm(&mut self, raw_packet: &[u8]) -> (r: Result<Demand, WriteError>)
        requires
            old(self).wf(),
            old(self).takes(frame_view(raw_packet@)),
        ensures
            final(self).wf(),
            old(self).frame_result(final(self), frame_view(raw_packet@), r),
    {
        match parse_ethernet(raw_packet) {
            Some(eth) => {
                if eth.ethertype == ETHERTYPE_IPV4 || eth.ethertype == ETHERTYPE_IPV6 {
                    self.handle_ip_packet(eth.payload.as_slice())
                } else if eth.ethertype == ETHERTYPE_ARP {
                    self.handle_arp_packet(eth.payload.as_slice())
                } else {
                    Ok(Demand::Nothing)
                }
            },
            None => Err(WriteError::NothingWritten),
        }
    }
}

} // verus!
