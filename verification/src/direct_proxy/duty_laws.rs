//! What the proxy owes the machine and the host, frame by frame and event by event.
use vstd::prelude::*;

use crate::addr::{Instant, Interest, IpAddr, Ipv4Addr, MacAddr, NatKey, Token};
use crate::backend::WriteError;
use crate::buffer::{flat, flat_drop_bytes};
use crate::direct_proxy::events::{
    established_event, event_step, io_fits, queue_chunks, written_off, EventIo,
};
use crate::direct_proxy::packets::{
    frame_view, packet_step, Answers, Demand, FrameView, PacketIo,
};
use crate::direct_proxy::{ConnView, Flow, NetProxy, Phase};
use crate::frame_laws::{
    ethernet_reads, tcp_frame_reads_back, tcp_reads, udp_frame_reads_back, udp_reads,
};
use crate::host::{
    deregistered, drain_run, sent, write_run_sends, HostCall, ReadView, TracedStream, WriteEnd, WriteView,
    DRAIN_LIMIT,
};
use crate::packet_utils::{
    arp_reply_frame, ip_view, ipv4_view, same_family, tcp_frame_window, udp_frame,
};
use crate::proxy::duty_laws::let_go_of;
use crate::proxy::events::{carried_by, leaving};
use crate::proxy::laws::removal_releases_every_stream;
use crate::proxy::packets::{flow_of, segment_of};
use crate::seqnum::low32;
use crate::tcp_fsm::model::{first_chunk, SegmentView};
use crate::tcp_laws::number_at;
use crate::vm_frames::{vm_ack, vm_datagram, vm_frame};
use crate::wire::{arp_of, tcp_payload, u16_at, u32_at, ArpPacket};

verus! {

// --- Opening ---

/// A connection that the machine asked for is answered as soon as the host has accepted it, by
/// one SYN with ACK; from then on the machine is sent numbers from behind that SYN, and the data
/// that the host took at once waits no longer. The stream is watched for reading, and for
/// writing too where the host could not take all. Until then nothing is sent.
pub proof fn accepted_connection_opens(
    f: Flow,
    key: NatKey,
    token: Token,
    is_readable: bool,
    paused: bool,
    io: EventIo,
    t: SegmentView,
    a: Answers,
)
    requires
        io_fits(ConnView { phase: Phase::EgressConnecting, flow: f }, is_readable, true, io),
    ensures
        ({
            let v = ConnView { phase: Phase::EgressConnecting, flow: f };
            let step = event_step(v, key, token, is_readable, true, paused, io);
            let early = event_step(v, key, token, is_readable, false, paused, io);
            let closed = io.end == WriteEnd::Closed || io.end == WriteEnd::Failed;
            &&& step.sends == seq![vm_frame(key, f.tx_seq, f.tx_ack, Seq::empty(), 0x12, 0xffff)]
            &&& step.next.flow.tx_seq == number_at(f.tx_seq, 1)
            &&& step.next.flow.tx_ack == f.tx_ack
            &&& step.next.flow.to_vm_buffer.len() == 0
            &&& flat(step.next.flow.write_buffer) == flat(f.write_buffer).skip(
                sent(io.writes).len() as int,
            )
            &&& !closed ==> {
                &&& step.next.phase is Established
                &&& step.calls.last() == HostCall::Reregister {
                    token,
                    interest: if io.end == WriteEnd::WouldBlock {
                        Interest::Both
                    } else {
                        Interest::Readable
                    },
                    came: io.came,
                }
            }
            &&& closed ==> step.next.phase is Closing && step.calls.last() is ShutdownWrite
            &&& !step.removes
            &&& early.next == v && early.sends.len() == 0 && early.calls.len() == 0
            &&& packet_step(v, key, t, token, a).next == v
            &&& packet_step(v, key, t, token, a).sends.len() == 0
        }),
{
    write_run_sends(f.write_buffer, io.writes, io.written as int, io.end);
    flat_drop_bytes(f.write_buffer, io.written);
}

/// A connection into the machine opens with the machine's SYN with ACK: it is acknowledged, and
/// the stream is watched for reading. Nothing else opens it.
pub proof fn answered_connection_opens(
    f: Flow,
    key: NatKey,
    t: SegmentView,
    token: Token,
    a: Answers,
)
    ensures
        ({
            let v = ConnView { phase: Phase::IngressConnecting, flow: f };
            let step = packet_step(v, key, t, token, a);
            let answers = t.flags & 0x12 == 0x12;
            &&& answers && a.registered is Done ==> {
                &&& step.next == ConnView {
                    phase: Phase::Established,
                    flow: Flow { tx_ack: number_at(t.sequence, 1), ..f },
                }
                &&& step.sends == seq![vm_ack(key, f.tx_seq, number_at(t.sequence, 1))]
                &&& !step.fails && !step.removes
            }
            &&& answers ==> step.calls == seq![
                HostCall::Reregister {
                    token,
                    interest: Interest::Readable,
                    came: a.registered,
                },
            ]
            &&& answers && !(a.registered is Done) ==> step.fails && step.sends.len() == 0
            &&& !answers ==> step.next == v && step.sends.len() == 0 && step.calls.len() == 0
                && !step.fails && !step.removes
        }),
{
}

/// A connection that was asked for gets the next number and starts behind the machine's SYN,
/// with nothing under way; its stream is watched in both directions.
pub proof fn new_connection_starts_empty<H: TracedStream>(
    p: &NetProxy<H>,
    after: &NetProxy<H>,
    stream: H,
    nat_key: NatKey,
    vm_sequence: u32,
    tx_seq: u32,
    token: Token,
    ok: bool,
)
    requires
        p.egress_added(after, stream, nat_key, vm_sequence, tx_seq, token, ok),
    ensures
        token == Token(p.next_token),
        after.next_token == p.next_token + 1,
        after.tcp_nat_table@.dom().contains(nat_key),
        after.tcp_nat_table@[nat_key] == token,
        after.reverse_tcp_nat@[token.0] == nat_key,
        after.host_connections@.dom().contains(token.0),
        after.host_connections@[token.0]@.phase is EgressConnecting,
        after.host_connections@[token.0]@.flow.tx_seq == tx_seq,
        after.host_connections@[token.0]@.flow.tx_ack == number_at(vm_sequence, 1),
        after.host_connections@[token.0]@.flow.write_buffer.len() == 0,
        after.host_connections@[token.0]@.flow.to_vm_buffer.len() == 0,
        after.host_connections@[token.0].host().calls() == stream.calls().push(
            HostCall::Register { token, interest: Interest::Both, ok },
        ),
        after.control() == p.control(),
{
}

/// An accepted stream starts a connection into the machine: it gets the next number and a port
/// of the proxy's from the upper half, it is watched in both directions, and the machine is sent
/// one SYN. A stream that cannot be registered comes back and leaves nothing behind.
pub proof fn accepted_stream_is_announced<H: TracedStream>(
    p: &NetProxy<H>,
    after: &NetProxy<H>,
    listener: Token,
    stream: H,
    any_port: u16,
    initial_seq: u32,
    refused: Option<H>,
)
    requires
        p.ingress_started(after, listener, stream, any_port, initial_seq, refused),
        p.next_token < usize::MAX,
    ensures
        ({
            let t = p.next_token;
            let port = (32768 + any_port % 32768) as u16;
            let key = (
                IpAddr::V4(Ipv4Addr(192, 168, 100, 1)),
                port,
                IpAddr::V4(Ipv4Addr(192, 168, 100, 2)),
                p.unix_listeners@[listener.0],
            );
            let call = |ok: bool|
                HostCall::Register { token: Token(t), interest: Interest::Both, ok };
            &&& after.next_token == t + 1
            &&& refused is None ==> {
                &&& after.tcp_nat_table@.dom().contains(key)
                &&& after.tcp_nat_table@[key] == Token(t)
                &&& after.reverse_tcp_nat@[t] == key
                &&& after.host_connections@.dom().contains(t)
                &&& after.host_connections@[t]@.phase is IngressConnecting
                &&& after.host_connections@[t]@.flow.tx_seq == number_at(initial_seq, 1)
                &&& after.host_connections@[t]@.flow.write_buffer.len() == 0
                &&& after.host_connections@[t]@.flow.to_vm_buffer.len() == 0
                &&& after.host_connections@[t].host().calls() == stream.calls().push(call(true))
                &&& after.control() == p.control().push(
                    vm_frame(key, initial_seq, 0, Seq::empty(), 0x02, 0xffff),
                )
            }
            &&& refused matches Some(back) ==> {
                &&& back.calls() == stream.calls().push(call(false))
                &&& after.tcp_nat_table@ == p.tcp_nat_table@
                &&& after.host_connections@ == p.host_connections@
                &&& after.control() == p.control()
            }
        }),
{
}

// --- Data from the machine ---

/// A packet in turn while data flows. Its data is offered to the host at once where nothing
/// waits for it, else it waits behind what waits already; what the host does not take waits, and
/// the stream is then watched in both directions. Data, a FIN or a bare acknowledgement is
/// acknowledged with all that came before it. A reset removes the connection, and so does a host
/// that cannot be written to.
#[verifier::rlimit(60)]
pub proof fn packet_in_turn_is_taken(
    f: Flow,
    key: NatKey,
    t: SegmentView,
    token: Token,
    a: Answers,
)
    requires
        t.sequence == f.tx_ack,
        a.took matches WriteView::Wrote(n) ==> n <= t.payload.len(),
    ensures
        ({
            let step = packet_step(ConnView { phase: Phase::Established, flow: f }, key, t, token, a);
            let fin = t.flags & 0x01 != 0;
            let offers = t.payload.len() > 0 && f.write_buffer.len() == 0;
            let refused = offers && a.took is Failed;
            let left: Seq<u8> = match a.took {
                WriteView::Wrote(n) => t.payload.skip(n as int),
                _ => t.payload,
            };
            let held_up = offers && !refused && left.len() > 0;
            let lost = held_up && !(a.registered is Done);
            let end = number_at(t.sequence, t.payload.len() + (if fin {
                1int
            } else {
                0int
            }));
            &&& t.flags & 0x04 != 0 ==> step.removes && step.sends.len() == 0
                && step.calls.len() == 0
            &&& t.flags & 0x04 == 0 ==> {
                &&& step.fails <==> lost
                &&& step.removes <==> refused
                &&& offers ==> step.calls.len() > 0 && step.calls[0] == HostCall::Write {
                    data: t.payload,
                    took: a.took,
                }
                &&& !offers ==> forall|i: int|
                    0 <= i < step.calls.len() ==> !((#[trigger] step.calls[i]) is Write)
                &&& held_up ==> step.calls.len() > 1 && step.calls[1] == HostCall::Reregister {
                    token,
                    interest: Interest::Both,
                    came: a.registered,
                }
                &&& !lost ==> {
                    &&& step.next.phase is Closing <==> fin
                    &&& step.next.phase is Established <==> !fin
                    &&& fin ==> step.calls.len() > 0 && step.calls.last() is ShutdownWrite
                    &&& step.next.flow.tx_seq == f.tx_seq
                    &&& step.next.flow.to_vm_buffer == f.to_vm_buffer
                    &&& !refused && t.payload.len() > 0 ==> step.next.flow.write_buffer == if offers
                        && left.len() == 0 {
                        f.write_buffer
                    } else if offers {
                        f.write_buffer.push(left)
                    } else {
                        f.write_buffer.push(t.payload)
                    }
                    &&& !refused ==> step.next.flow.tx_ack == end
                    &&& !refused && (t.payload.len() > 0 || fin || t.flags & 0x07 == 0)
                        ==> step.sends == seq![vm_ack(key, f.tx_seq, end)]
                }
            }
        }),
{
    let n = low32(t.payload.len());
    assert(t.sequence.wrapping_add(n) == number_at(t.sequence, t.payload.len() as int));
    assert(t.sequence.wrapping_add(n).wrapping_add(1) == number_at(
        t.sequence,
        t.payload.len() + 1int,
    ));
    assert(t.sequence.wrapping_add(1) == number_at(t.sequence, 1));
    assert(number_at(t.sequence, 0) == t.sequence);
    if let WriteView::Wrote(n) = a.took {
        assert(t.payload.skip(n as int).len() == t.payload.len() - n);
    }
}

/// A connection that is closing is removed by the acknowledgement of its FIN, acknowledges the
/// machine's FIN, and answers nothing else.
pub proof fn closing_connection_answers(
    f: Flow,
    key: NatKey,
    t: SegmentView,
    token: Token,
    a: Answers,
)
    ensures
        ({
            let v = ConnView { phase: Phase::Closing, flow: f };
            let step = packet_step(v, key, t, token, a);
            let acks = t.flags & 0x10 != 0 && t.acknowledgement == f.tx_seq;
            let ends = t.flags & 0x01 != 0;
            &&& step.removes <==> acks
            &&& !acks && ends ==> {
                &&& step.next.flow == Flow { tx_ack: number_at(t.sequence, 1), ..f }
                &&& step.sends == seq![vm_ack(key, f.tx_seq, number_at(t.sequence, 1))]
            }
            &&& acks || !ends ==> step.next == v && step.sends.len() == 0
            &&& step.next.phase is Closing
            &&& step.calls.len() == 0
        }),
{
}

/// A packet of a paused connection has reading resumed: the connection counts as paused no
/// more, and its stream is registered anew, for writing too where something waits for the host.
pub proof fn packet_resumes_reading<H: TracedStream>(
    p: &NetProxy<H>,
    after: &NetProxy<H>,
    token: Token,
    t: SegmentView,
    r: Result<Demand, WriteError>,
    io: PacketIo,
)
    requires
        p.packet_handled(after, token, t, r, io),
        p.paused_reads@.contains(token.0),
        p.host_connections@.dom().contains(token.0),
        after.host_connections@.dom().contains(token.0),
    ensures
        !after.paused_reads@.contains(token.0),
        forall|u: usize| u != token.0 ==> (#[trigger] after.paused_reads@.contains(u)
            <==> p.paused_reads@.contains(u)),
        ({
            let conn = p.host_connections@[token.0];
            let n = conn.host().calls().len() as int;
            let calls = after.host_connections@[token.0].host().calls();
            let interest = if conn@.flow.write_buffer.len() > 0 {
                Interest::Both
            } else {
                Interest::Readable
            };
            &&& calls.len() > n
            &&& calls[n] == HostCall::Reregister { token, interest, came: io.came }
            &&& io.came is Unregistered ==> calls.len() > n + 1 && calls[n + 1]
                == HostCall::Register { token, interest, ok: io.anew }
        }),
{
}

// --- Data from the host ---

/// The frame that carries the `i`th 1460 bytes of what was read, or what is left of it.
pub open spec fn piece_at(key: NatKey, tx_seq: u32, tx_ack: u32, data: Seq<u8>, i: int) -> Seq<u8> {
    let off = 1460 * i;
    let end = if off + 1460 <= data.len() {
        off + 1460
    } else {
        data.len() as int
    };
    vm_frame(key, number_at(tx_seq, off), tx_ack, data.subrange(off, end), 0x18, 0xffff)
}

/// The frames that carry what was read, gapless and in order.
pub open spec fn pieces_of(key: NatKey, tx_seq: u32, tx_ack: u32, data: Seq<u8>) -> Seq<Seq<u8>> {
    Seq::new(
        ((data.len() + 1459) / 1460) as nat,
        |i: int| piece_at(key, tx_seq, tx_ack, data, i),
    )
}

/// The pieces behind the first are the pieces of what is left behind it.
proof fn later_piece(key: NatKey, tx_seq: u32, tx_ack: u32, data: Seq<u8>, i: int)
    requires
        data.len() >= 1460,
        0 <= i,
        1460 * i < data.len() - 1460,
    ensures
        piece_at(key, number_at(tx_seq, 1460), tx_ack, data.skip(1460), i) == piece_at(
            key,
            tx_seq,
            tx_ack,
            data,
            i + 1,
        ),
{
    let rest = data.skip(1460);
    let off = 1460 * i;
    let end = if off + 1460 <= rest.len() {
        off + 1460
    } else {
        rest.len() as int
    };
    assert(rest.subrange(off, end) =~= data.subrange(off + 1460, end + 1460));
    assert(number_at(number_at(tx_seq, 1460), off) == number_at(tx_seq, off + 1460));
}

/// What was read is cut into pieces, gapless and in order.
pub proof fn read_data_is_cut_up(f: Flow, key: NatKey, data: Seq<u8>)
    ensures
        queue_chunks(f, key, data) == (Flow {
            to_vm_buffer: f.to_vm_buffer + pieces_of(key, f.tx_seq, f.tx_ack, data),
            tx_seq: number_at(f.tx_seq, data.len() as int),
            ..f
        }),
    decreases data.len(),
{
    let q = pieces_of(key, f.tx_seq, f.tx_ack, data);
    if data.len() == 0 {
        assert(q =~= Seq::<Seq<u8>>::empty());
        assert(f.to_vm_buffer + q =~= f.to_vm_buffer);
        assert(number_at(f.tx_seq, 0) == f.tx_seq);
    } else {
        let chunk = first_chunk(data);
        let len = chunk.len() as int;
        let frame = vm_frame(key, f.tx_seq, f.tx_ack, chunk, 0x18, 0xffff);
        let next = Flow {
            to_vm_buffer: f.to_vm_buffer.push(frame),
            tx_seq: f.tx_seq.wrapping_add(chunk.len() as u32),
            ..f
        };
        let rest = data.skip(len);
        let tail = pieces_of(key, next.tx_seq, f.tx_ack, rest);
        read_data_is_cut_up(next, key, rest);
        assert(chunk =~= data.subrange(0, len));
        assert(number_at(f.tx_seq, 0) == f.tx_seq);
        assert(q[0] == frame);
        assert(next.tx_seq == number_at(f.tx_seq, len));
        assert(number_at(next.tx_seq, rest.len() as int) == number_at(
            f.tx_seq,
            data.len() as int,
        ));
        assert(q.len() == tail.len() + 1);
        assert forall|i: int| 0 <= i < tail.len() implies #[trigger] tail[i] == q[i + 1] by {
            assert(len == 1460);
            later_piece(key, f.tx_seq, f.tx_ack, data, i);
        }
        assert(next.to_vm_buffer + tail =~= f.to_vm_buffer + q);
    }
}

/// What an event of the host does while data flows. Where the host is readable and the
/// connection is not paused, up to 16384 bytes are read once; they are queued for the machine
/// in packets of 1460 bytes, the last one shorter, gapless and in order. Where it is writable,
/// what waits is offered first, and what the host took waits no longer.
#[verifier::rlimit(60)]
pub proof fn event_moves_data(
    f: Flow,
    key: NatKey,
    token: Token,
    is_readable: bool,
    is_writable: bool,
    paused: bool,
    io: EventIo,
)
    requires
        io_fits(ConnView { phase: Phase::Established, flow: f }, is_readable, is_writable, io),
    ensures
        ({
            let step = event_step(
                ConnView { phase: Phase::Established, flow: f },
                key,
                token,
                is_readable,
                is_writable,
                paused,
                io,
            );
            let reads = is_readable && !paused;
            let data: Seq<u8> = match io.got {
                ReadView::Data(d) => if reads {
                    d
                } else {
                    Seq::empty()
                },
                _ => Seq::empty(),
            };
            let w = step.next.flow;
            let wrote: Seq<HostCall> = if is_writable {
                io.writes
            } else {
                Seq::empty()
            };
            &&& w.to_vm_buffer == f.to_vm_buffer + pieces_of(key, f.tx_seq, f.tx_ack, data)
            &&& w.tx_ack == f.tx_ack
            &&& flat(w.write_buffer) == flat(f.write_buffer).skip(sent(wrote).len() as int)
            &&& reads ==> step.calls.len() > wrote.len() && step.calls[wrote.len() as int]
                == HostCall::Read { max: 16384, got: io.got }
            &&& !reads ==> forall|i: int|
                wrote.len() <= i < step.calls.len() ==> !((#[trigger] step.calls[i]) is Read)
            &&& step.calls.take(wrote.len() as int) == wrote
        }),
{
    let wrote = if is_writable {
        written_off(f, io.written)
    } else {
        f
    };
    if is_writable {
        write_run_sends(f.write_buffer, io.writes, io.written as int, io.end);
        flat_drop_bytes(f.write_buffer, io.written);
    } else {
        assert(flat(f.write_buffer).skip(0) =~= flat(f.write_buffer));
    }
    let step = established_event(f, key, token, is_readable, is_writable, paused, io);
    let q: Seq<HostCall> = if is_writable {
        io.writes
    } else {
        Seq::empty()
    };
    assert(step.calls.take(q.len() as int) =~= q);
    match io.got {
        ReadView::Data(d) => {
            read_data_is_cut_up(wrote, key, d);
        },
        _ => {},
    }
    let none = pieces_of(key, f.tx_seq, f.tx_ack, Seq::empty());
    assert(f.to_vm_buffer + none =~= f.to_vm_buffer);
}

/// How an event of the host ends while data flows. A host that was reset has the machine sent a
/// reset and the connection removed. A host that is at its end, failed or turns out to be closed
/// has the machine sent a FIN, behind all data, and its stream told that no more comes. Else the
/// stream is watched for reading unless 32 packets wait for the machine, and for writing while
/// something waits for the host, and a stream that is to be watched for neither is unregistered.
#[verifier::rlimit(60)]
pub proof fn event_settles(
    f: Flow,
    key: NatKey,
    token: Token,
    is_readable: bool,
    is_writable: bool,
    paused: bool,
    io: EventIo,
)
    ensures
        ({
            let step = event_step(
                ConnView { phase: Phase::Established, flow: f },
                key,
                token,
                is_readable,
                is_writable,
                paused,
                io,
            );
            let reads = is_readable && !paused;
            let reset = reads && io.got is Reset;
            let ended = (is_writable && (io.end == WriteEnd::Closed || io.end == WriteEnd::Failed))
                || (reads && (io.got is Failed || io.got == ReadView::Data(Seq::empty())));
            let w = step.next.flow;
            let full = paused || w.to_vm_buffer.len() >= 32;
            let writes = w.write_buffer.len() > 0;
            &&& step.removes <==> reset
            &&& reset ==> step.sends == seq![
                vm_frame(key, f.tx_seq, f.tx_ack, Seq::empty(), 0x14, 0xffff),
            ]
            &&& !reset && ended ==> {
                &&& step.next.phase is Closing
                &&& step.sends.len() == 1
                &&& exists|n: int|
                    {
                        let last = #[trigger] number_at(f.tx_seq, n);
                        &&& step.sends[0] == vm_frame(
                            key,
                            last,
                            f.tx_ack,
                            Seq::empty(),
                            0x11,
                            0xffff,
                        )
                        &&& w.tx_seq == number_at(last, 1)
                        &&& n == 0 || (io.got matches ReadView::Data(d) && n == d.len())
                    }
                &&& step.calls.last() == HostCall::ShutdownWrite { ok: io.shut }
            }
            &&& !reset && !ended ==> {
                &&& step.next.phase is Established
                &&& step.sends.len() == 0
                &&& step.paused <==> full
                &&& step.calls.last() == if full && !writes {
                    HostCall::Deregister { ok: io.freed }
                } else {
                    HostCall::Reregister {
                        token,
                        interest: if full {
                            Interest::Writable
                        } else if writes {
                            Interest::Both
                        } else {
                            Interest::Readable
                        },
                        came: io.came,
                    }
                }
            }
            &&& !step.fails
        }),
{
    let wrote = if is_writable {
        written_off(f, io.written)
    } else {
        f
    };
    assert(number_at(f.tx_seq, 0) == f.tx_seq);
    match io.got {
        ReadView::Data(d) => {
            read_data_is_cut_up(wrote, key, d);
            if d.len() == 0 {
                assert(d =~= Seq::empty());
            }
            let last = number_at(f.tx_seq, d.len() as int);
        },
        _ => {},
    }
}

/// Whether a call is a read of up to so many bytes.
pub open spec fn reads_up_to(call: HostCall, n: nat) -> bool {
    match call {
        HostCall::Read { max, .. } => max == n,
        _ => false,
    }
}

/// Whether a read handed out data.
pub open spec fn hands_out(call: HostCall) -> bool {
    match call {
        HostCall::Read { got: ReadView::Data(d), .. } => d.len() > 0,
        _ => false,
    }
}

/// A run that drains a stream only reads, and stops where no more comes.
pub(crate) proof fn drain_reads(calls: Seq<HostCall>, max: nat, limit: nat)
    requires
        drain_run(calls, max, limit),
    ensures
        calls.len() <= limit,
        limit > 0 ==> calls.len() > 0,
        forall|i: int| 0 <= i < calls.len() ==> reads_up_to(#[trigger] calls[i], max),
        calls.len() < limit ==> calls.len() > 0 && !hands_out(calls.last()),
    decreases limit,
{
    if limit > 0 {
        let rest = calls.skip(1);
        if hands_out(calls[0]) {
            drain_reads(rest, max, (limit - 1) as nat);
            assert forall|i: int| 0 <= i < calls.len() implies reads_up_to(
                #[trigger] calls[i],
                max,
            ) by {
                if i > 0 {
                    assert(reads_up_to(rest[i - 1], max));
                }
            }
            if rest.len() > 0 {
                assert(rest.last() == calls.last());
            }
        }
    }
}

/// A stream that is closing is read from until it has no more, 16384 bytes at most each time.
pub proof fn closing_stream_is_drained(
    f: Flow,
    key: NatKey,
    token: Token,
    is_writable: bool,
    paused: bool,
    io: EventIo,
)
    requires
        io_fits(ConnView { phase: Phase::Closing, flow: f }, true, is_writable, io),
    ensures
        ({
            let v = ConnView { phase: Phase::Closing, flow: f };
            let step = event_step(v, key, token, true, is_writable, paused, io);
            &&& step.next == v
            &&& step.sends.len() == 0
            &&& step.calls.len() > 0
            &&& forall|i: int|
                0 <= i < step.calls.len() ==> reads_up_to(#[trigger] step.calls[i], 16384)
            &&& step.calls.len() < u64::MAX ==> !hands_out(step.calls.last())
        }),
{
    drain_reads(io.drain, 16384, DRAIN_LIMIT as nat);
}

// --- Frames from the machine ---

pub open spec fn host_mac() -> MacAddr {
    MacAddr(0x02, 0x00, 0x00, 0x01, 0x02, 0x03)
}

/// A frame is looked into by its type: IP packets by what they carry, ARP packets whole. What is
/// too short for its type is not read.
pub proof fn frames_are_told_apart(raw: Seq<u8>)
    ensures
        raw.len() < 14 ==> frame_view(raw) is Unreadable,
        raw.len() >= 14 ==> {
            let kind = u16_at(raw, 12);
            let body = raw.skip(14);
            let ip = ipv4_view(body);
            &&& kind == 0x0806 ==> frame_view(raw) == if body.len() >= 28 {
                FrameView::Arp(arp_of(body))
            } else {
                FrameView::Unreadable
            }
            &&& kind == 0x0800 || kind == 0x86dd ==> frame_view(raw) == if body.len() < 20 {
                FrameView::Unreadable
            } else if ip.protocol == 6 && ip.payload.len() >= 20 {
                FrameView::Tcp(ip.source, ip.destination, ip.payload)
            } else if ip.protocol == 17 && ip.payload.len() >= 8 {
                FrameView::Udp(ip.source, ip.destination, ip.payload)
            } else if ip.protocol == 6 || ip.protocol == 17 {
                FrameView::Unreadable
            } else {
                FrameView::Other
            }
            &&& kind != 0x0806 && kind != 0x0800 && kind != 0x86dd ==> frame_view(raw) is Other
        },
{
}

/// A TCP frame over IPv4, put together from its parts, is taken apart into the same parts.
pub proof fn tcp_frame_is_understood(
    key: NatKey,
    sequence: u32,
    acknowledgement: u32,
    payload: Seq<u8>,
    flags: u8,
    window: u16,
    src_mac: MacAddr,
    dst_mac: MacAddr,
)
    requires
        key.0 is V4,
        same_family(key),
        payload.len() <= 0xffff - 40,
    ensures
        ({
            let frame = tcp_frame_window(
                key,
                sequence,
                acknowledgement,
                payload,
                flags,
                window,
                src_mac,
                dst_mac,
            );
            &&& frame_view(frame) matches FrameView::Tcp(src, dst, s)
            &&& flow_of(src, dst, s) == key
            &&& segment_of(s) == SegmentView {
                source: key.1,
                destination: key.3,
                sequence,
                acknowledgement,
                flags,
                window,
                payload,
            }
        }),
{
    reveal(tcp_reads);
    reveal(ethernet_reads);
    reveal(ip_view);
    tcp_frame_reads_back(
        key,
        sequence,
        acknowledgement,
        payload,
        flags,
        window,
        src_mac,
        dst_mac,
    );
}

/// A UDP frame over IPv4, put together from its parts, is taken apart into the same parts.
pub proof fn udp_frame_is_understood(
    key: NatKey,
    payload: Seq<u8>,
    src_mac: MacAddr,
    dst_mac: MacAddr,
)
    requires
        key.0 is V4,
        same_family(key),
        payload.len() <= 0xffff - 28,
    ensures
        ({
            let frame = udp_frame(key, payload, src_mac, dst_mac);
            &&& frame_view(frame) matches FrameView::Udp(src, dst, s)
            &&& flow_of(src, dst, s) == key
            &&& s.skip(8) == payload
        }),
{
    reveal(udp_reads);
    reveal(ethernet_reads);
    reveal(ip_view);
    udp_frame_reads_back(key, payload, src_mac, dst_mac);
}

/// A TCP packet of a flow that is known in neither direction: a SYN asks the host for a
/// connection to where it goes, with the machine's number, and anything else is passed over.
pub proof fn unknown_flow_is_opened_or_ignored<H: TracedStream>(
    p: &NetProxy<H>,
    after: &NetProxy<H>,
    src: IpAddr,
    dst: IpAddr,
    s: Seq<u8>,
    r: Result<Demand, WriteError>,
)
    requires
        p.frame_result(after, FrameView::Tcp(src, dst, s), r),
        !p.tcp_nat_table@.dom().contains((src, u16_at(s, 0), dst, u16_at(s, 2))),
        !p.tcp_nat_table@.dom().contains((dst, u16_at(s, 2), src, u16_at(s, 0))),
    ensures
        s[13] & 0x02 != 0 ==> {
            &&& r matches Ok(Demand::Connect { nat_key, sequence })
            &&& nat_key == (src, u16_at(s, 0), dst, u16_at(s, 2))
            &&& sequence == u32_at(s, 4)
        },
        s[13] & 0x02 == 0 ==> r matches Ok(Demand::Nothing),
        after.control() == p.control(),
        after.host_connections@ == p.host_connections@,
        after.tcp_nat_table@ == p.tcp_nat_table@,
{
}

/// A TCP packet of a flow that is known, in whichever direction, goes to the connection of that
/// flow and to no other: what that connection sends is queued for the machine behind all else.
#[verifier::rlimit(60)]
pub proof fn known_flow_takes_its_packet<H: TracedStream>(
    p: &NetProxy<H>,
    after: &NetProxy<H>,
    src: IpAddr,
    dst: IpAddr,
    s: Seq<u8>,
    r: Result<Demand, WriteError>,
    key: NatKey,
)
    requires
        p.frame_result(after, FrameView::Tcp(src, dst, s), r),
        p.tcp_nat_table@.dom().contains(key),
        key == (src, u16_at(s, 0), dst, u16_at(s, 2)) || (key == (
            dst,
            u16_at(s, 2),
            src,
            u16_at(s, 0),
        ) && !p.tcp_nat_table@.dom().contains((src, u16_at(s, 0), dst, u16_at(s, 2)))),
        p.host_connections@.dom().contains(p.tcp_nat_table@[key].0),
    ensures
        ({
            let t = p.tcp_nat_table@[key].0;
            let said = SegmentView {
                source: u16_at(s, 0),
                destination: u16_at(s, 2),
                sequence: u32_at(s, 4),
                acknowledgement: u32_at(s, 8),
                flags: s[13],
                window: u16_at(s, 14),
                payload: tcp_payload(s),
            };
            &&& exists|a: Answers|
                {
                    let step = #[trigger] packet_step(
                        p.host_connections@[t]@,
                        p.reverse_tcp_nat@[t],
                        said,
                        Token(t),
                        a,
                    );
                    &&& after.control() == p.control() + step.sends
                    &&& after.host_connections@.dom().contains(t)
                        ==> after.host_connections@[t]@ == step.next
                    &&& step.removes ==> after.connections_to_remove@.contains(Token(t))
                    &&& r is Err <==> step.fails
                }
            &&& forall|u: usize| #[trigger]
                p.host_connections@.dom().contains(u) && u != t
                    ==> after.host_connections@.dom().contains(u) && after.host_connections@[u]
                    == p.host_connections@[u]
            &&& after.tcp_nat_table@ == p.tcp_nat_table@
        }),
{
    let t = p.tcp_nat_table@[key];
    let said = segment_of(s);
    let io = choose|io: PacketIo| #[trigger] p.packet_handled(after, t, said, r, io);
    assert(p.socket_of(flow_of(src, dst, s)) == Some(t));
    let step = packet_step(
        p.host_connections@[t.0]@,
        p.reverse_tcp_nat@[t.0],
        said,
        t,
        io.answers,
    );
    let pushed = p.connections_to_remove@.push(t);
    assert(pushed[p.connections_to_remove@.len() as int] == t);
}

/// An ARP packet is answered exactly where it is a request for the proxy's own address, by one
/// reply that gives the proxy's hardware address.
pub proof fn only_own_address_is_answered<H: TracedStream>(
    p: &NetProxy<H>,
    after: &NetProxy<H>,
    a: ArpPacket,
    r: Result<Demand, WriteError>,
)
    requires
        p.frame_result(after, FrameView::Arp(a), r),
    ensures
        ({
            let asked = a.operation == 1 && a.target_proto_addr == Ipv4Addr(192, 168, 100, 1);
            &&& asked ==> {
                &&& r matches Ok(Demand::Nothing)
                &&& after.control() == p.control().push(
                    arp_reply_frame(a, host_mac(), Ipv4Addr(192, 168, 100, 1)),
                )
            }
            &&& !asked ==> {
                &&& r matches Err(WriteError::NothingWritten)
                &&& after.control() == p.control()
            }
            &&& after.host_connections@ == p.host_connections@
        }),
{
}

/// Every datagram of the machine is to be sent, with its payload, to where it goes. The first of
/// a flow opens a socket under a number that no flow has yet, and every later one uses that
/// socket.
#[verifier::rlimit(60)]
pub proof fn datagrams_share_the_socket_of_their_flow<H: TracedStream>(
    p: &NetProxy<H>,
    between: &NetProxy<H>,
    after: &NetProxy<H>,
    src: IpAddr,
    dst: IpAddr,
    s: Seq<u8>,
    again: Seq<u8>,
    first: Result<Demand, WriteError>,
    second: Result<Demand, WriteError>,
)
    requires
        p.wf(),
        p.next_token < usize::MAX,
        p.frame_result(between, FrameView::Udp(src, dst, s), first),
        between.frame_result(after, FrameView::Udp(src, dst, again), second),
        u16_at(again, 0) == u16_at(s, 0),
        u16_at(again, 2) == u16_at(s, 2),
    ensures
        ({
            let key = (src, u16_at(s, 0), dst, u16_at(s, 2));
            let known = p.udp@.flows.dom().contains(key);
            &&& first matches Ok(Demand::SendUdp { token, nat_key, payload, open })
            &&& second matches Ok(Demand::SendUdp { token: t2, nat_key: k2, payload: p2, open: o2 })
            &&& nat_key == key && k2 == key
            &&& payload@ == s.skip(8) && p2@ == again.skip(8)
            &&& open == !known && !o2
            &&& t2 == token
            &&& known ==> token == p.udp@.flows[key] && between.next_token == p.next_token
            &&& after.next_token == between.next_token
            &&& !known ==> {
                &&& token == Token(p.next_token)
                &&& between.next_token == p.next_token + 1
                &&& forall|k: NatKey| #[trigger]
                    p.udp@.flows.dom().contains(k) ==> p.udp@.flows[k] != token
            }
            &&& after.control() == p.control()
            &&& after.host_connections@ == p.host_connections@
        }),
{
}

// --- Events ---

/// A datagram that a UDP socket received reaches the machine: one frame with its payload, from
/// the far end of the socket's flow to the machine's, behind all others. The socket counts as
/// used.
pub proof fn datagram_reaches_the_machine<H: TracedStream>(
    p: &NetProxy<H>,
    after: &NetProxy<H>,
    token: Token,
    is_readable: bool,
    is_writable: bool,
    accepted: Option<H>,
    datagram: Option<Vec<u8>>,
    now: Instant,
    failed: bool,
)
    requires
        p.event_handled(
            after,
            token,
            is_readable,
            is_writable,
            accepted,
            datagram,
            now,
            failed,
        ),
        !p.unix_listeners@.dom().contains(token.0),
        !p.host_connections@.dom().contains(token.0),
        p.udp@.sockets.dom().contains(token.0),
    ensures
        datagram matches Some(d) ==> {
            &&& after.control() == p.control().push(vm_datagram(p.udp@.reverse[token.0], d@))
            &&& after.udp@.sockets == p.udp@.sockets.insert(token.0, now)
            &&& after.udp@.flows == p.udp@.flows
        },
        datagram is None ==> after.control() == p.control() && after.udp@ == p.udp@,
        after.host_connections@ == p.host_connections@,
        !failed,
{
}

/// An event of a connection goes to that connection and to no other: what it sends is queued
/// for the machine behind all else, and it is to be removed, paused or put in line as its step
/// says. After the event nothing is left to be removed, what was to be is gone, and idle UDP
/// sockets were looked for within the last thirty seconds.
#[verifier::rlimit(60)]
pub proof fn event_goes_to_its_connection<H: TracedStream>(
    p: &NetProxy<H>,
    a: NetProxy<H>,
    b: NetProxy<H>,
    after: &NetProxy<H>,
    token: Token,
    is_readable: bool,
    is_writable: bool,
    accepted: Option<H>,
    datagram: Option<Vec<u8>>,
    now: Instant,
    failed: bool,
)
    requires
        p.event_through(
            a,
            b,
            after,
            token,
            is_readable,
            is_writable,
            accepted,
            datagram,
            now,
            failed,
        ),
        !p.unix_listeners@.dom().contains(token.0),
        p.host_connections@.dom().contains(token.0),
    ensures
        ({
            let t = token.0;
            let key = p.reverse_tcp_nat@[t];
            let paused = p.paused_reads@.contains(t);
            &&& exists|io: EventIo|
                {
                    let step = #[trigger] event_step(
                        p.host_connections@[t]@,
                        key,
                        token,
                        is_readable,
                        is_writable,
                        paused,
                        io,
                    );
                    &&& io_fits(p.host_connections@[t]@, is_readable, is_writable, io)
                    &&& after.control() == p.control() + step.sends
                    &&& after.paused_reads@.contains(t) <==> paused || step.paused
                    &&& step.removes ==> !after.host_connections@.dom().contains(t)
                    &&& after.host_connections@.dom().contains(t) ==> {
                        &&& after.host_connections@[t]@ == step.next
                        &&& after.host_connections@[t].host().calls()
                            == p.host_connections@[t].host().calls() + step.calls
                    }
                    &&& !p.connections_to_remove@.contains(token) && !step.removes
                        ==> after.host_connections@.dom().contains(t)
                }
            &&& forall|u: usize| #[trigger]
                p.host_connections@.dom().contains(u) && u != t
                    && !p.connections_to_remove@.contains(Token(u))
                    ==> after.host_connections@.dom().contains(u) && after.host_connections@[u]
                    == p.host_connections@[u]
            &&& after.connections_to_remove@.len() == 0
            &&& now - after.udp@.last_cleanup <= 30_000_000_000
        }),
{
    let io = choose|io: EventIo| #[trigger]
        p.event_taken(&a, token, is_readable, is_writable, io, failed);
    let step = event_step(
        p.host_connections@[token.0]@,
        p.reverse_tcp_nat@[token.0],
        token,
        is_readable,
        is_writable,
        p.paused_reads@.contains(token.0),
        io,
    );
    let old_list = p.connections_to_remove@;
    let pushed = old_list.push(token);
    assert(pushed[old_list.len() as int] == token);
    assert(after.control() == a.control());
    assert forall|u: usize| #[trigger]
        p.host_connections@.dom().contains(u) && u != token.0 && !old_list.contains(
            Token(u),
        ) implies after.host_connections@.dom().contains(u) && after.host_connections@[u]
        == p.host_connections@[u] by {
        assert(!a.connections_to_remove@.contains(Token(u))) by {
            if pushed.contains(Token(u)) {
                let i = choose|i: int| 0 <= i < pushed.len() && pushed[i] == Token(u);
                assert(old_list[i] == Token(u));
            }
        }
        assert(a.host_connections@.dom().contains(u));
    }
}

/// Connections that are to be removed leave every table, with their flows, and no other does.
/// Their streams are given back once their registration was ended.
#[verifier::rlimit(60)]
pub proof fn removed_connections_are_gone<H: TracedStream>(
    p: &NetProxy<H>,
    after: &NetProxy<H>,
    t: usize,
)
    requires
        p.wf(),
        p.drained(after),
        p.host_connections@.dom().contains(t),
    ensures
        after.connections_to_remove@.len() == 0,
        p.connections_to_remove@.contains(Token(t)) ==> {
            &&& !after.host_connections@.dom().contains(t)
            &&& !after.reverse_tcp_nat@.dom().contains(t)
            &&& !after.tcp_nat_table@.dom().contains(p.reverse_tcp_nat@[t])
        },
        !p.connections_to_remove@.contains(Token(t)) ==> {
            &&& after.host_connections@.dom().contains(t)
            &&& after.host_connections@[t] == p.host_connections@[t]
            &&& after.reverse_tcp_nat@.dom().contains(t)
        },
        p.connections_to_remove@.contains(Token(t)) ==> exists|i: int|
            p.released@.len() <= i < after.released@.len() && let_go_of(
                p.host_connections@[t].host().calls(),
                #[trigger] after.released@[i].calls(),
            ),
        after.control() == p.control(),
{
    let list = p.connections_to_remove@;
    if list.contains(Token(t)) {
        let i = choose|i: int| 0 <= i < list.len() && list[i] == Token(t);
        assert(p.reverse_tcp_nat@.dom().contains(list[i].0));
        assert(carried_by(p.reverse_tcp_nat@, list).contains(p.reverse_tcp_nat@[t]));
        removal_releases_every_stream(p.host_connections@, list, t);
        let left = leaving(p.host_connections@, list);
        let j = choose|j: int| 0 <= j < left.len() && left[j] == p.host_connections@[t];
        assert(deregistered(left[j].host().calls(), after.released@[p.released@.len() + j].calls()));
        assert(after.released@[p.released@.len() + j].calls().drop_last()
            =~= p.host_connections@[t].host().calls());
    }
}

} // verus!
