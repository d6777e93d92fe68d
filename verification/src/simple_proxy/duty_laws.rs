//! What the proxy owes the machine and the host, frame by frame and event by event.
use vstd::prelude::*;

use crate::addr::{Instant, Interest, IpAddr, Ipv4Addr, NatKey, Token};
use crate::backend::{ReadError, WriteError};
use crate::buffer::{flat, flat_drop_bytes, flat_push};
use crate::direct_proxy::duty_laws::{drain_reads, hands_out, host_mac, reads_up_to};
use crate::direct_proxy::packets::{Demand, FrameView};
use crate::host::{
    deregistered, received, received_adds, sent, write_run_sends, HostCall, HostError, ReadView, RegisterView,
    TracedStream, WriteEnd, DRAIN_LIMIT,
};
use crate::packet_utils::{arp_reply_frame, ip_view, same_family};
use crate::proxy::duty_laws::let_go_of;
use crate::proxy::events::{carried_by, leaving};
use crate::proxy::laws::removal_releases_every_stream;
use crate::proxy::packets::{flow_of, segment_of};
use crate::proxy::{proxy_mac, vm_mac};
use crate::reading_laws::{tcp_frame_has_plain_headers, vm_frame_says};
use crate::seqnum::low32;
use crate::simple_proxy::events::{
    established_event, event_step, io_fits, queue_chunk, queue_chunks, reads_run, socket_read,
    written_off, EventIo,
};
use crate::simple_proxy::laws::{ack_takes_off_what_it_covers, written_data_is_sent};
use crate::simple_proxy::packets::{
    answers_fit, data_end, packet_step, pruned, AllEnd, Answers,
};
use crate::simple_proxy::{ConnView, Flow, NetProxy, Phase};
use crate::tcp_fsm::model::{first_chunk, SegmentView};
use crate::tcp_laws::number_at;
use crate::vm_frames::{towards_vm, vm_ack, vm_datagram, vm_frame};
use crate::wire::{tcp_payload, u16_at, u32_at, ArpPacket};

verus! {

// --- Opening ---

/// A connection that the machine asked for is answered as soon as the host has accepted it, by
/// one SYN with ACK; from then on the machine is sent numbers from behind that SYN, and the
/// stream is watched for reading. Where that fails the stream is given up. Until then nothing is
/// sent.
pub proof fn accepted_connection_opens(
    f: Flow,
    key: NatKey,
    token: Token,
    is_readable: bool,
    io: EventIo,
    t: SegmentView,
    a: Answers,
)
    ensures
        ({
            let v = ConnView { phase: Phase::EgressConnecting, flow: f };
            let step = event_step(v, key, token, is_readable, true, io);
            let early = event_step(v, key, token, is_readable, false, io);
            &&& step.sends == seq![vm_frame(key, f.tx_seq, f.tx_ack, Seq::empty(), 0x12, 0xffff)]
            &&& step.next == ConnView {
                phase: Phase::Established,
                flow: Flow { tx_seq: number_at(f.tx_seq, 1), ..f },
            }
            &&& step.calls.len() > 0
            &&& step.calls[0] == HostCall::Reregister {
                token,
                interest: Interest::Readable,
                came: io.came,
            }
            &&& step.dropped <==> !(io.came is Done)
            &&& io.came is Done ==> step.calls.len() == 1
            &&& step.dropped ==> step.calls.len() == 2 && step.calls[1] is Deregister
            &&& early.next == v && early.sends.len() == 0 && early.calls.len() == 0
            &&& packet_step(v, key, t, token, a).next == v
            &&& packet_step(v, key, t, token, a).sends.len() == 0
        }),
{
}

/// A connection into the machine opens with the machine's SYN with ACK: it is acknowledged, and
/// the stream is watched for reading. Nothing else opens it.
pub proof fn answered_connection_opens(
    f: Flow,
    key: NatKey,
    t: SegmentView,
    token: Token,
    a: Answers,
)
    ensures
        ({
            let v = ConnView { phase: Phase::IngressConnecting, flow: f };
            let step = packet_step(v, key, t, token, a);
            let answers = t.flags & 0x12 == 0x12;
            &&& answers && a.registered is Done ==> {
                &&& step.next == ConnView {
                    phase: Phase::Established,
                    flow: Flow { tx_ack: number_at(t.sequence, 1), ..f },
                }
                &&& step.sends == seq![vm_ack(key, f.tx_seq, number_at(t.sequence, 1))]
                &&& !step.fails && !step.removes
            }
            &&& answers ==> step.calls == seq![
                HostCall::Reregister {
                    token,
                    interest: Interest::Readable,
                    came: a.registered,
                },
            ]
            &&& answers && !(a.registered is Done) ==> step.fails && step.sends.len() == 0
            &&& !answers ==> step.next == v && step.sends.len() == 0 && step.calls.len() == 0
                && !step.fails && !step.removes
        }),
{
}

/// A connection that was asked for gets the next number and starts behind the machine's SYN,
/// with nothing under way; its stream is watched in both directions. A stream that cannot be
/// registered comes back and leaves nothing behind but the number.
pub proof fn new_connection_starts_empty<H: TracedStream>(
    p: &NetProxy<H>,
    after: &NetProxy<H>,
    stream: H,
    nat_key: NatKey,
    vm_sequence: u32,
    tx_seq: u32,
    token: Token,
    refused: Option<H>,
)
    requires
        p.egress_added(after, stream, nat_key, vm_sequence, tx_seq, token, refused),
        p.next_token < usize::MAX,
    ensures
        token == Token(p.next_token),
        after.next_token == p.next_token + 1,
        after.control() == p.control(),
        refused is None ==> {
            let conn = after.host_connections@[token.0];
            &&& after.tcp_nat_table@.dom().contains(nat_key)
            &&& after.tcp_nat_table@[nat_key] == token
            &&& after.reverse_tcp_nat@[token.0] == nat_key
            &&& after.host_connections@.dom().contains(token.0)
            &&& conn@.phase is EgressConnecting
            &&& conn@.flow.tx_seq == tx_seq
            &&& conn@.flow.tx_ack == number_at(vm_sequence, 1)
            &&& conn@.flow.write_buffer.len() == 0
            &&& conn@.flow.to_vm_buffer.len() == 0
            &&& !conn@.flow.is_in_run_queue
            &&& conn.host().calls() == stream.calls().push(
                HostCall::Register { token, interest: Interest::Both, ok: true },
            )
        },
        refused matches Some(back) ==> {
            &&& back.calls() == stream.calls().push(
                HostCall::Register { token, interest: Interest::Both, ok: false },
            )
            &&& after.tcp_nat_table@ == p.tcp_nat_table@
            &&& after.host_connections@ == p.host_connections@
        },
{
}

/// An accepted stream starts a connection into the machine: it gets the next number and a port
/// of the proxy's from the upper half, it is watched for reading, and the machine is sent one
/// SYN. A stream that cannot be registered comes back and leaves nothing behind.
pub proof fn accepted_stream_is_announced<H: TracedStream>(
    p: &NetProxy<H>,
    after: &NetProxy<H>,
    listener: Token,
    stream: H,
    any_port: u16,
    initial_seq: u32,
    refused: Option<H>,
)
    requires
        p.ingress_started(after, listener, stream, any_port, initial_seq, refused),
    ensures
        ({
            let t = p.next_token;
            let port = (32768 + any_port % 32768) as u16;
            let key = (
                IpAddr::V4(Ipv4Addr(192, 168, 100, 1)),
                port,
                IpAddr::V4(Ipv4Addr(192, 168, 100, 2)),
                p.unix_listeners@[listener.0],
            );
            let call = |ok: bool|
                HostCall::Register { token: Token(t), interest: Interest::Readable, ok };
            &&& refused is None ==> {
                &&& after.next_token == t + 1
                &&& after.tcp_nat_table@.dom().contains(key)
                &&& after.tcp_nat_table@[key] == Token(t)
                &&& after.reverse_tcp_nat@[t] == key
                &&& after.host_connections@.dom().contains(t)
                &&& after.host_connections@[t]@.phase is IngressConnecting
                &&& after.host_connections@[t]@.flow.tx_seq == initial_seq
                &&& after.host_connections@[t]@.flow.write_buffer.len() == 0
                &&& after.host_connections@[t]@.flow.to_vm_buffer.len() == 0
                &&& after.host_connections@[t].host().calls() == stream.calls().push(call(true))
                &&& after.control() == p.control().push(
                    vm_frame(key, initial_seq, 0, Seq::empty(), 0x02, 0xffff),
                )
            }
            &&& refused matches Some(back) ==> {
                &&& back.calls() == stream.calls().push(call(false))
                &&& *after == *p
            }
        }),
{
}

// --- Data from the machine ---

/// The data of a frame to the machine ends as many numbers behind the frame's own as it is long.
#[verifier::rlimit(60)]
pub proof fn data_ends_behind_its_number(
    key: NatKey,
    sequence: u32,
    acknowledgement: u32,
    payload: Seq<u8>,
    flags: u8,
    window: u16,
)
    requires
        key.0 is V4,
        same_family(key),
        payload.len() <= 0xffff - 40,
    ensures
        data_end(vm_frame(key, sequence, acknowledgement, payload, flags, window)) == Some(
            number_at(sequence, payload.len() as int),
        ),
{
    reveal(ip_view);
    let frame = vm_frame(key, sequence, acknowledgement, payload, flags, window);
    vm_frame_says(key, sequence, acknowledgement, payload, flags, window);
    tcp_frame_has_plain_headers(
        towards_vm(key),
        sequence,
        acknowledgement,
        payload,
        flags,
        window,
        proxy_mac(),
        vm_mac(),
    );
    assert(frame.skip(14)[0] == frame[14]);
    assert(low32(payload.len()) == payload.len());
}

/// Whether an acknowledgement covers all the data in a frame to the machine.
pub open spec fn is_covered(frame: Seq<u8>, ack: u32) -> bool {
    data_end(frame) matches Some(end) && (ack - end) % 0x1_0000_0000 < 0x8000_0000
}

/// A packet while data flows. Packets that its acknowledgement covers wait for the machine no
/// longer. Its data is offered to the host: where the host takes all of it, it is acknowledged;
/// where the host cannot take it now it waits, unacknowledged, and the stream is watched in both
/// directions; where the host fails the connection is to be removed. A FIN is acknowledged and
/// passed on. A reset has the connection removed and nothing sent.
#[verifier::rlimit(60)]
pub proof fn packet_is_taken(f: Flow, key: NatKey, t: SegmentView, token: Token, a: Answers)
    requires
        answers_fit(ConnView { phase: Phase::Established, flow: f }, t, a),
    ensures
        ({
            let step = packet_step(ConnView { phase: Phase::Established, flow: f }, key, t, token, a);
            let fin = t.flags & 0x01 != 0;
            let data = t.payload.len() > 0;
            let taken = data && sent(a.writes) == t.payload;
            let waits = data && a.end == AllEnd::WouldBlock;
            let lost = waits && !(a.registered is Done);
            let end = number_at(
                f.tx_ack,
                (if taken {
                    t.payload.len() as int
                } else {
                    0
                }) + (if fin {
                    1int
                } else {
                    0
                }),
            );
            let w = step.next.flow;
            &&& t.flags & 0x04 != 0 ==> step.removes && step.sends.len() == 0
                && step.calls.len() == 0
            &&& t.flags & 0x04 == 0 ==> {
                &&& step.fails <==> lost
                &&& step.removes <==> data && a.end == AllEnd::Failed && !lost
                &&& data ==> step.calls.take(a.writes.len() as int) == a.writes
                &&& waits ==> step.calls.len() > a.writes.len()
                    && step.calls[a.writes.len() as int] == HostCall::Reregister {
                    token,
                    interest: Interest::Both,
                    came: a.registered,
                }
                &&& !lost ==> {
                    &&& step.next.phase is Closing <==> fin
                    &&& step.next.phase is Established <==> !fin
                    &&& fin ==> step.calls.len() > 0 && step.calls.last() is ShutdownWrite
                    &&& w.tx_seq == f.tx_seq
                    &&& w.tx_ack == end
                    &&& w.is_in_run_queue == f.is_in_run_queue
                    &&& w.write_buffer == if waits {
                        f.write_buffer.push(t.payload)
                    } else {
                        f.write_buffer
                    }
                    &&& forall|p: Seq<u8>| #[trigger]
                        w.to_vm_buffer.contains(p) <==> f.to_vm_buffer.contains(p) && !is_covered(
                            p,
                            t.acknowledgement,
                        )
                    &&& step.sends == if taken || fin {
                        seq![vm_ack(key, f.tx_seq, end)]
                    } else {
                        Seq::empty()
                    }
                }
            }
        }),
{
    let n = low32(t.payload.len());
    assert(f.tx_ack.wrapping_add(n) == number_at(f.tx_ack, t.payload.len() as int));
    assert(f.tx_ack.wrapping_add(n).wrapping_add(1) == number_at(
        f.tx_ack,
        t.payload.len() + 1int,
    ));
    assert(f.tx_ack.wrapping_add(1) == number_at(f.tx_ack, 1));
    assert(number_at(f.tx_ack, 0) == f.tx_ack);
    let step = packet_step(ConnView { phase: Phase::Established, flow: f }, key, t, token, a);
    if t.flags & 0x04 == 0 {
        if t.payload.len() > 0 {
            written_data_is_sent(t.payload, a.writes, a.end);
            assert(step.calls.take(a.writes.len() as int) =~= a.writes);
        }
        ack_takes_off_what_it_covers(f.to_vm_buffer, t.acknowledgement);
        let kept = pruned(f.to_vm_buffer, t.acknowledgement);
        assert forall|p: Seq<u8>| #[trigger]
            kept.contains(p) <==> f.to_vm_buffer.contains(p) && !is_covered(
                p,
                t.acknowledgement,
            ) by {
            if let Some(end) = data_end(p) {
                assert(t.acknowledgement.wrapping_sub(end) as int == (t.acknowledgement - end)
                    % 0x1_0000_0000);
            }
        }
    }
}

/// A connection that is closing is removed by the acknowledgement of its FIN, and by nothing
/// else, and answers nothing.
pub proof fn closing_connection_answers(
    f: Flow,
    key: NatKey,
    t: SegmentView,
    token: Token,
    a: Answers,
)
    ensures
        ({
            let v = ConnView { phase: Phase::Closing, flow: f };
            let step = packet_step(v, key, t, token, a);
            &&& step.removes <==> t.flags & 0x10 != 0 && t.acknowledgement == f.tx_seq
            &&& step.next == v
            &&& step.sends.len() == 0
            &&& step.calls.len() == 0
            &&& !step.fails
        }),
{
}

// --- Data from the host ---

/// Whether the frames behind the first `n` carry these payloads, one each, gapless and in
/// order, and every payload fits in a packet.
pub open spec fn carry_on(
    q: Seq<Seq<u8>>,
    n: int,
    key: NatKey,
    tx_seq: u32,
    tx_ack: u32,
    payloads: Seq<Seq<u8>>,
) -> bool {
    &&& q.len() == n + payloads.len()
    &&& forall|i: int|
        0 <= i < payloads.len() ==> {
            &&& 0 < (#[trigger] payloads[i]).len() <= 1460
            &&& q[n + i] == vm_frame(
                key,
                number_at(tx_seq, flat(payloads.take(i)).len() as int),
                tx_ack,
                payloads[i],
                0x18,
                0xffff,
            )
        }
}

/// Payloads behind others carry on where those end.
#[verifier::rlimit(60)]
proof fn carrying_on_adds_up(
    q: Seq<Seq<u8>>,
    n: int,
    key: NatKey,
    tx_seq: u32,
    tx_ack: u32,
    a: Seq<Seq<u8>>,
    b: Seq<Seq<u8>>,
)
    requires
        0 <= n,
        q.len() == n + a.len() + b.len(),
        carry_on(q.take(n + a.len()), n, key, tx_seq, tx_ack, a),
        carry_on(q, n + a.len(), key, number_at(tx_seq, flat(a).len() as int), tx_ack, b),
    ensures
        carry_on(q, n, key, tx_seq, tx_ack, a + b),
        flat(a + b) == flat(a) + flat(b),
{
    flat_adds(a, b);
    let all = a + b;
    assert forall|i: int| 0 <= i < all.len() implies {
        &&& 0 < (#[trigger] all[i]).len() <= 1460
        &&& q[n + i] == vm_frame(
            key,
            number_at(tx_seq, flat(all.take(i)).len() as int),
            tx_ack,
            all[i],
            0x18,
            0xffff,
        )
    } by {
        if i < a.len() {
            assert(all[i] == a[i]);
            assert(all.take(i) =~= a.take(i));
            assert(q.take(n + a.len())[n + i] == q[n + i]);
        } else {
            let j = i - a.len();
            assert(all[i] == b[j]);
            assert(all.take(i) =~= a + b.take(j));
            flat_adds(a, b.take(j));
            let x = flat(a).len() as int;
            let y = flat(b.take(j)).len() as int;
            assert(number_at(number_at(tx_seq, x), y) == number_at(tx_seq, x + y));
            assert(q[(n + a.len()) + j] == q[n + i]);
        }
    }
}

/// The bytes of two queues, one behind the other, are those of the one and then of the other.
proof fn flat_adds(a: Seq<Seq<u8>>, b: Seq<Seq<u8>>)
    ensures
        flat(a + b) == flat(a) + flat(b),
    decreases b.len(),
{
    if b.len() == 0 {
        assert(a + b =~= a);
        assert(flat(a) + flat(b) =~= flat(a));
    } else {
        let c = b.drop_last();
        flat_adds(a, c);
        flat_push(a + c, b.last());
        flat_push(c, b.last());
        assert((a + c).push(b.last()) =~= a + b);
        assert(c.push(b.last()) =~= b);
        assert(flat(a) + (flat(c) + b.last()) =~= (flat(a) + flat(c)) + b.last());
    }
}

/// What was read at once is cut into packets, all of it where there is room for it.
#[verifier::rlimit(60)]
proof fn chunks_carry_data(f: Flow, key: NatKey, data: Seq<u8>) -> (payloads: Seq<Seq<u8>>)
    requires
        1460 * f.to_vm_buffer.len() + data.len() <= 1460 * 256,
    ensures
        ({
            let w = queue_chunks(f, key, data);
            let n = f.to_vm_buffer.len() as int;
            &&& flat(payloads) == data
            &&& w.to_vm_buffer.take(n) == f.to_vm_buffer
            &&& carry_on(w.to_vm_buffer, n, key, f.tx_seq, f.tx_ack, payloads)
            &&& w.tx_seq == number_at(f.tx_seq, data.len() as int)
            &&& w == Flow { to_vm_buffer: w.to_vm_buffer, tx_seq: w.tx_seq, ..f }
            &&& 1460 * payloads.len() < data.len() + 1460
        }),
    decreases data.len(),
{
    let w = queue_chunks(f, key, data);
    let n = f.to_vm_buffer.len() as int;
    if data.len() == 0 {
        assert(flat(Seq::<Seq<u8>>::empty()) =~= data);
        assert(w.to_vm_buffer.take(n) =~= f.to_vm_buffer);
        Seq::empty()
    } else {
        let chunk = first_chunk(data);
        let next = queue_chunk(f, key, chunk);
        let rest = data.skip(chunk.len() as int);
        let later = chunks_carry_data(next, key, rest);
        let first = seq![chunk];
        let q = w.to_vm_buffer;
        assert(flat(first) =~= chunk) by {
            reveal_with_fuel(flat, 2);
            assert(first.skip(1) =~= Seq::<Seq<u8>>::empty());
        }
        assert(next.tx_seq == number_at(f.tx_seq, chunk.len() as int));
        assert(q.take(n + 1)[n] == next.to_vm_buffer[n]);
        assert(first.take(0) =~= Seq::<Seq<u8>>::empty());
        assert(flat(first.take(0)).len() == 0);
        assert(number_at(f.tx_seq, 0) == f.tx_seq);
        assert(q.take(n) =~= q.take(n + 1).take(n));
        assert(next.to_vm_buffer.take(n) =~= f.to_vm_buffer);
        carrying_on_adds_up(q, n, key, f.tx_seq, f.tx_ack, first, later);
        assert(chunk + rest =~= data);
        assert(number_at(number_at(f.tx_seq, chunk.len() as int), rest.len() as int) == number_at(
            f.tx_seq,
            data.len() as int,
        ));
        first + later
    }
}

/// Whether every read hands out no more than it was asked for.
pub open spec fn no_overrun(calls: Seq<HostCall>) -> bool {
    forall|i: int|
        0 <= i < calls.len() ==> match #[trigger] calls[i] {
            HostCall::Read { max, got: ReadView::Data(d) } => d.len() <= max,
            _ => true,
        }
}

/// A run of reads queues all that it hands out.
#[verifier::rlimit(60)]
proof fn run_carries_data(
    f: Flow,
    key: NatKey,
    calls: Seq<HostCall>,
    budget: nat,
    after: Flow,
    error: Option<HostError>,
) -> (payloads: Seq<Seq<u8>>)
    requires
        reads_run(f, key, calls, budget, after, error),
        no_overrun(calls),
        f.to_vm_buffer.len() + 6 * budget <= 250,
    ensures
        ({
            let n = f.to_vm_buffer.len() as int;
            &&& flat(payloads) == received(calls)
            &&& after.to_vm_buffer.len() >= n
            &&& after.to_vm_buffer.take(n) == f.to_vm_buffer
            &&& carry_on(after.to_vm_buffer, n, key, f.tx_seq, f.tx_ack, payloads)
            &&& after.tx_seq == number_at(f.tx_seq, received(calls).len() as int)
            &&& after == Flow { to_vm_buffer: after.to_vm_buffer, tx_seq: after.tx_seq, ..f }
            &&& calls.len() <= budget
            &&& forall|i: int| 0 <= i < calls.len() ==> reads_up_to(#[trigger] calls[i], 8192)
            &&& calls.len() < budget ==> calls.len() > 0 && !hands_out(calls.last())
        }),
    decreases budget,
{
    let n = f.to_vm_buffer.len() as int;
    let none = Seq::<Seq<u8>>::empty();
    assert(flat(none) =~= Seq::<u8>::empty());
    assert(f.to_vm_buffer.take(n) =~= f.to_vm_buffer);
    assert(number_at(f.tx_seq, 0) == f.tx_seq);
    if budget == 0 {
        assert(received(calls) =~= Seq::<u8>::empty());
        none
    } else {
        let first = seq![calls[0]];
        let rest = calls.skip(1);
        assert(calls =~= first + rest);
        received_adds(first, rest);
        reveal_with_fuel(received, 2);
        assert(first.drop_last() =~= Seq::<HostCall>::empty());
        match calls[0] {
            HostCall::Read { max, got } => match got {
                ReadView::Data(d) => {
                    assert(received(first) =~= d);
                    if d.len() == 0 {
                        assert(rest =~= Seq::<HostCall>::empty());
                        assert(received(calls) =~= Seq::<u8>::empty());
                        none
                    } else {
                        let mid = queue_chunks(f, key, d);
                        let a = chunks_carry_data(f, key, d);
                        assert(d.len() <= 8192);
                        assert(a.len() <= 6);
                        assert forall|i: int| 0 <= i < rest.len() implies match #[trigger] rest[i] {
                            HostCall::Read { max, got: ReadView::Data(d) } => d.len() <= max,
                            _ => true,
                        } by {
                            assert(rest[i] == calls[i + 1]);
                        }
                        let b = run_carries_data(mid, key, rest, (budget - 1) as nat, after, error);
                        let q = after.to_vm_buffer;
                        let m = mid.to_vm_buffer.len() as int;
                        assert(q.take(n) =~= q.take(m).take(n));
                        carrying_on_adds_up(q, n, key, f.tx_seq, f.tx_ack, a, b);
                        assert(number_at(mid.tx_seq, received(rest).len() as int) == number_at(
                            f.tx_seq,
                            (d + received(rest)).len() as int,
                        ));
                        assert forall|i: int| 0 <= i < calls.len() implies reads_up_to(
                            #[trigger] calls[i],
                            8192,
                        ) by {
                            if i > 0 {
                                assert(reads_up_to(rest[i - 1], 8192));
                            }
                        }
                        if rest.len() > 0 {
                            assert(rest.last() == calls.last());
                        }
                        a + b
                    }
                },
                _ => {
                    assert(rest =~= Seq::<HostCall>::empty());
                    assert(received(calls) =~= Seq::<u8>::empty());
                    none
                },
            },
            _ => none,
        }
    }
}

/// A host that is readable is read from unless 64 packets or more wait for the machine: up to
/// sixteen times, 8192 bytes at most each, until it has no more. All that it hands out is queued
/// for the machine, gapless and in order.
pub proof fn host_data_is_queued_whole(
    f: Flow,
    key: NatKey,
    calls: Seq<HostCall>,
    after: Flow,
    error: Option<HostError>,
) -> (payloads: Seq<Seq<u8>>)
    requires
        socket_read(f, key, calls, after, error),
        no_overrun(calls),
    ensures
        ({
            let n = f.to_vm_buffer.len() as int;
            &&& f.to_vm_buffer.len() >= 64 ==> calls.len() == 0 && after == f && error is None
            &&& f.to_vm_buffer.len() < 64 ==> 0 < calls.len() <= 16 && (calls.len() < 16
                ==> !hands_out(calls.last()))
            &&& forall|i: int| 0 <= i < calls.len() ==> reads_up_to(#[trigger] calls[i], 8192)
            &&& flat(payloads) == received(calls)
            &&& after.to_vm_buffer.len() >= n
            &&& after.to_vm_buffer.take(n) == f.to_vm_buffer
            &&& carry_on(after.to_vm_buffer, n, key, f.tx_seq, f.tx_ack, payloads)
            &&& after.tx_seq == number_at(f.tx_seq, received(calls).len() as int)
            &&& after == Flow { to_vm_buffer: after.to_vm_buffer, tx_seq: after.tx_seq, ..f }
        }),
{
    let n = f.to_vm_buffer.len() as int;
    if f.to_vm_buffer.len() >= 64 {
        assert(received(calls) =~= Seq::<u8>::empty());
        assert(flat(Seq::<Seq<u8>>::empty()) =~= Seq::<u8>::empty());
        assert(f.to_vm_buffer.take(n) =~= f.to_vm_buffer);
        assert(number_at(f.tx_seq, 0) == f.tx_seq);
        Seq::empty()
    } else {
        run_carries_data(f, key, calls, 16, after, error)
    }
}

/// How an event of the host ends while data flows. A host that is at its end, failed or turns
/// out to be closed has the machine sent a FIN, behind all data, and its stream told that no
/// more comes. Else the stream is watched for reading, and for writing while something waits for
/// the host. What waits is offered first, and what the host took waits no longer.
#[verifier::rlimit(60)]
pub proof fn event_settles(
    f: Flow,
    key: NatKey,
    token: Token,
    is_readable: bool,
    is_writable: bool,
    io: EventIo,
)
    requires
        io_fits(ConnView { phase: Phase::Established, flow: f }, key, is_readable, is_writable, io),
        no_overrun(io.reads),
    ensures
        ({
            let step = event_step(
                ConnView { phase: Phase::Established, flow: f },
                key,
                token,
                is_readable,
                is_writable,
                io,
            );
            let ended = (is_writable && (io.end == WriteEnd::Closed || io.end == WriteEnd::Failed))
                || (is_readable && io.error is Some);
            let wrote: Seq<HostCall> = if is_writable {
                io.writes
            } else {
                Seq::empty()
            };
            let read: Seq<HostCall> = if is_readable {
                io.reads
            } else {
                Seq::empty()
            };
            let w = step.next.flow;
            let reached = number_at(f.tx_seq, received(read).len() as int);
            &&& flat(w.write_buffer) == flat(f.write_buffer).skip(sent(wrote).len() as int)
            &&& w.tx_ack == f.tx_ack
            &&& w.is_in_run_queue == f.is_in_run_queue
            &&& step.calls.drop_last() == wrote + read
            &&& !step.dropped
            &&& ended ==> {
                &&& step.next.phase is Closing
                &&& step.sends == seq![
                    vm_frame(key, reached, f.tx_ack, Seq::empty(), 0x11, 0xffff),
                ]
                &&& w.tx_seq == number_at(reached, 1)
                &&& step.calls.last() == HostCall::ShutdownWrite { ok: io.shut }
            }
            &&& !ended ==> {
                &&& step.next.phase is Established
                &&& step.sends.len() == 0
                &&& w.tx_seq == reached
                &&& step.calls.last() == HostCall::Reregister {
                    token,
                    interest: if w.write_buffer.len() > 0 {
                        Interest::Both
                    } else {
                        Interest::Readable
                    },
                    came: io.came,
                }
            }
        }),
{
    let wrote = if is_writable {
        written_off(f, io.written)
    } else {
        f
    };
    if is_writable {
        write_run_sends(f.write_buffer, io.writes, io.written as int, io.end);
        flat_drop_bytes(f.write_buffer, io.written);
    } else {
        assert(flat(f.write_buffer).skip(0) =~= flat(f.write_buffer));
    }
    if is_readable {
        let payloads = host_data_is_queued_whole(wrote, key, io.reads, io.read, io.error);
    } else {
        assert(received(Seq::<HostCall>::empty()) =~= Seq::<u8>::empty());
        assert(number_at(f.tx_seq, 0) == f.tx_seq);
    }
    let step = established_event(f, key, token, is_readable, is_writable, io);
    let all = (if is_writable {
        io.writes
    } else {
        Seq::empty()
    }) + (if is_readable {
        io.reads
    } else {
        Seq::empty()
    });
    assert(step.calls.drop_last() =~= all);
}

/// A stream that is closing is read from until it has no more, 8192 bytes at most each time.
pub proof fn closing_stream_is_drained(
    f: Flow,
    key: NatKey,
    token: Token,
    is_writable: bool,
    io: EventIo,
)
    requires
        io_fits(ConnView { phase: Phase::Closing, flow: f }, key, true, is_writable, io),
    ensures
        ({
            let v = ConnView { phase: Phase::Closing, flow: f };
            let step = event_step(v, key, token, true, is_writable, io);
            &&& step.next == v
            &&& step.sends.len() == 0
            &&& step.calls.len() > 0
            &&& forall|i: int|
                0 <= i < step.calls.len() ==> reads_up_to(#[trigger] step.calls[i], 8192)
            &&& step.calls.len() < u64::MAX ==> !hands_out(step.calls.last())
        }),
{
    drain_reads(io.drain, 8192, DRAIN_LIMIT as nat);
}

// --- Frames to the machine ---

/// Whether every connection that counts as waiting for its turn is in line for it.
pub open spec fn keeps_line<H: TracedStream>(p: &NetProxy<H>) -> bool {
    forall|t: usize|
        #![trigger p.host_connections@.dom().contains(t)]
        p.host_connections@.dom().contains(t) && p.host_connections@[t]@.flow.is_in_run_queue
            ==> p.data_run_queue@.contains(Token(t))
}

/// A turn takes exactly one packet from the connection at the front of the line, where it has
/// one: the packet goes to the end of the data for the machine, all other packets stay in their
/// order, and a connection that has more goes to the end of the line. A paused connection with
/// fewer than 32 packets left is resumed.
#[verifier::rlimit(60)]
pub proof fn turn_moves_one_packet<H: TracedStream>(
    p: &NetProxy<H>,
    after: &NetProxy<H>,
    came: RegisterView,
)
    requires
        p.turn_taken(after, came),
    ensures
        keeps_line(p) ==> keeps_line(after),
        ({
            let t = p.data_run_queue@[0].0;
            let was = p.host_connections@[t];
            let left = after.host_connections@[t];
            let rest = p.data_run_queue@.subrange(1, p.data_run_queue@.len() as int);
            &&& after.host_connections@.dom() == p.host_connections@.dom()
            &&& p.data().is_prefix_of(after.data())
            &&& forall|u: usize| #[trigger]
                p.host_connections@.dom().contains(u) && u != t ==> after.host_connections@[u]
                    == p.host_connections@[u]
            &&& p.host_connections@.dom().contains(t) ==> {
                let moved = after.data().skip(p.data().len() as int);
                let resumes = p.paused_reads@.contains(t) && left@.flow.to_vm_buffer.len() < 32;
                &&& was@.flow.to_vm_buffer == moved + left@.flow.to_vm_buffer
                &&& moved.len() == if was@.flow.to_vm_buffer.len() > 0 {
                    1int
                } else {
                    0
                }
                &&& left@.flow.to_vm_buffer.len() > 0 ==> after.data_run_queue@ == rest.push(
                    Token(t),
                ) && left@.flow.is_in_run_queue
                &&& left@.flow.to_vm_buffer.len() == 0 ==> after.data_run_queue@ == rest
                    && !left@.flow.is_in_run_queue
                &&& resumes ==> !after.paused_reads@.contains(t) && left.host().calls()
                    == was.host().calls().push(
                    HostCall::Reregister {
                        token: Token(t),
                        interest: if was@.flow.write_buffer.len() > 0 {
                            Interest::Both
                        } else {
                            Interest::Readable
                        },
                        came,
                    },
                )
                &&& !resumes ==> after.paused_reads@ == p.paused_reads@ && left.host().calls()
                    == was.host().calls()
                &&& left@.flow.tx_seq == was@.flow.tx_seq
                &&& left@.flow.tx_ack == was@.flow.tx_ack
                &&& left@.flow.write_buffer == was@.flow.write_buffer
                &&& left@.phase == was@.phase
            }
            &&& !p.host_connections@.dom().contains(t) ==> after.data() == p.data()
                && after.data_run_queue@ == rest
        }),
{
    let queue = p.data_run_queue@;
    let t = queue[0].0;
    assert(queue.skip(1) =~= queue.subrange(1, queue.len() as int));
    assert(after.host_connections@.dom() =~= p.host_connections@.dom());
    if p.host_connections@.dom().contains(t) {
        let was = p.host_connections@[t]@.flow.to_vm_buffer;
        let left = after.host_connections@[t]@.flow.to_vm_buffer;
        let moved = after.data().skip(p.data().len() as int);
        if was.len() > 0 {
            assert(moved =~= seq![was[0]]);
            assert(was =~= moved + left);
        } else {
            assert(moved =~= Seq::<Seq<u8>>::empty());
            assert(was =~= moved + left);
        }
    }
    if keeps_line(p) {
        assert forall|u: usize|
            #![trigger after.host_connections@.dom().contains(u)]
            after.host_connections@.dom().contains(u)
                && after.host_connections@[u]@.flow.is_in_run_queue implies after.data_run_queue@.contains(
            Token(u),
        ) by {
            assert(p.host_connections@.dom().contains(u));
            if u == t {
                assert(after.data_run_queue@.last() == Token(t));
            } else {
                let i = choose|i: int| 0 <= i < queue.len() && queue[i] == Token(u);
                assert(after.data_run_queue@[i - 1] == Token(u));
            }
        }
    }
}

/// However many turns are taken, no packet is lost and none overtakes another of its
/// connection: what each connection has left is the last part of what it had, what was ready
/// for the machine stays ready first, and all who count as waiting stay in line.
#[verifier::rlimit(60)]
pub proof fn turns_lose_nothing<H: TracedStream>(
    p: &NetProxy<H>,
    after: &NetProxy<H>,
    turns: nat,
)
    requires
        p.turns_taken(after, turns),
    ensures
        keeps_line(p) ==> keeps_line(after),
        after.control() == p.control(),
        after.host_connections@.dom() == p.host_connections@.dom(),
        p.data().is_prefix_of(after.data()),
        after.data().len() <= p.data().len() + turns,
        forall|t: usize|
            #![trigger p.host_connections@.dom().contains(t)]
            p.host_connections@.dom().contains(t)
                ==> after.host_connections@[t]@.flow.to_vm_buffer.is_suffix_of(
                p.host_connections@[t]@.flow.to_vm_buffer,
            ),
    decreases turns,
{
    if turns > 0 {
        let (mid, came) = choose|mid: NetProxy<H>, came: RegisterView| #[trigger]
            mid.turn_taken(after, came) && p.turns_taken(&mid, (turns - 1) as nat);
        turns_lose_nothing(p, &mid, (turns - 1) as nat);
        turn_moves_one_packet(&mid, after, came);
        assert(after.data().len() <= mid.data().len() + 1);
        assert forall|t: usize|
            #![trigger p.host_connections@.dom().contains(t)]
            p.host_connections@.dom().contains(
                t,
            ) implies after.host_connections@[t]@.flow.to_vm_buffer.is_suffix_of(
            p.host_connections@[t]@.flow.to_vm_buffer,
        ) by {
            assert(mid.host_connections@.dom().contains(t));
            let a = p.host_connections@[t]@.flow.to_vm_buffer;
            let b = mid.host_connections@[t]@.flow.to_vm_buffer;
            let c = after.host_connections@[t]@.flow.to_vm_buffer;
            assert(b =~= a.subrange(a.len() - b.len(), a.len() as int));
            assert(c =~= b.subrange(b.len() - c.len(), b.len() as int));
            assert(c =~= a.subrange(a.len() - c.len(), a.len() as int));
        }
    } else {
        assert(forall|s: Seq<Seq<u8>>| #[trigger] s.is_suffix_of(s)) by {
            assert forall|s: Seq<Seq<u8>>| #[trigger] s.is_suffix_of(s) by {
                assert(s =~= s.subrange(0, s.len() as int));
            }
        }
    }
}

/// Reading hands out one frame and stands it at the start of the buffer: the first that goes
/// ahead of all data, or else the first of the data once every connection in line has had a
/// turn. Every other frame stays.
#[verifier::rlimit(60)]
pub proof fn reading_hands_out_one_frame<H: TracedStream>(
    p: &NetProxy<H>,
    after: &NetProxy<H>,
    mid: NetProxy<H>,
    buf: Seq<u8>,
    buf_after: Seq<u8>,
    r: Result<usize, ReadError>,
)
    requires
        p.frame_read(after, mid, buf, buf_after, r),
        r matches Ok(n) ==> n <= buf.len(),
    ensures
        keeps_line(p) ==> keeps_line(after),
        r matches Ok(n) ==> {
            let frame = buf_after.take(n as int);
            &&& buf_after.len() == buf.len()
            &&& p.control().len() > 0 ==> p.control() == seq![frame] + after.control()
                && after.data() == p.data() && after.host_connections@ == p.host_connections@
            &&& p.control().len() == 0 ==> p.data().is_prefix_of(seq![frame] + after.data())
        },
        r is Err ==> buf_after == buf && p.control().len() == 0 && p.data().len() == 0
            && after.data().len() == 0,
        forall|t: usize|
            #![trigger p.host_connections@.dom().contains(t)]
            p.host_connections@.dom().contains(t) ==> after.host_connections@.dom().contains(t)
                && after.host_connections@[t]@.flow.to_vm_buffer.is_suffix_of(
                p.host_connections@[t]@.flow.to_vm_buffer,
            ),
{
    assert forall|s: Seq<Seq<u8>>| #[trigger] s.is_suffix_of(s) by {
        assert(s =~= s.subrange(0, s.len() as int));
    }
    if p.control().len() > 0 {
        let frame = p.control()[0];
        assert(buf_after.take(frame.len() as int) =~= frame);
        assert(p.control() =~= seq![frame] + after.control());
    } else {
        turns_lose_nothing(p, &mid, p.data_run_queue@.len());
        if mid.data().len() > 0 {
            let frame = mid.data()[0];
            assert(buf_after.take(frame.len() as int) =~= frame);
            assert(mid.data() =~= seq![frame] + after.data());
        }
        if keeps_line(p) {
            assert forall|u: usize|
                #![trigger after.host_connections@.dom().contains(u)]
                after.host_connections@.dom().contains(u)
                    && after.host_connections@[u]@.flow.is_in_run_queue implies after.data_run_queue@.contains(
                Token(u),
            ) by {
                assert(mid.host_connections@.dom().contains(u));
            }
        }
    }
}

/// Turns that move nothing pass connections without packets.
#[verifier::rlimit(60)]
proof fn idle_turns_pass<H: TracedStream>(p: &NetProxy<H>, after: &NetProxy<H>, turns: nat)
    requires
        p.turns_taken(after, turns),
        turns <= p.data_run_queue@.len(),
        after.data().len() == p.data().len(),
    ensures
        after.data_run_queue@ == p.data_run_queue@.skip(turns as int),
        forall|t: usize|
            #![trigger p.host_connections@.dom().contains(t)]
            p.host_connections@.dom().contains(t)
                ==> after.host_connections@[t]@.flow.to_vm_buffer
                == p.host_connections@[t]@.flow.to_vm_buffer,
        forall|i: int|
            0 <= i < turns && p.host_connections@.dom().contains(
                (#[trigger] p.data_run_queue@[i]).0,
            ) ==> p.host_connections@[p.data_run_queue@[i].0]@.flow.to_vm_buffer.len() == 0,
    decreases turns,
{
    let queue = p.data_run_queue@;
    if turns > 0 {
        let (mid, came) = choose|mid: NetProxy<H>, came: RegisterView| #[trigger]
            mid.turn_taken(after, came) && p.turns_taken(&mid, (turns - 1) as nat);
        turns_lose_nothing(p, &mid, (turns - 1) as nat);
        turn_moves_one_packet(&mid, after, came);
        idle_turns_pass(p, &mid, (turns - 1) as nat);
        let t = mid.data_run_queue@[0].0;
        assert(mid.data_run_queue@[0] == queue[turns - 1]);
        assert(mid.host_connections@.dom() == p.host_connections@.dom());
        let rest = mid.data_run_queue@.subrange(1, mid.data_run_queue@.len() as int);
        assert(rest =~= queue.skip(turns as int));
        assert forall|u: usize|
            #![trigger p.host_connections@.dom().contains(u)]
            p.host_connections@.dom().contains(u) implies after.host_connections@[u]@.flow.to_vm_buffer
            == p.host_connections@[u]@.flow.to_vm_buffer by {
            assert(mid.host_connections@.dom().contains(u));
            if u == t {
                let moved = after.data().skip(mid.data().len() as int);
                assert(moved.len() == 0);
                assert(moved + after.host_connections@[u]@.flow.to_vm_buffer
                    =~= after.host_connections@[u]@.flow.to_vm_buffer);
            }
        }
    } else {
        assert(queue.skip(0) =~= queue);
    }
}

/// Where nothing is read, nothing waits in line: no connection in line has a packet. And where
/// something waits, the machine is told that there is something to read.
pub proof fn silence_means_nothing_waits<H: TracedStream>(
    p: &NetProxy<H>,
    after: &NetProxy<H>,
    mid: NetProxy<H>,
    buf: Seq<u8>,
    buf_after: Seq<u8>,
    r: Result<usize, ReadError>,
    t: usize,
)
    requires
        p.frame_read(after, mid, buf, buf_after, r),
        p.data_run_queue@.contains(Token(t)),
        p.host_connections@.dom().contains(t),
        p.host_connections@[t]@.flow.to_vm_buffer.len() > 0,
    ensures
        r is Ok,
        p.has_frames(),
{
    if p.control().len() == 0 {
        let queue = p.data_run_queue@;
        let i = choose|i: int| 0 <= i < queue.len() && queue[i] == Token(t);
        turns_lose_nothing(p, &mid, queue.len());
        if r is Err {
            idle_turns_pass(p, &mid, queue.len());
            assert(queue[i].0 == t);
        }
    }
}

// --- Frames from the machine ---

/// A TCP packet of a flow that is known in neither direction: a SYN asks the host for a
/// connection to where it goes, with the machine's number, and anything else is passed over.
pub proof fn unknown_flow_is_opened_or_ignored<H: TracedStream>(
    p: &NetProxy<H>,
    after: &NetProxy<H>,
    src: IpAddr,
    dst: IpAddr,
    s: Seq<u8>,
    r: Result<Demand, WriteError>,
)
    requires
        p.frame_result(after, FrameView::Tcp(src, dst, s), r),
        !p.tcp_nat_table@.dom().contains((src, u16_at(s, 0), dst, u16_at(s, 2))),
        !p.tcp_nat_table@.dom().contains((dst, u16_at(s, 2), src, u16_at(s, 0))),
    ensures
        s[13] & 0x02 != 0 ==> {
            &&& r matches Ok(Demand::Connect { nat_key, sequence })
            &&& nat_key == (src, u16_at(s, 0), dst, u16_at(s, 2))
            &&& sequence == u32_at(s, 4)
        },
        s[13] & 0x02 == 0 ==> r matches Ok(Demand::Nothing),
        after.control() == p.control(),
        after.host_connections@ == p.host_connections@,
        after.tcp_nat_table@ == p.tcp_nat_table@,
{
}

/// A TCP packet of a flow that is known, in whichever direction, goes to the connection of that
/// flow and to no other: what that connection sends is queued for the machine behind all else.
#[verifier::rlimit(60)]
pub proof fn known_flow_takes_its_packet<H: TracedStream>(
    p: &NetProxy<H>,
    after: &NetProxy<H>,
    src: IpAddr,
    dst: IpAddr,
    s: Seq<u8>,
    r: Result<Demand, WriteError>,
    key: NatKey,
)
    requires
        p.frame_result(after, FrameView::Tcp(src, dst, s), r),
        p.tcp_nat_table@.dom().contains(key),
        key == (src, u16_at(s, 0), dst, u16_at(s, 2)) || (key == (
            dst,
            u16_at(s, 2),
            src,
            u16_at(s, 0),
        ) && !p.tcp_nat_table@.dom().contains((src, u16_at(s, 0), dst, u16_at(s, 2)))),
        p.host_connections@.dom().contains(p.tcp_nat_table@[key].0),
    ensures
        ({
            let t = p.tcp_nat_table@[key].0;
            let said = SegmentView {
                source: u16_at(s, 0),
                destination: u16_at(s, 2),
                sequence: u32_at(s, 4),
                acknowledgement: u32_at(s, 8),
                flags: s[13],
                window: u16_at(s, 14),
                payload: tcp_payload(s),
            };
            &&& exists|a: Answers|
                {
                    let step = #[trigger] packet_step(
                        p.host_connections@[t]@,
                        p.reverse_tcp_nat@[t],
                        said,
                        Token(t),
                        a,
                    );
                    &&& after.control() == p.control() + step.sends
                    &&& after.host_connections@.dom().contains(t)
                        ==> after.host_connections@[t]@ == step.next
                    &&& step.removes ==> after.connections_to_remove@.contains(Token(t))
                    &&& r is Err <==> step.fails
                }
            &&& forall|u: usize| #[trigger]
                p.host_connections@.dom().contains(u) && u != t
                    ==> after.host_connections@.dom().contains(u) && after.host_connections@[u]
                    == p.host_connections@[u]
            &&& after.tcp_nat_table@ == p.tcp_nat_table@
        }),
{
    let t = p.tcp_nat_table@[key];
    let said = segment_of(s);
    let a = choose|a: Answers| #[trigger] p.packet_handled(after, t, said, r, a);
    assert(p.socket_of(flow_of(src, dst, s)) == Some(t));
    let step = packet_step(
        p.host_connections@[t.0]@,
        p.reverse_tcp_nat@[t.0],
        said,
        t,
        a,
    );
    let pushed = p.connections_to_remove@.push(t);
    assert(pushed[p.connections_to_remove@.len() as int] == t);
}

/// An ARP packet is answered exactly where it is a request for the proxy's own address, by one
/// reply that gives the proxy's hardware address.
pub proof fn only_own_address_is_answered<H: TracedStream>(
    p: &NetProxy<H>,
    after: &NetProxy<H>,
    a: ArpPacket,
    r: Result<Demand, WriteError>,
)
    requires
        p.frame_result(after, FrameView::Arp(a), r),
    ensures
        ({
            let asked = a.operation == 1 && a.target_proto_addr == Ipv4Addr(192, 168, 100, 1);
            &&& asked ==> {
                &&& r matches Ok(Demand::Nothing)
                &&& after.control() == p.control().push(
                    arp_reply_frame(a, host_mac(), Ipv4Addr(192, 168, 100, 1)),
                )
            }
            &&& !asked ==> {
                &&& r matches Err(WriteError::NothingWritten)
                &&& after.control() == p.control()
            }
            &&& after.host_connections@ == p.host_connections@
        }),
{
}

/// Every datagram of the machine is to be sent, with its payload, to where it goes. The first of
/// a flow opens a socket under a number that no flow has yet, and every later one uses that
/// socket.
#[verifier::rlimit(60)]
pub proof fn datagrams_share_the_socket_of_their_flow<H: TracedStream>(
    p: &NetProxy<H>,
    between: &NetProxy<H>,
    after: &NetProxy<H>,
    src: IpAddr,
    dst: IpAddr,
    s: Seq<u8>,
    again: Seq<u8>,
    first: Result<Demand, WriteError>,
    second: Result<Demand, WriteError>,
)
    requires
        p.wf(),
        p.next_token < usize::MAX,
        p.frame_result(between, FrameView::Udp(src, dst, s), first),
        between.frame_result(after, FrameView::Udp(src, dst, again), second),
        u16_at(again, 0) == u16_at(s, 0),
        u16_at(again, 2) == u16_at(s, 2),
    ensures
        ({
            let key = (src, u16_at(s, 0), dst, u16_at(s, 2));
            let known = p.udp@.flows.dom().contains(key);
            &&& first matches Ok(Demand::SendUdp { token, nat_key, payload, open })
            &&& second matches Ok(Demand::SendUdp { token: t2, nat_key: k2, payload: p2, open: o2 })
            &&& nat_key == key && k2 == key
            &&& payload@ == s.skip(8) && p2@ == again.skip(8)
            &&& open == !known && !o2
            &&& t2 == token
            &&& known ==> token == p.udp@.flows[key] && between.next_token == p.next_token
            &&& after.next_token == between.next_token
            &&& !known ==> {
                &&& token == Token(p.next_token)
                &&& between.next_token == p.next_token + 1
                &&& forall|k: NatKey| #[trigger]
                    p.udp@.flows.dom().contains(k) ==> p.udp@.flows[k] != token
            }
            &&& after.control() == p.control()
            &&& after.host_connections@ == p.host_connections@
        }),
{
}

// --- Events ---

/// The datagrams that a UDP socket received reach the machine: one frame each, in their order,
/// with its payload, from the far end of the socket's flow to the machine's, behind all other
/// frames. The socket counts as used where any came.
pub proof fn datagrams_reach_the_machine<H: TracedStream>(
    p: &NetProxy<H>,
    after: &NetProxy<H>,
    token: Token,
    is_readable: bool,
    is_writable: bool,
    accepted: Option<H>,
    datagrams: Seq<Vec<u8>>,
    now: Instant,
)
    requires
        p.event_handled(
            after,
            token,
            is_readable,
            is_writable,
            accepted,
            datagrams,
            now,
        ),
        !p.unix_listeners@.dom().contains(token.0),
        !p.host_connections@.dom().contains(token.0),
        p.udp@.sockets.dom().contains(token.0),
    ensures
        ({
            let n = p.control().len() as int;
            &&& after.control().len() == n + datagrams.len()
            &&& after.control().take(n) == p.control()
            &&& forall|i: int|
                0 <= i < datagrams.len() ==> #[trigger] after.control()[n + i] == vm_datagram(
                    p.udp@.reverse[token.0],
                    datagrams[i]@,
                )
            &&& after.udp@.flows == p.udp@.flows
            &&& after.udp@.sockets == if datagrams.len() > 0 {
                p.udp@.sockets.insert(token.0, now)
            } else {
                p.udp@.sockets
            }
            &&& after.host_connections@ == p.host_connections@
        }),
{
    assert(after.control().take(p.control().len() as int) =~= p.control());
}

/// A stream that is given up is released after its last call, and nothing else is touched: an
/// accepted one that could not be registered leaves no trace, and one that could not be
/// registered for what it connects to leaves the table of connections alone.
#[verifier::rlimit(60)]
pub proof fn given_up_stream_is_released<H: TracedStream>(
    p: &NetProxy<H>,
    after: &NetProxy<H>,
    token: Token,
    is_readable: bool,
    is_writable: bool,
    accepted: Option<H>,
)
    requires
        p.event_given_up(after, token, is_readable, is_writable, accepted),
    ensures
        after.released@.len() == p.released@.len() + 1,
        after.released@.drop_last() == p.released@,
        after.next_token == p.next_token,
        after.tcp_nat_table@ == p.tcp_nat_table@,
        after.udp@ == p.udp@,
        p.unix_listeners@.dom().contains(token.0) ==> {
            &&& accepted matches Some(stream)
            &&& after.host_connections@ == p.host_connections@
            &&& after.control() == p.control()
            &&& after.released@.last().calls() == stream.calls().push(
                HostCall::Register {
                    token: Token(p.next_token),
                    interest: Interest::Readable,
                    ok: false,
                },
            )
        },
        !p.unix_listeners@.dom().contains(token.0) ==> {
            &&& !after.host_connections@.dom().contains(token.0)
            &&& after.released@.last().calls().len() > 0
            &&& after.released@.last().calls().last() is Deregister
            &&& forall|u: usize| #[trigger]
                p.host_connections@.dom().contains(u) && u != token.0
                    ==> after.host_connections@.dom().contains(u) && after.host_connections@[u]
                    == p.host_connections@[u]
        },
{
    assert(after.released@.drop_last() =~= p.released@);
    if !p.unix_listeners@.dom().contains(token.0) {
        let io = choose|io: EventIo| #[trigger]
            p.event_taken(after, token, is_readable, is_writable, io, true);
        let step = event_step(
            p.host_connections@[token.0]@,
            p.reverse_tcp_nat@[token.0],
            token,
            is_readable,
            is_writable,
            io,
        );
        assert(step.dropped);
        assert(step.calls.last() is Deregister);
        assert((p.host_connections@[token.0].host().calls() + step.calls).last()
            == step.calls.last());
    }
}

/// An event of a connection goes to that connection and to no other, and what it sends is queued
/// for the machine behind all else. After the event nothing is left to be removed, and idle UDP
/// sockets were looked for within the last thirty seconds.
#[verifier::rlimit(60)]
pub proof fn event_goes_to_its_connection<H: TracedStream>(
    p: &NetProxy<H>,
    a: NetProxy<H>,
    b: NetProxy<H>,
    after: &NetProxy<H>,
    token: Token,
    is_readable: bool,
    is_writable: bool,
    accepted: Option<H>,
    datagrams: Seq<Vec<u8>>,
    now: Instant,
)
    requires
        p.event_through(
            a,
            b,
            after,
            token,
            is_readable,
            is_writable,
            accepted,
            datagrams,
            now,
        ),
        !p.unix_listeners@.dom().contains(token.0),
        p.host_connections@.dom().contains(token.0),
    ensures
        ({
            let t = token.0;
            &&& exists|io: EventIo|
                {
                    let step = #[trigger] event_step(
                        p.host_connections@[t]@,
                        p.reverse_tcp_nat@[t],
                        token,
                        is_readable,
                        is_writable,
                        io,
                    );
                    &&& io_fits(
                        p.host_connections@[t]@,
                        p.reverse_tcp_nat@[t],
                        is_readable,
                        is_writable,
                        io,
                    )
                    &&& !step.dropped
                    &&& after.control() == p.control() + step.sends
                    &&& after.host_connections@.dom().contains(t) ==> {
                        &&& after.host_connections@[t]@ == step.next
                        &&& after.host_connections@[t].host().calls()
                            == p.host_connections@[t].host().calls() + step.calls
                    }
                }
            &&& after.host_connections@.dom().contains(t) <==> !p.connections_to_remove@.contains(
                token,
            )
            &&& forall|u: usize| #[trigger]
                p.host_connections@.dom().contains(u) && u != t
                    && !p.connections_to_remove@.contains(Token(u))
                    ==> after.host_connections@.dom().contains(u) && after.host_connections@[u]
                    == p.host_connections@[u]
            &&& after.connections_to_remove@.len() == 0
            &&& now - after.udp@.last_cleanup <= 30_000_000_000
        }),
{
    let io = choose|io: EventIo| #[trigger]
        p.event_taken(&a, token, is_readable, is_writable, io, false);
    let step = event_step(
        p.host_connections@[token.0]@,
        p.reverse_tcp_nat@[token.0],
        token,
        is_readable,
        is_writable,
        io,
    );
    assert(after.control() == a.control());
    assert forall|u: usize| #[trigger]
        p.host_connections@.dom().contains(u) && u != token.0 && !p.connections_to_remove@.contains(
            Token(u),
        ) implies after.host_connections@.dom().contains(u) && after.host_connections@[u]
        == p.host_connections@[u] by {
        assert(a.host_connections@.dom().contains(u));
    }
}

/// Connections that are to be removed leave every table, with their flows, and no other does.
/// Their streams are given back once their registration was ended.
#[verifier::rlimit(60)]
pub proof fn removed_connections_are_gone<H: TracedStream>(
    p: &NetProxy<H>,
    after: &NetProxy<H>,
    t: usize,
)
    requires
        p.wf(),
        p.drained(after),
        p.host_connections@.dom().contains(t),
    ensures
        after.connections_to_remove@.len() == 0,
        p.connections_to_remove@.contains(Token(t)) ==> {
            &&& !after.host_connections@.dom().contains(t)
            &&& !after.reverse_tcp_nat@.dom().contains(t)
            &&& !after.tcp_nat_table@.dom().contains(p.reverse_tcp_nat@[t])
        },
        !p.connections_to_remove@.contains(Token(t)) ==> {
            &&& after.host_connections@.dom().contains(t)
            &&& after.host_connections@[t] == p.host_connections@[t]
            &&& after.reverse_tcp_nat@.dom().contains(t)
        },
        p.connections_to_remove@.contains(Token(t)) ==> exists|i: int|
            p.released@.len() <= i < after.released@.len() && let_go_of(
                p.host_connections@[t].host().calls(),
                #[trigger] after.released@[i].calls(),
            ),
        after.control() == p.control(),
{
    let list = p.connections_to_remove@;
    if list.contains(Token(t)) {
        let i = choose|i: int| 0 <= i < list.len() && list[i] == Token(t);
        assert(p.reverse_tcp_nat@.dom().contains(list[i].0));
        assert(carried_by(p.reverse_tcp_nat@, list).contains(p.reverse_tcp_nat@[t]));
        removal_releases_every_stream(p.host_connections@, list, t);
        let left = leaving(p.host_connections@, list);
        let j = choose|j: int| 0 <= j < left.len() && left[j] == p.host_connections@[t];
        assert(deregistered(left[j].host().calls(), after.released@[p.released@.len() + j].calls()));
        assert(after.released@[p.released@.len() + j].calls().drop_last()
            =~= p.host_connections@[t].host().calls());
    }
}

} // verus!
