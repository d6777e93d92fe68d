//! What holds of a connection over more than one step.
use vstd::prelude::*;

use crate::addr::{NatKey, Token};
use crate::buffer::{flat, flat_drop_bytes, flat_push};
use crate::direct_proxy::events::{
    established_event, event_step, io_fits, queue_chunks, EventIo,
};
use crate::direct_proxy::packets::{
    answers_fit, data_step, established_step, packet_step, Answers,
};
use crate::direct_proxy::{ConnView, Flow, Phase, MAX_PROXY_QUEUE_SIZE, READ_BUFFER_SIZE};
use crate::host::{
    drain_run, received, sent, sent_adds, write_run_sends, HostCall, ReadView, WriteView,
    DRAIN_LIMIT,
};
use crate::seqnum::low32;
use crate::tcp_fsm::model::{first_chunk, SegmentView};
use crate::tcp_laws::{carries, number_at, Stream};
use crate::vm_frames::{vm_ack, vm_frame};
use crate::wire::{ACK, FIN, FIN_ACK, PSH_ACK, RST, RST_ACK};

verus! {

/// What the host has been given and what still waits for it are, together, the first `n` bytes
/// of what the machine sends.
pub open spec fn holds_first(m: Stream, f: Flow, given: Seq<u8>, n: int) -> bool {
    &&& 0 <= n <= m.data.len()
    &&& given + flat(f.write_buffer) == m.data.take(n)
}

/// The same, and the next packet in turn starts behind them.
pub open spec fn in_order(m: Stream, f: Flow, given: Seq<u8>, n: int) -> bool {
    holds_first(m, f, given, n) && f.tx_ack == number_at(m.start, n)
}

/// Calls that write nothing send nothing.
pub(crate) proof fn sent_no_more(calls: Seq<HostCall>, more: HostCall)
    requires
        !(more is Write),
    ensures
        sent(calls.push(more)) == sent(calls),
{
    assert(calls.push(more).drop_last() =~= calls);
}

proof fn sent_one(data: Seq<u8>, took: WriteView, more: HostCall)
    requires
        !(more is Write),
    ensures
        ({
            let wrote = Seq::<HostCall>::empty().push(HostCall::Write { data, took });
            let taken = match took {
                WriteView::Wrote(k) => data.take(k as int),
                _ => Seq::empty(),
            };
            &&& sent(wrote) == taken
            &&& sent(wrote.push(more)) == taken
        }),
{
    reveal_with_fuel(sent, 3);
    let none = Seq::<HostCall>::empty();
    let wrote = none.push(HostCall::Write { data, took });
    assert(wrote.drop_last() =~= none);
    assert(wrote.push(more).drop_last() =~= wrote);
    assert(sent(wrote) =~= match took {
        WriteView::Wrote(k) => data.take(k as int),
        _ => Seq::empty(),
    });
}

/// What the machine sends reaches the host in order, each byte once: whatever the next packet
/// is and however much of it the host takes at once, what the host has been given and what
/// waits for it stay a first part of the stream. A packet in turn whose data is taken over makes
/// it longer by exactly its payload, is the only one that does, and is answered by exactly one
/// acknowledgement, of that part and no more. A FIN counts as one more
/// number behind the data.
pub proof fn packet_keeps_order(
    m: Stream,
    f: Flow,
    given: Seq<u8>,
    n: int,
    key: NatKey,
    t: SegmentView,
    off: int,
    token: Token,
    a: Answers,
) -> (r: int)
    requires
        in_order(m, f, given, n),
        t.flags & RST == 0,
        carries(m, off, t.payload),
        t.sequence == number_at(m.start, off),
        n - 0x1_0000_0000 < off < n + 0x1_0000_0000,
        answers_fit(t.payload, a),
    ensures
        r == n || (off == n && r == n + t.payload.len()),
        ({
            let step = established_step(f, key, t, token, a);
            let end = off == n && t.flags & FIN != 0;
            &&& !step.fails ==> {
                &&& holds_first(m, step.next.flow, given + sent(step.calls), r)
                &&& step.next.flow.tx_ack == number_at(m.start, r + (if end {
                    1int
                } else {
                    0int
                }))
            }
            &&& off == n && !step.fails && !step.removes ==> r == n + t.payload.len()
            &&& off == n && !step.fails && !step.removes && t.payload.len() > 0 ==> step.sends
                == seq![
                vm_ack(
                    key,
                    f.tx_seq,
                    number_at(m.start, n + t.payload.len() + (if end {
                        1int
                    } else {
                        0int
                    })),
                ),
            ]
        }),
{
    let step = established_step(f, key, t, token, a);
    let data_calls = data_step(f, t.payload, token, a).3;
    sent_no_more(data_calls, HostCall::ShutdownWrite { ok: a.shut });
    let none = Seq::<HostCall>::empty();
    assert(sent(none) =~= Seq::<u8>::empty());
    assert(given + sent(none) =~= given);
    if t.sequence != f.tx_ack {
        n
    } else {
        assert(off == n);
        let p = t.payload;
        let again = HostCall::Reregister {
            token,
            interest: crate::addr::Interest::Both,
            came: a.registered,
        };
        let all = m.data.take((n + p.len()) as int);
        assert(f.tx_ack.wrapping_add(low32(p.len())) == number_at(m.start, n + p.len()));
        assert(all =~= m.data.take(n) + p);
        sent_one(p, a.took, again);
        if p.len() == 0 {
            n
        } else if f.write_buffer.len() > 0 {
            flat_push(f.write_buffer, p);
            assert(given + (flat(f.write_buffer) + p) =~= all);
            n + p.len()
        } else {
            assert(f.write_buffer =~= Seq::<Seq<u8>>::empty());
            assert(given =~= m.data.take(n));
            match a.took {
                WriteView::Wrote(k) => {
                    let rest = p.skip(k as int);
                    flat_push(f.write_buffer, rest);
                    assert((given + p.take(k as int)) + (flat(f.write_buffer) + rest) =~= all);
                    if k == p.len() {
                        assert((given + p.take(k as int)) + flat(f.write_buffer) =~= all);
                    }
                    n + p.len()
                },
                WriteView::WouldBlock => {
                    flat_push(f.write_buffer, p);
                    assert((given + Seq::<u8>::empty()) + (flat(f.write_buffer) + p) =~= all);
                    n + p.len()
                },
                WriteView::Failed => {
                    assert(given + Seq::<u8>::empty() =~= given);
                    n
                },
            }
        }
    }
}

/// A packet out of turn is ignored: nothing is sent, the host is not called, and the connection
/// stays as it is.
pub proof fn out_of_turn_is_ignored(f: Flow, key: NatKey, t: SegmentView, token: Token, a: Answers)
    requires
        t.sequence != f.tx_ack,
    ensures
        ({
            let step = established_step(f, key, t, token, a);
            &&& step.next == (ConnView { phase: Phase::Established, flow: f })
            &&& step.place is Kept
            &&& step.sends.len() == 0
            &&& step.calls.len() == 0
            &&& !step.removes && !step.fails
        }),
{
}

/// The packets that some data makes, in order, each with the sequence number of its first byte.
pub open spec fn pieces(key: NatKey, tx_seq: u32, tx_ack: u32, data: Seq<u8>) -> Seq<Seq<u8>>
    decreases data.len(),
{
    if data.len() == 0 {
        Seq::empty()
    } else {
        let chunk = first_chunk(data);
        seq![vm_frame(key, tx_seq, tx_ack, chunk, PSH_ACK, 0xffff)] + pieces(
            key,
            tx_seq.wrapping_add(chunk.len() as u32),
            tx_ack,
            data.skip(chunk.len() as int),
        )
    }
}

/// Data from the host goes to the machine whole and in order, behind what waits already.
pub proof fn data_is_queued_in_order(f: Flow, key: NatKey, data: Seq<u8>)
    ensures
        queue_chunks(f, key, data) == (Flow {
            to_vm_buffer: f.to_vm_buffer + pieces(key, f.tx_seq, f.tx_ack, data),
            tx_seq: f.tx_seq.wrapping_add(low32(data.len())),
            ..f
        }),
    decreases data.len(),
{
    if data.len() == 0 {
        assert(f.to_vm_buffer + pieces(key, f.tx_seq, f.tx_ack, data) =~= f.to_vm_buffer);
        assert(low32(0) == 0);
    } else {
        let chunk = first_chunk(data);
        let rest = data.skip(chunk.len() as int);
        let next = Flow {
            to_vm_buffer: f.to_vm_buffer.push(
                vm_frame(key, f.tx_seq, f.tx_ack, chunk, PSH_ACK, 0xffff),
            ),
            tx_seq: f.tx_seq.wrapping_add(chunk.len() as u32),
            ..f
        };
        data_is_queued_in_order(next, key, rest);
        assert(low32(chunk.len()) == chunk.len() as u32);
        crate::seqnum::lengths_add_up(f.tx_seq, chunk.len(), rest.len());
        assert(next.to_vm_buffer + pieces(key, next.tx_seq, f.tx_ack, rest) =~= f.to_vm_buffer
            + pieces(key, f.tx_seq, f.tx_ack, data));
    }
}

/// A readiness event keeps the order: what the host takes is what is next, and nothing that
/// waits is lost.
pub proof fn event_keeps_order(
    m: Stream,
    f: Flow,
    given: Seq<u8>,
    n: int,
    key: NatKey,
    token: Token,
    is_readable: bool,
    is_writable: bool,
    paused: bool,
    io: EventIo,
)
    requires
        in_order(m, f, given, n),
        io_fits(
            ConnView { phase: Phase::Established, flow: f },
            is_readable,
            is_writable,
            io,
        ),
    ensures
        in_order(
            m,
            established_event(f, key, token, is_readable, is_writable, paused, io).next.flow,
            given + (if is_writable {
                sent(io.writes)
            } else {
                Seq::empty()
            }),
            n,
        ),
{
    let wrote = if is_writable {
        Flow {
            write_buffer: crate::buffer::drop_bytes(f.write_buffer, io.written),
            ..f
        }
    } else {
        f
    };
    if is_writable {
        write_run_sends(f.write_buffer, io.writes, io.written as int, io.end);
        flat_drop_bytes(f.write_buffer, io.written);
        let q = flat(f.write_buffer);
        assert((given + sent(io.writes)) + q.skip(io.written as int) =~= given + q);
    } else {
        assert(given + Seq::<u8>::empty() =~= given);
    }
    match io.got {
        ReadView::Data(d) => {
            data_is_queued_in_order(wrote, key, d);
        },
        _ => {},
    }
}

/// While reading from the host is paused, it is not read from: nothing is received, and what
/// waits for the machine does not grow.
pub proof fn paused_is_not_read(
    f: Flow,
    key: NatKey,
    token: Token,
    is_readable: bool,
    is_writable: bool,
    io: EventIo,
)
    requires
        io_fits(
            ConnView { phase: Phase::Established, flow: f },
            is_readable,
            is_writable,
            io,
        ),
    ensures
        ({
            let step = established_event(f, key, token, is_readable, is_writable, true, io);
            &&& received(step.calls) == Seq::<u8>::empty()
            &&& step.next.flow.to_vm_buffer == f.to_vm_buffer
            &&& step.paused
        }),
{
    let step = established_event(f, key, token, is_readable, is_writable, true, io);
    let writes = if is_writable {
        io.writes
    } else {
        Seq::empty()
    };
    if is_writable {
        write_run_sends(f.write_buffer, io.writes, io.written as int, io.end);
    }
    assert(writes + Seq::<HostCall>::empty() =~= writes);
    assert(step.calls.len() > writes.len());
    assert(step.calls.drop_last() =~= writes);
    assert(received(writes) =~= Seq::<u8>::empty());
    assert(!(step.calls.last() is Read));
    assert(received(step.calls) =~= Seq::<u8>::empty());
}

/// Reading is paused exactly when it was already or at least the limit waits for the machine,
/// for as long as the connection stays open.
pub proof fn long_queue_pauses(
    f: Flow,
    key: NatKey,
    token: Token,
    is_readable: bool,
    is_writable: bool,
    paused: bool,
    io: EventIo,
)
    ensures
        ({
            let step = established_event(f, key, token, is_readable, is_writable, paused, io);
            step.next.phase is Established && !step.removes ==> (step.paused <==> paused
                || step.next.flow.to_vm_buffer.len() >= MAX_PROXY_QUEUE_SIZE)
        }),
{
}

// --- Closing ---

/// When the host ends the connection, the machine is sent a FIN behind all that was queued, and
/// its acknowledgement of that FIN has the connection removed.
pub proof fn host_close_completes(
    f: Flow,
    key: NatKey,
    token: Token,
    is_writable: bool,
    io: EventIo,
    t: SegmentView,
    a: Answers,
)
    requires
        io.got == ReadView::Data(Seq::empty()),
        t.flags & ACK != 0,
    ensures
        ({
            let v = ConnView { phase: Phase::Established, flow: f };
            let step = event_step(v, key, token, true, is_writable, false, io);
            &&& step.next.phase is Closing
            &&& step.sends == seq![
                vm_frame(key, f.tx_seq, f.tx_ack, Seq::empty(), FIN_ACK, 0xffff),
            ]
            &&& step.next.flow.tx_seq == f.tx_seq.wrapping_add(1)
            &&& t.acknowledgement == step.next.flow.tx_seq ==> packet_step(
                step.next,
                key,
                t,
                token,
                a,
            ).removes
        }),
{
}

/// When the machine ends the connection in turn, its FIN is acknowledged behind all its data,
/// and the host is told that nothing more will be written.
pub proof fn machine_close_is_passed_on(
    f: Flow,
    key: NatKey,
    t: SegmentView,
    token: Token,
    a: Answers,
)
    requires
        t.sequence == f.tx_ack,
        t.flags & FIN != 0,
        t.flags & RST == 0,
    ensures
        ({
            let step = established_step(f, key, t, token, a);
            let end = f.tx_ack.wrapping_add(low32(t.payload.len())).wrapping_add(1);
            !step.fails && !step.removes ==> {
                &&& step.next.phase is Closing
                &&& step.sends == seq![vm_frame(key, f.tx_seq, end, Seq::empty(), ACK, 0xffff)]
                &&& step.calls.last() == (HostCall::ShutdownWrite { ok: a.shut })
            }
        }),
{
}

/// A reset ends the connection from either side: one from the machine, in turn, has it removed,
/// and one of the host is passed on and has it removed.
pub proof fn reset_removes(
    f: Flow,
    key: NatKey,
    t: SegmentView,
    token: Token,
    a: Answers,
    is_writable: bool,
    io: EventIo,
)
    requires
        t.sequence == f.tx_ack,
        t.flags & RST != 0,
        io.got is Reset,
    ensures
        established_step(f, key, t, token, a).removes,
        ({
            let step = established_event(f, key, token, true, is_writable, false, io);
            &&& step.removes
            &&& step.sends == seq![
                vm_frame(key, f.tx_seq, f.tx_ack, Seq::empty(), RST_ACK, 0xffff),
            ]
        }),
{
}

/// Reading what a closing stream still has writes nothing.
pub proof fn draining_sends_nothing(calls: Seq<HostCall>, max: nat, limit: nat)
    requires
        drain_run(calls, max, limit),
    ensures
        sent(calls) == Seq::<u8>::empty(),
    decreases limit,
{
    if limit > 0 {
        let first = calls.take(1);
        let rest = calls.skip(1);
        assert(first + rest =~= calls);
        sent_adds(first, rest);
        assert(first =~= Seq::<HostCall>::empty().push(calls[0]));
        sent_no_more(Seq::empty(), calls[0]);
        match calls[0] {
            HostCall::Read { got: ReadView::Data(d), .. } => {
                if d.len() > 0 {
                    draining_sends_nothing(rest, max, (limit - 1) as nat);
                } else {
                    assert(rest =~= Seq::<HostCall>::empty());
                }
            },
            _ => {
                assert(rest =~= Seq::<HostCall>::empty());
            },
        }
        assert(sent(calls) =~= Seq::<u8>::empty());
    }
}

/// A connection that is closing stays so until it is removed: no packet and no event opens it
/// again, and nothing more is written to the host.
pub proof fn closing_stays_closing(
    f: Flow,
    key: NatKey,
    t: SegmentView,
    token: Token,
    a: Answers,
    is_readable: bool,
    is_writable: bool,
    paused: bool,
    io: EventIo,
)
    requires
        io_fits(
            ConnView { phase: Phase::Closing, flow: f },
            is_readable,
            is_writable,
            io,
        ),
    ensures
        ({
            let v = ConnView { phase: Phase::Closing, flow: f };
            let packet = packet_step(v, key, t, token, a);
            let event = event_step(v, key, token, is_readable, is_writable, paused, io);
            &&& packet.next.phase is Closing && packet.calls.len() == 0
            &&& event.next == v && event.sends.len() == 0
            &&& sent(event.calls) == Seq::<u8>::empty()
        }),
{
    if is_readable {
        draining_sends_nothing(io.drain, READ_BUFFER_SIZE as nat, DRAIN_LIMIT as nat);
    }
}

} // verus!
