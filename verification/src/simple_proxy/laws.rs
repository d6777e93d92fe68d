//! What holds of a connection over more than one step.
use vstd::prelude::*;

use crate::addr::{Interest, NatKey, Token};
use crate::buffer::{flat, flat_drop_bytes, flat_push};
use crate::direct_proxy::laws::{draining_sends_nothing, pieces, sent_no_more};
use crate::host::{
    sent, sent_adds, write_run_sends, HostCall, HostError, ReadView, WriteView, DRAIN_LIMIT,
};
use crate::seqnum::low32;
use crate::simple_proxy::events::{
    established_event, event_step, io_fits, queue_chunk, queue_chunks, reads_run, socket_read,
    written_off, EventIo,
};
use crate::simple_proxy::packets::{
    answers_fit, established_step, packet_step, pruned, stays, write_all_run, AllEnd, Answers,
};
use crate::simple_proxy::{
    ConnView, Flow, Phase, BACKPRESSURE_THRESHOLD, MAX_CONN_BUFFER_SIZE, READ_BUFFER_SIZE,
};
use crate::tcp_fsm::model::{first_chunk, SegmentView};
use crate::tcp_laws::{carries, Stream};
use crate::vm_frames::vm_frame;
use crate::wire::{ACK, FIN, FIN_ACK, RST};

verus! {

/// The packets for the machine never number more than the limit, unless they did before: where
/// there is no room, data from the host is dropped. What is queued is the beginning of the
/// data, in order, behind what waits already; `r` tells how much.
pub proof fn queue_is_bounded(f: Flow, key: NatKey, data: Seq<u8>) -> (r: int)
    ensures
        0 <= r <= data.len(),
        ({
            let after = queue_chunks(f, key, data);
            &&& after == (Flow {
                to_vm_buffer: f.to_vm_buffer + pieces(key, f.tx_seq, f.tx_ack, data.take(r)),
                tx_seq: f.tx_seq.wrapping_add(low32(r as nat)),
                ..f
            })
            &&& after.to_vm_buffer.len() <= MAX_CONN_BUFFER_SIZE || after == f
            &&& r < data.len() ==> after.to_vm_buffer.len() >= MAX_CONN_BUFFER_SIZE
        }),
    decreases data.len(),
{
    let after = queue_chunks(f, key, data);
    if data.len() == 0 || f.to_vm_buffer.len() >= MAX_CONN_BUFFER_SIZE {
        let none = pieces(key, f.tx_seq, f.tx_ack, data.take(0));
        assert(f.to_vm_buffer + none =~= f.to_vm_buffer);
        assert(low32(0) == 0);
        0
    } else {
        let chunk = first_chunk(data);
        let rest = data.skip(chunk.len() as int);
        let next = queue_chunk(f, key, chunk);
        let k = queue_is_bounded(next, key, rest);
        let r = k + chunk.len();
        let part = data.take(r);
        assert(first_chunk(part) =~= chunk);
        assert(part.skip(chunk.len() as int) =~= rest.take(k));
        assert(low32(chunk.len()) == chunk.len() as u32);
        crate::seqnum::lengths_add_up(f.tx_seq, chunk.len(), k as nat);
        assert(next.to_vm_buffer + pieces(key, next.tx_seq, f.tx_ack, rest.take(k))
            =~= f.to_vm_buffer + pieces(key, f.tx_seq, f.tx_ack, part));
        r
    }
}

/// However often the host is read from for one event, the packets for the machine stay within
/// the limit, and a connection with many packets waiting is not read from at all.
pub proof fn reading_is_bounded(
    f: Flow,
    key: NatKey,
    calls: Seq<HostCall>,
    after: Flow,
    error: Option<HostError>,
)
    requires
        socket_read(f, key, calls, after, error),
    ensures
        after.to_vm_buffer.len() <= MAX_CONN_BUFFER_SIZE || after == f,
        f.to_vm_buffer.len() >= BACKPRESSURE_THRESHOLD ==> calls.len() == 0 && after == f,
{
    if f.to_vm_buffer.len() < BACKPRESSURE_THRESHOLD {
        runs_are_bounded(
            f,
            key,
            calls,
            crate::simple_proxy::HOST_READ_BUDGET as nat,
            after,
            error,
        );
    }
}

proof fn runs_are_bounded(
    f: Flow,
    key: NatKey,
    calls: Seq<HostCall>,
    budget: nat,
    after: Flow,
    error: Option<HostError>,
)
    requires
        reads_run(f, key, calls, budget, after, error),
        f.to_vm_buffer.len() <= MAX_CONN_BUFFER_SIZE,
    ensures
        after.to_vm_buffer.len() <= MAX_CONN_BUFFER_SIZE,
    decreases budget,
{
    if budget > 0 {
        match calls[0] {
            HostCall::Read { max, got: ReadView::Data(d) } => {
                if d.len() > 0 {
                    let r = queue_is_bounded(f, key, d);
                    runs_are_bounded(
                        queue_chunks(f, key, d),
                        key,
                        calls.skip(1),
                        (budget - 1) as nat,
                        after,
                        error,
                    );
                }
            },
            _ => {},
        }
    }
}

/// Reading ends with an error exactly where the last read shows one: the end of the stream is
/// an unexpected end, a reset is a reset, and a read that failed gives its own error.
pub proof fn reading_tells_why_it_ended(
    f: Flow,
    key: NatKey,
    calls: Seq<HostCall>,
    after: Flow,
    error: Option<HostError>,
)
    requires
        socket_read(f, key, calls, after, error),
    ensures
        error == (if calls.len() == 0 {
            None
        } else {
            read_error(calls.last())
        }),
{
    if f.to_vm_buffer.len() < BACKPRESSURE_THRESHOLD {
        run_tells_why_it_ended(
            f,
            key,
            calls,
            crate::simple_proxy::HOST_READ_BUDGET as nat,
            after,
            error,
        );
    }
}

/// The error that a read shows.
pub open spec fn read_error(call: HostCall) -> Option<HostError> {
    match call {
        HostCall::Read { got: ReadView::Data(d), .. } => if d.len() == 0 {
            Some(HostError::UnexpectedEof)
        } else {
            None
        },
        HostCall::Read { got: ReadView::Reset, .. } => Some(HostError::ConnectionReset),
        HostCall::Read { got: ReadView::Failed(e), .. } => Some(e),
        _ => None,
    }
}

proof fn run_tells_why_it_ended(
    f: Flow,
    key: NatKey,
    calls: Seq<HostCall>,
    budget: nat,
    after: Flow,
    error: Option<HostError>,
)
    requires
        reads_run(f, key, calls, budget, after, error),
    ensures
        calls.len() == 0 ==> error is None,
        calls.len() > 0 ==> error == read_error(calls.last()),
    decreases budget,
{
    if budget > 0 {
        match calls[0] {
            HostCall::Read { max, got: ReadView::Data(d) } => {
                if d.len() > 0 {
                    run_tells_why_it_ended(
                        queue_chunks(f, key, d),
                        key,
                        calls.skip(1),
                        (budget - 1) as nat,
                        after,
                        error,
                    );
                }
            },
            _ => {},
        }
    }
}

/// Data that is written to the end reaches the host whole and in order; data that is not
/// written to the end reaches it in part, from the beginning.
pub proof fn written_data_is_sent(data: Seq<u8>, calls: Seq<HostCall>, end: AllEnd)
    requires
        write_all_run(data, calls, end),
    ensures
        sent(calls).len() <= data.len(),
        sent(calls) == data.take(sent(calls).len() as int),
        end == AllEnd::Done <==> sent(calls) == data,
    decreases data.len(),
{
    reveal_with_fuel(sent, 2);
    if data.len() == 0 {
        assert(sent(calls) =~= data);
    } else {
        let first = calls.take(1);
        let rest = calls.skip(1);
        assert(first + rest =~= calls);
        sent_adds(first, rest);
        assert(first.drop_last() =~= Seq::<HostCall>::empty());
        match calls[0] {
            HostCall::Write { data: d, took: WriteView::Wrote(n) } => {
                if n > 0 {
                    let left = data.skip(n as int);
                    written_data_is_sent(left, rest, end);
                    assert(sent(calls) =~= data.take(n as int) + sent(rest));
                    assert(sent(calls) =~= data.take(sent(calls).len() as int));
                    if sent(calls) == data {
                        assert(sent(rest) =~= left);
                    }
                    if end == AllEnd::Done {
                        assert(sent(calls) =~= data);
                    }
                } else {
                    assert(rest =~= Seq::<HostCall>::empty());
                    assert(sent(calls) =~= Seq::<u8>::empty());
                }
            },
            _ => {
                assert(rest =~= Seq::<HostCall>::empty());
                assert(sent(calls) =~= Seq::<u8>::empty());
            },
        }
    }
}

/// An acknowledgement takes off exactly the packets whose data it covers to the end.
pub proof fn ack_takes_off_what_it_covers(q: Seq<Seq<u8>>, ack: u32)
    ensures
        forall|p: Seq<u8>|
            #![trigger pruned(q, ack).contains(p)]
            pruned(q, ack).contains(p) <==> q.contains(p) && stays(p, ack),
    decreases q.len(),
{
    reveal(Seq::filter);
    let kept = pruned(q, ack);
    if q.len() > 0 {
        let front = q.drop_last();
        let sub = pruned(front, ack);
        ack_takes_off_what_it_covers(front, ack);
        assert(kept == if stays(q.last(), ack) {
            sub.push(q.last())
        } else {
            sub
        });
        assert forall|p: Seq<u8>| #![trigger kept.contains(p)] kept.contains(p) <==> q.contains(p)
            && stays(p, ack) by {
            if kept.contains(p) {
                let i = choose|i: int| 0 <= i < kept.len() && kept[i] == p;
                if i < sub.len() {
                    assert(sub.contains(sub[i]));
                    let a = choose|a: int| 0 <= a < front.len() && front[a] == p;
                    assert(q[a] == p);
                } else {
                    assert(q[q.len() - 1] == p);
                }
            }
            if q.contains(p) && stays(p, ack) {
                let a = choose|a: int| 0 <= a < q.len() && q[a] == p;
                if a < front.len() {
                    assert(front[a] == p);
                    assert(front.contains(p));
                    assert(sub.contains(p));
                    let i = choose|i: int| 0 <= i < sub.len() && sub[i] == p;
                    assert(kept[i] == p);
                } else {
                    assert(kept[kept.len() - 1] == p);
                }
            }
        }
    }
}

// --- From the machine to the host ---

/// What the host has been given and what still waits for it are, together, the first `n` bytes
/// of what the machine sends.
pub open spec fn holds_first(m: Stream, f: Flow, given: Seq<u8>, n: int) -> bool {
    &&& 0 <= n <= m.data.len()
    &&& given + flat(f.write_buffer) == m.data.take(n)
}

/// A machine that sends its stream in turn has it given to the host in order, for as long as
/// nothing waits when data comes and the host takes data whole or not at all. Data that is
/// written while older data waits goes ahead of it, and data that the host takes in part is
/// written again whole.
pub proof fn packet_keeps_order(
    m: Stream,
    f: Flow,
    given: Seq<u8>,
    n: int,
    key: NatKey,
    t: SegmentView,
    token: Token,
    a: Answers,
)
    requires
        holds_first(m, f, given, n),
        t.flags & RST == 0,
        carries(m, n, t.payload),
        answers_fit(ConnView { phase: Phase::Established, flow: f }, t, a),
        t.payload.len() > 0 ==> f.write_buffer.len() == 0,
        t.payload.len() > 0 && a.end == AllEnd::WouldBlock ==> sent(a.writes).len() == 0,
    ensures
        ({
            let step = established_step(f, key, t, token, a);
            !step.fails && !step.removes ==> holds_first(
                m,
                step.next.flow,
                given + sent(step.calls),
                n + t.payload.len(),
            )
        }),
{
    let step = established_step(f, key, t, token, a);
    let data = t.payload;
    let all = m.data.take((n + data.len()) as int);
    assert(all =~= m.data.take(n) + data);
    let writes = if data.len() > 0 {
        a.writes
    } else {
        Seq::empty()
    };
    let again = HostCall::Reregister { token, interest: Interest::Both, came: a.registered };
    sent_no_more(writes, again);
    sent_no_more(writes, HostCall::ShutdownWrite { ok: a.shut });
    sent_no_more(writes.push(again), HostCall::ShutdownWrite { ok: a.shut });
    assert(sent(step.calls) == sent(writes));
    if data.len() > 0 {
        assert(f.write_buffer =~= Seq::<Seq<u8>>::empty());
        assert(given =~= m.data.take(n));
        written_data_is_sent(data, a.writes, a.end);
        flat_push(f.write_buffer, data);
        match a.end {
            AllEnd::Done => {
                assert((given + data) + flat(f.write_buffer) =~= all);
            },
            AllEnd::WouldBlock => {
                assert(sent(a.writes) =~= Seq::<u8>::empty());
                assert((given + sent(a.writes)) + (flat(f.write_buffer) + data) =~= all);
            },
            AllEnd::Failed => {},
        }
    } else {
        assert(sent(writes) =~= Seq::<u8>::empty());
        assert(given + sent(writes) =~= given);
        assert(all =~= m.data.take(n));
    }
}

/// A readiness event keeps the order: what the host takes is what is next, and nothing that
/// waits is lost.
pub proof fn event_keeps_order(
    m: Stream,
    f: Flow,
    given: Seq<u8>,
    n: int,
    key: NatKey,
    token: Token,
    is_readable: bool,
    is_writable: bool,
    io: EventIo,
)
    requires
        holds_first(m, f, given, n),
        io_fits(
            ConnView { phase: Phase::Established, flow: f },
            key,
            is_readable,
            is_writable,
            io,
        ),
    ensures
        holds_first(
            m,
            established_event(f, key, token, is_readable, is_writable, io).next.flow,
            given + (if is_writable {
                sent(io.writes)
            } else {
                Seq::empty()
            }),
            n,
        ),
{
    let wrote = if is_writable {
        written_off(f, io.written)
    } else {
        f
    };
    if is_writable {
        write_run_sends(f.write_buffer, io.writes, io.written as int, io.end);
        flat_drop_bytes(f.write_buffer, io.written);
        let q = flat(f.write_buffer);
        assert((given + sent(io.writes)) + q.skip(io.written as int) =~= given + q);
    } else {
        assert(given + Seq::<u8>::empty() =~= given);
    }
    if is_readable {
        reading_keeps_writes(wrote, key, io.reads, io.read, io.error);
    }
}

/// Reading from the host leaves alone what waits for it.
proof fn reading_keeps_writes(
    f: Flow,
    key: NatKey,
    calls: Seq<HostCall>,
    after: Flow,
    error: Option<HostError>,
)
    requires
        socket_read(f, key, calls, after, error),
    ensures
        after.write_buffer == f.write_buffer,
{
    if f.to_vm_buffer.len() < BACKPRESSURE_THRESHOLD {
        runs_keep_writes(
            f,
            key,
            calls,
            crate::simple_proxy::HOST_READ_BUDGET as nat,
            after,
            error,
        );
    }
}

proof fn runs_keep_writes(
    f: Flow,
    key: NatKey,
    calls: Seq<HostCall>,
    budget: nat,
    after: Flow,
    error: Option<HostError>,
)
    requires
        reads_run(f, key, calls, budget, after, error),
    ensures
        after.write_buffer == f.write_buffer,
    decreases budget,
{
    if budget > 0 {
        match calls[0] {
            HostCall::Read { max, got: ReadView::Data(d) } => {
                if d.len() > 0 {
                    let r = queue_is_bounded(f, key, d);
                    runs_keep_writes(
                        queue_chunks(f, key, d),
                        key,
                        calls.skip(1),
                        (budget - 1) as nat,
                        after,
                        error,
                    );
                }
            },
            _ => {},
        }
    }
}

// --- Closing ---

/// When the host turns out to be gone, the machine is sent a FIN behind all that was queued,
/// and its acknowledgement of that FIN has the connection removed.
pub proof fn host_close_completes(
    f: Flow,
    key: NatKey,
    token: Token,
    is_writable: bool,
    io: EventIo,
    t: SegmentView,
    a: Answers,
)
    requires
        io.error is Some,
        t.flags & ACK != 0,
    ensures
        ({
            let v = ConnView { phase: Phase::Established, flow: f };
            let step = event_step(v, key, token, true, is_writable, io);
            &&& step.next.phase is Closing
            &&& step.sends == seq![
                vm_frame(key, io.read.tx_seq, io.read.tx_ack, Seq::empty(), FIN_ACK, 0xffff),
            ]
            &&& step.next.flow.tx_seq == io.read.tx_seq.wrapping_add(1)
            &&& t.acknowledgement == step.next.flow.tx_seq ==> packet_step(
                step.next,
                key,
                t,
                token,
                a,
            ).removes
        }),
{
}

/// When the machine ends the connection, its FIN is acknowledged behind all its data, and the
/// host is told that nothing more will be written.
pub proof fn machine_close_is_passed_on(
    f: Flow,
    key: NatKey,
    t: SegmentView,
    token: Token,
    a: Answers,
)
    requires
        t.flags & FIN != 0,
        t.flags & RST == 0,
        t.payload.len() == 0 || a.end == AllEnd::Done,
    ensures
        ({
            let step = established_step(f, key, t, token, a);
            let end = f.tx_ack.wrapping_add(low32(t.payload.len())).wrapping_add(1);
            &&& step.next.phase is Closing
            &&& step.sends == seq![vm_frame(key, f.tx_seq, end, Seq::empty(), ACK, 0xffff)]
            &&& step.calls.last() == (HostCall::ShutdownWrite { ok: a.shut })
        }),
{
}

/// A connection that is closing stays so until it is removed: no packet and no event opens it
/// again, and nothing more is written to the host.
pub proof fn closing_stays_closing(
    f: Flow,
    key: NatKey,
    t: SegmentView,
    token: Token,
    a: Answers,
    is_readable: bool,
    is_writable: bool,
    io: EventIo,
)
    requires
        io_fits(
            ConnView { phase: Phase::Closing, flow: f },
            key,
            is_readable,
            is_writable,
            io,
        ),
    ensures
        ({
            let v = ConnView { phase: Phase::Closing, flow: f };
            let packet = packet_step(v, key, t, token, a);
            let event = event_step(v, key, token, is_readable, is_writable, io);
            &&& packet.next == v && packet.calls.len() == 0 && packet.sends.len() == 0
            &&& event.next == v && event.sends.len() == 0
            &&& sent(event.calls) == Seq::<u8>::empty()
        }),
{
    if is_readable {
        draining_sends_nothing(io.drain, READ_BUFFER_SIZE as nat, DRAIN_LIMIT as nat);
    }
}

} // verus!
