//! What holds of a TCP connection over more than one step.
use vstd::prelude::*;

use crate::addr::{Instant, Interest, MacAddr, NatKey};
use crate::buffer::{flat, flat_drop_bytes, flat_push};
use crate::host::{sent, write_run_sends, WriteEnd};
use crate::seqnum::low32;
use crate::tcp_fsm::invariants::{first_at_bounds, join_kept_frame};
use crate::tcp_fsm::model::{
    accept_data, acknowledged, after_io, established_event, established_packet,
    established_will_read, event_step, first_chunk, fresh, has_reregister, host_took,
    in_flight_bytes, interest_for, join_kept, new_ack, packet_step, place_data, probe_window,
    queue_chunk, queue_data, queue_full, refresh_interest, repeated_ack, resend, take_ack,
    take_data, to_vm, unacknowledged, wanted, writes_fit, ActionView, EstablishedView, HostIo,
    InFlight, SegmentView, StateView, Step,
};
use crate::tcp_fsm::{
    HOST_WRITE_BUFFER_HIGH_WATER, HOST_WRITE_BUFFER_LOW_WATER, MAX_IN_FLIGHT_PACKETS,
    MAX_SEGMENT_SIZE, TCP_BUFFER_SIZE,
};
use crate::wire::{ACK, FIN, FIN_ACK, PSH_ACK, RST};

verus! {

// --- From the machine to the host ---

/// All that a machine sends on a connection, and the sequence number of its first byte.
pub struct Stream {
    pub start: u32,
    pub data: Seq<u8>,
}

/// The sequence number of the byte at place `off` of a stream that starts at `start`.
pub open spec fn number_at(start: u32, off: int) -> u32 {
    ((start + off) % 0x1_0000_0000) as u32
}

/// Whether a payload is what the stream holds from place `off` on.
pub open spec fn carries(m: Stream, off: int, payload: Seq<u8>) -> bool {
    &&& 0 <= off
    &&& off + payload.len() <= m.data.len()
    &&& payload == m.data.subrange(off, off + payload.len())
}

/// How far from its turn a packet can be and still be placed: no window is larger.
pub const REACH: u32 = 0x4000_0000;

/// Whether a packet that is kept until its turn comes is what the stream holds at its place.
pub open spec fn kept_fits(
    m: Stream,
    kept: Map<u32, Seq<u8>>,
    at: Map<u32, int>,
    k: u32,
) -> bool {
    k == number_at(m.start, at[k]) && carries(m, at[k], kept[k])
}

/// What the host has been given and what still waits for it are, together, the first `n` bytes
/// of the stream; the next packet in turn starts behind them; and `at` tells where in the
/// stream the kept packets belong.
pub open spec fn in_order(
    m: Stream,
    v: EstablishedView,
    given: Seq<u8>,
    n: int,
    at: Map<u32, int>,
) -> bool {
    &&& 0 <= n <= m.data.len()
    &&& v.rx_seq == number_at(m.start, n)
    &&& given + flat(v.write_buffer) == m.data.take(n)
    &&& v.rx_buf.dom().finite()
    &&& forall|k: u32|
        #![trigger v.rx_buf.dom().contains(k)]
        v.rx_buf.dom().contains(k) ==> kept_fits(m, v.rx_buf, at, k)
}

/// Whether every kept packet is within reach of place `n` and fits in a window.
pub open spec fn within_reach(v: EstablishedView, n: int, at: Map<u32, int>) -> bool {
    forall|k: u32|
        #![trigger v.rx_buf.dom().contains(k)]
        v.rx_buf.dom().contains(k) ==> n - REACH < at[k] < n + REACH && v.rx_buf[k].len() < REACH
}

/// On a connection over which nothing has flowed yet, everything is in order.
pub proof fn fresh_is_in_order(
    m: Stream,
    tx_seq: u32,
    highest_ack: u32,
    window: u16,
    scale: u8,
    now: Instant,
)
    ensures
        in_order(
            m,
            fresh(tx_seq, m.start, highest_ack, window, scale, now),
            Seq::empty(),
            0,
            Map::empty(),
        ),
        within_reach(fresh(tx_seq, m.start, highest_ack, window, scale, now), 0, Map::empty()),
{
    assert(Seq::<u8>::empty() + flat(Seq::<Seq<u8>>::empty()) =~= m.data.take(0));
}

/// Data behind what is given and waits makes it longer.
proof fn next_in_order(
    m: Stream,
    v: EstablishedView,
    given: Seq<u8>,
    n: int,
    at: Map<u32, int>,
    data: Seq<u8>,
    kept: Map<u32, Seq<u8>>,
)
    requires
        in_order(m, v, given, n, at),
        carries(m, n, data),
        kept.dom().subset_of(v.rx_buf.dom()),
        forall|k: u32|
            #![trigger kept.dom().contains(k)]
            kept.dom().contains(k) ==> kept[k] == v.rx_buf[k],
    ensures
        in_order(
            m,
            EstablishedView {
                rx_buf: kept,
                rx_seq: v.rx_seq.wrapping_add(low32(data.len())),
                write_buffer: v.write_buffer.push(data),
                write_buffer_size: (v.write_buffer_size + data.len()) as usize,
                ..v
            },
            given,
            n + data.len(),
            at,
        ),
{
    flat_push(v.write_buffer, data);
    assert(given + (flat(v.write_buffer) + data) =~= m.data.take((n + data.len()) as int)) by {
        assert(given + (flat(v.write_buffer) + data) =~= (given + flat(v.write_buffer)) + data);
    }
    assert(v.rx_seq.wrapping_add(low32(data.len())) == number_at(m.start, n + data.len()));
    assert forall|k: u32|
        #![trigger kept.dom().contains(k)]
        kept.dom().contains(k) implies kept_fits(m, kept, at, k) by {
        assert(v.rx_buf.dom().contains(k));
    }
}

/// Joining what was kept keeps the order.
proof fn join_keeps_order(
    m: Stream,
    v: EstablishedView,
    given: Seq<u8>,
    n: int,
    at: Map<u32, int>,
    base: int,
) -> (r: int)
    requires
        in_order(m, v, given, n, at),
        within_reach(v, base, at),
        base <= n < base + 2 * REACH,
    ensures
        n <= r,
        in_order(m, join_kept(v), given, r, at),
        join_kept(v).rx_buf.dom().subset_of(v.rx_buf.dom()),
    decreases v.rx_buf.dom().len(),
{
    let k = v.rx_seq;
    if v.rx_buf.dom().contains(k) {
        let data = v.rx_buf[k];
        assert(kept_fits(m, v.rx_buf, at, k));
        assert(at[k] == n);
        let next = EstablishedView {
            rx_buf: v.rx_buf.remove(k),
            rx_seq: k.wrapping_add(low32(data.len())),
            write_buffer: v.write_buffer.push(data),
            write_buffer_size: (v.write_buffer_size + data.len()) as usize,
            ..v
        };
        assert(next.rx_buf.dom() =~= v.rx_buf.dom().remove(k));
        next_in_order(m, v, given, n, at, data, v.rx_buf.remove(k));
        join_keeps_order(m, next, given, n + data.len(), at, base)
    } else {
        n
    }
}

/// Placing a packet keeps the order.
proof fn place_keeps_order(
    m: Stream,
    v: EstablishedView,
    given: Seq<u8>,
    n: int,
    at: Map<u32, int>,
    off: int,
    payload: Seq<u8>,
) -> (r: (int, Map<u32, int>))
    requires
        in_order(m, v, given, n, at),
        within_reach(v, n, at),
        carries(m, off, payload),
        payload.len() < REACH,
        n - 2 * REACH < off < n + 2 * REACH,
    ensures
        n <= r.0,
        off == n ==> n + payload.len() <= r.0,
        in_order(m, place_data(v, number_at(m.start, off), payload), given, r.0, r.1),
        forall|k: u32|
            #![trigger place_data(v, number_at(m.start, off), payload).rx_buf.dom().contains(k)]
            place_data(v, number_at(m.start, off), payload).rx_buf.dom().contains(k)
                && k != number_at(m.start, off) ==> v.rx_buf.dom().contains(k) && r.1[k] == at[k],
{
    let seq = number_at(m.start, off);
    let diff = seq.wrapping_sub(v.rx_seq);
    if off < n {
        assert(diff > 0x8000_0000);
        (n, at)
    } else if off > n {
        assert(diff as int == off - n);
        assert(seq != v.rx_seq);
        if v.rx_buf.dom().contains(seq) {
            (n, at)
        } else {
            let w = place_data(v, seq, payload);
            let at2 = at.insert(seq, off);
            assert forall|k: u32|
                #![trigger w.rx_buf.dom().contains(k)]
                w.rx_buf.dom().contains(k) implies kept_fits(m, w.rx_buf, at2, k) by {
                if k != seq {
                    assert(v.rx_buf.dom().contains(k));
                }
            }
            (n, at2)
        }
    } else {
        let next = EstablishedView {
            rx_seq: seq.wrapping_add(low32(payload.len())),
            write_buffer: v.write_buffer.push(payload),
            write_buffer_size: (v.write_buffer_size + payload.len()) as usize,
            ..v
        };
        next_in_order(m, v, given, n, at, payload, v.rx_buf);
        (join_keeps_order(m, next, given, n + payload.len(), at, n), at)
    }
}

/// The frames that a packet while data flows is answered with: none where it has no data, else
/// one acknowledgement of what has come in turn.
#[verifier::rlimit(60)]
proof fn packet_sends(
    key: NatKey,
    v: EstablishedView,
    t: SegmentView,
    proxy_mac: MacAddr,
    vm_mac: MacAddr,
    now: Instant,
)
    requires
        v.rx_buf.dom().finite(),
        t.flags & RST == 0,
        t.flags & FIN == 0,
    ensures
        ({
            let (st, action) = established_packet(key, v, t, proxy_mac, vm_mac, now);
            st matches StateView::Established(w) && w.tx_seq == v.tx_seq && steps(action).filter(
                |s: Step| s is Send,
            ) == if t.payload.len() == 0 {
                Seq::empty()
            } else {
                seq![
                    Step::Send(
                        to_vm(key, w.tx_seq, w.rx_seq, Seq::empty(), ACK, proxy_mac, vm_mac),
                    ),
                ]
            }
        }),
{
    reveal_with_fuel(Seq::<Step>::filter, 4);
    let sends = |s: Step| s is Send;
    let (acked, ack_steps) = take_ack(v, t, now);
    let (fed, data_steps) = take_data(key, acked, t, proxy_mac, vm_mac);
    let (last, refresh_steps) = refresh_interest(fed);
    join_kept_frame(
        EstablishedView {
            rx_seq: t.sequence.wrapping_add(low32(t.payload.len())),
            write_buffer: acked.write_buffer.push(t.payload),
            write_buffer_size: (acked.write_buffer_size + t.payload.len()) as usize,
            ..acked
        },
    );
    assert(fed.tx_seq == v.tx_seq);
    assert(ack_steps.filter(sends) =~= Seq::empty());
    assert(refresh_steps.filter(sends) =~= Seq::empty());
    if t.payload.len() > 0 {
        let before = data_steps.drop_last();
        assert(before.filter(sends) =~= Seq::empty()) by {
            assert(before.len() <= 1);
            assert(before.len() == 1 ==> before[0] is Reregister);
        }
        assert(data_steps == before.push(data_steps.last()));
        assert(data_steps.filter(sends) =~= seq![data_steps.last()]);
    } else {
        assert(data_steps.filter(sends) =~= Seq::empty());
    }
    Seq::filter_distributes_over_add(ack_steps, data_steps, sends);
    Seq::filter_distributes_over_add(ack_steps + data_steps, refresh_steps, sends);
}

/// Whatever packet comes next keeps the order.
#[verifier::rlimit(60)]
proof fn packet_stays_in_order(
    key: NatKey,
    m: Stream,
    v: EstablishedView,
    given: Seq<u8>,
    n: int,
    at: Map<u32, int>,
    off: int,
    t: SegmentView,
    proxy_mac: MacAddr,
    vm_mac: MacAddr,
    now: Instant,
) -> (r: (int, Map<u32, int>))
    requires
        in_order(m, v, given, n, at),
        within_reach(v, n, at),
        t.flags & RST == 0,
        t.flags & FIN == 0,
        carries(m, off, t.payload),
        t.payload.len() < REACH,
        n - 2 * REACH < off < n + 2 * REACH,
        t.sequence == number_at(m.start, off),
    ensures
        n <= r.0,
        off == n && !v.vm_reads_paused ==> n + t.payload.len() <= r.0,
        established_packet(key, v, t, proxy_mac, vm_mac, now).0 matches StateView::Established(w)
            && in_order(m, w, given, r.0, r.1),
{
    let acked = take_ack(v, t, now).0;
    assert(in_order(m, acked, given, n, at));
    assert(within_reach(acked, n, at));
    let fed = take_data(key, acked, t, proxy_mac, vm_mac).0;
    if t.payload.len() == 0 || acked.vm_reads_paused {
        assert(in_order(m, fed, given, n, at));
        (n, at)
    } else {
        let r = place_keeps_order(m, acked, given, n, at, off, t.payload);
        let placed = place_data(acked, t.sequence, t.payload);
        assert(fed.rx_buf == placed.rx_buf);
        assert(fed.rx_seq == placed.rx_seq);
        assert(fed.write_buffer == placed.write_buffer);
        assert(in_order(m, fed, given, r.0, r.1));
        r
    }
}

/// What the machine sends reaches the host in order, each byte once: whatever packet comes
/// next, be it old, in turn or ahead of its turn, what the host has been given and what waits
/// for it stay a first part of the stream, and a packet in turn that is taken makes it longer
/// by at least its payload. Every packet with data is answered by one acknowledgement, of that
/// first part and of no byte more.
#[verifier::rlimit(60)]
pub proof fn packet_keeps_order(
    key: NatKey,
    m: Stream,
    v: EstablishedView,
    given: Seq<u8>,
    n: int,
    at: Map<u32, int>,
    off: int,
    t: SegmentView,
    proxy_mac: MacAddr,
    vm_mac: MacAddr,
    now: Instant,
) -> (r: (int, Map<u32, int>))
    requires
        in_order(m, v, given, n, at),
        within_reach(v, n, at),
        t.flags & RST == 0,
        t.flags & FIN == 0,
        carries(m, off, t.payload),
        t.payload.len() < REACH,
        n - 2 * REACH < off < n + 2 * REACH,
        t.sequence == number_at(m.start, off),
    ensures
        n <= r.0,
        off == n && !v.vm_reads_paused ==> n + t.payload.len() <= r.0,
        established_packet(key, v, t, proxy_mac, vm_mac, now).0 matches StateView::Established(w)
            && in_order(m, w, given, r.0, r.1),
        steps(established_packet(key, v, t, proxy_mac, vm_mac, now).1).filter(
            |s: Step| s is Send,
        ) == if t.payload.len() == 0 {
            Seq::empty()
        } else {
            seq![
                Step::Send(
                    to_vm(
                        key,
                        v.tx_seq,
                        number_at(m.start, r.0),
                        Seq::empty(),
                        0x10,
                        proxy_mac,
                        vm_mac,
                    ),
                ),
            ]
        },
{
    packet_sends(key, v, t, proxy_mac, vm_mac, now);
    packet_stays_in_order(key, m, v, given, n, at, off, t, proxy_mac, vm_mac, now)
}

/// Queueing data for the machine touches nothing that comes from it.
proof fn queue_data_frame(
    key: NatKey,
    v: EstablishedView,
    data: Seq<u8>,
    proxy_mac: MacAddr,
    vm_mac: MacAddr,
    now: Instant,
)
    ensures
        ({
            let w = queue_data(key, v, data, proxy_mac, vm_mac, now);
            &&& w.rx_seq == v.rx_seq
            &&& w.rx_buf == v.rx_buf
            &&& w.write_buffer == v.write_buffer
            &&& w.write_buffer_size == v.write_buffer_size
            &&& w.vm_reads_paused == v.vm_reads_paused
            &&& w.current_interest == v.current_interest
        }),
    decreases data.len(),
{
    if data.len() > 0 && !queue_full(v) {
        let chunk = first_chunk(data);
        queue_data_frame(
            key,
            queue_chunk(key, v, chunk, proxy_mac, vm_mac, now),
            data.skip(chunk.len() as int),
            proxy_mac,
            vm_mac,
            now,
        );
    }
}

/// A readiness event of the host keeps the order too: what the host takes is what is next, and
/// for as long as the connection stays open nothing that waits is lost.
pub proof fn event_keeps_order(
    key: NatKey,
    m: Stream,
    v: EstablishedView,
    given: Seq<u8>,
    n: int,
    at: Map<u32, int>,
    is_readable: bool,
    is_writable: bool,
    io: HostIo,
    proxy_mac: MacAddr,
    vm_mac: MacAddr,
    now: Instant,
)
    requires
        in_order(m, v, given, n, at),
        writes_fit(StateView::Established(v), is_readable, is_writable, io),
    ensures
        given + sent(io.writes) == m.data.take((given + sent(io.writes)).len() as int),
        established_event(
            key,
            v,
            is_readable,
            is_writable,
            io,
            proxy_mac,
            vm_mac,
            now,
        ).0 matches StateView::Established(w) ==> in_order(m, w, given + sent(io.writes), n, at),
{
    let st = StateView::Established(v);
    let q = v.write_buffer;
    let reads = established_will_read(v, is_readable);
    let active = EstablishedView { last_activity: now, ..v };
    queue_data_frame(key, active, io.data, proxy_mac, vm_mac, now);
    let done = after_io(key, v, is_readable, is_writable, io, proxy_mac, vm_mac, now);
    if is_writable && !(reads && io.failed) {
        let end = choose|end: WriteEnd| #[trigger]
            crate::host::write_run(q, io.writes, io.written as int, end) && io.write_closed
                == crate::tcp_fsm::model::shows_closed(end);
        write_run_sends(q, io.writes, io.written as int, end);
        flat_drop_bytes(q, io.written);
        let g = given + sent(io.writes);
        assert(g + flat(q).skip(io.written as int) =~= given + flat(q));
        assert(g =~= m.data.take(g.len() as int));
        assert(in_order(m, done, g, n, at));
    } else {
        assert(io.writes.len() == 0);
        assert(given + sent(io.writes) =~= given);
        let all = given + flat(q);
        assert(all.len() == n);
        assert(given =~= all.take(given.len() as int));
        assert(m.data.take(n).take(given.len() as int) =~= m.data.take(given.len() as int));
        assert(in_order(m, active, given, n, at));
        if !(reads && io.failed) {
            assert(in_order(m, done, given, n, at));
        }
    }
}

// --- From the host to the machine ---

/// The packets that some data makes, in order, each with as much of it as fits and the sequence
/// number of its first byte.
pub open spec fn cut(
    key: NatKey,
    tx_seq: u32,
    rx_seq: u32,
    data: Seq<u8>,
    proxy_mac: MacAddr,
    vm_mac: MacAddr,
    now: Instant,
) -> Seq<InFlight>
    decreases data.len(),
{
    if data.len() == 0 {
        Seq::empty()
    } else {
        let chunk = first_chunk(data);
        seq![
            InFlight {
                seq: tx_seq,
                packet: to_vm(key, tx_seq, rx_seq, chunk, PSH_ACK, proxy_mac, vm_mac),
                sent_at: now,
                len: chunk.len() as u32,
            },
        ] + cut(
            key,
            tx_seq.wrapping_add(chunk.len() as u32),
            rx_seq,
            data.skip(chunk.len() as int),
            proxy_mac,
            vm_mac,
            now,
        )
    }
}

/// The frames of packets in flight.
pub open spec fn frames(q: Seq<InFlight>) -> Seq<Seq<u8>> {
    Seq::new(q.len(), |i: int| q[i].packet)
}

/// Data from the host goes to the machine in order and without gaps: the first `r` bytes of it
/// are cut into packets, which are queued behind those that wait and are in flight from then
/// on. Only where no more can be queued is something left, and then reading stops. The queues
/// stay within their limits.
pub proof fn data_is_queued_in_order(
    key: NatKey,
    v: EstablishedView,
    data: Seq<u8>,
    proxy_mac: MacAddr,
    vm_mac: MacAddr,
    now: Instant,
) -> (r: int)
    ensures
        0 <= r <= data.len(),
        ({
            let w = queue_data(key, v, data, proxy_mac, vm_mac, now);
            let new = cut(key, v.tx_seq, v.rx_seq, data.take(r), proxy_mac, vm_mac, now);
            &&& w.in_flight == v.in_flight + new
            &&& w.to_vm_buffer == v.to_vm_buffer + frames(new)
            &&& w.tx_seq == v.tx_seq.wrapping_add(low32(r as nat))
            &&& r < data.len() ==> w.host_reads_paused && queue_full(w)
            &&& r == data.len() ==> w.host_reads_paused == v.host_reads_paused
            &&& w.to_vm_buffer.len() <= TCP_BUFFER_SIZE || w.to_vm_buffer == v.to_vm_buffer
            &&& w.in_flight.len() <= MAX_IN_FLIGHT_PACKETS || w.in_flight == v.in_flight
        }),
    decreases data.len(),
{
    let w = queue_data(key, v, data, proxy_mac, vm_mac, now);
    if data.len() == 0 || queue_full(v) {
        let none = cut(key, v.tx_seq, v.rx_seq, data.take(0), proxy_mac, vm_mac, now);
        assert(none =~= Seq::<InFlight>::empty());
        assert(w.in_flight =~= v.in_flight + none);
        assert(w.to_vm_buffer =~= v.to_vm_buffer + frames(none));
        0
    } else {
        let chunk = first_chunk(data);
        let rest = data.skip(chunk.len() as int);
        let next = queue_chunk(key, v, chunk, proxy_mac, vm_mac, now);
        let k = data_is_queued_in_order(key, next, rest, proxy_mac, vm_mac, now);
        let r = k + chunk.len();
        let part = data.take(r);
        assert(first_chunk(part) =~= chunk);
        assert(part.skip(chunk.len() as int) =~= rest.take(k));
        let tail = cut(key, next.tx_seq, v.rx_seq, rest.take(k), proxy_mac, vm_mac, now);
        let all = cut(key, v.tx_seq, v.rx_seq, part, proxy_mac, vm_mac, now);
        assert(w.in_flight =~= v.in_flight + all);
        assert(w.to_vm_buffer =~= v.to_vm_buffer + frames(all));
        crate::seqnum::lengths_add_up(v.tx_seq, chunk.len(), k as nat);
        assert(low32(chunk.len()) == chunk.len() as u32);
        r
    }
}

/// The packets of a row add up.
proof fn in_flight_bytes_add(a: Seq<InFlight>, b: Seq<InFlight>)
    ensures
        in_flight_bytes(a + b) == in_flight_bytes(a) + in_flight_bytes(b),
    decreases b.len(),
{
    if b.len() == 0 {
        assert(a + b =~= a);
    } else {
        in_flight_bytes_add(a, b.drop_last());
        assert((a + b).drop_last() =~= a + b.drop_last());
    }
}

/// Whether a packet carries the bytes of `data` from place `off` on, under the sequence number
/// of the first of them.
pub open spec fn is_piece(
    key: NatKey,
    tx_seq: u32,
    rx_seq: u32,
    data: Seq<u8>,
    p: InFlight,
    off: int,
    proxy_mac: MacAddr,
    vm_mac: MacAddr,
) -> bool {
    &&& 0 < p.len <= MAX_SEGMENT_SIZE
    &&& 0 <= off
    &&& off + p.len <= data.len()
    &&& p.seq == tx_seq.wrapping_add(low32(off as nat))
    &&& p.packet == to_vm(
        key,
        p.seq,
        rx_seq,
        data.subrange(off, off + p.len),
        PSH_ACK,
        proxy_mac,
        vm_mac,
    )
}

/// A piece of the rest is a piece of the whole.
proof fn piece_of_rest(
    key: NatKey,
    tx_seq: u32,
    rx_seq: u32,
    data: Seq<u8>,
    n: int,
    p: InFlight,
    off: int,
    proxy_mac: MacAddr,
    vm_mac: MacAddr,
)
    requires
        0 <= n <= data.len(),
        is_piece(
            key,
            tx_seq.wrapping_add(low32(n as nat)),
            rx_seq,
            data.skip(n),
            p,
            off,
            proxy_mac,
            vm_mac,
        ),
    ensures
        is_piece(key, tx_seq, rx_seq, data, p, n + off, proxy_mac, vm_mac),
{
    assert(data.skip(n).subrange(off, off + p.len) =~= data.subrange(n + off, n + off + p.len));
    crate::seqnum::lengths_add_up(tx_seq, n as nat, off as nat);
}

/// Cutting loses nothing and repeats nothing: each packet carries the bytes that follow those
/// of the packets before it, under the sequence number of its first byte, and all of them
/// together carry everything.
pub proof fn cut_is_gapless(
    key: NatKey,
    tx_seq: u32,
    rx_seq: u32,
    data: Seq<u8>,
    proxy_mac: MacAddr,
    vm_mac: MacAddr,
    now: Instant,
)
    ensures
        ({
            let q = cut(key, tx_seq, rx_seq, data, proxy_mac, vm_mac, now);
            &&& in_flight_bytes(q) == data.len()
            &&& forall|i: int|
                #![trigger q[i]]
                0 <= i < q.len() ==> is_piece(
                    key,
                    tx_seq,
                    rx_seq,
                    data,
                    q[i],
                    in_flight_bytes(q.take(i)) as int,
                    proxy_mac,
                    vm_mac,
                )
        }),
    decreases data.len(),
{
    let q = cut(key, tx_seq, rx_seq, data, proxy_mac, vm_mac, now);
    if data.len() > 0 {
        let chunk = first_chunk(data);
        let len = chunk.len() as int;
        let rest = data.skip(len);
        let next = tx_seq.wrapping_add(len as u32);
        assert(low32(len as nat) == len as u32);
        let tail = cut(key, next, rx_seq, rest, proxy_mac, vm_mac, now);
        cut_is_gapless(key, next, rx_seq, rest, proxy_mac, vm_mac, now);
        let head = seq![q[0]];
        assert(q =~= head + tail);
        assert(in_flight_bytes(head) == len) by {
            reveal_with_fuel(in_flight_bytes, 2);
            assert(head.drop_last() =~= Seq::<InFlight>::empty());
        }
        in_flight_bytes_add(head, tail);
        assert forall|i: int| #![trigger q[i]] 0 <= i < q.len() implies is_piece(
            key,
            tx_seq,
            rx_seq,
            data,
            q[i],
            in_flight_bytes(q.take(i)) as int,
            proxy_mac,
            vm_mac,
        ) by {
            if i == 0 {
                assert(q.take(0) =~= Seq::<InFlight>::empty());
                assert(data.subrange(0, len) =~= chunk);
            } else {
                let sub = in_flight_bytes(tail.take(i - 1)) as int;
                assert(q[i] == tail[i - 1]);
                assert(q.take(i) =~= head + tail.take(i - 1));
                in_flight_bytes_add(head, tail.take(i - 1));
                piece_of_rest(key, tx_seq, rx_seq, data, len, q[i], sub, proxy_mac, vm_mac);
            }
        }
    }
}

// --- Acknowledgements ---

/// Whether `x` stands before `y` in a queue.
pub open spec fn stands_before(q: Seq<InFlight>, x: InFlight, y: InFlight) -> bool {
    exists|a: int, b: int| #![trigger q[a], q[b]] 0 <= a < b < q.len() && q[a] == x && q[b] == y
}

/// An acknowledgement takes off exactly the packets that it covers whole; the others stay, in
/// the same order.
pub proof fn ack_takes_off_what_it_covers(q: Seq<InFlight>, ack: u32)
    ensures
        forall|p: InFlight|
            #![trigger unacknowledged(q, ack).contains(p)]
            unacknowledged(q, ack).contains(p) <==> q.contains(p) && !acknowledged(p, ack),
        forall|i: int, j: int|
            #![trigger unacknowledged(q, ack)[i], unacknowledged(q, ack)[j]]
            0 <= i < j < unacknowledged(q, ack).len() ==> stands_before(
                q,
                unacknowledged(q, ack)[i],
                unacknowledged(q, ack)[j],
            ),
    decreases q.len(),
{
    reveal(Seq::filter);
    let keep = |p: InFlight| !acknowledged(p, ack);
    let kept = unacknowledged(q, ack);
    if q.len() > 0 {
        let front = q.drop_last();
        let sub = unacknowledged(front, ack);
        ack_takes_off_what_it_covers(front, ack);
        assert(kept == if keep(q.last()) {
            sub.push(q.last())
        } else {
            sub
        });
        assert(q =~= front.push(q.last()));
        assert forall|p: InFlight| #![trigger kept.contains(p)] kept.contains(p) <==> q.contains(p)
            && !acknowledged(p, ack) by {
            if kept.contains(p) {
                let i = choose|i: int| 0 <= i < kept.len() && kept[i] == p;
                if i < sub.len() {
                    assert(sub.contains(sub[i]));
                    let a = choose|a: int| 0 <= a < front.len() && front[a] == p;
                    assert(q[a] == p);
                } else {
                    assert(q[q.len() - 1] == p);
                }
            }
            if q.contains(p) && !acknowledged(p, ack) {
                let a = choose|a: int| 0 <= a < q.len() && q[a] == p;
                if a < front.len() {
                    assert(front[a] == p);
                    assert(front.contains(p));
                    assert(sub.contains(p));
                    let i = choose|i: int| 0 <= i < sub.len() && sub[i] == p;
                    assert(kept[i] == p);
                } else {
                    assert(kept[kept.len() - 1] == p);
                }
            }
        }
        assert forall|i: int, j: int|
            #![trigger kept[i], kept[j]]
            0 <= i < j < kept.len() implies stands_before(q, kept[i], kept[j]) by {
            if j < sub.len() {
                assert(kept[i] == sub[i] && kept[j] == sub[j]);
                assert(stands_before(front, sub[i], sub[j]));
                let (a, b) = choose|a: int, b: int|
                    #![trigger front[a], front[b]]
                    0 <= a < b < front.len() && front[a] == sub[i] && front[b] == sub[j];
                assert(q[a] == kept[i] && q[b] == kept[j]);
            } else {
                assert(kept[i] == sub[i]);
                assert(sub.contains(sub[i]));
                let a = choose|a: int| 0 <= a < front.len() && front[a] == sub[i];
                assert(q[a] == kept[i] && q[q.len() - 1] == kept[j]);
            }
        }
    }
}

/// A connection once the same bare acknowledgement has come `n` times.
pub open spec fn repeated(v: EstablishedView, ack: u32, n: nat, now: Instant) -> EstablishedView
    decreases n,
{
    if n == 0 {
        v
    } else {
        repeated_ack(repeated(v, ack, (n - 1) as nat, now), ack, now)
    }
}

/// The third repetition of an acknowledgement has the packet that it asks for sent again, and
/// no later repetition of the same one does: what waits for the machine grows by exactly that
/// packet, ahead of the others.
pub proof fn fast_retransmit_once(v: EstablishedView, ack: u32, n: nat, now: Instant)
    requires
        v.dup_ack_count == 0,
        v.last_fast_retransmit_seq != Some(ack),
        v.in_flight.len() > 0,
        n < 0xffff,
    ensures
        n < 3 ==> {
            &&& repeated(v, ack, n, now).to_vm_buffer == v.to_vm_buffer
            &&& repeated(v, ack, n, now).in_flight == v.in_flight
            &&& repeated(v, ack, n, now).dup_ack_count == n
            &&& repeated(v, ack, n, now).last_fast_retransmit_seq == v.last_fast_retransmit_seq
        },
        n >= 3 ==> {
            &&& repeated(v, ack, n, now).to_vm_buffer == seq![
                v.in_flight[wanted(v.in_flight, ack)].packet,
            ] + v.to_vm_buffer
            &&& repeated(v, ack, n, now).last_fast_retransmit_seq == Some(ack)
            &&& repeated(v, ack, n, now).dup_ack_count == n - 3
        },
    decreases n,
{
    if n > 0 {
        fast_retransmit_once(v, ack, (n - 1) as nat, now);
    }
}

/// The packet that an acknowledgement asks for is the one that starts there, if there is one.
pub proof fn wanted_starts_there(q: Seq<InFlight>, ack: u32, i: int)
    requires
        0 <= i < q.len(),
        q[i].seq == ack,
    ensures
        0 <= wanted(q, ack) <= i,
        q[wanted(q, ack)].seq == ack,
{
    first_at_bounds(q, ack, 0);
}

/// An acknowledgement of new data starts the counting anew: the next loss can be answered too.
pub proof fn new_ack_starts_anew(v: EstablishedView, t: SegmentView)
    ensures
        new_ack(v, t).0.dup_ack_count == 0,
        new_ack(v, t).0.last_fast_retransmit_seq is None,
        new_ack(v, t).0.highest_ack_from_vm == t.acknowledgement,
        new_ack(v, t).0.to_vm_buffer == v.to_vm_buffer,
{
}

/// Sending a packet again changes nothing of what is in flight but the time: it is the same
/// packet, and none is in flight twice.
pub proof fn resending_keeps_packets(v: EstablishedView, i: int, now: Instant)
    requires
        0 <= i < v.in_flight.len(),
    ensures
        resend(v, i, now).in_flight.len() == v.in_flight.len(),
        forall|j: int|
            #![trigger resend(v, i, now).in_flight[j]]
            0 <= j < v.in_flight.len() ==> {
                &&& resend(v, i, now).in_flight[j].seq == v.in_flight[j].seq
                &&& resend(v, i, now).in_flight[j].packet == v.in_flight[j].packet
                &&& resend(v, i, now).in_flight[j].len == v.in_flight[j].len
                &&& j != i ==> resend(v, i, now).in_flight[j] == v.in_flight[j]
            },
        resend(v, i, now).to_vm_buffer == seq![v.in_flight[i].packet] + v.to_vm_buffer,
        resend(v, i, now).tx_seq == v.tx_seq,
{
}

// --- Readiness events ---

/// The events that a stream is registered for once some steps have been carried out.
pub open spec fn registered(before: Interest, steps: Seq<Step>) -> Interest
    decreases steps.len(),
{
    if steps.len() == 0 {
        before
    } else {
        match steps.last() {
            Step::Reregister(i) => i,
            _ => registered(before, steps.drop_last()),
        }
    }
}

/// The steps of an action.
pub open spec fn steps(a: ActionView) -> Seq<Step> {
    match a {
        ActionView::One(s) => seq![s],
        ActionView::Many(s) => s,
    }
}

proof fn registered_adds(before: Interest, a: Seq<Step>, b: Seq<Step>)
    ensures
        registered(before, a + b) == registered(registered(before, a), b),
    decreases b.len(),
{
    if b.len() == 0 {
        assert(a + b =~= a);
    } else {
        registered_adds(before, a, b.drop_last());
        assert((a + b).drop_last() =~= a + b.drop_last());
    }
}

proof fn registered_one(before: Interest, s: Step)
    ensures
        registered(before, seq![s]) == match s {
            Step::Reregister(i) => i,
            _ => before,
        },
{
    reveal_with_fuel(registered, 2);
    assert(seq![s].drop_last() =~= Seq::<Step>::empty());
}

proof fn registered_none(before: Interest, a: Seq<Step>)
    requires
        !has_reregister(a),
    ensures
        registered(before, a) == before,
    decreases a.len(),
{
    if a.len() > 0 {
        assert(!(a[a.len() - 1] is Reregister));
        assert forall|i: int| 0 <= i < a.drop_last().len() implies !(
        #[trigger] a.drop_last()[i] is Reregister) by {
            assert(a[i] == a.drop_last()[i]);
        }
        registered_none(before, a.drop_last());
    }
}

/// The events that a connection takes itself to be registered for are always those that it
/// last asked for, whatever packet comes. Unless reading from the host resumes, it asks only
/// where they change.
pub proof fn packet_keeps_interest(
    key: NatKey,
    v: EstablishedView,
    t: SegmentView,
    proxy_mac: MacAddr,
    vm_mac: MacAddr,
    now: Instant,
)
    requires
        v.rx_buf.dom().finite(),
    ensures
        ({
            let (next, action) = established_packet(key, v, t, proxy_mac, vm_mac, now);
            next matches StateView::Established(w) ==> {
                &&& w.current_interest == registered(v.current_interest, steps(action))
                &&& w.host_reads_paused == v.host_reads_paused ==> (has_reregister(steps(action))
                    <==> w.current_interest != v.current_interest)
            }
        }),
{
    let before = v.current_interest;
    let (next, action) = established_packet(key, v, t, proxy_mac, vm_mac, now);
    registered_one(before, Step::ScheduleRemoval);
    if t.flags & RST == 0 && t.flags & FIN == 0 {
        let (acked, ack_steps) = take_ack(v, t, now);
        let mid = acked.current_interest;
        if ack_steps.len() > 0 {
            registered_one(before, ack_steps[0]);
            assert(ack_steps =~= seq![ack_steps[0]]);
        }
        assert(mid == registered(before, ack_steps));
        let (fed, data_steps) = take_data(key, acked, t, proxy_mac, vm_mac);
        if t.payload.len() > 0 {
            if !acked.vm_reads_paused {
                let placed = place_data(acked, t.sequence, t.payload);
                let started = EstablishedView {
                    rx_seq: t.sequence.wrapping_add(low32(t.payload.len())),
                    write_buffer: acked.write_buffer.push(t.payload),
                    write_buffer_size: (acked.write_buffer_size + t.payload.len()) as usize,
                    ..acked
                };
                join_kept_frame(started);
                assert(placed.current_interest == mid);
                let fed_steps = accept_data(acked, t).1;
                if fed_steps.len() > 0 {
                    registered_one(mid, fed_steps[0]);
                    assert(fed_steps =~= seq![fed_steps[0]]);
                }
                assert(data_steps =~= fed_steps + seq![data_steps.last()]);
                registered_adds(mid, fed_steps, seq![data_steps.last()]);
                registered_one(registered(mid, fed_steps), data_steps.last());
            } else {
                assert(data_steps =~= seq![data_steps.last()]);
                registered_one(mid, data_steps.last());
            }
        }
        assert(fed.current_interest == registered(mid, data_steps));
        let all = ack_steps + data_steps;
        registered_adds(before, ack_steps, data_steps);
        assert(fed.host_reads_paused == acked.host_reads_paused);
        if acked.host_reads_paused == v.host_reads_paused {
            assert(ack_steps =~= Seq::<Step>::empty());
            assert(all =~= data_steps);
            if fed.current_interest != before {
                assert(data_steps[0] is Reregister);
            }
        }
        if !has_reregister(all) {
            let (last, refresh_steps) = refresh_interest(fed);
            registered_adds(before, all, refresh_steps);
            if refresh_steps.len() > 0 {
                registered_one(fed.current_interest, refresh_steps[0]);
                assert(refresh_steps =~= seq![refresh_steps[0]]);
                assert((all + refresh_steps)[all.len() as int] is Reregister);
            } else {
                assert(all + refresh_steps =~= all);
            }
            registered_none(before, all);
        }
    }
}

/// The same whatever the host does. Behind an event that leaves the connection open it is
/// registered for what suits its state, and it asks for that only where it has to.
pub proof fn event_keeps_interest(
    key: NatKey,
    v: EstablishedView,
    is_readable: bool,
    is_writable: bool,
    io: HostIo,
    proxy_mac: MacAddr,
    vm_mac: MacAddr,
    now: Instant,
)
    ensures
        ({
            let (next, action) = established_event(
                key,
                v,
                is_readable,
                is_writable,
                io,
                proxy_mac,
                vm_mac,
                now,
            );
            next matches StateView::Established(w) ==> {
                &&& w.current_interest == registered(v.current_interest, steps(action))
                &&& action is Many ==> w.current_interest == interest_for(w) && (
                has_reregister(steps(action)) <==> w.current_interest != v.current_interest)
            }
        }),
{
    let before = v.current_interest;
    let reads = established_will_read(v, is_readable);
    registered_one(before, Step::ScheduleRemoval);
    let active = EstablishedView { last_activity: now, ..v };
    queue_data_frame(key, active, io.data, proxy_mac, vm_mac, now);
    let done = after_io(key, v, is_readable, is_writable, io, proxy_mac, vm_mac, now);
    assert(done.current_interest == before);
    if !(reads && io.failed) && !((reads && io.eof) || (is_writable && io.write_closed)) {
        let (probed, probe_steps) = probe_window(key, done, proxy_mac, vm_mac, now);
        assert(!has_reregister(probe_steps));
        registered_none(before, probe_steps);
        let (last, refresh_steps) = refresh_interest(probed);
        registered_adds(before, probe_steps, refresh_steps);
        let all = probe_steps + refresh_steps;
        if refresh_steps.len() > 0 {
            registered_one(before, refresh_steps[0]);
            assert(refresh_steps =~= seq![refresh_steps[0]]);
            assert(all[probe_steps.len() as int] is Reregister);
        } else {
            assert(all =~= probe_steps);
        }
        assert(interest_for(last) == interest_for(probed));
    }
}

/// No data is taken from the machine while more than the high mark waits for the host, and it
/// is taken again as soon as less than the low mark does, and no sooner.
pub proof fn host_backlog_is_bounded(v: EstablishedView, t: SegmentView, n: nat)
    ensures
        !accept_data(v, t).0.vm_reads_paused ==> accept_data(v, t).0.write_buffer_size
            <= HOST_WRITE_BUFFER_HIGH_WATER,
        n <= v.write_buffer_size ==> (host_took(v, n).vm_reads_paused <==> v.vm_reads_paused
            && v.write_buffer_size - n >= HOST_WRITE_BUFFER_LOW_WATER),
{
}

// --- Closing ---

/// When the host ends the connection, it closes in three steps: a FIN goes to the machine, its
/// acknowledgement is awaited, and the machine's own FIN is acknowledged and leads to the time
/// in which late packets are waited for.
pub proof fn host_close_completes(
    key: NatKey,
    v: EstablishedView,
    is_writable: bool,
    io: HostIo,
    ack: SegmentView,
    fin: SegmentView,
    proxy_mac: MacAddr,
    vm_mac: MacAddr,
    now: Instant,
)
    requires
        !v.host_reads_paused,
        io.eof,
        !io.failed,
        ack.flags & ACK != 0,
        fin.flags & FIN != 0,
    ensures
        ({
            let done = after_io(key, v, true, is_writable, io, proxy_mac, vm_mac, now);
            let st = StateView::Established(v);
            let (one, first) = event_step(
                key,
                st,
                true,
                is_writable,
                io,
                proxy_mac,
                vm_mac,
                now,
            );
            let (two, second) = packet_step(key, one, ack, proxy_mac, vm_mac, now);
            let (three, third) = packet_step(key, two, fin, proxy_mac, vm_mac, now);
            &&& one == StateView::FinWait1 {
                fin_seq: done.tx_seq.wrapping_add(1),
                rx_seq: done.rx_seq,
            }
            &&& steps(first) == seq![
                Step::Send(
                    to_vm(
                        key,
                        done.tx_seq,
                        done.rx_seq,
                        Seq::empty(),
                        FIN_ACK,
                        proxy_mac,
                        vm_mac,
                    ),
                ),
            ]
            &&& ack.acknowledgement == done.tx_seq.wrapping_add(1) ==> {
                &&& two == StateView::FinWait2 { rx_seq: done.rx_seq }
                &&& three is TimeWait
                &&& steps(third).last() is EnterTimeWait
                &&& steps(third)[0] == Step::Send(
                    to_vm(
                        key,
                        0,
                        fin.sequence.wrapping_add(1),
                        Seq::empty(),
                        ACK,
                        proxy_mac,
                        vm_mac,
                    ),
                )
            }
            &&& ack.acknowledgement != done.tx_seq.wrapping_add(1) ==> two == one
        }),
{
    let done = after_io(key, v, true, is_writable, io, proxy_mac, vm_mac, now);
    let (one, first) = event_step(
        key,
        StateView::Established(v),
        true,
        is_writable,
        io,
        proxy_mac,
        vm_mac,
        now,
    );
    assert(steps(first) =~= seq![
        Step::Send(
            to_vm(key, done.tx_seq, done.rx_seq, Seq::empty(), FIN_ACK, proxy_mac, vm_mac),
        ),
    ]);
}

/// When the machine ends the connection, it closes too: the FIN is acknowledged and the host
/// told, the next event of the host has a FIN sent in turn, and its acknowledgement has the
/// connection removed.
pub proof fn machine_close_completes(
    key: NatKey,
    v: EstablishedView,
    fin: SegmentView,
    is_readable: bool,
    is_writable: bool,
    io: HostIo,
    ack: SegmentView,
    proxy_mac: MacAddr,
    vm_mac: MacAddr,
    now: Instant,
)
    requires
        fin.flags & FIN != 0,
        fin.flags & RST == 0,
        ack.flags & ACK != 0,
    ensures
        ({
            let tx_seq = take_ack(v, fin, now).0.tx_seq;
            let rx_seq = fin.sequence.wrapping_add(low32(fin.payload.len())).wrapping_add(1);
            let st = StateView::Established(v);
            let (one, first) = packet_step(key, st, fin, proxy_mac, vm_mac, now);
            let (two, second) = event_step(
                key,
                one,
                is_readable,
                is_writable,
                io,
                proxy_mac,
                vm_mac,
                now,
            );
            let (three, third) = packet_step(key, two, ack, proxy_mac, vm_mac, now);
            &&& tx_seq == v.tx_seq
            &&& one == StateView::CloseWait { tx_seq, rx_seq }
            &&& steps(first).last() is ShutdownHostWrite
            &&& two == StateView::LastAck { fin_seq: tx_seq.wrapping_add(1) }
            &&& second == ActionView::One(
                Step::Send(to_vm(key, tx_seq, rx_seq, Seq::empty(), FIN_ACK, proxy_mac, vm_mac)),
            )
            &&& third is One && third->One_0 is ScheduleRemoval <==> ack.acknowledgement
                == tx_seq.wrapping_add(1)
        }),
{
}

/// Nothing brings a connection that is over back: it never leaves the time in which late
/// packets are waited for, nor the state of no connection, and a reset that comes when there is
/// no connection is not answered.
pub proof fn over_is_over(
    key: NatKey,
    t: SegmentView,
    is_readable: bool,
    is_writable: bool,
    io: HostIo,
    proxy_mac: MacAddr,
    vm_mac: MacAddr,
    now: Instant,
)
    ensures
        packet_step(key, StateView::TimeWait, t, proxy_mac, vm_mac, now).0 is TimeWait,
        packet_step(key, StateView::Closed, t, proxy_mac, vm_mac, now).0 is Closed,
        event_step(
            key,
            StateView::TimeWait,
            is_readable,
            is_writable,
            io,
            proxy_mac,
            vm_mac,
            now,
        ).0 is TimeWait,
        event_step(
            key,
            StateView::Closed,
            is_readable,
            is_writable,
            io,
            proxy_mac,
            vm_mac,
            now,
        ).0 is Closed,
        t.flags & RST != 0 ==> packet_step(key, StateView::Closed, t, proxy_mac, vm_mac, now).1
            == ActionView::One(Step::Nothing),
{
}

} // verus!
