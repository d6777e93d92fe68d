//! What a connection answers, and where that leaves it, state by state.
use vstd::prelude::*;

use crate::addr::{Instant, Interest, MacAddr, NatKey};
use crate::buffer::{flat, flat_drop_bytes};
use crate::host::{
    received, received_adds, sent, write_run, write_run_sends, HostCall, ReadView, WriteEnd,
};
use crate::seqnum::low32;
use crate::tcp_fsm::invariants::join_kept_frame;
use crate::tcp_fsm::model::{
    established_packet, established_wf, event_step, first_chunk, in_flight_bytes, join_kept,
    packet_step, queue_chunk, queue_data, queue_full, read_enough, read_run, reads_fit,
    shows_closed, take_ack, take_data, to_vm, writes_fit, ActionView, EstablishedView, HostIo,
    InFlight, SegmentView, StateView, Step,
};
use crate::tcp_fsm::TcpNegotiatedOptions;
use crate::tcp_laws::{number_at, steps};

verus! {

// --- Opening ---

/// A connection that the machine asked for is answered as soon as the host has accepted it, by
/// one SYN with ACK that acknowledges the machine's SYN. From then on both sides count from
/// behind their SYN, with nothing under way and the window scaled as the machine asked, and the
/// stream is watched in both directions. Until then nothing is sent, whatever the machine sends.
pub proof fn accepted_connection_opens(
    key: NatKey,
    vm_initial_seq: u32,
    tx_seq: u32,
    vm_options: TcpNegotiatedOptions,
    is_readable: bool,
    io: HostIo,
    t: SegmentView,
    proxy_mac: MacAddr,
    vm_mac: MacAddr,
    now: Instant,
)
    ensures
        ({
            let st = StateView::EgressConnecting { vm_initial_seq, tx_seq, vm_options };
            let (next, action) = event_step(
                key,
                st,
                is_readable,
                true,
                io,
                proxy_mac,
                vm_mac,
                now,
            );
            &&& next matches StateView::Established(w)
            &&& w.tx_seq == number_at(tx_seq, 1)
            &&& w.rx_seq == number_at(vm_initial_seq, 1)
            &&& w.highest_ack_from_vm == tx_seq
            &&& w.vm_window_size == 0xffff
            &&& vm_options.window_scale matches Some(s) ==> w.vm_window_scale == s
            &&& vm_options.window_scale is None ==> w.vm_window_scale == 0
            &&& nothing_under_way(w)
            &&& w.last_activity == now
            &&& steps(action) == seq![
                Step::Send(
                    to_vm(
                        key,
                        tx_seq,
                        number_at(vm_initial_seq, 1),
                        Seq::empty(),
                        0x12,
                        proxy_mac,
                        vm_mac,
                    ),
                ),
                Step::Reregister(Interest::Both),
            ]
            &&& event_step(key, st, is_readable, false, io, proxy_mac, vm_mac, now) == (
                st,
                ActionView::One(Step::Nothing),
            )
            &&& packet_step(key, st, t, proxy_mac, vm_mac, now) == (
                st,
                ActionView::One(Step::Nothing),
            )
        }),
{
}

/// Nothing waits in either direction, nothing is in flight and nothing is held back.
pub open spec fn nothing_under_way(w: EstablishedView) -> bool {
    &&& w.rx_buf.dom() == Set::<u32>::empty()
    &&& w.write_buffer.len() == 0
    &&& w.write_buffer_size == 0
    &&& w.to_vm_buffer.len() == 0
    &&& w.in_flight.len() == 0
    &&& w.dup_ack_count == 0
    &&& !w.host_reads_paused
    &&& !w.vm_reads_paused
    &&& w.last_fast_retransmit_seq is None
    &&& w.last_zero_window_probe is None
    &&& w.current_interest == Interest::Both
}

/// A connection into the machine opens with the machine's SYN with ACK, if that acknowledges
/// the SYN it was sent: the answer is one ACK of the machine's SYN. Nothing else opens it.
pub proof fn answered_connection_opens(
    key: NatKey,
    tx_seq: u32,
    rx_seq: u32,
    t: SegmentView,
    proxy_mac: MacAddr,
    vm_mac: MacAddr,
    now: Instant,
)
    ensures
        ({
            let st = StateView::IngressConnecting { tx_seq, rx_seq };
            let (next, action) = packet_step(key, st, t, proxy_mac, vm_mac, now);
            let answers = t.flags & 0x12 == 0x12 && t.acknowledgement == tx_seq;
            &&& answers ==> {
                &&& next matches StateView::Established(w)
                &&& w.tx_seq == tx_seq
                &&& w.rx_seq == number_at(t.sequence, 1)
                &&& w.highest_ack_from_vm == tx_seq
                &&& w.vm_window_size == t.window
                &&& w.vm_window_scale == 0
                &&& nothing_under_way(w)
                &&& w.last_activity == now
                &&& steps(action) == seq![
                    Step::Send(
                        to_vm(
                            key,
                            tx_seq,
                            number_at(t.sequence, 1),
                            Seq::empty(),
                            0x10,
                            proxy_mac,
                            vm_mac,
                        ),
                    ),
                    Step::Reregister(Interest::Both),
                ]
            }
            &&& !answers ==> (next, action) == (st, ActionView::One(Step::Nothing))
        }),
{
}

// --- Data from the machine ---

/// Whether data lies ahead of the number that is next in turn: further on, by no more than half
/// of all numbers.
pub open spec fn lies_ahead(sequence: u32, next: u32) -> bool {
    sequence != next && (sequence - next) % 0x1_0000_0000 <= 0x8000_0000
}

/// Joining what was kept leaves nothing that is in turn, and loses nothing.
#[verifier::rlimit(60)]
proof fn join_leaves_gap(v: EstablishedView)
    requires
        v.rx_buf.dom().finite(),
    ensures
        ({
            let w = join_kept(v);
            &&& !w.rx_buf.dom().contains(w.rx_seq)
            &&& v.write_buffer.is_prefix_of(w.write_buffer)
            &&& forall|k: u32|
                #![trigger w.rx_buf.dom().contains(k)]
                #![trigger v.rx_buf.dom().contains(k)]
                v.rx_buf.dom().contains(k) ==> (w.rx_buf.dom().contains(k) && w.rx_buf[k]
                    == v.rx_buf[k]) || w.write_buffer.skip(v.write_buffer.len() as int).contains(
                    v.rx_buf[k],
                )
            &&& w.rx_buf.dom().subset_of(v.rx_buf.dom())
        }),
    decreases v.rx_buf.dom().len(),
{
    if v.rx_buf.dom().contains(v.rx_seq) {
        let data = v.rx_buf[v.rx_seq];
        let next = EstablishedView {
            rx_buf: v.rx_buf.remove(v.rx_seq),
            rx_seq: v.rx_seq.wrapping_add(low32(data.len())),
            write_buffer: v.write_buffer.push(data),
            write_buffer_size: (v.write_buffer_size + data.len()) as usize,
            ..v
        };
        assert(next.rx_buf.dom() =~= v.rx_buf.dom().remove(v.rx_seq));
        join_leaves_gap(next);
        let w = join_kept(v);
        let len = v.write_buffer.len() as int;
        assert(w.write_buffer[len] == data) by {
            assert(next.write_buffer[len] == data);
        }
        assert forall|k: u32|
            #![trigger w.rx_buf.dom().contains(k)]
            #![trigger v.rx_buf.dom().contains(k)]
            v.rx_buf.dom().contains(k) implies (w.rx_buf.dom().contains(k) && w.rx_buf[k]
            == v.rx_buf[k]) || w.write_buffer.skip(len).contains(v.rx_buf[k]) by {
            if k == v.rx_seq {
                assert(w.write_buffer.skip(len)[0] == data);
            } else {
                assert(next.rx_buf.dom().contains(k));
                let later = w.write_buffer.skip(len + 1);
                if later.contains(v.rx_buf[k]) {
                    let i = choose|i: int| 0 <= i < later.len() && later[i] == v.rx_buf[k];
                    assert(w.write_buffer.skip(len)[i + 1] == v.rx_buf[k]);
                }
            }
        }
    }
}

/// Data from the machine while it is taken: what is in turn waits for the host behind what
/// waits already, with everything that was kept for this turn behind it, and after that nothing
/// that is in turn is kept any more. What lies ahead is kept under its number, unless something
/// is there already. What is older changes nothing. While data is not taken nothing changes
/// either, and a packet without data changes nothing.
#[verifier::rlimit(60)]
pub proof fn data_finds_its_place(
    key: NatKey,
    v: EstablishedView,
    t: SegmentView,
    proxy_mac: MacAddr,
    vm_mac: MacAddr,
    now: Instant,
)
    requires
        v.rx_buf.dom().finite(),
        t.flags & 0x04 == 0,
        t.flags & 0x01 == 0,
    ensures
        ({
            let taken = t.payload.len() > 0 && !v.vm_reads_paused;
            let same = |w: EstablishedView|
                w.rx_seq == v.rx_seq && w.write_buffer == v.write_buffer && w.write_buffer_size
                    == v.write_buffer_size;
            &&& packet_step(key, StateView::Established(v), t, proxy_mac, vm_mac, now).0 matches StateView::Established(
                w,
            )
            &&& taken && t.sequence == v.rx_seq ==> {
                &&& v.write_buffer.push(t.payload).is_prefix_of(w.write_buffer)
                &&& !w.rx_buf.dom().contains(w.rx_seq)
                &&& forall|k: u32|
                    #![trigger v.rx_buf.dom().contains(k)]
                    v.rx_buf.dom().contains(k) ==> (w.rx_buf.dom().contains(k) && w.rx_buf[k]
                        == v.rx_buf[k]) || w.write_buffer.skip(
                        (v.write_buffer.len() + 1) as int,
                    ).contains(v.rx_buf[k])
            }
            &&& taken && lies_ahead(t.sequence, v.rx_seq) ==> {
                &&& same(w)
                &&& w.rx_buf.dom().contains(t.sequence)
                &&& w.rx_buf == if v.rx_buf.dom().contains(t.sequence) {
                    v.rx_buf
                } else {
                    v.rx_buf.insert(t.sequence, t.payload)
                }
            }
            &&& !taken || (t.sequence != v.rx_seq && !lies_ahead(t.sequence, v.rx_seq)) ==> {
                &&& same(w)
                &&& w.rx_buf == v.rx_buf
            }
            &&& taken ==> (w.vm_reads_paused <==> w.write_buffer_size > 65536)
            &&& !taken ==> w.vm_reads_paused == v.vm_reads_paused
        }),
{
    let a = take_ack(v, t, now).0;
    assert(t.sequence.wrapping_sub(v.rx_seq) as int == (t.sequence - v.rx_seq) % 0x1_0000_0000);
    let start = EstablishedView {
        rx_seq: t.sequence.wrapping_add(low32(t.payload.len())),
        write_buffer: a.write_buffer.push(t.payload),
        write_buffer_size: (a.write_buffer_size + t.payload.len()) as usize,
        ..a
    };
    join_kept_frame(start);
    join_leaves_gap(start);
    let w = established_packet(key, v, t, proxy_mac, vm_mac, now).0->Established_0;
    if t.payload.len() > 0 && !v.vm_reads_paused && t.sequence == v.rx_seq {
        let j = join_kept(start);
        assert(w.write_buffer == j.write_buffer);
        assert(w.rx_buf == j.rx_buf);
    }
}

/// A reset has the connection removed and nothing sent. A FIN is acknowledged together with the
/// data before it, the host is told that no more will come, and the connection waits for the
/// host to close.
pub proof fn machine_ends_connection(
    key: NatKey,
    v: EstablishedView,
    t: SegmentView,
    proxy_mac: MacAddr,
    vm_mac: MacAddr,
    now: Instant,
)
    ensures
        ({
            let st = StateView::Established(v);
            let (next, action) = packet_step(key, st, t, proxy_mac, vm_mac, now);
            let end = number_at(t.sequence, t.payload.len() + 1int);
            &&& t.flags & 0x04 != 0 ==> next == st && steps(action) == seq![Step::ScheduleRemoval]
            &&& t.flags & 0x04 == 0 && t.flags & 0x01 != 0 ==> {
                &&& next == StateView::CloseWait { tx_seq: v.tx_seq, rx_seq: end }
                &&& steps(action).len() >= 2
                &&& steps(action)[steps(action).len() - 1] == Step::ShutdownHostWrite
                &&& steps(action)[steps(action).len() - 2] == Step::Send(
                    to_vm(key, v.tx_seq, end, Seq::empty(), 0x10, proxy_mac, vm_mac),
                )
                &&& forall|i: int|
                    0 <= i < steps(action).len() - 2 ==> (#[trigger] steps(action)[i]) is Reregister
            }
        }),
{
    let n = low32(t.payload.len());
    assert(t.sequence.wrapping_add(n).wrapping_add(1) == number_at(
        t.sequence,
        t.payload.len() + 1int,
    ));
}

// --- Data from the host ---

/// The packet that carries the `i`th 1460 bytes of what was read, or what is left of it.
pub open spec fn piece_at(
    key: NatKey,
    tx_seq: u32,
    rx_seq: u32,
    data: Seq<u8>,
    i: int,
    proxy_mac: MacAddr,
    vm_mac: MacAddr,
    now: Instant,
) -> InFlight {
    let off = 1460 * i;
    let end = if off + 1460 <= data.len() {
        off + 1460
    } else {
        data.len() as int
    };
    InFlight {
        seq: number_at(tx_seq, off),
        packet: to_vm(
            key,
            number_at(tx_seq, off),
            rx_seq,
            data.subrange(off, end),
            0x18,
            proxy_mac,
            vm_mac,
        ),
        sent_at: now,
        len: (end - off) as u32,
    }
}

/// The first `n` packets that carry what was read.
pub open spec fn pieces(
    key: NatKey,
    tx_seq: u32,
    rx_seq: u32,
    data: Seq<u8>,
    n: nat,
    proxy_mac: MacAddr,
    vm_mac: MacAddr,
    now: Instant,
) -> Seq<InFlight> {
    Seq::new(n, |i: int| piece_at(key, tx_seq, rx_seq, data, i, proxy_mac, vm_mac, now))
}

/// The frames of packets, in their order.
pub open spec fn frames_of(q: Seq<InFlight>) -> Seq<Seq<u8>> {
    q.map_values(|p: InFlight| p.packet)
}

/// The window that the machine leaves, in bytes.
pub open spec fn window_of(v: EstablishedView) -> int {
    ((v.vm_window_size as u32) << v.vm_window_scale) as int
}

/// Whether the machine can be sent more: fewer than 32 packets are queued, fewer than 320 are in
/// flight, and more than `margin` bytes of its window are free.
pub open spec fn has_room(v: EstablishedView, margin: int) -> bool {
    &&& v.to_vm_buffer.len() < 32
    &&& v.in_flight.len() < 320
    &&& in_flight_bytes(v.in_flight) + margin < window_of(v)
}

/// How many of the `len` bytes that were read the first `n` packets carry.
pub open spec fn covered_by(n: nat, len: nat) -> int {
    if 1460 * n <= len {
        1460int * n
    } else {
        len as int
    }
}

proof fn full_is_no_room(v: EstablishedView)
    ensures
        queue_full(v) == !has_room(v, 730),
{
}

/// What was read is queued in pieces for as long as there is room.
#[verifier::rlimit(60)]
proof fn pieces_are_queued(
    key: NatKey,
    v: EstablishedView,
    data: Seq<u8>,
    proxy_mac: MacAddr,
    vm_mac: MacAddr,
    now: Instant,
) -> (n: nat)
    ensures
        ({
            let w = queue_data(key, v, data, proxy_mac, vm_mac, now);
            let q = pieces(key, v.tx_seq, v.rx_seq, data, n, proxy_mac, vm_mac, now);
            &&& 1460 * n < data.len() + 1460
            &&& w.in_flight == v.in_flight + q
            &&& w.to_vm_buffer == v.to_vm_buffer + frames_of(q)
            &&& w.tx_seq == number_at(v.tx_seq, covered_by(n, data.len()))
            &&& covered_by(n, data.len()) < data.len() ==> !has_room(w, 730) && w.host_reads_paused
            &&& covered_by(n, data.len()) == data.len() ==> w.host_reads_paused
                == v.host_reads_paused
            &&& w == EstablishedView {
                in_flight: w.in_flight,
                to_vm_buffer: w.to_vm_buffer,
                tx_seq: w.tx_seq,
                host_reads_paused: w.host_reads_paused,
                ..v
            }
            &&& n > 0 ==> w.to_vm_buffer.len() <= 32 && w.in_flight.len() <= 320 && has_room(v, 730)
        }),
    decreases data.len(),
{
    full_is_no_room(v);
    let w = queue_data(key, v, data, proxy_mac, vm_mac, now);
    if data.len() == 0 || queue_full(v) {
        let none = pieces(key, v.tx_seq, v.rx_seq, data, 0, proxy_mac, vm_mac, now);
        assert(v.in_flight + none =~= v.in_flight);
        assert(v.to_vm_buffer + frames_of(none) =~= v.to_vm_buffer);
        0
    } else {
        let chunk = first_chunk(data);
        let len = chunk.len() as int;
        let next = queue_chunk(key, v, chunk, proxy_mac, vm_mac, now);
        let rest = data.skip(len);
        let m = pieces_are_queued(key, next, rest, proxy_mac, vm_mac, now);
        let n = m + 1;
        let q = pieces(key, v.tx_seq, v.rx_seq, data, n, proxy_mac, vm_mac, now);
        let tail = pieces(key, next.tx_seq, v.rx_seq, rest, m, proxy_mac, vm_mac, now);
        assert(chunk =~= data.subrange(0, len));
        assert(q[0] == next.in_flight.last());
        assert forall|i: int| 0 <= i < m implies #[trigger] tail[i] == q[i + 1] by {
            let off = 1460 * i;
            let a = tail[i];
            let b = q[i + 1];
            assert(len == 1460);
            assert(next.tx_seq == number_at(v.tx_seq, 1460));
            assert(number_at(next.tx_seq, off) == number_at(v.tx_seq, off + 1460));
            let end = if off + 1460 <= rest.len() {
                off + 1460
            } else {
                rest.len() as int
            };
            assert(rest.subrange(off, end) =~= data.subrange(off + 1460, end + 1460));
        }
        assert(next.in_flight + tail =~= v.in_flight + q);
        assert(next.to_vm_buffer + frames_of(tail) =~= v.to_vm_buffer + frames_of(q));
        if m > 0 {
            assert(len == 1460);
            assert(next.tx_seq == number_at(v.tx_seq, 1460));
        } else {
            assert(covered_by(0, rest.len()) == 0);
            assert(next.tx_seq == number_at(v.tx_seq, len));
        }
        n
    }
}

/// Whether a read handed out nothing, which is the end of the stream.
pub open spec fn ended(call: HostCall) -> bool {
    match call {
        HostCall::Read { got: ReadView::Data(d), .. } => d.len() == 0,
        _ => false,
    }
}

/// Whether a call is a read that leaves room for data.
pub open spec fn asks_for_data(call: HostCall) -> bool {
    match call {
        HostCall::Read { max, .. } => max > 0,
        _ => false,
    }
}

/// How much a read handed out.
pub open spec fn handed_out(call: HostCall) -> nat {
    match call {
        HostCall::Read { got: ReadView::Data(d), .. } => d.len(),
        _ => 0,
    }
}

/// Whether a read failed for good.
pub open spec fn broke(call: HostCall) -> bool {
    match call {
        HostCall::Read { got, .. } => got is Reset || got is Failed,
        _ => false,
    }
}

/// What the reads of an event handed out is what is queued: an end of the stream is seen only
/// where nothing came before it, and a failure only as the last thing.
#[verifier::rlimit(60)]
proof fn read_run_tells(sofar: Seq<u8>, calls: Seq<HostCall>, data: Seq<u8>, eof: bool, failed: bool)
    requires
        read_run(sofar, calls, data, eof, failed),
    ensures
        data == sofar + received(calls),
        calls.len() > 0,
        eof <==> data.len() == 0 && ended(calls.last()),
        failed <==> broke(calls.last()),
        handed_out(calls.last()) > 0 ==> data.len() >= 16384 || (data.len() >= 1460 && handed_out(
            calls.last(),
        ) < 365),
        calls[0] matches HostCall::Read { max, .. } && max == 16384 - sofar.len(),
        sofar.len() < 16384 ==> forall|i: int|
            0 <= i < calls.len() ==> asks_for_data(#[trigger] calls[i]),
    decreases calls.len(),
{
    reveal_with_fuel(received, 2);
    let first = seq![calls[0]];
    let rest = calls.skip(1);
    assert(calls =~= first + rest);
    received_adds(first, rest);
    assert(first.drop_last() =~= Seq::empty());
    match calls[0] {
        HostCall::Read { max, got } => match got {
            ReadView::Data(d) => {
                assert(received(first) =~= d);
                if d.len() > 0 && !read_enough(sofar + d, d.len()) {
                    read_run_tells(sofar + d, rest, data, eof, failed);
                    assert(sofar + d + received(rest) =~= sofar + (d + received(rest)));
                    assert(rest.last() == calls.last());
                    assert forall|i: int| sofar.len() < 16384 && 0 <= i < calls.len() implies asks_for_data(
                        #[trigger] calls[i],
                    ) by {
                        if i > 0 {
                            assert(asks_for_data(rest[i - 1]));
                        }
                    }
                } else {
                    assert(rest =~= Seq::empty());
                    assert(received(calls) =~= d);
                    assert(data =~= sofar + received(calls));
                }
            },
            _ => {
                assert(rest =~= Seq::empty());
                assert(received(calls) =~= Seq::empty());
                assert(data =~= sofar + received(calls));
            },
        },
        _ => {},
    }
}

/// An established connection reads its host exactly where an event says that the host is
/// readable and reading is not paused. What came of it is what the reads handed out: all the
/// data, the end of the stream where nothing came before it, or a failure. Reading stops only
/// where the host has no more for now, where 16384 bytes are there, or where there is enough for
/// a packet and the host hands out less than a quarter of one.
pub proof fn readable_host_is_read(v: EstablishedView, is_readable: bool, io: HostIo)
    requires
        reads_fit(StateView::Established(v), is_readable, io),
    ensures
        io.reads.len() > 0 <==> is_readable && !v.host_reads_paused,
        io.data == received(io.reads),
        io.eof <==> io.reads.len() > 0 && io.data.len() == 0 && ended(io.reads.last()),
        io.failed <==> io.reads.len() > 0 && broke(io.reads.last()),
        io.reads.len() > 0 ==> {
            &&& io.reads[0] matches HostCall::Read { max, .. } && max == 16384
            &&& forall|i: int| 0 <= i < io.reads.len() ==> asks_for_data(#[trigger] io.reads[i])
            &&& handed_out(io.reads.last()) > 0 ==> io.data.len() >= 16384 || (io.data.len() >= 1460
                && handed_out(io.reads.last()) < 365)
        },
{
    if is_readable && !v.host_reads_paused {
        read_run_tells(Seq::empty(), io.reads, io.data, io.eof, io.failed);
        assert(Seq::<u8>::empty() + received(io.reads) =~= received(io.reads));
    } else {
        assert(io.data =~= received(io.reads));
    }
}

/// Where the host is written to, what it is offered first is what waits for it first.
pub proof fn writable_host_is_written(
    v: EstablishedView,
    is_readable: bool,
    is_writable: bool,
    io: HostIo,
)
    requires
        writes_fit(StateView::Established(v), is_readable, is_writable, io),
        is_writable,
        !(is_readable && !v.host_reads_paused && io.failed),
        v.write_buffer.len() > 0,
    ensures
        io.writes.len() > 0,
        io.writes[0] matches HostCall::Write { data, .. } && data == v.write_buffer[0],
        io.again.len() == 0,
{
}

/// What an event of the host does to an established connection, as far as the host neither
/// ended nor failed. What was read is queued for the machine in packets of 1460 bytes, the last
/// one shorter, gapless and in order, each of them in flight from now on and each acknowledging
/// what has come from the machine. Where the machine can be sent no more the rest is dropped,
/// and only there. What the host took waits for it no longer, and data from the machine is
/// taken again once less than 65536 bytes wait.
#[verifier::rlimit(60)]
pub proof fn event_moves_data(
    key: NatKey,
    v: EstablishedView,
    is_readable: bool,
    is_writable: bool,
    io: HostIo,
    proxy_mac: MacAddr,
    vm_mac: MacAddr,
    now: Instant,
) -> (n: nat)
    requires
        established_wf(v),
        writes_fit(StateView::Established(v), is_readable, is_writable, io),
        !(is_readable && !v.host_reads_paused && (io.eof || io.failed)),
        !(is_writable && io.write_closed),
    ensures
        ({
            let data = if is_readable && !v.host_reads_paused {
                io.data
            } else {
                Seq::empty()
            };
            let q = pieces(key, v.tx_seq, v.rx_seq, data, n, proxy_mac, vm_mac, now);
            &&& event_step(
                key,
                StateView::Established(v),
                is_readable,
                is_writable,
                io,
                proxy_mac,
                vm_mac,
                now,
            ).0 matches StateView::Established(w)
            &&& 1460 * n < data.len() + 1460
            &&& w.in_flight == v.in_flight + q
            &&& w.to_vm_buffer == v.to_vm_buffer + frames_of(q)
            &&& w.tx_seq == number_at(v.tx_seq, covered_by(n, data.len()))
            &&& covered_by(n, data.len()) < data.len() ==> !has_room(w, 730)
            &&& n > 0 ==> w.to_vm_buffer.len() <= 32 && w.in_flight.len() <= 320 && has_room(v, 730)
            &&& flat(w.write_buffer) == if is_writable {
                flat(v.write_buffer).skip(sent(io.writes).len() as int)
            } else {
                flat(v.write_buffer)
            }
            &&& w.vm_reads_paused <==> v.vm_reads_paused && !(is_writable && flat(
                w.write_buffer,
            ).len() < 65536)
            &&& w.rx_seq == v.rx_seq
            &&& w.rx_buf == v.rx_buf
            &&& w.highest_ack_from_vm == v.highest_ack_from_vm
            &&& w.vm_window_size == v.vm_window_size
            &&& w.vm_window_scale == v.vm_window_scale
            &&& w.last_activity == now
        }),
{
    let active = EstablishedView { last_activity: now, ..v };
    let reads = is_readable && !v.host_reads_paused;
    let data = if reads {
        io.data
    } else {
        Seq::empty()
    };
    let none = pieces(key, v.tx_seq, v.rx_seq, data, 0, proxy_mac, vm_mac, now);
    assert(v.in_flight + none =~= v.in_flight);
    assert(v.to_vm_buffer + frames_of(none) =~= v.to_vm_buffer);
    let n = if reads {
        pieces_are_queued(key, active, data, proxy_mac, vm_mac, now)
    } else {
        0
    };
    if is_writable {
        let end = choose|end: WriteEnd| #[trigger]
            write_run(v.write_buffer, io.writes, io.written as int, end) && io.write_closed
                == shows_closed(end);
        write_run_sends(v.write_buffer, io.writes, io.written as int, end);
        flat_drop_bytes(v.write_buffer, io.written);
    }
    n
}

/// Where the host is at its end, or turns out to be closed, the machine is sent one FIN with
/// ACK, behind all data that was queued, and the connection waits for its acknowledgement. Where
/// reading failed the connection is removed and nothing is sent.
#[verifier::rlimit(60)]
pub proof fn host_ends_connection(
    key: NatKey,
    v: EstablishedView,
    is_readable: bool,
    is_writable: bool,
    io: HostIo,
    proxy_mac: MacAddr,
    vm_mac: MacAddr,
    now: Instant,
)
    requires
        established_wf(v),
        reads_fit(StateView::Established(v), is_readable, io),
        writes_fit(StateView::Established(v), is_readable, is_writable, io),
    ensures
        ({
            let st = StateView::Established(v);
            let (next, action) = event_step(
                key,
                st,
                is_readable,
                is_writable,
                io,
                proxy_mac,
                vm_mac,
                now,
            );
            &&& io.failed ==> steps(action) == seq![Step::ScheduleRemoval]
            &&& io.eof ==> {
                &&& next == StateView::FinWait1 {
                    fin_seq: number_at(v.tx_seq, 1),
                    rx_seq: v.rx_seq,
                }
                &&& steps(action) == seq![
                    Step::Send(
                        to_vm(key, v.tx_seq, v.rx_seq, Seq::empty(), 0x11, proxy_mac, vm_mac),
                    ),
                ]
            }
            &&& !io.failed && !io.eof && io.write_closed ==> {
                &&& next matches StateView::FinWait1 { fin_seq, rx_seq }
                &&& rx_seq == v.rx_seq
                &&& exists|n: nat|
                    {
                        let last = number_at(v.tx_seq, #[trigger] covered_by(n, io.data.len()));
                        &&& fin_seq == number_at(last, 1)
                        &&& steps(action) == seq![
                            Step::Send(
                                to_vm(key, last, v.rx_seq, Seq::empty(), 0x11, proxy_mac, vm_mac),
                            ),
                        ]
                    }
            }
            &&& next is FinWait1 <==> !io.failed && (io.eof || io.write_closed)
        }),
{
    readable_host_is_read(v, is_readable, io);
    let active = EstablishedView { last_activity: now, ..v };
    let n = pieces_are_queued(key, active, io.data, proxy_mac, vm_mac, now);
    let last = number_at(v.tx_seq, covered_by(n, io.data.len()));
    if !io.failed && !io.eof && io.write_closed && !(is_readable && !v.host_reads_paused) {
        assert(covered_by(0, io.data.len()) == 0);
        assert(number_at(v.tx_seq, 0) == v.tx_seq);
    }
}

/// While reading from the host is paused and no more than 2920 bytes of the machine's window are
/// free, the machine is sent one byte on probation, at most twice a second, and reading goes on.
/// Nothing else is sent for an event of the host.
#[verifier::rlimit(60)]
pub proof fn closed_window_is_probed(
    key: NatKey,
    v: EstablishedView,
    is_readable: bool,
    is_writable: bool,
    io: HostIo,
    proxy_mac: MacAddr,
    vm_mac: MacAddr,
    now: Instant,
)
    requires
        v.host_reads_paused,
        !(is_writable && io.write_closed),
    ensures
        ({
            let (next, action) = event_step(
                key,
                StateView::Established(v),
                is_readable,
                is_writable,
                io,
                proxy_mac,
                vm_mac,
                now,
            );
            let due = in_flight_bytes(v.in_flight) + 2920 >= window_of(v) && (
            v.last_zero_window_probe matches Some(last) ==> now - last >= 500_000_000);
            &&& next matches StateView::Established(w)
            &&& due ==> {
                &&& w.last_zero_window_probe == Some(now)
                &&& !w.host_reads_paused
                &&& steps(action).len() > 0
                &&& steps(action)[0] == Step::Send(
                    to_vm(key, v.tx_seq, v.rx_seq, seq![0u8], 0x18, proxy_mac, vm_mac),
                )
                &&& forall|i: int|
                    0 < i < steps(action).len() ==> (#[trigger] steps(action)[i]) is Reregister
            }
            &&& !due ==> {
                &&& w.last_zero_window_probe == v.last_zero_window_probe
                &&& w.host_reads_paused
                &&& forall|i: int|
                    0 <= i < steps(action).len() ==> (#[trigger] steps(action)[i]) is Reregister
            }
        }),
{
}

// --- What the stream is watched for ---

/// Whether more can be read from the host.
pub open spec fn can_take_more(v: EstablishedView) -> bool {
    !v.host_reads_paused && has_room(v, 365)
}

/// Whether something waits in either direction.
pub open spec fn something_waits(v: EstablishedView) -> bool {
    v.write_buffer.len() > 0 || v.to_vm_buffer.len() > 0
}

/// After an event the stream is watched for reading exactly while more can be taken, and for
/// writing exactly while something waits or no more can be taken.
#[verifier::rlimit(60)]
pub proof fn event_sets_interest(
    key: NatKey,
    v: EstablishedView,
    is_readable: bool,
    is_writable: bool,
    io: HostIo,
    proxy_mac: MacAddr,
    vm_mac: MacAddr,
    now: Instant,
)
    requires
        !(is_readable && !v.host_reads_paused && io.failed),
    ensures
        event_step(
            key,
            StateView::Established(v),
            is_readable,
            is_writable,
            io,
            proxy_mac,
            vm_mac,
            now,
        ).0 matches StateView::Established(w) ==> {
            &&& can_take_more(w) <==> w.current_interest != Interest::Writable
            &&& (something_waits(w) || !can_take_more(w)) <==> w.current_interest
                != Interest::Readable
        },
{
}

/// After a packet the stream is watched for reading where more can be taken, and for writing
/// where something waits.
#[verifier::rlimit(60)]
pub proof fn packet_sets_interest(
    key: NatKey,
    v: EstablishedView,
    t: SegmentView,
    proxy_mac: MacAddr,
    vm_mac: MacAddr,
    now: Instant,
)
    requires
        v.rx_buf.dom().finite(),
        t.flags & 0x04 == 0,
        t.flags & 0x01 == 0,
    ensures
        packet_step(key, StateView::Established(v), t, proxy_mac, vm_mac, now).0 matches StateView::Established(
            w,
        ) && {
            &&& can_take_more(w) ==> w.current_interest != Interest::Writable
            &&& something_waits(w) ==> w.current_interest != Interest::Readable
        },
{
    let (a, ack_steps) = take_ack(v, t, now);
    join_kept_frame(
        EstablishedView {
            rx_seq: t.sequence.wrapping_add(low32(t.payload.len())),
            write_buffer: a.write_buffer.push(t.payload),
            write_buffer_size: (a.write_buffer_size + t.payload.len()) as usize,
            ..a
        },
    );
    let (fed, data_steps) = take_data(key, a, t, proxy_mac, vm_mac);
    let all = ack_steps + data_steps;
    if ack_steps.len() > 0 {
        assert(all[0] is Reregister);
    }
}

// --- Closing ---

/// A connection whose FIN is on its way takes the acknowledgement of that FIN and nothing else;
/// after it the machine's own FIN is acknowledged, and the connection waits out its time.
pub proof fn fin_is_awaited(
    key: NatKey,
    fin_seq: u32,
    rx_seq: u32,
    t: SegmentView,
    proxy_mac: MacAddr,
    vm_mac: MacAddr,
    now: Instant,
)
    ensures
        ({
            let one = StateView::FinWait1 { fin_seq, rx_seq };
            let two = StateView::FinWait2 { rx_seq };
            let acks = t.flags & 0x10 != 0 && t.acknowledgement == fin_seq;
            &&& packet_step(key, one, t, proxy_mac, vm_mac, now) == (
                if acks {
                    two
                } else {
                    one
                },
                ActionView::One(Step::Nothing),
            )
            &&& t.flags & 0x01 == 0 ==> packet_step(key, two, t, proxy_mac, vm_mac, now) == (
                two,
                ActionView::One(Step::Nothing),
            )
            &&& t.flags & 0x01 != 0 ==> packet_step(key, two, t, proxy_mac, vm_mac, now) == (
                StateView::TimeWait,
                ActionView::Many(
                    seq![
                        Step::Send(
                            to_vm(
                                key,
                                0,
                                number_at(t.sequence, 1),
                                Seq::empty(),
                                0x10,
                                proxy_mac,
                                vm_mac,
                            ),
                        ),
                        Step::EnterTimeWait,
                    ],
                ),
            )
        }),
{
}

/// A connection that the machine has closed answers nothing until the host has an event. Then it
/// sends its own FIN with ACK, and the acknowledgement of that FIN, and nothing else, has it
/// removed.
pub proof fn closing_host_sends_fin(
    key: NatKey,
    tx_seq: u32,
    rx_seq: u32,
    is_readable: bool,
    is_writable: bool,
    io: HostIo,
    t: SegmentView,
    proxy_mac: MacAddr,
    vm_mac: MacAddr,
    now: Instant,
)
    ensures
        ({
            let wait = StateView::CloseWait { tx_seq, rx_seq };
            let last = StateView::LastAck { fin_seq: number_at(tx_seq, 1) };
            let acks = t.flags & 0x10 != 0 && t.acknowledgement == number_at(tx_seq, 1);
            &&& packet_step(key, wait, t, proxy_mac, vm_mac, now) == (
                wait,
                ActionView::One(Step::Nothing),
            )
            &&& event_step(key, wait, is_readable, is_writable, io, proxy_mac, vm_mac, now) == (
                last,
                ActionView::One(
                    Step::Send(
                        to_vm(key, tx_seq, rx_seq, Seq::empty(), 0x11, proxy_mac, vm_mac),
                    ),
                ),
            )
            &&& packet_step(key, last, t, proxy_mac, vm_mac, now) == (
                last,
                ActionView::One(
                    if acks {
                        Step::ScheduleRemoval
                    } else {
                        Step::Nothing
                    },
                ),
            )
            &&& event_step(key, last, is_readable, is_writable, io, proxy_mac, vm_mac, now) == (
                last,
                ActionView::One(Step::Nothing),
            )
        }),
{
}

/// A connection that waits out its time acknowledges a repeated FIN and answers all else by a
/// reset that starts where the machine expects it.
pub proof fn waiting_connection_answers(
    key: NatKey,
    t: SegmentView,
    proxy_mac: MacAddr,
    vm_mac: MacAddr,
    now: Instant,
)
    ensures
        packet_step(key, StateView::TimeWait, t, proxy_mac, vm_mac, now) == (
            StateView::TimeWait,
            ActionView::One(
                Step::Send(
                    if t.flags & 0x01 != 0 {
                        to_vm(
                            key,
                            0,
                            number_at(t.sequence, 1),
                            Seq::empty(),
                            0x10,
                            proxy_mac,
                            vm_mac,
                        )
                    } else {
                        to_vm(key, t.acknowledgement, 0, Seq::empty(), 0x04, proxy_mac, vm_mac)
                    },
                ),
            ),
        ),
{
}

/// Where both sides have closed at once, the acknowledgement of the FIN ends the wait, and the
/// machine's FIN at its place is acknowledged.
pub proof fn crossed_fins_are_answered(
    key: NatKey,
    fin_seq: u32,
    rx_seq: u32,
    t: SegmentView,
    proxy_mac: MacAddr,
    vm_mac: MacAddr,
    now: Instant,
)
    ensures
        ({
            let st = StateView::Closing { fin_seq, rx_seq };
            let (next, action) = packet_step(key, st, t, proxy_mac, vm_mac, now);
            let acks = t.flags & 0x10 != 0 && t.acknowledgement == number_at(fin_seq, 1);
            let ends = t.flags & 0x01 != 0 && t.sequence == rx_seq;
            &&& acks ==> next is TimeWait && steps(action) == seq![Step::EnterTimeWait]
            &&& !acks ==> next == st
            &&& !acks && ends ==> steps(action) == seq![
                Step::Send(
                    to_vm(
                        key,
                        number_at(fin_seq, 1),
                        number_at(rx_seq, 1),
                        Seq::empty(),
                        0x10,
                        proxy_mac,
                        vm_mac,
                    ),
                ),
            ]
            &&& !acks && !ends ==> steps(action) == seq![Step::Nothing]
        }),
{
}

/// Where nothing listens a SYN is refused by a reset that acknowledges it, and nothing else is
/// answered. On a connection that is over, a packet with ACK is answered by a reset that starts
/// where the machine expects it, one without by a reset that acknowledges all of it, and a reset
/// by nothing.
pub proof fn stray_packets_are_refused(
    key: NatKey,
    listen_port: u16,
    t: SegmentView,
    proxy_mac: MacAddr,
    vm_mac: MacAddr,
    now: Instant,
)
    ensures
        ({
            let st = StateView::Listen { listen_port };
            let counted: int = if t.flags & 0x03 != 0 {
                1
            } else {
                0
            };
            &&& packet_step(key, st, t, proxy_mac, vm_mac, now) == (
                st,
                ActionView::One(
                    if t.flags & 0x02 != 0 && t.flags & 0x10 == 0 {
                        Step::Send(
                            to_vm(
                                key,
                                0,
                                number_at(t.sequence, 1),
                                Seq::empty(),
                                0x14,
                                proxy_mac,
                                vm_mac,
                            ),
                        )
                    } else {
                        Step::Nothing
                    },
                ),
            )
            &&& packet_step(key, StateView::Closed, t, proxy_mac, vm_mac, now) == (
                StateView::Closed,
                ActionView::One(
                    if t.flags & 0x04 != 0 {
                        Step::Nothing
                    } else if t.flags & 0x10 != 0 {
                        Step::Send(
                            to_vm(
                                key,
                                t.acknowledgement,
                                0,
                                Seq::empty(),
                                0x04,
                                proxy_mac,
                                vm_mac,
                            ),
                        )
                    } else {
                        Step::Send(
                            to_vm(
                                key,
                                0,
                                number_at(t.sequence, t.payload.len() + counted),
                                Seq::empty(),
                                0x14,
                                proxy_mac,
                                vm_mac,
                            ),
                        )
                    },
                ),
            )
        }),
{
    let n = low32(t.payload.len());
    assert(t.sequence.wrapping_add(n).wrapping_add(1) == number_at(
        t.sequence,
        t.payload.len() + 1int,
    ));
    assert(t.sequence.wrapping_add(n).wrapping_add(0) == number_at(
        t.sequence,
        t.payload.len() as int,
    ));
}

} // verus!
