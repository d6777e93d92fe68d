//! What a connection of the simple kind answers, and where that leaves it.
use vstd::prelude::*;

use crate::addr::{Instant, Interest, MacAddr, NatKey};
use crate::buffer::{flat, flat_drop_bytes};
use crate::host::{HostCall, ReadView};
use crate::seqnum::low32;
use crate::simple_tcp::{
    simple_queue, simple_start, simple_will_read, SimpleConnectionState, SimpleView,
};
use crate::state_laws::{broke, covered_by, ended, frames_of, pieces};
use crate::tcp_fsm::model::{
    event_step, first_chunk, packet_step, popped, reads_fit, to_vm, ActionView, HostIo, SegmentView,
    StateView, Step,
};
use crate::tcp_laws::{number_at, steps};

verus! {

/// A connection starts with nothing under way, a window of 65535 bytes, and leave to have 65536
/// bytes in flight. The host is not read from before it has accepted.
pub proof fn connection_starts_empty(vm_initial_seq: u32, host_initial_seq: u32)
    ensures
        ({
            let v = simple_start(vm_initial_seq, host_initial_seq);
            &&& v.state == SimpleConnectionState::Connecting
            &&& v.to_vm_buffer.len() == 0 && v.to_host_buffer.len() == 0
            &&& !v.host_can_read && v.vm_can_read && !v.is_closed && !v.window_just_opened
            &&& v.max_inflight_bytes == 65536 && v.vm_window_size == 65535
            &&& v.vm_initial_seq == vm_initial_seq && v.last_vm_seq == vm_initial_seq
            &&& v.host_initial_seq == host_initial_seq && v.vm_acked_seq == host_initial_seq
        }),
{
}

/// As soon as the host has accepted, the machine's SYN is answered by one SYN with ACK, and data
/// flows: towards the machine it counts from behind that SYN, and the host may be read from.
/// Until then nothing is sent.
pub proof fn accepted_connection_opens(
    key: NatKey,
    v: SimpleView,
    is_readable: bool,
    io: HostIo,
    proxy_mac: MacAddr,
    vm_mac: MacAddr,
    now: Instant,
)
    requires
        v.state == SimpleConnectionState::Connecting,
    ensures
        ({
            let st = StateView::Simple(v);
            let (next, action) = event_step(
                key,
                st,
                is_readable,
                true,
                io,
                proxy_mac,
                vm_mac,
                now,
            );
            &&& next matches StateView::Simple(w)
            &&& w == SimpleView {
                state: SimpleConnectionState::Established,
                host_can_read: true,
                last_host_seq: number_at(v.host_initial_seq, 1),
                vm_acked_seq: v.host_initial_seq,
                ..v
            }
            &&& steps(action) == seq![
                Step::Send(
                    to_vm(
                        key,
                        v.host_initial_seq,
                        number_at(v.vm_initial_seq, 1),
                        Seq::empty(),
                        0x12,
                        proxy_mac,
                        vm_mac,
                    ),
                ),
            ]
            &&& event_step(key, st, is_readable, false, io, proxy_mac, vm_mac, now) == (
                st,
                ActionView::One(Step::Nothing),
            )
        }),
{
}

/// A FIN or a reset ends the connection and has it removed. While data does not flow nothing
/// else is answered. Data waits for the host behind what waits already, and is acknowledged by
/// one frame up to its end. A packet without data is not answered.
pub proof fn packet_is_taken(
    key: NatKey,
    v: SimpleView,
    t: SegmentView,
    proxy_mac: MacAddr,
    vm_mac: MacAddr,
    now: Instant,
)
    ensures
        ({
            let (next, action) = packet_step(
                key,
                StateView::Simple(v),
                t,
                proxy_mac,
                vm_mac,
                now,
            );
            let ends = t.flags & 0x01 != 0 || t.flags & 0x04 != 0;
            let flows = v.state == SimpleConnectionState::Established;
            let end = number_at(t.sequence, t.payload.len() as int);
            &&& next matches StateView::Simple(w)
            &&& ends ==> {
                &&& steps(action) == seq![Step::ScheduleRemoval]
                &&& w == SimpleView {
                    is_closed: true,
                    state: SimpleConnectionState::Closed,
                    ..v
                }
            }
            &&& !ends && !flows ==> w == v && steps(action) == seq![Step::Nothing]
            &&& !ends && flows && t.payload.len() > 0 ==> {
                &&& w.to_host_buffer == v.to_host_buffer.push(t.payload)
                &&& w.last_vm_seq == end
                &&& steps(action) == seq![
                    Step::Send(
                        to_vm(key, v.last_host_seq, end, Seq::empty(), 0x10, proxy_mac, vm_mac),
                    ),
                ]
            }
            &&& !ends && flows && t.payload.len() == 0 ==> {
                &&& w.to_host_buffer == v.to_host_buffer
                &&& steps(action) == seq![Step::Nothing]
            }
            &&& !ends ==> {
                &&& w.state == v.state
                &&& w.is_closed == v.is_closed
                &&& w.to_vm_buffer == v.to_vm_buffer
                &&& w.last_host_seq == v.last_host_seq
                &&& w.max_inflight_bytes == v.max_inflight_bytes
            }
        }),
{
}

/// How many bytes are in flight towards the machine.
pub open spec fn bytes_under_way(v: SimpleView) -> int {
    (v.last_host_seq - v.vm_acked_seq) % 0x1_0000_0000
}

/// What an acknowledgement does while data flows. The machine's answer to the SYN is noted, and
/// nothing else. Any other sets the window to the one in the packet. One that is higher than all
/// before it moves what counts as acknowledged up to it. Unless it is lower, the machine can
/// read exactly where its window has room for what is in flight. One that is higher also has the
/// host read again where less is in flight than may be. Whatever is opened by it is noted.
#[verifier::rlimit(60)]
pub proof fn acknowledgement_is_taken(
    key: NatKey,
    v: SimpleView,
    t: SegmentView,
    proxy_mac: MacAddr,
    vm_mac: MacAddr,
    now: Instant,
)
    requires
        v.state == SimpleConnectionState::Established,
        t.flags & 0x01 == 0,
        t.flags & 0x04 == 0,
        t.flags & 0x10 != 0,
    ensures
        ({
            let ack = t.acknowledgement;
            let opening = t.payload.len() == 0 && ack == number_at(v.host_initial_seq, 1);
            &&& packet_step(key, StateView::Simple(v), t, proxy_mac, vm_mac, now).0 matches StateView::Simple(
                w,
            )
            &&& opening ==> w == SimpleView {
                last_vm_seq: t.sequence,
                vm_acked_seq: ack,
                ..v
            }
            &&& !opening ==> {
                let room = t.window > 0 && bytes_under_way(w) < t.window;
                let few = bytes_under_way(w) < v.max_inflight_bytes as int % 0x1_0000_0000;
                &&& w.vm_window_size == t.window
                &&& ack > v.vm_acked_seq ==> {
                    &&& w.vm_acked_seq == ack
                    &&& w.vm_can_read <==> room
                    &&& w.host_can_read <==> v.host_can_read || few
                    &&& w.window_just_opened <==> v.window_just_opened || (room && !v.vm_can_read)
                        || (few && !v.host_can_read)
                }
                &&& ack == v.vm_acked_seq ==> {
                    &&& w.vm_acked_seq == ack
                    &&& w.vm_can_read <==> room
                    &&& w.host_can_read == v.host_can_read
                    &&& w.window_just_opened <==> v.window_just_opened || (room && !v.vm_can_read)
                }
                &&& ack < v.vm_acked_seq ==> {
                    &&& w.vm_acked_seq == v.vm_acked_seq
                    &&& w.vm_can_read == v.vm_can_read
                    &&& w.host_can_read == v.host_can_read
                    &&& w.window_just_opened == v.window_just_opened
                }
            }
        }),
{
    let w = packet_step(key, StateView::Simple(v), t, proxy_mac, vm_mac, now).0->Simple_0;
    assert(w.last_host_seq.wrapping_sub(w.vm_acked_seq) as int == bytes_under_way(w));
}

/// Whether one more packet of `len` bytes may be queued: fewer than 128 are, and with it neither
/// more bytes than may be nor more than the window has room for are in flight.
pub open spec fn may_queue(v: SimpleView, len: int) -> bool {
    let then = (v.last_host_seq + len - v.vm_acked_seq) % 0x1_0000_0000;
    &&& v.to_vm_buffer.len() < 128
    &&& then <= v.max_inflight_bytes as int % 0x1_0000_0000
    &&& then <= v.vm_window_size
}

/// How long the next packet of `left` bytes is.
pub open spec fn next_len(left: int) -> int {
    if left < 1460 {
        left
    } else {
        1460
    }
}

/// What was read is queued in pieces for as long as it may be.
#[verifier::rlimit(60)]
pub proof fn pieces_are_queued(
    key: NatKey,
    v: SimpleView,
    data: Seq<u8>,
    proxy_mac: MacAddr,
    vm_mac: MacAddr,
) -> (n: nat)
    ensures
        ({
            let w = simple_queue(key, v, data, proxy_mac, vm_mac);
            let q = pieces(key, v.last_host_seq, v.last_vm_seq, data, n, proxy_mac, vm_mac, 0);
            let done = covered_by(n, data.len());
            &&& 1460 * n < data.len() + 1460
            &&& w.to_vm_buffer == v.to_vm_buffer + frames_of(q)
            &&& w.last_host_seq == number_at(v.last_host_seq, done)
            &&& done < data.len() ==> !may_queue(w, next_len(data.len() - done)) && (
            !w.vm_can_read || !w.host_can_read)
            &&& done == data.len() ==> w.vm_can_read == v.vm_can_read && w.host_can_read
                == v.host_can_read
            &&& n > 0 ==> may_queue(v, next_len(data.len() as int)) && w.to_vm_buffer.len() <= 128
            &&& w == SimpleView {
                to_vm_buffer: w.to_vm_buffer,
                last_host_seq: w.last_host_seq,
                vm_can_read: w.vm_can_read,
                host_can_read: w.host_can_read,
                ..v
            }
        }),
    decreases data.len(),
{
    let w = simple_queue(key, v, data, proxy_mac, vm_mac);
    let chunk = first_chunk(data);
    let len = chunk.len() as int;
    let end = v.last_host_seq.wrapping_add(chunk.len() as u32);
    assert(end.wrapping_sub(v.vm_acked_seq) as int == (v.last_host_seq + len - v.vm_acked_seq)
        % 0x1_0000_0000);
    assert(number_at(v.last_host_seq, 0) == v.last_host_seq);
    if data.len() == 0 || !may_queue(v, len) {
        let none = pieces(key, v.last_host_seq, v.last_vm_seq, data, 0, proxy_mac, vm_mac, 0);
        assert(v.to_vm_buffer + frames_of(none) =~= v.to_vm_buffer);
        0
    } else {
        let packet = to_vm(key, v.last_host_seq, v.last_vm_seq, chunk, 0x18, proxy_mac, vm_mac);
        let next = SimpleView {
            to_vm_buffer: v.to_vm_buffer.push(packet),
            last_host_seq: end,
            ..v
        };
        let rest = data.skip(len);
        let m = pieces_are_queued(key, next, rest, proxy_mac, vm_mac);
        let n = m + 1;
        let q = pieces(key, v.last_host_seq, v.last_vm_seq, data, n, proxy_mac, vm_mac, 0);
        let tail = pieces(key, next.last_host_seq, v.last_vm_seq, rest, m, proxy_mac, vm_mac, 0);
        assert(chunk =~= data.subrange(0, len));
        assert(q[0].packet == packet);
        assert(end == number_at(v.last_host_seq, len));
        assert forall|i: int| 0 <= i < m implies #[trigger] tail[i] == q[i + 1] by {
            let off = 1460 * i;
            assert(len == 1460);
            assert(number_at(next.last_host_seq, off) == number_at(v.last_host_seq, off + 1460));
            let stop = if off + 1460 <= rest.len() {
                off + 1460
            } else {
                rest.len() as int
            };
            assert(rest.subrange(off, stop) =~= data.subrange(off + 1460, stop + 1460));
        }
        assert(next.to_vm_buffer + frames_of(tail) =~= v.to_vm_buffer + frames_of(q));
        if m > 0 {
            assert(len == 1460);
        } else {
            assert(covered_by(0, rest.len()) == 0);
        }
        assert(number_at(end, covered_by(m, rest.len())) == number_at(
            v.last_host_seq,
            covered_by(n, data.len()),
        ));
        n
    }
}

/// Whether the host is read from for an event: it is readable, neither side holds reading up,
/// less is in flight than may be, and the machine's window is not closed.
pub open spec fn is_read_from(v: SimpleView, is_readable: bool) -> bool {
    &&& is_readable && v.host_can_read && v.vm_can_read
    &&& bytes_under_way(v) < v.max_inflight_bytes as int % 0x1_0000_0000
    &&& v.vm_window_size > 0
}

/// While data flows a host that may be read from is read once, up to 16384 bytes. What it hands
/// out is queued for the machine in packets of 1460 bytes, the last one shorter, gapless and in
/// order, for as long as it may be; where that stops, one of the two sides holds reading up. A
/// host that is at its end or failed ends the connection, which is then removed. What the host
/// took waits for it no longer, and a host that has taken all may be read from.
#[verifier::rlimit(60)]
pub proof fn event_moves_data(
    key: NatKey,
    v: SimpleView,
    is_readable: bool,
    is_writable: bool,
    io: HostIo,
    proxy_mac: MacAddr,
    vm_mac: MacAddr,
    now: Instant,
) -> (n: nat)
    requires
        v.state == SimpleConnectionState::Established,
        reads_fit(StateView::Simple(v), is_readable, io),
        io.written <= flat(v.to_host_buffer).len(),
    ensures
        ({
            let (next, action) = event_step(
                key,
                StateView::Simple(v),
                is_readable,
                is_writable,
                io,
                proxy_mac,
                vm_mac,
                now,
            );
            let reads = is_read_from(v, is_readable);
            let ends = reads && (io.eof || io.failed);
            let q = pieces(key, v.last_host_seq, v.last_vm_seq, io.data, n, proxy_mac, vm_mac, 0);
            let done = covered_by(n, io.data.len());
            let took = is_writable && v.to_host_buffer.len() > 0;
            &&& next matches StateView::Simple(w)
            &&& reads ==> {
                &&& io.reads.len() == 1
                &&& io.reads[0] matches HostCall::Read { max, got }
                &&& max == 16384
                &&& got matches ReadView::Data(d) ==> io.data == d
            }
            &&& !reads ==> io.reads.len() == 0 && io.data.len() == 0
            &&& io.eof <==> reads && ended(io.reads[0])
            &&& io.failed <==> reads && broke(io.reads[0])
            &&& 1460 * n < io.data.len() + 1460
            &&& w.to_vm_buffer == v.to_vm_buffer + frames_of(q)
            &&& w.last_host_seq == number_at(v.last_host_seq, done)
            &&& done < io.data.len() ==> !may_queue(w, next_len(io.data.len() - done))
            &&& n > 0 ==> w.to_vm_buffer.len() <= 128
            &&& ends ==> {
                &&& w.state == SimpleConnectionState::Closed
                &&& w.is_closed
                &&& steps(action).len() == 2
                &&& steps(action)[0] == Step::ScheduleRemoval
            }
            &&& !ends ==> {
                &&& w.state == SimpleConnectionState::Established
                &&& w.is_closed == v.is_closed
                &&& steps(action).len() == 1
            }
            &&& flat(w.to_host_buffer) == if took {
                flat(v.to_host_buffer).skip(io.written as int)
            } else {
                flat(v.to_host_buffer)
            }
            &&& took && w.to_host_buffer.len() == 0 ==> w.host_can_read
            &&& w.last_vm_seq == v.last_vm_seq
            &&& w.vm_acked_seq == v.vm_acked_seq
            &&& w.vm_window_size == v.vm_window_size
        }),
{
    assert(v.last_host_seq.wrapping_sub(v.vm_acked_seq) as int == bytes_under_way(v));
    assert(low32(v.max_inflight_bytes as nat) as int == v.max_inflight_bytes as int
        % 0x1_0000_0000);
    assert(simple_will_read(v, is_readable) == is_read_from(v, is_readable));
    let reads = is_read_from(v, is_readable);
    flat_drop_bytes(v.to_host_buffer, io.written);
    let none = pieces(key, v.last_host_seq, v.last_vm_seq, io.data, 0, proxy_mac, vm_mac, 0);
    assert(v.to_vm_buffer + frames_of(none) =~= v.to_vm_buffer);
    assert(number_at(v.last_host_seq, 0) == v.last_host_seq);
    if reads && !io.eof && !io.failed {
        pieces_are_queued(key, v, io.data, proxy_mac, vm_mac)
    } else {
        0
    }
}

/// What the stream is watched for once an event is over: for reading while neither side holds
/// that up and the machine's window is not closed, for writing while something waits in either
/// direction, and for nothing where neither holds.
#[verifier::rlimit(60)]
pub proof fn event_sets_interest(
    key: NatKey,
    v: SimpleView,
    is_readable: bool,
    is_writable: bool,
    io: HostIo,
    proxy_mac: MacAddr,
    vm_mac: MacAddr,
    now: Instant,
)
    requires
        v.state != SimpleConnectionState::Connecting,
    ensures
        ({
            let (next, action) = event_step(
                key,
                StateView::Simple(v),
                is_readable,
                is_writable,
                io,
                proxy_mac,
                vm_mac,
                now,
            );
            &&& next matches StateView::Simple(w)
            &&& {
                let reads = w.host_can_read && w.vm_can_read && w.vm_window_size > 0;
                let writes = w.to_host_buffer.len() > 0 || w.to_vm_buffer.len() > 0;
                &&& steps(action).len() > 0
                &&& steps(action).last() == if reads && writes {
                    Step::Reregister(Interest::Both)
                } else if reads {
                    Step::Reregister(Interest::Readable)
                } else if writes {
                    Step::Reregister(Interest::Writable)
                } else {
                    Step::Deregister
                }
            }
        }),
{
}

/// Taking a packet off the queue takes the first, and has the machine's side go on once fewer
/// than 64 are left.
pub proof fn taken_packet_leaves_the_queue(v: SimpleView, now: Instant)
    requires
        v.to_vm_buffer.len() > 0,
    ensures
        popped(StateView::Simple(v), now) matches StateView::Simple(w) && {
            &&& w.to_vm_buffer == v.to_vm_buffer.subrange(1, v.to_vm_buffer.len() as int)
            &&& w.vm_can_read <==> v.vm_can_read || w.to_vm_buffer.len() < 64
            &&& w == SimpleView {
                to_vm_buffer: w.to_vm_buffer,
                vm_can_read: w.vm_can_read,
                ..v
            }
        },
{
}

} // verus!
