//! What holds of a simple connection over more than one step.
use vstd::prelude::*;

use crate::addr::{MacAddr, NatKey};
use crate::buffer::{drop_bytes, flat, flat_drop_bytes, flat_push};
use crate::host::{sent, write_run_sends, WriteEnd};
use crate::seqnum::{lengths_add_up, low32};
use crate::simple_tcp::{
    in_flight, simple_event, simple_packet, simple_popped, simple_queue, simple_will_read,
    SimpleConnectionState, SimpleView, SIMPLE_BUFFER_SIZE,
};
use crate::tcp_fsm::model::{
    first_chunk, to_vm, write_twice, writes_fit, ActionView, HostIo, InFlight, SegmentView,
    StateView, Step,
};
use crate::tcp_laws::{carries, cut, frames, number_at, Stream};
use crate::wire::{ACK, FIN, PSH_ACK, RST};

verus! {

// --- From the machine to the host ---

/// What the host has been given and what still waits for it are, together, the first `n` bytes
/// of the stream.
pub open spec fn in_order(m: Stream, v: SimpleView, given: Seq<u8>, n: int) -> bool {
    &&& 0 <= n <= m.data.len()
    &&& given + flat(v.to_host_buffer) == m.data.take(n)
}

/// Every packet with data that comes while data flows is taken whole, behind what waits; and
/// nothing else of a packet reaches the host.
pub proof fn payload_is_taken(
    key: NatKey,
    v: SimpleView,
    t: SegmentView,
    proxy_mac: MacAddr,
    vm_mac: MacAddr,
)
    ensures
        flat(simple_packet(key, v, t, proxy_mac, vm_mac).0.to_host_buffer) == flat(
            v.to_host_buffer,
        ) + (if v.state == SimpleConnectionState::Established && t.flags & FIN == 0 && t.flags
            & RST == 0 {
            t.payload
        } else {
            Seq::empty()
        }),
{
    flat_push(v.to_host_buffer, t.payload);
    if t.payload.len() == 0 {
        assert(flat(v.to_host_buffer) + t.payload =~= flat(v.to_host_buffer));
    }
    assert(flat(v.to_host_buffer) + Seq::<u8>::empty() =~= flat(v.to_host_buffer));
}

/// A machine that sends its stream in turn has it given to the host in order, and each packet
/// with data is answered by an acknowledgement of all the bytes up to its end.
pub proof fn packet_keeps_order(
    key: NatKey,
    m: Stream,
    v: SimpleView,
    given: Seq<u8>,
    n: int,
    t: SegmentView,
    proxy_mac: MacAddr,
    vm_mac: MacAddr,
)
    requires
        in_order(m, v, given, n),
        v.state == SimpleConnectionState::Established,
        t.flags & FIN == 0,
        t.flags & RST == 0,
        t.sequence == number_at(m.start, n),
        carries(m, n, t.payload),
    ensures
        ({
            let (w, action) = simple_packet(key, v, t, proxy_mac, vm_mac);
            let end = number_at(m.start, n + t.payload.len());
            &&& in_order(m, w, given, n + t.payload.len())
            &&& t.payload.len() > 0 ==> {
                &&& w.last_vm_seq == end
                &&& action == ActionView::One(
                    Step::Send(
                        to_vm(key, w.last_host_seq, end, Seq::empty(), ACK, proxy_mac, vm_mac),
                    ),
                )
            }
        }),
{
    let (w, _) = simple_packet(key, v, t, proxy_mac, vm_mac);
    payload_is_taken(key, v, t, proxy_mac, vm_mac);
    assert(given + (flat(v.to_host_buffer) + t.payload) =~= (given + flat(v.to_host_buffer))
        + t.payload);
    assert(m.data.take(n) + t.payload =~= m.data.take(n + t.payload.len()));
    assert(t.sequence.wrapping_add(low32(t.payload.len())) == number_at(
        m.start,
        n + t.payload.len(),
    ));
}

/// Writing in two goes sends the start of what waits.
proof fn write_twice_sends(q: Seq<Seq<u8>>, io: HostIo, first: int, end: WriteEnd, last: WriteEnd)
    requires
        write_twice(q, io, first, end, last),
    ensures
        0 <= io.written <= flat(q).len(),
        sent(io.writes) + sent(io.again) == flat(q).take(io.written as int),
{
    write_run_sends(q, io.writes, first, end);
    let rest = drop_bytes(q, first as nat);
    if (io.eof || io.failed) && rest.len() > 0 {
        write_run_sends(rest, io.again, io.written - first, last);
        flat_drop_bytes(q, first as nat);
        assert(sent(io.writes) + sent(io.again) =~= flat(q).take(io.written as int));
    } else {
        assert(sent(io.again) =~= Seq::<u8>::empty());
        assert(sent(io.writes) + sent(io.again) =~= sent(io.writes));
    }
}

/// A readiness event of the host keeps the order: what the host takes is what is next, and
/// nothing that waits is lost, even once the connection is over.
pub proof fn event_keeps_order(
    key: NatKey,
    m: Stream,
    v: SimpleView,
    given: Seq<u8>,
    n: int,
    is_readable: bool,
    is_writable: bool,
    io: HostIo,
    proxy_mac: MacAddr,
    vm_mac: MacAddr,
)
    requires
        in_order(m, v, given, n),
        writes_fit(StateView::Simple(v), is_readable, is_writable, io),
    ensures
        in_order(
            m,
            simple_event(key, v, is_readable, is_writable, io, proxy_mac, vm_mac).0,
            given + sent(io.writes) + sent(io.again),
            n,
        ),
{
    let q = v.to_host_buffer;
    let w = simple_event(key, v, is_readable, is_writable, io, proxy_mac, vm_mac).0;
    queue_keeps_rest(key, v, io.data, proxy_mac, vm_mac);
    let g = given + sent(io.writes) + sent(io.again);
    if v.state != SimpleConnectionState::Connecting && is_writable && q.len() > 0 {
        let (first, end, last) = choose|first: int, end: WriteEnd, last: WriteEnd| #[trigger]
            write_twice(q, io, first, end, last);
        write_twice_sends(q, io, first, end, last);
        flat_drop_bytes(q, io.written);
        assert(w.to_host_buffer == drop_bytes(q, io.written));
        assert(g + flat(q).skip(io.written as int) =~= given + flat(q)) by {
            assert(flat(q).take(io.written as int) + flat(q).skip(io.written as int) =~= flat(q));
            assert(g =~= given + flat(q).take(io.written as int));
        }
    } else {
        assert(g =~= given);
        assert(w.to_host_buffer == q);
    }
}

// --- From the host to the machine ---

/// Queueing data for the machine leaves alone what waits for the host.
proof fn queue_keeps_rest(
    key: NatKey,
    v: SimpleView,
    data: Seq<u8>,
    proxy_mac: MacAddr,
    vm_mac: MacAddr,
)
    ensures
        simple_queue(key, v, data, proxy_mac, vm_mac).to_host_buffer == v.to_host_buffer,
    decreases data.len(),
{
    let chunk = first_chunk(data);
    let end = v.last_host_seq.wrapping_add(chunk.len() as u32);
    let packet = to_vm(key, v.last_host_seq, v.last_vm_seq, chunk, PSH_ACK, proxy_mac, vm_mac);
    if data.len() > 0 {
        queue_keeps_rest(
            key,
            SimpleView { to_vm_buffer: v.to_vm_buffer.push(packet), last_host_seq: end, ..v },
            data.skip(chunk.len() as int),
            proxy_mac,
            vm_mac,
        );
    }
}

/// Data from the host goes to the machine in order and without gaps: the first `r` bytes of it
/// are cut into packets, which are queued behind those that wait. Only where a limit is reached
/// is something left, and then reading stops. What is in flight stays within both windows, and
/// the queue within its limit.
pub proof fn data_is_queued_in_order(
    key: NatKey,
    v: SimpleView,
    data: Seq<u8>,
    proxy_mac: MacAddr,
    vm_mac: MacAddr,
) -> (r: int)
    ensures
        0 <= r <= data.len(),
        ({
            let w = simple_queue(key, v, data, proxy_mac, vm_mac);
            let new = cut(
                key,
                v.last_host_seq,
                v.last_vm_seq,
                data.take(r),
                proxy_mac,
                vm_mac,
                0,
            );
            &&& w.to_vm_buffer == v.to_vm_buffer + frames(new)
            &&& w.last_host_seq == v.last_host_seq.wrapping_add(low32(r as nat))
            &&& r < data.len() ==> !w.vm_can_read || !w.host_can_read
            &&& r == data.len() ==> w.vm_can_read == v.vm_can_read && w.host_can_read
                == v.host_can_read
            &&& r > 0 ==> in_flight(w) <= low32(v.max_inflight_bytes as nat) && in_flight(w)
                <= v.vm_window_size
            &&& w.to_vm_buffer.len() <= SIMPLE_BUFFER_SIZE || w.to_vm_buffer == v.to_vm_buffer
            &&& w.vm_acked_seq == v.vm_acked_seq
        }),
    decreases data.len(),
{
    let w = simple_queue(key, v, data, proxy_mac, vm_mac);
    let chunk = first_chunk(data);
    let end = v.last_host_seq.wrapping_add(chunk.len() as u32);
    let future = end.wrapping_sub(v.vm_acked_seq);
    if data.len() == 0 || v.to_vm_buffer.len() >= SIMPLE_BUFFER_SIZE || future > low32(
        v.max_inflight_bytes as nat,
    ) || future > v.vm_window_size {
        let none = cut(
            key,
            v.last_host_seq,
            v.last_vm_seq,
            data.take(0),
            proxy_mac,
            vm_mac,
            0,
        );
        assert(none =~= Seq::<InFlight>::empty());
        assert(w.to_vm_buffer =~= v.to_vm_buffer + frames(none));
        0
    } else {
        let packet = to_vm(key, v.last_host_seq, v.last_vm_seq, chunk, PSH_ACK, proxy_mac, vm_mac);
        let next = SimpleView {
            to_vm_buffer: v.to_vm_buffer.push(packet),
            last_host_seq: end,
            ..v
        };
        let rest = data.skip(chunk.len() as int);
        let k = data_is_queued_in_order(key, next, rest, proxy_mac, vm_mac);
        let r = k + chunk.len();
        let part = data.take(r);
        assert(first_chunk(part) =~= chunk);
        assert(part.skip(chunk.len() as int) =~= rest.take(k));
        let tail = cut(key, end, v.last_vm_seq, rest.take(k), proxy_mac, vm_mac, 0);
        let all = cut(key, v.last_host_seq, v.last_vm_seq, part, proxy_mac, vm_mac, 0);
        assert(w.to_vm_buffer =~= v.to_vm_buffer + frames(all));
        lengths_add_up(v.last_host_seq, chunk.len(), k as nat);
        assert(low32(chunk.len()) == chunk.len() as u32);
        r
    }
}

/// A machine that cannot take data is not read for: while its window is closed, or too much is
/// in flight, a readiness event reads nothing from the host.
pub proof fn closed_window_is_not_read_for(v: SimpleView, is_readable: bool)
    ensures
        v.vm_window_size == 0 ==> !simple_will_read(v, is_readable),
        !v.vm_can_read || !v.host_can_read ==> !simple_will_read(v, is_readable),
        in_flight(v) >= low32(v.max_inflight_bytes as nat) ==> !simple_will_read(v, is_readable),
{
}

/// Once the queue for the machine has been emptied to less than half, reading for it resumes.
pub proof fn short_queue_resumes(v: SimpleView)
    requires
        0 < v.to_vm_buffer.len() <= SIMPLE_BUFFER_SIZE / 2,
    ensures
        simple_popped(v).vm_can_read,
        simple_popped(v).to_vm_buffer == v.to_vm_buffer.skip(1),
{
}

/// A connection that is over stays over: no packet and no event opens it again.
pub proof fn over_is_over(
    key: NatKey,
    v: SimpleView,
    t: SegmentView,
    is_readable: bool,
    is_writable: bool,
    io: HostIo,
    proxy_mac: MacAddr,
    vm_mac: MacAddr,
)
    requires
        v.state == SimpleConnectionState::Closed,
    ensures
        simple_packet(key, v, t, proxy_mac, vm_mac).0.state == SimpleConnectionState::Closed,
        simple_event(key, v, is_readable, is_writable, io, proxy_mac, vm_mac).0.state
            == SimpleConnectionState::Closed,
{
}

} // verus!
