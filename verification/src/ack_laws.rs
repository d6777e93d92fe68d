//! What acknowledgements from the machine, and their absence, do to a connection.
use vstd::prelude::*;

use crate::addr::{Instant, Interest, MacAddr, NatKey};
use crate::packet_utils::same_family;
use crate::reading_laws::to_vm_says;
use crate::seqnum::{ahead, low32};
use crate::tcp_fsm::invariants::{first_at_bounds, join_kept_frame};
use crate::tcp_fsm::model::{
    acknowledged, established_packet, first_at, has_reregister, packet_step, popped, queued,
    retransmitted, take_ack, take_data, to_vm, unacknowledged, wanted, EstablishedView, InFlight,
    SegmentView, StateView,
};
use crate::tcp_laws::{ack_takes_off_what_it_covers, steps, wanted_starts_there};

verus! {

/// Whether two packets in flight are the same but for when they were sent.
pub open spec fn same_packet(a: InFlight, b: InFlight) -> bool {
    a.seq == b.seq && a.packet == b.packet && a.len == b.len
}

/// The oldest packet in flight is sent again as soon as it has waited for longer than `rto`,
/// and not before: it is queued ahead of all others and waits anew from now on. Nothing else
/// changes.
pub proof fn oldest_packet_is_sent_again(st: StateView, rto: u64, now: Instant)
    ensures
        st matches StateView::Established(v) ==> {
            let late = v.in_flight.len() > 0 && now - v.in_flight[0].sent_at > rto;
            &&& late ==> {
                &&& retransmitted(st, rto, now) matches StateView::Established(w)
                &&& w.to_vm_buffer == seq![v.in_flight[0].packet] + v.to_vm_buffer
                &&& w.in_flight.len() == v.in_flight.len()
                &&& w.in_flight[0].sent_at == now
                &&& same_packet(w.in_flight[0], v.in_flight[0])
                &&& w.in_flight.skip(1) == v.in_flight.skip(1)
                &&& w == EstablishedView {
                    to_vm_buffer: w.to_vm_buffer,
                    in_flight: w.in_flight,
                    ..v
                }
            }
            &&& !late ==> retransmitted(st, rto, now) == st
        },
        !(st is Established) ==> retransmitted(st, rto, now) == st,
{
    if let StateView::Established(v) = st {
        if v.in_flight.len() > 0 && now - v.in_flight[0].sent_at > rto {
            let w = retransmitted(st, rto, now)->Established_0;
            assert(w.in_flight.skip(1) =~= v.in_flight.skip(1));
        }
    }
}

/// A packet that the machine takes off the queue leaves it, and no other does. Where the packet
/// is in flight, the clock that has it sent again starts there and then.
pub proof fn taken_packet_starts_its_clock(
    key: NatKey,
    v: EstablishedView,
    i: int,
    acknowledgement: u32,
    payload: Seq<u8>,
    flags: u8,
    proxy_mac: MacAddr,
    vm_mac: MacAddr,
    now: Instant,
)
    requires
        same_family(key),
        payload.len() <= 0xffff - 40,
        0 <= i < v.in_flight.len(),
        forall|j: int| 0 <= j < i ==> (#[trigger] v.in_flight[j]).seq != v.in_flight[i].seq,
        v.to_vm_buffer.len() > 0,
        v.to_vm_buffer[0] == to_vm(
            key,
            v.in_flight[i].seq,
            acknowledgement,
            payload,
            flags,
            proxy_mac,
            vm_mac,
        ),
    ensures
        ({
            &&& popped(StateView::Established(v), now) matches StateView::Established(w)
            &&& w.to_vm_buffer == v.to_vm_buffer.subrange(1, v.to_vm_buffer.len() as int)
            &&& w.in_flight.len() == v.in_flight.len()
            &&& w.in_flight[i].sent_at == now
            &&& same_packet(w.in_flight[i], v.in_flight[i])
            &&& forall|j: int|
                0 <= j < v.in_flight.len() && j != i ==> #[trigger] w.in_flight[j] == v.in_flight[j]
            &&& w.tx_seq == v.tx_seq
            &&& w.rx_seq == v.rx_seq
        }),
{
    to_vm_says(key, v.in_flight[i].seq, acknowledgement, payload, flags, proxy_mac, vm_mac);
    first_is_found(v.in_flight, v.in_flight[i].seq, 0, i);
}

/// Looking from `j` on finds the first packet that starts at `seq`.
proof fn first_is_found(q: Seq<InFlight>, seq: u32, j: int, i: int)
    requires
        0 <= j <= i < q.len(),
        q[i].seq == seq,
        forall|k: int| 0 <= k < i ==> (#[trigger] q[k]).seq != seq,
    ensures
        first_at(q, seq, j) == i,
    decreases i - j,
{
    if j < i {
        first_is_found(q, seq, j + 1, i);
    }
}

/// What waits for the machine is what the connection has queued, while data flows on it.
/// Whatever waits, taking one packet takes the first and leaves the others in their order.
pub proof fn packets_are_taken_in_order(st: StateView, now: Instant)
    ensures
        queued(st) == match st {
            StateView::Established(v) => v.to_vm_buffer,
            StateView::Simple(v) => v.to_vm_buffer,
            _ => Seq::empty(),
        },
        queued(st).len() > 0 ==> queued(popped(st, now)) == queued(st).subrange(
            1,
            queued(st).len() as int,
        ),
{
}

/// Whether one number is further on than another, by less than half of all numbers.
pub open spec fn is_newer(a: u32, b: u32) -> bool {
    a != b && (a - b) % 0x1_0000_0000 < 0x8000_0000
}

/// Whether an acknowledgement covers every number that a packet in flight uses.
pub open spec fn is_covered(p: InFlight, ack: u32) -> bool {
    (ack - (p.seq + p.len)) % 0x1_0000_0000 < 0x8000_0000
}

proof fn covered_is_acknowledged(p: InFlight, ack: u32)
    ensures
        acknowledged(p, ack) == is_covered(p, ack),
{
    let end = p.seq.wrapping_add(p.len);
    assert(end as int == (p.seq + p.len) % 0x1_0000_0000);
    assert(ack.wrapping_sub(end) as int == (ack - end) % 0x1_0000_0000);
    assert((ack - (p.seq + p.len)) % 0x1_0000_0000 == (ack - end) % 0x1_0000_0000) by {
        let over = (p.seq + p.len) - end;
        assert(over == 0 || over == 0x1_0000_0000);
    }
}

proof fn newer_is_ahead(a: u32, b: u32)
    ensures
        ahead(a, b) == is_newer(a, b),
{
    assert(a.wrapping_sub(b) as int == (a - b) % 0x1_0000_0000);
}

/// What a packet without FIN or RST leaves of what its acknowledgement did.
#[verifier::rlimit(60)]
proof fn packet_keeps_acked(
    key: NatKey,
    v: EstablishedView,
    t: SegmentView,
    proxy_mac: MacAddr,
    vm_mac: MacAddr,
    now: Instant,
)
    requires
        v.rx_buf.dom().finite(),
        t.flags & 0x04 == 0,
        t.flags & 0x01 == 0,
    ensures
        ({
            let a = take_ack(v, t, now).0;
            &&& established_packet(key, v, t, proxy_mac, vm_mac, now).0 matches StateView::Established(
                w,
            )
            &&& w.in_flight == a.in_flight
            &&& w.to_vm_buffer == a.to_vm_buffer
            &&& w.highest_ack_from_vm == a.highest_ack_from_vm
            &&& w.dup_ack_count == a.dup_ack_count
            &&& w.host_reads_paused == a.host_reads_paused
            &&& w.last_fast_retransmit_seq == a.last_fast_retransmit_seq
            &&& w.vm_window_size == a.vm_window_size
            &&& w.vm_window_scale == a.vm_window_scale
            &&& w.tx_seq == a.tx_seq
        }),
{
    let a = take_ack(v, t, now).0;
    join_kept_frame(
        EstablishedView {
            rx_seq: t.sequence.wrapping_add(low32(t.payload.len())),
            write_buffer: a.write_buffer.push(t.payload),
            write_buffer_size: (a.write_buffer_size + t.payload.len()) as usize,
            ..a
        },
    );
}

/// An acknowledgement that is newer than all before it takes exactly the packets that it covers
/// out of flight, sets the window to the one in the packet, and has nothing sent again. Any
/// other leaves the packets in flight and the window alone.
#[verifier::rlimit(60)]
pub proof fn new_acknowledgement_frees_what_it_covers(
    key: NatKey,
    v: EstablishedView,
    t: SegmentView,
    proxy_mac: MacAddr,
    vm_mac: MacAddr,
    now: Instant,
)
    requires
        v.rx_buf.dom().finite(),
        t.flags & 0x04 == 0,
        t.flags & 0x01 == 0,
    ensures
        ({
            let newer = t.flags & 0x10 != 0 && is_newer(t.acknowledgement, v.highest_ack_from_vm);
            &&& packet_step(key, StateView::Established(v), t, proxy_mac, vm_mac, now).0 matches StateView::Established(
                w,
            )
            &&& newer ==> {
                &&& w.highest_ack_from_vm == t.acknowledgement
                &&& w.vm_window_size == t.window
                &&& w.dup_ack_count == 0
                &&& w.to_vm_buffer == v.to_vm_buffer
                &&& forall|p: InFlight| #[trigger]
                    w.in_flight.contains(p) <==> v.in_flight.contains(p) && !is_covered(
                        p,
                        t.acknowledgement,
                    )
            }
            &&& !newer ==> {
                &&& w.highest_ack_from_vm == v.highest_ack_from_vm
                &&& w.vm_window_size == v.vm_window_size
                &&& w.in_flight.len() == v.in_flight.len()
                &&& forall|i: int|
                    0 <= i < v.in_flight.len() ==> same_packet(
                        #[trigger] w.in_flight[i],
                        v.in_flight[i],
                    )
            }
            &&& w.vm_window_scale == v.vm_window_scale
            &&& w.tx_seq == v.tx_seq
        }),
{
    packet_keeps_acked(key, v, t, proxy_mac, vm_mac, now);
    newer_is_ahead(t.acknowledgement, v.highest_ack_from_vm);
    let w = established_packet(key, v, t, proxy_mac, vm_mac, now).0->Established_0;
    if t.flags & 0x10 != 0 && is_newer(t.acknowledgement, v.highest_ack_from_vm) {
        ack_takes_off_what_it_covers(v.in_flight, t.acknowledgement);
        assert forall|p: InFlight| #[trigger]
            w.in_flight.contains(p) <==> v.in_flight.contains(p) && !is_covered(
                p,
                t.acknowledgement,
            ) by {
            covered_is_acknowledged(p, t.acknowledgement);
            assert(unacknowledged(v.in_flight, t.acknowledgement).contains(p) <==> w.in_flight.contains(
                p,
            ));
        }
    } else {
        first_at_bounds(v.in_flight, t.acknowledgement, 0);
    }
}

/// A packet that acknowledges nothing new, and is no bare repeat of the highest acknowledgement,
/// changes nothing of what is under way to the machine.
#[verifier::rlimit(60)]
pub proof fn other_packets_leave_sending_alone(
    key: NatKey,
    v: EstablishedView,
    t: SegmentView,
    proxy_mac: MacAddr,
    vm_mac: MacAddr,
    now: Instant,
)
    requires
        v.rx_buf.dom().finite(),
        t.flags & 0x04 == 0,
        t.flags & 0x01 == 0,
        t.flags & 0x10 == 0 || !is_newer(t.acknowledgement, v.highest_ack_from_vm),
        t.flags & 0x10 == 0 || t.payload.len() > 0 || t.acknowledgement != v.highest_ack_from_vm,
    ensures
        packet_step(key, StateView::Established(v), t, proxy_mac, vm_mac, now).0 matches StateView::Established(
            w,
        ) && {
            &&& w.in_flight == v.in_flight
            &&& w.to_vm_buffer == v.to_vm_buffer
            &&& w.tx_seq == v.tx_seq
            &&& w.highest_ack_from_vm == v.highest_ack_from_vm
            &&& w.dup_ack_count == v.dup_ack_count
            &&& w.last_fast_retransmit_seq == v.last_fast_retransmit_seq
            &&& w.vm_window_size == v.vm_window_size
            &&& w.host_reads_paused == v.host_reads_paused
        },
{
    packet_keeps_acked(key, v, t, proxy_mac, vm_mac, now);
    newer_is_ahead(t.acknowledgement, v.highest_ack_from_vm);
}

/// Reading from the host, once paused for the machine's sake, goes on with the first newer
/// acknowledgement that leaves fewer than 64 packets in flight while fewer than 16 are queued,
/// and the stream is registered anew. A newer acknowledgement never pauses it.
#[verifier::rlimit(60)]
pub proof fn acknowledgement_resumes_reading(
    key: NatKey,
    v: EstablishedView,
    t: SegmentView,
    proxy_mac: MacAddr,
    vm_mac: MacAddr,
    now: Instant,
)
    requires
        v.rx_buf.dom().finite(),
        t.flags & 0x04 == 0,
        t.flags & 0x01 == 0,
        t.flags & 0x10 != 0,
        is_newer(t.acknowledgement, v.highest_ack_from_vm),
    ensures
        ({
            let (next, action) = packet_step(
                key,
                StateView::Established(v),
                t,
                proxy_mac,
                vm_mac,
                now,
            );
            &&& next matches StateView::Established(w)
            &&& w.host_reads_paused <==> v.host_reads_paused && !(v.to_vm_buffer.len() < 16
                && w.in_flight.len() < 64)
            &&& v.host_reads_paused && !w.host_reads_paused ==> has_reregister(steps(action))
        }),
{
    packet_keeps_acked(key, v, t, proxy_mac, vm_mac, now);
    newer_is_ahead(t.acknowledgement, v.highest_ack_from_vm);
    let (acked, ack_steps) = take_ack(v, t, now);
    let (fed, data_steps) = take_data(key, acked, t, proxy_mac, vm_mac);
    if v.host_reads_paused && !acked.host_reads_paused {
        assert((ack_steps + data_steps)[0] is Reregister);
    }
}

/// The third bare repeat of the highest acknowledgement has one packet sent again, ahead of all
/// others: the first that starts at the acknowledged number, or the oldest where none does. That
/// packet's clock starts anew. The first two repeats have nothing sent, and neither has a repeat
/// of a number for which a packet was sent again already. A repeat has reading from the host
/// resumed only where it is paused although the stream is watched for reading alone, and few
/// enough packets are queued and in flight.
#[verifier::rlimit(60)]
pub proof fn third_repeat_sends_again(
    key: NatKey,
    v: EstablishedView,
    t: SegmentView,
    proxy_mac: MacAddr,
    vm_mac: MacAddr,
    now: Instant,
)
    requires
        v.rx_buf.dom().finite(),
        v.dup_ack_count < 0xffff,
        t.flags & 0x04 == 0,
        t.flags & 0x01 == 0,
        t.flags & 0x10 != 0,
        t.payload.len() == 0,
        t.acknowledgement == v.highest_ack_from_vm,
    ensures
        ({
            let ack = t.acknowledgement;
            let again = v.dup_ack_count >= 2 && v.last_fast_retransmit_seq != Some(ack)
                && v.in_flight.len() > 0;
            &&& packet_step(key, StateView::Established(v), t, proxy_mac, vm_mac, now).0 matches StateView::Established(
                w,
            )
            &&& again ==> {
                &&& w.dup_ack_count == 0
                &&& w.last_fast_retransmit_seq == Some(ack)
                &&& exists|i: int|
                    {
                        &&& 0 <= i < v.in_flight.len()
                        &&& w.to_vm_buffer == seq![(#[trigger] v.in_flight[i]).packet]
                            + v.to_vm_buffer
                        &&& w.in_flight[i].sent_at == now
                        &&& forall|j: int|
                            0 <= j < v.in_flight.len() && j != i ==> #[trigger] w.in_flight[j]
                                == v.in_flight[j]
                        &&& v.in_flight[i].seq == ack || (i == 0 && forall|j: int|
                            0 <= j < v.in_flight.len() ==> (#[trigger] v.in_flight[j]).seq != ack)
                    }
            }
            &&& !again ==> {
                &&& w.dup_ack_count == v.dup_ack_count + 1
                &&& w.last_fast_retransmit_seq == v.last_fast_retransmit_seq
                &&& w.to_vm_buffer == v.to_vm_buffer
                &&& w.in_flight == v.in_flight
            }
            &&& w.host_reads_paused <==> v.host_reads_paused && !(v.current_interest
                == Interest::Readable && w.to_vm_buffer.len() < 16 && w.in_flight.len() < 64)
            &&& v.host_reads_paused && !w.host_reads_paused ==> w.current_interest
                == Interest::Both
        }),
{
    packet_keeps_acked(key, v, t, proxy_mac, vm_mac, now);
    let ack = t.acknowledgement;
    let w = established_packet(key, v, t, proxy_mac, vm_mac, now).0->Established_0;
    if v.dup_ack_count >= 2 && v.last_fast_retransmit_seq != Some(ack) && v.in_flight.len() > 0 {
        let i = wanted(v.in_flight, ack);
        first_at_bounds(v.in_flight, ack, 0);
        if v.in_flight[i].seq != ack {
            assert forall|j: int| 0 <= j < v.in_flight.len() implies (#[trigger] v.in_flight[j]).seq
                != ack by {
                if v.in_flight[j].seq == ack {
                    wanted_starts_there(v.in_flight, ack, j);
                }
            }
        }
        assert(w.to_vm_buffer == seq![v.in_flight[i].packet] + v.to_vm_buffer);
        assert(w.in_flight[i].sent_at == now);
    }
    let (acked, ack_steps) = take_ack(v, t, now);
    if v.host_reads_paused && !acked.host_reads_paused {
        let (fed, data_steps) = take_data(key, acked, t, proxy_mac, vm_mac);
        assert((ack_steps + data_steps)[0] is Reregister);
    }
}

} // verus!
