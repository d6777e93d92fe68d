//! What every step of a connection keeps.
use vstd::prelude::*;

use crate::addr::{flipped, Instant, MacAddr, NatKey};
use crate::packet_utils::{ipv4_summed, same_family, tcp_frame, tcp_frame_window, tcp_summed};
use crate::tcp_fsm::model::{
    acknowledged, after_io, established_popped, event_step, first_at, first_chunk, frame_sequence,
    framed, join_kept, overdue, packet_step, popped, probe_window, queue_chunk, queue_data,
    queue_full, refresh_interest, resend, retransmitted, state_wf, take_ack, take_data,
    unacknowledged, wanted, ActionView, EstablishedView, HostIo, InFlight, SegmentView, StateView,
    Step,
};

verus! {

/// A frame between addresses of one family has all its headers.
pub proof fn tcp_frame_has_headers(
    key: NatKey,
    sequence: u32,
    acknowledgement: u32,
    payload: Seq<u8>,
    flags: u8,
    src_mac: MacAddr,
    dst_mac: MacAddr,
)
    requires
        same_family(key),
    ensures
        tcp_frame(key, sequence, acknowledgement, payload, flags, src_mac, dst_mac).len() >= 54
            + payload.len(),
{
    reveal(tcp_frame_window);
    reveal(ipv4_summed);
    reveal(tcp_summed);
}

/// Joining what was kept touches nothing that is sent to the machine.
pub proof fn join_kept_frame(v: EstablishedView)
    requires
        v.rx_buf.dom().finite(),
    ensures
        ({
            let w = join_kept(v);
            &&& w.to_vm_buffer == v.to_vm_buffer
            &&& w.in_flight == v.in_flight
            &&& w.tx_seq == v.tx_seq
            &&& w.host_reads_paused == v.host_reads_paused
            &&& w.vm_reads_paused == v.vm_reads_paused
            &&& w.current_interest == v.current_interest
            &&& w.highest_ack_from_vm == v.highest_ack_from_vm
            &&& w.dup_ack_count == v.dup_ack_count
            &&& w.last_fast_retransmit_seq == v.last_fast_retransmit_seq
            &&& w.vm_window_size == v.vm_window_size
            &&& w.vm_window_scale == v.vm_window_scale
            &&& w.last_zero_window_probe == v.last_zero_window_probe
            &&& w.last_activity == v.last_activity
            &&& w.write_buffer.len() >= v.write_buffer.len()
        }),
    decreases v.rx_buf.dom().len(),
{
    if v.rx_buf.dom().contains(v.rx_seq) {
        let data = v.rx_buf[v.rx_seq];
        let next = EstablishedView {
            rx_buf: v.rx_buf.remove(v.rx_seq),
            rx_seq: v.rx_seq.wrapping_add(crate::seqnum::low32(data.len())),
            write_buffer: v.write_buffer.push(data),
            write_buffer_size: (v.write_buffer_size + data.len()) as usize,
            ..v
        };
        assert(next.rx_buf.dom() =~= v.rx_buf.dom().remove(v.rx_seq));
        join_kept_frame(next);
    }
}

/// Whether all the frames of an established connection have at least an Ethernet header.
pub open spec fn frames_ok(v: EstablishedView) -> bool {
    framed(StateView::Established(v))
}

proof fn take_ack_framed(v: EstablishedView, t: SegmentView, now: Instant)
    requires
        frames_ok(v),
    ensures
        frames_ok(take_ack(v, t, now).0),
        take_ack(v, t, now).0.rx_buf == v.rx_buf,
{
    let ack = t.acknowledgement;
    let keep = |p: InFlight| !acknowledged(p, ack);
    filter_subset(v.in_flight, keep);
    let kept = unacknowledged(v.in_flight, ack);
    assert forall|i: int| 0 <= i < kept.len() implies (#[trigger] kept[i]).packet.len() >= 14 by {
        let j = choose|j: int| 0 <= j < v.in_flight.len() && v.in_flight[j] == kept[i];
        assert(v.in_flight[j].packet.len() >= 14);
    }
    if v.in_flight.len() > 0 {
        first_at_bounds(v.in_flight, ack, 0);
        resend_framed(v, wanted(v.in_flight, ack), now);
    }
}

proof fn resend_framed(v: EstablishedView, i: int, now: Instant)
    requires
        frames_ok(v),
        0 <= i < v.in_flight.len(),
    ensures
        frames_ok(resend(v, i, now)),
        forall|d: u16| #[trigger]
            frames_ok(resend(EstablishedView { dup_ack_count: d, ..v }, i, now)),
{
    let w = resend(v, i, now);
    assert(v.in_flight[i].packet.len() >= 14);
    assert forall|k: int| 0 <= k < w.to_vm_buffer.len() implies (#[trigger] w.to_vm_buffer[k]).len()
        >= 14 by {
        if k > 0 {
            assert(w.to_vm_buffer[k] == v.to_vm_buffer[k - 1]);
        }
    }
    assert forall|k: int| 0 <= k < w.in_flight.len() implies (
    #[trigger] w.in_flight[k]).packet.len() >= 14 by {
        assert(v.in_flight[k].packet.len() >= 14);
    }
    assert forall|d: u16| #[trigger]
        frames_ok(resend(EstablishedView { dup_ack_count: d, ..v }, i, now)) by {
        let x = resend(EstablishedView { dup_ack_count: d, ..v }, i, now);
        assert(x.to_vm_buffer == w.to_vm_buffer);
        assert(x.in_flight == w.in_flight);
    }
}

/// Looking for a packet ends within the queue or at its end.
pub proof fn first_at_bounds(q: Seq<InFlight>, ack: u32, i: int)
    requires
        0 <= i <= q.len(),
    ensures
        i <= first_at(q, ack, i) <= q.len(),
        first_at(q, ack, i) < q.len() ==> q[first_at(q, ack, i)].seq == ack,
        forall|k: int| i <= k < first_at(q, ack, i) ==> (#[trigger] q[k]).seq != ack,
    decreases q.len() - i,
{
    if i < q.len() && q[i].seq != ack {
        first_at_bounds(q, ack, i + 1);
    }
}

/// Filtering hands out nothing that was not there.
proof fn filter_subset(q: Seq<InFlight>, keep: spec_fn(InFlight) -> bool)
    ensures
        q.filter(keep).len() <= q.len(),
        forall|i: int|
            0 <= i < q.filter(keep).len() ==> q.contains(#[trigger] q.filter(keep)[i]),
    decreases q.len(),
{
    reveal(Seq::filter);
    if q.len() > 0 {
        filter_subset(q.drop_last(), keep);
        assert forall|i: int| 0 <= i < q.filter(keep).len() implies q.contains(
            #[trigger] q.filter(keep)[i],
        ) by {
            let sub = q.drop_last().filter(keep);
            if i < sub.len() {
                assert(q.drop_last().contains(sub[i]));
                let j = choose|j: int| 0 <= j < q.drop_last().len() && q.drop_last()[j] == sub[i];
                assert(q[j] == sub[i]);
            } else {
                assert(q[q.len() - 1] == q.last());
            }
        }
    }
}

proof fn take_data_framed(
    key: NatKey,
    v: EstablishedView,
    t: SegmentView,
    proxy_mac: MacAddr,
    vm_mac: MacAddr,
)
    requires
        frames_ok(v),
        v.rx_buf.dom().finite(),
    ensures
        frames_ok(take_data(key, v, t, proxy_mac, vm_mac).0),
{
    let started = EstablishedView {
        rx_seq: t.sequence.wrapping_add(crate::seqnum::low32(t.payload.len())),
        write_buffer: v.write_buffer.push(t.payload),
        write_buffer_size: (v.write_buffer_size + t.payload.len()) as usize,
        ..v
    };
    join_kept_frame(started);
    let w = take_data(key, v, t, proxy_mac, vm_mac).0;
    assert(w.to_vm_buffer == v.to_vm_buffer);
    assert(w.in_flight == v.in_flight);
}

/// A packet from the machine leaves no frame without its header behind.
pub proof fn packet_keeps_framed(
    key: NatKey,
    st: StateView,
    t: SegmentView,
    proxy_mac: MacAddr,
    vm_mac: MacAddr,
    now: Instant,
)
    requires
        framed(st),
        st matches StateView::Established(v) ==> v.rx_buf.dom().finite(),
    ensures
        framed(packet_step(key, st, t, proxy_mac, vm_mac, now).0),
{
    if let StateView::Established(v) = st {
        take_ack_framed(v, t, now);
        let acked = take_ack(v, t, now).0;
        take_data_framed(key, acked, t, proxy_mac, vm_mac);
        let fed = take_data(key, acked, t, proxy_mac, vm_mac).0;
        assert(refresh_interest(fed).0.to_vm_buffer == fed.to_vm_buffer);
        assert(refresh_interest(fed).0.in_flight == fed.in_flight);
    }
}

proof fn queue_data_framed(
    key: NatKey,
    v: EstablishedView,
    data: Seq<u8>,
    proxy_mac: MacAddr,
    vm_mac: MacAddr,
    now: Instant,
)
    requires
        frames_ok(v),
        same_family(key),
    ensures
        frames_ok(queue_data(key, v, data, proxy_mac, vm_mac, now)),
    decreases data.len(),
{
    if data.len() > 0 && !queue_full(v) {
        let chunk = first_chunk(data);
        tcp_frame_has_headers(
            flipped(key),
            v.tx_seq,
            v.rx_seq,
            chunk,
            crate::wire::PSH_ACK,
            proxy_mac,
            vm_mac,
        );
        let next = queue_chunk(key, v, chunk, proxy_mac, vm_mac, now);
        assert forall|k: int| 0 <= k < next.to_vm_buffer.len() implies (
        #[trigger] next.to_vm_buffer[k]).len() >= 14 by {
            if k < v.to_vm_buffer.len() {
                assert(next.to_vm_buffer[k] == v.to_vm_buffer[k]);
            }
        }
        assert forall|k: int| 0 <= k < next.in_flight.len() implies (
        #[trigger] next.in_flight[k]).packet.len() >= 14 by {
            if k < v.in_flight.len() {
                assert(next.in_flight[k] == v.in_flight[k]);
            }
        }
        queue_data_framed(key, next, data.skip(chunk.len() as int), proxy_mac, vm_mac, now);
    }
}

/// A readiness event of the host leaves no frame without its header behind.
pub proof fn event_keeps_framed(
    key: NatKey,
    st: StateView,
    is_readable: bool,
    is_writable: bool,
    io: HostIo,
    proxy_mac: MacAddr,
    vm_mac: MacAddr,
    now: Instant,
)
    requires
        framed(st),
        same_family(key),
    ensures
        framed(event_step(key, st, is_readable, is_writable, io, proxy_mac, vm_mac, now).0),
{
    if let StateView::Established(v) = st {
        let active = EstablishedView { last_activity: now, ..v };
        assert(frames_ok(active));
        queue_data_framed(key, active, io.data, proxy_mac, vm_mac, now);
        let done = after_io(key, v, is_readable, is_writable, io, proxy_mac, vm_mac, now);
        assert(frames_ok(done));
        let probed = probe_window(key, done, proxy_mac, vm_mac, now).0;
        assert(probed.to_vm_buffer == done.to_vm_buffer && probed.in_flight == done.in_flight);
        let last = refresh_interest(probed).0;
        assert(last.to_vm_buffer == done.to_vm_buffer && last.in_flight == done.in_flight);
    }
}

/// Sending the next packet leaves no frame without its header behind.
pub proof fn popped_keeps_framed(st: StateView, now: Instant)
    requires
        framed(st),
    ensures
        framed(popped(st, now)),
{
    if let StateView::Established(v) = st {
        let w = established_popped(v, now);
        if let Some(seq) = frame_sequence(v.to_vm_buffer[0]) {
            first_at_bounds(v.in_flight, seq, 0);
        }
        assert forall|k: int| 0 <= k < w.to_vm_buffer.len() implies (
        #[trigger] w.to_vm_buffer[k]).len() >= 14 by {
            if v.to_vm_buffer.len() > 0 {
                assert(w.to_vm_buffer[k] == v.to_vm_buffer[k + 1]);
            }
        }
        assert forall|k: int| 0 <= k < w.in_flight.len() implies (
        #[trigger] w.in_flight[k]).packet.len() >= 14 by {
            assert(w.in_flight[k].packet == v.in_flight[k].packet);
        }
    }
}

/// Sending the next packet keeps a state in order.
pub proof fn popped_keeps_wf(st: StateView, now: Instant)
    requires
        state_wf(st),
    ensures
        state_wf(popped(st, now)),
{
    if let StateView::Established(v) = st {
        let w = established_popped(v, now);
        if let Some(seq) = frame_sequence(v.to_vm_buffer[0]) {
            first_at_bounds(v.in_flight, seq, 0);
        }
        assert forall|k: int| 0 <= k < w.in_flight.len() implies (#[trigger] w.in_flight[k]).len
            <= 0xffff by {
            assert(w.in_flight[k].len == v.in_flight[k].len);
        }
    }
}

/// Sending an overdue packet again leaves no frame without its header behind.
pub proof fn retransmitted_keeps_framed(st: StateView, rto: u64, now: Instant)
    requires
        framed(st),
    ensures
        framed(retransmitted(st, rto, now)),
{
    if overdue(st, rto, now) {
        resend_framed(st->Established_0, 0, now);
    }
}

/// Whether none of the actions is itself a list.
pub open spec fn plain(a: ActionView) -> bool {
    match a {
        ActionView::One(s) => !(s is Group),
        ActionView::Many(v) => forall|i: int| 0 <= i < v.len() ==> !((#[trigger] v[i]) is Group),
    }
}

/// The actions, in order.
pub open spec fn steps_in(a: ActionView) -> Seq<Step> {
    match a {
        ActionView::One(s) => seq![s],
        ActionView::Many(v) => v,
    }
}

/// What a packet from the machine asks for is a plain list of actions.
pub proof fn packet_actions_plain(
    key: NatKey,
    st: StateView,
    t: SegmentView,
    proxy_mac: MacAddr,
    vm_mac: MacAddr,
    now: Instant,
)
    ensures
        plain(packet_step(key, st, t, proxy_mac, vm_mac, now).1),
{
}

/// What a readiness event of the host asks for is a plain list of actions.
pub proof fn event_actions_plain(
    key: NatKey,
    st: StateView,
    is_readable: bool,
    is_writable: bool,
    io: HostIo,
    proxy_mac: MacAddr,
    vm_mac: MacAddr,
    now: Instant,
)
    ensures
        plain(event_step(key, st, is_readable, is_writable, io, proxy_mac, vm_mac, now).1),
{
}

} // verus!
