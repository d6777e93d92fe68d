//! Everything that a connection has for the machine goes from the host's address to the
//! machine's.
use vstd::prelude::*;

use crate::addr::{Instant, MacAddr, NatKey};
use crate::simple_tcp::{simple_after_io, simple_queue, SimpleView};
use crate::tcp_fsm::invariants::{first_at_bounds, join_kept_frame, steps_in};
use crate::tcp_fsm::model::{
    after_io, established_popped, event_step, first_chunk, frame_sequence, packet_step, popped,
    probe_window, queue_chunk, queue_data, queue_full, queued, refresh_interest, resend,
    retransmitted, take_ack, take_data, to_vm, unacknowledged, wanted, EstablishedView, HostIo,
    InFlight, SegmentView, StateView, Step,
};
use crate::tcp_laws::ack_takes_off_what_it_covers;

verus! {

/// Whether a frame is one of a flow to the machine: from the proxy's hardware address to the
/// machine's, and from the host of the flow to the machine.
pub open spec fn towards_vm(key: NatKey, proxy_mac: MacAddr, vm_mac: MacAddr, p: Seq<u8>) -> bool {
    exists|sequence: u32, acknowledgement: u32, payload: Seq<u8>, flags: u8|
        p == #[trigger] to_vm(key, sequence, acknowledgement, payload, flags, proxy_mac, vm_mac)
}

/// Whether all the frames that these steps send go to the machine.
pub open spec fn sends_towards_vm(
    key: NatKey,
    proxy_mac: MacAddr,
    vm_mac: MacAddr,
    steps: Seq<Step>,
) -> bool {
    forall|i: int|
        0 <= i < steps.len() ==> ((#[trigger] steps[i]) matches Step::Send(p) ==> towards_vm(
            key,
            proxy_mac,
            vm_mac,
            p,
        ))
}

/// Whether all the frames that are queued or in flight go to the machine.
pub open spec fn holds_towards_vm(
    key: NatKey,
    proxy_mac: MacAddr,
    vm_mac: MacAddr,
    st: StateView,
) -> bool {
    &&& forall|i: int|
        0 <= i < queued(st).len() ==> towards_vm(key, proxy_mac, vm_mac, #[trigger] queued(st)[i])
    &&& st matches StateView::Established(v) ==> flying_towards_vm(
        key,
        proxy_mac,
        vm_mac,
        v.in_flight,
    )
}

/// Whether all the packets in flight go to the machine.
pub open spec fn flying_towards_vm(
    key: NatKey,
    proxy_mac: MacAddr,
    vm_mac: MacAddr,
    q: Seq<InFlight>,
) -> bool {
    forall|i: int|
        0 <= i < q.len() ==> towards_vm(key, proxy_mac, vm_mac, (#[trigger] q[i]).packet)
}

spec fn established_towards(
    key: NatKey,
    proxy_mac: MacAddr,
    vm_mac: MacAddr,
    v: EstablishedView,
) -> bool {
    holds_towards_vm(key, proxy_mac, vm_mac, StateView::Established(v))
}

/// Whatever packet comes, in whatever state: all that is sent in answer goes to the machine, and
/// so does all that is queued, if it did before.
pub proof fn packets_are_answered_towards_vm(
    key: NatKey,
    st: StateView,
    t: SegmentView,
    proxy_mac: MacAddr,
    vm_mac: MacAddr,
    now: Instant,
)
    requires
        st matches StateView::Established(v) ==> v.rx_buf.dom().finite(),
    ensures
        ({
            let (next, action) = packet_step(key, st, t, proxy_mac, vm_mac, now);
            &&& sends_towards_vm(key, proxy_mac, vm_mac, steps_in(action))
            &&& holds_towards_vm(key, proxy_mac, vm_mac, st) ==> holds_towards_vm(
                key,
                proxy_mac,
                vm_mac,
                next,
            )
        }),
{
    if let StateView::Established(v) = st {
        let (acked, ack_steps) = take_ack(v, t, now);
        let (fed, data_steps) = take_data(key, acked, t, proxy_mac, vm_mac);
        let started = EstablishedView {
            rx_seq: t.sequence.wrapping_add(crate::seqnum::low32(t.payload.len())),
            write_buffer: acked.write_buffer.push(t.payload),
            write_buffer_size: (acked.write_buffer_size + t.payload.len()) as usize,
            ..acked
        };
        join_kept_frame(started);
        assert(fed.to_vm_buffer == acked.to_vm_buffer && fed.in_flight == acked.in_flight);
        if established_towards(key, proxy_mac, vm_mac, v) {
            ack_keeps_direction(key, v, t, proxy_mac, vm_mac, now);
            let last = refresh_interest(fed).0;
            assert(last.to_vm_buffer == fed.to_vm_buffer && last.in_flight == fed.in_flight);
            let q = queued(StateView::Established(acked));
            assert(queued(StateView::Established(fed)) == q);
            assert(queued(StateView::Established(last)) == q);
            assert(established_towards(key, proxy_mac, vm_mac, fed));
            assert(established_towards(key, proxy_mac, vm_mac, last));
        }
    }
    if st is Simple {
        assert(queued(packet_step(key, st, t, proxy_mac, vm_mac, now).0) == queued(st));
    }
}

proof fn ack_keeps_direction(
    key: NatKey,
    v: EstablishedView,
    t: SegmentView,
    proxy_mac: MacAddr,
    vm_mac: MacAddr,
    now: Instant,
)
    requires
        established_towards(key, proxy_mac, vm_mac, v),
    ensures
        established_towards(key, proxy_mac, vm_mac, take_ack(v, t, now).0),
{
    let ack = t.acknowledgement;
    let acked = take_ack(v, t, now).0;
    let kept = unacknowledged(v.in_flight, ack);
    ack_takes_off_what_it_covers(v.in_flight, ack);
    assert forall|i: int| 0 <= i < kept.len() implies towards_vm(
        key,
        proxy_mac,
        vm_mac,
        (#[trigger] kept[i]).packet,
    ) by {
        assert(kept.contains(kept[i]));
        let j = choose|j: int| 0 <= j < v.in_flight.len() && v.in_flight[j] == kept[i];
        assert(towards_vm(key, proxy_mac, vm_mac, v.in_flight[j].packet));
    }
    if v.in_flight.len() > 0 {
        first_at_bounds(v.in_flight, ack, 0);
        let counted = EstablishedView { dup_ack_count: (v.dup_ack_count + 1) as u16, ..v };
        assert(queued(StateView::Established(counted)) == queued(StateView::Established(v)));
        resending_keeps_direction(
            key,
            counted,
            wanted(v.in_flight, ack),
            proxy_mac,
            vm_mac,
            now,
        );
        let again = resend(counted, wanted(v.in_flight, ack), now);
        assert(queued(StateView::Established(again)) == again.to_vm_buffer);
    }
    assert(queued(StateView::Established(acked)) == acked.to_vm_buffer);
    assert(queued(StateView::Established(v)) == v.to_vm_buffer);
}

proof fn resending_keeps_direction(
    key: NatKey,
    v: EstablishedView,
    i: int,
    proxy_mac: MacAddr,
    vm_mac: MacAddr,
    now: Instant,
)
    requires
        established_towards(key, proxy_mac, vm_mac, v),
        0 <= i < v.in_flight.len(),
    ensures
        established_towards(key, proxy_mac, vm_mac, resend(v, i, now)),
{
    let w = resend(v, i, now);
    let q = queued(StateView::Established(v));
    let r = queued(StateView::Established(w));
    assert(towards_vm(key, proxy_mac, vm_mac, v.in_flight[i].packet));
    assert forall|k: int| 0 <= k < r.len() implies towards_vm(
        key,
        proxy_mac,
        vm_mac,
        #[trigger] r[k],
    ) by {
        if k > 0 {
            assert(r[k] == q[k - 1]);
        }
    }
    assert forall|k: int| 0 <= k < w.in_flight.len() implies towards_vm(
        key,
        proxy_mac,
        vm_mac,
        (#[trigger] w.in_flight[k]).packet,
    ) by {
        assert(w.in_flight[k].packet == v.in_flight[k].packet);
    }
}

/// Whatever the host does, in whatever state: all that is sent then goes to the machine, a probe
/// of its window among it, and so does all that is queued, if it did before.
pub proof fn events_are_passed_on_towards_vm(
    key: NatKey,
    st: StateView,
    is_readable: bool,
    is_writable: bool,
    io: HostIo,
    proxy_mac: MacAddr,
    vm_mac: MacAddr,
    now: Instant,
)
    ensures
        ({
            let (next, action) = event_step(
                key,
                st,
                is_readable,
                is_writable,
                io,
                proxy_mac,
                vm_mac,
                now,
            );
            &&& sends_towards_vm(key, proxy_mac, vm_mac, steps_in(action))
            &&& holds_towards_vm(key, proxy_mac, vm_mac, st) ==> holds_towards_vm(
                key,
                proxy_mac,
                vm_mac,
                next,
            )
        }),
{
    match st {
        StateView::Established(v) => {
            let active = EstablishedView { last_activity: now, ..v };
            let done = after_io(key, v, is_readable, is_writable, io, proxy_mac, vm_mac, now);
            if established_towards(key, proxy_mac, vm_mac, v) {
                assert(queued(StateView::Established(active)) == queued(st));
                assert(established_towards(key, proxy_mac, vm_mac, active));
                queueing_keeps_direction(key, active, io.data, proxy_mac, vm_mac, now);
                let read = queue_data(key, active, io.data, proxy_mac, vm_mac, now);
                assert(queued(StateView::Established(read)) == read.to_vm_buffer);
                assert(queued(StateView::Established(done)) == done.to_vm_buffer);
                assert(established_towards(key, proxy_mac, vm_mac, done));
                let probed = probe_window(key, done, proxy_mac, vm_mac, now).0;
                let last = refresh_interest(probed).0;
                assert(last.to_vm_buffer == done.to_vm_buffer && last.in_flight == done.in_flight);
                assert(queued(StateView::Established(last)) == last.to_vm_buffer);
                assert(established_towards(key, proxy_mac, vm_mac, last));
            }
        },
        StateView::Simple(v) => {
            if holds_towards_vm(key, proxy_mac, vm_mac, st) {
                simple_queueing_keeps_direction(key, v, io.data, proxy_mac, vm_mac);
                let done = simple_after_io(
                    key,
                    v,
                    is_readable,
                    is_writable,
                    io,
                    proxy_mac,
                    vm_mac,
                );
                let read = simple_queue(key, v, io.data, proxy_mac, vm_mac);
                assert(queued(StateView::Simple(read)) == read.to_vm_buffer);
                assert(queued(StateView::Simple(done)) == done.to_vm_buffer);
                assert(holds_towards_vm(key, proxy_mac, vm_mac, StateView::Simple(done)));
            }
        },
        _ => {},
    }
}

proof fn queueing_keeps_direction(
    key: NatKey,
    v: EstablishedView,
    data: Seq<u8>,
    proxy_mac: MacAddr,
    vm_mac: MacAddr,
    now: Instant,
)
    requires
        established_towards(key, proxy_mac, vm_mac, v),
    ensures
        established_towards(
            key,
            proxy_mac,
            vm_mac,
            queue_data(key, v, data, proxy_mac, vm_mac, now),
        ),
    decreases data.len(),
{
    if data.len() > 0 {
        if queue_full(v) {
            let paused = EstablishedView { host_reads_paused: true, ..v };
            assert(queued(StateView::Established(paused)) == queued(StateView::Established(v)));
        } else {
            let chunk = first_chunk(data);
            let next = queue_chunk(key, v, chunk, proxy_mac, vm_mac, now);
            let q = queued(StateView::Established(v));
            let r = queued(StateView::Established(next));
            assert forall|k: int| 0 <= k < r.len() implies towards_vm(
                key,
                proxy_mac,
                vm_mac,
                #[trigger] r[k],
            ) by {
                if k < q.len() {
                    assert(r[k] == q[k]);
                }
            }
            assert forall|k: int| 0 <= k < next.in_flight.len() implies towards_vm(
                key,
                proxy_mac,
                vm_mac,
                (#[trigger] next.in_flight[k]).packet,
            ) by {
                if k < v.in_flight.len() {
                    assert(next.in_flight[k] == v.in_flight[k]);
                }
            }
            queueing_keeps_direction(
                key,
                next,
                data.skip(chunk.len() as int),
                proxy_mac,
                vm_mac,
                now,
            );
        }
    }
}

proof fn simple_queueing_keeps_direction(
    key: NatKey,
    v: SimpleView,
    data: Seq<u8>,
    proxy_mac: MacAddr,
    vm_mac: MacAddr,
)
    requires
        holds_towards_vm(key, proxy_mac, vm_mac, StateView::Simple(v)),
    ensures
        holds_towards_vm(
            key,
            proxy_mac,
            vm_mac,
            StateView::Simple(simple_queue(key, v, data, proxy_mac, vm_mac)),
        ),
    decreases data.len(),
{
    let q = queued(StateView::Simple(v));
    let last = simple_queue(key, v, data, proxy_mac, vm_mac);
    if data.len() > 0 {
        let chunk = first_chunk(data);
        let packet = to_vm(
            key,
            v.last_host_seq,
            v.last_vm_seq,
            chunk,
            crate::wire::PSH_ACK,
            proxy_mac,
            vm_mac,
        );
        let next = SimpleView {
            to_vm_buffer: v.to_vm_buffer.push(packet),
            last_host_seq: v.last_host_seq.wrapping_add(chunk.len() as u32),
            ..v
        };
        let r = queued(StateView::Simple(next));
        assert(towards_vm(key, proxy_mac, vm_mac, packet));
        assert forall|k: int| 0 <= k < r.len() implies towards_vm(
            key,
            proxy_mac,
            vm_mac,
            #[trigger] r[k],
        ) by {
            if k < q.len() {
                assert(r[k] == q[k]);
            }
        }
        simple_queueing_keeps_direction(
            key,
            next,
            data.skip(chunk.len() as int),
            proxy_mac,
            vm_mac,
        );
        assert(queued(StateView::Simple(last)) == last.to_vm_buffer);
    }
}

/// Taking the next packet and queueing an overdue one again keep it so.
pub proof fn sending_keeps_direction(
    key: NatKey,
    st: StateView,
    proxy_mac: MacAddr,
    vm_mac: MacAddr,
    rto: u64,
    now: Instant,
)
    requires
        holds_towards_vm(key, proxy_mac, vm_mac, st),
    ensures
        holds_towards_vm(key, proxy_mac, vm_mac, popped(st, now)),
        holds_towards_vm(key, proxy_mac, vm_mac, retransmitted(st, rto, now)),
{
    let q = queued(st);
    let r = queued(popped(st, now));
    assert forall|k: int| 0 <= k < r.len() implies towards_vm(
        key,
        proxy_mac,
        vm_mac,
        #[trigger] r[k],
    ) by {
        assert(r[k] == q[k + 1]);
    }
    if let StateView::Established(v) = st {
        let w = established_popped(v, now);
        if v.to_vm_buffer.len() > 0 {
            if let Some(seq) = frame_sequence(v.to_vm_buffer[0]) {
                first_at_bounds(v.in_flight, seq, 0);
            }
        }
        assert forall|k: int| 0 <= k < w.in_flight.len() implies towards_vm(
            key,
            proxy_mac,
            vm_mac,
            (#[trigger] w.in_flight[k]).packet,
        ) by {
            assert(w.in_flight[k].packet == v.in_flight[k].packet);
        }
        if v.in_flight.len() > 0 {
            resending_keeps_direction(key, v, 0, proxy_mac, vm_mac, now);
        }
    }
}

} // verus!
