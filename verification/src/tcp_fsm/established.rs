//! The established connection.
use bytes::Bytes;
use std::collections::VecDeque;
use vstd::prelude::*;

use crate::addr::{flip_key, Instant, Interest, MacAddr};
use crate::buffer::{bytes_view, flat_drop_bytes, flat_push, views};
use crate::host::{
    write_pending, write_run, write_run_sends, HostCall, HostRead, TracedStream, ReadView, WriteEnd,
};
use crate::packet_utils::{build_tcp_packet, IpPacket};
use crate::seqnum::{length32, low32};
use crate::tcp_fsm::model::{
    after_io, established_popped, event_step, first_chunk, host_did, host_took, idle_io, overdue,
    pending, probe_window, queue_chunk, queue_data, read_enough, read_run, retransmitted,
    shows_closed, touch, HostIo, READ_BUFFER_SIZE,
};
use crate::tcp_fsm::model::{
    accept_data, action_view, established_wf, first_at, has_reregister, in_flight_bytes,
    in_flight_view, interest_for, join_kept, kept_bytes, map_view, new_ack, place_data,
    refresh_interest, repeated_ack, resend, resume_missed, step_of, steps_of, take_ack, take_data, to_vm,
    unacknowledged, wanted, window_room, EstablishedView, InFlight, SegmentView, StateView, Step,
};
use crate::tcp_fsm::states::{CloseWait, Established, FinWait1};
use crate::tcp_fsm::{
    reacts, AnyConnection, ProxyAction, TcpConnection, TcpState, HOST_WRITE_BUFFER_HIGH_WATER,
    HOST_WRITE_BUFFER_LOW_WATER, MAX_IN_FLIGHT_PACKETS, MAX_SEGMENT_SIZE, TCP_BUFFER_SIZE,
    TCP_BUFFER_UNPAUSE_THRESHOLD, UNPAUSE_IN_FLIGHT_THRESHOLD, ZERO_WINDOW_PROBE_INTERVAL,
};
use crate::wire::{parse_tcp, TcpSegment, ACK, ETHERNET_HEADER, FIN, FIN_ACK, PSH_ACK, RST};

verus! {

proof fn in_flight_bytes_bound(q: Seq<InFlight>)
    requires
        forall|i: int| 0 <= i < q.len() ==> (#[trigger] q[i]).len <= 0xffff,
    ensures
        in_flight_bytes(q) <= q.len() * 0xffff,
    decreases q.len(),
{
    if q.len() > 0 {
        in_flight_bytes_bound(q.drop_last());
    }
}

impl Established {
    /// How far the packets in flight move the sequence number, together.
    fn bytes_in_flight(&self) -> (r: u32)
        requires
            established_wf(self@),
        ensures
            r == in_flight_bytes(self@.in_flight),
    {
        let mut sum: u32 = 0;
        let mut i: usize = 0;
        let ghost q = self@.in_flight;
        while i < self.in_flight_packets.len()
            invariant
                q == in_flight_view(self.in_flight_packets@),
                q.len() <= 0x1_0000,
                forall|i: int| 0 <= i < q.len() ==> (#[trigger] q[i]).len <= 0xffff,
                i <= q.len(),
                sum == in_flight_bytes(q.take(i as int)),
            decreases q.len() - i,
        {
            proof {
                in_flight_bytes_bound(q.take(i as int));
                assert(q.take(i + 1).drop_last() =~= q.take(i as int));
                assert(q.take(i + 1).last() == q[i as int]);
            }
            sum = sum + self.in_flight_packets[i].3;
            i = i + 1;
        }
        assert(q.take(i as int) =~= q);
        sum
    }

    /// Whether more than `margin` bytes of the machine's window are still free.
    fn has_window_room(&self, margin: u32) -> (r: bool)
        requires
            established_wf(self@),
        ensures
            r == window_room(self@, margin),
    {
        let window: u32 = (self.vm_window_size as u32) << self.vm_window_scale;
        self.bytes_in_flight() < window.saturating_sub(margin)
    }

    /// The readiness events that suit the state.
    pub fn calculate_interest(&self) -> (r: Interest)
        requires
            established_wf(self@),
        ensures
            r == interest_for(self@),
    {
        let should_read = !self.host_reads_paused && self.to_vm_buffer.len() < TCP_BUFFER_SIZE
            && self.in_flight_packets.len() < MAX_IN_FLIGHT_PACKETS && self.has_window_room(
            (MAX_SEGMENT_SIZE / 4) as u32,
        );
        let should_write = self.write_buffer.len() > 0 || self.to_vm_buffer.len() > 0;
        if should_read && should_write {
            Interest::Both
        } else if should_read {
            Interest::Readable
        } else {
            Interest::Writable
        }
    }
}

/// What is kept out of turn counts each packet once.
pub proof fn kept_bytes_without(m: Map<u32, Seq<u8>>, k: u32)
    requires
        m.dom().finite(),
        m.dom().contains(k),
    ensures
        kept_bytes(m) == m[k].len() + kept_bytes(m.remove(k)),
    decreases m.dom().len(),
{
    let c = m.dom().choose();
    assert(m.dom().len() > 0);
    assert(m.dom().contains(c));
    assert(m.remove(c).dom() =~= m.dom().remove(c));
    if c != k {
        assert(m.remove(k).dom() =~= m.dom().remove(k));
        kept_bytes_without(m.remove(c), k);
        kept_bytes_without(m.remove(k), c);
        assert(m.remove(c).remove(k) =~= m.remove(k).remove(c));
    }
}

proof fn steps_of_push(v: Seq<ProxyAction>, a: ProxyAction)
    ensures
        steps_of(v.push(a)) == steps_of(v).push(step_of(a)),
{
    assert(steps_of(v.push(a)) =~= steps_of(v).push(step_of(a)));
}

impl Established {
    /// Registers for the events that suit the state, when they differ from the current ones.
    pub fn refresh_interest(&mut self, actions: &mut Vec<ProxyAction>)
        requires
            established_wf(old(self)@),
        ensures
            final(self)@ == refresh_interest(old(self)@).0,
            steps_of(final(actions)@) == steps_of(old(actions)@) + refresh_interest(
                old(self)@,
            ).1,
            established_wf(final(self)@),
    {
        let interest = self.calculate_interest();
        if interest != self.current_interest {
            proof {
                steps_of_push(actions@, ProxyAction::Reregister(interest));
            }
            actions.push(ProxyAction::Reregister(interest));
            self.current_interest = interest;
        }
        assert(self@ =~= refresh_interest(old(self)@).0);
        assert(steps_of(actions@) =~= steps_of(old(actions)@) + refresh_interest(old(self)@).1);
    }

    /// Takes the packets that `ack` covers whole out of flight.
    fn prune(&mut self, ack: u32)
        ensures
            final(self)@ == (EstablishedView {
                in_flight: unacknowledged(old(self)@.in_flight, ack),
                ..old(self)@
            }),
    {
        let ghost q = self@.in_flight;
        let ghost before = *self;
        let ghost keep = |p: InFlight| !crate::tcp_fsm::model::acknowledged(p, ack);
        let mut kept: VecDeque<(u32, Bytes, Instant, u32)> = VecDeque::new();
        let n: usize = self.in_flight_packets.len();
        let mut i: usize = 0;
        assert(in_flight_view(kept@) =~= q.take(0).filter(keep)) by {
            reveal(Seq::filter);
        }
        while i < n
            invariant
                i <= n,
                n == q.len(),
                q == in_flight_view(before.in_flight_packets@),
                self.in_flight_packets@ == before.in_flight_packets@.skip(i as int),
                *self == (Established { in_flight_packets: self.in_flight_packets, ..before }),
                keep == (|p: InFlight| !crate::tcp_fsm::model::acknowledged(p, ack)),
                in_flight_view(kept@) == q.take(i as int).filter(keep),
            decreases n - i,
        {
            let p = self.in_flight_packets.pop_front().unwrap();
            let end: u32 = p.0.wrapping_add(p.3);
            proof {
                reveal(Seq::filter);
                assert(q.take(i + 1).drop_last() =~= q.take(i as int));
                assert(q.take(i + 1).last() == q[i as int]);
                assert(in_flight_view(kept@.push(p)) =~= in_flight_view(kept@).push(
                    q[i as int],
                ));
                assert(self.in_flight_packets@ =~= before.in_flight_packets@.skip(i + 1));
            }
            if ack.wrapping_sub(end) >= 0x8000_0000 {
                kept.push_back(p);
            }
            i = i + 1;
        }
        assert(q.take(n as int) =~= q);
        self.in_flight_packets = kept;
        assert(self@ =~= (EstablishedView {
            in_flight: unacknowledged(old(self)@.in_flight, ack),
            ..old(self)@
        }));
    }

    /// Queues the packet in flight at `i` once more, ahead of the others.
    fn resend(&mut self, i: usize, now: Instant)
        requires
            i < old(self)@.in_flight.len(),
        ensures
            final(self)@ == resend(old(self)@, i as int, now),
    {
        let ghost before = *self;
        let p = self.in_flight_packets.remove(i).unwrap();
        self.to_vm_buffer.push_front(p.1.clone());
        self.in_flight_packets.insert(i, (p.0, p.1, now, p.3));
        proof {
            let want = resend(old(self)@, i as int, now);
            assert(self.in_flight_packets@ =~= before.in_flight_packets@.update(
                i as int,
                (p.0, p.1, now, p.3),
            ));
            assert(self@.in_flight =~= want.in_flight);
            assert(self@.to_vm_buffer =~= want.to_vm_buffer);
            assert(self@ =~= want);
        }
    }

    /// The packet that an acknowledgement asks for.
    fn find_wanted(&self, ack: u32) -> (r: usize)
        requires
            self@.in_flight.len() > 0,
        ensures
            r == wanted(self@.in_flight, ack),
            r < self@.in_flight.len(),
    {
        let ghost q = self@.in_flight;
        let mut i: usize = 0;
        while i < self.in_flight_packets.len()
            invariant
                i <= q.len(),
                q == in_flight_view(self.in_flight_packets@),
                first_at(q, ack, 0) == first_at(q, ack, i as int),
            decreases q.len() - i,
        {
            if self.in_flight_packets[i].0 == ack {
                return i;
            }
            i = i + 1;
        }
        0
    }

    /// An acknowledgement of new data.
    fn new_ack(&mut self, tcp: &TcpSegment, actions: &mut Vec<ProxyAction>)
        requires
            established_wf(old(self)@),
        ensures
            final(self)@ == new_ack(old(self)@, tcp@).0,
            steps_of(final(actions)@) == steps_of(old(actions)@) + new_ack(old(self)@, tcp@).1,
            established_wf(final(self)@),
    {
        let was_paused = self.host_reads_paused;
        self.highest_ack_from_vm = tcp.acknowledgement;
        self.dup_ack_count = 0;
        self.last_fast_retransmit_seq = None;
        self.vm_window_size = tcp.window;
        self.prune(tcp.acknowledgement);
        proof {
            let q = old(self)@.in_flight;
            let keep = |p: InFlight|
                !crate::tcp_fsm::model::acknowledged(p, tcp.acknowledgement);
            filter_keeps(q, keep);
        }
        if was_paused && self.to_vm_buffer.len() < TCP_BUFFER_UNPAUSE_THRESHOLD
            && self.in_flight_packets.len() < UNPAUSE_IN_FLIGHT_THRESHOLD {
            self.host_reads_paused = false;
            let interest = self.calculate_interest();
            proof {
                steps_of_push(actions@, ProxyAction::Reregister(interest));
            }
            actions.push(ProxyAction::Reregister(interest));
            self.current_interest = interest;
        }
        assert(self@ =~= new_ack(old(self)@, tcp@).0);
        assert(steps_of(actions@) =~= steps_of(old(actions)@) + new_ack(old(self)@, tcp@).1);
    }
}

/// Filtering hands out nothing that was not there.
proof fn filter_keeps(q: Seq<InFlight>, keep: spec_fn(InFlight) -> bool)
    ensures
        q.filter(keep).len() <= q.len(),
        forall|i: int|
            0 <= i < q.filter(keep).len() ==> q.contains(#[trigger] q.filter(keep)[i]),
    decreases q.len(),
{
    reveal(Seq::filter);
    if q.len() > 0 {
        filter_keeps(q.drop_last(), keep);
        assert forall|i: int| 0 <= i < q.filter(keep).len() implies q.contains(
            #[trigger] q.filter(keep)[i],
        ) by {
            let sub = q.drop_last().filter(keep);
            if i < sub.len() {
                assert(q.drop_last().contains(sub[i]));
                let j = choose|j: int| 0 <= j < q.drop_last().len() && q.drop_last()[j] == sub[i];
                assert(q[j] == sub[i]);
            } else {
                assert(q[q.len() - 1] == q.last());
            }
        }
    }
}

impl Established {
    /// A bare acknowledgement that repeats the highest so far.
    fn repeated_ack(&mut self, ack: u32, now: Instant)
        requires
            established_wf(old(self)@),
            old(self)@.dup_ack_count < 0xffff,
        ensures
            final(self)@ == repeated_ack(old(self)@, ack, now),
            established_wf(final(self)@),
    {
        self.dup_ack_count = self.dup_ack_count + 1;
        let already = match self.last_fast_retransmit_seq {
            Some(seq) => seq == ack,
            None => false,
        };
        if self.dup_ack_count >= 3 && !already && self.in_flight_packets.len() > 0 {
            let i: usize = self.find_wanted(ack);
            self.resend(i, now);
            self.last_fast_retransmit_seq = Some(ack);
            self.dup_ack_count = 0;
        }
        assert(self@ =~= repeated_ack(old(self)@, ack, now));
    }

    /// Resumes reading where the stream missed the pause.
    fn resume_missed(&mut self, actions: &mut Vec<ProxyAction>)
        requires
            established_wf(old(self)@),
        ensures
            final(self)@ == resume_missed(old(self)@).0,
            steps_of(final(actions)@) == steps_of(old(actions)@) + resume_missed(old(self)@).1,
            established_wf(final(self)@),
    {
        if self.host_reads_paused && self.current_interest == Interest::Readable
            && self.to_vm_buffer.len() < TCP_BUFFER_UNPAUSE_THRESHOLD
            && self.in_flight_packets.len() < UNPAUSE_IN_FLIGHT_THRESHOLD {
            self.host_reads_paused = false;
            self.current_interest = Interest::Both;
            proof {
                steps_of_push(actions@, ProxyAction::Reregister(Interest::Both));
            }
            actions.push(ProxyAction::Reregister(Interest::Both));
        }
        assert(self@ =~= resume_missed(old(self)@).0);
        assert(steps_of(actions@) =~= steps_of(old(actions)@) + resume_missed(old(self)@).1);
    }

    /// What the acknowledgement in a packet does.
    fn take_ack(&mut self, tcp: &TcpSegment, actions: &mut Vec<ProxyAction>, now: Instant)
        requires
            established_wf(old(self)@),
            old(self)@.dup_ack_count < 0xffff,
        ensures
            final(self)@ == take_ack(old(self)@, tcp@, now).0,
            steps_of(final(actions)@) == steps_of(old(actions)@) + take_ack(
                old(self)@,
                tcp@,
                now,
            ).1,
            established_wf(final(self)@),
    {
        if (tcp.flags & ACK) != 0 {
            let ack: u32 = tcp.acknowledgement;
            let highest: u32 = self.highest_ack_from_vm;
            if ack != highest && ack.wrapping_sub(highest) < 0x8000_0000 {
                self.new_ack(tcp, actions);
                return;
            } else if tcp.payload.len() == 0 && ack == highest {
                self.repeated_ack(ack, now);
                self.resume_missed(actions);
                return;
            }
        }
        assert(steps_of(actions@) =~= steps_of(old(actions)@) + Seq::<Step>::empty());
    }

    /// Moves packets that came ahead of their turn over to the data for the host.
    fn join_kept(&mut self)
        requires
            established_wf(old(self)@),
            old(self)@.write_buffer_size + kept_bytes(old(self)@.rx_buf) <= usize::MAX,
        ensures
            final(self)@ == join_kept(old(self)@),
            established_wf(final(self)@),
            final(self)@.in_flight == old(self)@.in_flight,
    {
        let ghost v = self@;
        let mut more = true;
        while more
            invariant
                established_wf(self@),
                self@.in_flight == v.in_flight,
                self@.write_buffer_size + kept_bytes(self@.rx_buf) <= usize::MAX,
                join_kept(self@) == join_kept(v),
                !more ==> !self@.rx_buf.dom().contains(self@.rx_seq),
            decreases self@.rx_buf.dom().len(), (if more { 1int } else { 0int }),
        {
            let ghost u = self@;
            let ghost m = self.rx_buf@;
            match self.rx_buf.remove(&self.rx_seq) {
                Some(data) => {
                    let n: usize = data.len();
                    proof {
                        assert(u.rx_buf.dom().contains(u.rx_seq));
                        kept_bytes_without(u.rx_buf, u.rx_seq);
                        assert(map_view(self.rx_buf@) =~= u.rx_buf.remove(u.rx_seq));
                        assert(u.rx_buf.remove(u.rx_seq).dom() =~= u.rx_buf.dom().remove(
                            u.rx_seq,
                        ));
                        flat_push(u.write_buffer, bytes_view(data));
                        assert(views(self.write_buffer@.push(data)) =~= u.write_buffer.push(
                            bytes_view(data),
                        ));
                    }
                    self.rx_seq = self.rx_seq.wrapping_add(length32(n));
                    self.write_buffer.push_back(data);
                    self.write_buffer_size = self.write_buffer_size + n;
                },
                None => {
                    assert(self.rx_buf@ =~= m);
                    more = false;
                },
            }
        }
    }

    /// Puts data where it goes.
    fn place_data(&mut self, seq: u32, payload: &[u8])
        requires
            established_wf(old(self)@),
            old(self)@.write_buffer_size + kept_bytes(old(self)@.rx_buf) + payload@.len()
                <= usize::MAX,
        ensures
            final(self)@ == place_data(old(self)@, seq, payload@),
            established_wf(final(self)@),
    {
        let ghost v = self@;
        if seq.wrapping_sub(self.rx_seq) > 0x8000_0000 {
        } else if seq != self.rx_seq {
            if !self.rx_buf.contains_key(&seq) {
                let data = Bytes::copy_from_slice(payload);
                let _ = self.rx_buf.insert(seq, data);
                assert(self@.rx_buf =~= v.rx_buf.insert(seq, payload@));
                assert(self@ =~= place_data(v, seq, payload@));
            }
        } else {
            let data = Bytes::copy_from_slice(payload);
            proof {
                flat_push(v.write_buffer, payload@);
                assert(views(self.write_buffer@.push(data)) =~= v.write_buffer.push(payload@));
            }
            self.write_buffer.push_back(data);
            self.write_buffer_size = self.write_buffer_size + payload.len();
            self.rx_seq = seq.wrapping_add(length32(payload.len()));
            assert(self@ =~= (EstablishedView {
                rx_seq: seq.wrapping_add(low32(payload@.len())),
                write_buffer: v.write_buffer.push(payload@),
                write_buffer_size: (v.write_buffer_size + payload@.len()) as usize,
                ..v
            }));
            self.join_kept();
        }
    }

    /// What the data in a packet does while data is being taken.
    fn accept_data(&mut self, tcp: &TcpSegment, actions: &mut Vec<ProxyAction>)
        requires
            established_wf(old(self)@),
            old(self)@.write_buffer_size + kept_bytes(old(self)@.rx_buf) + tcp@.payload.len()
                <= usize::MAX,
        ensures
            final(self)@ == accept_data(old(self)@, tcp@).0,
            steps_of(final(actions)@) == steps_of(old(actions)@) + accept_data(
                old(self)@,
                tcp@,
            ).1,
            established_wf(final(self)@),
    {
        let was_empty = self.write_buffer.len() == 0;
        self.place_data(tcp.sequence, tcp.payload.as_slice());
        let ghost placed = self@;
        if self.write_buffer_size > HOST_WRITE_BUFFER_HIGH_WATER {
            self.vm_reads_paused = true;
        }
        assert(self@ =~= (EstablishedView {
            vm_reads_paused: placed.vm_reads_paused || placed.write_buffer_size
                > HOST_WRITE_BUFFER_HIGH_WATER,
            ..placed
        }));
        if was_empty && self.write_buffer.len() > 0 {
            self.refresh_interest(actions);
        } else {
            assert(steps_of(actions@) =~= steps_of(old(actions)@) + Seq::<Step>::empty());
        }
    }
}

impl<H> TcpConnection<Established, H> {
    /// Sends a packet without data to the machine.
    fn control_packet(
        &mut self,
        acknowledgement: u32,
        flags: u8,
        proxy_mac: MacAddr,
        vm_mac: MacAddr,
    ) -> (r: Bytes)
        ensures
            bytes_view(r) == to_vm(
                old(self).nat_key,
                old(self).state@.tx_seq,
                acknowledgement,
                Seq::empty(),
                flags,
                proxy_mac,
                vm_mac,
            ),
            final(self).nat_key == old(self).nat_key,
            final(self).stream == old(self).stream,
            final(self).state == old(self).state,
    {
        build_tcp_packet(
            &mut self.packet_buf,
            flip_key(self.nat_key),
            self.state.tx_seq,
            acknowledgement,
            None,
            Some(flags),
            proxy_mac,
            vm_mac,
        )
    }

    /// What the data in a packet does.
    fn take_data(
        &mut self,
        tcp: &TcpSegment,
        actions: &mut Vec<ProxyAction>,
        proxy_mac: MacAddr,
        vm_mac: MacAddr,
    )
        requires
            established_wf(old(self).state@),
            old(self).state@.write_buffer_size + kept_bytes(old(self).state@.rx_buf)
                + tcp@.payload.len() <= usize::MAX,
        ensures
            ({
                let (next, steps) = take_data(
                    old(self).nat_key,
                    old(self).state@,
                    tcp@,
                    proxy_mac,
                    vm_mac,
                );
                &&& final(self).state@ == next
                &&& steps_of(final(actions)@) == steps_of(old(actions)@) + steps
            }),
            final(self).nat_key == old(self).nat_key,
            final(self).stream == old(self).stream,
            established_wf(final(self).state@),
    {
        if tcp.payload.len() > 0 {
            if !self.state.vm_reads_paused {
                self.state.accept_data(tcp, actions);
            }
            let ghost mid = actions@;
            let ack_packet = self.control_packet(self.state.rx_seq, ACK, proxy_mac, vm_mac);
            let action = ProxyAction::SendControlPacket(ack_packet);
            proof {
                steps_of_push(mid, action);
            }
            actions.push(action);
            assert(steps_of(actions@) =~= steps_of(old(actions)@) + take_data(
                old(self).nat_key,
                old(self).state@,
                tcp@,
                proxy_mac,
                vm_mac,
            ).1);
        } else {
            assert(steps_of(actions@) =~= steps_of(old(actions)@) + Seq::<Step>::empty());
        }
    }
}

/// Whether a registration is among the actions.
fn reregisters(actions: &Vec<ProxyAction>) -> (r: bool)
    ensures
        r == has_reregister(steps_of(actions@)),
{
    let ghost steps = steps_of(actions@);
    let mut i: usize = 0;
    while i < actions.len()
        invariant
            i <= actions@.len(),
            steps == steps_of(actions@),
            forall|k: int| 0 <= k < i ==> !((#[trigger] steps[k]) is Reregister),
        decreases actions@.len() - i,
    {
        if let ProxyAction::Reregister(_) = &actions[i] {
            assert(steps[i as int] is Reregister);
            return true;
        }
        i = i + 1;
    }
    false
}

/// Taking an acknowledgement leaves alone what waits for the host or is kept out of turn.
proof fn take_ack_keeps_data(v: EstablishedView, t: SegmentView, now: Instant)
    ensures
        take_ack(v, t, now).0.rx_buf == v.rx_buf,
        take_ack(v, t, now).0.write_buffer_size == v.write_buffer_size,
{
}

impl<H: TracedStream> TcpState<H> for TcpConnection<Established, H> {
    open spec fn any(self) -> AnyConnection<H> {
        AnyConnection::Established(self)
    }

    fn handle_packet(
        self,
        tcp: &TcpSegment,
        proxy_mac: MacAddr,
        vm_mac: MacAddr,
        now: Instant,
    ) -> (r: (AnyConnection<H>, ProxyAction)) {
        let mut conn = self;
        if (tcp.flags & RST) != 0 {
            return (AnyConnection::Established(conn), ProxyAction::ScheduleRemoval);
        }
        let mut actions: Vec<ProxyAction> = Vec::new();
        assert(steps_of(actions@) =~= Seq::<Step>::empty());
        conn.state.take_ack(tcp, &mut actions, now);
        proof {
            take_ack_keeps_data(self.state@, tcp@, now);
            assert(steps_of(actions@) =~= take_ack(self.state@, tcp@, now).1);
        }
        if (tcp.flags & FIN) != 0 {
            let fin_ack_seq: u32 = tcp.sequence.wrapping_add(
                length32(tcp.payload.len()),
            ).wrapping_add(1);
            let ack_packet = conn.control_packet(fin_ack_seq, ACK, proxy_mac, vm_mac);
            let tx_seq: u32 = conn.state.tx_seq;
            let send = ProxyAction::SendControlPacket(ack_packet);
            proof {
                steps_of_push(actions@, send);
                steps_of_push(actions@.push(send), ProxyAction::ShutdownHostWrite);
            }
            actions.push(send);
            actions.push(ProxyAction::ShutdownHostWrite);
            let next = conn.transition(CloseWait { tx_seq, rx_seq: fin_ack_seq });
            return (AnyConnection::CloseWait(next), ProxyAction::Multi(actions));
        }
        conn.take_data(tcp, &mut actions, proxy_mac, vm_mac);
        if !reregisters(&actions) {
            conn.state.refresh_interest(&mut actions);
        }
        (AnyConnection::Established(conn), ProxyAction::Multi(actions))
    }

    #[verifier::rlimit(40)]
    fn handle_event(
        self,
        is_readable: bool,
        is_writable: bool,
        proxy_mac: MacAddr,
        vm_mac: MacAddr,
        now: Instant,
    ) -> (r: (AnyConnection<H>, ProxyAction)) {
        reveal(reacts);
        let mut conn = self;
        let ghost st = StateView::Established(self.state@);
        let ghost q = self.state@.write_buffer;
        conn.state.last_activity = now;
        assert(conn.state@ =~= (EstablishedView { last_activity: now, ..self.state@ }));
        let mut host_closed = false;
        let ghost mut io = idle_io();
        proof {
            let none = Seq::<HostCall>::empty();
            assert(self.stream.calls() + (none + none + none) =~= self.stream.calls());
        }
        if is_readable && !conn.state.host_reads_paused {
            let (batch, Ghost(calls)) = read_available(&mut conn.stream);
            proof {
                io = HostIo {
                    data: batch.data@,
                    eof: batch.eof,
                    failed: batch.failed,
                    reads: calls,
                    ..idle_io()
                };
                let none = Seq::<HostCall>::empty();
                assert(calls + none + none =~= calls);
            }
            if batch.failed {
                let r = (AnyConnection::Established(conn), ProxyAction::ScheduleRemoval);
                proof {
                    assert(host_did(
                        self.any().host(),
                        r.0.host(),
                        self.any()@,
                        is_readable,
                        is_writable,
                        io,
                    ));
                    assert((r.0@, action_view(r.1)) == event_step(
                        self.nat_key,
                        st,
                        is_readable,
                        is_writable,
                        io,
                        proxy_mac,
                        vm_mac,
                        now,
                    ));
                }
                return r;
            }
            host_closed = batch.eof;
            conn.queue_host_data(batch.data.as_slice(), proxy_mac, vm_mac, now);
        }
        let ghost read = conn.state@;
        if is_writable {
            let (written, closed, Ghost(calls)) = conn.write_to_host();
            host_closed = host_closed || closed;
            proof {
                io = HostIo {
                    written: written as nat,
                    write_closed: closed,
                    writes: calls,
                    ..io
                };
                assert(conn.stream.calls() =~= self.stream.calls() + (io.reads + io.writes
                    + io.again));
                let end = choose|end: WriteEnd| #[trigger]
                    write_run(q, calls, written as int, end) && closed == shows_closed(end);
                assert(write_run(pending(st), io.writes, io.written as int, end));
            }
        }
        proof {
            assert(host_did(self.stream, conn.stream, st, is_readable, is_writable, io));
            assert(conn.state@ == after_io(
                self.nat_key,
                self.state@,
                is_readable,
                is_writable,
                io,
                proxy_mac,
                vm_mac,
                now,
            ));
        }
        if host_closed {
            let fin_packet = conn.control_packet(conn.state.rx_seq, FIN_ACK, proxy_mac, vm_mac);
            let fin_seq: u32 = conn.state.tx_seq.wrapping_add(1);
            let rx_seq: u32 = conn.state.rx_seq;
            let send = ProxyAction::SendControlPacket(fin_packet);
            let mut actions: Vec<ProxyAction> = Vec::new();
            actions.push(send);
            assert(steps_of(actions@) =~= seq![step_of(send)]);
            let next = conn.transition(FinWait1 { fin_seq, rx_seq });
            let r = (AnyConnection::FinWait1(next), ProxyAction::Multi(actions));
            proof {
                assert(host_did(
                    self.any().host(),
                    r.0.host(),
                    self.any()@,
                    is_readable,
                    is_writable,
                    io,
                ));
                assert((r.0@, action_view(r.1)) == event_step(
                    self.nat_key,
                    st,
                    is_readable,
                    is_writable,
                    io,
                    proxy_mac,
                    vm_mac,
                    now,
                ));
            }
            return r;
        }
        let mut actions: Vec<ProxyAction> = Vec::new();
        assert(steps_of(actions@) =~= Seq::<Step>::empty());
        conn.probe_window(&mut actions, proxy_mac, vm_mac, now);
        conn.state.refresh_interest(&mut actions);
        proof {
            let (probed, probe_steps) = probe_window(
                self.nat_key,
                after_io(
                    self.nat_key,
                    self.state@,
                    is_readable,
                    is_writable,
                    io,
                    proxy_mac,
                    vm_mac,
                    now,
                ),
                proxy_mac,
                vm_mac,
                now,
            );
            assert(steps_of(actions@) =~= probe_steps + refresh_interest(probed).1);
        }
        let r = (AnyConnection::Established(conn), ProxyAction::Multi(actions));
        proof {
            assert(host_did(
                self.any().host(),
                r.0.host(),
                self.any()@,
                is_readable,
                is_writable,
                io,
            ));
            assert((r.0@, action_view(r.1)) == event_step(
                self.nat_key,
                st,
                is_readable,
                is_writable,
                io,
                proxy_mac,
                vm_mac,
                now,
            ));
        }
        r
    }
}

/// What came of reading from a host stream until it had no more.
pub struct ReadBatch {
    pub data: Vec<u8>,
    pub eof: bool,
    pub failed: bool,
}

/// Reading goes on: what was done so far and then a run from `sofar` on make one run.
spec fn reads_on(done: Seq<HostCall>, sofar: Seq<u8>) -> bool {
    forall|rest: Seq<HostCall>, data: Seq<u8>, eof: bool, failed: bool| #[trigger]
        read_run(sofar, rest, data, eof, failed) ==> read_run(
            Seq::empty(),
            done + rest,
            data,
            eof,
            failed,
        )
}

proof fn reads_on_once(done: Seq<HostCall>, sofar: Seq<u8>, d: Seq<u8>)
    requires
        reads_on(done, sofar),
        d.len() > 0,
        !read_enough(sofar + d, d.len()),
    ensures
        reads_on(
            done.push(
                HostCall::Read {
                    max: (READ_BUFFER_SIZE - sofar.len()) as nat,
                    got: ReadView::Data(d),
                },
            ),
            sofar + d,
        ),
{
    let call = HostCall::Read {
        max: (READ_BUFFER_SIZE - sofar.len()) as nat,
        got: ReadView::Data(d),
    };
    assert forall|rest: Seq<HostCall>, data: Seq<u8>, eof: bool, failed: bool| #[trigger]
        read_run(sofar + d, rest, data, eof, failed) implies read_run(
        Seq::empty(),
        done.push(call) + rest,
        data,
        eof,
        failed,
    ) by {
        let all = seq![call] + rest;
        assert(all.skip(1) =~= rest);
        assert(read_run(sofar, all, data, eof, failed));
        assert(done.push(call) + rest =~= done + all);
    }
}

/// Reads from a host stream until it has no more for now, or until there is enough for a
/// packet and the stream hands out little at a time.
fn read_available<H: TracedStream>(stream: &mut H) -> (r: (ReadBatch, Ghost<Seq<HostCall>>))
    ensures
        final(stream).calls() == old(stream).calls() + r.1@,
        read_run(Seq::empty(), r.1@, r.0.data@, r.0.eof, r.0.failed),
{
    let mut data: Vec<u8> = Vec::new();
    let ghost first = stream.calls();
    let ghost mut done = Seq::<HostCall>::empty();
    proof {
        assert(first + done =~= first);
        assert(data@ =~= Seq::<u8>::empty());
        assert forall|rest: Seq<HostCall>, d: Seq<u8>, eof: bool, failed: bool| #[trigger]
            read_run(data@, rest, d, eof, failed) implies read_run(
            Seq::empty(),
            done + rest,
            d,
            eof,
            failed,
        ) by {
            assert(done + rest =~= rest);
        }
    }
    loop
        invariant
            data@.len() < READ_BUFFER_SIZE,
            first == old(stream).calls(),
            stream.calls() == first + done,
            reads_on(done, data@),
        decreases READ_BUFFER_SIZE - data@.len(),
    {
        let ghost sofar = data@;
        let got = stream.read(READ_BUFFER_SIZE - data.len());
        let ghost call = HostCall::Read {
            max: (READ_BUFFER_SIZE - sofar.len()) as nat,
            got: got@,
        };
        let ghost one = seq![call];
        proof {
            assert(stream.calls() =~= first + done.push(call));
            assert(done + one =~= done.push(call));
        }
        match got {
            HostRead::Data(mut d) => {
                let n: usize = d.len();
                let ghost part = d@;
                if n == 0 {
                    let eof = data.len() == 0;
                    assert(read_run(sofar, one, sofar, eof, false));
                    return (
                        ReadBatch { data, eof, failed: false },
                        Ghost(done.push(call)),
                    );
                }
                data.append(&mut d);
                assert(data@ =~= sofar + part);
                if data.len() >= READ_BUFFER_SIZE || (data.len() >= MAX_SEGMENT_SIZE && n
                    < MAX_SEGMENT_SIZE / 4) {
                    assert(read_run(sofar, one, data@, false, false));
                    return (
                        ReadBatch { data, eof: false, failed: false },
                        Ghost(done.push(call)),
                    );
                }
                proof {
                    reads_on_once(done, sofar, part);
                    done = done.push(call);
                }
            },
            HostRead::WouldBlock => {
                assert(read_run(sofar, one, sofar, false, false));
                return (ReadBatch { data, eof: false, failed: false }, Ghost(done.push(call)));
            },
            HostRead::Reset => {
                assert(read_run(sofar, one, sofar, false, true));
                return (ReadBatch { data, eof: false, failed: true }, Ghost(done.push(call)));
            },
            HostRead::Failed(_) => {
                assert(read_run(sofar, one, sofar, false, true));
                return (ReadBatch { data, eof: false, failed: true }, Ghost(done.push(call)));
            },
        }
    }
}

impl<H: TracedStream> TcpConnection<Established, H> {
    /// Cuts data from the host into packets and queues them, as far as there is room.
    pub fn queue_host_data(
        &mut self,
        data: &[u8],
        proxy_mac: MacAddr,
        vm_mac: MacAddr,
        now: Instant,
    )
        requires
            established_wf(old(self).state@),
        ensures
            final(self).state@ == queue_data(
                old(self).nat_key,
                old(self).state@,
                data@,
                proxy_mac,
                vm_mac,
                now,
            ),
            final(self).stream == old(self).stream,
            final(self).nat_key == old(self).nat_key,
            final(self).state@.write_buffer == old(self).state@.write_buffer,
            established_wf(final(self).state@),
    {
        let ghost before = *self;
        let ghost key = self.nat_key;
        let n: usize = data.len();
        let mut done: usize = 0;
        assert(data@.skip(0) =~= data@);
        while done < n
            invariant
                before == *old(self),
                key == before.nat_key,
                done <= n,
                n == data@.len(),
                self.stream == before.stream,
                self.nat_key == before.nat_key,
                self.state@.write_buffer == before.state@.write_buffer,
                established_wf(self.state@),
                queue_data(key, self.state@, data@.skip(done as int), proxy_mac, vm_mac, now)
                    == queue_data(key, before.state@, data@, proxy_mac, vm_mac, now),
            decreases n - done,
        {
            let ghost u = self.state@;
            let ghost rest = data@.skip(done as int);
            if self.state.to_vm_buffer.len() >= TCP_BUFFER_SIZE
                || self.state.in_flight_packets.len() >= MAX_IN_FLIGHT_PACKETS
                || !self.state.has_window_room((MAX_SEGMENT_SIZE / 2) as u32) {
                self.state.host_reads_paused = true;
                assert(self.state@ =~= (EstablishedView { host_reads_paused: true, ..u }));
                return;
            }
            let end: usize = if n - done < MAX_SEGMENT_SIZE {
                n
            } else {
                done + MAX_SEGMENT_SIZE
            };
            let chunk: &[u8] = vstd::slice::slice_subrange(data, done, end);
            assert(chunk@ =~= first_chunk(rest));
            let seq: u32 = self.state.tx_seq;
            let len: u32 = (end - done) as u32;
            let packet = build_tcp_packet(
                &mut self.packet_buf,
                flip_key(self.nat_key),
                seq,
                self.state.rx_seq,
                Some(chunk),
                Some(PSH_ACK),
                proxy_mac,
                vm_mac,
            );
            self.state.in_flight_packets.push_back((seq, packet.clone(), now, len));
            self.state.to_vm_buffer.push_back(packet);
            self.state.tx_seq = seq.wrapping_add(len);
            proof {
                let want = queue_chunk(key, u, chunk@, proxy_mac, vm_mac, now);
                assert(self.state@.to_vm_buffer =~= want.to_vm_buffer);
                assert(self.state@.in_flight =~= want.in_flight);
                assert(self.state@ =~= want);
                assert(rest.skip(chunk@.len() as int) =~= data@.skip(end as int));
            }
            done = end;
        }
    }

    /// Writes what waits for the host until it takes no more. Says how much it took and
    /// whether it turned out to be closed.
    fn write_to_host(&mut self) -> (r: (usize, bool, Ghost<Seq<HostCall>>))
        requires
            established_wf(old(self).state@),
        ensures
            final(self).state@ == host_took(old(self).state@, r.0 as nat),
            final(self).nat_key == old(self).nat_key,
            final(self).stream.calls() == old(self).stream.calls() + r.2@,
            exists|end: WriteEnd| #[trigger]
                write_run(old(self).state@.write_buffer, r.2@, r.0 as int, end) && r.1
                    == shows_closed(end),
            established_wf(final(self).state@),
    {
        let ghost v = self.state@;
        let ghost q = v.write_buffer;
        let (written, end, Ghost(calls)) = write_pending(
            &mut self.stream,
            &mut self.state.write_buffer,
        );
        proof {
            write_run_sends(q, calls, written as int, end);
            flat_drop_bytes(q, written as nat);
        }
        self.state.write_buffer_size = self.state.write_buffer_size - written;
        if self.state.vm_reads_paused && self.state.write_buffer_size
            < HOST_WRITE_BUFFER_LOW_WATER {
            self.state.vm_reads_paused = false;
        }
        assert(self.state@ =~= host_took(v, written as nat));
        let closed = end == WriteEnd::Closed || end == WriteEnd::Failed;
        let r = (written, closed, Ghost(calls));
        assert(write_run(old(self).state@.write_buffer, r.2@, r.0 as int, end));
        r
    }

    /// Probes the machine's window where that is due.
    fn probe_window(
        &mut self,
        actions: &mut Vec<ProxyAction>,
        proxy_mac: MacAddr,
        vm_mac: MacAddr,
        now: Instant,
    )
        requires
            established_wf(old(self).state@),
        ensures
            ({
                let (next, steps) = probe_window(
                    old(self).nat_key,
                    old(self).state@,
                    proxy_mac,
                    vm_mac,
                    now,
                );
                &&& final(self).state@ == next
                &&& steps_of(final(actions)@) == steps_of(old(actions)@) + steps
            }),
            final(self).nat_key == old(self).nat_key,
            final(self).stream == old(self).stream,
            established_wf(final(self).state@),
    {
        let ghost want = probe_window(self.nat_key, self.state@, proxy_mac, vm_mac, now);
        let due = match self.state.last_zero_window_probe {
            None => true,
            Some(last) => now.saturating_sub(last) >= ZERO_WINDOW_PROBE_INTERVAL,
        };
        if self.state.host_reads_paused && !self.state.has_window_room(
            (MAX_SEGMENT_SIZE * 2) as u32,
        ) && due {
            let probe: [u8; 1] = [0];
            let packet = build_tcp_packet(
                &mut self.packet_buf,
                flip_key(self.nat_key),
                self.state.tx_seq,
                self.state.rx_seq,
                Some(probe.as_slice()),
                Some(PSH_ACK),
                proxy_mac,
                vm_mac,
            );
            assert(probe@ =~= seq![0u8]);
            let send = ProxyAction::SendControlPacket(packet);
            proof {
                steps_of_push(actions@, send);
            }
            actions.push(send);
            self.state.last_zero_window_probe = Some(now);
            self.state.host_reads_paused = false;
        }
        assert(self.state@ =~= want.0);
        assert(steps_of(actions@) =~= steps_of(old(actions)@) + want.1);
    }
}

impl Established {
    /// Takes the next packet for the machine off the queue and notes that it was sent.
    pub fn pop_packet(&mut self, now: Instant) -> (r: Option<Bytes>)
        requires
            old(self)@.to_vm_buffer.len() > 0 ==> old(self)@.to_vm_buffer[0].len() >= 14,
        ensures
            r is Some <==> old(self)@.to_vm_buffer.len() > 0,
            r matches Some(p) ==> bytes_view(p) == old(self)@.to_vm_buffer[0],
            final(self)@ == established_popped(old(self)@, now),
    {
        let ghost v = self@;
        match self.to_vm_buffer.pop_front() {
            None => None,
            Some(packet) => {
                assert(self@.to_vm_buffer =~= v.to_vm_buffer.skip(1));
                let frame: &[u8] = &packet;
                let body: &[u8] = vstd::slice::slice_subrange(frame, ETHERNET_HEADER, frame.len());
                assert(body@ =~= v.to_vm_buffer[0].skip(14));
                if let Some(ip) = IpPacket::new(body) {
                    if let Some(tcp) = parse_tcp(ip.payload()) {
                        self.touch(tcp.sequence, now);
                    }
                }
                assert(self@ =~= established_popped(v, now));
                Some(packet)
            },
        }
    }

    /// Notes that the packet in flight that starts at `seq` was sent just now.
    fn touch(&mut self, seq: u32, now: Instant)
        ensures
            final(self)@ == (EstablishedView {
                in_flight: touch(old(self)@.in_flight, seq, now),
                ..old(self)@
            }),
    {
        let ghost v = self@;
        let ghost q = v.in_flight;
        let mut i: usize = 0;
        while i < self.in_flight_packets.len()
            invariant
                *self == *old(self),
                v == self@,
                q == v.in_flight,
                i <= q.len(),
                first_at(q, seq, 0) == first_at(q, seq, i as int),
            decreases q.len() - i,
        {
            if self.in_flight_packets[i].0 == seq {
                let ghost all = self.in_flight_packets@;
                let p = self.in_flight_packets.remove(i).unwrap();
                self.in_flight_packets.insert(i, (p.0, p.1, now, p.3));
                proof {
                    assert(self.in_flight_packets@ =~= all.update(
                        i as int,
                        (p.0, p.1, now, p.3),
                    ));
                    assert(self@.in_flight =~= touch(q, seq, now));
                    assert(self@ =~= (EstablishedView { in_flight: touch(q, seq, now), ..v }));
                }
                return;
            }
            i = i + 1;
        }
        assert(self@ =~= (EstablishedView { in_flight: touch(q, seq, now), ..v }));
    }

    /// Queues the oldest packet in flight again when it is overdue, and says whether it was.
    pub fn retransmit_overdue(&mut self, rto: u64, now: Instant) -> (r: bool)
        ensures
            r == overdue(StateView::Established(old(self)@), rto, now),
            StateView::Established(final(self)@) == retransmitted(
                StateView::Established(old(self)@),
                rto,
                now,
            ),
    {
        if self.in_flight_packets.len() > 0 {
            let sent_at: Instant = self.in_flight_packets[0].2;
            if now.saturating_sub(sent_at) > rto {
                self.resend(0, now);
                return true;
            }
        }
        false
    }
}

} // verus!
