//! A simplified TCP connection towards the virtual machine.
//!
//! The host's own TCP stack takes care of retransmission, congestion and reliability. What is
//! left here is buffering between the two sides, building packets for the machine and keeping
//! within the window that the machine advertises.
use bytes::{Bytes, BytesMut};
use std::collections::VecDeque;
use vstd::prelude::*;
use vstd::string::StringExecFns;

use crate::addr::{flip_key, Interest, MacAddr, NatKey};
use crate::buffer::{
    bytes_view, drop_bytes, drop_bytes_twice, flat, flat_drop_bytes, views,
};
use crate::chance::random_u32;
use crate::host::{
    write_pending, write_run, write_run_sends, HostCall, HostRead, TracedStream, ReadView, WriteEnd,
};
use crate::packet_utils::build_tcp_packet;
use crate::seqnum::{length32, low32};
use crate::tcp_fsm::model::{
    action_view, first_chunk, host_did, idle_io, step_of, steps_of, to_vm, write_twice, ActionView,
    HostIo, SegmentView, StateView, Step, READ_BUFFER_SIZE,
};
use crate::tcp_fsm::{ProxyAction, MAX_SEGMENT_SIZE};
use crate::text::{append_bool, append_key, append_number, bool_text, decimal, key_text};
use crate::wire::{TcpSegment, ACK, FIN, PSH_ACK, RST, SYN_ACK};

verus! {

/// How many packets are queued for the machine before reading from the host stops.
pub const SIMPLE_BUFFER_SIZE: usize = 128;

/// How many bytes may be sent to the machine without an acknowledgement.
pub const MAX_INFLIGHT_BYTES: usize = 65536;

#[derive(Debug, Clone, Copy, PartialEq, Eq, Structural)]
pub enum SimpleConnectionState {
    /// The host is being connected to.
    Connecting,
    /// Data flows both ways.
    Established,
    /// The connection is over.
    Closed,
}

pub struct SimpleTcpConnection<H> {
    pub stream: H,
    pub nat_key: NatKey,
    pub state: SimpleConnectionState,
    /// Packets with data from the host to be sent to the machine.
    pub to_vm_buffer: VecDeque<Bytes>,
    /// Data from the machine to be written to the host.
    pub to_host_buffer: VecDeque<Bytes>,
    /// Whether reading from the host is allowed by what is in flight.
    pub host_can_read: bool,
    /// Whether reading from the host is allowed by what the machine can take.
    pub vm_can_read: bool,
    pub is_closed: bool,
    /// The highest sequence number that the machine has acknowledged.
    pub vm_acked_seq: u32,
    pub max_inflight_bytes: usize,
    /// The window that the machine advertises.
    pub vm_window_size: u32,
    pub packet_buf: BytesMut,
    pub vm_initial_seq: u32,
    pub host_initial_seq: u32,
    pub last_vm_seq: u32,
    pub last_host_seq: u32,
    pub window_just_opened: bool,
}

/// A simple connection.
#[verifier::ext_equal]
pub struct SimpleView {
    pub state: SimpleConnectionState,
    pub to_vm_buffer: Seq<Seq<u8>>,
    pub to_host_buffer: Seq<Seq<u8>>,
    pub host_can_read: bool,
    pub vm_can_read: bool,
    pub is_closed: bool,
    pub vm_acked_seq: u32,
    pub max_inflight_bytes: usize,
    pub vm_window_size: u32,
    pub vm_initial_seq: u32,
    pub host_initial_seq: u32,
    pub last_vm_seq: u32,
    pub last_host_seq: u32,
    pub window_just_opened: bool,
}

impl<H> View for SimpleTcpConnection<H> {
    type V = SimpleView;

    open spec fn view(&self) -> SimpleView {
        SimpleView {
            state: self.state,
            to_vm_buffer: views(self.to_vm_buffer@),
            to_host_buffer: views(self.to_host_buffer@),
            host_can_read: self.host_can_read,
            vm_can_read: self.vm_can_read,
            is_closed: self.is_closed,
            vm_acked_seq: self.vm_acked_seq,
            max_inflight_bytes: self.max_inflight_bytes,
            vm_window_size: self.vm_window_size,
            vm_initial_seq: self.vm_initial_seq,
            host_initial_seq: self.host_initial_seq,
            last_vm_seq: self.last_vm_seq,
            last_host_seq: self.last_host_seq,
            window_just_opened: self.window_just_opened,
        }
    }
}

/// A connection for which the host is about to be connected to.
pub open spec fn simple_start(vm_initial_seq: u32, host_initial_seq: u32) -> SimpleView {
    SimpleView {
        state: SimpleConnectionState::Connecting,
        to_vm_buffer: Seq::empty(),
        to_host_buffer: Seq::empty(),
        host_can_read: false,
        vm_can_read: true,
        is_closed: false,
        vm_acked_seq: host_initial_seq,
        max_inflight_bytes: MAX_INFLIGHT_BYTES,
        vm_window_size: 65535,
        vm_initial_seq,
        host_initial_seq,
        last_vm_seq: vm_initial_seq,
        last_host_seq: 0,
        window_just_opened: false,
    }
}

/// No empty chunk ever waits for the host, and what waits fits in memory.
pub open spec fn simple_wf(v: SimpleView) -> bool {
    &&& forall|i: int|
        0 <= i < v.to_host_buffer.len() ==> (#[trigger] v.to_host_buffer[i]).len() > 0
    &&& flat(v.to_host_buffer).len() <= usize::MAX
}

/// Whether a connection can take a packet with this payload: what it buffers still fits in
/// memory.
pub open spec fn simple_takes(v: SimpleView, payload: Seq<u8>) -> bool {
    simple_wf(v) && flat(v.to_host_buffer).len() + payload.len() <= usize::MAX
}

// --- Packets from the machine ---

/// How many bytes were sent to the machine and not acknowledged.
pub open spec fn in_flight(v: SimpleView) -> u32 {
    v.last_host_seq.wrapping_sub(v.vm_acked_seq)
}

/// Whether what is in flight fits in the window that the machine advertises.
pub open spec fn fits_window(v: SimpleView) -> bool {
    v.vm_window_size > 0 && in_flight(v) < v.vm_window_size
}

/// The machine can take data when what is in flight fits in its window. That it can again is
/// noted.
pub open spec fn check_window(v: SimpleView) -> SimpleView {
    SimpleView {
        vm_can_read: fits_window(v),
        window_just_opened: v.window_just_opened || (fits_window(v) && !v.vm_can_read),
        ..v
    }
}

/// The host can be read from again once little enough is in flight. That it can again is
/// noted.
pub open spec fn check_in_flight(v: SimpleView) -> SimpleView {
    let opened = in_flight(v) < low32(v.max_inflight_bytes as nat) && !v.host_can_read;
    SimpleView {
        host_can_read: v.host_can_read || opened,
        window_just_opened: v.window_just_opened || opened,
        ..v
    }
}

/// What an acknowledgement does: it updates the window and, unless it is of older data, what
/// can be sent within it.
pub open spec fn simple_ack(v: SimpleView, ack: u32, window: u16) -> SimpleView {
    let updated = SimpleView { vm_window_size: window as u32, ..v };
    if ack > v.vm_acked_seq {
        check_in_flight(check_window(SimpleView { vm_acked_seq: ack, ..updated }))
    } else if ack == v.vm_acked_seq {
        check_window(updated)
    } else {
        updated
    }
}

/// The connection is over.
pub open spec fn simple_closed(v: SimpleView) -> SimpleView {
    SimpleView { is_closed: true, state: SimpleConnectionState::Closed, ..v }
}

/// A packet from the machine.
pub open spec fn simple_packet(
    key: NatKey,
    v: SimpleView,
    t: SegmentView,
    proxy_mac: MacAddr,
    vm_mac: MacAddr,
) -> (SimpleView, ActionView) {
    if t.flags & FIN != 0 || t.flags & RST != 0 {
        (simple_closed(v), ActionView::One(Step::ScheduleRemoval))
    } else if v.state != SimpleConnectionState::Established {
        (v, ActionView::One(Step::Nothing))
    } else if t.flags & ACK != 0 && t.payload.len() == 0 && t.acknowledgement
        == v.host_initial_seq.wrapping_add(1) {
        (
            SimpleView { last_vm_seq: t.sequence, vm_acked_seq: t.acknowledgement, ..v },
            ActionView::One(Step::Nothing),
        )
    } else {
        let end = t.sequence.wrapping_add(low32(t.payload.len()));
        let buffered = if t.payload.len() > 0 {
            SimpleView {
                to_host_buffer: v.to_host_buffer.push(t.payload),
                last_vm_seq: end,
                ..v
            }
        } else {
            v
        };
        let acked = if t.flags & ACK != 0 {
            simple_ack(buffered, t.acknowledgement, t.window)
        } else {
            buffered
        };
        if t.payload.len() > 0 {
            (
                acked,
                ActionView::One(
                    Step::Send(
                        to_vm(
                            key,
                            acked.last_host_seq,
                            end,
                            Seq::empty(),
                            ACK,
                            proxy_mac,
                            vm_mac,
                        ),
                    ),
                ),
            )
        } else {
            (acked, ActionView::One(Step::Nothing))
        }
    }
}

// --- Readiness events of the host ---

/// Whether a readiness event has data read from the host.
pub open spec fn simple_will_read(v: SimpleView, is_readable: bool) -> bool {
    &&& v.state == SimpleConnectionState::Established
    &&& is_readable && v.host_can_read && v.vm_can_read
    &&& in_flight(v) < low32(v.max_inflight_bytes as nat)
    &&& v.vm_window_size != 0
}

/// Cuts data from the host into packets and queues them in order, for as long as the queue is
/// not full and what is in flight stays within both limits. What is left of the data is not
/// queued.
pub open spec fn simple_queue(
    key: NatKey,
    v: SimpleView,
    data: Seq<u8>,
    proxy_mac: MacAddr,
    vm_mac: MacAddr,
) -> SimpleView
    decreases data.len(),
{
    let chunk = first_chunk(data);
    let end = v.last_host_seq.wrapping_add(chunk.len() as u32);
    let future = end.wrapping_sub(v.vm_acked_seq);
    if data.len() == 0 {
        v
    } else if v.to_vm_buffer.len() >= SIMPLE_BUFFER_SIZE {
        SimpleView { vm_can_read: false, ..v }
    } else if future > low32(v.max_inflight_bytes as nat) {
        SimpleView { host_can_read: false, ..v }
    } else if future > v.vm_window_size {
        SimpleView { vm_can_read: false, ..v }
    } else {
        let packet = to_vm(
            key,
            v.last_host_seq,
            v.last_vm_seq,
            chunk,
            PSH_ACK,
            proxy_mac,
            vm_mac,
        );
        simple_queue(
            key,
            SimpleView { to_vm_buffer: v.to_vm_buffer.push(packet), last_host_seq: end, ..v },
            data.skip(chunk.len() as int),
            proxy_mac,
            vm_mac,
        )
    }
}

/// Reading from the host: a limit that is already reached stops it, the end of the stream or
/// a failure ends the connection, and data is queued.
pub open spec fn simple_read(
    key: NatKey,
    v: SimpleView,
    io: HostIo,
    proxy_mac: MacAddr,
    vm_mac: MacAddr,
) -> SimpleView {
    if in_flight(v) >= low32(v.max_inflight_bytes as nat) {
        SimpleView { host_can_read: false, ..v }
    } else if v.vm_window_size == 0 {
        SimpleView { vm_can_read: false, ..v }
    } else if io.eof || io.failed {
        simple_closed(v)
    } else {
        simple_queue(key, v, io.data, proxy_mac, vm_mac)
    }
}

/// Writing to the host: it took the first `n` bytes that wait for it. Once none are left it
/// can be read from again.
pub open spec fn simple_wrote(v: SimpleView, n: nat) -> SimpleView {
    let left = drop_bytes(v.to_host_buffer, n);
    SimpleView { to_host_buffer: left, host_can_read: v.host_can_read || left.len() == 0, ..v }
}

/// The readiness events that suit the state, if any do.
pub open spec fn simple_interest(v: SimpleView) -> Option<Interest> {
    let reads = v.host_can_read && v.vm_can_read && v.vm_window_size > 0;
    let writes = v.to_host_buffer.len() > 0 || v.to_vm_buffer.len() > 0;
    if reads && writes {
        Some(Interest::Both)
    } else if reads {
        Some(Interest::Readable)
    } else if writes {
        Some(Interest::Writable)
    } else {
        None
    }
}

/// The state once the host has been read from and written to.
pub open spec fn simple_after_io(
    key: NatKey,
    v: SimpleView,
    is_readable: bool,
    is_writable: bool,
    io: HostIo,
    proxy_mac: MacAddr,
    vm_mac: MacAddr,
) -> SimpleView {
    let read = if v.state == SimpleConnectionState::Established && is_readable && v.host_can_read
        && v.vm_can_read {
        simple_read(key, v, io, proxy_mac, vm_mac)
    } else {
        v
    };
    if is_writable && v.to_host_buffer.len() > 0 {
        simple_wrote(read, io.written)
    } else {
        read
    }
}

/// A readiness event of the host.
pub open spec fn simple_event(
    key: NatKey,
    v: SimpleView,
    is_readable: bool,
    is_writable: bool,
    io: HostIo,
    proxy_mac: MacAddr,
    vm_mac: MacAddr,
) -> (SimpleView, ActionView) {
    if v.state == SimpleConnectionState::Connecting {
        if is_writable {
            (
                SimpleView {
                    state: SimpleConnectionState::Established,
                    host_can_read: true,
                    last_host_seq: v.host_initial_seq.wrapping_add(1),
                    vm_acked_seq: v.host_initial_seq,
                    ..v
                },
                ActionView::One(
                    Step::Send(
                        to_vm(
                            key,
                            v.host_initial_seq,
                            v.vm_initial_seq.wrapping_add(1),
                            Seq::empty(),
                            SYN_ACK,
                            proxy_mac,
                            vm_mac,
                        ),
                    ),
                ),
            )
        } else {
            (v, ActionView::One(Step::Nothing))
        }
    } else {
        let done = simple_after_io(key, v, is_readable, is_writable, io, proxy_mac, vm_mac);
        let last = match simple_interest(done) {
            Some(i) => Step::Reregister(i),
            None => Step::Deregister,
        };
        if v.state == SimpleConnectionState::Established && done.state
            == SimpleConnectionState::Closed {
            (done, ActionView::Many(seq![Step::ScheduleRemoval, last]))
        } else {
            (done, ActionView::One(last))
        }
    }
}

// --- The connection ---

proof fn drop_bytes_keeps_full_chunks(q: Seq<Seq<u8>>, n: nat)
    requires
        forall|i: int| 0 <= i < q.len() ==> (#[trigger] q[i]).len() > 0,
    ensures
        forall|i: int|
            0 <= i < drop_bytes(q, n).len() ==> (#[trigger] drop_bytes(q, n)[i]).len() > 0,
    decreases q.len(),
{
    let r = drop_bytes(q, n);
    if q.len() == 0 || n == 0 {
        assert(r == q);
        assert forall|i: int| 0 <= i < r.len() implies (#[trigger] r[i]).len() > 0 by {
            assert(q[i].len() > 0);
        }
    } else if q[0].len() <= n {
        assert forall|i: int| 0 <= i < q.skip(1).len() implies (#[trigger] q.skip(1)[i]).len()
            > 0 by {
            assert(q.skip(1)[i] == q[i + 1]);
        }
        drop_bytes_keeps_full_chunks(q.skip(1), (n - q[0].len()) as nat);
        assert(r == drop_bytes(q.skip(1), (n - q[0].len()) as nat));
        assert forall|i: int| 0 <= i < r.len() implies (#[trigger] r[i]).len() > 0 by {}
    } else {
        let cut = q.update(0, q[0].skip(n as int));
        assert(drop_bytes(q, n) == cut);
        assert forall|i: int| 0 <= i < cut.len() implies (#[trigger] cut[i]).len() > 0 by {
            if i > 0 {
                assert(cut[i] == q[i]);
            }
        }
    }
}

impl<H: TracedStream> SimpleTcpConnection<H> {
    /// Starts a connection over a stream to the host that is being connected, with an initial
    /// sequence number of its own.
    pub fn new(stream: H, nat_key: NatKey, vm_initial_seq: u32) -> (r: Self)
        ensures
            r.stream == stream,
            r.nat_key == nat_key,
            r@ == simple_start(vm_initial_seq, r.host_initial_seq),
    {
        Self::with_initial_seq(stream, nat_key, vm_initial_seq, random_u32())
    }

    /// Starts a connection with a given initial sequence number.
    pub fn with_initial_seq(
        stream: H,
        nat_key: NatKey,
        vm_initial_seq: u32,
        host_initial_seq: u32,
    ) -> (r: Self)
        ensures
            r.stream == stream,
            r.nat_key == nat_key,
            r@ == simple_start(vm_initial_seq, host_initial_seq),
    {
        let r = SimpleTcpConnection {
            stream,
            nat_key,
            state: SimpleConnectionState::Connecting,
            to_vm_buffer: VecDeque::new(),
            to_host_buffer: VecDeque::new(),
            host_can_read: false,
            vm_can_read: true,
            is_closed: false,
            vm_acked_seq: host_initial_seq,
            max_inflight_bytes: MAX_INFLIGHT_BYTES,
            vm_window_size: 65535,
            packet_buf: BytesMut::with_capacity(2048),
            vm_initial_seq,
            host_initial_seq,
            last_vm_seq: vm_initial_seq,
            last_host_seq: 0,
            window_just_opened: false,
        };
        assert(r@ =~= simple_start(vm_initial_seq, host_initial_seq));
        r
    }

    /// Takes an acknowledgement.
    fn take_ack(&mut self, ack: u32, window: u16)
        ensures
            final(self)@ == simple_ack(old(self)@, ack, window),
            final(self).stream == old(self).stream,
            final(self).nat_key == old(self).nat_key,
    {
        self.vm_window_size = window as u32;
        let advanced = ack > self.vm_acked_seq;
        if advanced {
            self.vm_acked_seq = ack;
        }
        if ack == self.vm_acked_seq {
            let inflight: u32 = self.last_host_seq.wrapping_sub(self.vm_acked_seq);
            if self.vm_window_size > 0 && inflight < self.vm_window_size {
                if !self.vm_can_read {
                    self.window_just_opened = true;
                }
                self.vm_can_read = true;
            } else {
                self.vm_can_read = false;
            }
            if advanced && inflight < length32(self.max_inflight_bytes) && !self.host_can_read {
                self.host_can_read = true;
                self.window_just_opened = true;
            }
        }
        assert(self@ =~= simple_ack(old(self)@, ack, window));
    }

    /// Handles a packet from the machine.
    pub fn handle_vm_packet(
        &mut self,
        tcp_packet: &TcpSegment,
        proxy_mac: MacAddr,
        vm_mac: MacAddr,
    ) -> (r: ProxyAction)
        requires
            simple_takes(old(self)@, tcp_packet@.payload),
        ensures
            (final(self)@, action_view(r)) == simple_packet(
                old(self).nat_key,
                old(self)@,
                tcp_packet@,
                proxy_mac,
                vm_mac,
            ),
            final(self).stream == old(self).stream,
            final(self).nat_key == old(self).nat_key,
            simple_wf(final(self)@),
    {
        let flags: u8 = tcp_packet.flags;
        let ghost v = self@;
        let ghost want = simple_packet(self.nat_key, v, tcp_packet@, proxy_mac, vm_mac);
        if (flags & FIN) != 0 || (flags & RST) != 0 {
            self.is_closed = true;
            self.state = SimpleConnectionState::Closed;
            assert(self@ =~= want.0);
            return ProxyAction::ScheduleRemoval;
        }
        if self.state != SimpleConnectionState::Established {
            return ProxyAction::DoNothing;
        }
        let has_payload = tcp_packet.payload.len() > 0;
        if (flags & ACK) != 0 && !has_payload && tcp_packet.acknowledgement
            == self.host_initial_seq.wrapping_add(1) {
            self.last_vm_seq = tcp_packet.sequence;
            self.vm_acked_seq = tcp_packet.acknowledgement;
            assert(self@ =~= want.0);
            return ProxyAction::DoNothing;
        }
        let end: u32 = tcp_packet.sequence.wrapping_add(length32(tcp_packet.payload.len()));
        if has_payload {
            let data = Bytes::copy_from_slice(tcp_packet.payload.as_slice());
            proof {
                crate::buffer::flat_push(v.to_host_buffer, tcp_packet.payload@);
                assert(views(self.to_host_buffer@.push(data)) =~= v.to_host_buffer.push(
                    tcp_packet.payload@,
                ));
            }
            self.to_host_buffer.push_back(data);
            self.last_vm_seq = end;
            assert(self@ =~= (SimpleView {
                to_host_buffer: v.to_host_buffer.push(tcp_packet.payload@),
                last_vm_seq: end,
                ..v
            }));
        }
        if (flags & ACK) != 0 {
            self.take_ack(tcp_packet.acknowledgement, tcp_packet.window);
        }
        assert(self@ =~= want.0);
        if has_payload {
            self.send_ack_to_vm(tcp_packet, proxy_mac, vm_mac)
        } else {
            ProxyAction::DoNothing
        }
    }

    /// Acknowledges what a packet carried.
    fn send_ack_to_vm(
        &mut self,
        original_packet: &TcpSegment,
        proxy_mac: MacAddr,
        vm_mac: MacAddr,
    ) -> (r: ProxyAction)
        ensures
            action_view(r) == ActionView::One(
                Step::Send(
                    to_vm(
                        old(self).nat_key,
                        old(self)@.last_host_seq,
                        original_packet@.sequence.wrapping_add(
                            low32(original_packet@.payload.len()),
                        ),
                        Seq::empty(),
                        ACK,
                        proxy_mac,
                        vm_mac,
                    ),
                ),
            ),
            final(self)@ == old(self)@,
            final(self).stream == old(self).stream,
            final(self).nat_key == old(self).nat_key,
    {
        let ack_seq: u32 = original_packet.sequence.wrapping_add(
            length32(original_packet.payload.len()),
        );
        let ack_packet = build_tcp_packet(
            &mut self.packet_buf,
            flip_key(self.nat_key),
            self.last_host_seq,
            ack_seq,
            None,
            Some(ACK),
            proxy_mac,
            vm_mac,
        );
        ProxyAction::SendControlPacket(ack_packet)
    }

    /// Cuts data from the host into packets and queues them, as far as the limits allow.
    pub fn queue_host_data(&mut self, data: &[u8], proxy_mac: MacAddr, vm_mac: MacAddr)
        requires
            simple_wf(old(self)@),
        ensures
            final(self)@ == simple_queue(
                old(self).nat_key,
                old(self)@,
                data@,
                proxy_mac,
                vm_mac,
            ),
            final(self).stream == old(self).stream,
            final(self).nat_key == old(self).nat_key,
            final(self)@.to_host_buffer == old(self)@.to_host_buffer,
            final(self)@.state == old(self)@.state,
    {
        let ghost before = *self;
        let n: usize = data.len();
        let mut done: usize = 0;
        assert(data@.skip(0) =~= data@);
        while done < n
            invariant
                before == *old(self),
                done <= n,
                n == data@.len(),
                self.stream == before.stream,
                self.nat_key == before.nat_key,
                self@.to_host_buffer == before@.to_host_buffer,
                self@.state == before@.state,
                simple_queue(self.nat_key, self@, data@.skip(done as int), proxy_mac, vm_mac)
                    == simple_queue(before.nat_key, before@, data@, proxy_mac, vm_mac),
            decreases n - done,
        {
            let ghost u = self@;
            let ghost rest = data@.skip(done as int);
            let end: usize = if n - done < MAX_SEGMENT_SIZE {
                n
            } else {
                done + MAX_SEGMENT_SIZE
            };
            let chunk: &[u8] = vstd::slice::slice_subrange(data, done, end);
            assert(chunk@ =~= first_chunk(rest));
            let next: u32 = self.last_host_seq.wrapping_add((end - done) as u32);
            let future: u32 = next.wrapping_sub(self.vm_acked_seq);
            if self.to_vm_buffer.len() >= SIMPLE_BUFFER_SIZE {
                self.vm_can_read = false;
                assert(self@ =~= simple_queue(self.nat_key, u, rest, proxy_mac, vm_mac));
                return;
            }
            if future > length32(self.max_inflight_bytes) {
                self.host_can_read = false;
                assert(self@ =~= simple_queue(self.nat_key, u, rest, proxy_mac, vm_mac));
                return;
            }
            if future > self.vm_window_size {
                self.vm_can_read = false;
                assert(self@ =~= simple_queue(self.nat_key, u, rest, proxy_mac, vm_mac));
                return;
            }
            let packet = build_tcp_packet(
                &mut self.packet_buf,
                flip_key(self.nat_key),
                self.last_host_seq,
                self.last_vm_seq,
                Some(chunk),
                Some(PSH_ACK),
                proxy_mac,
                vm_mac,
            );
            self.to_vm_buffer.push_back(packet);
            self.last_host_seq = next;
            proof {
                assert(self@.to_vm_buffer =~= u.to_vm_buffer.push(bytes_view(packet)));
                assert(self@ =~= (SimpleView {
                    to_vm_buffer: u.to_vm_buffer.push(bytes_view(packet)),
                    last_host_seq: next,
                    ..u
                }));
                assert(rest.skip(chunk@.len() as int) =~= data@.skip(end as int));
            }
            done = end;
        }
    }

    /// Writes what waits for the host until it takes no more, and says how much it took.
    fn write_to_host(&mut self) -> (r: (usize, Ghost<WriteEnd>, Ghost<Seq<HostCall>>))
        requires
            simple_wf(old(self)@),
        ensures
            r.0 <= flat(old(self)@.to_host_buffer).len(),
            write_run(old(self)@.to_host_buffer, r.2@, r.0 as int, r.1@),
            final(self)@ == simple_wrote(old(self)@, r.0 as nat),
            final(self).nat_key == old(self).nat_key,
            final(self).stream.calls() == old(self).stream.calls() + r.2@,
            simple_wf(final(self)@),
    {
        let ghost before = *self;
        let ghost q = before@.to_host_buffer;
        let (written, end, Ghost(calls)) = write_pending(
            &mut self.stream,
            &mut self.to_host_buffer,
        );
        proof {
            write_run_sends(q, calls, written as int, end);
            flat_drop_bytes(q, written as nat);
            drop_bytes_keeps_full_chunks(q, written as nat);
        }
        if self.to_host_buffer.len() == 0 {
            self.host_can_read = true;
        }
        assert(self@ =~= simple_wrote(before@, written as nat));
        (written, Ghost(end), Ghost(calls))
    }
}

/// A host that was read from once.
spec fn one_read(got: ReadView) -> HostIo {
    HostIo {
        data: match got {
            ReadView::Data(d) => d,
            _ => Seq::empty(),
        },
        eof: got matches ReadView::Data(d) && d.len() == 0,
        failed: got is Reset || got is Failed,
        reads: seq![HostCall::Read { max: READ_BUFFER_SIZE as nat, got }],
        ..idle_io()
    }
}

impl<H: TracedStream> SimpleTcpConnection<H> {
    /// Reads from the host and queues what came, unless a limit is already reached. Says
    /// whether the stream ended or failed, and what it did.
    fn read_from_host(&mut self, proxy_mac: MacAddr, vm_mac: MacAddr) -> (r: (
        bool,
        Ghost<HostIo>,
    ))
        requires
            simple_wf(old(self)@),
            old(self).state == SimpleConnectionState::Established,
            old(self).host_can_read && old(self).vm_can_read,
        ensures
            final(self)@ == (if r.0 {
                old(self)@
            } else {
                simple_read(old(self).nat_key, old(self)@, r.1@, proxy_mac, vm_mac)
            }),
            r.0 == (simple_will_read(old(self)@, true) && (r.1@.eof || r.1@.failed)),
            host_did(
                old(self).stream,
                final(self).stream,
                StateView::Simple(old(self)@),
                true,
                false,
                r.1@,
            ),
            final(self).nat_key == old(self).nat_key,
            final(self)@.to_host_buffer == old(self)@.to_host_buffer,
            final(self)@.state == old(self)@.state,
    {
        let ghost before = *self;
        proof {
            let none = Seq::<HostCall>::empty();
            assert(before.stream.calls() + (none + none + none) =~= before.stream.calls());
        }
        let inflight: u32 = self.last_host_seq.wrapping_sub(self.vm_acked_seq);
        if inflight >= length32(self.max_inflight_bytes) {
            self.host_can_read = false;
            assert(self@ =~= (SimpleView { host_can_read: false, ..before@ }));
            return (false, Ghost(idle_io()));
        }
        if self.vm_window_size == 0 {
            self.vm_can_read = false;
            assert(self@ =~= (SimpleView { vm_can_read: false, ..before@ }));
            return (false, Ghost(idle_io()));
        }
        let got = self.stream.read(READ_BUFFER_SIZE);
        proof {
            let call = HostCall::Read { max: READ_BUFFER_SIZE as nat, got: got@ };
            let none = Seq::<HostCall>::empty();
            assert(seq![call] + none + none =~= seq![call]);
            assert(self.stream.calls() =~= before.stream.calls() + (seq![call] + none + none));
        }
        match got {
            HostRead::Data(d) => {
                let ghost io = one_read(HostRead::Data(d)@);
                if d.len() == 0 {
                    return (true, Ghost(io));
                }
                self.queue_host_data(d.as_slice(), proxy_mac, vm_mac);
                (false, Ghost(io))
            },
            HostRead::WouldBlock => (false, Ghost(one_read(ReadView::WouldBlock))),
            HostRead::Reset => (true, Ghost(one_read(ReadView::Reset))),
            HostRead::Failed(e) => (true, Ghost(one_read(ReadView::Failed(e)))),
        }
    }

    /// Handles a readiness event of the host: reads, writes and says which events to wait for
    /// next.
    pub fn handle_host_event(
        &mut self,
        is_readable: bool,
        is_writable: bool,
        proxy_mac: MacAddr,
        vm_mac: MacAddr,
    ) -> (r: ProxyAction)
        requires
            simple_wf(old(self)@),
        ensures
            final(self).nat_key == old(self).nat_key,
            simple_wf(final(self)@),
            exists|io: HostIo| #[trigger]
                host_did(
                    old(self).stream,
                    final(self).stream,
                    StateView::Simple(old(self)@),
                    is_readable,
                    is_writable,
                    io,
                ) && (final(self)@, action_view(r)) == simple_event(
                    old(self).nat_key,
                    old(self)@,
                    is_readable,
                    is_writable,
                    io,
                    proxy_mac,
                    vm_mac,
                ),
    {
        let ghost before = *self;
        let ghost v = self@;
        let ghost st = StateView::Simple(v);
        let ghost key = self.nat_key;
        let ghost q = v.to_host_buffer;
        proof {
            let none = Seq::<HostCall>::empty();
            assert(before.stream.calls() + (none + none + none) =~= before.stream.calls());
        }
        if self.state == SimpleConnectionState::Connecting {
            if is_writable {
                self.state = SimpleConnectionState::Established;
                self.host_can_read = true;
                self.last_host_seq = self.host_initial_seq.wrapping_add(1);
                self.vm_acked_seq = self.host_initial_seq;
                let syn_ack = build_tcp_packet(
                    &mut self.packet_buf,
                    flip_key(self.nat_key),
                    self.host_initial_seq,
                    self.vm_initial_seq.wrapping_add(1),
                    None,
                    Some(SYN_ACK),
                    proxy_mac,
                    vm_mac,
                );
                let r = ProxyAction::SendControlPacket(syn_ack);
                proof {
                    let want = simple_event(
                        key,
                        v,
                        is_readable,
                        is_writable,
                        idle_io(),
                        proxy_mac,
                        vm_mac,
                    );
                    assert(self@ =~= want.0);
                    assert(action_view(r) == want.1);
                    assert(host_did(
                        before.stream,
                        self.stream,
                        st,
                        is_readable,
                        is_writable,
                        idle_io(),
                    ));
                }
                return r;
            }
            assert(host_did(
                before.stream,
                self.stream,
                st,
                is_readable,
                is_writable,
                idle_io(),
            ));
            return ProxyAction::DoNothing;
        }
        let mut ended = false;
        let ghost mut io = idle_io();
        if self.state == SimpleConnectionState::Established && is_readable && self.host_can_read
            && self.vm_can_read {
            let (closed, Ghost(read_io)) = self.read_from_host(proxy_mac, vm_mac);
            proof {
                io = read_io;
            }
            if closed {
                self.is_closed = true;
                self.state = SimpleConnectionState::Closed;
                ended = true;
                assert(self@ =~= simple_closed(v));
            }
        }
        let ghost read = self@;
        proof {
            assert(read.to_host_buffer == q);
        }
        let ghost mut all = io;
        if is_writable && self.to_host_buffer.len() > 0 {
            let (written, Ghost(end), Ghost(calls)) = self.write_to_host();
            proof {
                all = HostIo { written: written as nat, writes: calls, ..io };
                assert(self.stream.calls() =~= before.stream.calls() + (all.reads + all.writes
                    + all.again));
                flat_drop_bytes(q, written as nat);
            }
            if ended && self.to_host_buffer.len() > 0 {
                let (again, Ghost(last), Ghost(more)) = self.write_to_host();
                proof {
                    drop_bytes_twice(q, written as nat, again as nat);
                    all = HostIo { written: (written + again) as nat, again: more, ..all };
                    assert(self@ =~= simple_wrote(read, (written + again) as nat));
                    assert(self.stream.calls() =~= before.stream.calls() + (all.reads
                        + all.writes + all.again));
                    assert(write_twice(q, all, written as int, end, last));
                }
            } else {
                assert(write_twice(q, all, written as int, end, end));
            }
        } else {
            assert(drop_bytes(q, 0) == q);
        }
        proof {
            assert(host_did(before.stream, self.stream, st, is_readable, is_writable, all));
            assert(self@ =~= simple_after_io(
                key,
                v,
                is_readable,
                is_writable,
                all,
                proxy_mac,
                vm_mac,
            ));
        }
        let reads = self.host_can_read && self.vm_can_read && self.vm_window_size > 0;
        let writes = self.to_host_buffer.len() > 0 || self.to_vm_buffer.len() > 0;
        let last = if reads && writes {
            ProxyAction::Reregister(Interest::Both)
        } else if reads {
            ProxyAction::Reregister(Interest::Readable)
        } else if writes {
            ProxyAction::Reregister(Interest::Writable)
        } else {
            ProxyAction::Deregister
        };
        let ghost last_step = step_of(last);
        let ghost want = simple_event(
            key,
            v,
            is_readable,
            is_writable,
            all,
            proxy_mac,
            vm_mac,
        );
        if ended {
            let mut actions: Vec<ProxyAction> = Vec::new();
            actions.push(ProxyAction::ScheduleRemoval);
            actions.push(last);
            assert(steps_of(actions@) =~= seq![Step::ScheduleRemoval, last_step]);
            assert(want.1 == ActionView::Many(seq![Step::ScheduleRemoval, last_step]));
            ProxyAction::Multi(actions)
        } else {
            assert(want.1 == ActionView::One(last_step));
            last
        }
    }

    /// Whether packets wait for the machine.
    pub fn has_data_for_vm(&self) -> (r: bool)
        ensures
            r == (self@.to_vm_buffer.len() > 0),
    {
        self.to_vm_buffer.len() > 0
    }

    /// Whether data waits for the host.
    pub fn has_data_for_host(&self) -> (r: bool)
        ensures
            r == (self@.to_host_buffer.len() > 0),
    {
        self.to_host_buffer.len() > 0
    }

    pub fn can_read_from_host(&self) -> (r: bool)
        ensures
            r == (self@.host_can_read && self@.state == SimpleConnectionState::Established),
    {
        self.host_can_read && self.state == SimpleConnectionState::Established
    }

    /// Whether the window opened since this was last asked.
    pub fn window_just_opened(&mut self) -> (r: bool)
        ensures
            r == old(self)@.window_just_opened,
            final(self)@ == (SimpleView { window_just_opened: false, ..old(self)@ }),
            final(self).stream == old(self).stream,
            final(self).nat_key == old(self).nat_key,
    {
        let result = self.window_just_opened;
        self.window_just_opened = false;
        assert(self@ =~= (SimpleView { window_just_opened: false, ..old(self)@ }));
        result
    }

    /// Takes the next packet for the machine off the queue. Once the queue is half empty the
    /// machine counts as able to take more.
    pub fn get_packet_to_send_to_vm(&mut self) -> (r: Option<Bytes>)
        ensures
            final(self).stream == old(self).stream,
            final(self).nat_key == old(self).nat_key,
            r is Some <==> old(self)@.to_vm_buffer.len() > 0,
            r matches Some(p) ==> bytes_view(p) == old(self)@.to_vm_buffer[0],
            final(self)@ == simple_popped(old(self)@),
    {
        let ghost v = self@;
        match self.to_vm_buffer.pop_front() {
            Some(packet) => {
                if self.to_vm_buffer.len() < SIMPLE_BUFFER_SIZE / 2 {
                    self.vm_can_read = true;
                }
                assert(self@.to_vm_buffer =~= v.to_vm_buffer.skip(1));
                assert(self@ =~= simple_popped(v));
                Some(packet)
            },
            None => None,
        }
    }
}

/// The state once the next packet has been taken off the queue for the machine.
pub open spec fn simple_popped(v: SimpleView) -> SimpleView {
    if v.to_vm_buffer.len() == 0 {
        v
    } else {
        let left = v.to_vm_buffer.skip(1);
        SimpleView {
            to_vm_buffer: left,
            vm_can_read: v.vm_can_read || left.len() < SIMPLE_BUFFER_SIZE / 2,
            ..v
        }
    }
}

// --- Connections in words ---

/// The name of a state.
pub open spec fn state_text(s: SimpleConnectionState) -> Seq<char> {
    match s {
        SimpleConnectionState::Connecting => "Connecting"@,
        SimpleConnectionState::Established => "Established"@,
        SimpleConnectionState::Closed => "Closed"@,
    }
}

/// A connection in words: its flow, its state, how much waits each way, what it may do, and
/// its numbers.
pub open spec fn simple_text(key: NatKey, v: SimpleView) -> Seq<char> {
    "SimpleTcpConnection { nat_key: "@ + key_text(key) + ", state: "@ + state_text(v.state)
        + ", to_vm_buffer_len: "@ + decimal(v.to_vm_buffer.len()) + ", to_host_buffer_len: "@
        + decimal(v.to_host_buffer.len()) + ", host_can_read: "@ + bool_text(v.host_can_read)
        + ", vm_can_read: "@ + bool_text(v.vm_can_read) + ", is_closed: "@ + bool_text(v.is_closed)
        + ", vm_initial_seq: "@ + decimal(v.vm_initial_seq as nat) + ", host_initial_seq: "@
        + decimal(v.host_initial_seq as nat) + ", last_vm_seq: "@ + decimal(v.last_vm_seq as nat)
        + ", last_host_seq: "@ + decimal(v.last_host_seq as nat) + ", vm_acked_seq: "@ + decimal(
        v.vm_acked_seq as nat,
    ) + ", max_inflight_bytes: "@ + decimal(v.max_inflight_bytes as nat) + " }"@
}

impl<H> SimpleTcpConnection<H> {
    /// The connection in words.
    pub fn fmt(&self) -> (r: String)
        ensures
            r@ == simple_text(self.nat_key, self@),
    {
        let mut s = String::new();
        s.append("SimpleTcpConnection { nat_key: ");
        assert(s@ =~= "SimpleTcpConnection { nat_key: "@);
        append_key(&mut s, &self.nat_key);
        s.append(", state: ");
        s.append(
            match self.state {
                SimpleConnectionState::Connecting => "Connecting",
                SimpleConnectionState::Established => "Established",
                SimpleConnectionState::Closed => "Closed",
            },
        );
        s.append(", to_vm_buffer_len: ");
        append_number(&mut s, self.to_vm_buffer.len() as u64);
        s.append(", to_host_buffer_len: ");
        append_number(&mut s, self.to_host_buffer.len() as u64);
        s.append(", host_can_read: ");
        append_bool(&mut s, self.host_can_read);
        s.append(", vm_can_read: ");
        append_bool(&mut s, self.vm_can_read);
        s.append(", is_closed: ");
        append_bool(&mut s, self.is_closed);
        s.append(", vm_initial_seq: ");
        append_number(&mut s, self.vm_initial_seq as u64);
        s.append(", host_initial_seq: ");
        append_number(&mut s, self.host_initial_seq as u64);
        s.append(", last_vm_seq: ");
        append_number(&mut s, self.last_vm_seq as u64);
        s.append(", last_host_seq: ");
        append_number(&mut s, self.last_host_seq as u64);
        s.append(", vm_acked_seq: ");
        append_number(&mut s, self.vm_acked_seq as u64);
        s.append(", max_inflight_bytes: ");
        append_number(&mut s, self.max_inflight_bytes as u64);
        s.append(" }");
        s
    }
}

} // verus!
