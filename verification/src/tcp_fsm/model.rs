//! What a TCP connection does, as a function from its state and an event to its next state
//! and the actions it asks for.
use bytes::Bytes;
use vstd::prelude::*;

use crate::addr::{flipped, Instant, Interest, MacAddr, NatKey};
use crate::buffer::{bytes_view, drop_bytes, flat, views};
use crate::host::{write_run, HostCall, TracedStream, ReadView, WriteEnd};
use crate::packet_utils::{ip_view, tcp_frame};
use crate::seqnum::{ahead, covers, low32};
use crate::simple_tcp::{
    simple_event, simple_packet, simple_popped, simple_takes, simple_wf, simple_will_read, SimpleConnectionState,
    SimpleView,
};
use crate::tcp_fsm::states;
use crate::tcp_fsm::{
    ProxyAction, TcpNegotiatedOptions, HOST_WRITE_BUFFER_HIGH_WATER, HOST_WRITE_BUFFER_LOW_WATER,
    MAX_IN_FLIGHT_PACKETS, MAX_SEGMENT_SIZE, TCP_BUFFER_SIZE, TCP_BUFFER_UNPAUSE_THRESHOLD,
    UNPAUSE_IN_FLIGHT_THRESHOLD, ZERO_WINDOW_PROBE_INTERVAL,
};
use crate::wire::{u32_at, TcpSegment, ACK, FIN, FIN_ACK, PSH_ACK, RST, RST_ACK, SYN, SYN_ACK};

verus! {

// --- Packets and actions ---

/// What the logic reads of a TCP packet.
pub struct SegmentView {
    pub source: u16,
    pub destination: u16,
    pub sequence: u32,
    pub acknowledgement: u32,
    pub flags: u8,
    pub window: u16,
    pub payload: Seq<u8>,
}

impl View for TcpSegment {
    type V = SegmentView;

    open spec fn view(&self) -> SegmentView {
        SegmentView {
            source: self.source,
            destination: self.destination,
            sequence: self.sequence,
            acknowledgement: self.acknowledgement,
            flags: self.flags,
            window: self.window,
            payload: self.payload@,
        }
    }
}

/// One action that is asked of the proxy.
pub enum Step {
    Send(Seq<u8>),
    Reregister(Interest),
    Deregister,
    ShutdownHostWrite,
    EnterTimeWait,
    ScheduleRemoval,
    Nothing,
    Group,
}

/// An action or a list of actions, in order.
pub enum ActionView {
    One(Step),
    Many(Seq<Step>),
}

pub open spec fn step_of(a: ProxyAction) -> Step {
    match a {
        ProxyAction::SendControlPacket(p) => Step::Send(bytes_view(p)),
        ProxyAction::Reregister(i) => Step::Reregister(i),
        ProxyAction::Deregister => Step::Deregister,
        ProxyAction::ShutdownHostWrite => Step::ShutdownHostWrite,
        ProxyAction::EnterTimeWait => Step::EnterTimeWait,
        ProxyAction::ScheduleRemoval => Step::ScheduleRemoval,
        ProxyAction::DoNothing => Step::Nothing,
        ProxyAction::Multi(_) => Step::Group,
    }
}

pub open spec fn steps_of(v: Seq<ProxyAction>) -> Seq<Step> {
    Seq::new(v.len(), |i: int| step_of(v[i]))
}

pub open spec fn action_view(a: ProxyAction) -> ActionView {
    match a {
        ProxyAction::Multi(v) => ActionView::Many(steps_of(v@)),
        _ => ActionView::One(step_of(a)),
    }
}

// --- States ---

/// A packet that was sent and not yet acknowledged.
pub struct InFlight {
    pub seq: u32,
    pub packet: Seq<u8>,
    pub sent_at: Instant,
    pub len: u32,
}

pub open spec fn in_flight_view(q: Seq<(u32, Bytes, Instant, u32)>) -> Seq<InFlight> {
    Seq::new(
        q.len(),
        |i: int| InFlight { seq: q[i].0, packet: bytes_view(q[i].1), sent_at: q[i].2, len: q[i].3 },
    )
}

pub open spec fn map_view(m: Map<u32, Bytes>) -> Map<u32, Seq<u8>> {
    m.map_values(|b: Bytes| bytes_view(b))
}

/// An established connection.
#[verifier::ext_equal]
pub struct EstablishedView {
    pub tx_seq: u32,
    pub rx_seq: u32,
    pub rx_buf: Map<u32, Seq<u8>>,
    pub write_buffer: Seq<Seq<u8>>,
    pub write_buffer_size: usize,
    pub to_vm_buffer: Seq<Seq<u8>>,
    pub in_flight: Seq<InFlight>,
    pub highest_ack_from_vm: u32,
    pub dup_ack_count: u16,
    pub host_reads_paused: bool,
    pub vm_reads_paused: bool,
    pub last_fast_retransmit_seq: Option<u32>,
    pub current_interest: Interest,
    pub vm_window_size: u16,
    pub vm_window_scale: u8,
    pub last_zero_window_probe: Option<Instant>,
    pub last_activity: Instant,
}

impl View for states::Established {
    type V = EstablishedView;

    open spec fn view(&self) -> EstablishedView {
        EstablishedView {
            tx_seq: self.tx_seq,
            rx_seq: self.rx_seq,
            rx_buf: map_view(self.rx_buf@),
            write_buffer: views(self.write_buffer@),
            write_buffer_size: self.write_buffer_size,
            to_vm_buffer: views(self.to_vm_buffer@),
            in_flight: in_flight_view(self.in_flight_packets@),
            highest_ack_from_vm: self.highest_ack_from_vm,
            dup_ack_count: self.dup_ack_count,
            host_reads_paused: self.host_reads_paused,
            vm_reads_paused: self.vm_reads_paused,
            last_fast_retransmit_seq: self.last_fast_retransmit_seq,
            current_interest: self.current_interest,
            vm_window_size: self.vm_window_size,
            vm_window_scale: self.vm_window_scale,
            last_zero_window_probe: self.last_zero_window_probe,
            last_activity: self.last_activity,
        }
    }
}

/// The state of a connection of any kind.
pub enum StateView {
    EgressConnecting { vm_initial_seq: u32, tx_seq: u32, vm_options: TcpNegotiatedOptions },
    IngressConnecting { tx_seq: u32, rx_seq: u32 },
    Established(EstablishedView),
    FinWait1 { fin_seq: u32, rx_seq: u32 },
    FinWait2 { rx_seq: u32 },
    CloseWait { tx_seq: u32, rx_seq: u32 },
    LastAck { fin_seq: u32 },
    TimeWait,
    Closing { fin_seq: u32, rx_seq: u32 },
    Listen { listen_port: u16 },
    Closed,
    Simple(SimpleView),
}

// --- Flow control ---

/// How far the packets in flight move the sequence number, together.
pub open spec fn in_flight_bytes(q: Seq<InFlight>) -> nat
    decreases q.len(),
{
    if q.len() == 0 {
        0
    } else {
        in_flight_bytes(q.drop_last()) + q.last().len as nat
    }
}

/// How many bytes out of turn are kept, together.
pub open spec fn kept_bytes(m: Map<u32, Seq<u8>>) -> nat
    decreases m.dom().len(),
    when m.dom().finite()
{
    if m.dom().len() == 0 {
        0
    } else {
        let k = m.dom().choose();
        m[k].len() + kept_bytes(m.remove(k))
    }
}

/// The window that the machine advertises, scaled.
pub open spec fn scaled_window(v: EstablishedView) -> u32 {
    (v.vm_window_size as u32) << v.vm_window_scale
}

/// Whether more than `margin` bytes of the machine's window are still free.
pub open spec fn window_room(v: EstablishedView, margin: u32) -> bool {
    in_flight_bytes(v.in_flight) < scaled_window(v).saturating_sub(margin)
}

/// The readiness events that suit the state: readable while more data can be taken from the
/// host, writable while data is pending in either direction or none can be taken.
pub open spec fn interest_for(v: EstablishedView) -> Interest {
    let should_read = !v.host_reads_paused && v.to_vm_buffer.len() < TCP_BUFFER_SIZE
        && v.in_flight.len() < MAX_IN_FLIGHT_PACKETS && window_room(
        v,
        (MAX_SEGMENT_SIZE / 4) as u32,
    );
    let should_write = v.write_buffer.len() > 0 || v.to_vm_buffer.len() > 0;
    if should_read && should_write {
        Interest::Both
    } else if should_read {
        Interest::Readable
    } else {
        Interest::Writable
    }
}

/// Registers for the events that suit the state, when they differ from the current ones.
pub open spec fn refresh_interest(v: EstablishedView) -> (EstablishedView, Seq<Step>) {
    let interest = interest_for(v);
    if interest == v.current_interest {
        (v, Seq::empty())
    } else {
        (
            EstablishedView { current_interest: interest, ..v },
            seq![Step::Reregister(interest)],
        )
    }
}

/// Whether the counters and queues of a state agree and stay within what can be counted.
pub open spec fn established_wf(v: EstablishedView) -> bool {
    &&& v.rx_buf.dom().finite()
    &&& v.write_buffer_size == flat(v.write_buffer).len()
    &&& v.vm_window_scale < 32
    &&& v.in_flight.len() <= 0x1_0000
    &&& forall|i: int| 0 <= i < v.in_flight.len() ==> (#[trigger] v.in_flight[i]).len <= 0xffff
}

/// Whether a state can take a packet: what it buffers still fits in memory and the count of
/// duplicate acknowledgements does not run over.
pub open spec fn established_takes(v: EstablishedView, payload: Seq<u8>) -> bool {
    &&& established_wf(v)
    &&& v.dup_ack_count < 0xffff
    &&& v.write_buffer_size + kept_bytes(v.rx_buf) + payload.len() <= usize::MAX
}

// --- Packets from the machine while data flows ---

/// Whether every number that a packet in flight uses is below `ack`.
pub open spec fn acknowledged(p: InFlight, ack: u32) -> bool {
    covers(ack, p.seq.wrapping_add(p.len))
}

/// The packets in flight that `ack` does not cover whole, in order.
pub open spec fn unacknowledged(q: Seq<InFlight>, ack: u32) -> Seq<InFlight> {
    q.filter(|p: InFlight| !acknowledged(p, ack))
}

/// The packet that an acknowledgement asks for: the first that starts there, else the first
/// of all.
pub open spec fn wanted(q: Seq<InFlight>, ack: u32) -> int {
    let i = first_at(q, ack, 0);
    if i < q.len() {
        i
    } else {
        0
    }
}

/// The first packet from `i` on that starts at `ack`.
pub open spec fn first_at(q: Seq<InFlight>, ack: u32, i: int) -> int
    decreases q.len() - i,
{
    if i < 0 || i >= q.len() || q[i].seq == ack {
        i
    } else {
        first_at(q, ack, i + 1)
    }
}

/// Queues the packet at `i` once more, ahead of the others, and notes when.
pub open spec fn resend(v: EstablishedView, i: int, now: Instant) -> EstablishedView {
    EstablishedView {
        to_vm_buffer: seq![v.in_flight[i].packet] + v.to_vm_buffer,
        in_flight: v.in_flight.update(i, InFlight { sent_at: now, ..v.in_flight[i] }),
        ..v
    }
}

/// An acknowledgement of new data: the window is updated, what it covers is no longer in
/// flight, and reading from the host resumes once both queues are short enough.
pub open spec fn new_ack(v: EstablishedView, t: SegmentView) -> (EstablishedView, Seq<Step>) {
    let acked = EstablishedView {
        highest_ack_from_vm: t.acknowledgement,
        dup_ack_count: 0,
        last_fast_retransmit_seq: None,
        vm_window_size: t.window,
        in_flight: unacknowledged(v.in_flight, t.acknowledgement),
        ..v
    };
    if v.host_reads_paused && v.to_vm_buffer.len() < TCP_BUFFER_UNPAUSE_THRESHOLD
        && acked.in_flight.len() < UNPAUSE_IN_FLIGHT_THRESHOLD {
        let resumed = EstablishedView { host_reads_paused: false, ..acked };
        let interest = interest_for(resumed);
        (
            EstablishedView { current_interest: interest, ..resumed },
            seq![Step::Reregister(interest)],
        )
    } else {
        (acked, Seq::empty())
    }
}

/// A bare acknowledgement that repeats the highest so far: the third one has the packet it
/// asks for sent again, once for each acknowledgement number.
pub open spec fn repeated_ack(v: EstablishedView, ack: u32, now: Instant) -> EstablishedView {
    let counted = EstablishedView { dup_ack_count: (v.dup_ack_count + 1) as u16, ..v };
    if counted.dup_ack_count >= 3 && v.last_fast_retransmit_seq != Some(ack)
        && v.in_flight.len() > 0 {
        EstablishedView {
            last_fast_retransmit_seq: Some(ack),
            dup_ack_count: 0,
            ..resend(counted, wanted(v.in_flight, ack), now)
        }
    } else {
        counted
    }
}

/// Whether the stream is still registered for reading alone although reading is paused, and
/// both queues are short enough for reading to resume.
pub open spec fn missed_pause(v: EstablishedView) -> bool {
    &&& v.host_reads_paused
    &&& v.current_interest == Interest::Readable
    &&& v.to_vm_buffer.len() < TCP_BUFFER_UNPAUSE_THRESHOLD
    &&& v.in_flight.len() < UNPAUSE_IN_FLIGHT_THRESHOLD
}

/// Resumes reading and registers the stream anew, for both directions, where it missed the
/// pause.
pub open spec fn resume_missed(v: EstablishedView) -> (EstablishedView, Seq<Step>) {
    if missed_pause(v) {
        (
            EstablishedView { host_reads_paused: false, current_interest: Interest::Both, ..v },
            seq![Step::Reregister(Interest::Both)],
        )
    } else {
        (v, Seq::empty())
    }
}

/// What the acknowledgement in a packet does.
pub open spec fn take_ack(v: EstablishedView, t: SegmentView, now: Instant) -> (
    EstablishedView,
    Seq<Step>,
) {
    if t.flags & ACK == 0 {
        (v, Seq::empty())
    } else if ahead(t.acknowledgement, v.highest_ack_from_vm) {
        new_ack(v, t)
    } else if t.payload.len() == 0 && t.acknowledgement == v.highest_ack_from_vm {
        resume_missed(repeated_ack(v, t.acknowledgement, now))
    } else {
        (v, Seq::empty())
    }
}

/// Moves packets that came ahead of their turn over to the data for the host, for as long as
/// the next one in sequence is there.
pub open spec fn join_kept(v: EstablishedView) -> EstablishedView
    decreases v.rx_buf.dom().len(),
    when v.rx_buf.dom().finite()
{
    if v.rx_buf.dom().contains(v.rx_seq) {
        let data = v.rx_buf[v.rx_seq];
        join_kept(
            EstablishedView {
                rx_buf: v.rx_buf.remove(v.rx_seq),
                rx_seq: v.rx_seq.wrapping_add(low32(data.len())),
                write_buffer: v.write_buffer.push(data),
                write_buffer_size: (v.write_buffer_size + data.len()) as usize,
                ..v
            },
        )
    } else {
        v
    }
}

/// Where data goes: old data nowhere, data ahead of its turn aside unless something is kept
/// there already, and data in turn to the host, followed by what was kept behind it.
pub open spec fn place_data(v: EstablishedView, seq: u32, payload: Seq<u8>) -> EstablishedView {
    if seq.wrapping_sub(v.rx_seq) > 0x8000_0000 {
        v
    } else if seq != v.rx_seq {
        if v.rx_buf.dom().contains(seq) {
            v
        } else {
            EstablishedView { rx_buf: v.rx_buf.insert(seq, payload), ..v }
        }
    } else {
        join_kept(
            EstablishedView {
                rx_seq: seq.wrapping_add(low32(payload.len())),
                write_buffer: v.write_buffer.push(payload),
                write_buffer_size: (v.write_buffer_size + payload.len()) as usize,
                ..v
            },
        )
    }
}

/// What the data in a packet does while data is being taken: it is placed, too much data for
/// the host stops the taking, and the first data for the host updates the interest.
pub open spec fn accept_data(v: EstablishedView, t: SegmentView) -> (EstablishedView, Seq<Step>) {
    let placed = place_data(v, t.sequence, t.payload);
    let checked = EstablishedView {
        vm_reads_paused: placed.vm_reads_paused || placed.write_buffer_size
            > HOST_WRITE_BUFFER_HIGH_WATER,
        ..placed
    };
    if v.write_buffer.len() == 0 && checked.write_buffer.len() > 0 {
        refresh_interest(checked)
    } else {
        (checked, Seq::empty())
    }
}

/// A frame to the machine on this flow.
pub open spec fn to_vm(
    key: NatKey,
    sequence: u32,
    acknowledgement: u32,
    payload: Seq<u8>,
    flags: u8,
    proxy_mac: MacAddr,
    vm_mac: MacAddr,
) -> Seq<u8> {
    tcp_frame(flipped(key), sequence, acknowledgement, payload, flags, proxy_mac, vm_mac)
}

/// What the data in a packet does: it is dropped while too much waits for the host, and
/// acknowledged either way.
pub open spec fn take_data(
    key: NatKey,
    v: EstablishedView,
    t: SegmentView,
    proxy_mac: MacAddr,
    vm_mac: MacAddr,
) -> (EstablishedView, Seq<Step>) {
    if t.payload.len() == 0 {
        (v, Seq::empty())
    } else {
        let (next, steps) = if v.vm_reads_paused {
            (v, Seq::empty())
        } else {
            accept_data(v, t)
        };
        (
            next,
            steps.push(
                Step::Send(
                    to_vm(key, next.tx_seq, next.rx_seq, Seq::empty(), ACK, proxy_mac, vm_mac),
                ),
            ),
        )
    }
}

pub open spec fn has_reregister(steps: Seq<Step>) -> bool {
    exists|i: int| 0 <= i < steps.len() && (#[trigger] steps[i]) is Reregister
}

/// A packet from the machine while data flows.
pub open spec fn established_packet(
    key: NatKey,
    v: EstablishedView,
    t: SegmentView,
    proxy_mac: MacAddr,
    vm_mac: MacAddr,
    now: Instant,
) -> (StateView, ActionView) {
    if t.flags & RST != 0 {
        (StateView::Established(v), ActionView::One(Step::ScheduleRemoval))
    } else {
        let (acked, ack_steps) = take_ack(v, t, now);
        if t.flags & FIN != 0 {
            let rx_seq = t.sequence.wrapping_add(low32(t.payload.len())).wrapping_add(1);
            (
                StateView::CloseWait { tx_seq: acked.tx_seq, rx_seq },
                ActionView::Many(
                    ack_steps.push(
                        Step::Send(
                            to_vm(
                                key,
                                acked.tx_seq,
                                rx_seq,
                                Seq::empty(),
                                ACK,
                                proxy_mac,
                                vm_mac,
                            ),
                        ),
                    ).push(Step::ShutdownHostWrite),
                ),
            )
        } else {
            let (fed, data_steps) = take_data(key, acked, t, proxy_mac, vm_mac);
            let steps = ack_steps + data_steps;
            if has_reregister(steps) {
                (StateView::Established(fed), ActionView::Many(steps))
            } else {
                let (last, refresh_steps) = refresh_interest(fed);
                (StateView::Established(last), ActionView::Many(steps + refresh_steps))
            }
        }
    }
}

// --- The host while data flows ---

/// How many bytes are read from the host for one readiness event, at most.
pub const READ_BUFFER_SIZE: usize = 16384;

/// What a host stream did during one readiness event: the bytes it handed out, whether it
/// then ended or failed, how many bytes it took, and whether taking bytes showed that it is
/// closed. Beside that stand the calls: those that read, those that wrote, and those that
/// tried once more to write what was left.
pub struct HostIo {
    pub data: Seq<u8>,
    pub eof: bool,
    pub failed: bool,
    pub written: nat,
    pub write_closed: bool,
    pub reads: Seq<HostCall>,
    pub writes: Seq<HostCall>,
    pub again: Seq<HostCall>,
}

/// A host that did nothing.
pub open spec fn idle_io() -> HostIo {
    HostIo {
        data: Seq::empty(),
        eof: false,
        failed: false,
        written: 0,
        write_closed: false,
        reads: Seq::empty(),
        writes: Seq::empty(),
        again: Seq::empty(),
    }
}

/// Whether no more packets for the machine can be queued.
pub open spec fn queue_full(v: EstablishedView) -> bool {
    ||| v.to_vm_buffer.len() >= TCP_BUFFER_SIZE
    ||| v.in_flight.len() >= MAX_IN_FLIGHT_PACKETS
    ||| !window_room(v, (MAX_SEGMENT_SIZE / 2) as u32)
}

/// The part of `data` that goes into one packet.
pub open spec fn first_chunk(data: Seq<u8>) -> Seq<u8> {
    if data.len() < MAX_SEGMENT_SIZE {
        data
    } else {
        data.take(MAX_SEGMENT_SIZE as int)
    }
}

/// Queues one packet for the machine and has it in flight from now on.
pub open spec fn queue_chunk(
    key: NatKey,
    v: EstablishedView,
    chunk: Seq<u8>,
    proxy_mac: MacAddr,
    vm_mac: MacAddr,
    now: Instant,
) -> EstablishedView {
    let packet = to_vm(key, v.tx_seq, v.rx_seq, chunk, PSH_ACK, proxy_mac, vm_mac);
    EstablishedView {
        to_vm_buffer: v.to_vm_buffer.push(packet),
        in_flight: v.in_flight.push(
            InFlight { seq: v.tx_seq, packet, sent_at: now, len: chunk.len() as u32 },
        ),
        tx_seq: v.tx_seq.wrapping_add(chunk.len() as u32),
        ..v
    }
}

/// Cuts data from the host into packets and queues them in order. Where the queue is full,
/// reading from the host stops and what is left of the data is not queued.
pub open spec fn queue_data(
    key: NatKey,
    v: EstablishedView,
    data: Seq<u8>,
    proxy_mac: MacAddr,
    vm_mac: MacAddr,
    now: Instant,
) -> EstablishedView
    decreases data.len(),
{
    if data.len() == 0 {
        v
    } else if queue_full(v) {
        EstablishedView { host_reads_paused: true, ..v }
    } else {
        let chunk = first_chunk(data);
        queue_data(
            key,
            queue_chunk(key, v, chunk, proxy_mac, vm_mac, now),
            data.skip(chunk.len() as int),
            proxy_mac,
            vm_mac,
            now,
        )
    }
}

/// The host took the first `n` bytes that wait for it; once few enough are left, data from
/// the machine is taken again.
pub open spec fn host_took(v: EstablishedView, n: nat) -> EstablishedView {
    let size = (v.write_buffer_size - n) as usize;
    EstablishedView {
        write_buffer: drop_bytes(v.write_buffer, n),
        write_buffer_size: size,
        vm_reads_paused: v.vm_reads_paused && size >= HOST_WRITE_BUFFER_LOW_WATER,
        ..v
    }
}

/// While reading from the host is stopped and little of the machine's window is free, sends
/// a packet of one byte from time to time and reads from the host again.
pub open spec fn probe_window(
    key: NatKey,
    v: EstablishedView,
    proxy_mac: MacAddr,
    vm_mac: MacAddr,
    now: Instant,
) -> (EstablishedView, Seq<Step>) {
    let due = match v.last_zero_window_probe {
        None => true,
        Some(last) => now.saturating_sub(last) >= ZERO_WINDOW_PROBE_INTERVAL,
    };
    if v.host_reads_paused && !window_room(v, (MAX_SEGMENT_SIZE * 2) as u32) && due {
        (
            EstablishedView {
                last_zero_window_probe: Some(now),
                host_reads_paused: false,
                ..v
            },
            seq![
                Step::Send(
                    to_vm(key, v.tx_seq, v.rx_seq, seq![0u8], PSH_ACK, proxy_mac, vm_mac),
                ),
            ],
        )
    } else {
        (v, Seq::empty())
    }
}

/// Whether a readiness event has data read from the host.
pub open spec fn established_will_read(v: EstablishedView, is_readable: bool) -> bool {
    is_readable && !v.host_reads_paused
}

/// The state once the host has been read from and written to.
pub open spec fn after_io(
    key: NatKey,
    v: EstablishedView,
    is_readable: bool,
    is_writable: bool,
    io: HostIo,
    proxy_mac: MacAddr,
    vm_mac: MacAddr,
    now: Instant,
) -> EstablishedView {
    let active = EstablishedView { last_activity: now, ..v };
    let read = if established_will_read(v, is_readable) {
        queue_data(key, active, io.data, proxy_mac, vm_mac, now)
    } else {
        active
    };
    if is_writable {
        host_took(read, io.written)
    } else {
        read
    }
}

/// A readiness event of the host while data flows.
pub open spec fn established_event(
    key: NatKey,
    v: EstablishedView,
    is_readable: bool,
    is_writable: bool,
    io: HostIo,
    proxy_mac: MacAddr,
    vm_mac: MacAddr,
    now: Instant,
) -> (StateView, ActionView) {
    let reads = established_will_read(v, is_readable);
    if reads && io.failed {
        (
            StateView::Established(EstablishedView { last_activity: now, ..v }),
            ActionView::One(Step::ScheduleRemoval),
        )
    } else {
        let done = after_io(key, v, is_readable, is_writable, io, proxy_mac, vm_mac, now);
        if (reads && io.eof) || (is_writable && io.write_closed) {
            (
                StateView::FinWait1 { fin_seq: done.tx_seq.wrapping_add(1), rx_seq: done.rx_seq },
                ActionView::Many(
                    seq![
                        Step::Send(
                            to_vm(
                                key,
                                done.tx_seq,
                                done.rx_seq,
                                Seq::empty(),
                                FIN_ACK,
                                proxy_mac,
                                vm_mac,
                            ),
                        ),
                    ],
                ),
            )
        } else {
            let (probed, probe_steps) = probe_window(key, done, proxy_mac, vm_mac, now);
            let (last, refresh_steps) = refresh_interest(probed);
            (StateView::Established(last), ActionView::Many(probe_steps + refresh_steps))
        }
    }
}

// --- The other states ---

/// A connection over which nothing has flowed yet.
pub open spec fn fresh(
    tx_seq: u32,
    rx_seq: u32,
    highest_ack_from_vm: u32,
    vm_window_size: u16,
    vm_window_scale: u8,
    now: Instant,
) -> EstablishedView {
    EstablishedView {
        tx_seq,
        rx_seq,
        rx_buf: Map::empty(),
        write_buffer: Seq::empty(),
        write_buffer_size: 0,
        to_vm_buffer: Seq::empty(),
        in_flight: Seq::empty(),
        highest_ack_from_vm,
        dup_ack_count: 0,
        host_reads_paused: false,
        vm_reads_paused: false,
        last_fast_retransmit_seq: None,
        current_interest: Interest::Both,
        vm_window_size,
        vm_window_scale,
        last_zero_window_probe: None,
        last_activity: now,
    }
}

pub open spec fn scale_of(options: TcpNegotiatedOptions) -> u8 {
    match options.window_scale {
        Some(s) => s,
        None => 0,
    }
}

pub open spec fn nothing(st: StateView) -> (StateView, ActionView) {
    (st, ActionView::One(Step::Nothing))
}

/// A packet from the machine that answers the SYN it was sent.
pub open spec fn ingress_packet(
    key: NatKey,
    tx_seq: u32,
    rx_seq: u32,
    t: SegmentView,
    proxy_mac: MacAddr,
    vm_mac: MacAddr,
    now: Instant,
) -> (StateView, ActionView) {
    if t.flags & SYN_ACK == SYN_ACK && t.acknowledgement == tx_seq {
        let rx = t.sequence.wrapping_add(1);
        (
            StateView::Established(fresh(tx_seq, rx, tx_seq, t.window, 0, now)),
            ActionView::Many(
                seq![
                    Step::Send(to_vm(key, tx_seq, rx, Seq::empty(), ACK, proxy_mac, vm_mac)),
                    Step::Reregister(Interest::Both),
                ],
            ),
        )
    } else {
        nothing(StateView::IngressConnecting { tx_seq, rx_seq })
    }
}

/// What a packet to a connection that is over is answered: a reset, which takes its numbers
/// from the packet. A reset is not answered.
pub open spec fn closed_packet(
    key: NatKey,
    t: SegmentView,
    proxy_mac: MacAddr,
    vm_mac: MacAddr,
) -> ActionView {
    if t.flags & RST != 0 {
        ActionView::One(Step::Nothing)
    } else if t.flags & ACK != 0 {
        ActionView::One(
            Step::Send(
                to_vm(key, t.acknowledgement, 0, Seq::empty(), RST, proxy_mac, vm_mac),
            ),
        )
    } else {
        let counted: u32 = if t.flags & 0x03 != 0 {
            1
        } else {
            0
        };
        let ack = t.sequence.wrapping_add(low32(t.payload.len())).wrapping_add(counted);
        ActionView::One(
            Step::Send(to_vm(key, 0, ack, Seq::empty(), RST_ACK, proxy_mac, vm_mac)),
        )
    }
}

/// A packet from the machine, in any state.
pub open spec fn packet_step(
    key: NatKey,
    st: StateView,
    t: SegmentView,
    proxy_mac: MacAddr,
    vm_mac: MacAddr,
    now: Instant,
) -> (StateView, ActionView) {
    match st {
        StateView::EgressConnecting { .. } => nothing(st),
        StateView::IngressConnecting { tx_seq, rx_seq } => ingress_packet(
            key,
            tx_seq,
            rx_seq,
            t,
            proxy_mac,
            vm_mac,
            now,
        ),
        StateView::Established(v) => established_packet(key, v, t, proxy_mac, vm_mac, now),
        StateView::FinWait1 { fin_seq, rx_seq } => {
            if t.flags & ACK != 0 && t.acknowledgement == fin_seq {
                nothing(StateView::FinWait2 { rx_seq })
            } else {
                nothing(st)
            }
        },
        StateView::FinWait2 { rx_seq } => {
            if t.flags & FIN != 0 {
                (
                    StateView::TimeWait,
                    ActionView::Many(
                        seq![
                            Step::Send(
                                to_vm(
                                    key,
                                    0,
                                    t.sequence.wrapping_add(1),
                                    Seq::empty(),
                                    ACK,
                                    proxy_mac,
                                    vm_mac,
                                ),
                            ),
                            Step::EnterTimeWait,
                        ],
                    ),
                )
            } else {
                nothing(st)
            }
        },
        StateView::CloseWait { .. } => nothing(st),
        StateView::LastAck { fin_seq } => {
            if t.flags & ACK != 0 && t.acknowledgement == fin_seq {
                (st, ActionView::One(Step::ScheduleRemoval))
            } else {
                nothing(st)
            }
        },
        StateView::TimeWait => {
            let (sequence, acknowledgement, flags) = if t.flags & FIN != 0 {
                (0u32, t.sequence.wrapping_add(1), ACK)
            } else {
                (t.acknowledgement, 0u32, RST)
            };
            (
                st,
                ActionView::One(
                    Step::Send(
                        to_vm(
                            key,
                            sequence,
                            acknowledgement,
                            Seq::empty(),
                            flags,
                            proxy_mac,
                            vm_mac,
                        ),
                    ),
                ),
            )
        },
        StateView::Closing { fin_seq, rx_seq } => {
            if t.flags & ACK != 0 && t.acknowledgement == fin_seq.wrapping_add(1) {
                (StateView::TimeWait, ActionView::One(Step::EnterTimeWait))
            } else if t.flags & FIN != 0 && t.sequence == rx_seq {
                (
                    st,
                    ActionView::One(
                        Step::Send(
                            to_vm(
                                key,
                                fin_seq.wrapping_add(1),
                                rx_seq.wrapping_add(1),
                                Seq::empty(),
                                ACK,
                                proxy_mac,
                                vm_mac,
                            ),
                        ),
                    ),
                )
            } else {
                nothing(st)
            }
        },
        StateView::Listen { .. } => {
            if t.flags & SYN != 0 && t.flags & ACK == 0 {
                (
                    st,
                    ActionView::One(
                        Step::Send(
                            to_vm(
                                key,
                                0,
                                t.sequence.wrapping_add(1),
                                Seq::empty(),
                                RST_ACK,
                                proxy_mac,
                                vm_mac,
                            ),
                        ),
                    ),
                )
            } else {
                nothing(st)
            }
        },
        StateView::Closed => (st, closed_packet(key, t, proxy_mac, vm_mac)),
        StateView::Simple(v) => {
            let (next, action) = simple_packet(key, v, t, proxy_mac, vm_mac);
            (StateView::Simple(next), action)
        },
    }
}

/// A readiness event of the host, in any state.
pub open spec fn event_step(
    key: NatKey,
    st: StateView,
    is_readable: bool,
    is_writable: bool,
    io: HostIo,
    proxy_mac: MacAddr,
    vm_mac: MacAddr,
    now: Instant,
) -> (StateView, ActionView) {
    match st {
        StateView::EgressConnecting { vm_initial_seq, tx_seq, vm_options } => {
            if is_writable {
                let rx = vm_initial_seq.wrapping_add(1);
                (
                    StateView::Established(
                        fresh(
                            tx_seq.wrapping_add(1),
                            rx,
                            tx_seq,
                            0xffff,
                            scale_of(vm_options),
                            now,
                        ),
                    ),
                    ActionView::Many(
                        seq![
                            Step::Send(
                                to_vm(key, tx_seq, rx, Seq::empty(), SYN_ACK, proxy_mac, vm_mac),
                            ),
                            Step::Reregister(Interest::Both),
                        ],
                    ),
                )
            } else {
                nothing(st)
            }
        },
        StateView::Established(v) => established_event(
            key,
            v,
            is_readable,
            is_writable,
            io,
            proxy_mac,
            vm_mac,
            now,
        ),
        StateView::CloseWait { tx_seq, rx_seq } => (
            StateView::LastAck { fin_seq: tx_seq.wrapping_add(1) },
            ActionView::One(
                Step::Send(
                    to_vm(key, tx_seq, rx_seq, Seq::empty(), FIN_ACK, proxy_mac, vm_mac),
                ),
            ),
        ),
        StateView::Simple(v) => {
            let (next, action) = simple_event(
                key,
                v,
                is_readable,
                is_writable,
                io,
                proxy_mac,
                vm_mac,
            );
            (StateView::Simple(next), action)
        },
        _ => nothing(st),
    }
}

// --- Packets on their way to the machine ---

/// The sequence number of the TCP packet in a frame, if there is one in it.
pub open spec fn frame_sequence(frame: Seq<u8>) -> Option<u32> {
    match ip_view(frame.skip(14)) {
        Some(ip) => {
            if ip.payload.len() >= 20 {
                Some(u32_at(ip.payload, 4))
            } else {
                None
            }
        },
        None => None,
    }
}

/// Notes that the packet in flight that starts at `seq` was sent just now.
pub open spec fn touch(q: Seq<InFlight>, seq: u32, now: Instant) -> Seq<InFlight> {
    let i = first_at(q, seq, 0);
    if i < q.len() {
        q.update(i, InFlight { sent_at: now, ..q[i] })
    } else {
        q
    }
}

/// The state once the next packet has been taken off the queue for the machine.
pub open spec fn established_popped(v: EstablishedView, now: Instant) -> EstablishedView {
    if v.to_vm_buffer.len() == 0 {
        v
    } else {
        EstablishedView {
            to_vm_buffer: v.to_vm_buffer.skip(1),
            in_flight: match frame_sequence(v.to_vm_buffer[0]) {
                Some(seq) => touch(v.in_flight, seq, now),
                None => v.in_flight,
            },
            ..v
        }
    }
}

/// The packets that wait for the machine, in order.
pub open spec fn queued(st: StateView) -> Seq<Seq<u8>> {
    match st {
        StateView::Established(v) => v.to_vm_buffer,
        StateView::Simple(v) => v.to_vm_buffer,
        _ => Seq::empty(),
    }
}

/// A connection once its next packet for the machine has been taken.
pub open spec fn popped(st: StateView, now: Instant) -> StateView {
    match st {
        StateView::Established(v) => StateView::Established(established_popped(v, now)),
        StateView::Simple(v) => StateView::Simple(simple_popped(v)),
        _ => st,
    }
}

/// Whether the oldest packet in flight has waited for its acknowledgement for longer than
/// `rto`.
pub open spec fn overdue(st: StateView, rto: u64, now: Instant) -> bool {
    st matches StateView::Established(v) && v.in_flight.len() > 0 && now.saturating_sub(
        v.in_flight[0].sent_at,
    ) > rto
}

/// A connection once an overdue packet has been queued again.
pub open spec fn retransmitted(st: StateView, rto: u64, now: Instant) -> StateView {
    if overdue(st, rto, now) {
        StateView::Established(resend(st->Established_0, 0, now))
    } else {
        st
    }
}

/// Every frame that is queued or in flight has at least an Ethernet header.
pub open spec fn framed(st: StateView) -> bool {
    match st {
        StateView::Established(v) => {
            &&& forall|i: int|
                0 <= i < v.to_vm_buffer.len() ==> (#[trigger] v.to_vm_buffer[i]).len() >= 14
            &&& forall|i: int|
                0 <= i < v.in_flight.len() ==> (#[trigger] v.in_flight[i]).packet.len() >= 14
        },
        _ => true,
    }
}

// --- What the host stream does ---

/// The data that waits for the host, in order.
pub open spec fn pending(st: StateView) -> Seq<Seq<u8>> {
    match st {
        StateView::Established(v) => v.write_buffer,
        StateView::Simple(v) => v.to_host_buffer,
        _ => Seq::empty(),
    }
}

/// Whether a readiness event has data read from the host.
pub open spec fn will_read(st: StateView, is_readable: bool) -> bool {
    match st {
        StateView::Established(v) => established_will_read(v, is_readable),
        StateView::Simple(v) => simple_will_read(v, is_readable),
        _ => false,
    }
}

/// Whether enough has been read for now: the buffer is full, or there is enough for a packet
/// and the stream hands out little at a time.
pub open spec fn read_enough(data: Seq<u8>, last: nat) -> bool {
    data.len() >= READ_BUFFER_SIZE || (data.len() >= MAX_SEGMENT_SIZE && last < MAX_SEGMENT_SIZE
        / 4)
}

/// Whether reading on from `sofar`, until the stream has no more for now or there is enough,
/// makes these calls, and comes to this.
pub open spec fn read_run(
    sofar: Seq<u8>,
    calls: Seq<HostCall>,
    data: Seq<u8>,
    eof: bool,
    failed: bool,
) -> bool
    decreases calls.len(),
{
    &&& calls.len() > 0
    &&& match calls[0] {
        HostCall::Read { max, got } => {
            &&& max == READ_BUFFER_SIZE - sofar.len()
            &&& match got {
                ReadView::Data(d) => {
                    let next = sofar + d;
                    if d.len() == 0 {
                        calls.len() == 1 && data == sofar && eof == (sofar.len() == 0) && !failed
                    } else if read_enough(next, d.len()) {
                        calls.len() == 1 && data == next && !eof && !failed
                    } else {
                        read_run(next, calls.skip(1), data, eof, failed)
                    }
                },
                ReadView::WouldBlock => calls.len() == 1 && data == sofar && !eof && !failed,
                _ => calls.len() == 1 && data == sofar && !eof && failed,
            }
        },
        _ => false,
    }
}

/// Whether one read makes these calls, and comes to this.
pub open spec fn read_once(calls: Seq<HostCall>, data: Seq<u8>, eof: bool, failed: bool) -> bool {
    &&& calls.len() == 1
    &&& match calls[0] {
        HostCall::Read { max, got } => {
            &&& max == READ_BUFFER_SIZE
            &&& match got {
                ReadView::Data(d) => data == d && eof == (d.len() == 0) && !failed,
                ReadView::WouldBlock => data.len() == 0 && !eof && !failed,
                _ => data.len() == 0 && !eof && failed,
            }
        },
        _ => false,
    }
}

/// Whether a host stream that is read from where the state has it read can have handed out
/// this.
pub open spec fn reads_fit(st: StateView, is_readable: bool, io: HostIo) -> bool {
    if will_read(st, is_readable) {
        match st {
            StateView::Simple(_) => read_once(io.reads, io.data, io.eof, io.failed),
            _ => read_run(Seq::empty(), io.reads, io.data, io.eof, io.failed),
        }
    } else {
        io.reads.len() == 0 && io.data.len() == 0 && !io.eof && !io.failed
    }
}

/// Whether a readiness event has data written to the host.
pub open spec fn will_write(st: StateView, is_readable: bool, is_writable: bool, io: HostIo) -> bool {
    match st {
        StateView::Established(v) => is_writable && !(will_read(st, is_readable) && io.failed),
        StateView::Simple(v) => is_writable && v.to_host_buffer.len() > 0 && v.state
            != SimpleConnectionState::Connecting,
        _ => false,
    }
}

/// Whether writing shows that the host is closed.
pub open spec fn shows_closed(end: WriteEnd) -> bool {
    end == WriteEnd::Closed || end == WriteEnd::Failed
}

/// Writing chunks and, where some are left and the stream has ended, trying once more.
pub open spec fn write_twice(
    q: Seq<Seq<u8>>,
    io: HostIo,
    first: int,
    end: WriteEnd,
    last: WriteEnd,
) -> bool {
    &&& 0 <= first
    &&& write_run(q, io.writes, first, end)
    &&& if (io.eof || io.failed) && drop_bytes(q, first as nat).len() > 0 {
        write_run(drop_bytes(q, first as nat), io.again, io.written - first, last)
    } else {
        io.again.len() == 0 && io.written == first
    }
}

/// Whether a host stream that is written to where the state has it written can have taken
/// this.
pub open spec fn writes_fit(
    st: StateView,
    is_readable: bool,
    is_writable: bool,
    io: HostIo,
) -> bool {
    if will_write(st, is_readable, is_writable, io) {
        match st {
            StateView::Simple(v) => {
                &&& !io.write_closed
                &&& exists|first: int, end: WriteEnd, last: WriteEnd| #[trigger]
                    write_twice(v.to_host_buffer, io, first, end, last)
            },
            _ => {
                &&& io.again.len() == 0
                &&& exists|end: WriteEnd| #[trigger]
                    write_run(pending(st), io.writes, io.written as int, end) && io.write_closed
                        == shows_closed(end)
            },
        }
    } else {
        io.writes.len() == 0 && io.again.len() == 0 && io.written == 0 && !io.write_closed
    }
}

/// What a host stream did during one readiness event, told by the calls it saw.
pub open spec fn host_did<H: TracedStream>(
    before: H,
    after: H,
    st: StateView,
    is_readable: bool,
    is_writable: bool,
    io: HostIo,
) -> bool {
    &&& after.calls() == before.calls() + (io.reads + io.writes + io.again)
    &&& reads_fit(st, is_readable, io)
    &&& writes_fit(st, is_readable, is_writable, io)
}

// --- Well-formed states ---

pub open spec fn state_wf(st: StateView) -> bool {
    match st {
        StateView::EgressConnecting { vm_options, .. } => scale_of(vm_options) < 32,
        StateView::Established(v) => established_wf(v),
        StateView::Simple(v) => simple_wf(v),
        _ => true,
    }
}

/// Whether a state can take a packet with this payload.
pub open spec fn state_takes(st: StateView, payload: Seq<u8>) -> bool {
    match st {
        StateView::Established(v) => established_takes(v, payload),
        StateView::Simple(v) => simple_takes(v, payload),
        _ => state_wf(st),
    }
}

} // verus!
