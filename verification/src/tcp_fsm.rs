//! The TCP state machine that the proxy runs towards the virtual machine.
use bytes::{Bytes, BytesMut};
use vstd::prelude::*;

use crate::addr::{flip_key, Instant, Interest, MacAddr, NatKey};
use crate::buffer::bytes_view;
use crate::chance::random_u32;
use crate::host::TracedStream;
use crate::packet_utils::build_tcp_packet;
use crate::simple_tcp::{
    simple_event, simple_start, simple_wf, SimpleConnectionState, SimpleTcpConnection,
    SIMPLE_BUFFER_SIZE,
};
use crate::tcp_fsm::model::{
    action_view, event_step, host_did, overdue, packet_step, pending, popped, queued, retransmitted,
    state_takes, state_wf, to_vm, EstablishedView, HostIo, StateView,
};
use crate::wire::{TcpSegment, FIN, SYN};

pub mod established;
pub mod handshake;
pub mod invariants;
pub mod model;
pub mod states;
pub mod teardown;

verus! {

/// How many packets are queued for the machine before reading from the host stops.
pub const TCP_BUFFER_SIZE: usize = 32;

/// How short the queue for the machine has to get before reading from the host resumes.
pub const TCP_BUFFER_UNPAUSE_THRESHOLD: usize = TCP_BUFFER_SIZE / 2;

/// How many packets may be in flight before reading from the host stops.
pub const MAX_IN_FLIGHT_PACKETS: usize = TCP_BUFFER_SIZE * 10;

/// How few packets have to be in flight before reading from the host resumes.
pub const UNPAUSE_IN_FLIGHT_THRESHOLD: usize = TCP_BUFFER_SIZE * 2;

/// The most data that one packet to the machine carries.
pub const MAX_SEGMENT_SIZE: usize = 1460;

/// How many bytes may wait for the host before data from the machine is dropped.
pub const HOST_WRITE_BUFFER_HIGH_WATER: usize = 65536;

/// How few bytes have to wait for the host before data from the machine is taken again.
pub const HOST_WRITE_BUFFER_LOW_WATER: usize = 65536;

/// How long to wait between two probes of a closed window: half a second.
pub const ZERO_WINDOW_PROBE_INTERVAL: u64 = 500_000_000;

/// How long a connection may be idle before it counts as stalled: five minutes.
pub const CONNECTION_STALL_TIMEOUT: u64 = 300_000_000_000;

/// The options that the machine asked for in its SYN.
#[derive(Debug, Clone, Copy)]
pub struct TcpNegotiatedOptions {
    pub window_scale: Option<u8>,
    pub sack_permitted: bool,
    pub timestamp: Option<(u32, u32)>,
}

impl Default for TcpNegotiatedOptions {
    fn default() -> (r: Self)
        ensures
            r == (TcpNegotiatedOptions {
                window_scale: None,
                sack_permitted: false,
                timestamp: None,
            }),
    {
        TcpNegotiatedOptions { window_scale: None, sack_permitted: false, timestamp: None }
    }
}

/// What a connection asks the proxy to do.
#[derive(Debug, PartialEq)]
pub enum ProxyAction {
    SendControlPacket(Bytes),
    Reregister(Interest),
    Deregister,
    ShutdownHostWrite,
    EnterTimeWait,
    ScheduleRemoval,
    DoNothing,
    Multi(Vec<ProxyAction>),
}

/// A connection in a given state over a given kind of host stream.
pub struct TcpConnection<State, H> {
    pub stream: H,
    pub nat_key: NatKey,
    pub state: State,
    pub packet_buf: BytesMut,
}

impl<S, H> TcpConnection<S, H> {
    /// Takes the connection into another state.
    pub fn transition<NewState>(self, state: NewState) -> (r: TcpConnection<NewState, H>)
        ensures
            r.stream == self.stream,
            r.nat_key == self.nat_key,
            r.state == state,
            r.packet_buf == self.packet_buf,
    {
        TcpConnection {
            stream: self.stream,
            nat_key: self.nat_key,
            state,
            packet_buf: self.packet_buf,
        }
    }
}

/// A connection in any state.
pub enum AnyConnection<H> {
    EgressConnecting(TcpConnection<states::EgressConnecting, H>),
    IngressConnecting(TcpConnection<states::IngressConnecting, H>),
    Established(TcpConnection<states::Established, H>),
    FinWait1(TcpConnection<states::FinWait1, H>),
    FinWait2(TcpConnection<states::FinWait2, H>),
    CloseWait(TcpConnection<states::CloseWait, H>),
    LastAck(TcpConnection<states::LastAck, H>),
    TimeWait(TcpConnection<states::TimeWait, H>),
    Closing(TcpConnection<states::Closing, H>),
    Listen(TcpConnection<states::Listen, H>),
    Closed(TcpConnection<states::Closed, H>),
    Simple(SimpleTcpConnection<H>),
}

impl<H> AnyConnection<H> {
    /// The flow of the connection, as the machine sees it.
    pub open spec fn key(&self) -> NatKey {
        match self {
            AnyConnection::EgressConnecting(c) => c.nat_key,
            AnyConnection::IngressConnecting(c) => c.nat_key,
            AnyConnection::Established(c) => c.nat_key,
            AnyConnection::FinWait1(c) => c.nat_key,
            AnyConnection::FinWait2(c) => c.nat_key,
            AnyConnection::CloseWait(c) => c.nat_key,
            AnyConnection::LastAck(c) => c.nat_key,
            AnyConnection::TimeWait(c) => c.nat_key,
            AnyConnection::Closing(c) => c.nat_key,
            AnyConnection::Listen(c) => c.nat_key,
            AnyConnection::Closed(c) => c.nat_key,
            AnyConnection::Simple(c) => c.nat_key,
        }
    }

    /// The host side of the connection.
    pub open spec fn host(&self) -> H {
        match self {
            AnyConnection::EgressConnecting(c) => c.stream,
            AnyConnection::IngressConnecting(c) => c.stream,
            AnyConnection::Established(c) => c.stream,
            AnyConnection::FinWait1(c) => c.stream,
            AnyConnection::FinWait2(c) => c.stream,
            AnyConnection::CloseWait(c) => c.stream,
            AnyConnection::LastAck(c) => c.stream,
            AnyConnection::TimeWait(c) => c.stream,
            AnyConnection::Closing(c) => c.stream,
            AnyConnection::Listen(c) => c.stream,
            AnyConnection::Closed(c) => c.stream,
            AnyConnection::Simple(c) => c.stream,
        }
    }
}

impl<H> View for AnyConnection<H> {
    type V = StateView;

    open spec fn view(&self) -> StateView {
        match self {
            AnyConnection::EgressConnecting(c) => StateView::EgressConnecting {
                vm_initial_seq: c.state.vm_initial_seq,
                tx_seq: c.state.tx_seq,
                vm_options: c.state.vm_options,
            },
            AnyConnection::IngressConnecting(c) => StateView::IngressConnecting {
                tx_seq: c.state.tx_seq,
                rx_seq: c.state.rx_seq,
            },
            AnyConnection::Established(c) => StateView::Established(c.state@),
            AnyConnection::FinWait1(c) => StateView::FinWait1 {
                fin_seq: c.state.fin_seq,
                rx_seq: c.state.rx_seq,
            },
            AnyConnection::FinWait2(c) => StateView::FinWait2 { rx_seq: c.state.rx_seq },
            AnyConnection::CloseWait(c) => StateView::CloseWait {
                tx_seq: c.state.tx_seq,
                rx_seq: c.state.rx_seq,
            },
            AnyConnection::LastAck(c) => StateView::LastAck { fin_seq: c.state.fin_seq },
            AnyConnection::TimeWait(_) => StateView::TimeWait,
            AnyConnection::Closing(c) => StateView::Closing {
                fin_seq: c.state.fin_seq,
                rx_seq: c.state.rx_seq,
            },
            AnyConnection::Listen(c) => StateView::Listen { listen_port: c.state.listen_port },
            AnyConnection::Closed(_) => StateView::Closed,
            AnyConnection::Simple(c) => StateView::Simple(c@),
        }
    }
}

/// What a packet from the machine makes of a connection and asks for.
pub open spec fn answers<H>(
    before: AnyConnection<H>,
    tcp: TcpSegment,
    proxy_mac: MacAddr,
    vm_mac: MacAddr,
    now: Instant,
    r: (AnyConnection<H>, ProxyAction),
) -> bool {
    &&& r.0.key() == before.key()
    &&& r.0.host() == before.host()
    &&& (r.0@, action_view(r.1)) == packet_step(
        before.key(),
        before@,
        tcp@,
        proxy_mac,
        vm_mac,
        now,
    )
    &&& state_wf(r.0@)
}

/// What a readiness event of the host makes of a connection and asks for, whatever the host
/// did.
#[verifier::opaque]
pub open spec fn reacts<H: TracedStream>(
    before: AnyConnection<H>,
    is_readable: bool,
    is_writable: bool,
    proxy_mac: MacAddr,
    vm_mac: MacAddr,
    now: Instant,
    r: (AnyConnection<H>, ProxyAction),
) -> bool {
    &&& r.0.key() == before.key()
    &&& state_wf(r.0@)
    &&& exists|io: HostIo| #[trigger]
        host_did(before.host(), r.0.host(), before@, is_readable, is_writable, io) && (
        r.0@,
        action_view(r.1),
    ) == event_step(
            before.key(),
            before@,
            is_readable,
            is_writable,
            io,
            proxy_mac,
            vm_mac,
            now,
        )
}

/// What every state can do.
pub trait TcpState<H: TracedStream>: Sized {
    /// The connection that is in this state.
    spec fn any(self) -> AnyConnection<H>;

    /// Handles a packet from the machine.
    fn handle_packet(
        self,
        tcp: &TcpSegment,
        proxy_mac: MacAddr,
        vm_mac: MacAddr,
        now: Instant,
    ) -> (r: (AnyConnection<H>, ProxyAction))
        requires
            state_takes(self.any()@, tcp@.payload),
        ensures
            answers(self.any(), *tcp, proxy_mac, vm_mac, now, r),
    ;

    /// Handles a readiness event of the host.
    fn handle_event(
        self,
        is_readable: bool,
        is_writable: bool,
        proxy_mac: MacAddr,
        vm_mac: MacAddr,
        now: Instant,
    ) -> (r: (AnyConnection<H>, ProxyAction))
        requires
            state_wf(self.any()@),
        ensures
            reacts(self.any(), is_readable, is_writable, proxy_mac, vm_mac, now, r),
    ;
}

/// How many sequence numbers a packet uses: one for each byte, one for a SYN and one for a
/// FIN.
pub fn sequence_space_consumed(tcp: &TcpSegment) -> (r: u32)
    requires
        tcp@.payload.len() <= 0xffff_fffd,
    ensures
        r == tcp@.payload.len() + (if tcp@.flags & SYN != 0 {
            1int
        } else {
            0
        }) + (if tcp@.flags & FIN != 0 {
            1int
        } else {
            0
        }),
{
    let mut len: u32 = tcp.payload.len() as u32;
    if (tcp.flags & SYN) != 0 {
        len = len + 1;
    }
    if (tcp.flags & FIN) != 0 {
        len = len + 1;
    }
    len
}

// --- Making connections ---

impl<H: TracedStream> AnyConnection<H> {
    /// Starts a connection that the machine asked for, with an initial sequence number of its
    /// own.
    pub fn new_egress(
        stream: H,
        nat_key: NatKey,
        vm_initial_seq: u32,
        vm_options: TcpNegotiatedOptions,
    ) -> (r: Self)
        ensures
            r.key() == nat_key,
            r.host() == stream,
            r@ matches StateView::EgressConnecting {
                vm_initial_seq: seq,
                vm_options: options,
                ..
            } && seq == vm_initial_seq && options == vm_options,
    {
        Self::egress_from(stream, nat_key, vm_initial_seq, vm_options, random_u32())
    }

    /// Starts a connection that the machine asked for, with a given initial sequence number.
    pub fn egress_from(
        stream: H,
        nat_key: NatKey,
        vm_initial_seq: u32,
        vm_options: TcpNegotiatedOptions,
        tx_seq: u32,
    ) -> (r: Self)
        ensures
            r.key() == nat_key,
            r.host() == stream,
            r@ == (StateView::EgressConnecting { vm_initial_seq, tx_seq, vm_options }),
    {
        AnyConnection::EgressConnecting(
            TcpConnection {
                stream,
                nat_key,
                state: states::EgressConnecting { vm_initial_seq, tx_seq, vm_options },
                packet_buf: BytesMut::with_capacity(2048),
            },
        )
    }

    /// Starts a connection to the machine, with an initial sequence number of its own, and
    /// gives the SYN to send.
    pub fn new_ingress(
        stream: H,
        nat_key: NatKey,
        packet_buf: &mut BytesMut,
        proxy_mac: MacAddr,
        vm_mac: MacAddr,
    ) -> (r: (Self, Bytes))
        ensures
            r.0.key() == nat_key,
            r.0.host() == stream,
            exists|initial_seq: u32|
                r.0@ == (StateView::IngressConnecting {
                    tx_seq: initial_seq.wrapping_add(1),
                    rx_seq: 0,
                }) && bytes_view(r.1) == #[trigger] to_vm(
                    nat_key,
                    initial_seq,
                    0,
                    Seq::empty(),
                    SYN,
                    proxy_mac,
                    vm_mac,
                ),
    {
        Self::ingress_from(stream, nat_key, packet_buf, proxy_mac, vm_mac, random_u32())
    }

    /// Starts a connection to the machine, with a given initial sequence number, and gives the
    /// SYN to send.
    pub fn ingress_from(
        stream: H,
        nat_key: NatKey,
        packet_buf: &mut BytesMut,
        proxy_mac: MacAddr,
        vm_mac: MacAddr,
        initial_seq: u32,
    ) -> (r: (Self, Bytes))
        ensures
            r.0.key() == nat_key,
            r.0.host() == stream,
            r.0@ == (StateView::IngressConnecting {
                tx_seq: initial_seq.wrapping_add(1),
                rx_seq: 0,
            }),
            bytes_view(r.1) == to_vm(
                nat_key,
                initial_seq,
                0,
                Seq::empty(),
                SYN,
                proxy_mac,
                vm_mac,
            ),
    {
        let conn = AnyConnection::IngressConnecting(
            TcpConnection {
                stream,
                nat_key,
                state: states::IngressConnecting {
                    tx_seq: initial_seq.wrapping_add(1),
                    rx_seq: 0,
                },
                packet_buf: BytesMut::with_capacity(2048),
            },
        );
        let syn_packet = build_tcp_packet(
            packet_buf,
            flip_key(nat_key),
            initial_seq,
            0,
            None,
            Some(SYN),
            proxy_mac,
            vm_mac,
        );
        (conn, syn_packet)
    }

    /// Starts a simple connection that the machine asked for.
    pub fn new_simple(stream: H, nat_key: NatKey, vm_initial_seq: u32) -> (r: Self)
        ensures
            r.key() == nat_key,
            r.host() == stream,
            r@ matches StateView::Simple(v) && v == simple_start(
                vm_initial_seq,
                v.host_initial_seq,
            ),
    {
        AnyConnection::Simple(SimpleTcpConnection::new(stream, nat_key, vm_initial_seq))
    }
}

// --- Handling packets and readiness events ---

impl<H: TracedStream> AnyConnection<H> {
    /// Handles a packet from the machine.
    pub fn handle_packet(
        self,
        tcp_packet: &TcpSegment,
        proxy_mac: MacAddr,
        vm_mac: MacAddr,
        now: Instant,
    ) -> (r: (Self, ProxyAction))
        requires
            state_takes(self@, tcp_packet@.payload),
        ensures
            answers(self, *tcp_packet, proxy_mac, vm_mac, now, r),
    {
        match self {
            AnyConnection::EgressConnecting(c) => {
                c.handle_packet(tcp_packet, proxy_mac, vm_mac, now)
            },
            AnyConnection::IngressConnecting(c) => {
                c.handle_packet(tcp_packet, proxy_mac, vm_mac, now)
            },
            AnyConnection::Established(c) => c.handle_packet(tcp_packet, proxy_mac, vm_mac, now),
            AnyConnection::FinWait1(c) => c.handle_packet(tcp_packet, proxy_mac, vm_mac, now),
            AnyConnection::FinWait2(c) => c.handle_packet(tcp_packet, proxy_mac, vm_mac, now),
            AnyConnection::CloseWait(c) => c.handle_packet(tcp_packet, proxy_mac, vm_mac, now),
            AnyConnection::LastAck(c) => c.handle_packet(tcp_packet, proxy_mac, vm_mac, now),
            AnyConnection::TimeWait(c) => c.handle_packet(tcp_packet, proxy_mac, vm_mac, now),
            AnyConnection::Closing(c) => c.handle_packet(tcp_packet, proxy_mac, vm_mac, now),
            AnyConnection::Listen(c) => c.handle_packet(tcp_packet, proxy_mac, vm_mac, now),
            AnyConnection::Closed(c) => c.handle_packet(tcp_packet, proxy_mac, vm_mac, now),
            AnyConnection::Simple(c) => {
                let mut conn = c;
                let action = conn.handle_vm_packet(tcp_packet, proxy_mac, vm_mac);
                (AnyConnection::Simple(conn), action)
            },
        }
    }

    /// Handles a readiness event of the host.
    pub fn handle_event(
        self,
        is_readable: bool,
        is_writable: bool,
        proxy_mac: MacAddr,
        vm_mac: MacAddr,
        now: Instant,
    ) -> (r: (Self, ProxyAction))
        requires
            state_wf(self@),
        ensures
            reacts(self, is_readable, is_writable, proxy_mac, vm_mac, now, r),
    {
        match self {
            AnyConnection::EgressConnecting(c) => {
                c.handle_event(is_readable, is_writable, proxy_mac, vm_mac, now)
            },
            AnyConnection::IngressConnecting(c) => {
                c.handle_event(is_readable, is_writable, proxy_mac, vm_mac, now)
            },
            AnyConnection::Established(c) => {
                c.handle_event(is_readable, is_writable, proxy_mac, vm_mac, now)
            },
            AnyConnection::FinWait1(c) => {
                c.handle_event(is_readable, is_writable, proxy_mac, vm_mac, now)
            },
            AnyConnection::FinWait2(c) => {
                c.handle_event(is_readable, is_writable, proxy_mac, vm_mac, now)
            },
            AnyConnection::CloseWait(c) => {
                c.handle_event(is_readable, is_writable, proxy_mac, vm_mac, now)
            },
            AnyConnection::LastAck(c) => {
                c.handle_event(is_readable, is_writable, proxy_mac, vm_mac, now)
            },
            AnyConnection::TimeWait(c) => {
                c.handle_event(is_readable, is_writable, proxy_mac, vm_mac, now)
            },
            AnyConnection::Closing(c) => {
                c.handle_event(is_readable, is_writable, proxy_mac, vm_mac, now)
            },
            AnyConnection::Listen(c) => {
                c.handle_event(is_readable, is_writable, proxy_mac, vm_mac, now)
            },
            AnyConnection::Closed(c) => {
                c.handle_event(is_readable, is_writable, proxy_mac, vm_mac, now)
            },
            AnyConnection::Simple(c) => {
                Self::simple_event(c, is_readable, is_writable, proxy_mac, vm_mac, now)
            },
        }
    }

    /// Handles a readiness event of the host on a simple connection.
    fn simple_event(
        c: SimpleTcpConnection<H>,
        is_readable: bool,
        is_writable: bool,
        proxy_mac: MacAddr,
        vm_mac: MacAddr,
        now: Instant,
    ) -> (r: (Self, ProxyAction))
        requires
            simple_wf(c@),
        ensures
            reacts(
                AnyConnection::Simple(c),
                is_readable,
                is_writable,
                proxy_mac,
                vm_mac,
                now,
                r,
            ),
    {
        let mut conn = c;
        let action = conn.handle_host_event(is_readable, is_writable, proxy_mac, vm_mac);
        let r = (AnyConnection::Simple(conn), action);
        proof {
            reveal(reacts);
            let before = AnyConnection::Simple(c);
            let io = choose|io: HostIo| #[trigger]
                host_did(c.stream, conn.stream, before@, is_readable, is_writable, io) && (
                conn@,
                action_view(action),
            ) == simple_event(
                    c.nat_key,
                    c@,
                    is_readable,
                    is_writable,
                    io,
                    proxy_mac,
                    vm_mac,
                );
            assert(host_did(
                before.host(),
                r.0.host(),
                before@,
                is_readable,
                is_writable,
                io,
            ));
        }
        r
    }
}

// --- What the proxy asks of a connection ---

impl<H: TracedStream> AnyConnection<H> {
    /// The host side of the connection, which is over.
    pub fn into_stream(self) -> (r: H)
        ensures
            r == self.host(),
    {
        match self {
            AnyConnection::EgressConnecting(c) => c.stream,
            AnyConnection::IngressConnecting(c) => c.stream,
            AnyConnection::Established(c) => c.stream,
            AnyConnection::FinWait1(c) => c.stream,
            AnyConnection::FinWait2(c) => c.stream,
            AnyConnection::CloseWait(c) => c.stream,
            AnyConnection::LastAck(c) => c.stream,
            AnyConnection::TimeWait(c) => c.stream,
            AnyConnection::Closing(c) => c.stream,
            AnyConnection::Listen(c) => c.stream,
            AnyConnection::Closed(c) => c.stream,
            AnyConnection::Simple(c) => c.stream,
        }
    }

    /// The host side of the connection.
    pub fn stream_mut(&mut self) -> (r: &mut H)
        ensures
            *r == old(self).host(),
            final(self).host() == *final(r),
            final(self).key() == old(self).key(),
            final(self)@ == old(self)@,
    {
        match self {
            AnyConnection::EgressConnecting(c) => &mut c.stream,
            AnyConnection::IngressConnecting(c) => &mut c.stream,
            AnyConnection::Established(c) => &mut c.stream,
            AnyConnection::FinWait1(c) => &mut c.stream,
            AnyConnection::FinWait2(c) => &mut c.stream,
            AnyConnection::CloseWait(c) => &mut c.stream,
            AnyConnection::LastAck(c) => &mut c.stream,
            AnyConnection::TimeWait(c) => &mut c.stream,
            AnyConnection::Closing(c) => &mut c.stream,
            AnyConnection::Listen(c) => &mut c.stream,
            AnyConnection::Closed(c) => &mut c.stream,
            AnyConnection::Simple(c) => &mut c.stream,
        }
    }

    /// Whether the queue for the machine is full.
    pub fn is_send_buffer_full(&self) -> (r: bool)
        ensures
            r == match self@ {
                StateView::Established(v) => v.to_vm_buffer.len() >= TCP_BUFFER_SIZE,
                StateView::Simple(v) => v.to_vm_buffer.len() >= SIMPLE_BUFFER_SIZE,
                _ => false,
            },
    {
        match self {
            AnyConnection::Established(c) => c.state.to_vm_buffer.len() >= TCP_BUFFER_SIZE,
            AnyConnection::Simple(c) => c.to_vm_buffer.len() >= SIMPLE_BUFFER_SIZE,
            _ => false,
        }
    }

    /// How many packets wait for the machine.
    pub fn send_buffer_len(&self) -> (r: usize)
        ensures
            r == queued(self@).len(),
    {
        match self {
            AnyConnection::Established(c) => c.state.to_vm_buffer.len(),
            AnyConnection::Simple(c) => c.to_vm_buffer.len(),
            _ => 0,
        }
    }

    /// Whether packets wait for the machine.
    pub fn has_data_for_vm(&self) -> (r: bool)
        ensures
            r == (queued(self@).len() > 0),
    {
        match self {
            AnyConnection::Established(c) => c.state.to_vm_buffer.len() > 0,
            AnyConnection::Simple(c) => c.has_data_for_vm(),
            _ => false,
        }
    }

    /// Whether data waits for the host.
    pub fn has_data_for_host(&self) -> (r: bool)
        ensures
            r == (pending(self@).len() > 0),
    {
        match self {
            AnyConnection::Established(c) => c.state.write_buffer.len() > 0,
            AnyConnection::Simple(c) => c.has_data_for_host(),
            _ => false,
        }
    }

    pub fn can_read_from_host(&self) -> (r: bool)
        ensures
            r == match self@ {
                StateView::Established(_) => true,
                StateView::Simple(v) => v.host_can_read && v.state
                    == SimpleConnectionState::Established,
                _ => false,
            },
    {
        match self {
            AnyConnection::Established(_) => true,
            AnyConnection::Simple(c) => c.can_read_from_host(),
            _ => false,
        }
    }

    /// Whether a simple connection's window opened since this was last asked.
    pub fn window_just_opened(&mut self) -> (r: bool)
        ensures
            final(self).key() == old(self).key(),
            final(self).host() == old(self).host(),
            match old(self)@ {
                StateView::Simple(v) => r == v.window_just_opened && final(self)@
                    == StateView::Simple(
                    crate::simple_tcp::SimpleView { window_just_opened: false, ..v },
                ),
                st => !r && final(self)@ == st,
            },
    {
        match self {
            AnyConnection::Simple(c) => c.window_just_opened(),
            _ => false,
        }
    }

    /// Takes the next packet for the machine off the queue and notes that it was sent.
    pub fn get_packet_to_send_to_vm(&mut self, now: Instant) -> (r: Option<Bytes>)
        requires
            old(self)@ is Established && queued(old(self)@).len() > 0 ==> queued(
                old(self)@,
            )[0].len() >= 14,
        ensures
            final(self).key() == old(self).key(),
            final(self).host() == old(self).host(),
            r is Some <==> queued(old(self)@).len() > 0,
            r matches Some(p) ==> bytes_view(p) == queued(old(self)@)[0],
            final(self)@ == popped(old(self)@, now),
    {
        match self {
            AnyConnection::Established(c) => c.state.pop_packet(now),
            AnyConnection::Simple(c) => c.get_packet_to_send_to_vm(),
            _ => None,
        }
    }

    /// Queues the oldest packet in flight again when it is overdue, and says whether it was.
    pub fn check_for_retransmit(&mut self, rto_duration: u64, now: Instant) -> (r: bool)
        ensures
            final(self).key() == old(self).key(),
            final(self).host() == old(self).host(),
            r == overdue(old(self)@, rto_duration, now),
            final(self)@ == retransmitted(old(self)@, rto_duration, now),
    {
        match self {
            AnyConnection::Established(c) => c.state.retransmit_overdue(rto_duration, now),
            _ => false,
        }
    }

    /// When the host last showed activity, where that is kept.
    pub fn get_last_activity(&self) -> (r: Option<Instant>)
        ensures
            r == match self@ {
                StateView::Established(v) => Some(v.last_activity),
                _ => None,
            },
    {
        match self {
            AnyConnection::Established(c) => Some(c.state.last_activity),
            _ => None,
        }
    }

    /// The readiness events that the host socket is registered for.
    pub fn get_current_interest(&self) -> (r: Interest)
        ensures
            r == match self@ {
                StateView::Established(v) => v.current_interest,
                StateView::Simple(_) => Interest::Both,
                _ => Interest::Readable,
            },
    {
        match self {
            AnyConnection::Established(c) => c.state.current_interest,
            AnyConnection::Simple(_) => Interest::Both,
            _ => Interest::Readable,
        }
    }

    /// The host side of the connection, for registering it.
    pub fn get_host_stream_mut(&mut self) -> (r: &mut H)
        ensures
            *r == old(self).host(),
            final(self).host() == *final(r),
            final(self).key() == old(self).key(),
            final(self)@ == old(self)@,
    {
        self.stream_mut()
    }

    /// Notes activity of the host, where that is kept.
    pub fn update_last_activity(&mut self, now: Instant)
        ensures
            final(self).key() == old(self).key(),
            final(self).host() == old(self).host(),
            final(self)@ == match old(self)@ {
                StateView::Established(v) => StateView::Established(
                    EstablishedView { last_activity: now, ..v },
                ),
                st => st,
            },
    {
        match self {
            AnyConnection::Established(c) => {
                c.state.last_activity = now;
                assert(c.state@ =~= (EstablishedView { last_activity: now, ..c.state@ }));
            },
            _ => {},
        }
    }
}

} // verus!
