//! A proxy that writes what the machine sends straight to the host, as far as the host takes
//! it, and pauses reading from the host while too much waits for the machine.
use bytes::{Bytes, BytesMut};
use std::collections::{HashMap, HashSet, VecDeque};
use vstd::prelude::*;

use crate::addr::{Instant, NatKey, Token};
use crate::buffer::{buf_view, bytes_view, flat, views};
use crate::host::{HostCall, TracedStream};
use crate::packet_utils::{
    arp_reply_frame, fill_arp_reply, flags_of, payload_of, same_family,
};
use crate::proxy::{nat_agrees, proxy_ip, proxy_mac};
use crate::tables::NatTable;
use crate::udp::{UdpFlows, UdpView};
use crate::vm_frames::{
    fill_vm_datagram, fill_vm_frame, tcp_fits, udp_fits, vm_datagram, vm_frame,
};
use crate::wire::{ArpPacket, ARP_LEN};

pub mod duty_laws;
pub mod events;
pub mod frames;
pub mod packet_dumper;
pub mod laws;
pub mod service_laws;
pub mod packets;

verus! {

broadcast use vstd::std_specs::hash::group_hash_axioms;

/// How often the host is read from for one readiness event.
pub const HOST_READ_BUDGET: usize = 1;

/// How many packets may wait for the machine before reading from the host is paused.
pub const MAX_PROXY_QUEUE_SIZE: usize = 32;

/// How many bytes are read from the host at a time.
pub const READ_BUFFER_SIZE: usize = 16384;

// --- Connections by state ---

#[derive(Debug, Clone)]
pub struct EgressConnecting;

#[derive(Debug, Clone)]
pub struct IngressConnecting;

#[derive(Debug, Clone)]
pub struct Established;

#[derive(Debug, Clone)]
pub struct Closing;

/// A connection in a given state.
pub struct TcpConnection<State, H> {
    pub stream: H,
    pub tx_seq: u32,
    pub tx_ack: u32,
    pub write_buffer: VecDeque<Bytes>,
    pub to_vm_buffer: VecDeque<Bytes>,
    pub state: State,
}

/// A connection in any state.
pub enum AnyConnection<H> {
    EgressConnecting(TcpConnection<EgressConnecting, H>),
    IngressConnecting(TcpConnection<IngressConnecting, H>),
    Established(TcpConnection<Established, H>),
    Closing(TcpConnection<Closing, H>),
}

/// The states in which a connection is still being made.
pub trait ConnectingState {

}

impl ConnectingState for EgressConnecting {

}

impl ConnectingState for IngressConnecting {

}

/// The numbers and queues of a connection.
#[verifier::ext_equal]
pub struct Flow {
    pub tx_seq: u32,
    pub tx_ack: u32,
    pub write_buffer: Seq<Seq<u8>>,
    pub to_vm_buffer: Seq<Seq<u8>>,
}

/// The state that a connection is in.
pub enum Phase {
    EgressConnecting,
    IngressConnecting,
    Established,
    Closing,
}

/// What a connection is, beside its host stream.
#[verifier::ext_equal]
pub struct ConnView {
    pub phase: Phase,
    pub flow: Flow,
}

impl<State, H> TcpConnection<State, H> {
    pub open spec fn flow(&self) -> Flow {
        Flow {
            tx_seq: self.tx_seq,
            tx_ack: self.tx_ack,
            write_buffer: views(self.write_buffer@),
            to_vm_buffer: views(self.to_vm_buffer@),
        }
    }

    /// The host side of the connection.
    pub fn stream_mut(&mut self) -> (r: &mut H)
        ensures
            *r == old(self).stream,
            *final(self) == (TcpConnection { stream: *final(r), ..*old(self) }),
    {
        &mut self.stream
    }
}

impl<S: ConnectingState, H: TracedStream> TcpConnection<S, H> {
    /// Data flows from now on.
    pub fn establish(self) -> (r: TcpConnection<Established, H>)
        ensures
            r.flow() == self.flow(),
            r.stream == self.stream,
            r.write_buffer == self.write_buffer,
            r.to_vm_buffer == self.to_vm_buffer,
    {
        TcpConnection {
            stream: self.stream,
            tx_seq: self.tx_seq,
            tx_ack: self.tx_ack,
            write_buffer: self.write_buffer,
            to_vm_buffer: self.to_vm_buffer,
            state: Established,
        }
    }
}

impl<H: TracedStream> TcpConnection<Established, H> {
    /// Tells the host that no more data will come, and waits for the end from now on.
    pub fn close(self) -> (r: TcpConnection<Closing, H>)
        ensures
            r.flow() == self.flow(),
            exists|ok: bool|
                r.stream.calls() == #[trigger] self.stream.calls().push(
                    HostCall::ShutdownWrite { ok },
                ),
    {
        let mut stream = self.stream;
        let _ = stream.shutdown_write();
        TcpConnection {
            stream,
            tx_seq: self.tx_seq,
            tx_ack: self.tx_ack,
            write_buffer: self.write_buffer,
            to_vm_buffer: self.to_vm_buffer,
            state: Closing,
        }
    }
}

impl<H> View for AnyConnection<H> {
    type V = ConnView;

    open spec fn view(&self) -> ConnView {
        match self {
            AnyConnection::EgressConnecting(c) => ConnView {
                phase: Phase::EgressConnecting,
                flow: c.flow(),
            },
            AnyConnection::IngressConnecting(c) => ConnView {
                phase: Phase::IngressConnecting,
                flow: c.flow(),
            },
            AnyConnection::Established(c) => ConnView {
                phase: Phase::Established,
                flow: c.flow(),
            },
            AnyConnection::Closing(c) => ConnView { phase: Phase::Closing, flow: c.flow() },
        }
    }
}

impl<H> AnyConnection<H> {
    /// The host side of the connection.
    pub open spec fn host(&self) -> H {
        match self {
            AnyConnection::EgressConnecting(c) => c.stream,
            AnyConnection::IngressConnecting(c) => c.stream,
            AnyConnection::Established(c) => c.stream,
            AnyConnection::Closing(c) => c.stream,
        }
    }

    /// The host side of the connection.
    pub fn stream_mut(&mut self) -> (r: &mut H)
        ensures
            *r == old(self).host(),
            final(self).host() == *final(r),
            final(self)@ == old(self)@,
    {
        match self {
            AnyConnection::EgressConnecting(c) => &mut c.stream,
            AnyConnection::IngressConnecting(c) => &mut c.stream,
            AnyConnection::Established(c) => &mut c.stream,
            AnyConnection::Closing(c) => &mut c.stream,
        }
    }

    /// The host side of the connection, which is over.
    pub fn into_stream(self) -> (r: H)
        ensures
            r == self.host(),
    {
        match self {
            AnyConnection::EgressConnecting(c) => c.stream,
            AnyConnection::IngressConnecting(c) => c.stream,
            AnyConnection::Established(c) => c.stream,
            AnyConnection::Closing(c) => c.stream,
        }
    }

    /// What waits for the host.
    pub fn write_buffer(&self) -> (r: &VecDeque<Bytes>)
        ensures
            views(r@) == self@.flow.write_buffer,
    {
        match self {
            AnyConnection::EgressConnecting(c) => &c.write_buffer,
            AnyConnection::IngressConnecting(c) => &c.write_buffer,
            AnyConnection::Established(c) => &c.write_buffer,
            AnyConnection::Closing(c) => &c.write_buffer,
        }
    }

    /// What waits for the machine.
    pub fn to_vm_buffer(&self) -> (r: &VecDeque<Bytes>)
        ensures
            views(r@) == self@.flow.to_vm_buffer,
    {
        match self {
            AnyConnection::EgressConnecting(c) => &c.to_vm_buffer,
            AnyConnection::IngressConnecting(c) => &c.to_vm_buffer,
            AnyConnection::Established(c) => &c.to_vm_buffer,
            AnyConnection::Closing(c) => &c.to_vm_buffer,
        }
    }

    /// What waits for the machine, to be changed.
    pub fn to_vm_buffer_mut(&mut self) -> (r: &mut VecDeque<Bytes>)
        ensures
            views(r@) == old(self)@.flow.to_vm_buffer,
            final(self).host() == old(self).host(),
            final(self)@ == (ConnView {
                flow: Flow { to_vm_buffer: views(final(r)@), ..old(self)@.flow },
                ..old(self)@
            }),
    {
        match self {
            AnyConnection::EgressConnecting(c) => &mut c.to_vm_buffer,
            AnyConnection::IngressConnecting(c) => &mut c.to_vm_buffer,
            AnyConnection::Established(c) => &mut c.to_vm_buffer,
            AnyConnection::Closing(c) => &mut c.to_vm_buffer,
        }
    }
}

// --- Frames ---

/// Builds the answer to an ARP request; the scratch buffer keeps a copy.
pub fn build_arp_reply(packet_buf: &mut BytesMut, request: &ArpPacket) -> (r: Bytes)
    requires
        request.length == ARP_LEN,
    ensures
        bytes_view(r) == arp_reply_frame(*request, proxy_mac(), proxy_ip()),
        buf_view(*final(packet_buf)) == bytes_view(r),
{
    fill_arp_reply(packet_buf, request, proxy_mac(), proxy_ip());
    packet_buf.clone().freeze()
}

/// Builds the TCP frame to the machine on a flow; the scratch buffer keeps a copy. There is no
/// frame between addresses of different families.
pub fn build_tcp_packet(
    packet_buf: &mut BytesMut,
    nat_key: NatKey,
    tx_seq: u32,
    tx_ack: u32,
    payload: Option<&[u8]>,
    flags: Option<u8>,
) -> (r: Bytes)
    requires
        tcp_fits(nat_key, payload_of(payload)),
    ensures
        bytes_view(r) == vm_frame(
            nat_key,
            tx_seq,
            tx_ack,
            payload_of(payload),
            flags_of(flags),
            0xffff,
        ),
        same_family(nat_key) ==> buf_view(*final(packet_buf)) == bytes_view(r),
        !same_family(nat_key) ==> *final(packet_buf) == *old(packet_buf),
{
    match fill_vm_frame(packet_buf, nat_key, tx_seq, tx_ack, payload, flags, 0xffff) {
        Some(_) => packet_buf.clone().freeze(),
        None => Bytes::new(),
    }
}

/// Builds the UDP frame to the machine on a flow; the scratch buffer keeps a copy.
pub fn build_udp_packet(packet_buf: &mut BytesMut, nat_key: NatKey, payload: &[u8]) -> (r: Bytes)
    requires
        udp_fits(nat_key, payload@),
    ensures
        bytes_view(r) == vm_datagram(nat_key, payload@),
        same_family(nat_key) ==> buf_view(*final(packet_buf)) == bytes_view(r),
        !same_family(nat_key) ==> *final(packet_buf) == *old(packet_buf),
{
    match fill_vm_datagram(packet_buf, nat_key, payload) {
        Some(_) => packet_buf.clone().freeze(),
        None => Bytes::new(),
    }
}

// --- The proxy ---

/// The proxy, over a given kind of host stream.
pub struct NetProxy<H> {
    pub next_token: usize,
    /// The port of the machine behind each listening socket.
    pub unix_listeners: HashMap<usize, u16>,
    pub tcp_nat_table: NatTable,
    pub reverse_tcp_nat: HashMap<usize, NatKey>,
    pub host_connections: HashMap<usize, AnyConnection<H>>,
    pub udp: UdpFlows,
    /// The connections whose host is not read from.
    pub paused_reads: HashSet<usize>,
    pub connections_to_remove: Vec<Token>,
    /// The streams of connections that are over, until they are taken.
    pub released: Vec<H>,
    pub packet_buf: BytesMut,
    /// Frames for the machine that go ahead of all data.
    pub to_vm_control_queue: VecDeque<Bytes>,
    /// The connections that have data for the machine, in turn.
    pub data_run_queue: VecDeque<Token>,
}

/// Whether what waits for the host can be counted.
pub open spec fn countable(v: ConnView) -> bool {
    flat(v.flow.write_buffer).len() <= usize::MAX
}

impl<H: TracedStream> NetProxy<H> {
    /// What always holds: the tables agree, and every socket has a handle of its own that was
    /// given out.
    pub open spec fn wf(&self) -> bool {
        &&& self.tcp_nat_table.wf()
        &&& self.udp.wf()
        &&& self.udp.below(self.next_token)
        &&& nat_agrees(self.tcp_nat_table@, self.reverse_tcp_nat@)
        &&& forall|t: usize| #[trigger]
            self.host_connections@.dom().contains(t) ==> self.reverse_tcp_nat@.dom().contains(t)
                && countable(self.host_connections@[t]@)
        &&& forall|t: usize| #[trigger] self.reverse_tcp_nat@.dom().contains(t) ==> t
            < self.next_token && !self.unix_listeners@.dom().contains(t)
        &&& forall|t: usize| #[trigger] self.unix_listeners@.dom().contains(t) ==> t
            < self.next_token
    }

    /// A proxy without connections, whose listeners have been given handles below
    /// `next_token`.
    pub fn new(next_token: usize, unix_listeners: HashMap<usize, u16>, now: Instant) -> (r: Self)
        requires
            forall|t: usize| #[trigger] unix_listeners@.dom().contains(t) ==> t < next_token,
        ensures
            r.wf(),
            r.next_token == next_token,
            r.unix_listeners@ == unix_listeners@,
            r.tcp_nat_table@ == Map::<NatKey, Token>::empty(),
            r.reverse_tcp_nat@ == Map::<usize, NatKey>::empty(),
            r.host_connections@ == Map::<usize, AnyConnection<H>>::empty(),
            r.udp@ == (UdpView {
                flows: Map::empty(),
                sockets: Map::empty(),
                reverse: Map::empty(),
                last_cleanup: now,
            }),
            r.paused_reads@ == Set::<usize>::empty(),
            r.connections_to_remove@ == Seq::<Token>::empty(),
            r.released@ == Seq::<H>::empty(),
            r.to_vm_control_queue@ == Seq::<Bytes>::empty(),
            r.data_run_queue@ == Seq::<Token>::empty(),
            r.serves_all(),
    {
        NetProxy {
            next_token,
            unix_listeners,
            tcp_nat_table: NatTable::new(),
            reverse_tcp_nat: HashMap::new(),
            host_connections: HashMap::new(),
            udp: UdpFlows::new(now),
            paused_reads: HashSet::new(),
            connections_to_remove: Vec::new(),
            released: Vec::new(),
            packet_buf: BytesMut::with_capacity(2048),
            to_vm_control_queue: VecDeque::new(),
            data_run_queue: VecDeque::new(),
        }
    }

    /// Takes the streams of connections that are over.
    pub fn take_released(&mut self) -> (r: Vec<H>)
        ensures
            r@ == old(self).released@,
            final(self).released@ == Seq::<H>::empty(),
            *final(self) == (NetProxy { released: final(self).released, ..*old(self) }),
    {
        let mut r: Vec<H> = Vec::new();
        std::mem::swap(&mut r, &mut self.released);
        r
    }
}

} // verus!
