//! Readiness events of the host.
use bytes::BytesMut;
use std::collections::VecDeque;
use vstd::prelude::*;

use crate::addr::{Instant, Interest, IpAddr, NatKey, Token};
use crate::buffer::{bytes_view, drop_bytes, flat, flat_drop_bytes};
use crate::chance::{random_u16, random_u32};
use crate::simple_proxy::{
    build_tcp_packet, build_udp_packet, countable, AnyConnection, Closing, ConnView,
    EgressConnecting, Established, Flow, IngressConnecting, NetProxy, Phase, TcpConnection,
    BACKPRESSURE_THRESHOLD, HOST_READ_BUDGET, MAX_CONN_BUFFER_SIZE, READ_BUFFER_SIZE,
};
use crate::host::{
    deregistered, drain, drain_run, one_released, register_view, write_pending, write_run,
    write_run_sends, HostCall, HostError, HostRead, ReadView, RegisterView, TracedStream, WriteEnd,
    DRAIN_LIMIT,
};
use crate::proxy::events::{carried_by, handles, ingress_port, leaving, removed_one};
use crate::proxy::{proxy_ip, vm_ip};
use crate::tcp_fsm::model::{first_chunk, shows_closed};
use crate::tcp_fsm::MAX_SEGMENT_SIZE;
use crate::udp::{cleaned, idle_sockets, timed_out, used};
use crate::vm_frames::{vm_datagram, vm_frame};
use crate::wire::{FIN_ACK, PSH_ACK, SYN, SYN_ACK};

verus! {

broadcast use vstd::std_specs::hash::group_hash_axioms;

// --- What an event does to a connection ---

/// Cuts data from the host into packets and queues them in order, for as long as not too many
/// wait. What is left of the data is dropped.
pub open spec fn queue_chunks(f: Flow, key: NatKey, data: Seq<u8>) -> Flow
    decreases data.len(),
{
    if data.len() == 0 || f.to_vm_buffer.len() >= MAX_CONN_BUFFER_SIZE {
        f
    } else {
        let chunk = first_chunk(data);
        queue_chunks(queue_chunk(f, key, chunk), key, data.skip(chunk.len() as int))
    }
}

/// Queues one packet for the machine.
pub open spec fn queue_chunk(f: Flow, key: NatKey, chunk: Seq<u8>) -> Flow {
    Flow {
        to_vm_buffer: f.to_vm_buffer.push(
            vm_frame(key, f.tx_seq, f.tx_ack, chunk, PSH_ACK, 0xffff),
        ),
        tx_seq: f.tx_seq.wrapping_add(chunk.len() as u32),
        ..f
    }
}

/// Whether reading from the host, until it has no more or so often, makes these calls, leaves
/// the flow as `after`, and ends with this error, if any: the end of the host's stream is one, and
/// otherwise a read that failed gives its own.
pub open spec fn reads_run(
    f: Flow,
    key: NatKey,
    calls: Seq<HostCall>,
    budget: nat,
    after: Flow,
    error: Option<HostError>,
) -> bool
    decreases budget,
{
    if budget == 0 {
        calls.len() == 0 && after == f && error is None
    } else {
        &&& calls.len() > 0
        &&& match calls[0] {
            HostCall::Read { max, got } => {
                &&& max == READ_BUFFER_SIZE
                &&& match got {
                    ReadView::Data(d) => {
                        if d.len() == 0 {
                            calls.len() == 1 && after == f && error == Some(
                                HostError::UnexpectedEof,
                            )
                        } else {
                            reads_run(
                                queue_chunks(f, key, d),
                                key,
                                calls.skip(1),
                                (budget - 1) as nat,
                                after,
                                error,
                            )
                        }
                    },
                    ReadView::WouldBlock => calls.len() == 1 && after == f && error is None,
                    ReadView::Reset => calls.len() == 1 && after == f && error == Some(
                        HostError::ConnectionReset,
                    ),
                    ReadView::Failed(e) => calls.len() == 1 && after == f && error == Some(e),
                }
            },
            _ => false,
        }
    }
}

/// Whether reading a flow's host makes these calls: where too much already waits for the
/// machine, it is not read from.
pub open spec fn socket_read(
    f: Flow,
    key: NatKey,
    calls: Seq<HostCall>,
    after: Flow,
    error: Option<HostError>,
) -> bool {
    if f.to_vm_buffer.len() >= BACKPRESSURE_THRESHOLD {
        calls.len() == 0 && after == f && error is None
    } else {
        reads_run(f, key, calls, HOST_READ_BUDGET as nat, after, error)
    }
}

/// The error that a read ended with, if any.
pub open spec fn error_of(r: Result<(), HostError>) -> Option<HostError> {
    match r {
        Ok(_) => None,
        Err(e) => Some(e),
    }
}

/// What the host answers while an event is handled. An answer counts only where the host is
/// asked.
pub struct EventIo {
    /// The calls that write what waits for the host, how much it takes, and why it stops.
    pub writes: Seq<HostCall>,
    pub written: nat,
    pub end: WriteEnd,
    /// The calls that read from the host, what they make of the flow, and the error that they
    /// end with, if any.
    pub reads: Seq<HostCall>,
    pub read: Flow,
    pub error: Option<HostError>,
    /// Whether shutting down, registering and deregistering works.
    pub shut: bool,
    pub came: RegisterView,
    pub freed: bool,
    /// The calls that read what a closing stream still has.
    pub drain: Seq<HostCall>,
}

/// What an event comes to.
pub struct EventStep {
    pub next: ConnView,
    pub sends: Seq<Seq<u8>>,
    pub calls: Seq<HostCall>,
    /// Whether the connection is given up because it could not be registered.
    pub dropped: bool,
}

/// What is left to write.
pub open spec fn written_off(f: Flow, n: nat) -> Flow {
    Flow { write_buffer: drop_bytes(f.write_buffer, n), ..f }
}

/// The connection to the host has been made: the machine is told. A stream that cannot be
/// registered is given up.
pub open spec fn connected_step(f: Flow, key: NatKey, token: Token, io: EventIo) -> EventStep {
    let syn_ack = vm_frame(key, f.tx_seq, f.tx_ack, Seq::empty(), SYN_ACK, 0xffff);
    let register = seq![
        HostCall::Reregister { token, interest: Interest::Readable, came: io.came },
    ];
    EventStep {
        next: ConnView {
            phase: Phase::Established,
            flow: Flow { tx_seq: f.tx_seq.wrapping_add(1), ..f },
        },
        sends: seq![syn_ack],
        calls: if io.came is Done {
            register
        } else {
            register.push(HostCall::Deregister { ok: io.freed })
        },
        dropped: !(io.came is Done),
    }
}

/// An event while data flows: what waits for the host is written, then the host is read from.
/// The end of the host closes the connection.
pub open spec fn established_event(
    f: Flow,
    key: NatKey,
    token: Token,
    is_readable: bool,
    is_writable: bool,
    io: EventIo,
) -> EventStep {
    let wrote = if is_writable {
        written_off(f, io.written)
    } else {
        f
    };
    let read = if is_readable {
        io.read
    } else {
        wrote
    };
    let closed = (is_writable && shows_closed(io.end)) || (is_readable && io.error is Some);
    let io_calls = (if is_writable {
        io.writes
    } else {
        Seq::empty()
    }) + (if is_readable {
        io.reads
    } else {
        Seq::empty()
    });
    if closed {
        EventStep {
            next: ConnView {
                phase: Phase::Closing,
                flow: Flow { tx_seq: read.tx_seq.wrapping_add(1), ..read },
            },
            sends: seq![
                vm_frame(key, read.tx_seq, read.tx_ack, Seq::empty(), FIN_ACK, 0xffff),
            ],
            calls: io_calls.push(HostCall::ShutdownWrite { ok: io.shut }),
            dropped: false,
        }
    } else {
        let interest = if read.write_buffer.len() == 0 {
            Interest::Readable
        } else {
            Interest::Both
        };
        EventStep {
            next: ConnView { phase: Phase::Established, flow: read },
            sends: Seq::empty(),
            calls: io_calls.push(HostCall::Reregister { token, interest, came: io.came }),
            dropped: false,
        }
    }
}

/// An event, whatever state the connection is in.
pub open spec fn event_step(
    v: ConnView,
    key: NatKey,
    token: Token,
    is_readable: bool,
    is_writable: bool,
    io: EventIo,
) -> EventStep {
    let idle = EventStep { next: v, sends: Seq::empty(), calls: Seq::empty(), dropped: false };
    match v.phase {
        Phase::EgressConnecting => {
            if is_writable {
                connected_step(v.flow, key, token, io)
            } else {
                idle
            }
        },
        Phase::IngressConnecting => idle,
        Phase::Established => established_event(v.flow, key, token, is_readable, is_writable, io),
        Phase::Closing => {
            if is_readable {
                EventStep { calls: io.drain, ..idle }
            } else {
                idle
            }
        },
    }
}

/// Whether the host can have answered this: it is written to and read from as the state has
/// it.
pub open spec fn io_fits(
    v: ConnView,
    key: NatKey,
    is_readable: bool,
    is_writable: bool,
    io: EventIo,
) -> bool {
    let wrote = if is_writable {
        written_off(v.flow, io.written)
    } else {
        v.flow
    };
    &&& v.phase is Established ==> {
        &&& is_writable ==> write_run(
            v.flow.write_buffer,
            io.writes,
            io.written as int,
            io.end,
        )
        &&& is_readable ==> socket_read(wrote, key, io.reads, io.read, io.error)
    }
    &&& v.phase is Closing && is_readable ==> drain_run(
        io.drain,
        READ_BUFFER_SIZE as nat,
        DRAIN_LIMIT as nat,
    )
}

/// A host that is not asked.
pub open spec fn no_io(f: Flow) -> EventIo {
    EventIo {
        writes: Seq::empty(),
        written: 0,
        end: WriteEnd::Emptied,
        reads: Seq::empty(),
        read: f,
        error: None,
        shut: true,
        came: RegisterView::Done,
        freed: true,
        drain: Seq::empty(),
    }
}

impl<H: TracedStream> TcpConnection<Established, H> {
    /// Cuts data from the host into packets and queues them, for as long as not too many wait.
    fn queue_host_data(&mut self, data: &[u8], key: NatKey, packet_buf: &mut BytesMut)
        ensures
            final(self).flow() == queue_chunks(old(self).flow(), key, data@),
            final(self).stream == old(self).stream,
    {
        let n: usize = data.len();
        let mut done: usize = 0;
        let ghost first = self.flow();
        assert(data@.skip(0) =~= data@);
        while done < n && self.to_vm_buffer.len() < MAX_CONN_BUFFER_SIZE
            invariant
                done <= n,
                n == data@.len(),
                self.stream == old(self).stream,
                queue_chunks(self.flow(), key, data@.skip(done as int)) == queue_chunks(
                    first,
                    key,
                    data@,
                ),
            decreases n - done,
        {
            let ghost rest = data@.skip(done as int);
            let ghost f = self.flow();
            let end: usize = if n - done < MAX_SEGMENT_SIZE {
                n
            } else {
                done + MAX_SEGMENT_SIZE
            };
            let chunk: &[u8] = vstd::slice::slice_subrange(data, done, end);
            assert(chunk@ =~= first_chunk(rest));
            let packet = build_tcp_packet(
                packet_buf,
                key,
                self.tx_seq,
                self.tx_ack,
                Some(chunk),
                Some(PSH_ACK),
                0xffff,
            );
            self.to_vm_buffer.push_back(packet);
            self.tx_seq = self.tx_seq.wrapping_add((end - done) as u32);
            proof {
                assert(self.flow().to_vm_buffer =~= f.to_vm_buffer.push(bytes_view(packet)));
                assert(self.flow() =~= queue_chunk(f, key, chunk@));
                assert(rest.skip(chunk@.len() as int) =~= data@.skip(end as int));
            }
            done = end;
        }
    }

    /// Writes what waits for the host, until it takes no more.
    fn write_waiting(&mut self) -> (r: (usize, WriteEnd, Ghost<Seq<HostCall>>))
        requires
            flat(old(self).flow().write_buffer).len() <= usize::MAX,
        ensures
            final(self).flow() == written_off(old(self).flow(), r.0 as nat),
            final(self).stream.calls() == old(self).stream.calls() + r.2@,
            write_run(old(self).flow().write_buffer, r.2@, r.0 as int, r.1),
            flat(final(self).flow().write_buffer).len() <= usize::MAX,
    {
        let ghost f = self.flow();
        let (written, end, Ghost(writes)) = write_pending(
            &mut self.stream,
            &mut self.write_buffer,
        );
        proof {
            assert(self.flow() =~= written_off(f, written as nat));
            write_run_sends(f.write_buffer, writes, written as int, end);
            flat_drop_bytes(f.write_buffer, written as nat);
        }
        (written, end, Ghost(writes))
    }
}

/// Queueing data for the machine touches nothing that waits for the host.
proof fn queue_chunks_keeps(f: Flow, key: NatKey, data: Seq<u8>)
    ensures
        queue_chunks(f, key, data).write_buffer == f.write_buffer,
    decreases data.len(),
{
    if data.len() > 0 && f.to_vm_buffer.len() < MAX_CONN_BUFFER_SIZE {
        let chunk = first_chunk(data);
        queue_chunks_keeps(queue_chunk(f, key, chunk), key, data.skip(chunk.len() as int));
    }
}

/// Reading goes on: what was done so far and then a run with what is left make one run.
spec fn reads_on(
    f: Flow,
    key: NatKey,
    done: Seq<HostCall>,
    sofar: Flow,
    left: nat,
) -> bool {
    forall|rest: Seq<HostCall>, after: Flow, error: Option<HostError>| #[trigger]
        reads_run(sofar, key, rest, left, after, error) ==> reads_run(
            f,
            key,
            done + rest,
            HOST_READ_BUDGET as nat,
            after,
            error,
        )
}

// --- The proxy ---

/// What the host had for the proxy when a readiness event came: a stream that a listening
/// socket accepted, or the datagrams that a UDP socket received, in order.
pub struct EventInput<H> {
    pub accepted: Option<H>,
    pub datagrams: Vec<Vec<u8>>,
}

/// What is left to be done on the host after a readiness event.
pub struct EventOutcome {
    /// UDP sockets that are to be closed.
    pub closed: Vec<Token>,
    /// Whether there is something for the machine to read.
    pub wake: bool,
}

impl<H: TracedStream> NetProxy<H> {
    /// The flow of a connection to the machine.
    pub open spec fn ingress_key(port: u16, vm_port: u16) -> NatKey {
        (IpAddr::V4(proxy_ip()), port, IpAddr::V4(vm_ip()), vm_port)
    }

    /// Whether everything but the tables of connections, the next handle and the queues is the
    /// same.
    pub open spec fn same_beside_flows(&self, other: &Self) -> bool {
        &&& self.unix_listeners == other.unix_listeners
        &&& self.udp == other.udp
        &&& self.paused_reads == other.paused_reads
        &&& self.connections_to_remove == other.connections_to_remove
        &&& self.released == other.released
        &&& self.to_vm_data_queue == other.to_vm_data_queue
        &&& self.data_run_queue == other.data_run_queue
    }

    /// Whether a connection has been entered under the next handle.
    pub open spec fn entered(&self, after: &Self, key: NatKey) -> bool {
        let token = Token(self.next_token);
        &&& after.next_token == self.next_token + 1
        &&& after.tcp_nat_table@ == self.tcp_nat_table@.insert(key, token)
        &&& after.reverse_tcp_nat@ == self.reverse_tcp_nat@.insert(token.0, key)
        &&& after.host_connections@ == self.host_connections@.insert(
            token.0,
            after.host_connections@[token.0],
        )
        &&& after.same_beside_flows(self)
    }

    /// Enters a connection under the next handle.
    fn enter(&mut self, key: NatKey, conn: AnyConnection<H>) -> (r: Token)
        requires
            old(self).wf(),
            old(self).next_token < usize::MAX,
            countable(conn@),
        ensures
            final(self).wf(),
            r == Token(old(self).next_token),
            old(self).entered(final(self), key),
            final(self).host_connections@[r.0] == conn,
            final(self).to_vm_control_queue == old(self).to_vm_control_queue,
    {
        let ghost before = *self;
        let token = Token(self.next_token);
        self.next_token = self.next_token + 1;
        self.tcp_nat_table.insert(key, token);
        let _ = self.reverse_tcp_nat.insert(token.0, key);
        let _ = self.host_connections.insert(token.0, conn);
        proof {
            assert(!before.reverse_tcp_nat@.dom().contains(token.0));
            assert(self.host_connections@ =~= before.host_connections@.insert(
                token.0,
                self.host_connections@[token.0],
            ));
        }
        token
    }

    /// Registers a stream to the host under the next handle and enters the connection that the
    /// machine asked for, with a sequence number of its own. Gives the handle, and the stream
    /// back where it could not be registered.
    pub fn add_egress(&mut self, stream: H, nat_key: NatKey, vm_sequence: u32) -> (r: (
        Token,
        Option<H>,
    ))
        requires
            old(self).wf(),
            old(self).next_token < usize::MAX,
        ensures
            final(self).wf(),
            exists|tx_seq: u32| #[trigger]
                old(self).egress_added(
                    final(self),
                    stream,
                    nat_key,
                    vm_sequence,
                    tx_seq,
                    r.0,
                    r.1,
                ),
    {
        let tx_seq: u32 = random_u32();
        let r = self.add_egress_from(stream, nat_key, vm_sequence, tx_seq);
        assert(old(self).egress_added(self, stream, nat_key, vm_sequence, tx_seq, r.0, r.1));
        r
    }

    /// Whether a connection that the machine asked for has been entered. Where the stream
    /// cannot be registered, it is handed back and only its handle is gone.
    pub open spec fn egress_added(
        &self,
        after: &Self,
        stream: H,
        nat_key: NatKey,
        vm_sequence: u32,
        tx_seq: u32,
        token: Token,
        refused: Option<H>,
    ) -> bool {
        let conn = after.host_connections@[token.0];
        &&& token == Token(self.next_token)
        &&& match refused {
            None => {
                &&& self.entered(after, nat_key)
                &&& after.control() == self.control()
                &&& conn@ == (ConnView {
                    phase: Phase::EgressConnecting,
                    flow: Flow {
                        tx_seq,
                        tx_ack: vm_sequence.wrapping_add(1),
                        write_buffer: Seq::empty(),
                        to_vm_buffer: Seq::empty(),
                        is_in_run_queue: false,
                    },
                })
                &&& conn.host().calls() == stream.calls().push(
                    HostCall::Register { token, interest: Interest::Both, ok: true },
                )
            },
            Some(s) => {
                &&& *after == (NetProxy { next_token: (self.next_token + 1) as usize, ..*self })
                &&& s.calls() == stream.calls().push(
                    HostCall::Register { token, interest: Interest::Both, ok: false },
                )
            },
        }
    }

    /// The same with a given sequence number.
    pub fn add_egress_from(
        &mut self,
        stream: H,
        nat_key: NatKey,
        vm_sequence: u32,
        tx_seq: u32,
    ) -> (r: (Token, Option<H>))
        requires
            old(self).wf(),
            old(self).next_token < usize::MAX,
        ensures
            final(self).wf(),
            old(self).egress_added(
                final(self),
                stream,
                nat_key,
                vm_sequence,
                tx_seq,
                r.0,
                r.1,
            ),
    {
        let mut stream = stream;
        let token = Token(self.next_token);
        let ok = stream.register(token, Interest::Both);
        if !ok {
            self.next_token = self.next_token + 1;
            return (token, Some(stream));
        }
        let conn = TcpConnection {
            stream,
            tx_seq,
            tx_ack: vm_sequence.wrapping_add(1),
            write_buffer: VecDeque::new(),
            to_vm_buffer: VecDeque::new(),
            is_in_run_queue: false,
            state: EgressConnecting,
        };
        proof {
            assert(conn.flow().write_buffer =~= Seq::<Seq<u8>>::empty());
            assert(conn.flow().to_vm_buffer =~= Seq::<Seq<u8>>::empty());
        }
        let token = self.enter(nat_key, AnyConnection::EgressConnecting(conn));
        (token, None)
    }

    /// Whether a connection to the machine has been started over an accepted stream: the
    /// stream is registered, the connection is entered, and a SYN is queued. Where the stream
    /// cannot be registered, it is handed back and nothing else happens.
    pub open spec fn ingress_started(
        &self,
        after: &Self,
        listener: Token,
        stream: H,
        any_port: u16,
        initial_seq: u32,
        refused: Option<H>,
    ) -> bool {
        let token = Token(self.next_token);
        let key = Self::ingress_key(
            ingress_port(any_port),
            self.unix_listeners@[listener.0],
        );
        let conn = after.host_connections@[token.0];
        match refused {
            None => {
                &&& self.entered(after, key)
                &&& after.control() == self.control().push(
                    vm_frame(key, initial_seq, 0, Seq::empty(), SYN, 0xffff),
                )
                &&& conn@ == (ConnView {
                    phase: Phase::IngressConnecting,
                    flow: Flow {
                        tx_seq: initial_seq,
                        tx_ack: 0,
                        write_buffer: Seq::empty(),
                        to_vm_buffer: Seq::empty(),
                        is_in_run_queue: false,
                    },
                })
                &&& conn.host().calls() == stream.calls().push(
                    HostCall::Register { token, interest: Interest::Readable, ok: true },
                )
            },
            Some(s) => {
                &&& *after == *self
                &&& s.calls() == stream.calls().push(
                    HostCall::Register { token, interest: Interest::Readable, ok: false },
                )
            },
        }
    }

    /// Starts a connection to the machine over an accepted stream, with given numbers in place
    /// of random ones. The stream is registered first, and handed back where that did not
    /// work.
    pub fn start_ingress(
        &mut self,
        listener: Token,
        stream: H,
        any_port: u16,
        initial_seq: u32,
    ) -> (r: Option<H>)
        requires
            old(self).wf(),
            old(self).unix_listeners@.dom().contains(listener.0),
            old(self).next_token < usize::MAX,
        ensures
            final(self).wf(),
            old(self).ingress_started(
                final(self),
                listener,
                stream,
                any_port,
                initial_seq,
                r,
            ),
    {
        let ghost before = *self;
        let vm_port: u16 = match self.unix_listeners.get(&listener.0) {
            Some(p) => *p,
            None => 0,
        };
        let mut stream = stream;
        let ok = stream.register(Token(self.next_token), Interest::Readable);
        if !ok {
            return Some(stream);
        }
        let key: NatKey = (
            IpAddr::V4(proxy_ip()),
            ingress_port(any_port),
            IpAddr::V4(vm_ip()),
            vm_port,
        );
        let syn = build_tcp_packet(&mut self.packet_buf, key, initial_seq, 0, None, Some(SYN), 0xffff);
        self.to_vm_control_queue.push_back(syn);
        assert(self.control() =~= before.control().push(bytes_view(syn)));
        let conn = TcpConnection {
            stream,
            tx_seq: initial_seq,
            tx_ack: 0,
            write_buffer: VecDeque::new(),
            to_vm_buffer: VecDeque::new(),
            is_in_run_queue: false,
            state: IngressConnecting,
        };
        proof {
            assert(conn.flow().write_buffer =~= Seq::<Seq<u8>>::empty());
            assert(conn.flow().to_vm_buffer =~= Seq::<Seq<u8>>::empty());
        }
        let _ = self.enter(key, AnyConnection::IngressConnecting(conn));
        None
    }

    /// What putting a connection into the run queue comes to: nothing where there is no such
    /// connection or it is there already.
    pub open spec fn enqueued(&self, after: &Self, token: Token) -> bool {
        let conns = self.host_connections@;
        let conn = conns[token.0];
        let left = after.host_connections@[token.0];
        if conns.dom().contains(token.0) && !conn@.flow.is_in_run_queue {
            &&& *after == (NetProxy {
                host_connections: after.host_connections,
                data_run_queue: after.data_run_queue,
                ..*self
            })
            &&& after.data_run_queue@ == self.data_run_queue@.push(token)
            &&& after.host_connections@ == conns.insert(token.0, left)
            &&& left.host() == conn.host()
            &&& left@ == (ConnView {
                flow: Flow { is_in_run_queue: true, ..conn@.flow },
                ..conn@
            })
        } else {
            *after == *self
        }
    }

    /// Puts a connection into the run queue, unless it is there.
    pub fn add_to_run_queue(&mut self, token: Token)
        requires
            old(self).wf(),
        ensures
            final(self).wf(),
            old(self).enqueued(final(self), token),
    {
        let ghost before = *self;
        let waits = match self.host_connections.get(&token.0) {
            Some(AnyConnection::EgressConnecting(c)) => !c.is_in_run_queue,
            Some(AnyConnection::IngressConnecting(c)) => !c.is_in_run_queue,
            Some(AnyConnection::Established(c)) => !c.is_in_run_queue,
            Some(AnyConnection::Closing(c)) => !c.is_in_run_queue,
            None => false,
        };
        if waits {
            if let Some(conn) = self.host_connections.remove(&token.0) {
                let mut conn = conn;
                assert(before.host_connections@.dom().contains(token.0));
                *conn.is_in_run_queue_mut() = true;
                self.data_run_queue.push_back(token);
                let _ = self.host_connections.insert(token.0, conn);
                assert(self.host_connections@ =~= before.host_connections@.insert(
                    token.0,
                    conn,
                ));
            }
        }
    }

    /// Reads from the host of a connection that has been taken out of the table, and queues
    /// what comes. The end of the host's stream is an error, and so is a read that fails.
    pub fn read_from_host_socket(
        &mut self,
        conn: &mut TcpConnection<Established, H>,
        token: Token,
        key: NatKey,
    ) -> (r: (Result<(), HostError>, Ghost<Seq<HostCall>>))
        requires
            old(self).wf(),
            !old(self).host_connections@.dom().contains(token.0),
        ensures
            final(self).wf(),
            *final(self) == (NetProxy { packet_buf: final(self).packet_buf, ..*old(self) }),
            final(conn).stream.calls() == old(conn).stream.calls() + r.1@,
            socket_read(old(conn).flow(), key, r.1@, final(conn).flow(), error_of(r.0)),
            final(conn).flow().write_buffer == old(conn).flow().write_buffer,
    {
        let ghost f = conn.flow();
        let ghost first = conn.stream.calls();
        let ghost mut done = Seq::<HostCall>::empty();
        assert(first + done =~= first);
        if conn.to_vm_buffer.len() >= BACKPRESSURE_THRESHOLD {
            return (Ok(()), Ghost(done));
        }
        let mut left: usize = HOST_READ_BUDGET;
        proof {
            assert forall|rest: Seq<HostCall>, after: Flow, error: Option<HostError>| #[trigger]
                reads_run(f, key, rest, left as nat, after, error) implies reads_run(
                f,
                key,
                done + rest,
                HOST_READ_BUDGET as nat,
                after,
                error,
            ) by {
                assert(done + rest =~= rest);
            }
        }
        while left > 0
            invariant
                left <= HOST_READ_BUDGET,
                f == old(conn).flow(),
                f.to_vm_buffer.len() < BACKPRESSURE_THRESHOLD,
                first == old(conn).stream.calls(),
                self.wf(),
                !old(self).host_connections@.dom().contains(token.0),
                *self == (NetProxy { packet_buf: self.packet_buf, ..*old(self) }),
                conn.stream.calls() == first + done,
                conn.flow().write_buffer == f.write_buffer,
                reads_on(f, key, done, conn.flow(), left as nat),
            decreases left,
        {
            let ghost sofar = conn.flow();
            let got = conn.stream.read(READ_BUFFER_SIZE);
            let ghost call = HostCall::Read { max: READ_BUFFER_SIZE as nat, got: got@ };
            let ghost one = seq![call];
            proof {
                assert(conn.stream.calls() =~= first + done.push(call));
                assert(done + one =~= done.push(call));
                assert(conn.flow() == sofar);
            }
            match got {
                HostRead::Data(d) => {
                    if d.len() == 0 {
                        let e = HostError::UnexpectedEof;
                        assert(reads_run(sofar, key, one, left as nat, sofar, Some(e)));
                        return (Err(e), Ghost(done.push(call)));
                    }
                    conn.queue_host_data(d.as_slice(), key, &mut self.packet_buf);
                    if conn.to_vm_buffer.len() > 0 {
                        self.add_to_run_queue(token);
                    }
                    proof {
                        queue_chunks_keeps(sofar, key, d@);
                        let next = done.push(call);
                        let fed = queue_chunks(sofar, key, d@);
                        assert forall|rest: Seq<HostCall>, after: Flow, error: Option<HostError>| #[trigger]
                            reads_run(
                                fed,
                                key,
                                rest,
                                (left - 1) as nat,
                                after,
                                error,
                            ) implies reads_run(
                            f,
                            key,
                            next + rest,
                            HOST_READ_BUDGET as nat,
                            after,
                            error,
                        ) by {
                            let all = one + rest;
                            assert(all.skip(1) =~= rest);
                            assert(reads_run(sofar, key, all, left as nat, after, error));
                            assert(next + rest =~= done + all);
                        }
                        done = next;
                        assert(reads_on(f, key, done, conn.flow(), (left - 1) as nat));
                    }
                },
                HostRead::WouldBlock => {
                    assert(reads_run(sofar, key, one, left as nat, sofar, None));
                    return (Ok(()), Ghost(done.push(call)));
                },
                HostRead::Reset => {
                    let e = HostError::ConnectionReset;
                    assert(reads_run(sofar, key, one, left as nat, sofar, Some(e)));
                    return (Err(e), Ghost(done.push(call)));
                },
                HostRead::Failed(e) => {
                    assert(reads_run(sofar, key, one, left as nat, sofar, Some(e)));
                    return (Err(e), Ghost(done.push(call)));
                },
            }
            left = left - 1;
        }
        proof {
            assert(reads_run(conn.flow(), key, Seq::empty(), 0, conn.flow(), None));
            assert(done + Seq::<HostCall>::empty() =~= done);
        }
        (Ok(()), Ghost(done))
    }

    /// Whether an event of a connection has been handled.
    pub open spec fn event_taken(
        &self,
        after: &Self,
        token: Token,
        is_readable: bool,
        is_writable: bool,
        io: EventIo,
        dropped: bool,
    ) -> bool {
        let conn = self.host_connections@[token.0];
        let left = after.host_connections@[token.0];
        let key = self.reverse_tcp_nat@[token.0];
        let step = event_step(conn@, key, token, is_readable, is_writable, io);
        &&& io_fits(conn@, key, is_readable, is_writable, io)
        &&& dropped == step.dropped
        &&& after.same_tables(self)
        &&& after.paused_reads == self.paused_reads
        &&& after.connections_to_remove == self.connections_to_remove
        &&& after.to_vm_data_queue == self.to_vm_data_queue
        &&& after.data_run_queue == self.data_run_queue
        &&& after.control() == self.control() + step.sends
        &&& if dropped {
            &&& after.host_connections@ == self.host_connections@.remove(token.0)
            &&& one_released(
                self.released@,
                after.released@,
                conn.host().calls() + step.calls,
            )
        } else {
            &&& after.released == self.released
            &&& after.host_connections@ == self.host_connections@.insert(token.0, left)
            &&& left@ == step.next
            &&& left.host().calls() == conn.host().calls() + step.calls
        }
    }

    /// Handles an event while data flows.
    fn react_established(
        &mut self,
        conn: TcpConnection<Established, H>,
        token: Token,
        key: NatKey,
        is_readable: bool,
        is_writable: bool,
    ) -> (r: (AnyConnection<H>, Ghost<EventIo>))
        requires
            old(self).wf(),
            !old(self).host_connections@.dom().contains(token.0),
            flat(conn.flow().write_buffer).len() <= usize::MAX,
        ensures
            final(self).wf(),
            *final(self) == (NetProxy {
                packet_buf: final(self).packet_buf,
                to_vm_control_queue: final(self).to_vm_control_queue,
                ..*old(self)
            }),
            io_fits(
                ConnView { phase: Phase::Established, flow: conn.flow() },
                key,
                is_readable,
                is_writable,
                r.1@,
            ),
            ({
                let step = established_event(
                    conn.flow(),
                    key,
                    token,
                    is_readable,
                    is_writable,
                    r.1@,
                );
                &&& final(self).control() == old(self).control() + step.sends
                &&& r.0@ == step.next
                &&& r.0.host().calls() == conn.stream.calls() + step.calls
            }),
            countable(r.0@),
    {
        let ghost f = conn.flow();
        let ghost before = conn.stream.calls();
        let ghost none = Seq::<HostCall>::empty();
        let ghost mut io = no_io(f);
        let mut conn = conn;
        let mut closed = false;
        if is_writable {
            let (written, end, Ghost(writes)) = conn.write_waiting();
            closed = end == WriteEnd::Closed || end == WriteEnd::Failed;
            proof {
                io = EventIo { writes, written: written as nat, end, ..io };
            }
        }
        let ghost wrote = conn.flow();
        let ghost wrote_calls = if is_writable {
            io.writes
        } else {
            none
        };
        let ghost mut io_calls = wrote_calls + none;
        proof {
            assert(before + none =~= before);
            assert(wrote_calls + none =~= wrote_calls);
            assert(conn.stream.calls() =~= before + io_calls);
        }
        if is_readable {
            let (done, Ghost(reads)) = self.read_from_host_socket(&mut conn, token, key);
            if done.is_err() {
                closed = true;
            }
            proof {
                io = EventIo { reads, read: conn.flow(), error: error_of(done), ..io };
                io_calls = wrote_calls + reads;
                assert(conn.stream.calls() =~= before + io_calls);
            }
        }
        let ghost read = conn.flow();
        let ghost mid = *self;
        if closed {
            let ghost calls = conn.stream.calls();
            let mut closing = conn.close();
            let ghost ok = choose|ok: bool|
                closing.stream.calls() == #[trigger] calls.push(HostCall::ShutdownWrite { ok });
            let send = build_tcp_packet(
                &mut self.packet_buf,
                key,
                closing.tx_seq,
                closing.tx_ack,
                None,
                Some(FIN_ACK),
                0xffff,
            );
            closing.tx_seq = closing.tx_seq.wrapping_add(1);
            self.to_vm_control_queue.push_back(send);
            proof {
                io = EventIo { shut: ok, ..io };
                assert(self.control() =~= old(self).control() + seq![bytes_view(send)]);
                assert(closing.flow() =~= (Flow { tx_seq: read.tx_seq.wrapping_add(1), ..read }));
                assert(closing.stream.calls() =~= before + io_calls.push(
                    HostCall::ShutdownWrite { ok },
                ));
            }
            (AnyConnection::Closing(closing), Ghost(io))
        } else {
            let interest = if conn.write_buffer.len() == 0 {
                Interest::Readable
            } else {
                Interest::Both
            };
            let done = conn.stream.reregister(token, interest);
            proof {
                io = EventIo { came: register_view(done), ..io };
                assert(conn.stream.calls() =~= before + io_calls.push(
                    HostCall::Reregister { token, interest, came: io.came },
                ));
                assert(self.control() =~= old(self).control() + Seq::<Seq<u8>>::empty());
            }
            (AnyConnection::Established(conn), Ghost(io))
        }
    }

    /// Handles an event of a connection. Says whether the connection was given up.
    fn handle_connection_event(
        &mut self,
        token: Token,
        is_readable: bool,
        is_writable: bool,
    ) -> (r: (bool, Ghost<EventIo>))
        requires
            old(self).wf(),
            old(self).host_connections@.dom().contains(token.0),
        ensures
            final(self).wf(),
            old(self).event_taken(
                final(self),
                token,
                is_readable,
                is_writable,
                r.1@,
                r.0,
            ),
    {
        let ghost before = *self;
        let ghost conns = before.host_connections@;
        let ghost conn = conns[token.0];
        let ghost start = conn.host().calls();
        let key: NatKey = match self.reverse_tcp_nat.get(&token.0) {
            Some(k) => *k,
            None => (IpAddr::V4(proxy_ip()), 0, IpAddr::V4(proxy_ip()), 0),
        };
        let ghost mut io = no_io(conn@.flow);
        assert(start + Seq::<HostCall>::empty() =~= start);
        let found = self.host_connections.remove(&token.0);
        assert(conns.dom().contains(token.0));
        let next = match found {
            Some(AnyConnection::EgressConnecting(c)) => {
                if is_writable {
                    let mut c = c;
                    let syn_ack = build_tcp_packet(
                        &mut self.packet_buf,
                        key,
                        c.tx_seq,
                        c.tx_ack,
                        None,
                        Some(SYN_ACK),
                        0xffff,
                    );
                    c.tx_seq = c.tx_seq.wrapping_add(1);
                    self.to_vm_control_queue.push_back(syn_ack);
                    assert(self.control() =~= before.control() + seq![bytes_view(syn_ack)]);
                    let mut established = c.establish();
                    let done = established.stream.reregister(token, Interest::Readable);
                    proof {
                        io = EventIo { came: register_view(done), ..io };
                        assert(established.flow() =~= (Flow {
                            tx_seq: conn@.flow.tx_seq.wrapping_add(1),
                            ..conn@.flow
                        }));
                        assert(established.stream.calls() =~= start + seq![
                            HostCall::Reregister {
                                token,
                                interest: Interest::Readable,
                                came: io.came,
                            },
                        ]);
                    }
                    if done.is_err() {
                        let ok = established.stream.deregister();
                        self.released.push(established.stream);
                        proof {
                            io = EventIo { freed: ok, ..io };
                            assert(established.stream.calls() =~= start + connected_step(
                                conn@.flow,
                                key,
                                token,
                                io,
                            ).calls);
                        }
                        return (true, Ghost(io));
                    }
                    AnyConnection::Established(established)
                } else {
                    AnyConnection::EgressConnecting(c)
                }
            },
            Some(AnyConnection::IngressConnecting(c)) => AnyConnection::IngressConnecting(c),
            Some(AnyConnection::Established(c)) => {
                let (next, Ghost(did)) = self.react_established(
                    c,
                    token,
                    key,
                    is_readable,
                    is_writable,
                );
                proof {
                    io = did;
                }
                next
            },
            Some(AnyConnection::Closing(c)) => {
                let mut c = c;
                if is_readable {
                    let Ghost(calls) = drain(&mut c.stream, READ_BUFFER_SIZE);
                    proof {
                        io = EventIo { drain: calls, ..io };
                    }
                }
                AnyConnection::Closing(c)
            },
            None => {
                return (false, Ghost(io));
            },
        };
        let _ = self.host_connections.insert(token.0, next);
        proof {
            assert(self.host_connections@ =~= conns.insert(token.0, next));
            let step = event_step(conn@, key, token, is_readable, is_writable, io);
            if step.sends.len() == 0 {
                assert(self.control() =~= before.control() + step.sends);
            }
        }
        (false, Ghost(io))
    }

    /// The frames that datagrams make on a flow.
    pub open spec fn udp_frames(key: NatKey, datagrams: Seq<Vec<u8>>) -> Seq<Seq<u8>> {
        Seq::new(datagrams.len(), |i: int| vm_datagram(key, datagrams[i]@))
    }

    /// Whether datagrams of a UDP flow have been queued for the machine.
    pub open spec fn datagrams_taken(
        &self,
        after: &Self,
        token: Token,
        datagrams: Seq<Vec<u8>>,
        now: Instant,
    ) -> bool {
        let queued = NetProxy {
            to_vm_control_queue: after.to_vm_control_queue,
            packet_buf: after.packet_buf,
            udp: after.udp,
            ..*self
        };
        &&& after.unchanged(&queued)
        &&& after.control() == self.control() + Self::udp_frames(
            self.udp@.reverse[token.0],
            datagrams,
        )
        &&& after.udp@ == (if datagrams.len() > 0 {
            used(self.udp@, token, now)
        } else {
            self.udp@
        })
    }

    /// Queues datagrams of a UDP flow for the machine.
    fn handle_datagrams(&mut self, token: Token, datagrams: &Vec<Vec<u8>>, now: Instant)
        requires
            old(self).wf(),
            old(self).udp@.sockets.dom().contains(token.0),
            forall|i: int|
                0 <= i < datagrams@.len() ==> (#[trigger] datagrams@[i])@.len()
                    <= READ_BUFFER_SIZE,
        ensures
            final(self).wf(),
            old(self).datagrams_taken(final(self), token, datagrams@, now),
    {
        let ghost before = *self;
        if let Some(key) = self.udp.flow(token) {
            let mut i: usize = 0;
            assert(before.control() + Self::udp_frames(key, datagrams@.take(0))
                =~= before.control());
            while i < datagrams.len()
                invariant
                    before == *old(self),
                    before.wf(),
                    i <= datagrams@.len(),
                    forall|j: int|
                        0 <= j < datagrams@.len() ==> (#[trigger] datagrams@[j])@.len()
                            <= READ_BUFFER_SIZE,
                    self.control() == before.control() + Self::udp_frames(
                        key,
                        datagrams@.take(i as int),
                    ),
                    *self == (NetProxy {
                        to_vm_control_queue: self.to_vm_control_queue,
                        packet_buf: self.packet_buf,
                        ..before
                    }),
                decreases datagrams@.len() - i,
            {
                let ghost sofar = self.control();
                let packet = build_udp_packet(
                    &mut self.packet_buf,
                    key,
                    datagrams[i].as_slice(),
                );
                self.to_vm_control_queue.push_back(packet);
                proof {
                    assert(self.control() =~= sofar.push(bytes_view(packet)));
                    assert(Self::udp_frames(key, datagrams@.take(i + 1)) =~= Self::udp_frames(
                        key,
                        datagrams@.take(i as int),
                    ).push(bytes_view(packet)));
                    assert(self.control() =~= before.control() + Self::udp_frames(
                        key,
                        datagrams@.take(i + 1),
                    ));
                }
                i = i + 1;
            }
            assert(datagrams@.take(i as int) =~= datagrams@);
            if datagrams.len() > 0 {
                self.udp.used(token, now);
            }
        } else {
            assert(before.udp@.reverse.dom().contains(token.0));
        }
    }

    /// Whether a readiness event has been handled, before anything that fell due.
    pub open spec fn event_handled(
        &self,
        after: &Self,
        token: Token,
        is_readable: bool,
        is_writable: bool,
        accepted: Option<H>,
        datagrams: Seq<Vec<u8>>,
        now: Instant,
    ) -> bool {
        if self.unix_listeners@.dom().contains(token.0) {
            match accepted {
                Some(stream) => exists|any_port: u16, initial_seq: u32| #[trigger]
                    self.ingress_started(after, token, stream, any_port, initial_seq, None),
                None => after.unchanged(self),
            }
        } else if self.host_connections@.dom().contains(token.0) {
            exists|io: EventIo| #[trigger]
                self.event_taken(after, token, is_readable, is_writable, io, false)
        } else if self.udp@.sockets.dom().contains(token.0) {
            self.datagrams_taken(after, token, datagrams, now)
        } else {
            after.unchanged(self)
        }
    }

    /// Whether handling a readiness event ended early: an accepted stream or a stream that had
    /// been connected could not be registered, and is released.
    pub open spec fn event_given_up(
        &self,
        after: &Self,
        token: Token,
        is_readable: bool,
        is_writable: bool,
        accepted: Option<H>,
    ) -> bool {
        if self.unix_listeners@.dom().contains(token.0) {
            &&& accepted matches Some(stream)
            &&& *after == (NetProxy { released: after.released, ..*self })
            &&& one_released(
                self.released@,
                after.released@,
                stream.calls().push(
                    HostCall::Register {
                        token: Token(self.next_token),
                        interest: Interest::Readable,
                        ok: false,
                    },
                ),
            )
        } else {
            &&& self.host_connections@.dom().contains(token.0)
            &&& exists|io: EventIo| #[trigger]
                self.event_taken(after, token, is_readable, is_writable, io, true)
        }
    }
}

impl<H: TracedStream> NetProxy<H> {
    /// Whether everything but the tables of connections and the removals is the same.
    pub open spec fn same_beside_removals(&self, other: &Self) -> bool {
        &&& self.next_token == other.next_token
        &&& self.unix_listeners == other.unix_listeners
        &&& self.udp == other.udp
        &&& self.paused_reads == other.paused_reads
        &&& self.to_vm_control_queue == other.to_vm_control_queue
        &&& self.to_vm_data_queue == other.to_vm_data_queue
        &&& self.data_run_queue == other.data_run_queue
    }

    /// Whether these connections have been taken out of all the tables.
    pub open spec fn without(&self, after: &Self, tokens: Seq<Token>) -> bool {
        &&& after.host_connections@ == self.host_connections@.remove_keys(handles(tokens))
        &&& after.reverse_tcp_nat@ == self.reverse_tcp_nat@.remove_keys(handles(tokens))
        &&& after.tcp_nat_table@ == self.tcp_nat_table@.remove_keys(
            carried_by(self.reverse_tcp_nat@, tokens),
        )
        &&& self.let_go(after, tokens)
        &&& after.same_beside_removals(self)
    }

    /// Whether the streams of these connections have been released, in order, once their
    /// registration was ended.
    pub open spec fn let_go(&self, after: &Self, tokens: Seq<Token>) -> bool {
        let left = leaving(self.host_connections@, tokens);
        let n = self.released@.len();
        &&& after.released@.len() == n + left.len()
        &&& after.released@.take(n as int) == self.released@
        &&& forall|i: int|
            0 <= i < left.len() ==> deregistered(
                (#[trigger] left[i]).host().calls(),
                after.released@[n + i].calls(),
            )
    }

    /// Takes a connection out of all the tables, ends its registration and releases its stream.
    fn remove_connection(&mut self, token: Token)
        requires
            old(self).wf(),
        ensures
            final(self).wf(),
            final(self).host_connections@ == old(self).host_connections@.remove(token.0),
            final(self).reverse_tcp_nat@ == old(self).reverse_tcp_nat@.remove(token.0),
            final(self).tcp_nat_table@ == (if old(self).reverse_tcp_nat@.dom().contains(token.0) {
                old(self).tcp_nat_table@.remove(old(self).reverse_tcp_nat@[token.0])
            } else {
                old(self).tcp_nat_table@
            }),
            if old(self).host_connections@.dom().contains(token.0) {
                &&& final(self).released@ == old(self).released@.push(
                    final(self).released@.last(),
                )
                &&& deregistered(
                    old(self).host_connections@[token.0].host().calls(),
                    final(self).released@.last().calls(),
                )
            } else {
                final(self).released@ == old(self).released@
            },
            final(self).same_beside_removals(old(self)),
            final(self).connections_to_remove == old(self).connections_to_remove,
    {
        let ghost before = *self;
        if let Some(conn) = self.host_connections.remove(&token.0) {
            let mut stream = conn.into_stream();
            let _ = stream.deregister();
            self.released.push(stream);
        }
        assert(self.host_connections@ =~= before.host_connections@.remove(token.0));
        match self.reverse_tcp_nat.remove(&token.0) {
            Some(key) => {
                self.tcp_nat_table.remove(&key);
            },
            None => {},
        }
        assert(self.reverse_tcp_nat@ =~= before.reverse_tcp_nat@.remove(token.0));
    }

    /// Whether the connections that were to be removed are gone, and none is to be removed any
    /// more.
    pub open spec fn drained(&self, after: &Self) -> bool {
        &&& self.without(after, self.connections_to_remove@)
        &&& after.connections_to_remove@ == Seq::<Token>::empty()
    }

    /// Removes the connections that are to be removed.
    fn drain_removals(&mut self)
        requires
            old(self).wf(),
        ensures
            final(self).wf(),
            old(self).drained(final(self)),
    {
        let ghost before = *self;
        let mut tokens: Vec<Token> = Vec::new();
        std::mem::swap(&mut tokens, &mut self.connections_to_remove);
        let mut i: usize = 0;
        proof {
            let none = tokens@.take(0);
            assert(before.host_connections@ =~= before.host_connections@.remove_keys(
                handles(none),
            ));
            assert(before.reverse_tcp_nat@ =~= before.reverse_tcp_nat@.remove_keys(handles(none)));
            assert(before.tcp_nat_table@ =~= before.tcp_nat_table@.remove_keys(
                carried_by(before.reverse_tcp_nat@, none),
            ));
            assert(self.released@.take(before.released@.len() as int) =~= before.released@);
        }
        while i < tokens.len()
            invariant
                before == *old(self),
                i <= tokens@.len(),
                self.wf(),
                self.connections_to_remove@ == Seq::<Token>::empty(),
                before.without(self, tokens@.take(i as int)),
            decreases tokens@.len() - i,
        {
            let ghost mid = *self;
            self.remove_connection(tokens[i]);
            proof {
                removed_one(before.reverse_tcp_nat@, tokens@, i as int);
                let s = tokens@.take(i as int);
                let u = tokens@.take(i + 1);
                assert(u.drop_last() =~= s);
                assert(self.released@.take(before.released@.len() as int)
                    =~= mid.released@.take(before.released@.len() as int));
                assert(self.host_connections@ =~= before.host_connections@.remove_keys(
                    handles(u),
                ));
                assert(self.reverse_tcp_nat@ =~= before.reverse_tcp_nat@.remove_keys(handles(u)));
                assert(self.tcp_nat_table@ =~= before.tcp_nat_table@.remove_keys(
                    carried_by(before.reverse_tcp_nat@, u),
                ));
            }
            i = i + 1;
        }
        assert(tokens@.take(i as int) =~= tokens@);
    }

    /// Whether there is something for the machine to read.
    pub open spec fn has_frames(&self) -> bool {
        ||| self.to_vm_control_queue@.len() > 0
        ||| self.to_vm_data_queue@.len() > 0
        ||| self.data_run_queue@.len() > 0
    }

    /// Whether there is something for the machine to read, so that the backend is to be woken.
    pub fn notify_waker_if_necessary(&self) -> (r: bool)
        ensures
            r == self.has_frames(),
    {
        self.to_vm_control_queue.len() > 0 || self.to_vm_data_queue.len() > 0
            || self.data_run_queue.len() > 0
    }

    /// Whether a readiness event and all that follows it has been handled, by way of what is
    /// between the steps.
    pub open spec fn event_through(
        &self,
        a: Self,
        b: Self,
        after: &Self,
        token: Token,
        is_readable: bool,
        is_writable: bool,
        accepted: Option<H>,
        datagrams: Seq<Vec<u8>>,
        now: Instant,
    ) -> bool {
        &&& self.event_handled(
            &a,
            token,
            is_readable,
            is_writable,
            accepted,
            datagrams,
            now,
        )
        &&& a.drained(&b)
        &&& *after == (NetProxy { udp: after.udp, ..b })
        &&& after.udp@ == cleaned(b.udp@, now)
    }

    /// Handles a readiness event, before anything that fell due. Says whether it ended early.
    fn handle_ready(
        &mut self,
        token: Token,
        is_readable: bool,
        is_writable: bool,
        input: EventInput<H>,
        now: Instant,
    ) -> (given_up: bool)
        requires
            old(self).wf(),
            old(self).unix_listeners@.dom().contains(token.0) ==> old(self).next_token
                < usize::MAX,
            forall|i: int|
                0 <= i < input.datagrams@.len() ==> (#[trigger] input.datagrams@[i])@.len()
                    <= READ_BUFFER_SIZE,
        ensures
            final(self).wf(),
            given_up ==> old(self).event_given_up(
                final(self),
                token,
                is_readable,
                is_writable,
                input.accepted,
            ),
            !given_up ==> old(self).event_handled(
                final(self),
                token,
                is_readable,
                is_writable,
                input.accepted,
                input.datagrams@,
                now,
            ),
    {
        let ghost before = *self;
        if self.unix_listeners.contains_key(&token.0) {
            match input.accepted {
                Some(stream) => {
                    let any_port: u16 = random_u16();
                    let initial_seq: u32 = random_u32();
                    let refused = self.start_ingress(token, stream, any_port, initial_seq);
                    assert(before.ingress_started(
                        self,
                        token,
                        stream,
                        any_port,
                        initial_seq,
                        refused,
                    ));
                    match refused {
                        Some(s) => {
                            self.released.push(s);
                            true
                        },
                        None => false,
                    }
                },
                None => false,
            }
        } else if self.host_connections.contains_key(&token.0) {
            let (dropped, Ghost(io)) = self.handle_connection_event(
                token,
                is_readable,
                is_writable,
            );
            assert(before.event_taken(self, token, is_readable, is_writable, io, dropped));
            dropped
        } else {
            if self.udp.host_udp_sockets.contains_key(&token.0) {
                self.handle_datagrams(token, &input.datagrams, now);
            }
            false
        }
    }

    /// Handles a readiness event of a host socket: a listening socket has accepted a stream, a
    /// connection can go on, or datagrams have come in. Then connections that are over are
    /// removed, and idle UDP flows are forgotten from time to time.
    pub fn handle_event(
        &mut self,
        token: Token,
        is_readable: bool,
        is_writable: bool,
        input: EventInput<H>,
        now: Instant,
    ) -> (r: EventOutcome)
        requires
            old(self).wf(),
            old(self).unix_listeners@.dom().contains(token.0) ==> old(self).next_token
                < usize::MAX,
            forall|i: int|
                0 <= i < input.datagrams@.len() ==> (#[trigger] input.datagrams@[i])@.len()
                    <= READ_BUFFER_SIZE,
        ensures
            final(self).wf(),
            r.closed@.no_duplicates(),
            ({
                ||| {
                    &&& r.wake == final(self).has_frames()
                    &&& exists|a: Self, b: Self| #[trigger]
                        old(self).event_through(
                            a,
                            b,
                            final(self),
                            token,
                            is_readable,
                            is_writable,
                            input.accepted,
                            input.datagrams@,
                            now,
                        ) && (forall|t: Token| #[trigger]
                            r.closed@.contains(t) <==> timed_out(b.udp@.last_cleanup, now)
                                && idle_sockets(b.udp@, now).contains(t.0))
                }
                ||| {
                    &&& old(self).event_given_up(
                        final(self),
                        token,
                        is_readable,
                        is_writable,
                        input.accepted,
                    )
                    &&& !r.wake && r.closed@.len() == 0
                }
            }),
    {
        let ghost before = *self;
        let ghost accepted = input.accepted;
        let ghost datagrams = input.datagrams@;
        if self.handle_ready(token, is_readable, is_writable, input, now) {
            return EventOutcome { closed: Vec::new(), wake: false };
        }
        let ghost a = *self;
        self.drain_removals();
        let ghost b = *self;
        let closed = self.udp.cleanup(now);
        proof {
            assert forall|k: NatKey| #[trigger]
                self.udp@.flows.dom().contains(k) implies self.udp@.flows[k].0
                < self.next_token by {
                assert(b.udp@.flows.dom().contains(k));
            }
        }
        let wake = self.notify_waker_if_necessary();
        let r = EventOutcome { closed, wake };
        proof {
            assert(before.event_through(
                a,
                b,
                self,
                token,
                is_readable,
                is_writable,
                accepted,
                datagrams,
                now,
            ));
            assert forall|t: Token| #[trigger] r.closed@.contains(t) <==> timed_out(
                b.udp@.last_cleanup,
                now,
            ) && idle_sockets(b.udp@, now).contains(t.0) by {
                assert(closed@.contains(t) <==> r.closed@.contains(t));
            }
        }
        r
    }
}

} // verus!
