//! Readiness events of the host.
use bytes::{Bytes, BytesMut};
use std::collections::VecDeque;
use vstd::prelude::*;

use crate::addr::{Instant, Interest, IpAddr, NatKey, Token};
use crate::buffer::{bytes_view, drop_bytes, flat, flat_drop_bytes};
use crate::chance::{random_u16, random_u32};
use crate::direct_proxy::service_laws::events_serve_all;
use crate::direct_proxy::{
    build_tcp_packet, build_udp_packet, countable, AnyConnection, Closing, ConnView,
    EgressConnecting, Established, Flow, IngressConnecting, NetProxy, Phase, TcpConnection,
    MAX_PROXY_QUEUE_SIZE, READ_BUFFER_SIZE,
};
use crate::host::{
    deregistered, drain, drain_run, one_released, register_view, write_pending, write_run,
    write_run_sends, HostCall, HostRead, ReadView, RegisterView, TracedStream, WriteEnd,
    DRAIN_LIMIT,
};
use crate::proxy::events::{carried_by, handles, ingress_port, leaving, removed_one};
use crate::proxy::{proxy_ip, vm_ip};
use crate::tcp_fsm::model::{first_chunk, shows_closed};
use crate::tcp_fsm::MAX_SEGMENT_SIZE;
use crate::udp::{cleaned, idle_sockets, timed_out, used};
use crate::vm_frames::{vm_datagram, vm_frame};
use crate::wire::{FIN_ACK, PSH_ACK, RST_ACK, SYN, SYN_ACK};

verus! {

broadcast use vstd::std_specs::hash::group_hash_axioms;

// --- What an event does to a connection ---

/// Cuts data from the host into packets and queues them in order.
pub open spec fn queue_chunks(f: Flow, key: NatKey, data: Seq<u8>) -> Flow
    decreases data.len(),
{
    if data.len() == 0 {
        f
    } else {
        let chunk = first_chunk(data);
        queue_chunks(
            Flow {
                to_vm_buffer: f.to_vm_buffer.push(
                    vm_frame(key, f.tx_seq, f.tx_ack, chunk, PSH_ACK, 0xffff),
                ),
                tx_seq: f.tx_seq.wrapping_add(chunk.len() as u32),
                ..f
            },
            key,
            data.skip(chunk.len() as int),
        )
    }
}

/// What the host answers while an event is handled. An answer counts only where the host is
/// asked.
pub struct EventIo {
    /// The calls that write what waits for the host, how much it takes, and why it stops.
    pub writes: Seq<HostCall>,
    pub written: nat,
    pub end: WriteEnd,
    /// What a read comes to.
    pub got: ReadView,
    /// Whether shutting down, registering and deregistering works.
    pub shut: bool,
    pub came: RegisterView,
    pub freed: bool,
    /// The calls that read what a closing stream still has.
    pub drain: Seq<HostCall>,
}

/// What an event comes to.
pub struct EventStep {
    pub next: ConnView,
    pub sends: Seq<Seq<u8>>,
    pub removes: bool,
    /// Whether the connection is paused from now on.
    pub paused: bool,
    /// Whether the connection now has data for the machine and had none before.
    pub runs: bool,
    pub calls: Seq<HostCall>,
    /// Whether a registration that has to work did not.
    pub fails: bool,
}

/// What is left to write.
pub open spec fn written_off(f: Flow, n: nat) -> Flow {
    Flow { write_buffer: drop_bytes(f.write_buffer, n), ..f }
}

/// The connection to the host has been made: the machine is told, and what waits for the host
/// is written.
pub open spec fn connected_step(f: Flow, key: NatKey, token: Token, io: EventIo) -> EventStep {
    let syn_ack = vm_frame(key, f.tx_seq, f.tx_ack, Seq::empty(), SYN_ACK, 0xffff);
    let flow = Flow {
        tx_seq: f.tx_seq.wrapping_add(1),
        to_vm_buffer: Seq::empty(),
        ..written_off(f, io.written)
    };
    let interest = if io.end == WriteEnd::WouldBlock {
        Interest::Both
    } else {
        Interest::Readable
    };
    let closed = shows_closed(io.end);
    EventStep {
        next: ConnView {
            phase: if closed {
                Phase::Closing
            } else {
                Phase::Established
            },
            flow,
        },
        sends: seq![syn_ack],
        removes: false,
        paused: false,
        runs: false,
        calls: io.writes.push(
            if closed {
                HostCall::ShutdownWrite { ok: io.shut }
            } else {
                HostCall::Reregister { token, interest, came: io.came }
            },
        ),
        fails: !closed && !(io.came is Done),
    }
}

/// The last call for a connection that goes on: it is registered for what it waits for, and
/// not at all when it waits for nothing.
pub open spec fn settle_call(f: Flow, token: Token, paused: bool, io: EventIo) -> HostCall {
    let writes = f.write_buffer.len() > 0;
    if !paused && writes {
        HostCall::Reregister { token, interest: Interest::Both, came: io.came }
    } else if !paused {
        HostCall::Reregister { token, interest: Interest::Readable, came: io.came }
    } else if writes {
        HostCall::Reregister { token, interest: Interest::Writable, came: io.came }
    } else {
        HostCall::Deregister { ok: io.freed }
    }
}

/// An event while data flows: what waits for the host is written, then the host is read from
/// unless that is paused. A reset of the host is passed on, the end of the host closes the
/// connection, and a long queue pauses reading.
pub open spec fn established_event(
    f: Flow,
    key: NatKey,
    token: Token,
    is_readable: bool,
    is_writable: bool,
    paused: bool,
    io: EventIo,
) -> EventStep {
    let wrote = if is_writable {
        written_off(f, io.written)
    } else {
        f
    };
    let reads = is_readable && !paused;
    let read = match io.got {
        ReadView::Data(d) => {
            if reads {
                queue_chunks(wrote, key, d)
            } else {
                wrote
            }
        },
        _ => wrote,
    };
    let ended = io.got matches ReadView::Data(d) && d.len() == 0;
    let closed = (is_writable && shows_closed(io.end)) || (reads && (ended || io.got is Failed));
    let reset = reads && io.got is Reset;
    let io_calls = (if is_writable {
        io.writes
    } else {
        Seq::empty()
    }) + (if reads {
        seq![HostCall::Read { max: READ_BUFFER_SIZE as nat, got: io.got }]
    } else {
        Seq::empty()
    });
    let runs = wrote.to_vm_buffer.len() == 0 && read.to_vm_buffer.len() > 0;
    if reset {
        EventStep {
            next: ConnView { phase: Phase::Established, flow: read },
            sends: seq![
                vm_frame(key, read.tx_seq, read.tx_ack, Seq::empty(), RST_ACK, 0xffff),
            ],
            removes: true,
            paused,
            runs,
            calls: io_calls,
            fails: false,
        }
    } else if closed {
        EventStep {
            next: ConnView {
                phase: Phase::Closing,
                flow: Flow { tx_seq: read.tx_seq.wrapping_add(1), ..read },
            },
            sends: seq![
                vm_frame(key, read.tx_seq, read.tx_ack, Seq::empty(), FIN_ACK, 0xffff),
            ],
            removes: false,
            paused,
            runs,
            calls: io_calls.push(HostCall::ShutdownWrite { ok: io.shut }),
            fails: false,
        }
    } else {
        let full = paused || read.to_vm_buffer.len() >= MAX_PROXY_QUEUE_SIZE;
        EventStep {
            next: ConnView { phase: Phase::Established, flow: read },
            sends: Seq::empty(),
            removes: false,
            paused: full,
            runs,
            calls: io_calls.push(settle_call(read, token, full, io)),
            fails: false,
        }
    }
}

/// An event, whatever state the connection is in.
pub open spec fn event_step(
    v: ConnView,
    key: NatKey,
    token: Token,
    is_readable: bool,
    is_writable: bool,
    paused: bool,
    io: EventIo,
) -> EventStep {
    let idle = EventStep {
        next: v,
        sends: Seq::empty(),
        removes: false,
        paused,
        runs: false,
        calls: Seq::empty(),
        fails: false,
    };
    match v.phase {
        Phase::EgressConnecting => {
            if is_writable {
                EventStep { paused, ..connected_step(v.flow, key, token, io) }
            } else {
                idle
            }
        },
        Phase::IngressConnecting => idle,
        Phase::Established => established_event(
            v.flow,
            key,
            token,
            is_readable,
            is_writable,
            paused,
            io,
        ),
        Phase::Closing => {
            if is_readable {
                EventStep { calls: io.drain, ..idle }
            } else {
                idle
            }
        },
    }
}

/// Whether the host can have answered this: it is written to and read from as the state has
/// it.
pub open spec fn io_fits(v: ConnView, is_readable: bool, is_writable: bool, io: EventIo) -> bool {
    &&& v.phase is EgressConnecting || v.phase is Established ==> is_writable ==> write_run(
        v.flow.write_buffer,
        io.writes,
        io.written as int,
        io.end,
    )
    &&& v.phase is Closing && is_readable ==> drain_run(
        io.drain,
        READ_BUFFER_SIZE as nat,
        DRAIN_LIMIT as nat,
    )
    &&& io.got matches ReadView::Data(d) ==> d.len() <= READ_BUFFER_SIZE
}

/// A host that is not asked.
pub open spec fn no_io() -> EventIo {
    EventIo {
        writes: Seq::empty(),
        written: 0,
        end: WriteEnd::Emptied,
        got: ReadView::WouldBlock,
        shut: true,
        came: RegisterView::Done,
        freed: true,
        drain: Seq::empty(),
    }
}

/// What handling an event gives back.
struct Reacted<H> {
    conn: AnyConnection<H>,
    send: Option<Bytes>,
    removes: bool,
    paused: bool,
    runs: bool,
    fails: bool,
}

impl<H: TracedStream> Reacted<H> {
    spec fn sends(&self) -> Seq<Seq<u8>> {
        match self.send {
            Some(p) => seq![bytes_view(p)],
            None => Seq::empty(),
        }
    }

    /// Whether this is what an event comes to.
    spec fn is_step(&self, s: EventStep, before: Seq<HostCall>) -> bool {
        &&& self.sends() == s.sends
        &&& self.removes == s.removes
        &&& self.paused == s.paused
        &&& self.runs == s.runs
        &&& self.fails == s.fails
        &&& self.conn@ == s.next
        &&& self.conn.host().calls() == before + s.calls
    }
}

impl<H: TracedStream> TcpConnection<Established, H> {
    /// Cuts data from the host into packets and queues them.
    fn queue_host_data(&mut self, data: &[u8], key: NatKey, packet_buf: &mut BytesMut)
        ensures
            final(self).flow() == queue_chunks(old(self).flow(), key, data@),
            final(self).stream == old(self).stream,
    {
        let n: usize = data.len();
        let mut done: usize = 0;
        let ghost first = self.flow();
        assert(data@.skip(0) =~= data@);
        while done < n
            invariant
                done <= n,
                n == data@.len(),
                self.stream == old(self).stream,
                queue_chunks(self.flow(), key, data@.skip(done as int)) == queue_chunks(
                    first,
                    key,
                    data@,
                ),
            decreases n - done,
        {
            let ghost rest = data@.skip(done as int);
            let ghost f = self.flow();
            let end: usize = if n - done < MAX_SEGMENT_SIZE {
                n
            } else {
                done + MAX_SEGMENT_SIZE
            };
            let chunk: &[u8] = vstd::slice::slice_subrange(data, done, end);
            assert(chunk@ =~= first_chunk(rest));
            let packet = build_tcp_packet(
                packet_buf,
                key,
                self.tx_seq,
                self.tx_ack,
                Some(chunk),
                Some(PSH_ACK),
            );
            self.to_vm_buffer.push_back(packet);
            self.tx_seq = self.tx_seq.wrapping_add((end - done) as u32);
            proof {
                assert(self.flow().to_vm_buffer =~= f.to_vm_buffer.push(bytes_view(packet)));
                assert(self.flow() =~= (Flow {
                    to_vm_buffer: f.to_vm_buffer.push(
                        vm_frame(key, f.tx_seq, f.tx_ack, chunk@, PSH_ACK, 0xffff),
                    ),
                    tx_seq: f.tx_seq.wrapping_add(chunk@.len() as u32),
                    ..f
                }));
                assert(rest.skip(chunk@.len() as int) =~= data@.skip(end as int));
            }
            done = end;
        }
    }
}

impl<H: TracedStream> TcpConnection<EgressConnecting, H> {
    /// Handles that the connection to the host has been made.
    fn connected(self, token: Token, key: NatKey, paused: bool, packet_buf: &mut BytesMut) -> (r: (
        Reacted<H>,
        Ghost<EventIo>,
    ))
        requires
            flat(self.flow().write_buffer).len() <= usize::MAX,
        ensures
            r.0.is_step(
                EventStep { paused, ..connected_step(self.flow(), key, token, r.1@) },
                self.stream.calls(),
            ),
            write_run(self.flow().write_buffer, r.1@.writes, r.1@.written as int, r.1@.end),
            r.1@.got is WouldBlock,
            countable(r.0.conn@),
    {
        let ghost f = self.flow();
        let ghost before = self.stream.calls();
        let syn_ack = build_tcp_packet(
            packet_buf,
            key,
            self.tx_seq,
            self.tx_ack,
            None,
            Some(SYN_ACK),
        );
        let mut conn = TcpConnection {
            stream: self.stream,
            tx_seq: self.tx_seq.wrapping_add(1),
            tx_ack: self.tx_ack,
            write_buffer: self.write_buffer,
            to_vm_buffer: VecDeque::new(),
            state: Established,
        };
        let (written, end, Ghost(writes)) = write_pending(
            &mut conn.stream,
            &mut conn.write_buffer,
        );
        let ghost want = Flow {
            tx_seq: f.tx_seq.wrapping_add(1),
            to_vm_buffer: Seq::empty(),
            ..written_off(f, written as nat)
        };
        let ghost base = EventIo { writes, written: written as nat, end, ..no_io() };
        proof {
            assert(conn.flow() =~= want);
            write_run_sends(f.write_buffer, writes, written as int, end);
            flat_drop_bytes(f.write_buffer, written as nat);
        }
        if end == WriteEnd::Closed || end == WriteEnd::Failed {
            let ghost calls = conn.stream.calls();
            let closing = conn.close();
            let ghost ok = choose|ok: bool|
                closing.stream.calls() == #[trigger] calls.push(HostCall::ShutdownWrite { ok });
            let ghost io = EventIo { shut: ok, ..base };
            assert(closing.stream.calls() =~= before + io.writes.push(
                HostCall::ShutdownWrite { ok },
            ));
            (
                Reacted {
                    conn: AnyConnection::Closing(closing),
                    send: Some(syn_ack),
                    removes: false,
                    paused,
                    runs: false,
                    fails: false,
                },
                Ghost(io),
            )
        } else {
            let interest = if end == WriteEnd::WouldBlock {
                Interest::Both
            } else {
                Interest::Readable
            };
            let done = conn.stream.reregister(token, interest);
            let ghost io = EventIo { came: register_view(done), ..base };
            assert(conn.stream.calls() =~= before + io.writes.push(
                HostCall::Reregister { token, interest, came: io.came },
            ));
            (
                Reacted {
                    conn: AnyConnection::Established(conn),
                    send: Some(syn_ack),
                    removes: false,
                    paused,
                    runs: false,
                    fails: done.is_err(),
                },
                Ghost(io),
            )
        }
    }
}

impl<H: TracedStream> TcpConnection<Established, H> {
    /// Registers a connection that goes on for what it waits for, and not at all when it waits
    /// for nothing.
    fn settle(&mut self, token: Token, paused: bool) -> (r: Ghost<(RegisterView, bool)>)
        ensures
            final(self).flow() == old(self).flow(),
            forall|io: EventIo|
                io.came == r@.0 && io.freed == r@.1 ==> final(self).stream.calls() == old(
                    self,
                ).stream.calls().push(#[trigger] settle_call(old(self).flow(), token, paused, io)),
    {
        let writes = self.write_buffer.len() > 0;
        if paused && !writes {
            let ok = self.stream.deregister();
            return Ghost((RegisterView::Done, ok));
        }
        let interest = if !paused && writes {
            Interest::Both
        } else if !paused {
            Interest::Readable
        } else {
            Interest::Writable
        };
        let done = self.stream.reregister(token, interest);
        Ghost((register_view(done), true))
    }

    /// Handles an event while data flows.
    fn react(
        self,
        token: Token,
        key: NatKey,
        is_readable: bool,
        is_writable: bool,
        paused: bool,
        packet_buf: &mut BytesMut,
    ) -> (r: (Reacted<H>, Ghost<EventIo>))
        requires
            flat(self.flow().write_buffer).len() <= usize::MAX,
        ensures
            r.0.is_step(
                established_event(
                    self.flow(),
                    key,
                    token,
                    is_readable,
                    is_writable,
                    paused,
                    r.1@,
                ),
                self.stream.calls(),
            ),
            is_writable ==> write_run(
                self.flow().write_buffer,
                r.1@.writes,
                r.1@.written as int,
                r.1@.end,
            ),
            r.1@.got matches ReadView::Data(d) ==> d.len() <= READ_BUFFER_SIZE,
            countable(r.0.conn@),
    {
        let ghost f = self.flow();
        let ghost before = self.stream.calls();
        let ghost mut io = no_io();
        let ghost none = Seq::<HostCall>::empty();
        let mut conn = self;
        let mut closed = false;
        let mut reset = false;
        let mut runs = false;
        if is_writable {
            let (written, end, Ghost(writes)) = write_pending(
                &mut conn.stream,
                &mut conn.write_buffer,
            );
            closed = end == WriteEnd::Closed || end == WriteEnd::Failed;
            proof {
                io = EventIo { writes, written: written as nat, end, ..io };
                assert(conn.flow() =~= written_off(f, written as nat));
                write_run_sends(f.write_buffer, writes, written as int, end);
                flat_drop_bytes(f.write_buffer, written as nat);
            }
        }
        let ghost wrote = conn.flow();
        let ghost wrote_calls = if is_writable {
            io.writes
        } else {
            none
        };
        let ghost mut io_calls = wrote_calls + none;
        proof {
            assert(before + none =~= before);
            assert(wrote_calls + none =~= wrote_calls);
            assert(conn.stream.calls() =~= before + io_calls);
        }
        if is_readable && !paused {
            let got = conn.stream.read(READ_BUFFER_SIZE);
            proof {
                io = EventIo { got: got@, ..io };
                let call = HostCall::Read { max: READ_BUFFER_SIZE as nat, got: got@ };
                io_calls = wrote_calls + seq![call];
                assert(conn.stream.calls() =~= before + io_calls);
            }
            match got {
                HostRead::Data(d) => {
                    if d.len() == 0 {
                        closed = true;
                    } else {
                        let was_empty = conn.to_vm_buffer.len() == 0;
                        conn.queue_host_data(d.as_slice(), key, packet_buf);
                        runs = was_empty && conn.to_vm_buffer.len() > 0;
                    }
                },
                HostRead::WouldBlock => {},
                HostRead::Reset => {
                    reset = true;
                },
                HostRead::Failed(_) => {
                    closed = true;
                },
            }
        }
        let ghost read = conn.flow();
        proof {
            queue_chunks_keeps(
                wrote,
                key,
                match io.got {
                    ReadView::Data(d) => d,
                    _ => Seq::empty(),
                },
            );
        }
        if reset {
            let send = build_tcp_packet(
                packet_buf,
                key,
                conn.tx_seq,
                conn.tx_ack,
                None,
                Some(RST_ACK),
            );
            (
                Reacted {
                    conn: AnyConnection::Established(conn),
                    send: Some(send),
                    removes: true,
                    paused,
                    runs,
                    fails: false,
                },
                Ghost(io),
            )
        } else if closed {
            let ghost calls = conn.stream.calls();
            let mut closing = conn.close();
            let ghost ok = choose|ok: bool|
                closing.stream.calls() == #[trigger] calls.push(HostCall::ShutdownWrite { ok });
            let send = build_tcp_packet(
                packet_buf,
                key,
                closing.tx_seq,
                closing.tx_ack,
                None,
                Some(FIN_ACK),
            );
            closing.tx_seq = closing.tx_seq.wrapping_add(1);
            proof {
                io = EventIo { shut: ok, ..io };
                assert(closing.flow() =~= (Flow { tx_seq: read.tx_seq.wrapping_add(1), ..read }));
                assert(closing.stream.calls() =~= before + io_calls.push(
                    HostCall::ShutdownWrite { ok },
                ));
            }
            (
                Reacted {
                    conn: AnyConnection::Closing(closing),
                    send: Some(send),
                    removes: false,
                    paused,
                    runs,
                    fails: false,
                },
                Ghost(io),
            )
        } else {
            let full = paused || conn.to_vm_buffer.len() >= MAX_PROXY_QUEUE_SIZE;
            let Ghost(answer) = conn.settle(token, full);
            proof {
                io = EventIo { came: answer.0, freed: answer.1, ..io };
                let call = settle_call(read, token, full, io);
                assert(conn.stream.calls() =~= before + io_calls.push(call));
            }
            (
                Reacted {
                    conn: AnyConnection::Established(conn),
                    send: None,
                    removes: false,
                    paused: full,
                    runs,
                    fails: false,
                },
                Ghost(io),
            )
        }
    }
}

/// Queueing data for the machine touches nothing that waits for the host.
proof fn queue_chunks_keeps(f: Flow, key: NatKey, data: Seq<u8>)
    ensures
        queue_chunks(f, key, data).write_buffer == f.write_buffer,
        queue_chunks(f, key, data).to_vm_buffer.len() >= f.to_vm_buffer.len(),
    decreases data.len(),
{
    if data.len() > 0 {
        let chunk = first_chunk(data);
        let next = Flow {
            to_vm_buffer: f.to_vm_buffer.push(
                vm_frame(key, f.tx_seq, f.tx_ack, chunk, PSH_ACK, 0xffff),
            ),
            tx_seq: f.tx_seq.wrapping_add(chunk.len() as u32),
            ..f
        };
        queue_chunks_keeps(next, key, data.skip(chunk.len() as int));
    }
}

/// Handles an event, whatever state the connection is in.
fn react<H: TracedStream>(
    conn: AnyConnection<H>,
    token: Token,
    key: NatKey,
    is_readable: bool,
    is_writable: bool,
    paused: bool,
    packet_buf: &mut BytesMut,
) -> (r: (Reacted<H>, Ghost<EventIo>))
    requires
        countable(conn@),
    ensures
        r.0.is_step(
            event_step(conn@, key, token, is_readable, is_writable, paused, r.1@),
            conn.host().calls(),
        ),
        io_fits(conn@, is_readable, is_writable, r.1@),
        countable(r.0.conn@),
{
    let ghost before = conn.host().calls();
    assert(before + Seq::<HostCall>::empty() =~= before);
    match conn {
        AnyConnection::EgressConnecting(c) => {
            if is_writable {
                c.connected(token, key, paused, packet_buf)
            } else {
                (
                    Reacted {
                        conn: AnyConnection::EgressConnecting(c),
                        send: None,
                        removes: false,
                        paused,
                        runs: false,
                        fails: false,
                    },
                    Ghost(no_io()),
                )
            }
        },
        AnyConnection::IngressConnecting(c) => (
            Reacted {
                conn: AnyConnection::IngressConnecting(c),
                send: None,
                removes: false,
                paused,
                runs: false,
                fails: false,
            },
            Ghost(no_io()),
        ),
        AnyConnection::Established(c) => {
            c.react(token, key, is_readable, is_writable, paused, packet_buf)
        },
        AnyConnection::Closing(c) => {
            let mut c = c;
            let ghost mut io = no_io();
            if is_readable {
                let Ghost(calls) = drain(&mut c.stream, READ_BUFFER_SIZE);
                proof {
                    io = EventIo { drain: calls, ..io };
                }
            }
            (
                Reacted {
                    conn: AnyConnection::Closing(c),
                    send: None,
                    removes: false,
                    paused,
                    runs: false,
                    fails: false,
                },
                Ghost(io),
            )
        },
    }
}

// --- The proxy ---

/// What the host had for the proxy when a readiness event came: a stream that a listening
/// socket accepted, or a datagram that a UDP socket received.
pub struct EventInput<H> {
    pub accepted: Option<H>,
    pub datagram: Option<Vec<u8>>,
}

/// What is left to be done on the host after a readiness event.
pub struct EventOutcome {
    /// UDP sockets that are to be closed.
    pub closed: Vec<Token>,
    /// Whether a registration that has to work did not.
    pub failed: bool,
    /// Whether there is something for the machine to read.
    pub wake: bool,
}

impl<H: TracedStream> NetProxy<H> {
    /// The flow of a connection to the machine.
    pub open spec fn ingress_key(port: u16, vm_port: u16) -> NatKey {
        (IpAddr::V4(proxy_ip()), port, IpAddr::V4(vm_ip()), vm_port)
    }

    /// Whether everything but the tables of connections, the next handle and the queues is the
    /// same.
    pub open spec fn same_beside_flows(&self, other: &Self) -> bool {
        &&& self.unix_listeners == other.unix_listeners
        &&& self.udp == other.udp
        &&& self.paused_reads == other.paused_reads
        &&& self.connections_to_remove == other.connections_to_remove
        &&& self.released == other.released
        &&& self.data_run_queue == other.data_run_queue
    }

    /// Whether a connection has been entered under the next handle.
    pub open spec fn entered(&self, after: &Self, key: NatKey) -> bool {
        let token = Token(self.next_token);
        &&& after.next_token == self.next_token + 1
        &&& after.tcp_nat_table@ == self.tcp_nat_table@.insert(key, token)
        &&& after.reverse_tcp_nat@ == self.reverse_tcp_nat@.insert(token.0, key)
        &&& after.host_connections@ == self.host_connections@.insert(
            token.0,
            after.host_connections@[token.0],
        )
        &&& after.same_beside_flows(self)
    }

    /// Enters a connection under the next handle.
    fn enter(&mut self, key: NatKey, conn: AnyConnection<H>) -> (r: Token)
        requires
            old(self).wf(),
            old(self).next_token < usize::MAX,
            countable(conn@),
        ensures
            final(self).wf(),
            r == Token(old(self).next_token),
            old(self).entered(final(self), key),
            final(self).host_connections@[r.0] == conn,
            final(self).to_vm_control_queue == old(self).to_vm_control_queue,
    {
        let ghost before = *self;
        let token = Token(self.next_token);
        self.next_token = self.next_token + 1;
        self.tcp_nat_table.insert(key, token);
        let _ = self.reverse_tcp_nat.insert(token.0, key);
        let _ = self.host_connections.insert(token.0, conn);
        proof {
            assert(!before.reverse_tcp_nat@.dom().contains(token.0));
            assert(self.host_connections@ =~= before.host_connections@.insert(
                token.0,
                self.host_connections@[token.0],
            ));
        }
        token
    }

    /// Registers a stream to the host under the next handle and enters the connection that the
    /// machine asked for, with a sequence number of its own. Gives the handle, and whether the
    /// stream could be registered.
    pub fn add_egress(&mut self, stream: H, nat_key: NatKey, vm_sequence: u32) -> (r: (
        Token,
        bool,
    ))
        requires
            old(self).wf(),
            old(self).next_token < usize::MAX,
        ensures
            final(self).wf(),
            old(self).serves_all() ==> final(self).serves_all(),
            exists|tx_seq: u32| #[trigger]
                old(self).egress_added(
                    final(self),
                    stream,
                    nat_key,
                    vm_sequence,
                    tx_seq,
                    r.0,
                    r.1,
                ),
    {
        let tx_seq: u32 = random_u32();
        let r = self.add_egress_from(stream, nat_key, vm_sequence, tx_seq);
        assert(old(self).egress_added(self, stream, nat_key, vm_sequence, tx_seq, r.0, r.1));
        r
    }

    /// Whether a connection that the machine asked for has been entered.
    pub open spec fn egress_added(
        &self,
        after: &Self,
        stream: H,
        nat_key: NatKey,
        vm_sequence: u32,
        tx_seq: u32,
        token: Token,
        ok: bool,
    ) -> bool {
        let conn = after.host_connections@[token.0];
        &&& token == Token(self.next_token)
        &&& self.entered(after, nat_key)
        &&& after.control() == self.control()
        &&& conn@ == (ConnView {
            phase: Phase::EgressConnecting,
            flow: Flow {
                tx_seq,
                tx_ack: vm_sequence.wrapping_add(1),
                write_buffer: Seq::empty(),
                to_vm_buffer: Seq::empty(),
            },
        })
        &&& conn.host().calls() == stream.calls().push(
            HostCall::Register { token, interest: Interest::Both, ok },
        )
    }

    /// The same with a given sequence number.
    pub fn add_egress_from(
        &mut self,
        stream: H,
        nat_key: NatKey,
        vm_sequence: u32,
        tx_seq: u32,
    ) -> (r: (Token, bool))
        requires
            old(self).wf(),
            old(self).next_token < usize::MAX,
        ensures
            final(self).wf(),
            old(self).serves_all() ==> final(self).serves_all(),
            old(self).egress_added(
                final(self),
                stream,
                nat_key,
                vm_sequence,
                tx_seq,
                r.0,
                r.1,
            ),
    {
        let mut stream = stream;
        let ok = stream.register(Token(self.next_token), Interest::Both);
        let conn = TcpConnection {
            stream,
            tx_seq,
            tx_ack: vm_sequence.wrapping_add(1),
            write_buffer: VecDeque::new(),
            to_vm_buffer: VecDeque::new(),
            state: EgressConnecting,
        };
        proof {
            assert(conn.flow().write_buffer =~= Seq::<Seq<u8>>::empty());
            assert(conn.flow().to_vm_buffer =~= Seq::<Seq<u8>>::empty());
        }
        let token = self.enter(nat_key, AnyConnection::EgressConnecting(conn));
        (token, ok)
    }

    /// Whether a connection to the machine has been started over an accepted stream: the
    /// stream is registered, the connection is entered, and a SYN is queued. Where the stream
    /// cannot be registered, it is handed back and only its handle is gone.
    pub open spec fn ingress_started(
        &self,
        after: &Self,
        listener: Token,
        stream: H,
        any_port: u16,
        initial_seq: u32,
        refused: Option<H>,
    ) -> bool {
        let token = Token(self.next_token);
        let key = Self::ingress_key(
            ingress_port(any_port),
            self.unix_listeners@[listener.0],
        );
        let conn = after.host_connections@[token.0];
        match refused {
            None => {
                &&& self.entered(after, key)
                &&& after.control() == self.control().push(
                    vm_frame(key, initial_seq, 0, Seq::empty(), SYN, 0xffff),
                )
                &&& conn@ == (ConnView {
                    phase: Phase::IngressConnecting,
                    flow: Flow {
                        tx_seq: initial_seq.wrapping_add(1),
                        tx_ack: 0,
                        write_buffer: Seq::empty(),
                        to_vm_buffer: Seq::empty(),
                    },
                })
                &&& conn.host().calls() == stream.calls().push(
                    HostCall::Register { token, interest: Interest::Both, ok: true },
                )
            },
            Some(s) => {
                &&& *after == (NetProxy { next_token: (self.next_token + 1) as usize, ..*self })
                &&& s.calls() == stream.calls().push(
                    HostCall::Register { token, interest: Interest::Both, ok: false },
                )
            },
        }
    }

    /// Starts a connection to the machine over an accepted stream, with given numbers in place
    /// of random ones. The stream is registered first, and handed back where that did not
    /// work.
    pub fn start_ingress(
        &mut self,
        listener: Token,
        stream: H,
        any_port: u16,
        initial_seq: u32,
    ) -> (r: Option<H>)
        requires
            old(self).wf(),
            old(self).unix_listeners@.dom().contains(listener.0),
            old(self).next_token < usize::MAX,
        ensures
            final(self).wf(),
            old(self).serves_all() ==> final(self).serves_all(),
            old(self).ingress_started(
                final(self),
                listener,
                stream,
                any_port,
                initial_seq,
                r,
            ),
    {
        let ghost before = *self;
        let vm_port: u16 = match self.unix_listeners.get(&listener.0) {
            Some(p) => *p,
            None => 0,
        };
        let mut stream = stream;
        let ok = stream.register(Token(self.next_token), Interest::Both);
        if !ok {
            self.next_token = self.next_token + 1;
            return Some(stream);
        }
        let key: NatKey = (
            IpAddr::V4(proxy_ip()),
            ingress_port(any_port),
            IpAddr::V4(vm_ip()),
            vm_port,
        );
        let syn = build_tcp_packet(&mut self.packet_buf, key, initial_seq, 0, None, Some(SYN));
        self.to_vm_control_queue.push_back(syn);
        assert(self.control() =~= before.control().push(bytes_view(syn)));
        let conn = TcpConnection {
            stream,
            tx_seq: initial_seq.wrapping_add(1),
            tx_ack: 0,
            write_buffer: VecDeque::new(),
            to_vm_buffer: VecDeque::new(),
            state: IngressConnecting,
        };
        proof {
            assert(conn.flow().write_buffer =~= Seq::<Seq<u8>>::empty());
            assert(conn.flow().to_vm_buffer =~= Seq::<Seq<u8>>::empty());
        }
        let _ = self.enter(key, AnyConnection::IngressConnecting(conn));
        None
    }

    /// Whether an event of a connection has been handled.
    pub open spec fn event_taken(
        &self,
        after: &Self,
        token: Token,
        is_readable: bool,
        is_writable: bool,
        io: EventIo,
        failed: bool,
    ) -> bool {
        let conn = self.host_connections@[token.0];
        let left = after.host_connections@[token.0];
        let step = event_step(
            conn@,
            self.reverse_tcp_nat@[token.0],
            token,
            is_readable,
            is_writable,
            self.paused_reads@.contains(token.0),
            io,
        );
        &&& io_fits(conn@, is_readable, is_writable, io)
        &&& after.same_tables(self)
        &&& after.host_connections@ == self.host_connections@.insert(token.0, left)
        &&& left@ == step.next
        &&& left.host().calls() == conn.host().calls() + step.calls
        &&& after.control() == self.control() + step.sends
        &&& after.connections_to_remove@ == (if step.removes {
            self.connections_to_remove@.push(token)
        } else {
            self.connections_to_remove@
        })
        &&& after.paused_reads@ == (if step.paused {
            self.paused_reads@.insert(token.0)
        } else {
            self.paused_reads@
        })
        &&& after.data_run_queue@ == (if step.runs {
            self.data_run_queue@.push(token)
        } else {
            self.data_run_queue@
        })
        &&& after.released == self.released
        &&& failed == step.fails
    }

    /// Handles an event of a connection. Says whether a registration that has to work did
    /// not.
    fn handle_connection_event(
        &mut self,
        token: Token,
        is_readable: bool,
        is_writable: bool,
    ) -> (r: (bool, Ghost<EventIo>))
        requires
            old(self).wf(),
            old(self).host_connections@.dom().contains(token.0),
        ensures
            final(self).wf(),
            old(self).event_taken(
                final(self),
                token,
                is_readable,
                is_writable,
                r.1@,
                r.0,
            ),
    {
        let ghost before = *self;
        let paused = self.paused_reads.contains(&token.0);
        let key: NatKey = match self.reverse_tcp_nat.get(&token.0) {
            Some(k) => *k,
            None => (IpAddr::V4(proxy_ip()), 0, IpAddr::V4(proxy_ip()), 0),
        };
        match self.host_connections.remove(&token.0) {
            Some(conn) => {
                assert(before.host_connections@.dom().contains(token.0));
                let (reacted, Ghost(io)) = react(
                    conn,
                    token,
                    key,
                    is_readable,
                    is_writable,
                    paused,
                    &mut self.packet_buf,
                );
                let ghost sends = reacted.sends();
                match reacted.send {
                    Some(p) => {
                        self.to_vm_control_queue.push_back(p);
                    },
                    None => {},
                }
                assert(self.control() =~= before.control() + sends);
                if reacted.removes {
                    self.connections_to_remove.push(token);
                }
                if reacted.paused {
                    let _ = self.paused_reads.insert(token.0);
                    assert(self.paused_reads@ =~= before.paused_reads@.insert(token.0));
                }
                if reacted.runs {
                    self.data_run_queue.push_back(token);
                }
                let ghost left = reacted.conn;
                let _ = self.host_connections.insert(token.0, reacted.conn);
                assert(self.host_connections@ =~= before.host_connections@.insert(
                    token.0,
                    left,
                ));
                (reacted.fails, Ghost(io))
            },
            None => (false, Ghost(no_io())),
        }
    }

    /// Whether a datagram of a UDP flow has been queued for the machine.
    pub open spec fn datagram_taken(
        &self,
        after: &Self,
        token: Token,
        datagram: Option<Vec<u8>>,
        now: Instant,
    ) -> bool {
        match datagram {
            Some(d) => {
                let queued = NetProxy {
                    to_vm_control_queue: after.to_vm_control_queue,
                    packet_buf: after.packet_buf,
                    udp: after.udp,
                    ..*self
                };
                &&& after.unchanged(&queued)
                &&& after.control() == self.control().push(
                    vm_datagram(self.udp@.reverse[token.0], d@),
                )
                &&& after.udp@ == used(self.udp@, token, now)
            },
            None => after.unchanged(self),
        }
    }

    /// Whether a readiness event has been handled, before anything that fell due.
    pub open spec fn event_handled(
        &self,
        after: &Self,
        token: Token,
        is_readable: bool,
        is_writable: bool,
        accepted: Option<H>,
        datagram: Option<Vec<u8>>,
        now: Instant,
        failed: bool,
    ) -> bool {
        if self.unix_listeners@.dom().contains(token.0) {
            match accepted {
                Some(stream) => {
                    &&& !failed
                    &&& exists|any_port: u16, initial_seq: u32| #[trigger]
                        self.ingress_started(after, token, stream, any_port, initial_seq, None)
                },
                None => after.unchanged(self) && !failed,
            }
        } else if self.host_connections@.dom().contains(token.0) {
            exists|io: EventIo| #[trigger]
                self.event_taken(after, token, is_readable, is_writable, io, failed)
        } else if self.udp@.sockets.dom().contains(token.0) {
            self.datagram_taken(after, token, datagram, now) && !failed
        } else {
            after.unchanged(self) && !failed
        }
    }
}

impl<H: TracedStream> NetProxy<H> {
    /// Whether everything but the tables of connections and the removals is the same.
    pub open spec fn same_beside_removals(&self, other: &Self) -> bool {
        &&& self.next_token == other.next_token
        &&& self.unix_listeners == other.unix_listeners
        &&& self.udp == other.udp
        &&& self.paused_reads == other.paused_reads
        &&& self.to_vm_control_queue == other.to_vm_control_queue
        &&& self.data_run_queue == other.data_run_queue
    }

    /// Whether these connections have been taken out of all the tables.
    pub open spec fn without(&self, after: &Self, tokens: Seq<Token>) -> bool {
        &&& after.host_connections@ == self.host_connections@.remove_keys(handles(tokens))
        &&& after.reverse_tcp_nat@ == self.reverse_tcp_nat@.remove_keys(handles(tokens))
        &&& after.tcp_nat_table@ == self.tcp_nat_table@.remove_keys(
            carried_by(self.reverse_tcp_nat@, tokens),
        )
        &&& self.let_go(after, tokens)
        &&& after.same_beside_removals(self)
    }

    /// Whether the streams of these connections have been released, in order, once their
    /// registration was ended.
    pub open spec fn let_go(&self, after: &Self, tokens: Seq<Token>) -> bool {
        let left = leaving(self.host_connections@, tokens);
        let n = self.released@.len();
        &&& after.released@.len() == n + left.len()
        &&& after.released@.take(n as int) == self.released@
        &&& forall|i: int|
            0 <= i < left.len() ==> deregistered(
                (#[trigger] left[i]).host().calls(),
                after.released@[n + i].calls(),
            )
    }

    /// Takes a connection out of all the tables, ends its registration and releases its stream.
    fn remove_connection(&mut self, token: Token)
        requires
            old(self).wf(),
        ensures
            final(self).wf(),
            final(self).host_connections@ == old(self).host_connections@.remove(token.0),
            final(self).reverse_tcp_nat@ == old(self).reverse_tcp_nat@.remove(token.0),
            final(self).tcp_nat_table@ == (if old(self).reverse_tcp_nat@.dom().contains(token.0) {
                old(self).tcp_nat_table@.remove(old(self).reverse_tcp_nat@[token.0])
            } else {
                old(self).tcp_nat_table@
            }),
            if old(self).host_connections@.dom().contains(token.0) {
                &&& final(self).released@ == old(self).released@.push(
                    final(self).released@.last(),
                )
                &&& deregistered(
                    old(self).host_connections@[token.0].host().calls(),
                    final(self).released@.last().calls(),
                )
            } else {
                final(self).released@ == old(self).released@
            },
            final(self).same_beside_removals(old(self)),
            final(self).connections_to_remove == old(self).connections_to_remove,
    {
        let ghost before = *self;
        if let Some(conn) = self.host_connections.remove(&token.0) {
            let mut stream = conn.into_stream();
            let _ = stream.deregister();
            self.released.push(stream);
        }
        assert(self.host_connections@ =~= before.host_connections@.remove(token.0));
        match self.reverse_tcp_nat.remove(&token.0) {
            Some(key) => {
                self.tcp_nat_table.remove(&key);
            },
            None => {},
        }
        assert(self.reverse_tcp_nat@ =~= before.reverse_tcp_nat@.remove(token.0));
    }

    /// Whether the connections that were to be removed are gone, and none is to be removed any
    /// more.
    pub open spec fn drained(&self, after: &Self) -> bool {
        &&& self.without(after, self.connections_to_remove@)
        &&& after.connections_to_remove@ == Seq::<Token>::empty()
    }

    /// Removes the connections that are to be removed.
    fn drain_removals(&mut self)
        requires
            old(self).wf(),
        ensures
            final(self).wf(),
            old(self).drained(final(self)),
    {
        let ghost before = *self;
        let mut tokens: Vec<Token> = Vec::new();
        std::mem::swap(&mut tokens, &mut self.connections_to_remove);
        let mut i: usize = 0;
        proof {
            let none = tokens@.take(0);
            assert(before.host_connections@ =~= before.host_connections@.remove_keys(
                handles(none),
            ));
            assert(before.reverse_tcp_nat@ =~= before.reverse_tcp_nat@.remove_keys(handles(none)));
            assert(before.tcp_nat_table@ =~= before.tcp_nat_table@.remove_keys(
                carried_by(before.reverse_tcp_nat@, none),
            ));
            assert(self.released@.take(before.released@.len() as int) =~= before.released@);
        }
        while i < tokens.len()
            invariant
                before == *old(self),
                i <= tokens@.len(),
                self.wf(),
                self.connections_to_remove@ == Seq::<Token>::empty(),
                before.without(self, tokens@.take(i as int)),
            decreases tokens@.len() - i,
        {
            let ghost mid = *self;
            self.remove_connection(tokens[i]);
            proof {
                removed_one(before.reverse_tcp_nat@, tokens@, i as int);
                let s = tokens@.take(i as int);
                let u = tokens@.take(i + 1);
                assert(u.drop_last() =~= s);
                assert(self.released@.take(before.released@.len() as int)
                    =~= mid.released@.take(before.released@.len() as int));
                assert(self.host_connections@ =~= before.host_connections@.remove_keys(
                    handles(u),
                ));
                assert(self.reverse_tcp_nat@ =~= before.reverse_tcp_nat@.remove_keys(handles(u)));
                assert(self.tcp_nat_table@ =~= before.tcp_nat_table@.remove_keys(
                    carried_by(before.reverse_tcp_nat@, u),
                ));
            }
            i = i + 1;
        }
        assert(tokens@.take(i as int) =~= tokens@);
    }

    /// Whether there is something for the machine to read.
    pub open spec fn has_frames(&self) -> bool {
        self.to_vm_control_queue@.len() > 0 || self.data_run_queue@.len() > 0
    }

    /// Whether there is something for the machine to read, so that the backend is to be woken.
    pub fn wakes_backend(&self) -> (r: bool)
        ensures
            r == self.has_frames(),
    {
        self.to_vm_control_queue.len() > 0 || self.data_run_queue.len() > 0
    }

    /// Whether a readiness event and all that follows it has been handled, by way of what is
    /// between the steps.
    pub open spec fn event_through(
        &self,
        a: Self,
        b: Self,
        after: &Self,
        token: Token,
        is_readable: bool,
        is_writable: bool,
        accepted: Option<H>,
        datagram: Option<Vec<u8>>,
        now: Instant,
        failed: bool,
    ) -> bool {
        &&& self.event_handled(
            &a,
            token,
            is_readable,
            is_writable,
            accepted,
            datagram,
            now,
            failed,
        )
        &&& a.drained(&b)
        &&& *after == (NetProxy { udp: after.udp, ..b })
        &&& after.udp@ == cleaned(b.udp@, now)
    }

    /// Handles a readiness event, before anything that fell due. Says whether a registration
    /// that has to work did not.
    fn handle_ready(
        &mut self,
        token: Token,
        is_readable: bool,
        is_writable: bool,
        datagram: &Option<Vec<u8>>,
        now: Instant,
    ) -> (failed: bool)
        requires
            old(self).wf(),
            !old(self).unix_listeners@.dom().contains(token.0),
            datagram matches Some(d) ==> d@.len() <= READ_BUFFER_SIZE,
        ensures
            final(self).wf(),
            old(self).event_handled(
                final(self),
                token,
                is_readable,
                is_writable,
                None,
                *datagram,
                now,
                failed,
            ),
    {
        let ghost before = *self;
        if self.host_connections.contains_key(&token.0) {
            let (failed, Ghost(io)) = self.handle_connection_event(
                token,
                is_readable,
                is_writable,
            );
            assert(before.event_taken(self, token, is_readable, is_writable, io, failed));
            failed
        } else {
            if self.udp.host_udp_sockets.contains_key(&token.0) {
                if let Some(d) = datagram {
                    if let Some(key) = self.udp.flow(token) {
                        let packet = build_udp_packet(&mut self.packet_buf, key, d.as_slice());
                        self.to_vm_control_queue.push_back(packet);
                        self.udp.used(token, now);
                        assert(self.control() =~= before.control().push(bytes_view(packet)));
                    } else {
                        assert(before.udp@.reverse.dom().contains(token.0));
                    }
                }
            }
            false
        }
    }

    /// Handles a readiness event of a host socket: a listening socket has accepted a stream, a
    /// connection can go on, or a datagram has come in. Then connections that are over are
    /// removed, and idle UDP flows are forgotten from time to time.
    pub fn handle_event(
        &mut self,
        token: Token,
        is_readable: bool,
        is_writable: bool,
        input: EventInput<H>,
        now: Instant,
    ) -> (r: EventOutcome)
        requires
            old(self).wf(),
            old(self).unix_listeners@.dom().contains(token.0) ==> old(self).next_token
                < usize::MAX,
            input.datagram matches Some(d) ==> d@.len() <= READ_BUFFER_SIZE,
        ensures
            final(self).wf(),
            old(self).serves_all() ==> final(self).serves_all(),
            r.closed@.no_duplicates(),
            ({
                ||| {
                    &&& r.wake == final(self).has_frames()
                    &&& exists|a: Self, b: Self| #[trigger]
                        old(self).event_through(
                            a,
                            b,
                            final(self),
                            token,
                            is_readable,
                            is_writable,
                            input.accepted,
                            input.datagram,
                            now,
                            r.failed,
                        ) && (forall|t: Token| #[trigger]
                            r.closed@.contains(t) <==> timed_out(b.udp@.last_cleanup, now)
                                && idle_sockets(b.udp@, now).contains(t.0))
                }
                ||| {
                    &&& old(self).unix_listeners@.dom().contains(token.0)
                    &&& input.accepted matches Some(stream)
                    &&& *final(self) == (NetProxy {
                        next_token: (old(self).next_token + 1) as usize,
                        released: final(self).released,
                        ..*old(self)
                    })
                    &&& one_released(
                        old(self).released@,
                        final(self).released@,
                        stream.calls().push(
                            HostCall::Register {
                                token: Token(old(self).next_token),
                                interest: Interest::Both,
                                ok: false,
                            },
                        ),
                    )
                    &&& !r.wake && !r.failed && r.closed@.len() == 0
                }
            }),
    {
        let ghost before = *self;
        let ghost accepted = input.accepted;
        let ghost datagram = input.datagram;
        let mut failed = false;
        if self.unix_listeners.contains_key(&token.0) {
            match input.accepted {
                Some(stream) => {
                    let any_port: u16 = random_u16();
                    let initial_seq: u32 = random_u32();
                    let refused = self.start_ingress(token, stream, any_port, initial_seq);
                    assert(before.ingress_started(
                        self,
                        token,
                        stream,
                        any_port,
                        initial_seq,
                        refused,
                    ));
                    if let Some(s) = refused {
                        self.released.push(s);
                        return EventOutcome { closed: Vec::new(), failed: false, wake: false };
                    }
                },
                None => {},
            }
        } else {
            failed = self.handle_ready(token, is_readable, is_writable, &input.datagram, now);
        }
        let ghost a = *self;
        assert(before.event_handled(
            &a,
            token,
            is_readable,
            is_writable,
            accepted,
            datagram,
            now,
            failed,
        ));
        self.drain_removals();
        let ghost b = *self;
        let closed = self.udp.cleanup(now);
        proof {
            assert forall|k: NatKey| #[trigger]
                self.udp@.flows.dom().contains(k) implies self.udp@.flows[k].0
                < self.next_token by {
                assert(b.udp@.flows.dom().contains(k));
            }
        }
        let wake = self.wakes_backend();
        let r = EventOutcome { closed, failed, wake };
        proof {
            assert(before.event_through(
                a,
                b,
                self,
                token,
                is_readable,
                is_writable,
                accepted,
                datagram,
                now,
                r.failed,
            ));
            events_serve_all(
                &before,
                a,
                b,
                self,
                token,
                is_readable,
                is_writable,
                accepted,
                datagram,
                now,
                r.failed,
            );
            assert forall|t: Token| #[trigger] r.closed@.contains(t) <==> timed_out(
                b.udp@.last_cleanup,
                now,
            ) && idle_sockets(b.udp@, now).contains(t.0) by {
                assert(closed@.contains(t) <==> r.closed@.contains(t));
            }
        }
        r
    }
}

} // verus!
