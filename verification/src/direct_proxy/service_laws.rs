//! Every packet for the machine has its turn.
use vstd::prelude::*;

use crate::addr::{Instant, Token};
use crate::backend::WriteError;
use crate::direct_proxy::events::EventIo;
use crate::direct_proxy::packets::{Demand, FrameView, PacketIo};
use crate::direct_proxy::NetProxy;
use crate::host::TracedStream;
use crate::proxy::packets::{flow_of, segment_of};

verus! {

/// A frame that is read leaves every connection that still has packets in line for its turn.
#[verifier::rlimit(60)]
pub proof fn reading_serves_all<H: TracedStream>(before: &NetProxy<H>, after: &NetProxy<H>)
    requires
        before.frame_taken(after),
    ensures
        before.serves_all() ==> after.serves_all(),
{
    if before.serves_all() {
        let queue = before.data_run_queue@;
        assert forall|t: usize|
            #![trigger after.host_connections@.dom().contains(t)]
            after.host_connections@.dom().contains(t)
                && after.host_connections@[t]@.flow.to_vm_buffer.len() > 0 implies after.data_run_queue@.contains(
            Token(t),
        ) by {
            assert(before.host_connections@.dom().contains(t));
            if before.control().len() == 0 {
                assert(queue.contains(Token(t)));
                let i = choose|i: int| 0 <= i < queue.len() && queue[i] == Token(t);
                if i > 0 {
                    assert(after.data_run_queue@[i - 1] == Token(t));
                } else {
                    assert(queue[0].0 == t);
                    assert(before.in_turn() == before.host_connections@[t]@.flow.to_vm_buffer);
                    assert(after.data_run_queue@.last() == Token(t));
                }
            }
        }
    }
}

/// A connection that is put in line stays there while others join.
proof fn joining_keeps_the_line(queue: Seq<Token>, t: Token, more: Token)
    requires
        queue.contains(t),
    ensures
        queue.push(more).contains(t),
{
    let i = choose|i: int| 0 <= i < queue.len() && queue[i] == t;
    assert(queue.push(more)[i] == t);
}

/// A frame of the machine queues no packets.
#[verifier::rlimit(60)]
pub proof fn packets_serve_all<H: TracedStream>(
    before: &NetProxy<H>,
    after: &NetProxy<H>,
    f: FrameView,
    r: Result<Demand, WriteError>,
)
    requires
        before.frame_result(after, f, r),
    ensures
        before.serves_all() ==> after.serves_all(),
{
    if before.serves_all() {
        assert forall|t: usize|
            #![trigger after.host_connections@.dom().contains(t)]
            after.host_connections@.dom().contains(t)
                && after.host_connections@[t]@.flow.to_vm_buffer.len() > 0 implies after.data_run_queue@.contains(
            Token(t),
        ) by {
            match f {
                FrameView::Tcp(src, dst, s) => {
                    let key = flow_of(src, dst, s);
                    let seg = segment_of(s);
                    if let Some(token) = before.socket_of(key) {
                        let io = choose|io: PacketIo| #[trigger]
                            before.packet_handled(after, token, seg, r, io);
                        assert(before.host_connections@.dom().contains(t));
                    } else {
                        assert(before.host_connections@.dom().contains(t));
                    }
                },
                _ => {
                    assert(before.host_connections@.dom().contains(t));
                },
            }
        }
    }
}

/// An event that gives a connection its first packet puts it in line.
proof fn event_puts_in_line<H: TracedStream>(
    before: &NetProxy<H>,
    after: &NetProxy<H>,
    token: Token,
    is_readable: bool,
    is_writable: bool,
    io: EventIo,
    failed: bool,
)
    requires
        before.serves_all(),
        before.host_connections@.dom().contains(token.0),
        before.event_taken(after, token, is_readable, is_writable, io, failed),
    ensures
        after.serves_all(),
{
    let conn = before.host_connections@[token.0];
    assert forall|t: usize|
        #![trigger after.host_connections@.dom().contains(t)]
        after.host_connections@.dom().contains(t)
            && after.host_connections@[t]@.flow.to_vm_buffer.len() > 0 implies after.data_run_queue@.contains(
        Token(t),
    ) by {
        let queue = before.data_run_queue@;
        assert(before.host_connections@.dom().contains(t));
        assert(queue.push(token)[queue.len() as int] == token);
        if before.host_connections@[t]@.flow.to_vm_buffer.len() > 0 {
            joining_keeps_the_line(queue, Token(t), token);
        }
    }
}

/// Whatever event comes, every connection that has packets afterwards is in line for its turn,
/// if that held before.
#[verifier::rlimit(60)]
pub proof fn events_serve_all<H: TracedStream>(
    before: &NetProxy<H>,
    a: NetProxy<H>,
    b: NetProxy<H>,
    after: &NetProxy<H>,
    token: Token,
    is_readable: bool,
    is_writable: bool,
    accepted: Option<H>,
    datagram: Option<Vec<u8>>,
    now: Instant,
    failed: bool,
)
    requires
        before.event_through(
            a,
            b,
            after,
            token,
            is_readable,
            is_writable,
            accepted,
            datagram,
            now,
            failed,
        ),
    ensures
        before.serves_all() ==> after.serves_all(),
{
    if before.serves_all() {
        if before.unix_listeners@.dom().contains(token.0) {
            assert(a.serves_all()) by {
                assert forall|t: usize|
                    #![trigger a.host_connections@.dom().contains(t)]
                    a.host_connections@.dom().contains(t)
                        && a.host_connections@[t]@.flow.to_vm_buffer.len() > 0 implies a.data_run_queue@.contains(
                    Token(t),
                ) by {
                    if let Some(stream) = accepted {
                        let (any_port, initial_seq) = choose|any_port: u16, initial_seq: u32| #[trigger]
                            before.ingress_started(
                                &a,
                                token,
                                stream,
                                any_port,
                                initial_seq,
                                None,
                            );
                        assert(t != before.next_token);
                    }
                    assert(before.host_connections@.dom().contains(t));
                }
            }
        } else if before.host_connections@.dom().contains(token.0) {
            let io = choose|io: EventIo| #[trigger]
                before.event_taken(&a, token, is_readable, is_writable, io, failed);
            event_puts_in_line(before, &a, token, is_readable, is_writable, io, failed);
        } else {
            assert forall|t: usize|
                #![trigger a.host_connections@.dom().contains(t)]
                a.host_connections@.dom().contains(t)
                    && a.host_connections@[t]@.flow.to_vm_buffer.len() > 0 implies a.data_run_queue@.contains(
                Token(t),
            ) by {
                assert(before.host_connections@.dom().contains(t));
            }
        }
        assert forall|t: usize|
            #![trigger after.host_connections@.dom().contains(t)]
            after.host_connections@.dom().contains(t)
                && after.host_connections@[t]@.flow.to_vm_buffer.len() > 0 implies after.data_run_queue@.contains(
            Token(t),
        ) by {
            assert(a.host_connections@.dom().contains(t));
        }
    }
}

/// Where a packet waits, the machine is told that there is something to read.
pub proof fn waiting_packets_are_announced<H: TracedStream>(p: &NetProxy<H>, t: usize)
    requires
        p.serves_all(),
        p.host_connections@.dom().contains(t),
        p.host_connections@[t]@.flow.to_vm_buffer.len() > 0,
    ensures
        p.has_frames(),
        p.data_run_queue@.len() > 0,
{
    assert(p.data_run_queue@.contains(Token(t)));
}

/// Reading takes exactly one frame from where it waits: the first of the control queue, or else
/// the first packet of the connection whose turn it is. Every other frame stays where it is, in
/// its order. A connection that has more goes to the end of the line. Where nothing is handed
/// out no packet is lost, and a connection without packets leaves the line.
pub proof fn reading_takes_one_frame<H: TracedStream>(before: &NetProxy<H>, after: &NetProxy<H>)
    requires
        before.frame_taken(after),
    ensures
        before.control().len() > 0 ==> {
            &&& before.next_frame() == Some(before.control()[0])
            &&& before.control() == seq![before.control()[0]] + after.control()
            &&& after.host_connections@ == before.host_connections@
            &&& after.data_run_queue@ == before.data_run_queue@
        },
        before.control().len() == 0 ==> {
            let queue = before.data_run_queue@;
            &&& after.control().len() == 0
            &&& before.next_frame() is Some <==> queue.len() > 0
                && before.host_connections@.dom().contains(queue[0].0)
                && before.host_connections@[queue[0].0]@.flow.to_vm_buffer.len() > 0
            &&& before.next_frame() matches Some(frame) ==> {
                let t = queue[0].0;
                &&& before.host_connections@[t]@.flow.to_vm_buffer == seq![frame]
                    + after.host_connections@[t]@.flow.to_vm_buffer
                &&& after.host_connections@.dom() == before.host_connections@.dom()
                &&& after.host_connections@[t].host() == before.host_connections@[t].host()
                &&& after.data_run_queue@ == if after.host_connections@[t]@.flow.to_vm_buffer.len()
                    > 0 {
                    queue.subrange(1, queue.len() as int).push(queue[0])
                } else {
                    queue.subrange(1, queue.len() as int)
                }
                &&& forall|u: usize| #[trigger]
                    before.host_connections@.dom().contains(u) && u != t
                        ==> after.host_connections@[u] == before.host_connections@[u]
            }
            &&& before.next_frame() is None ==> {
                &&& after.host_connections@ == before.host_connections@
                &&& queue.len() > 0 ==> after.data_run_queue@ == queue.subrange(
                    1,
                    queue.len() as int,
                )
            }
        },
{
    if before.control().len() > 0 {
        assert(before.control() =~= seq![before.control()[0]] + after.control());
    } else if before.in_turn().len() > 0 {
        let t = before.data_run_queue@[0].0;
        let q = before.host_connections@[t]@.flow.to_vm_buffer;
        let queue = before.data_run_queue@;
        assert(q =~= seq![q[0]] + q.skip(1));
        assert(queue.skip(1) =~= queue.subrange(1, queue.len() as int));
        assert(after.host_connections@.dom() =~= before.host_connections@.dom());
    } else if before.data_run_queue@.len() > 0 {
        let queue = before.data_run_queue@;
        assert(queue.skip(1) =~= queue.subrange(1, queue.len() as int));
    }
}

/// Whether these are the proxy's states along a run of reads that hand out nothing.
pub open spec fn silent_run<H: TracedStream>(states: Seq<NetProxy<H>>) -> bool {
    &&& states.len() > 0
    &&& forall|i: int|
        0 <= i < states.len() - 1 ==> (#[trigger] states[i]).next_frame() is None
            && states[i].frame_taken(&states[i + 1])
}

/// Reading until nothing comes leaves nothing behind: once as many reads in a row as there are
/// connections in line have handed out nothing, no connection has a packet for the machine.
pub proof fn reading_leaves_nothing_behind<H: TracedStream>(states: Seq<NetProxy<H>>)
    requires
        silent_run(states),
        states[0].serves_all(),
        states[0].control().len() == 0,
        states.len() > states[0].data_run_queue@.len(),
    ensures
        states.last().control().len() == 0,
        forall|t: usize|
            #![trigger states.last().host_connections@.dom().contains(t)]
            states.last().host_connections@.dom().contains(t)
                ==> states.last().host_connections@[t]@.flow.to_vm_buffer.len() == 0,
    decreases states.len(),
{
    if states.len() == 1 {
        assert(states[0].data_run_queue@.len() == 0);
        assert forall|t: usize|
            #![trigger states.last().host_connections@.dom().contains(t)]
            states.last().host_connections@.dom().contains(
                t,
            ) implies states.last().host_connections@[t]@.flow.to_vm_buffer.len() == 0 by {
            assert(states[0].host_connections@.dom().contains(t));
        }
    } else {
        let rest = states.subrange(1, states.len() as int);
        assert(states[0].frame_taken(&states[0int + 1]));
        reading_serves_all(&states[0], &states[1]);
        reading_takes_one_frame(&states[0], &states[1]);
        assert forall|i: int| 0 <= i < rest.len() - 1 implies (#[trigger] rest[i]).next_frame() is None
            && rest[i].frame_taken(&rest[i + 1]) by {
            assert(states[i + 1].next_frame() is None);
        }
        reading_leaves_nothing_behind(rest);
    }
}

} // verus!
