//! Frames for the machine.
use vstd::prelude::*;

use crate::addr::{Interest, Token};
use crate::backend::{fill, frame_body, ReadError, WriteError};
use crate::buffer::{bytes_view, views};
use crate::direct_proxy::packets::{frame_view, Demand};
use crate::host::{register_view, HostCall, TracedStream, RegisterView};
use crate::proxy::frames::filled;
use crate::simple_proxy::{AnyConnection, ConnView, Flow, NetProxy, MAX_PROXY_QUEUE_SIZE};

verus! {

broadcast use vstd::std_specs::hash::group_hash_axioms;

/// A connection once its next packet has been handed on.
pub open spec fn handed_on(v: ConnView) -> ConnView {
    ConnView {
        flow: Flow {
            is_in_run_queue: false,
            to_vm_buffer: if v.flow.to_vm_buffer.len() > 0 {
                v.flow.to_vm_buffer.skip(1)
            } else {
                v.flow.to_vm_buffer
            },
            ..v.flow
        },
        ..v
    }
}

/// The packet that a connection hands on, if it has one.
pub open spec fn first_packet(v: ConnView) -> Seq<Seq<u8>> {
    if v.flow.to_vm_buffer.len() > 0 {
        seq![v.flow.to_vm_buffer[0]]
    } else {
        Seq::empty()
    }
}

/// The readiness events that a connection waits for once its host is read from again.
pub open spec fn resumed_interest(v: ConnView) -> Interest {
    if v.flow.write_buffer.len() == 0 {
        Interest::Readable
    } else {
        Interest::Both
    }
}

/// The first packet of the first connection in a run queue that has one.
pub open spec fn first_waiting<H>(
    queue: Seq<Token>,
    conns: Map<usize, AnyConnection<H>>,
) -> Option<Seq<u8>>
    decreases queue.len(),
{
    if queue.len() == 0 {
        None
    } else if conns.dom().contains(queue[0].0) && conns[queue[0].0]@.flow.to_vm_buffer.len() > 0 {
        Some(conns[queue[0].0]@.flow.to_vm_buffer[0])
    } else {
        first_waiting(queue.skip(1), conns)
    }
}

/// Only the packets of the connections count for which one comes first.
proof fn waiting_by_packets<H>(
    queue: Seq<Token>,
    a: Map<usize, AnyConnection<H>>,
    b: Map<usize, AnyConnection<H>>,
)
    requires
        a.dom() == b.dom(),
        forall|t: usize| #[trigger]
            a.dom().contains(t) ==> a[t]@.flow.to_vm_buffer == b[t]@.flow.to_vm_buffer,
    ensures
        first_waiting(queue, a) == first_waiting(queue, b),
    decreases queue.len(),
{
    if queue.len() > 0 {
        waiting_by_packets(queue.skip(1), a, b);
    }
}

impl<H: TracedStream> NetProxy<H> {
    /// The data for the machine.
    pub open spec fn data(&self) -> Seq<Seq<u8>> {
        views(self.to_vm_data_queue@)
    }

    /// Whether a paused connection has few enough packets left to be read from again.
    pub open spec fn resumes(&self, token: Token, v: ConnView) -> bool {
        handed_on(v).flow.to_vm_buffer.len() < MAX_PROXY_QUEUE_SIZE && self.paused_reads@.contains(
            token.0,
        )
    }

    /// What the turn of the first connection in the run queue comes to: its next packet is
    /// handed on, a paused connection with few packets left is read from again, and a
    /// connection that still has packets goes to the end of the queue.
    pub open spec fn turn_taken(&self, after: &Self, came: RegisterView) -> bool {
        let queue = self.data_run_queue@;
        let token = queue[0];
        let conns = self.host_connections@;
        let conn = conns[token.0];
        let left = after.host_connections@[token.0];
        let handed = handed_on(conn@);
        let more = handed.flow.to_vm_buffer.len() > 0;
        let resumes = self.resumes(token, conn@);
        &&& queue.len() > 0
        &&& *after == (NetProxy {
            host_connections: after.host_connections,
            paused_reads: after.paused_reads,
            to_vm_data_queue: after.to_vm_data_queue,
            data_run_queue: after.data_run_queue,
            ..*self
        })
        &&& if conns.dom().contains(token.0) {
            &&& after.data() == self.data() + first_packet(conn@)
            &&& after.paused_reads@ == (if resumes {
                self.paused_reads@.remove(token.0)
            } else {
                self.paused_reads@
            })
            &&& after.data_run_queue@ == (if more {
                queue.skip(1).push(token)
            } else {
                queue.skip(1)
            })
            &&& after.host_connections@ == conns.insert(token.0, left)
            &&& left@ == (ConnView {
                flow: Flow { is_in_run_queue: more, ..handed.flow },
                ..handed
            })
            &&& left.host().calls() == (if resumes {
                conn.host().calls().push(
                    HostCall::Reregister { token, interest: resumed_interest(conn@), came },
                )
            } else {
                conn.host().calls()
            })
        } else {
            &&& after.data() == self.data()
            &&& after.paused_reads@ == self.paused_reads@
            &&& after.data_run_queue@ == queue.skip(1)
            &&& after.host_connections@ == conns
        }
    }

    /// Whether the run queue has been given so many turns.
    pub open spec fn turns_taken(&self, after: &Self, turns: nat) -> bool
        decreases turns,
    {
        if turns == 0 {
            *after == *self
        } else {
            exists|mid: Self, came: RegisterView| #[trigger]
                mid.turn_taken(after, came) && self.turns_taken(&mid, (turns - 1) as nat)
        }
    }

    /// Gives the first connection in the run queue its turn.
    fn take_turn(&mut self) -> (r: Ghost<RegisterView>)
        requires
            old(self).wf(),
            old(self).data_run_queue@.len() > 0,
        ensures
            final(self).wf(),
            old(self).turn_taken(final(self), r@),
    {
        let ghost before = *self;
        let token = self.data_run_queue.pop_front().unwrap();
        assert(self.data_run_queue@ =~= before.data_run_queue@.skip(1));
        match self.host_connections.remove(&token.0) {
            None => {
                assert(self.host_connections@ =~= before.host_connections@);
                assert(self.paused_reads@ =~= before.paused_reads@);
                Ghost(RegisterView::Done)
            },
            Some(conn) => {
                let mut conn = conn;
                let ghost was = conn;
                let ghost mut came = RegisterView::Done;
                assert(before.host_connections@.dom().contains(token.0));
                *conn.is_in_run_queue_mut() = false;
                let popped = conn.to_vm_buffer_mut().pop_front();
                match popped {
                    Some(packet) => {
                        self.to_vm_data_queue.push_back(packet);
                        proof {
                            assert(conn@.flow.to_vm_buffer =~= was@.flow.to_vm_buffer.skip(1));
                            assert(bytes_view(packet) == was@.flow.to_vm_buffer[0]);
                            assert(self.data() =~= before.data() + first_packet(was@));
                        }
                    },
                    None => {
                        assert(conn@.flow.to_vm_buffer =~= was@.flow.to_vm_buffer);
                        assert(self.data() =~= before.data() + first_packet(was@));
                    },
                }
                assert(conn@ =~= handed_on(was@));
                if conn.to_vm_buffer().len() < MAX_PROXY_QUEUE_SIZE {
                    if self.paused_reads.remove(&token.0) {
                        let interest = if conn.write_buffer().len() == 0 {
                            Interest::Readable
                        } else {
                            Interest::Both
                        };
                        let done = conn.stream_mut().reregister(token, interest);
                        proof {
                            came = register_view(done);
                        }
                    }
                }
                proof {
                    if before.resumes(token, was@) {
                        assert(self.paused_reads@ =~= before.paused_reads@.remove(token.0));
                    } else {
                        assert(self.paused_reads@ =~= before.paused_reads@);
                    }
                }
                let more = conn.to_vm_buffer().len() > 0;
                if more {
                    *conn.is_in_run_queue_mut() = true;
                    self.data_run_queue.push_back(token);
                }
                let _ = self.host_connections.insert(token.0, conn);
                proof {
                    assert(self.host_connections@ =~= before.host_connections@.insert(
                        token.0,
                        conn,
                    ));
                }
                Ghost(came)
            },
        }
    }

    /// Gives every connection that is in the run queue one turn.
    pub fn process_run_queue(&mut self)
        requires
            old(self).wf(),
        ensures
            final(self).wf(),
            old(self).turns_taken(final(self), old(self).data_run_queue@.len()),
    {
        let n: usize = self.data_run_queue.len();
        let mut i: usize = 0;
        while i < n
            invariant
                i <= n,
                n == old(self).data_run_queue@.len(),
                self.wf(),
                self.data_run_queue@.len() >= n - i,
                old(self).turns_taken(self, i as nat),
            decreases n - i,
        {
            let ghost mid = *self;
            let Ghost(came) = self.take_turn();
            assert(mid.turn_taken(self, came) && old(self).turns_taken(&mid, i as nat));
            i = i + 1;
        }
    }

    /// What reading a frame comes to: the first frame that goes ahead of all data, else the
    /// first of the data once every connection in the run queue has had its turn.
    pub open spec fn frame_read(
        &self,
        after: &Self,
        mid: Self,
        buf: Seq<u8>,
        buf_after: Seq<u8>,
        r: Result<usize, ReadError>,
    ) -> bool {
        if self.control().len() > 0 {
            let frame = self.control()[0];
            &&& r matches Ok(n) && n == frame.len()
            &&& buf_after == filled(buf, frame)
            &&& after.control() == self.control().skip(1)
            &&& *after == (NetProxy { to_vm_control_queue: after.to_vm_control_queue, ..*self })
        } else {
            &&& self.turns_taken(&mid, self.data_run_queue@.len())
            &&& after.unchanged(
                &NetProxy { to_vm_data_queue: after.to_vm_data_queue, ..mid },
            )
            &&& if mid.data().len() > 0 {
                let frame = mid.data()[0];
                &&& r matches Ok(n) && n == frame.len()
                &&& buf_after == filled(buf, frame)
                &&& after.data() == mid.data().skip(1)
            } else {
                &&& r matches Err(ReadError::NothingRead)
                &&& buf_after == buf
                &&& after.data() == mid.data()
            }
        }
    }

    /// The first of the data for the machine once every connection in the run queue has had its
    /// turn, if there is any.
    pub open spec fn next_data(&self) -> Option<Seq<u8>> {
        if self.data().len() > 0 {
            Some(self.data()[0])
        } else {
            first_waiting(self.data_run_queue@, self.host_connections@)
        }
    }

    /// The frame that is read next, if any.
    pub open spec fn next_frame(&self) -> Option<Seq<u8>> {
        if self.control().len() > 0 {
            Some(self.control()[0])
        } else {
            self.next_data()
        }
    }

    /// A turn does not change which data comes first.
    proof fn turn_keeps_next(&self, after: &Self, came: RegisterView)
        requires
            self.turn_taken(after, came),
        ensures
            after.next_data() == self.next_data(),
            self.data().len() <= after.data().len(),
            after.data().len() == 0 ==> after.data_run_queue@ == self.data_run_queue@.skip(1),
    {
        let queue = self.data_run_queue@;
        let token = queue[0];
        let conns = self.host_connections@;
        if conns.dom().contains(token.0) {
            let v = conns[token.0]@;
            if self.data().len() == 0 && v.flow.to_vm_buffer.len() == 0 {
                assert(after.data() =~= Seq::<Seq<u8>>::empty());
                assert(conns.dom() =~= after.host_connections@.dom());
                waiting_by_packets(queue.skip(1), conns, after.host_connections@);
            } else {
                assert(after.data()[0] == (self.data() + first_packet(v))[0]);
            }
        }
    }

    /// Turns do not change which data comes first, and where there is none after them, none of
    /// the connections that had a turn is in the run queue any more.
    proof fn turns_keep_next(&self, after: &Self, turns: nat)
        requires
            self.turns_taken(after, turns),
            turns <= self.data_run_queue@.len(),
        ensures
            after.next_data() == self.next_data(),
            self.data().len() <= after.data().len(),
            after.data().len() == 0 ==> after.data_run_queue@ == self.data_run_queue@.skip(
                turns as int,
            ),
        decreases turns,
    {
        if turns > 0 {
            let (mid, came) = choose|mid: Self, came: RegisterView| #[trigger]
                mid.turn_taken(after, came) && self.turns_taken(&mid, (turns - 1) as nat);
            self.turns_keep_next(&mid, (turns - 1) as nat);
            mid.turn_keeps_next(after, came);
            if after.data().len() == 0 {
                let queue = self.data_run_queue@;
                assert(queue.skip(turns - 1).skip(1) =~= queue.skip(turns as int));
            }
        } else {
            assert(self.data_run_queue@.skip(0) =~= self.data_run_queue@);
        }
    }

    /// How long the frame is that is read next, if there is one.
    pub fn next_frame_len(&self) -> (r: Option<usize>)
        ensures
            r is Some <==> self.next_frame() is Some,
            r matches Some(n) ==> n == self.next_frame()->0.len(),
    {
        if self.to_vm_control_queue.len() > 0 {
            return Some(self.to_vm_control_queue[0].len());
        }
        if self.to_vm_data_queue.len() > 0 {
            return Some(self.to_vm_data_queue[0].len());
        }
        let ghost queue = self.data_run_queue@;
        let ghost conns = self.host_connections@;
        let mut i: usize = 0;
        assert(queue.skip(0) =~= queue);
        while i < self.data_run_queue.len()
            invariant
                queue == self.data_run_queue@,
                conns == self.host_connections@,
                i <= queue.len(),
                self.control().len() == 0,
                self.data().len() == 0,
                first_waiting(queue, conns) == first_waiting(queue.skip(i as int), conns),
            decreases queue.len() - i,
        {
            let token = self.data_run_queue[i];
            assert(queue.skip(i as int)[0] == token);
            assert(queue.skip(i as int).skip(1) =~= queue.skip(i + 1));
            match self.host_connections.get(&token.0) {
                Some(conn) => {
                    let waiting = conn.to_vm_buffer();
                    if waiting.len() > 0 {
                        assert(conn@.flow.to_vm_buffer[0] == bytes_view(waiting@[0]));
                        return Some(waiting[0].len());
                    }
                },
                None => {},
            }
            i = i + 1;
        }
        None
    }

    /// Takes the next frame for the machine into a buffer, and says how long it is.
    pub fn read_frame(&mut self, buf: &mut [u8]) -> (r: Result<usize, ReadError>)
        requires
            old(self).wf(),
            old(self).next_frame() matches Some(f) ==> f.len() <= old(buf)@.len(),
        ensures
            final(self).wf(),
            exists|mid: Self| #[trigger]
                old(self).frame_read(final(self), mid, old(buf)@, final(buf)@, r),
            match old(self).next_frame() {
                Some(f) => {
                    &&& r matches Ok(n) && n == f.len()
                    &&& final(buf)@ == filled(old(buf)@, f)
                },
                None => {
                    &&& r matches Err(ReadError::NothingRead)
                    &&& final(buf)@ == old(buf)@
                },
            },
    {
        let ghost before = *self;
        let ghost buf_before = buf@;
        if self.to_vm_control_queue.len() > 0 {
            let frame = self.to_vm_control_queue.pop_front().unwrap();
            proof {
                assert(before.control()[0] == bytes_view(frame));
                assert(self.control() =~= before.control().skip(1));
            }
            fill(buf, &frame);
            let r = Ok(frame.len());
            assert(before.frame_read(self, before, buf_before, buf@, r));
            return r;
        }
        self.process_run_queue();
        let ghost mid = *self;
        proof {
            before.turns_keep_next(&mid, before.data_run_queue@.len());
        }
        let popped = self.to_vm_data_queue.pop_front();
        match popped {
            Some(frame) => {
                proof {
                    assert(mid.data()[0] == bytes_view(frame));
                    assert(self.data() =~= mid.data().skip(1));
                }
                fill(buf, &frame);
                let r = Ok(frame.len());
                assert(before.frame_read(self, mid, buf_before, buf@, r));
                r
            },
            None => {
                assert(self.data() =~= mid.data());
                let r = Err(ReadError::NothingRead);
                assert(before.frame_read(self, mid, buf_before, buf@, r));
                r
            },
        }
    }

    /// Handles a frame that the machine wrote behind a header.
    pub fn write_frame(&mut self, hdr_len: usize, buf: &[u8]) -> (r: Result<Demand, WriteError>)
        requires
            old(self).wf(),
            hdr_len <= buf@.len(),
            old(self).takes(frame_view(buf@.skip(hdr_len as int))),
        ensures
            final(self).wf(),
            old(self).frame_result(final(self), frame_view(buf@.skip(hdr_len as int)), r),
    {
        self.handle_packet_from_vm(frame_body(buf, hdr_len))
    }
}

} // verus!
