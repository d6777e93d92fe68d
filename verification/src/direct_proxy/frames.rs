//! Frames for the machine.
use vstd::prelude::*;

use crate::addr::Token;
use crate::backend::{fill, frame_body, ReadError, WriteError};
use crate::buffer::bytes_view;
use crate::direct_proxy::packets::{frame_view, Demand};
use crate::direct_proxy::service_laws::reading_serves_all;
use crate::direct_proxy::{ConnView, Flow, NetProxy};
use crate::host::TracedStream;
use crate::proxy::frames::filled;

verus! {

broadcast use vstd::std_specs::hash::group_hash_axioms;

impl<H: TracedStream> NetProxy<H> {
    /// How many frames and connections wait for the machine.
    pub fn get_rx_queue_len(&self) -> (r: usize)
        requires
            self.control().len() + self.data_run_queue@.len() <= usize::MAX,
        ensures
            r == self.control().len() + self.data_run_queue@.len(),
    {
        self.to_vm_control_queue.len() + self.data_run_queue.len()
    }

    /// The packets that the connection whose turn it is has for the machine.
    pub open spec fn in_turn(&self) -> Seq<Seq<u8>> {
        let queue = self.data_run_queue@;
        if queue.len() > 0 && self.host_connections@.dom().contains(queue[0].0) {
            self.host_connections@[queue[0].0]@.flow.to_vm_buffer
        } else {
            Seq::empty()
        }
    }

    /// The frame that is read next, if any.
    pub open spec fn next_frame(&self) -> Option<Seq<u8>> {
        if self.control().len() > 0 {
            Some(self.control()[0])
        } else if self.in_turn().len() > 0 {
            Some(self.in_turn()[0])
        } else {
            None
        }
    }

    /// The connections whose turn comes next: one that still has packets goes to the end.
    pub open spec fn turned(&self) -> Seq<Token> {
        let queue = self.data_run_queue@;
        if queue.len() == 0 {
            queue
        } else if self.in_turn().len() > 1 {
            queue.skip(1).push(queue[0])
        } else {
            queue.skip(1)
        }
    }

    /// What reading a frame does: a frame that goes ahead of all data is taken, else a packet
    /// of the connection whose turn it is.
    pub open spec fn frame_taken(&self, after: &Self) -> bool {
        &&& after.same_tables(self)
        &&& after.paused_reads == self.paused_reads
        &&& after.connections_to_remove == self.connections_to_remove
        &&& after.released == self.released
        &&& if self.control().len() > 0 {
            &&& after.control() == self.control().skip(1)
            &&& after.data_run_queue@ == self.data_run_queue@
            &&& after.host_connections@ == self.host_connections@
        } else {
            &&& after.control() == self.control()
            &&& after.data_run_queue@ == self.turned()
            &&& if self.in_turn().len() > 0 {
                let t = self.data_run_queue@[0].0;
                let conn = self.host_connections@[t];
                let left = after.host_connections@[t];
                &&& after.host_connections@ == self.host_connections@.insert(t, left)
                &&& left.host() == conn.host()
                &&& left@ == (ConnView {
                    flow: Flow { to_vm_buffer: conn@.flow.to_vm_buffer.skip(1), ..conn@.flow },
                    ..conn@
                })
            } else {
                after.host_connections@ == self.host_connections@
            }
        }
    }

    /// Whether every connection that has packets for the machine will have its turn.
    pub open spec fn serves_all(&self) -> bool {
        forall|t: usize|
            #![trigger self.host_connections@.dom().contains(t)]
            self.host_connections@.dom().contains(t)
                && self.host_connections@[t]@.flow.to_vm_buffer.len() > 0
                ==> self.data_run_queue@.contains(Token(t))
    }

    /// Takes the next frame for the machine into a buffer, and says how long it is.
    pub fn read_frame(&mut self, buf: &mut [u8]) -> (r: Result<usize, ReadError>)
        requires
            old(self).wf(),
            old(self).next_frame() matches Some(f) ==> f.len() <= old(buf)@.len(),
        ensures
            final(self).wf(),
            old(self).frame_taken(final(self)),
            old(self).serves_all() ==> final(self).serves_all(),
            match old(self).next_frame() {
                Some(f) => {
                    &&& r matches Ok(n) && n == f.len()
                    &&& final(buf)@ == filled(old(buf)@, f)
                },
                None => {
                    &&& r matches Err(ReadError::NothingRead)
                    &&& final(buf)@ == old(buf)@
                },
            },
    {
        let ghost before = *self;
        if let Some(frame) = self.to_vm_control_queue.pop_front() {
            proof {
                assert(before.control()[0] == bytes_view(frame));
                assert(self.control() =~= before.control().skip(1));
            }
            proof {
                reading_serves_all(&before, self);
            }
            fill(buf, &frame);
            return Ok(frame.len());
        }
        assert(self.control() =~= before.control());
        if let Some(token) = self.data_run_queue.pop_front() {
            assert(self.data_run_queue@ =~= before.data_run_queue@.skip(1));
            let waiting: usize = match self.host_connections.get(&token.0) {
                Some(conn) => conn.to_vm_buffer().len(),
                None => 0,
            };
            if waiting > 0 {
                if let Some(conn) = self.host_connections.remove(&token.0) {
                    let mut conn = conn;
                    let ghost was = conn;
                    assert(before.host_connections@.dom().contains(token.0));
                    let popped = conn.to_vm_buffer_mut().pop_front();
                    if let Some(packet) = popped {
                        proof {
                            assert(bytes_view(packet) == was@.flow.to_vm_buffer[0]);
                            assert(conn@.flow.to_vm_buffer =~= was@.flow.to_vm_buffer.skip(1));
                        }
                        let _ = self.host_connections.insert(token.0, conn);
                        if waiting > 1 {
                            self.data_run_queue.push_back(token);
                        }
                        proof {
                            assert(self.host_connections@ =~= before.host_connections@.insert(
                                token.0,
                                conn,
                            ));
                            reading_serves_all(&before, self);
                        }
                        fill(buf, &packet);
                        return Ok(packet.len());
                    }
                }
            }
        } else {
            assert(self.data_run_queue@ =~= before.data_run_queue@);
        }
        proof {
            reading_serves_all(&before, self);
        }
        Err(ReadError::NothingRead)
    }

    /// Handles a frame that the machine wrote behind a header.
    pub fn write_frame(&mut self, hdr_len: usize, buf: &[u8]) -> (r: Result<Demand, WriteError>)
        requires
            old(self).wf(),
            hdr_len <= buf@.len(),
            old(self).takes(frame_view(buf@.skip(hdr_len as int))),
        ensures
            final(self).wf(),
            old(self).frame_result(final(self), frame_view(buf@.skip(hdr_len as int)), r),
            old(self).serves_all() ==> final(self).serves_all(),
    {
        self.handle_packet_from_vm(frame_body(buf, hdr_len))
    }
}

} // verus!
