//! Frames for the machine.
use vstd::prelude::*;

use crate::addr::Instant;
use crate::backend::{fill, frame_body, ReadError, WriteError};
use crate::buffer::bytes_view;
use crate::host::TracedStream;
use crate::proxy::events::same_beside_states;
use crate::proxy::packets::{frame_view, Demand};
use crate::proxy::{NetProxy, NetStats, Queues, TIME_WAIT_DURATION};
use crate::tables::key_list;
use crate::tcp_fsm::invariants::{popped_keeps_framed, popped_keeps_wf};
use crate::tcp_fsm::model::{popped, queued};

verus! {

broadcast use vstd::std_specs::hash::group_hash_axioms;

/// What a buffer holds once a frame has been copied to its start.
pub open spec fn filled(buf: Seq<u8>, frame: Seq<u8>) -> Seq<u8> {
    frame + buf.skip(frame.len() as int)
}

/// The place that comes `i` places after `start`, going round.
pub open spec fn going_round(start: int, i: int, n: int) -> int {
    if start + i < n {
        start + i
    } else {
        start + i - n
    }
}

/// Where to begin going round `n` places.
pub open spec fn turn_start(last: int, n: int) -> int {
    if last >= n {
        0
    } else {
        last
    }
}

impl<H: TracedStream> NetProxy<H> {
    /// How many frames go ahead of all data.
    pub fn get_rx_queue_len(&self) -> (r: usize)
        ensures
            r == self.queues().control.len(),
    {
        self.to_vm_control_queue.len()
    }

    /// Whether every frame that may be read next fits into this many bytes.
    pub open spec fn next_fits(&self, room: nat) -> bool {
        if self.queues().control.len() > 0 {
            self.queues().control[0].len() <= room
        } else {
            forall|t: usize| #[trigger]
                self.host_connections@.dom().contains(t) && queued(
                    self.host_connections@[t]@,
                ).len() > 0 ==> queued(self.host_connections@[t]@)[0].len() <= room
        }
    }

    /// Whether a connection has a packet for the machine.
    pub open spec fn has_packet(&self, t: usize) -> bool {
        self.host_connections@.dom().contains(t) && queued(self.host_connections@[t]@).len() > 0
    }

    /// Whether a connection's next packet for the machine has been taken off its queue.
    pub open spec fn packet_taken(&self, after: &Self, t: usize, now: Instant) -> bool {
        let conn = self.host_connections@[t];
        let left = after.host_connections@[t];
        &&& self.has_packet(t)
        &&& after.host_connections@ == self.host_connections@.insert(t, left)
        &&& left@ == popped(conn@, now)
        &&& left.key() == conn.key()
        &&& left.host() == conn.host()
    }

    /// Whether the first frame that goes ahead of all data has been taken off its queue.
    pub open spec fn control_taken(&self, after: &Self) -> bool {
        &&& after.queues() == (Queues {
            control: self.queues().control.skip(1),
            ..self.queues()
        })
        &&& after.host_connections == self.host_connections
    }

    /// Counts a frame for the machine.
    pub open spec fn counted_out(&self, n: nat) -> NetStats {
        NetStats {
            packets_out: (self.stats.packets_out + 1) as u64,
            bytes_out: (self.stats.bytes_out + n) as u64,
            ..self.stats
        }
    }

    /// What reading a frame comes to: the first frame that goes ahead of all data, else the
    /// next packet of some connection that has one.
    pub open spec fn frame_read(
        &self,
        after: &Self,
        buf: Seq<u8>,
        buf_after: Seq<u8>,
        now: Instant,
        r: Result<usize, ReadError>,
    ) -> bool {
        if self.queues().control.len() > 0 {
            let frame = self.queues().control[0];
            &&& r matches Ok(n) && n == frame.len()
            &&& buf_after == filled(buf, frame)
            &&& self.control_taken(after)
            &&& after.same_tables(
                &NetProxy { stats: self.counted_out(frame.len()), ..*self },
            )
        } else if exists|t: usize| self.has_packet(t) {
            exists|t: usize| #[trigger]
                self.packet_taken(after, t, now) && ({
                    let frame = queued(self.host_connections@[t]@)[0];
                    &&& r matches Ok(n) && n == frame.len()
                    &&& buf_after == filled(buf, frame)
                    &&& after.queues() == self.queues()
                    &&& after.same_tables(
                        &NetProxy { stats: self.counted_out(frame.len()), ..*self },
                    )
                })
        } else {
            &&& r matches Err(ReadError::NothingRead)
            &&& buf_after == buf
            &&& after.unchanged(self)
        }
    }

    /// Takes the next packet of a connection, if it has one, and copies it into a buffer.
    fn take_packet(&mut self, t: usize, buf: &mut [u8], now: Instant) -> (r: Option<usize>)
        requires
            old(self).wf(),
            old(self).host_connections@.dom().contains(t),
            old(self).has_packet(t) ==> queued(old(self).host_connections@[t]@)[0].len()
                <= old(buf)@.len(),
        ensures
            final(self).wf(),
            r is Some <==> old(self).has_packet(t),
            match r {
                Some(n) => {
                    let frame = queued(old(self).host_connections@[t]@)[0];
                    &&& old(self).packet_taken(final(self), t, now)
                    &&& n == frame.len()
                    &&& final(buf)@ == filled(old(buf)@, frame)
                },
                None => final(buf)@ == old(buf)@ && final(self).host_connections@
                    == old(self).host_connections@,
            },
            same_beside_states(*final(self), *old(self)),
            *final(self) == (NetProxy {
                host_connections: final(self).host_connections,
                ..*old(self)
            }),
    {
        let ghost before = *self;
        let mut taken: Option<usize> = None;
        if let Some(conn) = self.host_connections.remove(&t) {
            let mut conn = conn;
            let ghost was = conn;
            assert(before.host_connections@.dom().contains(t));
            if conn.has_data_for_vm() {
                proof {
                    popped_keeps_framed(was@, now);
                    popped_keeps_wf(was@, now);
                }
                if let Some(packet) = conn.get_packet_to_send_to_vm(now) {
                    fill(buf, &packet);
                    taken = Some(packet.len());
                }
            }
            let _ = self.host_connections.insert(t, conn);
            proof {
                assert(self.host_connections@ =~= before.host_connections@.insert(t, conn));
                assert(self.host_connections@.dom() =~= before.host_connections@.dom());
                if taken is None {
                    assert(conn == was);
                    assert(self.host_connections@ =~= before.host_connections@);
                }
            }
        }
        taken
    }

    /// Takes the next frame for the machine into a buffer, and says how long it is.
    pub fn read_frame(&mut self, buf: &mut [u8], now: Instant) -> (r: Result<usize, ReadError>)
        requires
            old(self).wf(),
            old(self).next_fits(old(buf)@.len()),
            old(self).stats.packets_out < u64::MAX,
            old(self).stats.bytes_out + old(buf)@.len() <= u64::MAX,
        ensures
            final(self).wf(),
            old(self).frame_read(final(self), old(buf)@, final(buf)@, now, r),
    {
        let ghost before = *self;
        if let Some(frame) = self.to_vm_control_queue.pop_front() {
            let n: usize = frame.len();
            proof {
                assert(before.queues().control[0] == bytes_view(frame));
                assert(self.queues().control =~= before.queues().control.skip(1));
            }
            fill(buf, &frame);
            self.stats.packets_out = self.stats.packets_out + 1;
            self.stats.bytes_out = self.stats.bytes_out + n as u64;
            return Ok(n);
        }
        let all = key_list(&self.host_connections);
        let mut i: usize = 0;
        while i < all.len()
            invariant
                before == *old(self),
                before.wf(),
                self.wf(),
                before.queues().control.len() == 0,
                all@.to_set() == before.host_connections@.dom(),
                i <= all@.len(),
                buf@ == old(buf)@,
                before.next_fits(buf@.len()),
                before.stats.packets_out < u64::MAX,
                before.stats.bytes_out + buf@.len() <= u64::MAX,
                *self == (NetProxy {
                    host_connections: self.host_connections,
                    to_vm_control_queue: self.to_vm_control_queue,
                    ..before
                }),
                self.to_vm_control_queue@.len() == 0,
                self.host_connections@ == before.host_connections@,
                forall|j: int| 0 <= j < i ==> !before.has_packet(#[trigger] all@[j]),
            decreases all@.len() - i,
        {
            let t: usize = all[i];
            assert(all@.to_set().contains(t));
            assert(before.host_connections@.dom().contains(t));
            assert(self.has_packet(t) == before.has_packet(t));
            let ghost mid = *self;
            if let Some(n) = self.take_packet(t, buf, now) {
                proof {
                    let frame = queued(before.host_connections@[t]@)[0];
                    assert(before.has_packet(t));
                    assert(n == frame.len());
                    assert(mid.packet_taken(self, t, now));
                }
                self.stats.packets_out = self.stats.packets_out + 1;
                self.stats.bytes_out = self.stats.bytes_out + n as u64;
                assert(before.packet_taken(self, t, now));
                assert(self.queues().control =~= before.queues().control);
                return Ok(n);
            }
            i = i + 1;
        }
        proof {
            assert forall|t: usize| !before.has_packet(t) by {
                if before.host_connections@.dom().contains(t) {
                    assert(all@.to_set().contains(t));
                    let j = choose|j: int| 0 <= j < all@.len() && all@[j] == t;
                    assert(!before.has_packet(all@[j]));
                }
            }
            assert(self.host_connections@ == before.host_connections@);
            assert(self.queues().control =~= before.queues().control);
        }
        Err(ReadError::NothingRead)
    }

    /// What reading a frame in turn comes to: the first frame that goes ahead of all data,
    /// else the next packet of the first connection, going round from where the last one was
    /// found, that has one.
    pub open spec fn frame_read_in_turn(
        &self,
        after: &Self,
        buf: Seq<u8>,
        buf_after: Seq<u8>,
        now: Instant,
        r: Result<usize, ReadError>,
        order: Seq<usize>,
    ) -> bool {
        let n = order.len() as int;
        let start = turn_start(self.last_data_token_idx as int, n);
        let moved = NetProxy { last_data_token_idx: after.last_data_token_idx, ..*self };
        &&& order.no_duplicates()
        &&& order.to_set() == self.host_connections@.dom()
        &&& after.same_tables(&moved)
        &&& if self.queues().control.len() > 0 {
            let frame = self.queues().control[0];
            &&& r matches Ok(n) && n == frame.len()
            &&& buf_after == filled(buf, frame)
            &&& self.control_taken(after)
            &&& after.last_data_token_idx == self.last_data_token_idx
        } else {
            &&& after.queues() == self.queues()
            &&& match r {
                Ok(len) => exists|i: int| #[trigger]
                    self.turn_of(after, order, start, i, now) && len == queued(
                        self.host_connections@[order[going_round(start, i, n)]]@,
                    )[0].len() && buf_after == filled(
                        buf,
                        queued(self.host_connections@[order[going_round(start, i, n)]]@)[0],
                    ),
                Err(e) => {
                    &&& e is NothingRead
                    &&& buf_after == buf
                    &&& after.host_connections@ == self.host_connections@
                    &&& forall|t: usize| !#[trigger] self.has_packet(t)
                    &&& after.last_data_token_idx == (if n == 0 {
                        self.last_data_token_idx as int
                    } else {
                        start
                    })
                },
            }
        }
    }

    /// Whether the connection `i` places after `start` is the first that has a packet, and the
    /// packet has been taken.
    pub open spec fn turn_of(
        &self,
        after: &Self,
        order: Seq<usize>,
        start: int,
        i: int,
        now: Instant,
    ) -> bool {
        let n = order.len() as int;
        &&& 0 <= i < n
        &&& forall|j: int|
            0 <= j < i ==> !self.has_packet(order[#[trigger] going_round(start, j, n)])
        &&& self.packet_taken(after, order[going_round(start, i, n)], now)
        &&& after.last_data_token_idx == going_round(going_round(start, i, n), 1, n)
    }

    /// Takes the next frame for the machine into a buffer, with the connections taking turns,
    /// and says how long it is.
    pub fn read_frame_internal(&mut self, buf: &mut [u8], now: Instant) -> (r: Result<
        usize,
        ReadError,
    >)
        requires
            old(self).wf(),
            old(self).next_fits(old(buf)@.len()),
        ensures
            final(self).wf(),
            exists|order: Seq<usize>| #[trigger]
                old(self).frame_read_in_turn(
                    final(self),
                    old(buf)@,
                    final(buf)@,
                    now,
                    r,
                    order,
                ),
    {
        let ghost before = *self;
        let ghost buf_before = buf@;
        let all = key_list(&self.host_connections);
        if let Some(frame) = self.to_vm_control_queue.pop_front() {
            let n: usize = frame.len();
            fill(buf, &frame);
            let r = Ok(n);
            proof {
                assert(before.queues().control[0] == bytes_view(frame));
                assert(self.queues().control =~= before.queues().control.skip(1));
                assert(before.frame_read_in_turn(self, buf_before, buf@, now, r, all@));
            }
            return r;
        }
        assert(self.queues().control =~= before.queues().control);
        let n: usize = all.len();
        if n == 0 {
            let r = Err(ReadError::NothingRead);
            proof {
                assert forall|t: usize| !#[trigger] before.has_packet(t) by {
                    if before.host_connections@.dom().contains(t) {
                        assert(all@.to_set().contains(t));
                    }
                }
                assert(before.frame_read_in_turn(self, buf_before, buf@, now, r, all@));
            }
            return r;
        }
        if self.last_data_token_idx >= n {
            self.last_data_token_idx = 0;
        }
        let start: usize = self.last_data_token_idx;
        let mut i: usize = 0;
        while i < n
            invariant
                before == *old(self),
                buf_before == old(buf)@,
                before.wf(),
                self.wf(),
                before.queues().control.len() == 0,
                all@.no_duplicates(),
                all@.to_set() == before.host_connections@.dom(),
                n == all@.len(),
                start < n,
                start == turn_start(before.last_data_token_idx as int, n as int),
                i <= n,
                buf@ == buf_before,
                before.next_fits(buf@.len()),
                *self == (NetProxy {
                    host_connections: self.host_connections,
                    to_vm_control_queue: self.to_vm_control_queue,
                    last_data_token_idx: start,
                    ..before
                }),
                self.to_vm_control_queue@.len() == 0,
                self.host_connections@ == before.host_connections@,
                forall|j: int|
                    0 <= j < i ==> !before.has_packet(
                        all@[#[trigger] going_round(start as int, j, n as int)],
                    ),
            decreases n - i,
        {
            let current: usize = if i < n - start {
                start + i
            } else {
                i - (n - start)
            };
            let t: usize = all[current];
            proof {
                assert(current == going_round(start as int, i as int, n as int));
                assert(all@.to_set().contains(t));
                assert(before.host_connections@.dom().contains(t));
                assert(self.has_packet(t) == before.has_packet(t));
            }
            let ghost mid = *self;
            if let Some(len) = self.take_packet(t, buf, now) {
                assert(mid.packet_taken(self, t, now));
                self.last_data_token_idx = if current + 1 == n {
                    0
                } else {
                    current + 1
                };
                let r = Ok(len);
                proof {
                    assert(before.packet_taken(self, t, now));
                    assert(self.queues().control =~= before.queues().control);
                    assert(before.turn_of(
                        self,
                        all@,
                        turn_start(before.last_data_token_idx as int, n as int),
                        i as int,
                        now,
                    ));
                    assert(before.frame_read_in_turn(self, buf_before, buf@, now, r, all@));
                }
                return r;
            }
            i = i + 1;
        }
        let r = Err(ReadError::NothingRead);
        proof {
            assert forall|t: usize| !#[trigger] before.has_packet(t) by {
                if before.host_connections@.dom().contains(t) {
                    assert(all@.to_set().contains(t));
                    let k = choose|k: int| 0 <= k < all@.len() && all@[k] == t;
                    let j = if k >= start {
                        k - start
                    } else {
                        k - start + n
                    };
                    assert(going_round(start as int, j, n as int) == k);
                }
            }
            assert(self.queues().control =~= before.queues().control);
            assert(before.frame_read_in_turn(self, buf_before, buf@, now, r, all@));
        }
        r
    }

    /// Handles a frame that the machine wrote behind a header.
    pub fn write_frame(&mut self, hdr_len: usize, buf: &[u8], now: Instant) -> (r: Result<
        Demand,
        WriteError,
    >)
        requires
            old(self).wf(),
            hdr_len <= buf@.len(),
            old(self).takes_frame(buf@.skip(hdr_len as int)),
            now <= u64::MAX - TIME_WAIT_DURATION,
            old(self).stats.packets_in < u64::MAX,
            old(self).stats.bytes_in + buf@.len() <= u64::MAX,
        ensures
            final(self).wf(),
            old(self).counted_in((buf@.len() - hdr_len) as nat, now).frame_result(
                final(self),
                frame_view(buf@.skip(hdr_len as int)),
                now,
                r,
            ),
    {
        self.handle_packet_from_vm(frame_body(buf, hdr_len), now)
    }
}

} // verus!
