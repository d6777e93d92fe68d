//! Readiness events of the host, and what falls due as time goes by.
use vstd::prelude::*;

use crate::addr::{flipped, Instant, Interest, IpAddr, NatKey, Token};
use crate::buffer::{bytes_view, views};
use crate::chance::{random_u16, random_u32};
use crate::host::{deregistered, register_view, HostCall, RegisterView, TracedStream};
use crate::packet_utils::{build_udp_packet, udp_frame};
use crate::proxy::{
    carried_out, conn_ok, leaves_of_plain, proxy_ip, proxy_mac, same_flows, vm_ip, vm_mac,
    NetProxy, Queues, RTO_DURATION, TIME_WAIT_DURATION, UDP_READ_BUDGET,
};
use crate::tables::key_list;
use crate::tcp_fsm::invariants::{
    event_actions_plain, event_keeps_framed, retransmitted_keeps_framed, steps_in,
};
use crate::tcp_fsm::model::{
    action_view, event_step, host_did, queued, reads_fit, retransmitted, to_vm, writes_fit,
    EstablishedView, HostIo, StateView, READ_BUFFER_SIZE,
};
use crate::tcp_fsm::{reacts, AnyConnection, CONNECTION_STALL_TIMEOUT};
use crate::udp::{cleaned, idle_sockets, timed_out, used};
use crate::wire::SYN;

verus! {

broadcast use vstd::std_specs::hash::group_hash_axioms;

/// What the host had for the proxy when a readiness event came: a stream that a listening
/// socket accepted, and the datagrams that a UDP socket received, in order.
pub struct EventInput<H> {
    pub accepted: Option<H>,
    pub datagrams: Vec<Vec<u8>>,
}

/// What is left to be done on the host after a readiness event.
pub struct EventOutcome {
    /// UDP sockets that are to be closed.
    pub closed: Vec<Token>,
    /// Whether a stream that was accepted, if any, could be registered.
    pub registered: bool,
    /// Whether there is something for the machine to read.
    pub wake: bool,
}

// --- Removing connections ---

/// The handles of these sockets.
pub open spec fn handles(tokens: Seq<Token>) -> Set<usize> {
    Set::new(|t: usize| tokens.contains(Token(t)))
}

/// The flows that these sockets are known to carry.
pub open spec fn carried_by(reverse: Map<usize, NatKey>, tokens: Seq<Token>) -> Set<NatKey> {
    Set::new(
        |k: NatKey|
            exists|i: int|
                0 <= i < tokens.len() && reverse.dom().contains((#[trigger] tokens[i]).0)
                    && reverse[tokens[i].0] == k,
    )
}

/// The connections that leave a table when these sockets are removed from it one by one.
pub open spec fn leaving<C>(conns: Map<usize, C>, tokens: Seq<Token>) -> Seq<C>
    decreases tokens.len(),
{
    if tokens.len() == 0 {
        Seq::empty()
    } else {
        let earlier = tokens.drop_last();
        let token = tokens.last();
        if conns.dom().contains(token.0) && !earlier.contains(token) {
            leaving(conns, earlier).push(conns[token.0])
        } else {
            leaving(conns, earlier)
        }
    }
}

/// One more socket adds itself and its flow.
pub proof fn removed_one(reverse: Map<usize, NatKey>, tokens: Seq<Token>, i: int)
    requires
        0 <= i < tokens.len(),
    ensures
        forall|t: usize| #[trigger]
            handles(tokens.take(i + 1)).contains(t) <==> handles(tokens.take(i)).contains(t) || t
                == tokens[i].0,
        forall|k: NatKey| #[trigger]
            carried_by(reverse, tokens.take(i + 1)).contains(k) <==> carried_by(
                reverse,
                tokens.take(i),
            ).contains(k) || (reverse.dom().contains(tokens[i].0) && reverse[tokens[i].0] == k),
        handles(tokens.take(i)).contains(tokens[i].0) && reverse.dom().contains(tokens[i].0)
            ==> carried_by(reverse, tokens.take(i)).contains(reverse[tokens[i].0]),
{
    let s = tokens.take(i);
    let u = tokens.take(i + 1);
    let token = tokens[i];
    assert(u =~= s.push(token));
    assert forall|t: usize| #[trigger]
        handles(u).contains(t) <==> handles(s).contains(t) || t == token.0 by {
        if s.contains(Token(t)) {
            let j = choose|j: int| 0 <= j < s.len() && s[j] == Token(t);
            assert(u[j] == Token(t));
        }
        assert(u[i] == token);
    }
    assert forall|k: NatKey| #[trigger]
        carried_by(reverse, u).contains(k) <==> carried_by(reverse, s).contains(k) || (
        reverse.dom().contains(token.0) && reverse[token.0] == k) by {
        if carried_by(reverse, s).contains(k) {
            let j = choose|j: int|
                0 <= j < s.len() && reverse.dom().contains((#[trigger] s[j]).0)
                    && reverse[s[j].0] == k;
            assert(u[j] == s[j]);
        }
        if carried_by(reverse, u).contains(k) {
            let j = choose|j: int|
                0 <= j < u.len() && reverse.dom().contains((#[trigger] u[j]).0)
                    && reverse[u[j].0] == k;
            if j < i {
                assert(s[j] == u[j]);
            }
        }
        assert(u[i] == token);
    }
    if handles(s).contains(token.0) && reverse.dom().contains(token.0) {
        let j = choose|j: int| 0 <= j < s.len() && s[j] == token;
        assert(carried_by(reverse, s).contains(reverse[s[j].0]));
    }
}

impl<H: TracedStream> NetProxy<H> {
    /// Whether these connections have been taken out of all the tables.
    pub open spec fn without(&self, after: &Self, tokens: Seq<Token>) -> bool {
        &&& after.host_connections@ == self.host_connections@.remove_keys(handles(tokens))
        &&& after.reverse_tcp_nat@ == self.reverse_tcp_nat@.remove_keys(handles(tokens))
        &&& after.tcp_nat_table@ == self.tcp_nat_table@.remove_keys(
            carried_by(self.reverse_tcp_nat@, tokens),
        )
        &&& self.let_go(after, tokens)
        &&& after.queues() == self.queues()
        &&& after.same_beside_tcp(self)
    }

    /// Whether the streams of these connections have been released, in order, once their
    /// registration was ended.
    pub open spec fn let_go(&self, after: &Self, tokens: Seq<Token>) -> bool {
        let left = leaving(self.host_connections@, tokens);
        let n = self.released@.len();
        &&& after.released@.len() == n + left.len()
        &&& after.released@.take(n as int) == self.released@
        &&& forall|i: int|
            0 <= i < left.len() ==> deregistered(
                (#[trigger] left[i]).host().calls(),
                after.released@[n + i].calls(),
            )
    }

    /// Takes connections out of all the tables.
    fn remove_connections(&mut self, tokens: &Vec<Token>)
        requires
            old(self).wf(),
        ensures
            final(self).wf(),
            old(self).without(final(self), tokens@),
    {
        let ghost before = *self;
        let mut i: usize = 0;
        proof {
            let none = tokens@.take(0);
            assert(before.host_connections@ =~= before.host_connections@.remove_keys(
                handles(none),
            ));
            assert(before.reverse_tcp_nat@ =~= before.reverse_tcp_nat@.remove_keys(handles(none)));
            assert(before.tcp_nat_table@ =~= before.tcp_nat_table@.remove_keys(
                carried_by(before.reverse_tcp_nat@, none),
            ));
            assert(self.released@.take(before.released@.len() as int) =~= before.released@);
        }
        while i < tokens.len()
            invariant
                before == *old(self),
                i <= tokens@.len(),
                self.wf(),
                before.without(self, tokens@.take(i as int)),
            decreases tokens@.len() - i,
        {
            let ghost mid = *self;
            self.remove_connection(tokens[i]);
            proof {
                let u = tokens@.take(i + 1);
                removed_one(before.reverse_tcp_nat@, tokens@, i as int);
                assert(u.drop_last() =~= tokens@.take(i as int));
                assert(self.released@.take(before.released@.len() as int)
                    =~= mid.released@.take(before.released@.len() as int));
                assert(self.host_connections@ =~= before.host_connections@.remove_keys(
                    handles(u),
                ));
                assert(self.reverse_tcp_nat@ =~= before.reverse_tcp_nat@.remove_keys(handles(u)));
                assert(self.tcp_nat_table@ =~= before.tcp_nat_table@.remove_keys(
                    carried_by(before.reverse_tcp_nat@, u),
                ));
            }
            i = i + 1;
        }
        assert(tokens@.take(i as int) =~= tokens@);
    }

    /// Whether the connections that were to be removed are gone, and none is to be removed any
    /// more.
    pub open spec fn drained(&self, after: &Self) -> bool {
        let tokens = self.connections_to_remove@;
        &&& (NetProxy { connections_to_remove: after.connections_to_remove, ..*self }).without(
            after,
            tokens,
        )
        &&& after.connections_to_remove@ == Seq::<Token>::empty()
    }

    /// Removes the connections that are to be removed.
    pub fn drain_removals(&mut self)
        requires
            old(self).wf(),
        ensures
            final(self).wf(),
            old(self).drained(final(self)),
    {
        let mut tokens: Vec<Token> = Vec::new();
        std::mem::swap(&mut tokens, &mut self.connections_to_remove);
        let ghost mid = *self;
        self.remove_connections(&tokens);
        proof {
            assert(mid == (NetProxy {
                connections_to_remove: mid.connections_to_remove,
                ..*old(self)
            }));
            assert(self.queues().removals == mid.queues().removals);
            let again = NetProxy {
                connections_to_remove: self.connections_to_remove,
                ..*old(self)
            };
            assert(again.queues() == mid.queues());
            assert(again.without(self, tokens@));
        }
    }
}

// --- Time ---

/// How many entries at the front of the queue have been kept for long enough.
pub open spec fn expired_prefix(q: Seq<(Instant, Token)>, now: Instant) -> nat
    decreases q.len(),
{
    if q.len() > 0 && now >= q[0].0 {
        1 + expired_prefix(q.skip(1), now)
    } else {
        0
    }
}

/// The sockets of these entries.
pub open spec fn tokens_of(q: Seq<(Instant, Token)>) -> Seq<Token> {
    Seq::new(q.len(), |i: int| q[i].1)
}

proof fn expired_prefix_bound(q: Seq<(Instant, Token)>, now: Instant)
    ensures
        expired_prefix(q, now) <= q.len(),
    decreases q.len(),
{
    if q.len() > 0 && now >= q[0].0 {
        expired_prefix_bound(q.skip(1), now);
    }
}

/// Whether everything but the connections themselves is the same.
pub open spec fn same_beside_states<H: TracedStream>(a: NetProxy<H>, b: NetProxy<H>) -> bool {
    &&& a.queues() == b.queues()
    &&& a.same_tables(&b)
}

impl<H: TracedStream> NetProxy<H> {
    /// Whether the connections that were kept for late packets for long enough are gone.
    pub open spec fn late_removed(&self, after: &Self, now: Instant) -> bool {
        let q = self.time_wait_queue@;
        let n = expired_prefix(q, now);
        &&& after.time_wait_queue@ == q.skip(n as int)
        &&& (NetProxy { time_wait_queue: after.time_wait_queue, ..*self }).without(
            after,
            tokens_of(q.take(n as int)),
        )
    }

    /// Removes the connections that were kept for late packets for long enough.
    fn remove_late(&mut self, now: Instant)
        requires
            old(self).wf(),
        ensures
            final(self).wf(),
            old(self).late_removed(final(self), now),
    {
        let ghost q = self.time_wait_queue@;
        let ghost n = expired_prefix(q, now);
        let mut tokens: Vec<Token> = Vec::new();
        proof {
            expired_prefix_bound(q, now);
            assert(q.skip(0) =~= q);
        }
        let mut more = true;
        while more && self.time_wait_queue.len() > 0
            invariant
                q == old(self).time_wait_queue@,
                n == expired_prefix(q, now),
                n <= q.len(),
                *self == (NetProxy { time_wait_queue: self.time_wait_queue, ..*old(self) }),
                tokens@.len() <= q.len(),
                self.time_wait_queue@ == q.skip(tokens@.len() as int),
                tokens@ == tokens_of(q.take(tokens@.len() as int)),
                n == tokens@.len() + expired_prefix(q.skip(tokens@.len() as int), now),
                !more ==> expired_prefix(q.skip(tokens@.len() as int), now) == 0,
            decreases self.time_wait_queue@.len(), (if more { 1int } else { 0int }),
        {
            let ghost k = tokens@.len() as int;
            if now >= self.time_wait_queue[0].0 {
                let (_, token) = self.time_wait_queue.pop_front().unwrap();
                tokens.push(token);
                proof {
                    assert(q.skip(k).skip(1) =~= q.skip(k + 1));
                    assert(self.time_wait_queue@ =~= q.skip(k + 1));
                    assert(tokens@ =~= tokens_of(q.take(k + 1)));
                }
            } else {
                more = false;
            }
        }
        let ghost mid = *self;
        self.remove_connections(&tokens);
        proof {
            assert(expired_prefix(q.skip(tokens@.len() as int), now) == 0);
            let again = NetProxy { time_wait_queue: self.time_wait_queue, ..*old(self) };
            assert(self.queues().time_wait == mid.queues().time_wait);
            assert(again.queues() == mid.queues());
            assert(again.without(self, tokens@));
        }
    }

    /// Whether every connection has its overdue packet queued again.
    pub open spec fn resent(&self, after: &Self, now: Instant) -> bool {
        &&& after.host_connections@.dom() == self.host_connections@.dom()
        &&& forall|t: usize| #[trigger]
            after.host_connections@.dom().contains(t) ==> {
                let before = self.host_connections@[t];
                let left = after.host_connections@[t];
                &&& left@ == retransmitted(before@, RTO_DURATION, now)
                &&& left.key() == before.key()
                &&& left.host() == before.host()
            }
        &&& same_beside_states(*after, *self)
    }

    /// Has every connection queue its overdue packet again.
    fn resend_overdue(&mut self, now: Instant)
        requires
            old(self).wf(),
        ensures
            final(self).wf(),
            old(self).resent(final(self), now),
    {
        let ghost before = *self;
        let all = key_list(&self.host_connections);
        let mut i: usize = 0;
        while i < all.len()
            invariant
                before == *old(self),
                before.wf(),
                all@.no_duplicates(),
                all@.to_set() == before.host_connections@.dom(),
                i <= all@.len(),
                same_beside_states(*self, before),
                self.host_connections@.dom() == before.host_connections@.dom(),
                forall|j: int|
                    i <= j < all@.len() ==> self.host_connections@[#[trigger] all@[j]]
                        == before.host_connections@[all@[j]],
                forall|j: int|
                    0 <= j < i ==> {
                        let was = before.host_connections@[#[trigger] all@[j]];
                        let left = self.host_connections@[all@[j]];
                        &&& left@ == retransmitted(was@, RTO_DURATION, now)
                        &&& left.key() == was.key()
                        &&& left.host() == was.host()
                        &&& conn_ok(left)
                    },
            decreases all@.len() - i,
        {
            let t: usize = all[i];
            let ghost mid = *self;
            proof {
                assert(all@.to_set().contains(t));
                assert(self.host_connections@.dom().contains(t));
                assert(before.host_connections@.dom().contains(t));
            }
            if let Some(conn) = self.host_connections.remove(&t) {
                let mut conn = conn;
                proof {
                    retransmitted_keeps_framed(conn@, RTO_DURATION, now);
                }
                let _ = conn.check_for_retransmit(RTO_DURATION, now);
                let _ = self.host_connections.insert(t, conn);
            }
            proof {
                assert(self.host_connections@.dom() =~= mid.host_connections@.dom());
                assert forall|j: int|
                    0 <= j < all@.len() && j != i implies self.host_connections@[#[trigger] all@[j]]
                    == mid.host_connections@[all@[j]] by {
                    assert(all@[j] != all@[i as int]);
                }
            }
            i = i + 1;
        }
        proof {
            assert forall|t: usize| #[trigger] self.host_connections@.dom().contains(t) implies {
                let was = before.host_connections@[t];
                let left = self.host_connections@[t];
                &&& left@ == retransmitted(was@, RTO_DURATION, now)
                &&& left.key() == was.key()
                &&& left.host() == was.host()
                &&& conn_ok(left)
            } by {
                assert(all@.to_set().contains(t));
                let j = choose|j: int| 0 <= j < all@.len() && all@[j] == t;
            }
        }
    }

    /// Whether what fell due has been done: connections that were kept long enough are gone,
    /// overdue packets are queued again, and idle UDP flows are gone.
    pub open spec fn timed(&self, after: &Self, now: Instant) -> bool {
        exists|a: Self, b: Self| #[trigger] self.timed_through(a, b, after, now)
    }

    /// The same by way of what is between the steps.
    pub open spec fn timed_through(&self, a: Self, b: Self, after: &Self, now: Instant) -> bool {
        &&& self.late_removed(&a, now)
        &&& a.resent(&b, now)
        &&& *after == (NetProxy { udp: after.udp, ..b })
        &&& after.udp@ == cleaned(b.udp@, now)
    }

    /// Does what has fallen due, and says which UDP sockets are to be closed.
    pub fn check_timeouts(&mut self, now: Instant) -> (r: Vec<Token>)
        requires
            old(self).wf(),
        ensures
            final(self).wf(),
            old(self).timed(final(self), now),
            r@.no_duplicates(),
            forall|t: Token| #[trigger]
                r@.contains(t) <==> timed_out(old(self).udp@.last_cleanup, now) && idle_sockets(
                    old(self).udp@,
                    now,
                ).contains(t.0),
    {
        self.remove_late(now);
        let ghost a = *self;
        self.resend_overdue(now);
        let ghost b = *self;
        let r = self.udp.cleanup(now);
        proof {
            assert forall|k: NatKey| #[trigger]
                self.udp@.flows.dom().contains(k) implies self.udp@.flows[k].0
                < self.next_token by {
                assert(b.udp@.flows.dom().contains(k));
            }
            assert(old(self).timed_through(a, b, self, now));
        }
        r
    }

    // --- Stalled connections ---

    /// Whether a connection should have shown activity by now: something waits for the machine
    /// or for the host. One with nothing to do is merely idle.
    pub open spec fn stalled(st: StateView, now: Instant) -> bool {
        st matches StateView::Established(v) && now.saturating_sub(v.last_activity)
            > CONNECTION_STALL_TIMEOUT && (v.to_vm_buffer.len() > 0 || v.write_buffer.len() > 0)
    }

    /// Whether a stalled connection has been registered again for the events it waits for,
    /// and has shown activity if that worked.
    pub open spec fn revived(
        before: AnyConnection<H>,
        after: AnyConnection<H>,
        token: Token,
        now: Instant,
        got: RegisterView,
    ) -> bool {
        &&& before@ matches StateView::Established(v)
        &&& after.key() == before.key()
        &&& after.host().calls() == before.host().calls().push(
            HostCall::Reregister { token, interest: v.current_interest, came: got },
        )
        &&& after@ == (if got is Done {
            StateView::Established(EstablishedView { last_activity: now, ..v })
        } else {
            before@
        })
    }

    /// Whether all stalled connections have been registered again and the others left alone.
    pub open spec fn roused(&self, after: &Self, now: Instant) -> bool {
        &&& after.host_connections@.dom() == self.host_connections@.dom()
        &&& forall|t: usize| #[trigger]
            after.host_connections@.dom().contains(t) ==> Self::roused_one(
                self.host_connections@[t],
                after.host_connections@[t],
                Token(t),
                now,
            )
        &&& same_beside_states(*after, *self)
    }

    pub open spec fn roused_one(
        before: AnyConnection<H>,
        after: AnyConnection<H>,
        token: Token,
        now: Instant,
    ) -> bool {
        if Self::stalled(before@, now) {
            exists|got: RegisterView| #[trigger] Self::revived(before, after, token, now, got)
        } else {
            after == before
        }
    }

    /// Registers a connection again where it is stalled.
    fn rouse(conn: &mut AnyConnection<H>, token: Token, now: Instant)
        requires
            conn_ok(*old(conn)),
        ensures
            conn_ok(*final(conn)),
            final(conn).key() == old(conn).key(),
            Self::roused_one(*old(conn), *final(conn), token, now),
    {
        let last: Instant = match conn.get_last_activity() {
            Some(l) => l,
            None => {
                return;
            },
        };
        if now.saturating_sub(last) > CONNECTION_STALL_TIMEOUT {
            let should_be_active = conn.has_data_for_vm() || conn.has_data_for_host();
            if should_be_active {
                let interest = conn.get_current_interest();
                let done = conn.get_host_stream_mut().reregister(token, interest);
                if done.is_ok() {
                    conn.update_last_activity(now);
                }
                assert(Self::revived(*old(conn), *conn, token, now, register_view(done)));
            }
        }
    }

    /// Looks for connections that have shown no activity for very long although something
    /// waits, and registers them again for the events they wait for.
    pub fn check_stalled_connections(&mut self, now: Instant)
        requires
            old(self).wf(),
        ensures
            final(self).wf(),
            old(self).roused(final(self), now),
    {
        let ghost before = *self;
        let all = key_list(&self.host_connections);
        let mut i: usize = 0;
        while i < all.len()
            invariant
                before == *old(self),
                before.wf(),
                all@.no_duplicates(),
                all@.to_set() == before.host_connections@.dom(),
                i <= all@.len(),
                same_beside_states(*self, before),
                self.host_connections@.dom() == before.host_connections@.dom(),
                forall|j: int|
                    i <= j < all@.len() ==> self.host_connections@[#[trigger] all@[j]]
                        == before.host_connections@[all@[j]],
                forall|j: int|
                    0 <= j < i ==> {
                        let was = before.host_connections@[#[trigger] all@[j]];
                        let left = self.host_connections@[all@[j]];
                        &&& Self::roused_one(was, left, Token(all@[j]), now)
                        &&& left.key() == was.key()
                        &&& conn_ok(left)
                    },
            decreases all@.len() - i,
        {
            let t: usize = all[i];
            let ghost mid = *self;
            proof {
                assert(all@.to_set().contains(t));
                assert(self.host_connections@.dom().contains(t));
                assert(before.host_connections@.dom().contains(t));
            }
            if let Some(conn) = self.host_connections.remove(&t) {
                let mut conn = conn;
                Self::rouse(&mut conn, Token(t), now);
                let _ = self.host_connections.insert(t, conn);
            }
            proof {
                assert(self.host_connections@.dom() =~= mid.host_connections@.dom());
                assert forall|j: int|
                    0 <= j < all@.len() && j != i implies self.host_connections@[#[trigger] all@[j]]
                    == mid.host_connections@[all@[j]] by {
                    assert(all@[j] != all@[i as int]);
                }
            }
            i = i + 1;
        }
        proof {
            assert forall|t: usize| #[trigger] self.host_connections@.dom().contains(t) implies {
                let was = before.host_connections@[t];
                let left = self.host_connections@[t];
                &&& Self::roused_one(was, left, Token(t), now)
                &&& left.key() == was.key()
                &&& conn_ok(left)
            } by {
                assert(all@.to_set().contains(t));
                let j = choose|j: int| 0 <= j < all@.len() && all@[j] == t;
            }
        }
    }
}

// --- Readiness events ---

/// The port that a connection to the machine comes from, made of any number: one of the upper
/// half.
#[verifier::allow_in_spec]
pub fn ingress_port(any: u16) -> u16
    returns
        (any % 32768 + 32768) as u16,
{
    any % 32768 + 32768
}

impl<H: TracedStream> NetProxy<H> {
    /// Whether there is something for the machine to read.
    pub open spec fn has_frames(&self) -> bool {
        ||| self.to_vm_control_queue@.len() > 0
        ||| exists|t: usize| #[trigger]
            self.host_connections@.dom().contains(t) && queued(self.host_connections@[t]@).len()
                > 0
    }

    /// Whether there is something for the machine to read, so that the backend is to be woken.
    pub fn wake_backend_if_needed(&self) -> (r: bool)
        ensures
            r == self.has_frames(),
    {
        if self.to_vm_control_queue.len() > 0 {
            return true;
        }
        let all = key_list(&self.host_connections);
        let mut i: usize = 0;
        while i < all.len()
            invariant
                self.to_vm_control_queue@.len() == 0,
                all@.to_set() == self.host_connections@.dom(),
                i <= all@.len(),
                forall|j: int|
                    0 <= j < i ==> queued(self.host_connections@[#[trigger] all@[j]]@).len() == 0,
            decreases all@.len() - i,
        {
            assert(all@.to_set().contains(all@[i as int]));
            if let Some(conn) = self.host_connections.get(&all[i]) {
                if conn.has_data_for_vm() {
                    return true;
                }
            }
            i = i + 1;
        }
        proof {
            assert forall|t: usize| #[trigger] self.host_connections@.dom().contains(t) implies
                queued(self.host_connections@[t]@).len() == 0 by {
                assert(all@.to_set().contains(t));
                let j = choose|j: int| 0 <= j < all@.len() && all@[j] == t;
            }
        }
        false
    }

    /// The flow of a connection to the machine.
    pub open spec fn ingress_key(port: u16, vm_port: u16) -> NatKey {
        (IpAddr::V4(proxy_ip()), port, IpAddr::V4(vm_ip()), vm_port)
    }

    /// Whether a connection to the machine has been started over an accepted stream: the
    /// stream is registered, the connection is entered, and a SYN is queued.
    pub open spec fn ingress_started(
        &self,
        after: &Self,
        listener: Token,
        stream: H,
        any_port: u16,
        initial_seq: u32,
        ok: bool,
    ) -> bool {
        let token = Token(self.next_token);
        let key = Self::ingress_key(
            ingress_port(any_port),
            self.unix_listeners@[listener.0],
        );
        let conn = after.host_connections@[token.0];
        &&& after.next_token == self.next_token + 1
        &&& after.tcp_nat_table@ == self.tcp_nat_table@.insert(key, token)
        &&& after.reverse_tcp_nat@ == self.reverse_tcp_nat@.insert(token.0, key)
        &&& after.host_connections@ == self.host_connections@.insert(token.0, conn)
        &&& conn.key() == key
        &&& conn.host().calls() == stream.calls().push(
            HostCall::Register { token, interest: Interest::Readable, ok },
        )
        &&& conn@ == (StateView::IngressConnecting {
            tx_seq: initial_seq.wrapping_add(1),
            rx_seq: 0,
        })
        &&& after.queues() == (Queues {
            control: self.queues().control.push(
                to_vm(key, initial_seq, 0, Seq::empty(), SYN, proxy_mac(), vm_mac()),
            ),
            ..self.queues()
        })
        &&& after.same_beside_flows(self)
    }

    /// Starts a connection to the machine over an accepted stream, with given numbers in place
    /// of random ones. Says whether the stream could be registered.
    pub fn start_ingress(
        &mut self,
        listener: Token,
        stream: H,
        any_port: u16,
        initial_seq: u32,
    ) -> (ok: bool)
        requires
            old(self).wf(),
            old(self).unix_listeners@.dom().contains(listener.0),
            old(self).next_token < usize::MAX,
        ensures
            final(self).wf(),
            old(self).ingress_started(
                final(self),
                listener,
                stream,
                any_port,
                initial_seq,
                ok,
            ),
    {
        let ghost before = *self;
        let vm_port: u16 = match self.unix_listeners.get(&listener.0) {
            Some(p) => *p,
            None => 0,
        };
        let mut stream = stream;
        let ok = stream.register(Token(self.next_token), Interest::Readable);
        let key: NatKey = (
            IpAddr::V4(proxy_ip()),
            ingress_port(any_port),
            IpAddr::V4(vm_ip()),
            vm_port,
        );
        let (conn, syn) = AnyConnection::ingress_from(
            stream,
            key,
            &mut self.packet_buf,
            proxy_mac(),
            vm_mac(),
            initial_seq,
        );
        self.to_vm_control_queue.push_back(syn);
        let ghost mid = *self;
        let _ = self.enter(key, conn);
        proof {
            assert(mid.queues().control =~= before.queues().control.push(bytes_view(syn)));
        }
        ok
    }

    /// Whether a readiness event of a connection has been handled: the connection reacts to
    /// what the host did, and what it asks for is done.
    pub open spec fn event_taken(
        &self,
        after: &Self,
        token: Token,
        is_readable: bool,
        is_writable: bool,
        now: Instant,
        io: HostIo,
        calls: Seq<HostCall>,
    ) -> bool {
        let conn = self.host_connections@[token.0];
        let left = after.host_connections@[token.0];
        let (next, action) = event_step(
            conn.key(),
            conn@,
            is_readable,
            is_writable,
            io,
            proxy_mac(),
            vm_mac(),
            now,
        );
        &&& after.host_connections@.dom() == self.host_connections@.dom()
        &&& left@ == next
        &&& left.key() == conn.key()
        &&& reads_fit(conn@, is_readable, io)
        &&& writes_fit(conn@, is_readable, is_writable, io)
        &&& carried_out(
            self.queues(),
            token,
            Some(next),
            steps_in(action),
            calls,
            now,
            after.queues(),
        )
        &&& left.host().calls() == conn.host().calls() + (io.reads + io.writes + io.again) + calls
        &&& forall|u: usize| #[trigger]
            self.host_connections@.dom().contains(u) && u != token.0
                ==> after.host_connections@[u] == self.host_connections@[u]
        &&& after.same_tables(self)
    }

    /// Handles a readiness event of a connection.
    fn handle_connection_event(
        &mut self,
        token: Token,
        is_readable: bool,
        is_writable: bool,
        now: Instant,
    )
        requires
            old(self).wf(),
            old(self).host_connections@.dom().contains(token.0),
            now <= u64::MAX - TIME_WAIT_DURATION,
        ensures
            final(self).wf(),
            exists|io: HostIo, calls: Seq<HostCall>| #[trigger]
                old(self).event_taken(
                    final(self),
                    token,
                    is_readable,
                    is_writable,
                    now,
                    io,
                    calls,
                ),
    {
        let ghost before = *self;
        if let Some(connection) = self.host_connections.remove(&token.0) {
            let ghost conn = connection;
            assert(before.host_connections@.dom().contains(token.0));
            let (next, action) = connection.handle_event(
                is_readable,
                is_writable,
                proxy_mac(),
                vm_mac(),
                now,
            );
            let ghost io = choose|io: HostIo| #[trigger]
                host_did(conn.host(), next.host(), conn@, is_readable, is_writable, io) && (
                next@,
                action_view(action),
            ) == event_step(
                    conn.key(),
                    conn@,
                    is_readable,
                    is_writable,
                    io,
                    proxy_mac(),
                    vm_mac(),
                    now,
                );
            proof {
                reveal(reacts);
                event_actions_plain(
                    conn.key(),
                    conn@,
                    is_readable,
                    is_writable,
                    io,
                    proxy_mac(),
                    vm_mac(),
                    now,
                );
                leaves_of_plain(action);
                event_keeps_framed(
                    conn.key(),
                    conn@,
                    is_readable,
                    is_writable,
                    io,
                    proxy_mac(),
                    vm_mac(),
                    now,
                );
            }
            let _ = self.host_connections.insert(token.0, next);
            let ghost mid = *self;
            self.execute_action(token, action, now);
            proof {
                assert(mid.host_connections@.dom() =~= before.host_connections@.dom());
                assert forall|t: usize| #[trigger]
                    self.host_connections@.dom().contains(t) implies conn_ok(
                    self.host_connections@[t],
                ) && self.host_connections@[t].key() == self.reverse_tcp_nat@[t] by {
                    assert(mid.host_connections@.dom().contains(t));
                    assert(before.host_connections@.dom().contains(t));
                }
                assert(before.queues() == mid.queues());
                let left = self.host_connections@[token.0];
                assert(self.host_connections@.dom().contains(token.0));
                let calls = choose|calls: Seq<HostCall>| #[trigger]
                    carried_out(
                        mid.queues(),
                        token,
                        Some(next@),
                        steps_in(action_view(action)),
                        calls,
                        now,
                        self.queues(),
                    ) && same_flows(mid.host_connections@, self.host_connections@, token, calls);
                assert(before.event_taken(
                    self,
                    token,
                    is_readable,
                    is_writable,
                    now,
                    io,
                    calls,
                ));
            }
        }
    }

    /// The datagrams that are taken for one readiness event.
    pub open spec fn budgeted(datagrams: Seq<Vec<u8>>) -> Seq<Vec<u8>> {
        if datagrams.len() <= UDP_READ_BUDGET {
            datagrams
        } else {
            datagrams.take(UDP_READ_BUDGET as int)
        }
    }

    /// The frames that datagrams make on a flow.
    pub open spec fn udp_frames(key: NatKey, datagrams: Seq<Vec<u8>>) -> Seq<Seq<u8>> {
        Seq::new(
            datagrams.len(),
            |i: int| udp_frame(flipped(key), datagrams[i]@, proxy_mac(), vm_mac()),
        )
    }

    /// Whether datagrams of a UDP flow have been queued for the machine.
    pub open spec fn datagrams_taken(
        &self,
        after: &Self,
        token: Token,
        datagrams: Seq<Vec<u8>>,
        now: Instant,
    ) -> bool {
        let taken = Self::budgeted(datagrams);
        &&& after.queues() == (Queues {
            control: self.queues().control + Self::udp_frames(
                self.udp@.reverse[token.0],
                taken,
            ),
            ..self.queues()
        })
        &&& after.udp@ == (if taken.len() > 0 {
            used(self.udp@, token, now)
        } else {
            self.udp@
        })
        &&& after.next_token == self.next_token
        &&& after.host_connections == self.host_connections
        &&& after.same_beside_udp(self)
    }

    /// Queues datagrams of a UDP flow for the machine.
    fn handle_datagrams(&mut self, token: Token, datagrams: &Vec<Vec<u8>>, now: Instant)
        requires
            old(self).wf(),
            old(self).udp@.sockets.dom().contains(token.0),
            forall|i: int|
                0 <= i < datagrams@.len() ==> (#[trigger] datagrams@[i])@.len()
                    <= READ_BUFFER_SIZE,
        ensures
            final(self).wf(),
            old(self).datagrams_taken(final(self), token, datagrams@, now),
    {
        let ghost before = *self;
        let ghost taken = Self::budgeted(datagrams@);
        let n: usize = if datagrams.len() <= UDP_READ_BUDGET {
            datagrams.len()
        } else {
            UDP_READ_BUDGET
        };
        if let Some(key) = self.udp.flow(token) {
            let mut i: usize = 0;
            proof {
                assert(before.queues().control + Self::udp_frames(key, taken.take(0))
                    =~= before.queues().control);
            }
            while i < n
                invariant
                    before == *old(self),
                    before.wf(),
                    i <= n,
                    n == taken.len(),
                    taken == Self::budgeted(datagrams@),
                    n <= datagrams@.len(),
                    forall|j: int|
                        0 <= j < datagrams@.len() ==> (#[trigger] datagrams@[j])@.len()
                            <= READ_BUFFER_SIZE,
                    key == before.udp@.reverse[token.0],
                    views(self.to_vm_control_queue@) == before.queues().control
                        + Self::udp_frames(key, taken.take(i as int)),
                    *self == (NetProxy {
                        to_vm_control_queue: self.to_vm_control_queue,
                        packet_buf: self.packet_buf,
                        ..before
                    }),
                decreases n - i,
            {
                let ghost sofar = views(self.to_vm_control_queue@);
                let response = build_udp_packet(
                    &mut self.packet_buf,
                    key,
                    datagrams[i].as_slice(),
                    proxy_mac(),
                    vm_mac(),
                );
                self.to_vm_control_queue.push_back(response);
                proof {
                    assert(views(self.to_vm_control_queue@) =~= sofar.push(
                        bytes_view(response),
                    ));
                    assert(taken[i as int] == datagrams@[i as int]);
                    assert(Self::udp_frames(key, taken.take(i + 1)) =~= Self::udp_frames(
                        key,
                        taken.take(i as int),
                    ).push(bytes_view(response)));
                    assert(views(self.to_vm_control_queue@) =~= before.queues().control
                        + Self::udp_frames(key, taken.take(i + 1)));
                }
                i = i + 1;
            }
            assert(taken.take(i as int) =~= taken);
            if n > 0 {
                self.udp.used(token, now);
            }
        } else {
            assert(before.udp@.reverse.dom().contains(token.0));
        }
    }

    /// Whether a readiness event has been handled, before anything that fell due.
    pub open spec fn event_handled(
        &self,
        after: &Self,
        token: Token,
        is_readable: bool,
        is_writable: bool,
        accepted: Option<H>,
        datagrams: Seq<Vec<u8>>,
        now: Instant,
        registered: bool,
    ) -> bool {
        if self.unix_listeners@.dom().contains(token.0) {
            match accepted {
                Some(stream) => exists|any_port: u16, initial_seq: u32| #[trigger]
                    self.ingress_started(
                        after,
                        token,
                        stream,
                        any_port,
                        initial_seq,
                        registered,
                    ),
                None => after.unchanged(self) && registered,
            }
        } else if self.host_connections@.dom().contains(token.0) {
            &&& registered
            &&& exists|io: HostIo, calls: Seq<HostCall>| #[trigger]
                self.event_taken(after, token, is_readable, is_writable, now, io, calls)
        } else if self.udp@.sockets.dom().contains(token.0) {
            self.datagrams_taken(after, token, datagrams, now) && registered
        } else {
            after.unchanged(self) && registered
        }
    }

    /// Handles a readiness event, before anything that fell due.
    fn handle_ready(
        &mut self,
        token: Token,
        is_readable: bool,
        is_writable: bool,
        input: EventInput<H>,
        now: Instant,
    ) -> (registered: bool)
        requires
            old(self).wf(),
            old(self).unix_listeners@.dom().contains(token.0) ==> old(self).next_token
                < usize::MAX,
            now <= u64::MAX - TIME_WAIT_DURATION,
            forall|i: int|
                0 <= i < input.datagrams@.len() ==> (#[trigger] input.datagrams@[i])@.len()
                    <= READ_BUFFER_SIZE,
        ensures
            final(self).wf(),
            old(self).event_handled(
                final(self),
                token,
                is_readable,
                is_writable,
                input.accepted,
                input.datagrams@,
                now,
                registered,
            ),
    {
        if self.unix_listeners.contains_key(&token.0) {
            match input.accepted {
                Some(stream) => {
                    let any_port: u16 = random_u16();
                    let initial_seq: u32 = random_u32();
                    let ok = self.start_ingress(token, stream, any_port, initial_seq);
                    assert(old(self).ingress_started(
                        self,
                        token,
                        stream,
                        any_port,
                        initial_seq,
                        ok,
                    ));
                    ok
                },
                None => true,
            }
        } else if self.host_connections.contains_key(&token.0) {
            self.handle_connection_event(token, is_readable, is_writable, now);
            true
        } else {
            if self.udp.host_udp_sockets.contains_key(&token.0) {
                self.handle_datagrams(token, &input.datagrams, now);
            }
            true
        }
    }

    /// Whether a readiness event and all that follows it has been handled, by way of what is
    /// between the steps.
    pub open spec fn event_through(
        &self,
        a: Self,
        b: Self,
        c: Self,
        after: &Self,
        token: Token,
        is_readable: bool,
        is_writable: bool,
        accepted: Option<H>,
        datagrams: Seq<Vec<u8>>,
        now: Instant,
        registered: bool,
    ) -> bool {
        &&& (NetProxy { current_token: token, ..*self }).event_handled(
            &a,
            token,
            is_readable,
            is_writable,
            accepted,
            datagrams,
            now,
            registered,
        )
        &&& a.drained(&b)
        &&& b.timed(&c, now)
        &&& c.roused(after, now)
    }

    /// Handles a readiness event of a host socket: a listening socket has accepted a stream, a
    /// connection can go on, or datagrams have come in. Then connections that are over are
    /// removed, and what fell due is done.
    pub fn handle_event(
        &mut self,
        token: Token,
        is_readable: bool,
        is_writable: bool,
        input: EventInput<H>,
        now: Instant,
    ) -> (r: EventOutcome)
        requires
            old(self).wf(),
            old(self).unix_listeners@.dom().contains(token.0) ==> old(self).next_token
                < usize::MAX,
            now <= u64::MAX - TIME_WAIT_DURATION,
            forall|i: int|
                0 <= i < input.datagrams@.len() ==> (#[trigger] input.datagrams@[i])@.len()
                    <= READ_BUFFER_SIZE,
        ensures
            final(self).wf(),
            final(self).current_token == token,
            r.wake == final(self).has_frames(),
            r.closed@.no_duplicates(),
            exists|a: Self, b: Self, c: Self| #[trigger]
                old(self).event_through(
                    a,
                    b,
                    c,
                    final(self),
                    token,
                    is_readable,
                    is_writable,
                    input.accepted,
                    input.datagrams@,
                    now,
                    r.registered,
                ) && (forall|t: Token| #[trigger]
                    r.closed@.contains(t) <==> timed_out(b.udp@.last_cleanup, now)
                        && idle_sockets(b.udp@, now).contains(t.0)),
    {
        let ghost accepted = input.accepted;
        let ghost datagrams = input.datagrams@;
        self.current_token = token;
        let registered = self.handle_ready(token, is_readable, is_writable, input, now);
        let ghost a = *self;
        self.drain_removals();
        let ghost b = *self;
        let closed = self.check_timeouts(now);
        let ghost c = *self;
        self.check_stalled_connections(now);
        let wake = self.wake_backend_if_needed();
        let r = EventOutcome { closed, registered, wake };
        proof {
            assert(old(self).event_through(
                a,
                b,
                c,
                self,
                token,
                is_readable,
                is_writable,
                accepted,
                datagrams,
                now,
                r.registered,
            ));
            assert forall|t: Token| #[trigger] r.closed@.contains(t) <==> timed_out(
                b.udp@.last_cleanup,
                now,
            ) && idle_sockets(b.udp@, now).contains(t.0) by {
                assert(closed@.contains(t) <==> r.closed@.contains(t));
            }
        }
        r
    }
}

} // verus!
