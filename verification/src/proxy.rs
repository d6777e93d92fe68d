//! The proxy: tracks the connections of the virtual machine and turns frames into host work
//! and host work into frames.
use bytes::{Bytes, BytesMut};
use std::collections::{HashMap, VecDeque};
use vstd::prelude::*;

use crate::addr::{Instant, Ipv4Addr, MacAddr, NatKey, Token};
use crate::buffer::{bytes_view, views};
use crate::host::{deregistered, register_view, HostCall, TracedStream};
use crate::packet_utils::same_family;
use crate::tables::NatTable;
use crate::udp::{UdpFlows, UdpView};
use crate::tcp_fsm::invariants::{plain, steps_in};
use crate::tcp_fsm::model::{action_view, framed, state_wf, step_of, steps_of, StateView, Step};
use crate::tcp_fsm::{AnyConnection, ProxyAction};

pub mod events;
pub mod frames;
pub mod duty_laws;
pub mod laws;
pub mod packets;

verus! {

broadcast use vstd::std_specs::hash::group_hash_axioms;

/// How long a closed connection is kept for late packets: one minute.
pub const TIME_WAIT_DURATION: u64 = 60_000_000_000;

/// How long a packet may be in flight before it is sent again: half a second.
pub const RTO_DURATION: u64 = 500_000_000;

/// How often the counters are reported: every five seconds.
pub const STATS_INTERVAL: u64 = 5_000_000_000;

/// How many datagrams are taken from a host socket for one readiness event.
pub const UDP_READ_BUDGET: usize = 16;

/// The hardware address of the proxy.
#[verifier::allow_in_spec]
pub fn proxy_mac() -> MacAddr
    returns
        MacAddr(0x02, 0x00, 0x00, 0x01, 0x02, 0x03),
{
    MacAddr(0x02, 0x00, 0x00, 0x01, 0x02, 0x03)
}

/// The hardware address of the machine.
#[verifier::allow_in_spec]
pub fn vm_mac() -> MacAddr
    returns
        MacAddr(0xde, 0xad, 0xbe, 0xef, 0x00, 0x00),
{
    MacAddr(0xde, 0xad, 0xbe, 0xef, 0x00, 0x00)
}

/// The address of the proxy.
#[verifier::allow_in_spec]
pub fn proxy_ip() -> Ipv4Addr
    returns
        Ipv4Addr(192, 168, 100, 1),
{
    Ipv4Addr(192, 168, 100, 1)
}

/// The address of the machine.
#[verifier::allow_in_spec]
pub fn vm_ip() -> Ipv4Addr
    returns
        Ipv4Addr(192, 168, 100, 2),
{
    Ipv4Addr(192, 168, 100, 2)
}

/// The counters that are reported from time to time.
#[derive(Debug, Clone, Copy, PartialEq, Eq, Structural)]
pub struct NetStats {
    pub packets_in: u64,
    pub packets_out: u64,
    pub bytes_in: u64,
    pub bytes_out: u64,
}

/// The proxy, over a given kind of host stream.
pub struct NetProxy<H> {
    pub next_token: usize,
    /// The socket whose event is being handled.
    pub current_token: Token,
    /// The port of the machine behind each listening socket.
    pub unix_listeners: HashMap<usize, u16>,
    pub tcp_nat_table: NatTable,
    pub reverse_tcp_nat: HashMap<usize, NatKey>,
    pub host_connections: HashMap<usize, AnyConnection<H>>,
    pub udp: UdpFlows,
    pub connections_to_remove: Vec<Token>,
    /// The streams of connections that are over, until they are taken.
    pub released: Vec<H>,
    pub time_wait_queue: VecDeque<(Instant, Token)>,
    /// Frames for the machine that go ahead of all data.
    pub to_vm_control_queue: VecDeque<Bytes>,
    pub packet_buf: BytesMut,
    pub last_data_token_idx: usize,
    pub stats_last_report: Instant,
    pub stats: NetStats,
}

// --- The queues that actions go to ---

/// The frames for the machine that go ahead of all data, the connections to be removed, and
/// those kept for late packets.
#[verifier::ext_equal]
pub struct Queues {
    pub control: Seq<Seq<u8>>,
    pub removals: Seq<Token>,
    pub time_wait: Seq<(Instant, Token)>,
}

/// Has a connection removed, once.
pub open spec fn scheduled(q: Queues, token: Token) -> Queues {
    if q.removals.contains(token) {
        q
    } else {
        Queues { removals: q.removals.push(token), ..q }
    }
}

/// What an action does to the queues, where no registration is involved.
pub open spec fn queued_step(q: Queues, token: Token, s: Step, now: Instant) -> Queues {
    match s {
        Step::Send(p) => Queues { control: q.control.push(p), ..q },
        Step::EnterTimeWait => Queues {
            time_wait: q.time_wait.push(((now + TIME_WAIT_DURATION) as u64, token)),
            ..q
        },
        Step::ScheduleRemoval => scheduled(q, token),
        _ => q,
    }
}

/// The single actions that an action is made of, in order.
pub open spec fn leaves(a: ProxyAction) -> Seq<Step>
    decreases a,
{
    match a {
        ProxyAction::Multi(v) => leaves_of(v@),
        _ => seq![step_of(a)],
    }
}

pub open spec fn leaves_of(v: Seq<ProxyAction>) -> Seq<Step>
    decreases v,
{
    if v.len() == 0 {
        Seq::empty()
    } else {
        leaves(v[0]) + leaves_of(v.subrange(1, v.len() as int))
    }
}

// --- The state of the proxy ---

/// Whether a call of the host stream of a connection does what an action asks for.
pub open spec fn call_for(token: Token, st: StateView, s: Step, call: HostCall) -> bool {
    match s {
        Step::Reregister(i) => call matches HostCall::Reregister { token: t, interest, .. } && t
            == token && interest == i,
        Step::Deregister => call is Deregister,
        Step::EnterTimeWait => call is Deregister,
        Step::ShutdownHostWrite => call is ShutdownWrite && (st is Established || st is Simple),
        _ => false,
    }
}

/// Whether an action asks something of the host stream.
pub open spec fn needs_call(st: StateView, s: Step) -> bool {
    match s {
        Step::Reregister(_) => true,
        Step::Deregister => true,
        Step::EnterTimeWait => true,
        Step::ShutdownHostWrite => st is Established || st is Simple,
        _ => false,
    }
}

/// What an action does to the queues once the host stream has been called for it: a
/// registration that failed has the connection removed.
pub open spec fn called_step(
    q: Queues,
    token: Token,
    s: Step,
    call: HostCall,
    now: Instant,
) -> Queues {
    match call {
        HostCall::Reregister { came, .. } => {
            if came is Done {
                q
            } else {
                scheduled(q, token)
            }
        },
        _ => queued_step(q, token, s, now),
    }
}

/// Whether actions on a connection, done in order, make these calls of its host stream and
/// turn the queues `before` into `after`. Where there is no such connection, none is called.
pub open spec fn carried_out(
    before: Queues,
    token: Token,
    st: Option<StateView>,
    steps: Seq<Step>,
    calls: Seq<HostCall>,
    now: Instant,
    after: Queues,
) -> bool
    decreases steps.len(),
{
    if steps.len() == 0 {
        calls.len() == 0 && before == after
    } else if st is Some && needs_call(st->0, steps[0]) {
        &&& calls.len() > 0
        &&& call_for(token, st->0, steps[0], calls[0])
        &&& carried_out(
            called_step(before, token, steps[0], calls[0], now),
            token,
            st,
            steps.skip(1),
            calls.skip(1),
            now,
            after,
        )
    } else {
        carried_out(
            queued_step(before, token, steps[0], now),
            token,
            st,
            steps.skip(1),
            calls,
            now,
            after,
        )
    }
}

/// Actions that are carried out after others are carried out together with them.
pub proof fn carried_out_both(
    before: Queues,
    between: Queues,
    after: Queues,
    token: Token,
    st: Option<StateView>,
    first: Seq<Step>,
    second: Seq<Step>,
    a: Seq<HostCall>,
    b: Seq<HostCall>,
    now: Instant,
)
    requires
        carried_out(before, token, st, first, a, now, between),
        carried_out(between, token, st, second, b, now, after),
    ensures
        carried_out(before, token, st, first + second, a + b, now, after),
    decreases first.len(),
{
    if first.len() == 0 {
        assert(first + second =~= second);
        assert(a + b =~= b);
    } else {
        assert((first + second).skip(1) =~= first.skip(1) + second);
        if st is Some && needs_call(st->0, first[0]) {
            assert((a + b).skip(1) =~= a.skip(1) + b);
            carried_out_both(
                called_step(before, token, first[0], a[0], now),
                between,
                after,
                token,
                st,
                first.skip(1),
                second,
                a.skip(1),
                b,
                now,
            );
        } else {
            carried_out_both(
                queued_step(before, token, first[0], now),
                between,
                after,
                token,
                st,
                first.skip(1),
                second,
                a,
                b,
                now,
            );
        }
    }
}

/// One action, carried out with one call.
proof fn carried_out_with(
    before: Queues,
    token: Token,
    st: StateView,
    s: Step,
    call: HostCall,
    now: Instant,
)
    requires
        needs_call(st, s),
        call_for(token, st, s, call),
    ensures
        carried_out(
            before,
            token,
            Some(st),
            seq![s],
            seq![call],
            now,
            called_step(before, token, s, call, now),
        ),
{
    reveal_with_fuel(carried_out, 2);
    assert(seq![s].skip(1) =~= Seq::<Step>::empty());
    assert(seq![call].skip(1) =~= Seq::<HostCall>::empty());
}

/// One action, carried out without a call.
proof fn carried_out_without(
    before: Queues,
    token: Token,
    st: Option<StateView>,
    s: Step,
    now: Instant,
)
    requires
        !(st is Some && needs_call(st->0, s)),
    ensures
        carried_out(
            before,
            token,
            st,
            seq![s],
            Seq::empty(),
            now,
            queued_step(before, token, s, now),
        ),
{
    reveal_with_fuel(carried_out, 2);
    assert(seq![s].skip(1) =~= Seq::<Step>::empty());
}

/// The state of a connection, if there is one.
pub open spec fn state_of<H: TracedStream>(
    conns: Map<usize, AnyConnection<H>>,
    token: Token,
) -> Option<StateView> {
    if conns.dom().contains(token.0) {
        Some(conns[token.0]@)
    } else {
        None
    }
}

/// Whether two tables of connections are the same but that one stream has seen these calls.
pub open spec fn same_flows<H: TracedStream>(
    before: Map<usize, AnyConnection<H>>,
    after: Map<usize, AnyConnection<H>>,
    token: Token,
    calls: Seq<HostCall>,
) -> bool {
    &&& after.dom() == before.dom()
    &&& forall|t: usize| #[trigger]
        after.dom().contains(t) ==> if t == token.0 {
            &&& after[t]@ == before[t]@
            &&& after[t].key() == before[t].key()
            &&& after[t].host().calls() == before[t].host().calls() + calls
        } else {
            after[t] == before[t]
        }
}

/// A table of connections whose streams are not called is the same.
proof fn same_flows_reflexive<H: TracedStream>(conns: Map<usize, AnyConnection<H>>, token: Token)
    ensures
        same_flows(conns, conns, token, Seq::empty()),
{
    if conns.dom().contains(token.0) {
        let c = conns[token.0].host().calls();
        assert(c + Seq::<HostCall>::empty() =~= c);
    }
}

impl<H: TracedStream> NetProxy<H> {
    /// The queues that actions go to.
    pub open spec fn queues(&self) -> Queues {
        Queues {
            control: views(self.to_vm_control_queue@),
            removals: self.connections_to_remove@,
            time_wait: self.time_wait_queue@,
        }
    }

    /// Whether everything but the queues, the connections and the scratch buffer is the same.
    pub open spec fn same_tables(&self, other: &Self) -> bool {
        &&& self.next_token == other.next_token
        &&& self.current_token == other.current_token
        &&& self.unix_listeners == other.unix_listeners
        &&& self.tcp_nat_table == other.tcp_nat_table
        &&& self.reverse_tcp_nat == other.reverse_tcp_nat
        &&& self.released == other.released
        &&& self.udp == other.udp
        &&& self.last_data_token_idx == other.last_data_token_idx
        &&& self.stats_last_report == other.stats_last_report
        &&& self.stats == other.stats
    }

    /// Has a connection removed, once.
    pub fn schedule_removal(&mut self, token: Token)
        ensures
            final(self).queues() == scheduled(old(self).queues(), token),
            final(self).same_tables(old(self)),
            final(self).host_connections == old(self).host_connections,
    {
        let mut i: usize = 0;
        while i < self.connections_to_remove.len()
            invariant
                *self == *old(self),
                i <= self.connections_to_remove@.len(),
                forall|j: int| 0 <= j < i ==> (#[trigger] self.connections_to_remove@[j]) != token,
            decreases self.connections_to_remove@.len() - i,
        {
            if self.connections_to_remove[i] == token {
                return;
            }
            i = i + 1;
        }
        self.connections_to_remove.push(token);
    }

    /// Does what a connection asks for.
    pub fn execute_action(&mut self, token: Token, action: ProxyAction, now: Instant)
        requires
            now <= u64::MAX - TIME_WAIT_DURATION,
        ensures
            final(self).same_tables(old(self)),
            exists|calls: Seq<HostCall>| #[trigger]
                carried_out(
                    old(self).queues(),
                    token,
                    state_of(old(self).host_connections@, token),
                    leaves(action),
                    calls,
                    now,
                    final(self).queues(),
                ) && same_flows(
                    old(self).host_connections@,
                    final(self).host_connections@,
                    token,
                    calls,
                ),
        decreases action,
    {
        let ghost before = *self;
        let ghost step = step_of(action);
        let ghost st = state_of(before.host_connections@, token);
        let ghost mut made = Seq::<HostCall>::empty();
        assert(!(action is Multi) ==> leaves(action) == seq![step]);
        match action {
            ProxyAction::SendControlPacket(p) => {
                self.to_vm_control_queue.push_back(p);
                proof {
                    assert(self.queues().control =~= before.queues().control.push(bytes_view(p)));
                    carried_out_without(before.queues(), token, st, step, now);
                    same_flows_reflexive(before.host_connections@, token);
                }
            },
            ProxyAction::Reregister(interest) => {
                if let Some(conn) = self.host_connections.remove(&token.0) {
                    let mut conn = conn;
                    let ghost was = conn;
                    let done = conn.get_host_stream_mut().reregister(token, interest);
                    let _ = self.host_connections.insert(token.0, conn);
                    if done.is_err() {
                        self.schedule_removal(token);
                    }
                    proof {
                        let call = HostCall::Reregister {
                            token,
                            interest,
                            came: register_view(done),
                        };
                        self.one_call(before, token, was, conn, step, call, now);
                        made = seq![call];
                    }
                } else {
                    proof {
                        assert(self.host_connections@ =~= before.host_connections@);
                        carried_out_without(before.queues(), token, st, step, now);
                        same_flows_reflexive(before.host_connections@, token);
                    }
                }
            },
            ProxyAction::Deregister => {
                if let Some(conn) = self.host_connections.remove(&token.0) {
                    let mut conn = conn;
                    let ghost was = conn;
                    let ok = conn.get_host_stream_mut().deregister();
                    let _ = self.host_connections.insert(token.0, conn);
                    proof {
                        let call = HostCall::Deregister { ok };
                        self.one_call(before, token, was, conn, step, call, now);
                        made = seq![call];
                    }
                } else {
                    proof {
                        assert(self.host_connections@ =~= before.host_connections@);
                        carried_out_without(before.queues(), token, st, step, now);
                        same_flows_reflexive(before.host_connections@, token);
                    }
                }
            },
            ProxyAction::ShutdownHostWrite => {
                let open = match self.host_connections.get(&token.0) {
                    Some(AnyConnection::Established(_)) => true,
                    Some(AnyConnection::Simple(_)) => true,
                    _ => false,
                };
                if open {
                    if let Some(conn) = self.host_connections.remove(&token.0) {
                        let mut conn = conn;
                        let ghost was = conn;
                        let ok = conn.stream_mut().shutdown_write();
                        let _ = self.host_connections.insert(token.0, conn);
                        proof {
                            let call = HostCall::ShutdownWrite { ok };
                            self.one_call(before, token, was, conn, step, call, now);
                            made = seq![call];
                        }
                    }
                } else {
                    proof {
                        carried_out_without(before.queues(), token, st, step, now);
                        same_flows_reflexive(before.host_connections@, token);
                    }
                }
            },
            ProxyAction::EnterTimeWait => {
                let found = self.host_connections.remove(&token.0);
                self.time_wait_queue.push_back((now + TIME_WAIT_DURATION, token));
                if let Some(conn) = found {
                    let mut conn = conn;
                    let ghost was = conn;
                    let ok = conn.get_host_stream_mut().deregister();
                    let _ = self.host_connections.insert(token.0, conn);
                    proof {
                        let call = HostCall::Deregister { ok };
                        self.one_call(before, token, was, conn, step, call, now);
                        made = seq![call];
                    }
                } else {
                    proof {
                        assert(self.host_connections@ =~= before.host_connections@);
                        assert(self.queues() =~= queued_step(before.queues(), token, step, now));
                        carried_out_without(before.queues(), token, st, step, now);
                        same_flows_reflexive(before.host_connections@, token);
                    }
                }
            },
            ProxyAction::ScheduleRemoval => {
                self.schedule_removal(token);
                proof {
                    carried_out_without(before.queues(), token, st, step, now);
                    same_flows_reflexive(before.host_connections@, token);
                }
            },
            ProxyAction::DoNothing => {
                proof {
                    carried_out_without(before.queues(), token, st, step, now);
                    same_flows_reflexive(before.host_connections@, token);
                }
            },
            ProxyAction::Multi(actions) => {
                let ghost all = actions@;
                let mut rest = actions;
                let ghost mut done: int = 0;
                let ghost mut past = Seq::<Step>::empty();
                proof {
                    assert(all.subrange(0, all.len() as int) =~= all);
                    assert(past + leaves_of(all) =~= leaves_of(all));
                    same_flows_reflexive(before.host_connections@, token);
                }
                while rest.len() > 0
                    invariant
                        now <= u64::MAX - TIME_WAIT_DURATION,
                        action == ProxyAction::Multi(actions),
                        all == actions@,
                        0 <= done <= all.len(),
                        rest@ == all.subrange(done, all.len() as int),
                        past + leaves_of(rest@) == leaves_of(all),
                        st == state_of(before.host_connections@, token),
                        carried_out(
                            before.queues(),
                            token,
                            st,
                            past,
                            made,
                            now,
                            self.queues(),
                        ),
                        self.same_tables(&before),
                        same_flows(before.host_connections@, self.host_connections@, token, made),
                    decreases rest@.len(),
                {
                    let ghost mid = *self;
                    let ghost old_rest = rest@;
                    let act = rest.remove(0);
                    proof {
                        assert(act == all[done]);
                        assert(decreases_to!(action => action->Multi_0));
                        assert(decreases_to!(actions => actions@));
                        assert(decreases_to!(actions@ => actions@[done]));
                        assert(rest@ =~= old_rest.subrange(1, old_rest.len() as int));
                        assert(rest@ =~= all.subrange(done + 1, all.len() as int));
                    }
                    let ghost steps = leaves(act);
                    self.execute_action(token, act, now);
                    proof {
                        assert(state_of(mid.host_connections@, token) == st);
                        let more = choose|calls: Seq<HostCall>| #[trigger]
                            carried_out(
                                mid.queues(),
                                token,
                                state_of(mid.host_connections@, token),
                                steps,
                                calls,
                                now,
                                self.queues(),
                            ) && same_flows(
                                mid.host_connections@,
                                self.host_connections@,
                                token,
                                calls,
                            );
                        carried_out_both(
                            before.queues(),
                            mid.queues(),
                            self.queues(),
                            token,
                            st,
                            past,
                            steps,
                            made,
                            more,
                            now,
                        );
                        assert forall|t: usize| #[trigger]
                            self.host_connections@.dom().contains(t) implies if t == token.0 {
                            &&& self.host_connections@[t]@ == before.host_connections@[t]@
                            &&& self.host_connections@[t].key() == before.host_connections@[t].key()
                            &&& self.host_connections@[t].host().calls()
                                == before.host_connections@[t].host().calls() + (made + more)
                        } else {
                            self.host_connections@[t] == before.host_connections@[t]
                        } by {
                            assert(mid.host_connections@.dom().contains(t));
                            let c = before.host_connections@[t].host().calls();
                            assert(c + made + more =~= c + (made + more));
                        }
                        assert(past + steps + leaves_of(rest@) =~= past + (steps + leaves_of(
                            rest@,
                        )));
                        past = past + steps;
                        made = made + more;
                        done = done + 1;
                    }
                }
                proof {
                    assert(past + leaves_of(rest@) =~= past);
                    assert(carried_out(
                        before.queues(),
                        token,
                        st,
                        leaves(action),
                        made,
                        now,
                        self.queues(),
                    ));
                }
            },
        }
        proof {
            assert(carried_out(
                old(self).queues(),
                token,
                state_of(old(self).host_connections@, token),
                leaves(action),
                made,
                now,
                self.queues(),
            ));
            assert(same_flows(
                old(self).host_connections@,
                self.host_connections@,
                token,
                made,
            ));
        }
    }

    /// One call of the host stream of a connection carries out one action.
    proof fn one_call(
        &self,
        before: Self,
        token: Token,
        was: AnyConnection<H>,
        conn: AnyConnection<H>,
        step: Step,
        call: HostCall,
        now: Instant,
    )
        requires
            before.host_connections@.dom().contains(token.0),
            before.host_connections@[token.0] == was,
            self.host_connections@ == before.host_connections@.remove(token.0).insert(
                token.0,
                conn,
            ),
            conn@ == was@,
            conn.key() == was.key(),
            conn.host().calls() == was.host().calls().push(call),
            needs_call(was@, step),
            call_for(token, was@, step, call),
            self.queues() == called_step(before.queues(), token, step, call, now),
        ensures
            carried_out(
                before.queues(),
                token,
                state_of(before.host_connections@, token),
                seq![step],
                seq![call],
                now,
                self.queues(),
            ),
            same_flows(
                before.host_connections@,
                self.host_connections@,
                token,
                seq![call],
            ),
    {
        carried_out_with(before.queues(), token, was@, step, call, now);
        assert(self.host_connections@.dom() =~= before.host_connections@.dom());
        assert(was.host().calls() + seq![call] =~= was.host().calls().push(call));
    }
}

/// What a plain list of actions is made of is what it lists.
pub proof fn leaves_of_plain(a: ProxyAction)
    requires
        plain(action_view(a)),
    ensures
        leaves(a) == steps_in(action_view(a)),
{
    if let ProxyAction::Multi(v) = a {
        assert forall|i: int| 0 <= i < v@.len() implies !((#[trigger] v@[i]) is Multi) by {
            assert(steps_of(v@)[i] == step_of(v@[i]));
        }
        leaves_of_singles(v@);
    }
}

proof fn leaves_of_singles(v: Seq<ProxyAction>)
    requires
        forall|i: int| 0 <= i < v.len() ==> !((#[trigger] v[i]) is Multi),
    ensures
        leaves_of(v) == steps_of(v),
    decreases v.len(),
{
    if v.len() == 0 {
        assert(leaves_of(v) =~= steps_of(v));
    } else {
        let rest = v.subrange(1, v.len() as int);
        leaves_of_singles(rest);
        assert(leaves(v[0]) == seq![step_of(v[0])]);
        assert(leaves_of(v) =~= steps_of(v));
    }
}

// --- What always holds of the proxy ---

/// Whether every flow in a table belongs to a socket that is known to carry it.
pub open spec fn nat_agrees(flows: Map<NatKey, Token>, reverse: Map<usize, NatKey>) -> bool {
    forall|k: NatKey| #[trigger]
        flows.dom().contains(k) ==> reverse.dom().contains(flows[k].0) && reverse[flows[k].0] == k
}

/// Whether a connection is in order.
pub open spec fn conn_ok<H: TracedStream>(c: AnyConnection<H>) -> bool {
    &&& state_wf(c@)
    &&& framed(c@)
    &&& same_family(c.key())
}

/// Whether the tables of connections agree with each other.
pub open spec fn tcp_ok<H: TracedStream>(
    flows: Map<NatKey, Token>,
    reverse: Map<usize, NatKey>,
    conns: Map<usize, AnyConnection<H>>,
) -> bool {
    &&& nat_agrees(flows, reverse)
    &&& reverse.dom() == conns.dom()
    &&& forall|t: usize| #[trigger]
        conns.dom().contains(t) ==> conn_ok(conns[t]) && conns[t].key() == reverse[t]
}

impl<H: TracedStream> NetProxy<H> {
    /// What always holds: the tables agree, every socket has a handle of its own that was
    /// given out, and the connections are in order.
    pub open spec fn wf(&self) -> bool {
        &&& self.tcp_nat_table.wf()
        &&& self.udp.wf()
        &&& self.udp.below(self.next_token)
        &&& tcp_ok(self.tcp_nat_table@, self.reverse_tcp_nat@, self.host_connections@)
        &&& forall|t: usize| #[trigger] self.host_connections@.dom().contains(t) ==> t
            < self.next_token
        &&& forall|t: usize| #[trigger] self.unix_listeners@.dom().contains(t) ==> t
            < self.next_token && !self.host_connections@.dom().contains(t)
    }

    /// A proxy without connections, whose first listeners have been given the handles below
    /// `next_token`.
    pub fn new(next_token: usize, unix_listeners: HashMap<usize, u16>, now: Instant) -> (r: Self)
        requires
            forall|t: usize| #[trigger] unix_listeners@.dom().contains(t) ==> t < next_token,
        ensures
            r.wf(),
            r.next_token == next_token,
            r.current_token == Token(0),
            r.unix_listeners@ == unix_listeners@,
            r.tcp_nat_table@ == Map::<NatKey, Token>::empty(),
            r.host_connections@ == Map::<usize, AnyConnection<H>>::empty(),
            r.udp@ == (UdpView {
                flows: Map::empty(),
                sockets: Map::empty(),
                reverse: Map::empty(),
                last_cleanup: now,
            }),
            r.queues() == (Queues {
                control: Seq::empty(),
                removals: Seq::empty(),
                time_wait: Seq::empty(),
            }),
            r.released@ == Seq::<H>::empty(),
            r.last_data_token_idx == 0,
            r.stats_last_report == now,
            r.stats == (NetStats { packets_in: 0, packets_out: 0, bytes_in: 0, bytes_out: 0 }),
    {
        let r = NetProxy {
            next_token,
            current_token: Token(0),
            unix_listeners,
            tcp_nat_table: NatTable::new(),
            reverse_tcp_nat: HashMap::new(),
            host_connections: HashMap::new(),
            udp: UdpFlows::new(now),
            connections_to_remove: Vec::new(),
            released: Vec::new(),
            time_wait_queue: VecDeque::new(),
            to_vm_control_queue: VecDeque::new(),
            packet_buf: BytesMut::with_capacity(2048),
            last_data_token_idx: 0,
            stats_last_report: now,
            stats: NetStats { packets_in: 0, packets_out: 0, bytes_in: 0, bytes_out: 0 },
        };
        assert(r.queues().control =~= Seq::<Seq<u8>>::empty());
        r
    }

    /// Takes a connection out of all the tables, ends its registration and releases its stream.
    pub fn remove_connection(&mut self, token: Token)
        requires
            old(self).wf(),
        ensures
            final(self).wf(),
            final(self).host_connections@ == old(self).host_connections@.remove(token.0),
            final(self).reverse_tcp_nat@ == old(self).reverse_tcp_nat@.remove(token.0),
            final(self).tcp_nat_table@ == (if old(self).reverse_tcp_nat@.dom().contains(token.0) {
                old(self).tcp_nat_table@.remove(old(self).reverse_tcp_nat@[token.0])
            } else {
                old(self).tcp_nat_table@
            }),
            if old(self).host_connections@.dom().contains(token.0) {
                &&& final(self).released@ == old(self).released@.push(
                    final(self).released@.last(),
                )
                &&& deregistered(
                    old(self).host_connections@[token.0].host().calls(),
                    final(self).released@.last().calls(),
                )
            } else {
                final(self).released@ == old(self).released@
            },
            final(self).queues() == old(self).queues(),
            final(self).same_beside_tcp(old(self)),
    {
        let ghost before = *self;
        if let Some(conn) = self.host_connections.remove(&token.0) {
            let mut stream = conn.into_stream();
            let _ = stream.deregister();
            self.released.push(stream);
        }
        assert(self.host_connections@ =~= before.host_connections@.remove(token.0));
        match self.reverse_tcp_nat.remove(&token.0) {
            Some(key) => {
                self.tcp_nat_table.remove(&key);
            },
            None => {},
        }
        assert(self.reverse_tcp_nat@ =~= before.reverse_tcp_nat@.remove(token.0));
        assert(self.reverse_tcp_nat@.dom() =~= self.host_connections@.dom());
    }

    /// Takes the streams of connections that are over.
    pub fn take_released(&mut self) -> (r: Vec<H>)
        ensures
            r@ == old(self).released@,
            final(self).released@ == Seq::<H>::empty(),
            *final(self) == (NetProxy { released: final(self).released, ..*old(self) }),
    {
        let mut r: Vec<H> = Vec::new();
        std::mem::swap(&mut r, &mut self.released);
        r
    }

    /// Whether everything but the tables of connections and the released streams is the same.
    pub open spec fn same_beside_tcp(&self, other: &Self) -> bool {
        &&& self.next_token == other.next_token
        &&& self.current_token == other.current_token
        &&& self.unix_listeners == other.unix_listeners
        &&& self.udp == other.udp
        &&& self.last_data_token_idx == other.last_data_token_idx
        &&& self.stats_last_report == other.stats_last_report
        &&& self.stats == other.stats
    }
}

} // verus!
