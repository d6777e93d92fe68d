//! What holds of the proxy's tables and queues over more than one step.
use vstd::prelude::*;

use crate::addr::{Instant, NatKey, Token};
use crate::host::{HostCall, TracedStream};
use crate::proxy::events::{carried_by, handles, leaving};
use crate::proxy::{
    called_step, carried_out, carried_out_both, leaves, leaves_of, nat_agrees, needs_call,
    queued_step, same_flows, scheduled, state_of, Queues,
};
use crate::tcp_fsm::model::{StateView, Step};
use crate::tcp_fsm::{AnyConnection, ProxyAction};
use crate::udp::{cleaned, idle_sockets, timed_out, UdpView};

verus! {

/// No two flows share a socket.
pub proof fn flows_have_sockets_of_their_own(
    flows: Map<NatKey, Token>,
    reverse: Map<usize, NatKey>,
    a: NatKey,
    b: NatKey,
)
    requires
        nat_agrees(flows, reverse),
        flows.dom().contains(a),
        flows.dom().contains(b),
        flows[a] == flows[b],
    ensures
        a == b,
{
}

/// Removing connections leaves nothing of them: a flow that only one socket carries is routed
/// no longer once that socket is gone, and is otherwise routed as before.
pub proof fn removal_leaves_nothing(
    flows: Map<NatKey, Token>,
    reverse: Map<usize, NatKey>,
    tokens: Seq<Token>,
    k: NatKey,
)
    requires
        nat_agrees(flows, reverse),
        flows.dom().contains(k),
        forall|t: usize|
            #![trigger reverse.dom().contains(t)]
            reverse.dom().contains(t) && reverse[t] == k ==> flows[k] == Token(t),
    ensures
        flows.remove_keys(carried_by(reverse, tokens)).dom().contains(k) <==> !tokens.contains(
            flows[k],
        ),
        flows.remove_keys(carried_by(reverse, tokens)).dom().contains(k) ==> flows.remove_keys(
            carried_by(reverse, tokens),
        )[k] == flows[k],
{
    let t = flows[k];
    let gone = carried_by(reverse, tokens);
    if tokens.contains(t) {
        let i = choose|i: int| 0 <= i < tokens.len() && tokens[i] == t;
        assert(handles(tokens).contains(t.0));
        assert(gone.contains(k));
    }
    if gone.contains(k) {
        let i = choose|i: int|
            0 <= i < tokens.len() && reverse.dom().contains((#[trigger] tokens[i]).0)
                && reverse[tokens[i].0] == k;
        assert(tokens.contains(tokens[i]));
    }
}

/// The frames that some actions send to the machine, in order.
pub open spec fn sends(steps: Seq<Step>) -> Seq<Seq<u8>>
    decreases steps.len(),
{
    if steps.len() == 0 {
        Seq::empty()
    } else {
        (match steps[0] {
            Step::Send(p) => seq![p],
            _ => Seq::<Seq<u8>>::empty(),
        }) + sends(steps.skip(1))
    }
}

/// Whatever actions are carried out, and whatever the host answers: the frames that they send
/// are queued behind those that wait, in order, none is lost, and no connection is to be removed
/// twice.
pub proof fn actions_keep_queues(
    before: Queues,
    token: Token,
    st: Option<StateView>,
    steps: Seq<Step>,
    calls: Seq<HostCall>,
    now: Instant,
    after: Queues,
)
    requires
        carried_out(before, token, st, steps, calls, now, after),
        before.removals.no_duplicates(),
    ensures
        after.control == before.control + sends(steps),
        after.removals.no_duplicates(),
        after.removals == before.removals || after.removals == before.removals.push(token),
    decreases steps.len(),
{
    if steps.len() == 0 {
        assert(before.control + sends(steps) =~= before.control);
    } else {
        let rest = steps.skip(1);
        let (next, left) = if st is Some && needs_call(st->0, steps[0]) {
            (called_step(before, token, steps[0], calls[0], now), calls.skip(1))
        } else {
            (queued_step(before, token, steps[0], now), calls)
        };
        scheduled_once(before, token);
        actions_keep_queues(next, token, st, rest, left, now, after);
        assert(after.control =~= before.control + sends(steps));
        if next.removals != before.removals {
            assert(next.removals == before.removals.push(token));
            assert(next.removals[before.removals.len() as int] == token);
            assert(after.removals == next.removals) by {
                if after.removals != next.removals {
                    let r = next.removals.push(token);
                    assert(r[before.removals.len() as int] == token);
                    assert(r[before.removals.len() as int + 1] == token);
                }
            }
        }
    }
}

/// Whether actions on a connection, done one after another, make these calls of its host stream
/// and turn the queues `before` into `after`.
pub open spec fn done_in_turn(
    before: Queues,
    token: Token,
    st: Option<StateView>,
    actions: Seq<ProxyAction>,
    calls: Seq<HostCall>,
    now: Instant,
    after: Queues,
) -> bool
    decreases actions.len(),
{
    if actions.len() == 0 {
        calls.len() == 0 && before == after
    } else {
        exists|between: Queues, n: int|
            0 <= n <= calls.len() && #[trigger] carried_out(
                before,
                token,
                st,
                leaves(actions[0]),
                calls.take(n),
                now,
                between,
            ) && done_in_turn(
                between,
                token,
                st,
                actions.subrange(1, actions.len() as int),
                calls.skip(n),
                now,
                after,
            )
    }
}

/// A list of actions does what its items do one after another, whatever the host answers. An
/// item may be a list itself.
pub proof fn multi_does_its_items_in_turn(
    before: Queues,
    token: Token,
    st: Option<StateView>,
    actions: Vec<ProxyAction>,
    calls: Seq<HostCall>,
    now: Instant,
    after: Queues,
)
    ensures
        carried_out(before, token, st, leaves(ProxyAction::Multi(actions)), calls, now, after)
            <==> done_in_turn(before, token, st, actions@, calls, now, after),
{
    items_in_turn(before, token, st, actions@, calls, now, after);
}

proof fn items_in_turn(
    before: Queues,
    token: Token,
    st: Option<StateView>,
    actions: Seq<ProxyAction>,
    calls: Seq<HostCall>,
    now: Instant,
    after: Queues,
)
    ensures
        carried_out(before, token, st, leaves_of(actions), calls, now, after) <==> done_in_turn(
            before,
            token,
            st,
            actions,
            calls,
            now,
            after,
        ),
    decreases actions.len(),
{
    if actions.len() > 0 {
        let first = leaves(actions[0]);
        let rest = actions.subrange(1, actions.len() as int);
        if carried_out(before, token, st, leaves_of(actions), calls, now, after) {
            let (between, n) = carried_out_splits(
                before,
                token,
                st,
                first,
                leaves_of(rest),
                calls,
                now,
                after,
            );
            items_in_turn(between, token, st, rest, calls.skip(n), now, after);
        }
        if done_in_turn(before, token, st, actions, calls, now, after) {
            let (between, n) = choose|between: Queues, n: int|
                0 <= n <= calls.len() && #[trigger] carried_out(
                    before,
                    token,
                    st,
                    first,
                    calls.take(n),
                    now,
                    between,
                ) && done_in_turn(between, token, st, rest, calls.skip(n), now, after);
            items_in_turn(between, token, st, rest, calls.skip(n), now, after);
            carried_out_both(
                before,
                between,
                after,
                token,
                st,
                first,
                leaves_of(rest),
                calls.take(n),
                calls.skip(n),
                now,
            );
            assert(calls.take(n) + calls.skip(n) =~= calls);
        }
    }
}

/// What actions come to can be told apart into what the first of them come to and what the
/// others come to after that.
proof fn carried_out_splits(
    before: Queues,
    token: Token,
    st: Option<StateView>,
    first: Seq<Step>,
    second: Seq<Step>,
    calls: Seq<HostCall>,
    now: Instant,
    after: Queues,
) -> (r: (Queues, int))
    requires
        carried_out(before, token, st, first + second, calls, now, after),
    ensures
        0 <= r.1 <= calls.len(),
        carried_out(before, token, st, first, calls.take(r.1), now, r.0),
        carried_out(r.0, token, st, second, calls.skip(r.1), now, after),
    decreases first.len(),
{
    if first.len() == 0 {
        assert(first + second =~= second);
        assert(calls.skip(0) =~= calls);
        (before, 0)
    } else {
        assert((first + second).skip(1) =~= first.skip(1) + second);
        if st is Some && needs_call(st->0, first[0]) {
            let next = called_step(before, token, first[0], calls[0], now);
            let left = calls.skip(1);
            let (between, n) = carried_out_splits(
                next,
                token,
                st,
                first.skip(1),
                second,
                left,
                now,
                after,
            );
            assert(calls.take(n + 1).skip(1) =~= left.take(n));
            assert(calls.skip(n + 1) =~= left.skip(n));
            (between, n + 1)
        } else {
            carried_out_splits(
                queued_step(before, token, first[0], now),
                token,
                st,
                first.skip(1),
                second,
                calls,
                now,
                after,
            )
        }
    }
}

/// What the host streams see while actions are done one after another adds up: the connection
/// keeps its state and its flow, and the others are left alone.
pub proof fn calls_in_turn_add_up<H: TracedStream>(
    before: Map<usize, AnyConnection<H>>,
    between: Map<usize, AnyConnection<H>>,
    after: Map<usize, AnyConnection<H>>,
    token: Token,
    a: Seq<HostCall>,
    b: Seq<HostCall>,
)
    requires
        same_flows(before, between, token, a),
        same_flows(between, after, token, b),
    ensures
        same_flows(before, after, token, a + b),
        state_of(between, token) == state_of(before, token),
{
    assert forall|t: usize| #[trigger] after.dom().contains(t) implies if t == token.0 {
        &&& after[t]@ == before[t]@
        &&& after[t].key() == before[t].key()
        &&& after[t].host().calls() == before[t].host().calls() + (a + b)
    } else {
        after[t] == before[t]
    } by {
        assert(between.dom().contains(t));
        let c = before[t].host().calls();
        assert(c + a + b =~= c + (a + b));
    }
    if before.dom().contains(token.0) {
        assert(between.dom().contains(token.0));
    }
}

/// The frames that a list of actions sends are those that its items send, in the order of the
/// list.
pub proof fn frames_go_in_list_order(actions: Seq<ProxyAction>)
    requires
        actions.len() > 0,
    ensures
        sends(leaves_of(actions)) == sends(leaves(actions[0])) + sends(
            leaves_of(actions.subrange(1, actions.len() as int)),
        ),
{
    sends_add(leaves(actions[0]), leaves_of(actions.subrange(1, actions.len() as int)));
}

proof fn sends_add(a: Seq<Step>, b: Seq<Step>)
    ensures
        sends(a + b) == sends(a) + sends(b),
    decreases a.len(),
{
    if a.len() == 0 {
        assert(a + b =~= b);
        assert(sends(a) + sends(b) =~= sends(b));
    } else {
        sends_add(a.skip(1), b);
        assert((a + b).skip(1) =~= a.skip(1) + b);
        assert(sends(a + b) =~= sends(a) + sends(b));
    }
}

/// Doing nothing changes nothing, and neither does a list without items: no queue is different
/// and the host is not called.
pub proof fn doing_nothing_changes_nothing(
    before: Queues,
    token: Token,
    st: Option<StateView>,
    none: Vec<ProxyAction>,
    calls: Seq<HostCall>,
    now: Instant,
    after: Queues,
)
    requires
        none@.len() == 0,
        carried_out(before, token, st, leaves(ProxyAction::DoNothing), calls, now, after)
            || carried_out(before, token, st, leaves(ProxyAction::Multi(none)), calls, now, after),
    ensures
        after == before,
        calls.len() == 0,
{
    let one = leaves(ProxyAction::DoNothing);
    assert(one == seq![Step::Nothing]);
    assert(one.skip(1) =~= Seq::<Step>::empty());
    reveal_with_fuel(carried_out, 2);
}

/// Removing connections loses no stream: every connection that is removed from the table
/// releases its stream, and no other does.
pub proof fn removal_releases_every_stream<C>(conns: Map<usize, C>, tokens: Seq<Token>, t: usize)
    requires
        conns.dom().contains(t),
    ensures
        tokens.contains(Token(t)) ==> leaving(conns, tokens).contains(conns[t]),
        leaving(conns, tokens).len() <= tokens.len(),
        forall|i: int|
            0 <= i < leaving(conns, tokens).len() ==> exists|u: usize|
                conns.dom().contains(u) && tokens.contains(Token(u)) && #[trigger] conns[u]
                    == #[trigger] leaving(conns, tokens)[i],
    decreases tokens.len(),
{
    if tokens.len() > 0 {
        let earlier = tokens.drop_last();
        let token = tokens.last();
        let less = leaving(conns, earlier);
        let all = leaving(conns, tokens);
        removal_releases_every_stream(conns, earlier, t);
        if tokens.contains(Token(t)) {
            if earlier.contains(Token(t)) {
                let i = choose|i: int| 0 <= i < less.len() && less[i] == conns[t];
                assert(all[i] == conns[t]);
            } else {
                let i = choose|i: int| 0 <= i < tokens.len() && tokens[i] == Token(t);
                if i < tokens.len() - 1 {
                    assert(earlier[i] == Token(t));
                }
                assert(token == Token(t));
                assert(all[all.len() - 1] == conns[t]);
            }
        }
        assert forall|i: int| 0 <= i < all.len() implies exists|u: usize|
            conns.dom().contains(u) && tokens.contains(Token(u)) && #[trigger] conns[u]
                == #[trigger] all[i] by {
            if i < less.len() {
                assert(all[i] == less[i]);
                let u = choose|u: usize|
                    conns.dom().contains(u) && earlier.contains(Token(u)) && #[trigger] conns[u]
                        == less[i];
                let k = choose|k: int| 0 <= k < earlier.len() && earlier[k] == Token(u);
                assert(tokens[k] == Token(u));
                assert(conns[u] == all[i]);
            } else {
                assert(tokens[tokens.len() - 1] == token);
                assert(conns[token.0] == all[i]);
            }
        }
    }
}

/// A connection that is already to be removed is not noted again.
pub proof fn scheduled_once(q: Queues, token: Token)
    requires
        q.removals.no_duplicates(),
    ensures
        scheduled(q, token).removals.no_duplicates(),
        scheduled(q, token).removals.contains(token),
        scheduled(scheduled(q, token), token) == scheduled(q, token),
{
    let r = scheduled(q, token).removals;
    if !q.removals.contains(token) {
        assert(r[r.len() - 1] == token);
        assert forall|i: int, j: int| 0 <= i < r.len() && 0 <= j < r.len() && i != j implies r[i]
            != r[j] by {
            if i < q.removals.len() {
                assert(q.removals.contains(q.removals[i]));
            }
            if j < q.removals.len() {
                assert(q.removals.contains(q.removals[j]));
            }
        }
    }
}

/// A look for idle sockets closes those and no others: a socket stays exactly if it was used
/// within the timeout, and the flow that it carries is routed over it as before.
pub proof fn cleanup_closes_idle_sockets(v: UdpView, now: Instant, t: usize)
    requires
        timed_out(v.last_cleanup, now),
        v.sockets.dom().contains(t),
        v.reverse.dom().contains(t),
        v.flows.dom().contains(v.reverse[t]),
        v.flows[v.reverse[t]] == Token(t),
    ensures
        cleaned(v, now).sockets.dom().contains(t) <==> !timed_out(v.sockets[t], now),
        cleaned(v, now).reverse.dom().contains(t) <==> !timed_out(v.sockets[t], now),
        cleaned(v, now).flows.dom().contains(v.reverse[t]) <==> !timed_out(v.sockets[t], now),
        cleaned(v, now).last_cleanup == now,
{
    assert(idle_sockets(v, now).contains(t) <==> timed_out(v.sockets[t], now));
}

} // verus!
