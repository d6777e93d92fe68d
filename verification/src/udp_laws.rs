//! How long a UDP flow is known.
use vstd::prelude::*;

use crate::addr::{Instant, NatKey, Token};
use crate::udp::{cleaned, opened, routed, used, UdpView};

verus! {

/// The sockets are looked through once more than thirty seconds have passed since the last time.
/// Then exactly those leave that were not used for more than thirty seconds, each with its flow,
/// and all others stay as they are. Before that nothing changes.
pub proof fn idle_flows_leave(v: UdpView, now: Instant, t: usize)
    requires
        v.sockets.dom().contains(t),
        v.reverse.dom().contains(t),
        v.flows.dom().contains(v.reverse[t]),
        v.flows[v.reverse[t]] == Token(t),
    ensures
        ({
            let w = cleaned(v, now);
            let due = now - v.last_cleanup > 30_000_000_000;
            let leaves = due && now - v.sockets[t] > 30_000_000_000;
            &&& due ==> w.last_cleanup == now
            &&& !due ==> w == v
            &&& leaves ==> {
                &&& !w.sockets.dom().contains(t)
                &&& !w.reverse.dom().contains(t)
                &&& !w.flows.dom().contains(v.reverse[t])
            }
            &&& !leaves ==> {
                &&& w.sockets.dom().contains(t) && w.sockets[t] == v.sockets[t]
                &&& w.reverse.dom().contains(t) && w.reverse[t] == v.reverse[t]
                &&& w.flows.dom().contains(v.reverse[t]) && w.flows[v.reverse[t]] == Token(t)
            }
        }),
{
}

/// A flow gets a socket once: the first time it is asked for, and never another after that.
pub proof fn flow_keeps_its_socket(v: UdpView, key: NatKey, fresh: Token, other: Token, k: NatKey)
    ensures
        ({
            let w = routed(v, key, fresh);
            &&& w.flows.dom().contains(key)
            &&& v.flows.dom().contains(key) ==> w == v
            &&& !v.flows.dom().contains(key) ==> w.flows[key] == fresh
            &&& routed(w, key, other) == w
            &&& k != key ==> (w.flows.dom().contains(k) <==> v.flows.dom().contains(k))
                && w.flows[k] == v.flows[k]
        }),
{
}

/// A socket that is opened is known with its flow and counts as used at that time; using it
/// later counts from then on, and nothing else changes.
pub proof fn use_is_noted(v: UdpView, token: Token, key: NatKey, now: Instant, later: Instant)
    ensures
        ({
            let w = opened(v, token, key, now);
            let x = used(w, token, later);
            &&& w.sockets[token.0] == now && w.sockets.dom().contains(token.0)
            &&& w.reverse[token.0] == key && w.reverse.dom().contains(token.0)
            &&& w.flows == v.flows && w.last_cleanup == v.last_cleanup
            &&& x.sockets[token.0] == later
            &&& x.reverse == w.reverse && x.flows == v.flows && x.last_cleanup == v.last_cleanup
            &&& forall|t: usize|
                t != token.0 && #[trigger] v.sockets.dom().contains(t)
                    ==> x.sockets.dom().contains(t) && x.sockets[t] == v.sockets[t]
            &&& !v.sockets.dom().contains(token.0) ==> used(v, token, later) == v
        }),
{
}

} // verus!
