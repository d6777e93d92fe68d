//! The UDP flows of the machine.
use std::collections::HashMap;
use vstd::prelude::*;

use crate::addr::{Instant, NatKey, Token};
use crate::tables::{key_list, NatTable};

verus! {

broadcast use vstd::std_specs::hash::group_hash_axioms;

/// How long a UDP flow may be idle, and how long it takes until idle flows are looked for
/// again: half a minute.
pub const UDP_SESSION_TIMEOUT: u64 = 30_000_000_000;

/// Which UDP flow goes over which host socket, and when each socket was last used.
pub struct UdpFlows {
    pub udp_nat_table: NatTable,
    /// When each open socket was last used.
    pub host_udp_sockets: HashMap<usize, Instant>,
    /// The flow of each open socket.
    pub reverse_udp_nat: HashMap<usize, NatKey>,
    pub last_udp_cleanup: Instant,
}

/// The same as maps.
#[verifier::ext_equal]
pub struct UdpView {
    pub flows: Map<NatKey, Token>,
    pub sockets: Map<usize, Instant>,
    pub reverse: Map<usize, NatKey>,
    pub last_cleanup: Instant,
}

impl View for UdpFlows {
    type V = UdpView;

    open spec fn view(&self) -> UdpView {
        UdpView {
            flows: self.udp_nat_table@,
            sockets: self.host_udp_sockets@,
            reverse: self.reverse_udp_nat@,
            last_cleanup: self.last_udp_cleanup,
        }
    }
}

/// Whether a clock reading is more than the session timeout after another.
pub open spec fn timed_out(since: Instant, now: Instant) -> bool {
    now.saturating_sub(since) > UDP_SESSION_TIMEOUT
}

/// A flow gets a socket, unless it has one.
pub open spec fn routed(v: UdpView, key: NatKey, fresh: Token) -> UdpView {
    if v.flows.dom().contains(key) {
        v
    } else {
        UdpView { flows: v.flows.insert(key, fresh), ..v }
    }
}

/// The socket of a flow has been opened.
pub open spec fn opened(v: UdpView, token: Token, key: NatKey, now: Instant) -> UdpView {
    UdpView {
        sockets: v.sockets.insert(token.0, now),
        reverse: v.reverse.insert(token.0, key),
        ..v
    }
}

/// A socket has been used.
pub open spec fn used(v: UdpView, token: Token, now: Instant) -> UdpView {
    if v.sockets.dom().contains(token.0) {
        UdpView { sockets: v.sockets.insert(token.0, now), ..v }
    } else {
        v
    }
}

/// The sockets that have been idle for too long.
pub open spec fn idle_sockets(v: UdpView, now: Instant) -> Set<usize> {
    Set::new(|t: usize| v.sockets.dom().contains(t) && timed_out(v.sockets[t], now))
}

/// The flows of these sockets.
pub open spec fn flows_of(v: UdpView, tokens: Set<usize>) -> Set<NatKey> {
    Set::new(
        |k: NatKey| v.flows.dom().contains(k) && tokens.contains(v.flows[k].0)
            && v.reverse.dom().contains(v.flows[k].0),
    )
}

/// These sockets and their flows are gone.
pub open spec fn closed(v: UdpView, tokens: Set<usize>) -> UdpView {
    UdpView {
        flows: v.flows.remove_keys(flows_of(v, tokens)),
        sockets: v.sockets.remove_keys(tokens),
        reverse: v.reverse.remove_keys(tokens),
        ..v
    }
}

/// Sockets that have been idle for too long are closed, where it is time to look for them.
pub open spec fn cleaned(v: UdpView, now: Instant) -> UdpView {
    if timed_out(v.last_cleanup, now) {
        UdpView { last_cleanup: now, ..closed(v, idle_sockets(v, now)) }
    } else {
        v
    }
}

impl UdpFlows {
    /// Every open socket carries the flow that is routed over it, and no two flows are routed
    /// over one socket.
    pub open spec fn wf(&self) -> bool {
        &&& self.udp_nat_table.wf()
        &&& self@.reverse.dom() == self@.sockets.dom()
        &&& forall|t: usize| #[trigger]
            self@.reverse.dom().contains(t) ==> self@.flows.dom().contains(self@.reverse[t])
                && self@.flows[self@.reverse[t]] == Token(t)
        &&& forall|a: NatKey, b: NatKey|
            #![trigger self@.flows.dom().contains(a), self@.flows.dom().contains(b)]
            self@.flows.dom().contains(a) && self@.flows.dom().contains(b) && self@.flows[a]
                == self@.flows[b] ==> a == b
    }

    /// Whether all sockets have handles below `next`.
    pub open spec fn below(&self, next: usize) -> bool {
        forall|k: NatKey| #[trigger]
            self@.flows.dom().contains(k) ==> self@.flows[k].0 < next
    }

    /// No flows.
    pub fn new(now: Instant) -> (r: Self)
        ensures
            r.wf(),
            r@ == (UdpView {
                flows: Map::empty(),
                sockets: Map::empty(),
                reverse: Map::empty(),
                last_cleanup: now,
            }),
    {
        UdpFlows {
            udp_nat_table: NatTable::new(),
            host_udp_sockets: HashMap::new(),
            reverse_udp_nat: HashMap::new(),
            last_udp_cleanup: now,
        }
    }

    /// The socket that a flow goes over, and whether the flow is new and has been given the
    /// fresh one.
    pub fn route(&mut self, key: NatKey, fresh: Token) -> (r: (Token, bool))
        requires
            old(self).wf(),
            forall|k: NatKey| #[trigger]
                old(self)@.flows.dom().contains(k) ==> old(self)@.flows[k] != fresh,
        ensures
            final(self).wf(),
            final(self)@ == routed(old(self)@, key, fresh),
            r.0 == final(self)@.flows[key],
            r.1 == !old(self)@.flows.dom().contains(key),
    {
        match self.udp_nat_table.get(&key) {
            Some(token) => (token, false),
            None => {
                self.udp_nat_table.insert(key, fresh);
                proof {
                    let v = old(self)@;
                    assert forall|a: NatKey, b: NatKey|
                        #![trigger self@.flows.dom().contains(a), self@.flows.dom().contains(b)]
                        self@.flows.dom().contains(a) && self@.flows.dom().contains(b)
                            && self@.flows[a] == self@.flows[b] implies a == b by {
                        assert(a != key ==> v.flows.dom().contains(a));
                        assert(b != key ==> v.flows.dom().contains(b));
                    }
                    assert forall|t: usize| #[trigger]
                        self@.reverse.dom().contains(t) implies self@.flows.dom().contains(
                        self@.reverse[t],
                    ) && self@.flows[self@.reverse[t]] == Token(t) by {
                        assert(v.reverse.dom().contains(t));
                        assert(v.flows.dom().contains(v.reverse[t]));
                    }
                }
                (fresh, true)
            },
        }
    }

    /// Notes that the socket of a flow has been opened.
    pub fn opened(&mut self, token: Token, key: NatKey, now: Instant)
        requires
            old(self).wf(),
            old(self)@.flows.dom().contains(key),
            old(self)@.flows[key] == token,
        ensures
            final(self).wf(),
            final(self)@ == opened(old(self)@, token, key, now),
    {
        let _ = self.host_udp_sockets.insert(token.0, now);
        let _ = self.reverse_udp_nat.insert(token.0, key);
        assert(self@.reverse.dom() =~= self@.sockets.dom());
    }

    /// Notes that a socket has been used.
    pub fn used(&mut self, token: Token, now: Instant)
        requires
            old(self).wf(),
        ensures
            final(self).wf(),
            final(self)@ == used(old(self)@, token, now),
    {
        if self.host_udp_sockets.contains_key(&token.0) {
            let _ = self.host_udp_sockets.insert(token.0, now);
            assert(self@.sockets.dom() =~= old(self)@.sockets.dom());
        }
    }

    /// The flow of an open socket.
    pub fn flow(&self, token: Token) -> (r: Option<NatKey>)
        ensures
            r == (if self@.reverse.dom().contains(token.0) {
                Some(self@.reverse[token.0])
            } else {
                None
            }),
    {
        match self.reverse_udp_nat.get(&token.0) {
            Some(k) => Some(*k),
            None => None,
        }
    }

    /// Forgets a socket and its flow.
    fn close(&mut self, token: usize)
        requires
            old(self).wf(),
        ensures
            final(self).wf(),
            final(self)@ == closed(old(self)@, set![token]),
    {
        let ghost v = self@;
        let ghost gone: Set<usize> = set![token];
        let _ = self.host_udp_sockets.remove(&token);
        match self.reverse_udp_nat.remove(&token) {
            Some(key) => {
                self.udp_nat_table.remove(&key);
                proof {
                    assert(v.flows[key] == Token(token));
                    assert(self@.flows =~= v.flows.remove_keys(flows_of(v, gone)));
                }
            },
            None => {
                assert(self@.flows =~= v.flows.remove_keys(flows_of(v, gone)));
            },
        }
        proof {
            assert(self@.sockets =~= v.sockets.remove_keys(gone));
            assert(self@.reverse =~= v.reverse.remove_keys(gone));
            assert(self@.reverse.dom() =~= self@.sockets.dom());
        }
    }

    /// Forgets sockets that have been idle for too long, where it is time to look for them,
    /// and says which, each once.
    pub fn cleanup(&mut self, now: Instant) -> (r: Vec<Token>)
        requires
            old(self).wf(),
        ensures
            final(self).wf(),
            final(self)@ == cleaned(old(self)@, now),
            r@.no_duplicates(),
            forall|t: Token| #[trigger]
                r@.contains(t) <==> timed_out(old(self)@.last_cleanup, now) && idle_sockets(
                    old(self)@,
                    now,
                ).contains(t.0),
    {
        let ghost v = self@;
        let mut expired: Vec<Token> = Vec::new();
        if now.saturating_sub(self.last_udp_cleanup) > UDP_SESSION_TIMEOUT {
            let all = key_list(&self.host_udp_sockets);
            let ghost mut gone: Set<usize> = Set::empty();
            proof {
                assert(closed(v, gone) =~= v);
            }
            let mut i: usize = 0;
            while i < all.len()
                invariant
                    i <= all@.len(),
                    v == old(self)@,
                    self.wf(),
                    self@ == closed(v, gone),
                    all@.no_duplicates(),
                    all@.to_set() == v.sockets.dom(),
                    forall|t: usize| #[trigger]
                        gone.contains(t) <==> idle_sockets(v, now).contains(t) && all@.take(
                            i as int,
                        ).contains(t),
                    expired@.no_duplicates(),
                    forall|t: Token| #[trigger] expired@.contains(t) <==> gone.contains(t.0),
                decreases all@.len() - i,
            {
                let t: usize = all[i];
                proof {
                    assert(all@.to_set().contains(t));
                    assert(!all@.take(i as int).contains(t));
                    assert(!gone.contains(t));
                    assert(all@.take(i + 1) =~= all@.take(i as int).push(t));
                    assert forall|u: usize| #[trigger]
                        all@.take(i + 1).contains(u) <==> all@.take(i as int).contains(u) || u
                            == t by {
                        let s = all@.take(i as int);
                        if s.contains(u) {
                            let j = choose|j: int| 0 <= j < s.len() && s[j] == u;
                            assert(s.push(t)[j] == u);
                        }
                        assert(s.push(t)[s.len() as int] == t);
                    }
                }
                let last: Instant = match self.host_udp_sockets.get(&t) {
                    Some(l) => *l,
                    None => now,
                };
                if now.saturating_sub(last) > UDP_SESSION_TIMEOUT {
                    let ghost before = self@;
                    let ghost old_gone = gone;
                    let ghost old_expired = expired@;
                    self.close(t);
                    expired.push(Token(t));
                    proof {
                        assert(!old_expired.contains(Token(t)));
                        gone = gone.insert(t);
                        assert(self@.sockets =~= closed(v, gone).sockets);
                        assert(self@.reverse =~= closed(v, gone).reverse);
                        assert(self@.flows =~= closed(v, gone).flows);
                        assert forall|u: Token| #[trigger] expired@.contains(u) <==> gone.contains(
                            u.0,
                        ) by {
                            if old_expired.contains(u) {
                                let j = choose|j: int|
                                    0 <= j < old_expired.len() && old_expired[j] == u;
                                assert(expired@[j] == u);
                            }
                            assert(expired@[old_expired.len() as int] == Token(t));
                        }
                    }
                }
                i = i + 1;
            }
            proof {
                assert(all@.take(i as int) =~= all@);
                assert forall|t: usize| #[trigger] gone.contains(t) <==> idle_sockets(
                    v,
                    now,
                ).contains(t) by {
                    if v.sockets.dom().contains(t) {
                        assert(all@.to_set().contains(t));
                    }
                }
                assert(gone =~= idle_sockets(v, now));
            }
            self.last_udp_cleanup = now;
        }
        expired
    }
}

} // verus!
