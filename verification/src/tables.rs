//! The tables of the proxy.
use std::collections::HashMap;
use vstd::prelude::*;

use crate::addr::{same_key, NatKey, Token};

verus! {

broadcast use vstd::std_specs::hash::group_hash_axioms;

/// The keys of a table, in no particular order.
pub fn key_list<V>(m: &HashMap<usize, V>) -> (r: Vec<usize>)
    ensures
        r@.no_duplicates(),
        r@.to_set() == m@.dom(),
{
    let mut r: Vec<usize> = Vec::new();
    for k in it: m.keys()
        invariant
            r@ == it.seq().unref().take(it.index() as int),
            it.seq().unref().to_set() == m@.dom(),
            it.seq().no_duplicates(),
            it.index() == it.seq().len() ==> r@ == it.seq().unref(),
    {
        r.push(*k);
        proof {
            let all = it.seq().unref();
            assert(r@ =~= all.take(it.index() + 1));
            assert(all.take(all.len() as int) =~= all);
        }
    }
    r
}

/// The ports of the machine behind listening sockets that are numbered from `first` on.
pub open spec fn numbered(ports: Seq<u16>, first: usize) -> Map<usize, u16> {
    Map::new(
        |t: usize| first <= t < first + ports.len(),
        |t: usize| ports[t - first],
    )
}

/// Numbers the listening sockets for these ports of the machine from `first` on. Gives the port
/// behind each handle, and the next handle that is free.
pub fn number_listeners(ports: &Vec<u16>, first: usize) -> (r: (HashMap<usize, u16>, usize))
    requires
        first + ports@.len() <= usize::MAX,
    ensures
        r.0@ == numbered(ports@, first),
        r.1 == first + ports@.len(),
{
    let mut table: HashMap<usize, u16> = HashMap::new();
    let mut i: usize = 0;
    assert(table@ =~= numbered(ports@.take(0), first));
    while i < ports.len()
        invariant
            i <= ports@.len(),
            first + ports@.len() <= usize::MAX,
            table@ == numbered(ports@.take(i as int), first),
        decreases ports@.len() - i,
    {
        let _ = table.insert(first + i, ports[i]);
        i = i + 1;
        assert(table@ =~= numbered(ports@.take(i as int), first));
    }
    assert(ports@.take(i as int) =~= ports@);
    (table, first + i)
}

/// Which flow belongs to which socket. No flow occurs twice.
pub struct NatTable {
    pub entries: Vec<(NatKey, Token)>,
}

/// The first entry from `i` on for this flow.
pub open spec fn entry_from(s: Seq<(NatKey, Token)>, key: NatKey, i: int) -> int
    decreases s.len() - i,
{
    if i < 0 || i >= s.len() || s[i].0 == key {
        i
    } else {
        entry_from(s, key, i + 1)
    }
}

impl View for NatTable {
    type V = Map<NatKey, Token>;

    open spec fn view(&self) -> Map<NatKey, Token> {
        let s = self.entries@;
        Map::new(
            |k: NatKey| exists|i: int| 0 <= i < s.len() && (#[trigger] s[i]).0 == k,
            |k: NatKey| s[entry_from(s, k, 0)].1,
        )
    }
}

proof fn entry_from_finds(s: Seq<(NatKey, Token)>, key: NatKey, i: int, at: int)
    requires
        0 <= i <= at < s.len(),
        s[at].0 == key,
        forall|a: int, b: int| 0 <= a < b < s.len() ==> (#[trigger] s[a]).0 != (#[trigger] s[b]).0,
    ensures
        entry_from(s, key, i) == at,
    decreases at - i,
{
    if i < at {
        assert(s[i].0 != s[at].0);
        entry_from_finds(s, key, i + 1, at);
    }
}

impl NatTable {
    /// No flow occurs twice.
    pub open spec fn wf(&self) -> bool {
        forall|a: int, b: int|
            0 <= a < b < self.entries@.len() ==> (#[trigger] self.entries@[a]).0 != (
            #[trigger] self.entries@[b]).0
    }

    pub fn new() -> (r: Self)
        ensures
            r.wf(),
            r@ == Map::<NatKey, Token>::empty(),
    {
        let r = NatTable { entries: Vec::new() };
        assert(r@ =~= Map::<NatKey, Token>::empty());
        r
    }

    /// Where the entry for a flow is.
    fn find(&self, key: &NatKey) -> (r: Option<usize>)
        requires
            self.wf(),
        ensures
            match r {
                Some(i) => i < self.entries@.len() && self.entries@[i as int].0 == *key
                    && self@.dom().contains(*key) && self@[*key] == self.entries@[i as int].1,
                None => !self@.dom().contains(*key),
            },
    {
        let mut i: usize = 0;
        while i < self.entries.len()
            invariant
                self.wf(),
                i <= self.entries@.len(),
                forall|j: int| 0 <= j < i ==> (#[trigger] self.entries@[j]).0 != *key,
            decreases self.entries@.len() - i,
        {
            if same_key(&self.entries[i].0, key) {
                proof {
                    entry_from_finds(self.entries@, *key, 0, i as int);
                }
                return Some(i);
            }
            i = i + 1;
        }
        None
    }

    /// The socket of a flow.
    pub fn get(&self, key: &NatKey) -> (r: Option<Token>)
        requires
            self.wf(),
        ensures
            r is Some <==> self@.dom().contains(*key),
            r matches Some(t) ==> t == self@[*key],
    {
        match self.find(key) {
            Some(i) => Some(self.entries[i].1),
            None => None,
        }
    }

    /// Takes a flow out of the table.
    pub fn remove(&mut self, key: &NatKey)
        requires
            old(self).wf(),
        ensures
            final(self).wf(),
            final(self)@ == old(self)@.remove(*key),
    {
        let ghost s = self.entries@;
        match self.find(key) {
            Some(i) => {
                let _ = self.entries.remove(i);
                proof {
                    let t = self.entries@;
                    assert(t =~= s.remove(i as int));
                    assert forall|a: int, b: int| 0 <= a < b < t.len() implies (#[trigger] t[a]).0
                        != (#[trigger] t[b]).0 by {
                        let x = if a < i { a } else { a + 1 };
                        let y = if b < i { b } else { b + 1 };
                        assert(t[a] == s[x] && t[b] == s[y]);
                    }
                    assert forall|k: NatKey|
                        #![trigger self@.dom().contains(k)]
                        self@.dom().contains(k) <==> old(self)@.remove(*key).dom().contains(
                            k,
                        ) by {
                        if self@.dom().contains(k) {
                            let a = choose|a: int| 0 <= a < t.len() && (#[trigger] t[a]).0 == k;
                            let x = if a < i { a } else { a + 1 };
                            assert(t[a] == s[x]);
                            assert(s[i as int].0 == *key);
                        }
                        if old(self)@.remove(*key).dom().contains(k) {
                            let x = choose|x: int| 0 <= x < s.len() && (#[trigger] s[x]).0 == k;
                            let a = if x < i { x } else { x - 1 };
                            assert(t[a] == s[x]);
                        }
                    }
                    assert forall|k: NatKey| self@.dom().contains(k) implies #[trigger] self@[k]
                        == old(self)@[k] by {
                        let a = choose|a: int| 0 <= a < t.len() && (#[trigger] t[a]).0 == k;
                        let x = if a < i { a } else { a + 1 };
                        assert(t[a] == s[x]);
                        entry_from_finds(t, k, 0, a);
                        entry_from_finds(s, k, 0, x);
                    }
                    assert(self@ =~= old(self)@.remove(*key));
                }
            },
            None => {
                assert(self@ =~= old(self)@.remove(*key));
            },
        }
    }

    /// Enters a flow, in place of an entry that it may already have.
    pub fn insert(&mut self, key: NatKey, token: Token)
        requires
            old(self).wf(),
        ensures
            final(self).wf(),
            final(self)@ == old(self)@.insert(key, token),
    {
        let ghost before = self@;
        self.remove(&key);
        let ghost s = self.entries@;
        let ghost m = self@;
        self.entries.push((key, token));
        proof {
            let t = self.entries@;
            assert(!m.dom().contains(key));
            assert forall|a: int, b: int| 0 <= a < b < t.len() implies (#[trigger] t[a]).0 != (
            #[trigger] t[b]).0 by {
                if b == s.len() {
                    assert(s[a].0 != key) by {
                        if s[a].0 == key {
                            assert(m.dom().contains(key));
                        }
                    }
                } else {
                    assert(s[a].0 != s[b].0);
                }
            }
            assert forall|k: NatKey|
                #![trigger self@.dom().contains(k)]
                self@.dom().contains(k) <==> before.insert(key, token).dom().contains(k) by {
                if self@.dom().contains(k) && k != key {
                    let a = choose|a: int| 0 <= a < t.len() && (#[trigger] t[a]).0 == k;
                    assert(s[a].0 == k);
                    assert(m.dom().contains(k));
                }
                if k == key {
                    assert(t[s.len() as int].0 == k);
                } else if before.dom().contains(k) {
                    assert(m.dom().contains(k));
                    let a = choose|a: int| 0 <= a < s.len() && (#[trigger] s[a]).0 == k;
                    assert(t[a].0 == k);
                }
            }
            assert forall|k: NatKey| self@.dom().contains(k) implies #[trigger] self@[k]
                == before.insert(key, token)[k] by {
                let a = choose|a: int| 0 <= a < t.len() && (#[trigger] t[a]).0 == k;
                entry_from_finds(t, k, 0, a);
                if k != key {
                    assert(s[a] == t[a]);
                    entry_from_finds(s, k, 0, a);
                    assert(m.dom().contains(k));
                    assert(m[k] == s[a].1);
                    assert(m == before.remove(key));
                } else {
                    assert(t[s.len() as int].0 == key);
                    entry_from_finds(t, k, 0, s.len() as int);
                }
            }
            assert(self@ =~= before.insert(key, token));
        }
    }
}

} // verus!
