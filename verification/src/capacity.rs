//! Whether frames and what they carry can still be counted and kept.
use bytes::Bytes;
use std::collections::{BTreeMap, VecDeque};
use vstd::prelude::*;

use crate::addr::{flip_key, IpAddr, NatKey};
use crate::buffer::{bytes_view, flat, flat_push, views};
use crate::direct_proxy;
use crate::host::TracedStream;
use crate::packet_utils::IpPacket;
use crate::proxy::packets::{
    asks_for_proxy, options_complete, segment_of, OPTION_TIMESTAMPS, OPTION_WINDOW_SCALE,
};
use crate::proxy::{proxy_ip, NetProxy};
use crate::simple_proxy;
use crate::tcp_fsm::established::kept_bytes_without;
use crate::tcp_fsm::model::{kept_bytes, map_view, queued, state_takes, state_wf};
use crate::tcp_fsm::AnyConnection;
use crate::wire::{
    option_views, parse_arp, parse_ethernet, parse_ipv4, parse_tcp, parse_tcp_options, parse_udp,
    ArpPacket, TcpOption, TcpSegment, ARP_REQUEST, ETHERTYPE_ARP, ETHERTYPE_IPV4, ETHERTYPE_IPV6,
    PROTOCOL_TCP, PROTOCOL_UDP, SYN,
};

verus! {

broadcast use vstd::std_specs::hash::group_hash_axioms;

// --- Counting bytes ---

/// The bytes of the first chunks are no more than the bytes of all.
proof fn flat_grows(q: Seq<Seq<u8>>, n: int)
    requires
        0 <= n <= q.len(),
    ensures
        flat(q.take(n)).len() <= flat(q).len(),
    decreases q.len() - n,
{
    if n < q.len() {
        flat_grows(q, n + 1);
        flat_push(q.take(n), q[n]);
        assert(q.take(n + 1) =~= q.take(n).push(q[n]));
    } else {
        assert(q.take(n) =~= q);
    }
}

/// How many bytes a queue holds, where they can be counted.
fn total_len(q: &VecDeque<Bytes>) -> (r: Option<usize>)
    ensures
        r is Some <==> flat(views(q@)).len() <= usize::MAX,
        r matches Some(n) ==> n == flat(views(q@)).len(),
{
    let ghost v = views(q@);
    let mut total: usize = 0;
    let mut i: usize = 0;
    assert(v.take(0) =~= Seq::<Seq<u8>>::empty());
    while i < q.len()
        invariant
            v == views(q@),
            i <= v.len(),
            total == flat(v.take(i as int)).len(),
        decreases v.len() - i,
    {
        let n: usize = q[i].len();
        proof {
            flat_push(v.take(i as int), v[i as int]);
            assert(v.take(i + 1) =~= v.take(i as int).push(v[i as int]));
            flat_grows(v, i + 1);
        }
        match total.checked_add(n) {
            Some(t) => {
                total = t;
            },
            None => {
                return None;
            },
        }
        i = i + 1;
    }
    assert(v.take(i as int) =~= v);
    Some(total)
}

/// The sequence numbers of the packets that are kept.
fn kept_numbers(m: &BTreeMap<u32, Bytes>) -> (r: Vec<u32>)
    ensures
        r@.no_duplicates(),
        r@.to_set() == m@.dom(),
{
    let mut r: Vec<u32> = Vec::new();
    for k in it: m.keys()
        invariant
            r@ == it.seq().unref().take(it.index() as int),
            it.seq().unref().to_set() == m@.dom(),
            it.seq().no_duplicates(),
            it.index() == it.seq().len() ==> r@ == it.seq().unref(),
    {
        r.push(*k);
        proof {
            let all = it.seq().unref();
            assert(r@ =~= all.take(it.index() + 1));
            assert(all.take(all.len() as int) =~= all);
        }
    }
    r
}

/// How many bytes are kept until their turn comes, where they can be counted.
fn kept_len(m: &BTreeMap<u32, Bytes>) -> (r: Option<usize>)
    requires
        m@.dom().finite(),
    ensures
        r is Some <==> kept_bytes(map_view(m@)) <= usize::MAX,
        r matches Some(n) ==> n == kept_bytes(map_view(m@)),
{
    let ghost all = map_view(m@);
    let numbers: Vec<u32> = kept_numbers(m);
    let mut total: usize = 0;
    let mut i: usize = 0;
    let ghost mut left = all;
    assert(all.dom() =~= m@.dom());
    while i < numbers.len()
        invariant
            all == map_view(m@),
            all.dom() == m@.dom(),
            left.dom().finite(),
            numbers@.no_duplicates(),
            numbers@.to_set() == m@.dom(),
            i <= numbers@.len(),
            total + kept_bytes(left) == kept_bytes(all),
            left.dom() == all.dom().difference(numbers@.take(i as int).to_set()),
            forall|k: u32| #[trigger] left.dom().contains(k) ==> left[k] == all[k],
        decreases numbers@.len() - i,
    {
        let k: u32 = numbers[i];
        proof {
            assert(numbers@.to_set().contains(k));
            assert(!numbers@.take(i as int).contains(k)) by {
                if numbers@.take(i as int).contains(k) {
                    let j = choose|j: int| 0 <= j < i && numbers@.take(i as int)[j] == k;
                    assert(numbers@[j] == numbers@[i as int]);
                }
            }
            assert(left.dom().contains(k));
            kept_bytes_without(left, k);
            assert(numbers@.take(i + 1) =~= numbers@.take(i as int).push(k));
            assert(numbers@.take(i + 1).to_set() =~= numbers@.take(i as int).to_set().insert(k)) by {
                broadcast use vstd::seq_lib::group_seq_properties;
            }
            left = left.remove(k);
            assert(left.dom() =~= all.dom().difference(numbers@.take(i + 1).to_set()));
        }
        let n: usize = match m.get(&k) {
            Some(b) => b.len(),
            None => 0,
        };
        match total.checked_add(n) {
            Some(t) => {
                total = t;
            },
            None => {
                return None;
            },
        }
        i = i + 1;
    }
    proof {
        assert(numbers@.take(i as int) =~= numbers@);
        assert(left.dom() =~= Set::<u32>::empty());
    }
    Some(total)
}

/// Whether two sizes together can be counted.
fn countable(a: Option<usize>, n: usize) -> (r: bool)
    ensures
        r == match a {
            Some(x) => x + n <= usize::MAX,
            None => false,
        },
{
    match a {
        Some(x) => x.checked_add(n).is_some(),
        None => false,
    }
}

// --- Connections ---

impl<H: TracedStream> AnyConnection<H> {
    /// Whether the connection can take a packet with this payload.
    pub fn accepts(&self, payload: &Vec<u8>) -> (r: bool)
        requires
            state_wf(self@),
        ensures
            r == state_takes(self@, payload@),
    {
        let n: usize = payload.len();
        match self {
            AnyConnection::Established(c) => {
                assert(self@->Established_0 == c.state@);
                assert(c.state@.rx_buf.dom() =~= c.state.rx_buf@.dom());
                if c.state.dup_ack_count == 0xffff {
                    return false;
                }
                let kept = kept_len(&c.state.rx_buf);
                match kept {
                    Some(k) => countable(k.checked_add(n), c.state.write_buffer_size),
                    None => false,
                }
            },
            AnyConnection::Simple(c) => countable(total_len(&c.to_host_buffer), n),
            _ => true,
        }
    }
}

// --- Frames from the machine ---

/// Whether the options that are read have all their data.
fn options_are_complete(options: &Vec<TcpOption>) -> (r: bool)
    ensures
        r == options_complete(option_views(options@)),
{
    let ghost v = option_views(options@);
    let mut i: usize = 0;
    while i < options.len()
        invariant
            v == option_views(options@),
            i <= v.len(),
            forall|j: int|
                0 <= j < i ==> {
                    &&& (#[trigger] v[j]).0 == OPTION_WINDOW_SCALE ==> v[j].1.len() >= 1
                    &&& v[j].0 == OPTION_TIMESTAMPS ==> v[j].1.len() >= 8
                },
        decreases v.len() - i,
    {
        let o = &options[i];
        assert(v[i as int] == (o.number, o.data@));
        if o.number == OPTION_WINDOW_SCALE && o.data.len() < 1 {
            return false;
        }
        if o.number == OPTION_TIMESTAMPS && o.data.len() < 8 {
            return false;
        }
        i = i + 1;
    }
    true
}

/// Whether an ARP packet, if it asks for the proxy, can be answered.
fn arp_is_answerable(arp: &ArpPacket) -> (r: bool)
    ensures
        r == (asks_for_proxy(*arp) ==> arp.length == 28),
{
    !(arp.operation == ARP_REQUEST && arp.target_proto_addr == proxy_ip()) || arp.length == 28
}

impl<H: TracedStream> NetProxy<H> {
    fn accepts_tcp(&self, key: NatKey, tcp: &TcpSegment, raw: &[u8]) -> (r: bool)
        requires
            self.wf(),
            raw@.len() >= 20,
            tcp@ == segment_of(raw@),
        ensures
            r == self.takes_tcp(key, raw@),
    {
        match self.tcp_nat_table.get(&key) {
            Some(token) => match self.host_connections.get(&token.0) {
                Some(conn) => conn.accepts(&tcp.payload),
                None => {
                    assert(self.host_connections@.dom().contains(token.0));
                    false
                },
            },
            None => (tcp.flags & SYN) == 0 || options_are_complete(&parse_tcp_options(raw)),
        }
    }

    /// Whether a frame from the machine can be taken.
    pub fn accepts_frame(&self, raw_packet: &[u8]) -> (r: bool)
        requires
            self.wf(),
        ensures
            r == self.takes_frame(raw_packet@),
    {
        let eth = match parse_ethernet(raw_packet) {
            Some(e) => e,
            None => {
                return true;
            },
        };
        if eth.ethertype == ETHERTYPE_IPV4 || eth.ethertype == ETHERTYPE_IPV6 {
            let ip = match IpPacket::new(eth.payload.as_slice()) {
                Some(p) => p,
                None => {
                    return true;
                },
            };
            let payload: &[u8] = ip.payload();
            if ip.next_header() == PROTOCOL_TCP {
                match parse_tcp(payload) {
                    Some(tcp) => {
                        assert(tcp@ == segment_of(payload@));
                        self.accepts_tcp(
                            (ip.source(), tcp.source, ip.destination(), tcp.destination),
                            &tcp,
                            payload,
                        )
                    },
                    None => true,
                }
            } else if ip.next_header() == PROTOCOL_UDP {
                match parse_udp(payload) {
                    Some(_) => self.next_token < usize::MAX,
                    None => true,
                }
            } else {
                true
            }
        } else if eth.ethertype == ETHERTYPE_ARP {
            match parse_arp(eth.payload.as_slice()) {
                Some(arp) => arp_is_answerable(&arp),
                None => true,
            }
        } else {
            true
        }
    }

    /// Whether every frame that may be read next fits into this many bytes.
    pub fn fits_next(&self, room: usize) -> (r: bool)
        ensures
            r == self.next_fits(room as nat),
    {
        if self.to_vm_control_queue.len() > 0 {
            return self.to_vm_control_queue[0].len() <= room;
        }
        let tokens: Vec<usize> = crate::tables::key_list(&self.host_connections);
        let mut i: usize = 0;
        while i < tokens.len()
            invariant
                i <= tokens@.len(),
                tokens@.to_set() == self.host_connections@.dom(),
                self.queues().control.len() == 0,
                forall|j: int|
                    0 <= j < i && queued(
                        self.host_connections@[#[trigger] tokens@[j]]@,
                    ).len() > 0 ==> queued(self.host_connections@[tokens@[j]]@)[0].len() <= room,
            decreases tokens@.len() - i,
        {
            let t: usize = tokens[i];
            assert(tokens@.to_set().contains(t));
            match self.host_connections.get(&t) {
                Some(conn) => match conn.next_len() {
                    Some(n) => {
                        if n > room {
                            assert(self.host_connections@.dom().contains(t));
                            return false;
                        }
                    },
                    None => {},
                },
                None => {},
            }
            i = i + 1;
        }
        assert forall|t: usize| #[trigger]
            self.host_connections@.dom().contains(t) && queued(
                self.host_connections@[t]@,
            ).len() > 0 implies queued(self.host_connections@[t]@)[0].len() <= room by {
            assert(tokens@.to_set().contains(t));
            let j = choose|j: int| 0 <= j < tokens@.len() && tokens@[j] == t;
        }
        true
    }
}

impl<H: TracedStream> AnyConnection<H> {
    /// How long the next packet for the machine is, if there is one.
    fn next_len(&self) -> (r: Option<usize>)
        ensures
            r is Some <==> queued(self@).len() > 0,
            r matches Some(n) ==> n == queued(self@)[0].len(),
    {
        match self {
            AnyConnection::Established(c) => {
                if c.state.to_vm_buffer.len() > 0 {
                    Some(c.state.to_vm_buffer[0].len())
                } else {
                    None
                }
            },
            AnyConnection::Simple(c) => {
                if c.to_vm_buffer.len() > 0 {
                    Some(c.to_vm_buffer[0].len())
                } else {
                    None
                }
            },
            _ => None,
        }
    }
}

impl<H: TracedStream> direct_proxy::NetProxy<H> {
    /// Whether a TCP packet from the machine can be taken.
    fn accepts_tcp(&self, key: NatKey, tcp: &TcpSegment, Ghost(s): Ghost<Seq<u8>>) -> (r: bool)
        requires
            self.wf(),
            tcp@ == segment_of(s),
        ensures
            r == self.takes_tcp(key, s),
    {
        let token = match self.tcp_nat_table.get(&key) {
            Some(t) => Some(t),
            None => self.tcp_nat_table.get(&flip_key(key)),
        };
        match token {
            Some(t) => match self.host_connections.get(&t.0) {
                Some(conn) => countable(total_len(conn.write_buffer()), tcp.payload.len()),
                None => true,
            },
            None => true,
        }
    }

    /// Whether a frame from the machine can be taken.
    pub fn accepts_frame(&self, raw_packet: &[u8]) -> (r: bool)
        requires
            self.wf(),
        ensures
            r == self.takes(direct_proxy::packets::frame_view(raw_packet@)),
    {
        let eth = match parse_ethernet(raw_packet) {
            Some(e) => e,
            None => {
                return true;
            },
        };
        if eth.ethertype == ETHERTYPE_IPV4 || eth.ethertype == ETHERTYPE_IPV6 {
            let ip = match parse_ipv4(eth.payload.as_slice()) {
                Some(p) => p,
                None => {
                    return true;
                },
            };
            let payload: &[u8] = ip.payload.as_slice();
            if ip.next_level_protocol == PROTOCOL_TCP {
                match parse_tcp(payload) {
                    Some(tcp) => {
                        assert(tcp@ == segment_of(payload@));
                        let (src, dst) = (IpAddr::V4(ip.source), IpAddr::V4(ip.destination));
                        self.accepts_tcp(
                            (src, tcp.source, dst, tcp.destination),
                            &tcp,
                            Ghost(payload@),
                        )
                    },
                    None => true,
                }
            } else if ip.next_level_protocol == PROTOCOL_UDP {
                match parse_udp(payload) {
                    Some(_) => self.next_token < usize::MAX,
                    None => true,
                }
            } else {
                true
            }
        } else if eth.ethertype == ETHERTYPE_ARP {
            match parse_arp(eth.payload.as_slice()) {
                Some(arp) => arp_is_answerable(&arp),
                None => true,
            }
        } else {
            true
        }
    }

    /// How long the frame is that is read next, if there is one.
    pub fn next_frame_len(&self) -> (r: Option<usize>)
        ensures
            r is Some <==> self.next_frame() is Some,
            r matches Some(n) ==> n == self.next_frame()->0.len(),
    {
        if self.to_vm_control_queue.len() > 0 {
            return Some(self.to_vm_control_queue[0].len());
        }
        if self.data_run_queue.len() == 0 {
            return None;
        }
        match self.host_connections.get(&self.data_run_queue[0].0) {
            Some(conn) => {
                let waiting = conn.to_vm_buffer();
                if waiting.len() > 0 {
                    assert(conn@.flow.to_vm_buffer[0] == bytes_view(waiting@[0]));
                    Some(waiting[0].len())
                } else {
                    None
                }
            },
            None => None,
        }
    }
}

impl<H: TracedStream> simple_proxy::NetProxy<H> {
    /// Whether a TCP packet from the machine can be taken.
    fn accepts_tcp(&self, key: NatKey, tcp: &TcpSegment, Ghost(s): Ghost<Seq<u8>>) -> (r: bool)
        requires
            self.wf(),
            tcp@ == segment_of(s),
        ensures
            r == self.takes_tcp(key, s),
    {
        let token = match self.tcp_nat_table.get(&key) {
            Some(t) => Some(t),
            None => self.tcp_nat_table.get(&flip_key(key)),
        };
        match token {
            Some(t) => match self.host_connections.get(&t.0) {
                Some(conn) => countable(total_len(conn.write_buffer()), tcp.payload.len()),
                None => true,
            },
            None => true,
        }
    }

    /// Whether a frame from the machine can be taken.
    pub fn accepts_frame(&self, raw_packet: &[u8]) -> (r: bool)
        requires
            self.wf(),
        ensures
            r == self.takes(direct_proxy::packets::frame_view(raw_packet@)),
    {
        let eth = match parse_ethernet(raw_packet) {
            Some(e) => e,
            None => {
                return true;
            },
        };
        if eth.ethertype == ETHERTYPE_IPV4 || eth.ethertype == ETHERTYPE_IPV6 {
            let ip = match parse_ipv4(eth.payload.as_slice()) {
                Some(p) => p,
                None => {
                    return true;
                },
            };
            let payload: &[u8] = ip.payload.as_slice();
            if ip.next_level_protocol == PROTOCOL_TCP {
                match parse_tcp(payload) {
                    Some(tcp) => {
                        assert(tcp@ == segment_of(payload@));
                        let (src, dst) = (IpAddr::V4(ip.source), IpAddr::V4(ip.destination));
                        self.accepts_tcp(
                            (src, tcp.source, dst, tcp.destination),
                            &tcp,
                            Ghost(payload@),
                        )
                    },
                    None => true,
                }
            } else if ip.next_level_protocol == PROTOCOL_UDP {
                match parse_udp(payload) {
                    Some(_) => self.next_token < usize::MAX,
                    None => true,
                }
            } else {
                true
            }
        } else if eth.ethertype == ETHERTYPE_ARP {
            match parse_arp(eth.payload.as_slice()) {
                Some(arp) => arp_is_answerable(&arp),
                None => true,
            }
        } else {
            true
        }
    }
}

} // verus!
