//! What the proxy owes the machine and the host, frame by frame and event by event.
use vstd::prelude::*;

use crate::addr::{Instant, Interest, IpAddr, Ipv4Addr, MacAddr, NatKey, Token};
use crate::backend::{ReadError, WriteError};
use crate::frame_laws::{
    ethernet_reads, tcp_frame_reads_back, tcp_reads, udp_frame_reads_back, udp_reads,
};
use crate::host::{deregistered, HostCall, RegisterView, TracedStream};
use crate::packet_utils::{arp_reply_frame, ip_view, same_family, tcp_frame_window, udp_frame};
use crate::proxy::events::{carried_by, expired_prefix, handles, leaving, tokens_of};
use crate::proxy::frames::{filled, going_round, turn_start};
use crate::proxy::laws::{actions_keep_queues, removal_releases_every_stream, sends};
use crate::proxy::packets::{
    flow_of, frame_view, options_asked, segment_of, Demand, FrameView,
};
use crate::proxy::{carried_out, NetProxy, Queues, RTO_DURATION};
use crate::tcp_fsm::invariants::steps_in;
use crate::tcp_fsm::model::{
    event_step, packet_step, queued, reads_fit, retransmitted, state_takes, to_vm, writes_fit,
    EstablishedView, HostIo, SegmentView, StateView, Step,
};
use crate::tcp_laws::{carries, in_order, number_at, packet_keeps_order, steps, within_reach, Stream};
use crate::wire::{arp_of, tcp_options, tcp_payload, u16_at, u32_at, ArpPacket};

verus! {

// --- Options ---

/// Whether the option at `i` is the last with its number.
pub open spec fn is_last(v: Seq<(u8, Seq<u8>)>, i: int) -> bool {
    forall|j: int| i < j < v.len() ==> (#[trigger] v[j]).0 != v[i].0
}

/// What a SYN asks for by its options: the window scale is the byte of the last option with the
/// number 3, timestamps are the two numbers of the last option with the number 8, and selective
/// acknowledgements are permitted where an option with the number 4 is there. What no option
/// names is not asked for.
pub proof fn last_option_counts(v: Seq<(u8, Seq<u8>)>)
    ensures
        forall|i: int|
            0 <= i < v.len() && (#[trigger] v[i]).0 == 3 && is_last(v, i) ==> options_asked(
                v,
            ).window_scale == Some(v[i].1[0]),
        (forall|i: int| 0 <= i < v.len() ==> (#[trigger] v[i]).0 != 3) ==> options_asked(
            v,
        ).window_scale is None,
        options_asked(v).sack_permitted <==> exists|i: int|
            0 <= i < v.len() && (#[trigger] v[i]).0 == 4,
        forall|i: int|
            0 <= i < v.len() && (#[trigger] v[i]).0 == 8 && is_last(v, i) ==> options_asked(
                v,
            ).timestamp == Some((u32_at(v[i].1, 0), u32_at(v[i].1, 4))),
        (forall|i: int| 0 <= i < v.len() ==> (#[trigger] v[i]).0 != 8) ==> options_asked(
            v,
        ).timestamp is None,
{
    assert forall|i: int| 0 <= i < v.len() && (#[trigger] v[i]).0 == 3 && is_last(v, i) implies options_asked(
        v,
    ).window_scale == Some(v[i].1[0]) by {
        option_is_taken(v, i);
    }
    assert forall|i: int| 0 <= i < v.len() && (#[trigger] v[i]).0 == 8 && is_last(v, i) implies options_asked(
        v,
    ).timestamp == Some((u32_at(v[i].1, 0), u32_at(v[i].1, 4))) by {
        option_is_taken(v, i);
    }
    if exists|i: int| 0 <= i < v.len() && (#[trigger] v[i]).0 == 4 {
        let i = choose|i: int| 0 <= i < v.len() && (#[trigger] v[i]).0 == 4;
        permission_is_taken(v, i);
    }
    absent_options_are_not_asked(v);
}

/// The last option with its number sets what it names.
proof fn option_is_taken(v: Seq<(u8, Seq<u8>)>, i: int)
    requires
        0 <= i < v.len(),
        is_last(v, i),
    ensures
        v[i].0 == 3 ==> options_asked(v).window_scale == Some(v[i].1[0]),
        v[i].0 == 8 ==> options_asked(v).timestamp == Some(
            (u32_at(v[i].1, 0), u32_at(v[i].1, 4)),
        ),
    decreases v.len(),
{
    let w = v.drop_last();
    if i < w.len() {
        assert(v[v.len() - 1].0 != v[i].0);
        assert forall|j: int| i < j < w.len() implies (#[trigger] w[j]).0 != w[i].0 by {
            assert(v[j].0 != v[i].0);
        }
        option_is_taken(w, i);
    }
}

/// An option that permits selective acknowledgements is not overruled.
proof fn permission_is_taken(v: Seq<(u8, Seq<u8>)>, i: int)
    requires
        0 <= i < v.len(),
        v[i].0 == 4,
    ensures
        options_asked(v).sack_permitted,
    decreases v.len(),
{
    if i < v.len() - 1 {
        permission_is_taken(v.drop_last(), i);
    }
}

/// What no option names is not asked for.
proof fn absent_options_are_not_asked(v: Seq<(u8, Seq<u8>)>)
    ensures
        (forall|i: int| 0 <= i < v.len() ==> (#[trigger] v[i]).0 != 3) ==> options_asked(
            v,
        ).window_scale is None,
        (forall|i: int| 0 <= i < v.len() ==> (#[trigger] v[i]).0 != 4) ==> !options_asked(
            v,
        ).sack_permitted,
        (forall|i: int| 0 <= i < v.len() ==> (#[trigger] v[i]).0 != 8) ==> options_asked(
            v,
        ).timestamp is None,
    decreases v.len(),
{
    if v.len() > 0 {
        let w = v.drop_last();
        absent_options_are_not_asked(w);
        assert(v.last() == v[v.len() - 1]);
        assert(forall|i: int| 0 <= i < w.len() ==> #[trigger] w[i] == v[i]);
    }
}

// --- What a frame is taken for ---

/// A frame is looked into by its type: IP packets by what they carry, ARP packets whole. What is
/// too short for its type is not read.
pub proof fn frames_are_told_apart(raw: Seq<u8>)
    ensures
        raw.len() < 14 ==> frame_view(raw) is Unreadable,
        raw.len() >= 14 ==> {
            let kind = u16_at(raw, 12);
            let body = raw.skip(14);
            &&& kind == 0x0806 && body.len() >= 28 ==> frame_view(raw) == FrameView::Arp(
                arp_of(body),
            )
            &&& kind == 0x0806 && body.len() < 28 ==> frame_view(raw) is Unreadable
            &&& kind == 0x0800 || kind == 0x86dd ==> match ip_view(body) {
                None => frame_view(raw) is Unreadable,
                Some(ip) => {
                    if ip.protocol == 6 && ip.payload.len() >= 20 {
                        frame_view(raw) == FrameView::Tcp(ip.source, ip.destination, ip.payload)
                    } else if ip.protocol == 17 && ip.payload.len() >= 8 {
                        frame_view(raw) == FrameView::Udp(ip.source, ip.destination, ip.payload)
                    } else {
                        frame_view(raw) is Other
                    }
                },
            }
            &&& kind != 0x0806 && kind != 0x0800 && kind != 0x86dd ==> frame_view(raw) is Other
        },
{
}

/// A TCP frame along a flow, put together from its parts, is taken apart into the same parts.
pub proof fn tcp_frame_is_understood(
    key: NatKey,
    sequence: u32,
    acknowledgement: u32,
    payload: Seq<u8>,
    flags: u8,
    window: u16,
    src_mac: MacAddr,
    dst_mac: MacAddr,
)
    requires
        same_family(key),
        payload.len() <= 0xffff - 40,
    ensures
        ({
            let frame = tcp_frame_window(
                key,
                sequence,
                acknowledgement,
                payload,
                flags,
                window,
                src_mac,
                dst_mac,
            );
            &&& frame_view(frame) matches FrameView::Tcp(src, dst, s)
            &&& flow_of(src, dst, s) == key
            &&& segment_of(s) == SegmentView {
                source: key.1,
                destination: key.3,
                sequence,
                acknowledgement,
                flags,
                window,
                payload,
            }
        }),
{
    reveal(tcp_reads);
    reveal(ethernet_reads);
    tcp_frame_reads_back(
        key,
        sequence,
        acknowledgement,
        payload,
        flags,
        window,
        src_mac,
        dst_mac,
    );
}

/// A UDP frame along a flow, put together from its parts, is taken apart into the same parts.
pub proof fn udp_frame_is_understood(
    key: NatKey,
    payload: Seq<u8>,
    src_mac: MacAddr,
    dst_mac: MacAddr,
)
    requires
        same_family(key),
        payload.len() <= 0xffff - 28,
    ensures
        ({
            let frame = udp_frame(key, payload, src_mac, dst_mac);
            &&& frame_view(frame) matches FrameView::Udp(src, dst, s)
            &&& flow_of(src, dst, s) == key
            &&& s.skip(8) == payload
        }),
{
    reveal(udp_reads);
    reveal(ethernet_reads);
    udp_frame_reads_back(key, payload, src_mac, dst_mac);
}

// --- Frames from the machine ---

/// The two hardware addresses that a frame to the machine goes between.
pub open spec fn host_mac() -> MacAddr {
    MacAddr(0x02, 0x00, 0x00, 0x01, 0x02, 0x03)
}

pub open spec fn machine_mac() -> MacAddr {
    MacAddr(0xde, 0xad, 0xbe, 0xef, 0x00, 0x00)
}

/// A TCP packet of a flow that is not known: a SYN asks the host for a connection to where it
/// goes, with the machine's number and options, and anything else is refused at once by one
/// reset, from where it went, that acknowledges all of it. Neither touches a connection.
pub proof fn unknown_flow_is_opened_or_refused<H: TracedStream>(
    p: &NetProxy<H>,
    after: &NetProxy<H>,
    src: IpAddr,
    dst: IpAddr,
    s: Seq<u8>,
    now: Instant,
    r: Result<Demand, WriteError>,
)
    requires
        p.frame_result(after, FrameView::Tcp(src, dst, s), now, r),
        !p.tcp_nat_table@.dom().contains((src, u16_at(s, 0), dst, u16_at(s, 2))),
    ensures
        ({
            let key = (src, u16_at(s, 0), dst, u16_at(s, 2));
            &&& s[13] & 0x02 != 0 ==> {
                &&& r matches Ok(Demand::Connect { nat_key, sequence, options })
                &&& nat_key == key
                &&& sequence == u32_at(s, 4)
                &&& options == options_asked(tcp_options(s))
                &&& after.queues() == p.queues()
            }
            &&& s[13] & 0x02 == 0 ==> {
                &&& r matches Ok(Demand::Nothing)
                &&& after.queues().control == p.queues().control.push(
                    tcp_frame_window(
                        (dst, key.3, src, key.1),
                        u32_at(s, 8),
                        number_at(u32_at(s, 4), tcp_payload(s).len() as int),
                        Seq::empty(),
                        0x14,
                        0xffff,
                        host_mac(),
                        machine_mac(),
                    ),
                )
                &&& after.queues().removals == p.queues().removals
                &&& after.queues().time_wait == p.queues().time_wait
            }
            &&& after.host_connections@ == p.host_connections@
            &&& after.tcp_nat_table@ == p.tcp_nat_table@
            &&& after.udp@ == p.udp@
        }),
{
}

/// A TCP packet of a known flow goes to the connection of that flow and to no other: that
/// connection takes the step that the packet asks for, and the frames that it sends are queued
/// for the machine in their order, behind all others.
#[verifier::rlimit(60)]
pub proof fn known_flow_takes_its_packet<H: TracedStream>(
    p: &NetProxy<H>,
    after: &NetProxy<H>,
    src: IpAddr,
    dst: IpAddr,
    s: Seq<u8>,
    now: Instant,
    r: Result<Demand, WriteError>,
)
    requires
        p.wf(),
        p.frame_result(after, FrameView::Tcp(src, dst, s), now, r),
        p.tcp_nat_table@.dom().contains((src, u16_at(s, 0), dst, u16_at(s, 2))),
        p.queues().removals.no_duplicates(),
    ensures
        ({
            let key = (src, u16_at(s, 0), dst, u16_at(s, 2));
            let t = p.tcp_nat_table@[key].0;
            let said = SegmentView {
                source: u16_at(s, 0),
                destination: u16_at(s, 2),
                sequence: u32_at(s, 4),
                acknowledgement: u32_at(s, 8),
                flags: s[13],
                window: u16_at(s, 14),
                payload: tcp_payload(s),
            };
            let (next, action) = packet_step(
                key,
                p.host_connections@[t]@,
                said,
                host_mac(),
                machine_mac(),
                now,
            );
            &&& r matches Ok(Demand::Nothing)
            &&& p.host_connections@.dom().contains(t)
            &&& after.host_connections@.dom() == p.host_connections@.dom()
            &&& after.host_connections@[t]@ == next
            &&& after.host_connections@[t].key() == key
            &&& after.queues().control == p.queues().control + sends(steps(action))
            &&& forall|u: usize| #[trigger]
                p.host_connections@.dom().contains(u) && u != t ==> after.host_connections@[u]
                    == p.host_connections@[u]
            &&& after.tcp_nat_table@ == p.tcp_nat_table@
            &&& after.udp@ == p.udp@
        }),
{
    let key = (src, u16_at(s, 0), dst, u16_at(s, 2));
    let token = p.tcp_nat_table@[key];
    let conn = p.host_connections@[token.0];
    let said = segment_of(s);
    assert(p.reverse_tcp_nat@.dom().contains(token.0));
    assert(p.host_connections@.dom().contains(token.0));
    assert(conn.key() == key);
    let (next, action) = packet_step(key, conn@, said, host_mac(), machine_mac(), now);
    let calls = choose|calls: Seq<HostCall>| #[trigger]
        carried_out(p.queues(), token, Some(next), steps(action), calls, now, after.queues())
            && after.host_connections@[token.0].host().calls() == conn.host().calls() + calls;
    assert(steps_in(action) == steps(action));
    actions_keep_queues(
        p.queues(),
        token,
        Some(next),
        steps(action),
        calls,
        now,
        after.queues(),
    );
}

/// A packet with data on an established connection is answered by exactly one frame: the
/// acknowledgement of all that has come in turn, from where the packet went.
#[verifier::rlimit(60)]
pub proof fn data_is_acknowledged<H: TracedStream>(
    p: &NetProxy<H>,
    after: &NetProxy<H>,
    src: IpAddr,
    dst: IpAddr,
    s: Seq<u8>,
    m: Stream,
    v: EstablishedView,
    given: Seq<u8>,
    n: int,
    at: Map<u32, int>,
    off: int,
    now: Instant,
    r: Result<Demand, WriteError>,
) -> (reached: int)
    requires
        p.wf(),
        p.frame_result(after, FrameView::Tcp(src, dst, s), now, r),
        p.tcp_nat_table@.dom().contains((src, u16_at(s, 0), dst, u16_at(s, 2))),
        p.queues().removals.no_duplicates(),
        p.host_connections@[p.tcp_nat_table@[(src, u16_at(s, 0), dst, u16_at(s, 2))].0]@
            == StateView::Established(v),
        in_order(m, v, given, n, at),
        within_reach(v, n, at),
        s[13] & 0x04 == 0,
        s[13] & 0x01 == 0,
        0 < tcp_payload(s).len() < 0x4000_0000,
        carries(m, off, tcp_payload(s)),
        n - 0x8000_0000 < off < n + 0x8000_0000,
        u32_at(s, 4) == number_at(m.start, off),
    ensures
        n <= reached,
        off == n && !v.vm_reads_paused ==> n + tcp_payload(s).len() <= reached,
        after.queues().control == p.queues().control.push(
            to_vm(
                (src, u16_at(s, 0), dst, u16_at(s, 2)),
                v.tx_seq,
                number_at(m.start, reached),
                Seq::empty(),
                0x10,
                host_mac(),
                machine_mac(),
            ),
        ),
{
    known_flow_takes_its_packet(p, after, src, dst, s, now, r);
    let key = (src, u16_at(s, 0), dst, u16_at(s, 2));
    let said = segment_of(s);
    let (reached, _) = packet_keeps_order(
        key,
        m,
        v,
        given,
        n,
        at,
        off,
        said,
        host_mac(),
        machine_mac(),
        now,
    );
    let action = packet_step(key, StateView::Established(v), said, host_mac(), machine_mac(), now).1;
    let q = steps(action);
    sends_are_filtered(q);
    let one = to_vm(
        key,
        v.tx_seq,
        number_at(m.start, reached),
        Seq::empty(),
        0x10,
        host_mac(),
        machine_mac(),
    );
    assert(sends(q) =~= seq![one]);
    reached
}

/// The frames that steps send are those of the steps that send, in order.
proof fn sends_are_filtered(q: Seq<Step>)
    ensures
        sends(q).len() == q.filter(|s: Step| s is Send).len(),
        forall|i: int|
            0 <= i < sends(q).len() ==> q.filter(|s: Step| s is Send)[i] == Step::Send(
                #[trigger] sends(q)[i],
            ),
    decreases q.len(),
{
    let f = |s: Step| s is Send;
    if q.len() > 0 {
        let first = seq![q[0]];
        let rest = q.skip(1);
        sends_are_filtered(rest);
        assert(q =~= first + rest);
        Seq::filter_distributes_over_add(first, rest, f);
        reveal_with_fuel(Seq::<Step>::filter, 2);
        assert(first.drop_last() =~= Seq::<Step>::empty());
        if q[0] is Send {
            assert(first.filter(f) =~= first);
        } else {
            assert(first.filter(f) =~= Seq::<Step>::empty());
        }
    } else {
        reveal_with_fuel(Seq::<Step>::filter, 1);
    }
}

/// An ARP packet is answered exactly where it is a request for the proxy's own address, by one
/// reply that gives the proxy's hardware address.
pub proof fn only_own_address_is_answered<H: TracedStream>(
    p: &NetProxy<H>,
    after: &NetProxy<H>,
    a: ArpPacket,
    now: Instant,
    r: Result<Demand, WriteError>,
)
    requires
        p.frame_result(after, FrameView::Arp(a), now, r),
    ensures
        ({
            let asked = a.operation == 1 && a.target_proto_addr == Ipv4Addr(192, 168, 100, 1);
            &&& asked ==> {
                &&& r matches Ok(Demand::Nothing)
                &&& after.queues().control == p.queues().control.push(
                    arp_reply_frame(a, host_mac(), Ipv4Addr(192, 168, 100, 1)),
                )
            }
            &&& !asked ==> {
                &&& r matches Err(WriteError::NothingWritten)
                &&& after.queues().control == p.queues().control
            }
            &&& after.host_connections@ == p.host_connections@
        }),
{
}

/// Every datagram of the machine is to be sent, with its payload, to where it goes. The first of
/// a flow opens a socket under a number that nothing has yet, and every later one uses that
/// socket, for as long as the flow is known.
#[verifier::rlimit(60)]
pub proof fn datagrams_share_the_socket_of_their_flow<H: TracedStream>(
    p: &NetProxy<H>,
    between: &NetProxy<H>,
    after: &NetProxy<H>,
    src: IpAddr,
    dst: IpAddr,
    s: Seq<u8>,
    again: Seq<u8>,
    now: Instant,
    later: Instant,
    first: Result<Demand, WriteError>,
    second: Result<Demand, WriteError>,
)
    requires
        p.wf(),
        p.frame_result(between, FrameView::Udp(src, dst, s), now, first),
        between.frame_result(after, FrameView::Udp(src, dst, again), later, second),
        u16_at(again, 0) == u16_at(s, 0),
        u16_at(again, 2) == u16_at(s, 2),
    ensures
        ({
            let key = (src, u16_at(s, 0), dst, u16_at(s, 2));
            let known = p.udp@.flows.dom().contains(key);
            &&& first matches Ok(Demand::SendUdp { token, nat_key, payload, open })
            &&& second matches Ok(Demand::SendUdp { token: t2, nat_key: k2, payload: p2, open: o2 })
            &&& nat_key == key && k2 == key
            &&& payload@ == s.skip(8) && p2@ == again.skip(8)
            &&& open == !known && !o2
            &&& t2 == token
            &&& known ==> token == p.udp@.flows[key] && between.next_token == p.next_token
            &&& after.next_token == between.next_token
            &&& !known ==> {
                &&& token == Token(p.next_token)
                &&& between.next_token == p.next_token + 1
                &&& !p.host_connections@.dom().contains(token.0)
                &&& !p.unix_listeners@.dom().contains(token.0)
                &&& forall|k: NatKey| #[trigger]
                    p.udp@.flows.dom().contains(k) ==> p.udp@.flows[k] != token
                &&& between.udp@.reverse[token.0] == key
                &&& between.udp@.sockets[token.0] == now
            }
            &&& after.queues() == p.queues()
            &&& after.host_connections@ == p.host_connections@
        }),
{
}

/// Every frame of the machine counts once, with its length, and a report is due once five
/// seconds have passed since the last.
pub proof fn frames_in_are_counted<H: TracedStream>(p: &NetProxy<H>, n: nat, now: Instant)
    requires
        p.stats.packets_in < u64::MAX,
        p.stats.bytes_in + n <= u64::MAX,
    ensures
        ({
            let q = p.counted_in(n, now);
            &&& q.stats.packets_in == p.stats.packets_in + 1
            &&& q.stats.bytes_in == p.stats.bytes_in + n
            &&& q.stats.packets_out == p.stats.packets_out
            &&& q.stats.bytes_out == p.stats.bytes_out
            &&& q.stats_last_report == if now - p.stats_last_report >= 5_000_000_000 {
                now
            } else {
                p.stats_last_report
            }
        }),
{
}

// --- Frames to the machine ---

/// Reading hands out exactly one frame wherever there is one: the first of the control queue,
/// or, where that is empty, the first of some connection. It stands at the start of the buffer,
/// it leaves its queue, every other frame stays, and it is counted with its length. Nothing is
/// read only where nothing waits.
#[verifier::rlimit(60)]
pub proof fn reading_hands_out_one_frame<H: TracedStream>(
    p: &NetProxy<H>,
    after: &NetProxy<H>,
    buf: Seq<u8>,
    buf_after: Seq<u8>,
    now: Instant,
    r: Result<usize, ReadError>,
)
    requires
        p.wf(),
        p.next_fits(buf.len()),
        p.stats.packets_out < u64::MAX,
        p.stats.bytes_out + buf.len() <= u64::MAX,
        p.frame_read(after, buf, buf_after, now, r),
    ensures
        buf_after.len() == buf.len(),
        r is Ok <==> p.queues().control.len() > 0 || exists|t: usize| #[trigger]
            p.host_connections@.dom().contains(t) && queued(p.host_connections@[t]@).len() > 0,
        r matches Ok(n) ==> {
            let frame = buf_after.take(n as int);
            &&& n <= buf.len()
            &&& after.stats.packets_out == p.stats.packets_out + 1
            &&& after.stats.bytes_out == p.stats.bytes_out + n
            &&& p.queues().control.len() > 0 ==> {
                &&& p.queues().control == seq![frame] + after.queues().control
                &&& after.host_connections@ == p.host_connections@
            }
            &&& p.queues().control.len() == 0 ==> {
                &&& after.queues().control.len() == 0
                &&& after.host_connections@.dom() == p.host_connections@.dom()
                &&& exists|t: usize|
                    {
                        &&& #[trigger] p.host_connections@.dom().contains(t)
                        &&& queued(p.host_connections@[t]@) == seq![frame] + queued(
                            after.host_connections@[t]@,
                        )
                        &&& forall|u: usize| #[trigger]
                            p.host_connections@.dom().contains(u) && u != t
                                ==> after.host_connections@[u] == p.host_connections@[u]
                    }
            }
        },
        r is Err ==> {
            &&& buf_after == buf
            &&& after.host_connections@ == p.host_connections@
            &&& after.queues() == p.queues()
        },
{
    if p.queues().control.len() > 0 {
        let frame = p.queues().control[0];
        assert(buf_after.take(frame.len() as int) =~= frame);
        assert(p.queues().control =~= seq![frame] + p.queues().control.skip(1));
    } else if exists|t: usize| p.has_packet(t) {
        let t = choose|t: usize| #[trigger]
            p.packet_taken(after, t, now) && ({
                let frame = queued(p.host_connections@[t]@)[0];
                &&& r matches Ok(n) && n == frame.len()
                &&& buf_after == filled(buf, frame)
                &&& after.queues() == p.queues()
                &&& after.same_tables(
                    &NetProxy { stats: p.counted_out(frame.len()), ..*p },
                )
            });
        let q = queued(p.host_connections@[t]@);
        assert(p.host_connections@.dom().contains(t));
        assert(buf_after.take(q[0].len() as int) =~= q[0]);
        assert(queued(after.host_connections@[t]@) =~= q.skip(1));
        assert(q =~= seq![q[0]] + q.skip(1));
        assert(after.host_connections@.dom() =~= p.host_connections@.dom());
        assert(queued(p.host_connections@[t]@).len() > 0);
    } else {
        assert forall|t: usize| #[trigger] p.host_connections@.dom().contains(t) implies queued(
            p.host_connections@[t]@,
        ).len() == 0 by {
            assert(!p.has_packet(t));
        }
    }
}

/// The machine is told that there is something to read exactly where there is: a frame in the
/// control queue, or a packet of some connection.
pub proof fn wake_tells_of_frames<H: TracedStream>(
    p: &NetProxy<H>,
    after: &NetProxy<H>,
    buf: Seq<u8>,
    buf_after: Seq<u8>,
    now: Instant,
    r: Result<usize, ReadError>,
)
    requires
        p.frame_read(after, buf, buf_after, now, r),
    ensures
        p.has_frames() <==> r is Ok,
{
    if p.has_frames() && p.queues().control.len() == 0 {
        let t = choose|t: usize| #[trigger]
            p.host_connections@.dom().contains(t) && queued(p.host_connections@[t]@).len() > 0;
        assert(p.has_packet(t));
    }
    if exists|t: usize| p.has_packet(t) {
        let t = choose|t: usize| p.has_packet(t);
        assert(p.host_connections@.dom().contains(t));
    }
}

/// A read by turns hands out exactly one frame, which stands at the start of the buffer and
/// leaves its queue; the control queue goes first, and nothing is read only where nothing waits.
#[verifier::rlimit(60)]
pub proof fn turn_hands_out_one_frame<H: TracedStream>(
    p: &NetProxy<H>,
    after: &NetProxy<H>,
    buf: Seq<u8>,
    buf_after: Seq<u8>,
    now: Instant,
    r: Result<usize, ReadError>,
    order: Seq<usize>,
)
    requires
        p.next_fits(buf.len()),
        p.frame_read_in_turn(after, buf, buf_after, now, r, order),
    ensures
        r is Ok <==> p.queues().control.len() > 0 || exists|t: usize| #[trigger] p.has_packet(t),
        r matches Ok(n) ==> {
            let frame = buf_after.take(n as int);
            &&& n <= buf.len()
            &&& p.queues().control.len() > 0 ==> p.queues().control == seq![frame]
                + after.queues().control
            &&& p.queues().control.len() == 0 ==> after.queues().control.len() == 0
                && exists|t: usize|
                {
                    &&& #[trigger] p.host_connections@.dom().contains(t)
                    &&& queued(p.host_connections@[t]@) == seq![frame] + queued(
                        after.host_connections@[t]@,
                    )
                }
        },
        r is Err ==> buf_after == buf && after.host_connections@ == p.host_connections@
            && after.queues() == p.queues(),
{
    if p.queues().control.len() > 0 {
        let frame = p.queues().control[0];
        assert(buf_after.take(frame.len() as int) =~= frame);
        assert(p.queues().control =~= seq![frame] + p.queues().control.skip(1));
    } else if let Ok(len) = r {
        let n = order.len() as int;
        let s0 = turn_start(p.last_data_token_idx as int, n);
        let i = choose|i: int| #[trigger]
            p.turn_of(after, order, s0, i, now) && len == queued(
                p.host_connections@[order[going_round(s0, i, n)]]@,
            )[0].len() && buf_after == filled(
                buf,
                queued(p.host_connections@[order[going_round(s0, i, n)]]@)[0],
            );
        let t = order[going_round(s0, i, n)];
        let q = queued(p.host_connections@[t]@);
        assert(p.has_packet(t));
        assert(p.host_connections@.dom().contains(t));
        assert(buf_after.take(q[0].len() as int) =~= q[0]);
        assert(queued(after.host_connections@[t]@) =~= q.skip(1));
        assert(q =~= seq![q[0]] + q.skip(1));
    }
}

/// Whether a read handed out a packet of this connection.
pub open spec fn served<H: TracedStream>(
    p: &NetProxy<H>,
    after: &NetProxy<H>,
    t: usize,
) -> bool {
    &&& p.host_connections@.dom().contains(t)
    &&& queued(p.host_connections@[t]@).len() > queued(after.host_connections@[t]@).len()
}

/// Going round by `i` from `start`.
proof fn round_is_modulo(start: int, i: int, n: int)
    requires
        0 <= start < n,
        0 <= i < n,
    ensures
        going_round(start, i, n) == (start + i) % n,
        0 <= going_round(start, i, n) < n,
{
    vstd::arithmetic::div_mod::lemma_fundamental_div_mod_converse(
        start + i,
        n,
        if start + i < n {
            0int
        } else {
            1int
        },
        going_round(start, i, n),
    );
}

/// Connections take turns: of two reads in a row that hand out packets of connections, while the
/// connections are gone through in the same order, the second serves another connection than the
/// first, if another has a packet.
#[verifier::rlimit(60)]
pub proof fn connections_take_turns<H: TracedStream>(
    p: &NetProxy<H>,
    mid: &NetProxy<H>,
    after: &NetProxy<H>,
    order: Seq<usize>,
    buf: Seq<u8>,
    buf_mid: Seq<u8>,
    buf_after: Seq<u8>,
    now: Instant,
    later: Instant,
    first: usize,
    second: usize,
    t: usize,
    other: usize,
)
    requires
        p.frame_read_in_turn(mid, buf, buf_mid, now, Ok(first), order),
        mid.frame_read_in_turn(after, buf_mid, buf_after, later, Ok(second), order),
        p.queues().control.len() == 0,
        served(p, mid, t),
        other != t,
        mid.has_packet(other),
    ensures
        !served(mid, after, t),
{
    let n = order.len() as int;
    let s0 = turn_start(p.last_data_token_idx as int, n);
    let i = choose|i: int| #[trigger]
        p.turn_of(mid, order, s0, i, now) && first == queued(
            p.host_connections@[order[going_round(s0, i, n)]]@,
        )[0].len() && buf_mid == filled(
            buf,
            queued(p.host_connections@[order[going_round(s0, i, n)]]@)[0],
        );
    let a = going_round(s0, i, n);
    round_is_modulo(s0, i, n);
    assert(order[a] == t) by {
        if order[a] != t {
            assert(mid.host_connections@[t] == p.host_connections@[t]);
        }
    }
    let s1 = turn_start(mid.last_data_token_idx as int, n);
    round_is_modulo(a, if n > 1 {
        1int
    } else {
        0int
    }, n);
    let j = choose|j: int| #[trigger]
        mid.turn_of(after, order, s1, j, later) && second == queued(
            mid.host_connections@[order[going_round(s1, j, n)]]@,
        )[0].len() && buf_after == filled(
            buf_mid,
            queued(mid.host_connections@[order[going_round(s1, j, n)]]@)[0],
        );
    let b = going_round(s1, j, n);
    round_is_modulo(s1, j, n);
    assert(order.to_set().contains(other)) by {
        assert(mid.host_connections@.dom().contains(other));
    }
    let k = choose|k: int| 0 <= k < n && order[k] == other;
    assert(k != a);
    assert(n > 1);
    assert(s1 == (a + 1) % n);
    if served(mid, after, t) {
        assert(b == a) by {
            if order[b] != t {
                assert(after.host_connections@[t] == mid.host_connections@[t]);
            }
        }
        let d: int = if k >= s1 {
            k - s1
        } else {
            k - s1 + n
        };
        round_is_modulo(s1, d, n);
        assert(going_round(s1, d, n) == k);
        assert(going_round(s1, n - 1, n) == a);
        assert(j == n - 1);
        assert(d < j);
        assert(!mid.has_packet(order[going_round(s1, d, n)]));
    }
}

/// A frame of the machine is turned away only for a reason: a request for the proxy's hardware
/// address that is not of the right length, a packet that its connection has no room for, a SYN
/// whose options lack data, or a datagram when there are no numbers left for sockets.
pub proof fn frames_are_turned_away_for_a_reason<H: TracedStream>(p: &NetProxy<H>, raw: Seq<u8>)
    requires
        !p.takes_frame(raw),
    ensures
        match frame_view(raw) {
            FrameView::Arp(a) => a.operation == 1 && a.target_proto_addr == Ipv4Addr(
                192,
                168,
                100,
                1,
            ) && a.length != 28,
            FrameView::Tcp(src, dst, s) => {
                let key = (src, u16_at(s, 0), dst, u16_at(s, 2));
                if p.tcp_nat_table@.dom().contains(key) {
                    !state_takes(
                        p.host_connections@[p.tcp_nat_table@[key].0]@,
                        tcp_payload(s),
                    )
                } else {
                    s[13] & 0x02 != 0 && exists|i: int|
                        {
                            let o = #[trigger] tcp_options(s)[i];
                            &&& 0 <= i < tcp_options(s).len()
                            &&& (o.0 == 3 && o.1.len() == 0) || (o.0 == 8 && o.1.len() < 8)
                        }
                }
            },
            FrameView::Udp(..) => p.next_token == usize::MAX,
            _ => false,
        },
{
}

// --- Actions ---

/// What one action does: a frame goes to the end of the control queue, a registration is
/// changed by one call and has the connection removed where that fails, a connection that
/// enters its last wait is unregistered and kept for sixty seconds, and one that is over is to
/// be removed. Nothing else is queued and no other call is made.
#[verifier::rlimit(60)]
pub proof fn each_action_is_done(
    before: Queues,
    token: Token,
    st: StateView,
    s: Step,
    calls: Seq<HostCall>,
    now: Instant,
    after: Queues,
)
    requires
        carried_out(before, token, Some(st), seq![s], calls, now, after),
        now <= u64::MAX - 60_000_000_000,
    ensures
        match s {
            Step::Send(frame) => {
                &&& calls.len() == 0
                &&& after == Queues { control: before.control.push(frame), ..before }
            },
            Step::Reregister(i) => {
                &&& calls.len() == 1
                &&& calls[0] matches HostCall::Reregister { token: t, interest, came }
                &&& t == token && interest == i
                &&& came is Done ==> after == before
                &&& !(came is Done) ==> after.removals.contains(token) && after.control
                    == before.control && after.time_wait == before.time_wait
            },
            Step::Deregister => calls.len() == 1 && calls[0] is Deregister && after == before,
            Step::ShutdownHostWrite => {
                &&& after == before
                &&& if st is Established || st is Simple {
                    calls.len() == 1 && calls[0] is ShutdownWrite
                } else {
                    calls.len() == 0
                }
            },
            Step::EnterTimeWait => {
                &&& calls.len() == 1
                &&& calls[0] is Deregister
                &&& after.time_wait == before.time_wait.push(
                    ((now + 60_000_000_000) as u64, token),
                )
                &&& after.control == before.control
                &&& after.removals == before.removals
            },
            Step::ScheduleRemoval => {
                &&& calls.len() == 0
                &&& after.removals.contains(token)
                &&& forall|t: Token| #[trigger]
                    after.removals.contains(t) && t != token ==> before.removals.contains(t)
                &&& forall|t: Token| #[trigger]
                    before.removals.contains(t) ==> after.removals.contains(t)
                &&& after.control == before.control
                &&& after.time_wait == before.time_wait
            },
            _ => calls.len() == 0 && after == before,
        },
{
    reveal_with_fuel(carried_out, 3);
    assert(seq![s].skip(1) =~= Seq::<Step>::empty());
    let pushed = before.removals.push(token);
    assert(pushed[before.removals.len() as int] == token);
    assert forall|t: Token| before.removals.contains(t) implies #[trigger] pushed.contains(t) by {
        let i = choose|i: int| 0 <= i < before.removals.len() && before.removals[i] == t;
        assert(pushed[i] == t);
    }
    if calls.len() > 0 {
        assert(calls.skip(1).len() == calls.len() - 1);
    }
}

// --- Events ---

/// The datagrams that come with an event of a UDP socket reach the machine: the first sixteen of
/// them, all where there are no more, are queued behind all other frames, in their order, each
/// with its payload, from the far end of the socket's flow to the machine's. The socket counts
/// as used where any came.
#[verifier::rlimit(60)]
pub proof fn datagrams_reach_the_machine<H: TracedStream>(
    p: &NetProxy<H>,
    after: &NetProxy<H>,
    token: Token,
    is_readable: bool,
    is_writable: bool,
    accepted: Option<H>,
    datagrams: Seq<Vec<u8>>,
    now: Instant,
    registered: bool,
)
    requires
        p.event_handled(
            after,
            token,
            is_readable,
            is_writable,
            accepted,
            datagrams,
            now,
            registered,
        ),
        !p.unix_listeners@.dom().contains(token.0),
        !p.host_connections@.dom().contains(token.0),
        p.udp@.sockets.dom().contains(token.0),
    ensures
        ({
            let key = p.udp@.reverse[token.0];
            let n: int = if datagrams.len() <= 16 {
                datagrams.len() as int
            } else {
                16
            };
            let old_len = p.queues().control.len() as int;
            let q = after.queues().control;
            &&& q.len() == old_len + n
            &&& q.take(old_len) == p.queues().control
            &&& forall|i: int|
                0 <= i < n ==> #[trigger] q[old_len + i] == udp_frame(
                    (key.2, key.3, key.0, key.1),
                    datagrams[i]@,
                    host_mac(),
                    machine_mac(),
                )
            &&& after.queues().removals == p.queues().removals
            &&& after.queues().time_wait == p.queues().time_wait
            &&& after.host_connections@ == p.host_connections@
            &&& after.udp@.flows == p.udp@.flows
            &&& after.udp@.reverse == p.udp@.reverse
            &&& after.next_token == p.next_token
            &&& after.tcp_nat_table@ == p.tcp_nat_table@
            &&& after.udp@.sockets == if n > 0 {
                p.udp@.sockets.insert(token.0, now)
            } else {
                p.udp@.sockets
            }
        }),
{
    let old_len = p.queues().control.len() as int;
    assert(after.queues().control.take(old_len) =~= p.queues().control);
}

/// An event of a connection goes to that connection and to no other: the connection takes the
/// step that the event asks for, given what the host did, and what it sends is queued for the
/// machine in its order, behind all else. The stream saw the reads, then the writes, then what
/// the step asked for.
#[verifier::rlimit(60)]
pub proof fn event_goes_to_its_connection<H: TracedStream>(
    p: &NetProxy<H>,
    after: &NetProxy<H>,
    token: Token,
    is_readable: bool,
    is_writable: bool,
    accepted: Option<H>,
    datagrams: Seq<Vec<u8>>,
    now: Instant,
    registered: bool,
)
    requires
        p.wf(),
        p.event_handled(
            after,
            token,
            is_readable,
            is_writable,
            accepted,
            datagrams,
            now,
            registered,
        ),
        !p.unix_listeners@.dom().contains(token.0),
        p.host_connections@.dom().contains(token.0),
        p.queues().removals.no_duplicates(),
    ensures
        ({
            let t = token.0;
            let was = p.host_connections@[t];
            &&& after.host_connections@.dom() == p.host_connections@.dom()
            &&& exists|io: HostIo|
                {
                    let (next, action) = #[trigger] event_step(
                        p.reverse_tcp_nat@[t],
                        was@,
                        is_readable,
                        is_writable,
                        io,
                        host_mac(),
                        machine_mac(),
                        now,
                    );
                    &&& reads_fit(was@, is_readable, io)
                    &&& writes_fit(was@, is_readable, is_writable, io)
                    &&& after.host_connections@[t]@ == next
                    &&& after.queues().control == p.queues().control + sends(steps(action))
                    &&& (was.host().calls() + io.reads + io.writes + io.again).is_prefix_of(
                        after.host_connections@[t].host().calls(),
                    )
                }
            &&& after.host_connections@[t].key() == was.key()
            &&& forall|u: usize| #[trigger]
                p.host_connections@.dom().contains(u) && u != t ==> after.host_connections@[u]
                    == p.host_connections@[u]
            &&& after.tcp_nat_table@ == p.tcp_nat_table@
            &&& after.udp@ == p.udp@
        }),
{
    let t = token.0;
    let was = p.host_connections@[t];
    let (io, calls) = choose|io: HostIo, calls: Seq<HostCall>| #[trigger]
        p.event_taken(after, token, is_readable, is_writable, now, io, calls);
    let (next, action) = event_step(
        p.reverse_tcp_nat@[t],
        was@,
        is_readable,
        is_writable,
        io,
        host_mac(),
        machine_mac(),
        now,
    );
    assert(was.key() == p.reverse_tcp_nat@[t]);
    assert(steps_in(action) == steps(action));
    actions_keep_queues(
        p.queues(),
        token,
        Some(next),
        steps(action),
        calls,
        now,
        after.queues(),
    );
    let done = was.host().calls() + io.reads + io.writes + io.again;
    assert(after.host_connections@[t].host().calls() =~= done + calls);
}

/// An accepted stream starts a connection into the machine: it gets the next number and a port
/// of the proxy's from the upper half, it is registered for reading, and the machine is sent one
/// SYN.
pub proof fn accepted_stream_is_announced<H: TracedStream>(
    p: &NetProxy<H>,
    after: &NetProxy<H>,
    listener: Token,
    stream: H,
    any_port: u16,
    initial_seq: u32,
    ok: bool,
)
    requires
        p.wf(),
        p.ingress_started(after, listener, stream, any_port, initial_seq, ok),
    ensures
        ({
            let t = p.next_token;
            let port = (32768 + any_port % 32768) as u16;
            let key = (
                IpAddr::V4(Ipv4Addr(192, 168, 100, 1)),
                port,
                IpAddr::V4(Ipv4Addr(192, 168, 100, 2)),
                p.unix_listeners@[listener.0],
            );
            &&& !p.host_connections@.dom().contains(t)
            &&& after.host_connections@.dom() == p.host_connections@.dom().insert(t)
            &&& after.next_token == t + 1
            &&& after.tcp_nat_table@.dom().contains(key) && after.tcp_nat_table@[key] == Token(t)
            &&& after.reverse_tcp_nat@.dom().contains(t) && after.reverse_tcp_nat@[t] == key
            &&& after.host_connections@[t].key() == key
            &&& after.host_connections@[t]@ == StateView::IngressConnecting {
                tx_seq: number_at(initial_seq, 1),
                rx_seq: 0,
            }
            &&& after.host_connections@[t].host().calls() == stream.calls().push(
                HostCall::Register { token: Token(t), interest: Interest::Readable, ok },
            )
            &&& after.queues().control == p.queues().control.push(
                to_vm(key, initial_seq, 0, Seq::empty(), 0x02, host_mac(), machine_mac()),
            )
            &&& forall|u: usize| #[trigger]
                p.host_connections@.dom().contains(u) ==> after.host_connections@[u]
                    == p.host_connections@[u]
        }),
{
    assert(after.host_connections@.dom() =~= p.host_connections@.dom().insert(p.next_token));
}

/// The entries at the front that are due are those up to the first that is not.
proof fn prefix_is_due(q: Seq<(Instant, Token)>, now: Instant)
    ensures
        expired_prefix(q, now) <= q.len(),
        forall|i: int| 0 <= i < expired_prefix(q, now) ==> (#[trigger] q[i]).0 <= now,
        expired_prefix(q, now) < q.len() ==> q[expired_prefix(q, now) as int].0 > now,
    decreases q.len(),
{
    if q.len() > 0 && now >= q[0].0 {
        prefix_is_due(q.skip(1), now);
        let n = expired_prefix(q.skip(1), now);
        assert forall|i: int| 0 <= i < n + 1 implies (#[trigger] q[i]).0 <= now by {
            if i > 0 {
                assert(q.skip(1)[i - 1].0 <= now);
            }
        }
    }
}

/// When connections that were kept for late packets fall due, exactly those at the front of the
/// queue whose time has come leave, with their flows, and all others stay as they are.
#[verifier::rlimit(60)]
pub proof fn late_connections_leave_in_time<H: TracedStream>(
    p: &NetProxy<H>,
    after: &NetProxy<H>,
    now: Instant,
) -> (n: nat)
    requires
        p.late_removed(after, now),
    ensures
        n <= p.time_wait_queue@.len(),
        after.time_wait_queue@ == p.time_wait_queue@.skip(n as int),
        forall|i: int| 0 <= i < n ==> (#[trigger] p.time_wait_queue@[i]).0 <= now,
        n < p.time_wait_queue@.len() ==> p.time_wait_queue@[n as int].0 > now,
        forall|i: int|
            0 <= i < n ==> !after.host_connections@.dom().contains(
                (#[trigger] p.time_wait_queue@[i]).1.0,
            ),
        forall|t: usize|
            #![trigger p.host_connections@.dom().contains(t)]
            p.host_connections@.dom().contains(t) && (forall|i: int|
                0 <= i < n ==> (#[trigger] p.time_wait_queue@[i]).1.0 != t)
                ==> after.host_connections@.dom().contains(t) && after.host_connections@[t]
                == p.host_connections@[t],
{
    let q = p.time_wait_queue@;
    let n = expired_prefix(q, now);
    prefix_is_due(q, now);
    let gone = tokens_of(q.take(n as int));
    assert forall|i: int| 0 <= i < n implies !after.host_connections@.dom().contains(
        (#[trigger] q[i]).1.0,
    ) by {
        assert(gone[i] == q[i].1);
        assert(handles(gone).contains(q[i].1.0));
    }
    assert forall|t: usize|
        #![trigger p.host_connections@.dom().contains(t)]
        p.host_connections@.dom().contains(t) && (forall|i: int|
            0 <= i < n ==> (#[trigger] q[i]).1.0 != t) implies after.host_connections@.dom().contains(
        t,
    ) && after.host_connections@[t] == p.host_connections@[t] by {
        if handles(gone).contains(t) {
            let i = choose|i: int| 0 <= i < gone.len() && gone[i] == Token(t);
            assert(q[i].1.0 == t);
        }
    }
    n
}

/// An event of the host leaves nothing undone that was due: no connection is left to be removed,
/// none is kept past its time, no packet has been in flight for more than half a second since it
/// was sent last, the UDP sockets were looked through within the last thirty seconds, and no
/// connection with something to do has been idle for more than five minutes, unless its stream
/// could not be registered. What was queued for the machine stays queued.
#[verifier::rlimit(60)]
pub proof fn event_leaves_nothing_overdue<H: TracedStream>(
    p: &NetProxy<H>,
    a: NetProxy<H>,
    b: NetProxy<H>,
    c: NetProxy<H>,
    after: &NetProxy<H>,
    token: Token,
    is_readable: bool,
    is_writable: bool,
    accepted: Option<H>,
    datagrams: Seq<Vec<u8>>,
    now: Instant,
    registered: bool,
)
    requires
        p.event_through(
            a,
            b,
            c,
            after,
            token,
            is_readable,
            is_writable,
            accepted,
            datagrams,
            now,
            registered,
        ),
    ensures
        after.queues().control == a.queues().control,
        after.connections_to_remove@.len() == 0,
        after.time_wait_queue@.len() > 0 ==> after.time_wait_queue@[0].0 > now,
        forall|t: usize|
            #![trigger after.host_connections@.dom().contains(t)]
            after.host_connections@.dom().contains(t) ==> in_time(after.host_connections@[t]@, now),
        now - after.udp@.last_cleanup <= 30_000_000_000,
        after.udp@.last_cleanup == now && b.udp@.last_cleanup != now ==> forall|t: usize| #[trigger]
            after.udp@.sockets.dom().contains(t) ==> now - after.udp@.sockets[t] <= 30_000_000_000,
        forall|t: usize|
            #![trigger after.host_connections@.dom().contains(t)]
            after.host_connections@.dom().contains(t) ==> (is_idle(
                after.host_connections@[t]@,
                now,
            ) ==> not_registered(after.host_connections@[t].host().calls())),
{
    let (late, resent) = choose|x: NetProxy<H>, y: NetProxy<H>| #[trigger]
        b.timed_through(x, y, &c, now);
    let n = late_connections_leave_in_time(&b, &late, now);
    assert(after.queues() == c.queues());
    assert(c.queues() == late.queues());
    assert(late.queues().removals == b.queues().removals);
    assert(after.time_wait_queue@ == late.time_wait_queue@) by {
        assert(after.queues().time_wait == late.queues().time_wait);
    }
    assert(after.connections_to_remove@ == b.connections_to_remove@) by {
        assert(after.queues().removals == b.queues().removals);
    }
    assert forall|t: usize|
        #![trigger after.host_connections@.dom().contains(t)]
        after.host_connections@.dom().contains(t) implies in_time(
        after.host_connections@[t]@,
        now,
    ) && (is_idle(after.host_connections@[t]@, now) ==> not_registered(
        after.host_connections@[t].host().calls(),
    )) by {
        assert(c.host_connections@.dom().contains(t));
        assert(resent.host_connections@.dom().contains(t));
        let was = late.host_connections@[t]@;
        let next = c.host_connections@[t]@;
        assert(next == retransmitted(was, RTO_DURATION, now));
        assert(in_time(next, now));
        if NetProxy::<H>::stalled(next, now) {
            let got = choose|got: RegisterView| #[trigger]
                NetProxy::<H>::revived(
                    c.host_connections@[t],
                    after.host_connections@[t],
                    Token(t),
                    now,
                    got,
                );
        }
    }
}

/// A connection with something to do that was idle for more than five minutes has its stream
/// registered once more for what it waits for, and counts as active where that worked. Every
/// other connection is left alone.
pub proof fn idle_connection_is_roused<H: TracedStream>(
    p: &NetProxy<H>,
    after: &NetProxy<H>,
    now: Instant,
    t: usize,
)
    requires
        p.roused(after, now),
        p.host_connections@.dom().contains(t),
    ensures
        ({
            let was = p.host_connections@[t];
            let is = after.host_connections@[t];
            &&& after.host_connections@.dom().contains(t)
            &&& !is_idle(was@, now) ==> is == was
            &&& is_idle(was@, now) ==> {
                &&& was@ matches StateView::Established(v)
                &&& is@ matches StateView::Established(w)
                &&& exists|came: RegisterView|
                    {
                        &&& is.host().calls() == was.host().calls().push(
                            #[trigger] rouse_call(t, v.current_interest, came),
                        )
                        &&& w == EstablishedView {
                            last_activity: if came is Done {
                                now
                            } else {
                                v.last_activity
                            },
                            ..v
                        }
                    }
                &&& is.key() == was.key()
            }
        }),
{
    assert(after.host_connections@.dom().contains(t));
    let was = p.host_connections@[t];
    let is = after.host_connections@[t];
    if is_idle(was@, now) {
        let came = choose|got: RegisterView| #[trigger]
            NetProxy::<H>::revived(was, is, Token(t), now, got);
        let v = was@->Established_0;
        assert(rouse_call(t, v.current_interest, came) == HostCall::Reregister {
            token: Token(t),
            interest: v.current_interest,
            came,
        });
    }
}

/// The call that registers a stream once more.
pub open spec fn rouse_call(
    t: usize,
    interest: Interest,
    came: RegisterView,
) -> HostCall {
    HostCall::Reregister { token: Token(t), interest, came }
}

/// Whether a stream's registration was ended, as the last call that it saw.
pub open spec fn let_go_of(before: Seq<HostCall>, after: Seq<HostCall>) -> bool {
    &&& after.len() == before.len() + 1
    &&& after.drop_last() == before
    &&& after.last() is Deregister
}

/// Connections that are to be removed leave every table, with their flows, and no other does.
/// Their streams are given back once their registration was ended.
#[verifier::rlimit(60)]
pub proof fn removed_connections_are_gone<H: TracedStream>(
    p: &NetProxy<H>,
    after: &NetProxy<H>,
    t: usize,
)
    requires
        p.wf(),
        p.drained(after),
        p.host_connections@.dom().contains(t),
    ensures
        after.connections_to_remove@.len() == 0,
        p.connections_to_remove@.contains(Token(t)) ==> {
            &&& !after.host_connections@.dom().contains(t)
            &&& !after.reverse_tcp_nat@.dom().contains(t)
            &&& !after.tcp_nat_table@.dom().contains(p.host_connections@[t].key())
        },
        !p.connections_to_remove@.contains(Token(t)) ==> {
            &&& after.host_connections@.dom().contains(t)
            &&& after.host_connections@[t] == p.host_connections@[t]
            &&& after.reverse_tcp_nat@.dom().contains(t)
        },
        p.connections_to_remove@.contains(Token(t)) ==> exists|i: int|
            p.released@.len() <= i < after.released@.len() && let_go_of(
                p.host_connections@[t].host().calls(),
                #[trigger] after.released@[i].calls(),
            ),
        after.queues().control == p.queues().control,
        after.queues().time_wait == p.queues().time_wait,
{
    let list = p.connections_to_remove@;
    let again = NetProxy { connections_to_remove: after.connections_to_remove, ..*p };
    assert(again.queues().control == p.queues().control);
    assert(again.queues().time_wait == p.queues().time_wait);
    if list.contains(Token(t)) {
        let i = choose|i: int| 0 <= i < list.len() && list[i] == Token(t);
        assert(p.reverse_tcp_nat@.dom().contains(list[i].0));
        assert(carried_by(p.reverse_tcp_nat@, list).contains(p.reverse_tcp_nat@[t]));
        removal_releases_every_stream(p.host_connections@, list, t);
        let left = leaving(p.host_connections@, list);
        let j = choose|j: int| 0 <= j < left.len() && left[j] == p.host_connections@[t];
        assert(deregistered(left[j].host().calls(), after.released@[p.released@.len() + j].calls()));
        assert(after.released@[p.released@.len() + j].calls().drop_last()
            =~= p.host_connections@[t].host().calls());
    }
}

/// Whether no packet has been in flight for more than half a second since it was sent last: the
/// oldest tells.
pub open spec fn in_time(st: StateView, now: Instant) -> bool {
    st matches StateView::Established(v) ==> v.in_flight.len() > 0 ==> now
        - v.in_flight[0].sent_at <= 500_000_000
}

/// Whether the last call of a stream was to change its registration, and failed.
pub open spec fn not_registered(calls: Seq<HostCall>) -> bool {
    &&& calls.len() > 0
    &&& match calls.last() {
        HostCall::Reregister { came, .. } => !(came is Done),
        _ => false,
    }
}

/// Whether a connection that has something to do has been idle for more than five minutes.
pub open spec fn is_idle(st: StateView, now: Instant) -> bool {
    st matches StateView::Established(v) && now - v.last_activity > 300_000_000_000 && (
    v.to_vm_buffer.len() > 0 || v.write_buffer.len() > 0)
}

} // verus!
