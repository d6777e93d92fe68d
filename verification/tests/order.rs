//! What machine and host send each other stays in order.
use std::collections::{BTreeMap, HashMap, VecDeque};
use std::sync::{Arc, Mutex};

use bytes::{Bytes, BytesMut};
use net_proxy::addr::{Interest, IpAddr, Ipv4Addr, MacAddr, NatKey, Token};
use net_proxy::backend::{ReadError, WriteError};
use net_proxy::host::{HostError, HostRead, HostStream, HostWrite, Recorded, RegisterError};
use net_proxy::packet_utils::{build_tcp_packet, build_udp_packet};
use net_proxy::tcp_fsm::{
    states, AnyConnection, ProxyAction, TcpConnection, TcpState, HOST_WRITE_BUFFER_HIGH_WATER,
    HOST_WRITE_BUFFER_LOW_WATER, MAX_IN_FLIGHT_PACKETS,
};
use net_proxy::wire::TcpSegment;
use net_proxy::{direct_proxy, proxy, simple_proxy};
use pnet::packet::tcp::{TcpFlags, TcpPacket};
use pnet::packet::Packet;

const NOW: u64 = 0;
const PROXY_MAC: MacAddr = MacAddr(0x02, 0, 0, 1, 2, 3);
const VM_MAC: MacAddr = MacAddr(0xde, 0xad, 0xbe, 0xef, 0, 0);

/// A host that hands out chunks, takes a few bytes at a time and notes how it is registered.
#[derive(Clone)]
struct Host {
    reads: Arc<Mutex<VecDeque<Vec<u8>>>>,
    written: Arc<Mutex<Vec<u8>>>,
    takes: Arc<Mutex<usize>>,
    registered: Arc<Mutex<Option<Interest>>>,
    refuses: Arc<Mutex<bool>>,
    broken: Arc<Mutex<Option<std::io::ErrorKind>>>,
}

impl Host {
    fn new() -> Self {
        Host {
            reads: Default::default(),
            written: Default::default(),
            takes: Arc::new(Mutex::new(usize::MAX)),
            registered: Default::default(),
            refuses: Default::default(),
            broken: Default::default(),
        }
    }

    fn has(&self, chunk: &[u8]) {
        self.reads.lock().unwrap().push_back(chunk.to_vec());
    }

    fn written(&self) -> Vec<u8> {
        self.written.lock().unwrap().clone()
    }
}

impl HostStream for Host {
    fn read(&mut self, _max: usize) -> HostRead {
        match self.reads.lock().unwrap().pop_front() {
            Some(chunk) => HostRead::Data(chunk),
            None => match *self.broken.lock().unwrap() {
                Some(std::io::ErrorKind::ConnectionReset) => HostRead::Reset,
                Some(kind) => HostRead::Failed(HostError::Io(kind.into())),
                None => HostRead::WouldBlock,
            },
        }
    }

    fn write(&mut self, data: &[u8]) -> HostWrite {
        let n = data.len().min(*self.takes.lock().unwrap());
        if n == 0 {
            return HostWrite::WouldBlock;
        }
        self.written.lock().unwrap().extend_from_slice(&data[..n]);
        HostWrite::Wrote(n)
    }

    fn register(&mut self, _token: Token, interest: Interest) -> bool {
        if *self.refuses.lock().unwrap() {
            return false;
        }
        *self.registered.lock().unwrap() = Some(interest);
        true
    }

    fn reregister(&mut self, _token: Token, interest: Interest) -> Result<(), RegisterError> {
        if *self.refuses.lock().unwrap() {
            let error = std::io::Error::from(std::io::ErrorKind::NotFound);
            return Err(RegisterError { unregistered: true, error });
        }
        *self.registered.lock().unwrap() = Some(interest);
        Ok(())
    }

    fn deregister(&mut self) -> bool {
        *self.registered.lock().unwrap() = None;
        true
    }

    fn shutdown_write(&mut self) -> bool {
        true
    }
}

fn key() -> NatKey {
    let vm = IpAddr::V4(Ipv4Addr::new(192, 168, 100, 2));
    (vm, 4000, IpAddr::V4(Ipv4Addr::new(8, 8, 8, 8)), 80)
}

fn established(host: &Host, rx_seq: u32) -> TcpConnection<states::Established, Recorded<Host>> {
    TcpConnection {
        stream: Recorded::new(host.clone()),
        nat_key: key(),
        state: states::Established {
            tx_seq: 1000,
            rx_seq,
            rx_buf: BTreeMap::new(),
            write_buffer: VecDeque::new(),
            write_buffer_size: 0,
            to_vm_buffer: VecDeque::new(),
            in_flight_packets: VecDeque::new(),
            highest_ack_from_vm: 1000,
            dup_ack_count: 0,
            host_reads_paused: false,
            vm_reads_paused: false,
            last_fast_retransmit_seq: None,
            current_interest: Interest::Readable,
            vm_window_size: 65535,
            vm_window_scale: 0,
            last_zero_window_probe: None,
            last_activity: NOW,
        },
        packet_buf: BytesMut::new(),
    }
}

fn segment(sequence: u32, acknowledgement: u32, flags: u8, payload: &[u8]) -> TcpSegment {
    TcpSegment {
        source: 4000,
        destination: 80,
        sequence,
        acknowledgement,
        flags,
        window: 65535,
        payload: payload.to_vec(),
    }
}

fn frame(sequence: u32, acknowledgement: u32, flags: u8, payload: &[u8]) -> Bytes {
    build_tcp_packet(
        &mut BytesMut::new(),
        key(),
        sequence,
        acknowledgement,
        Some(payload),
        Some(flags),
        VM_MAC,
        PROXY_MAC,
    )
}

fn open(c: AnyConnection<Recorded<Host>>) -> TcpConnection<states::Established, Recorded<Host>> {
    match c {
        AnyConnection::Established(c) => c,
        _ => panic!("the connection is not established"),
    }
}

#[test]
fn packets_in_any_order_reach_the_host_in_order() {
    let host = Host::new();
    *host.takes.lock().unwrap() = 4;
    let data: Vec<u8> = (0..60).collect();
    let start = u32::MAX - 20;
    let mut conn = established(&host, start);
    for off in [40usize, 20, 40, 0, 10, 0, 30, 50, 20] {
        let payload = &data[off..off + 10];
        let t = segment(start.wrapping_add(off as u32), 1000, TcpFlags::ACK, payload);
        conn = open(conn.handle_packet(&t, PROXY_MAC, VM_MAC, NOW).0);
        conn = open(conn.handle_event(false, true, PROXY_MAC, VM_MAC, NOW).0);
        assert!(data.starts_with(&host.written()));
    }
    while host.written().len() < data.len() {
        conn = open(conn.handle_event(false, true, PROXY_MAC, VM_MAC, NOW).0);
    }
    assert_eq!(host.written(), data);
    assert_eq!(conn.state.rx_seq, start.wrapping_add(60));
    assert_eq!(conn.state.write_buffer_size, 0);
}

#[test]
fn data_from_the_host_is_cut_without_gaps() {
    let host = Host::new();
    let data: Vec<u8> = (0..4000u32).map(|i| i as u8).collect();
    host.has(&data);
    let conn = established(&host, 2000);
    let mut conn = open(conn.handle_event(true, false, PROXY_MAC, VM_MAC, NOW).0);
    assert_eq!(conn.state.tx_seq, 5000);
    assert_eq!(conn.state.in_flight_packets.len(), 3);
    let mut next = 1000;
    let mut seen = Vec::new();
    while let Some(packet) = conn.state.pop_packet(NOW) {
        let tcp = TcpPacket::new(&packet[34..]).unwrap();
        assert_eq!(tcp.get_sequence(), next);
        next += tcp.payload().len() as u32;
        seen.extend_from_slice(tcp.payload());
    }
    assert_eq!(seen, data);
}

#[test]
fn acknowledgements_take_off_whole_packets() {
    let host = Host::new();
    host.has(&[7; 3000]);
    let conn = established(&host, 2000);
    let conn = open(conn.handle_event(true, false, PROXY_MAC, VM_MAC, NOW).0);
    let conn = open(
        conn.handle_packet(&segment(2000, 2500, TcpFlags::ACK, &[]), PROXY_MAC, VM_MAC, NOW).0,
    );
    let left: Vec<u32> = conn.state.in_flight_packets.iter().map(|p| p.0).collect();
    assert_eq!(left, vec![2460, 3920]);
    let mut conn = conn;
    conn.state.to_vm_buffer.clear();
    assert!(!conn.state.retransmit_overdue(100, 100));
    assert!(conn.state.retransmit_overdue(100, 101));
    assert_eq!(conn.state.in_flight_packets.len(), 2);
    assert_eq!(conn.state.in_flight_packets[0].2, 101);
    assert_eq!(conn.state.to_vm_buffer[0], conn.state.in_flight_packets[0].1);
}

#[test]
fn interest_is_what_was_asked_for() {
    let host = Host::new();
    let conn = established(&host, 2000);
    let t = segment(2000, 1000, TcpFlags::ACK, b"data");
    let (conn, action) = conn.handle_packet(&t, PROXY_MAC, VM_MAC, NOW);
    let mut conn = open(conn);
    match action {
        ProxyAction::Multi(steps) => {
            assert_eq!(steps[0], ProxyAction::Reregister(conn.state.current_interest));
        }
        _ => panic!("one action"),
    }
    for i in 0..50u32 {
        let t = segment(2004 + i * 1460, 1000, TcpFlags::ACK, &[1; 1460]);
        conn = open(conn.handle_packet(&t, PROXY_MAC, VM_MAC, NOW).0);
    }
    assert!(conn.state.vm_reads_paused);
    assert!(conn.state.write_buffer_size <= HOST_WRITE_BUFFER_HIGH_WATER + 1460);
    let conn = open(conn.handle_event(false, true, PROXY_MAC, VM_MAC, NOW).0);
    assert!(!conn.state.vm_reads_paused);
    assert_eq!(conn.state.current_interest, Interest::Readable);
}

#[test]
fn the_machine_is_taken_from_again_below_the_low_mark() {
    let mark = HOST_WRITE_BUFFER_LOW_WATER;
    for (waits, paused) in [(mark + 1, true), (mark, true), (mark - 1, false), (20_000, false)] {
        let host = Host::new();
        *host.takes.lock().unwrap() = 0;
        let mut conn = established(&host, 2000);
        conn.state.write_buffer.push_back(Bytes::from(vec![1; waits]));
        conn.state.write_buffer_size = waits;
        conn.state.vm_reads_paused = true;
        let conn = open(conn.handle_event(false, true, PROXY_MAC, VM_MAC, NOW).0);
        assert_eq!(conn.state.write_buffer_size, waits);
        assert_eq!(conn.state.vm_reads_paused, paused);
    }
}

#[test]
fn only_so_many_packets_are_in_flight() {
    let host = Host::new();
    let mut conn = established(&host, 2000);
    conn.state.vm_window_scale = 14;
    for i in 0..MAX_IN_FLIGHT_PACKETS as u32 - 1 {
        conn.state.in_flight_packets.push_back((1000 + i, Bytes::from_static(&[1; 60]), NOW, 1));
    }
    conn.state.tx_seq = 1000 + MAX_IN_FLIGHT_PACKETS as u32 - 1;
    host.has(&[5; 4000]);
    let conn = open(conn.handle_event(true, false, PROXY_MAC, VM_MAC, NOW).0);
    assert_eq!(conn.state.in_flight_packets.len(), MAX_IN_FLIGHT_PACKETS);
    assert_eq!(conn.state.to_vm_buffer.len(), 1);
    assert!(conn.state.host_reads_paused);
}

#[test]
fn machine_close_completes() {
    let host = Host::new();
    let conn = established(&host, 2000);
    let fin = segment(2000, 1000, TcpFlags::FIN | TcpFlags::ACK, &[]);
    let (conn, action) = conn.handle_packet(&fin, PROXY_MAC, VM_MAC, NOW);
    assert!(matches!(conn, AnyConnection::CloseWait(_)));
    match action {
        ProxyAction::Multi(steps) => {
            assert_eq!(steps.last(), Some(&ProxyAction::ShutdownHostWrite));
        }
        _ => panic!("one action"),
    }
    let (conn, _) = conn.handle_event(true, false, PROXY_MAC, VM_MAC, NOW);
    assert!(matches!(conn, AnyConnection::LastAck(_)));
    let ack = segment(2001, 1001, TcpFlags::ACK, &[]);
    let (_, action) = conn.handle_packet(&ack, PROXY_MAC, VM_MAC, NOW);
    assert_eq!(action, ProxyAction::ScheduleRemoval);
}

#[test]
fn a_stream_that_hands_out_too_much_has_failed() {
    let host = Host::new();
    host.has(&vec![1; 20000]);
    let conn = established(&host, 2000);
    let (_, action) = conn.handle_event(true, false, PROXY_MAC, VM_MAC, NOW);
    assert_eq!(action, ProxyAction::ScheduleRemoval);
}

fn fsm_event(p: &mut proxy::NetProxy<Recorded<Host>>, token: Token, r: bool, w: bool, now: u64) {
    let input = proxy::events::EventInput { accepted: None, datagrams: vec![] };
    p.handle_event(token, r, w, input, now);
}

#[test]
fn frames_for_the_machine_come_in_order() {
    let mut p = proxy::NetProxy::new(10, HashMap::new(), NOW);
    let host = Host::new();
    match p.handle_packet_from_vm(&frame(500, 0, TcpFlags::SYN, &[]), NOW).unwrap() {
        proxy::packets::Demand::Connect { nat_key, sequence, .. } => {
            assert_eq!((nat_key, sequence), (key(), 500));
        }
        _ => panic!("no connection is asked for"),
    }
    let (token, registered) = p.add_egress(Recorded::new(host.clone()), key(), 500);
    assert!(registered && token == Token(10));
    let mut buf = [0u8; 2000];
    assert!(matches!(p.read_frame(&mut buf, NOW), Err(ReadError::NothingRead)));
    fsm_event(&mut p, token, false, true, NOW);
    assert_eq!(p.get_rx_queue_len(), 1);
    host.has(b"hello");
    fsm_event(&mut p, token, true, false, NOW);
    let n = p.read_frame(&mut buf, NOW).unwrap();
    assert_eq!(n, 54);
    let syn_ack = TcpPacket::new(&buf[34..n]).unwrap();
    assert_eq!(syn_ack.get_flags(), TcpFlags::SYN | TcpFlags::ACK);
    assert_eq!(syn_ack.get_acknowledgement(), 501);
    let first = syn_ack.get_sequence();
    let n = p.read_frame(&mut buf, NOW).unwrap();
    let data = TcpPacket::new(&buf[34..n]).unwrap();
    assert_eq!((data.get_sequence(), data.payload()), (first.wrapping_add(1), &b"hello"[..]));
    assert!(matches!(p.read_frame(&mut buf, NOW), Err(ReadError::NothingRead)));
    assert_eq!((p.stats.packets_out, p.stats.packets_in), (2, 1));
}

#[test]
fn unreadable_frames_are_refused() {
    let mut p = proxy::NetProxy::<Recorded<Host>>::new(10, HashMap::new(), NOW);
    let mut d = direct_proxy::NetProxy::<Recorded<Host>>::new(10, HashMap::new(), NOW);
    let mut s = simple_proxy::NetProxy::<Recorded<Host>>::new(10, HashMap::new(), NOW);
    let short = [0u8; 10];
    assert!(matches!(p.handle_packet_from_vm(&short, NOW), Err(WriteError::NothingWritten)));
    assert!(matches!(d.handle_packet_from_vm(&short), Err(WriteError::NothingWritten)));
    assert!(matches!(s.handle_packet_from_vm(&short), Err(WriteError::NothingWritten)));
    let other = [0u8; 60];
    assert!(p.handle_packet_from_vm(&other, NOW).is_ok());
    assert!(d.handle_packet_from_vm(&other).is_ok());
    assert!(s.write_frame(4, &other).is_ok());
}

#[test]
fn datagrams_go_out_and_come_back() {
    let mut p = proxy::NetProxy::<Recorded<Host>>::new(10, HashMap::new(), NOW);
    let flow = (key().2, key().3, key().0, key().1);
    let out = build_udp_packet(&mut BytesMut::new(), flow, b"ask", VM_MAC, PROXY_MAC);
    let token = match p.handle_packet_from_vm(&out, NOW).unwrap() {
        proxy::packets::Demand::SendUdp { token, nat_key, payload, open } => {
            assert_eq!((nat_key, &payload[..], open), (key(), &b"ask"[..], true));
            p.udp.opened(token, nat_key, NOW);
            p.udp_sent(token, NOW);
            token
        }
        _ => panic!("no datagram is sent"),
    };
    let input = proxy::events::EventInput { accepted: None, datagrams: vec![b"answer".to_vec()] };
    let done = p.handle_event(token, true, false, input, NOW);
    assert!(done.wake && done.closed.is_empty());
    let mut buf = [0u8; 2000];
    let n = p.read_frame(&mut buf, NOW).unwrap();
    assert_eq!(&buf[42..n], b"answer");
    assert_eq!(&buf[26..34], &[8, 8, 8, 8, 192, 168, 100, 2]);
}

#[test]
fn failing_registration_is_reported() {
    let host = Host::new();
    *host.takes.lock().unwrap() = 2;
    let mut d = direct_proxy::NetProxy::new(10, HashMap::new(), NOW);
    let (token, _) = d.add_egress(Recorded::new(host.clone()), key(), 500);
    let input = direct_proxy::events::EventInput { accepted: None, datagram: None };
    let done = d.handle_event(token, false, true, input, NOW);
    assert!(done.wake && !done.failed);
    *host.refuses.lock().unwrap() = true;
    let r = d.handle_packet_from_vm(&frame(501, 0, TcpFlags::ACK, b"abcdef"));
    assert!(matches!(r, Err(WriteError::Internal(_))));
    assert!(!d.host_connections.contains_key(&token.0));
    assert_eq!(host.written(), b"ab");
    assert_eq!(d.take_released().len(), 1);
    assert_eq!(d.take_released().len(), 0);
}

#[test]
fn the_simple_proxy_drops_what_has_no_room() {
    let host = Host::new();
    let mut s = simple_proxy::NetProxy::new(10, HashMap::new(), NOW);
    let (token, refused) = s.add_egress(Recorded::new(host.clone()), key(), 500);
    assert!(refused.is_none());
    let input = || simple_proxy::events::EventInput { accepted: None, datagrams: vec![] };
    s.handle_event(token, false, true, input(), NOW);
    for _ in 0..100 {
        host.has(&[5; 8000]);
    }
    for _ in 0..100 {
        s.handle_event(token, true, false, input(), NOW);
        let waiting = s.host_connections.get(&token.0).unwrap().to_vm_buffer().len();
        assert!(waiting <= simple_proxy::MAX_CONN_BUFFER_SIZE);
    }
    let r = s.handle_packet_from_vm(&frame(501, 0, TcpFlags::ACK, b"data"));
    assert!(r.is_ok());
    assert_eq!(host.written(), b"data");
}

/// A proxy with one connection, under the first handle.
fn fsm_holding(
    conn: TcpConnection<states::Established, Recorded<Host>>,
) -> proxy::NetProxy<Recorded<Host>> {
    let mut p = proxy::NetProxy::new(10, HashMap::new(), NOW);
    p.host_connections.insert(10, AnyConnection::Established(conn));
    p.tcp_nat_table.insert(key(), Token(10));
    p.reverse_tcp_nat.insert(10, key());
    p.next_token = 11;
    p
}

#[test]
fn only_connections_with_work_to_do_are_roused() {
    let later = net_proxy::tcp_fsm::CONNECTION_STALL_TIMEOUT + 1;
    for (for_vm, for_host, roused) in
        [(false, false, false), (true, false, true), (false, true, true)]
    {
        let host = Host::new();
        let mut conn = established(&host, 2000);
        conn.state.current_interest = Interest::Writable;
        if for_vm {
            conn.state.to_vm_buffer.push_back(Bytes::from_static(&[1; 60]));
        }
        if for_host {
            conn.state.write_buffer.push_back(Bytes::from_static(b"data"));
            conn.state.write_buffer_size = 4;
        }
        let mut p = fsm_holding(conn);
        p.check_stalled_connections(later - 1);
        assert_eq!(*host.registered.lock().unwrap(), None);
        p.check_stalled_connections(later);
        let (registered, active) = if roused {
            (Some(Interest::Writable), later)
        } else {
            (None, NOW)
        };
        assert_eq!(*host.registered.lock().unwrap(), registered);
        let conn = p.host_connections.get(&10).unwrap();
        assert_eq!(conn.get_last_activity(), Some(active));
    }
}

#[test]
fn the_window_probe_goes_to_the_machine() {
    let host = Host::new();
    let mut conn = established(&host, 2000);
    conn.state.host_reads_paused = true;
    conn.state.vm_window_size = 0;
    let (_, action) = conn.handle_event(false, false, PROXY_MAC, VM_MAC, NOW);
    let probe = match action {
        ProxyAction::Multi(steps) => match &steps[0] {
            ProxyAction::SendControlPacket(p) => p.clone(),
            _ => panic!("no probe"),
        },
        _ => panic!("one action"),
    };
    assert_eq!(&probe[0..12], &[0xde, 0xad, 0xbe, 0xef, 0, 0, 2, 0, 0, 1, 2, 3]);
    assert_eq!(&probe[26..34], &[8, 8, 8, 8, 192, 168, 100, 2]);
    let tcp = TcpPacket::new(&probe[34..]).unwrap();
    assert_eq!((tcp.get_source(), tcp.get_destination()), (80, 4000));
    assert_eq!((tcp.get_sequence(), tcp.payload()), (1000, &[0u8][..]));
}

#[test]
fn a_list_of_actions_does_what_its_items_do() {
    let packet = |n: u8| ProxyAction::SendControlPacket(Bytes::copy_from_slice(&[n; 60]));
    let items = || {
        vec![
            packet(1),
            ProxyAction::Reregister(Interest::Both),
            ProxyAction::Multi(vec![packet(2), ProxyAction::DoNothing, ProxyAction::Multi(vec![])]),
            ProxyAction::ScheduleRemoval,
            packet(3),
            ProxyAction::ScheduleRemoval,
        ]
    };
    let (one, other) = (Host::new(), Host::new());
    let mut at_once = fsm_holding(established(&one, 2000));
    at_once.execute_action(Token(10), ProxyAction::Multi(items()), NOW);
    let mut in_turn = fsm_holding(established(&other, 2000));
    for item in items() {
        in_turn.execute_action(Token(10), item, NOW);
    }
    let first: Vec<u8> = at_once.to_vm_control_queue.iter().map(|p| p[0]).collect();
    assert_eq!(first, vec![1, 2, 3]);
    assert_eq!(at_once.to_vm_control_queue, in_turn.to_vm_control_queue);
    assert_eq!(at_once.connections_to_remove, vec![Token(10)]);
    assert_eq!(in_turn.connections_to_remove, vec![Token(10)]);
    assert_eq!(*one.registered.lock().unwrap(), Some(Interest::Both));
    assert_eq!(*other.registered.lock().unwrap(), Some(Interest::Both));
}

#[test]
fn a_packet_that_changes_nothing_registers_nothing() {
    let conn = established(&Host::new(), 2000);
    let t = segment(2000, 1000, TcpFlags::ACK, &[]);
    let (_, action) = conn.handle_packet(&t, PROXY_MAC, VM_MAC, NOW);
    assert_eq!(action, ProxyAction::Multi(vec![]));
}

#[test]
fn a_removed_connection_is_deregistered_and_released() {
    let host = Host::new();
    let mut p = fsm_holding(established(&host, 2000));
    p.execute_action(Token(10), ProxyAction::Reregister(Interest::Both), NOW);
    assert_eq!(*host.registered.lock().unwrap(), Some(Interest::Both));
    p.schedule_removal(Token(10));
    p.drain_removals();
    assert_eq!(*host.registered.lock().unwrap(), None);
    assert!(p.host_connections.is_empty());
    assert_eq!(p.take_released().len(), 1);
    assert_eq!(p.take_released().len(), 0);
}

/// An ARP request for the proxy's address, with padding behind it.
fn arp_request(operation: u8, padding: usize) -> Vec<u8> {
    let mut f = vec![0xff; 6];
    f.extend_from_slice(&[0xde, 0xad, 0xbe, 0xef, 0, 0, 8, 6]);
    f.extend_from_slice(&[0, 1, 8, 0, 6, 4, 0, operation]);
    f.extend_from_slice(&[0xde, 0xad, 0xbe, 0xef, 0, 0, 192, 168, 100, 2]);
    f.extend_from_slice(&[0, 0, 0, 0, 0, 0, 192, 168, 100, 1]);
    f.resize(f.len() + padding, 0);
    f
}

#[test]
fn frames_are_looked_at_before_they_are_taken() {
    let mut p = proxy::NetProxy::<Recorded<Host>>::new(10, HashMap::new(), NOW);
    let d = direct_proxy::NetProxy::<Recorded<Host>>::new(10, HashMap::new(), NOW);
    let s = simple_proxy::NetProxy::<Recorded<Host>>::new(10, HashMap::new(), NOW);
    for (operation, padding, taken) in [(1, 0, true), (1, 18, false), (2, 18, true)] {
        let f = arp_request(operation, padding);
        assert_eq!(p.accepts_frame(&f), taken);
        assert_eq!(d.accepts_frame(&f), taken);
        assert_eq!(s.accepts_frame(&f), taken);
    }
    for (options, taken) in [([3u8, 3, 7, 0], true), ([3, 2, 0, 0], false), ([8, 2, 1, 1], false)] {
        let mut syn = frame(500, 0, TcpFlags::SYN, &options).to_vec();
        syn[34 + 12] = 0x60;
        assert_eq!(p.accepts_frame(&syn), taken);
        assert!(d.accepts_frame(&syn) && s.accepts_frame(&syn));
    }
    let datagram = build_udp_packet(&mut BytesMut::new(), key(), b"ask", VM_MAC, PROXY_MAC);
    assert!(p.accepts_frame(&datagram));
    p.next_token = usize::MAX;
    assert!(!p.accepts_frame(&datagram));
    assert!(p.accepts_frame(&[0; 10]));
}

#[test]
fn connections_count_what_they_keep() {
    let host = Host::new();
    let mut conn = established(&host, 2000);
    conn.state.rx_buf.insert(3000, Bytes::from_static(b"kept"));
    assert!(AnyConnection::Established(conn).accepts(&vec![0; 10]));
    let mut conn = established(&host, 2000);
    conn.state.dup_ack_count = u16::MAX;
    assert!(!AnyConnection::Established(conn).accepts(&vec![]));
    let mut conn = established(&host, 2000);
    conn.state.rx_buf.insert(3000, Bytes::from_static(b"kept"));
    conn.state.write_buffer_size = usize::MAX - 4;
    let conn = AnyConnection::Established(conn);
    assert!(conn.accepts(&vec![]));
    assert!(!conn.accepts(&vec![0]));
}

#[test]
fn the_next_frame_is_known_before_it_is_read() {
    let mut p = proxy::NetProxy::<Recorded<Host>>::new(10, HashMap::new(), NOW);
    assert!(p.fits_next(0));
    let ask = arp_request(1, 0);
    assert!(p.handle_packet_from_vm(&ask, NOW).is_ok());
    assert!(p.fits_next(42) && !p.fits_next(41));
    let mut p = proxy::NetProxy::new(10, HashMap::new(), NOW);
    let mut conn = established(&Host::new(), 2000);
    conn.state.to_vm_buffer.push_back(Bytes::from_static(&[1; 100]));
    p.host_connections.insert(10, AnyConnection::Established(conn));
    assert!(p.fits_next(100) && !p.fits_next(99));
    let mut d = direct_proxy::NetProxy::<Recorded<Host>>::new(10, HashMap::new(), NOW);
    assert_eq!(d.next_frame_len(), None);
    assert!(d.handle_packet_from_vm(&ask).is_ok());
    assert_eq!(d.next_frame_len(), Some(42));
    let mut s = simple_proxy::NetProxy::<Recorded<Host>>::new(10, HashMap::new(), NOW);
    assert_eq!(s.next_frame_len(), None);
    assert!(s.handle_packet_from_vm(&ask).is_ok());
    assert_eq!(s.next_frame_len(), Some(42));
}

#[test]
fn a_stream_that_cannot_be_registered() {
    let host = Host::new();
    *host.refuses.lock().unwrap() = true;
    let mut s = simple_proxy::NetProxy::new(10, HashMap::new(), NOW);
    let (token, refused) = s.add_egress(Recorded::new(host.clone()), key(), 500);
    assert!(token == Token(10) && refused.is_some());
    assert!(s.host_connections.is_empty());
    assert_eq!(s.next_token, 11);
}

/// A simple proxy with a connection over which data flows; its first byte for the machine has
/// the number that is handed out.
fn simple_flowing(host: &Host) -> (simple_proxy::NetProxy<Recorded<Host>>, Token, u32) {
    let mut s = simple_proxy::NetProxy::new(10, HashMap::new(), NOW);
    let (token, _) = s.add_egress_from(Recorded::new(host.clone()), key(), 500, 7000);
    simple_event(&mut s, token, false, true);
    s.to_vm_control_queue.clear();
    (s, token, 7001)
}

fn simple_event(s: &mut simple_proxy::NetProxy<Recorded<Host>>, token: Token, r: bool, w: bool) {
    let input = simple_proxy::events::EventInput { accepted: None, datagrams: vec![] };
    s.handle_event(token, r, w, input, NOW);
}

#[test]
fn the_simple_proxy_keeps_order_while_the_host_keeps_up() {
    let host = Host::new();
    let (mut s, token, _) = simple_flowing(&host);
    for (sequence, data) in [(501, &b"one "[..]), (505, b"two ")] {
        assert!(s.handle_packet_from_vm(&frame(sequence, 0, TcpFlags::ACK, data)).is_ok());
    }
    *host.takes.lock().unwrap() = 0;
    assert!(s.handle_packet_from_vm(&frame(509, 0, TcpFlags::ACK, b"three")).is_ok());
    assert_eq!(host.written(), b"one two ");
    *host.takes.lock().unwrap() = usize::MAX;
    simple_event(&mut s, token, false, true);
    assert_eq!(host.written(), b"one two three");
}

#[test]
fn the_simple_proxy_closes_when_the_host_is_gone() {
    let host = Host::new();
    let (mut s, token, first) = simple_flowing(&host);
    host.has(&[]);
    simple_event(&mut s, token, true, false);
    let fin = s.to_vm_control_queue.pop_front().unwrap();
    let fin = TcpPacket::new(&fin[34..]).unwrap();
    assert_eq!(fin.get_flags(), TcpFlags::FIN | TcpFlags::ACK);
    assert_eq!((fin.get_sequence(), fin.get_acknowledgement()), (first, 501));
    assert!(s.handle_packet_from_vm(&frame(501, first + 1, TcpFlags::ACK, &[])).is_ok());
    assert!(s.connections_to_remove.contains(&token));
}

#[test]
fn the_simple_proxy_passes_on_the_end_of_the_machine() {
    let host = Host::new();
    let (mut s, token, first) = simple_flowing(&host);
    let fin = frame(501, first, TcpFlags::FIN | TcpFlags::ACK, b"bye");
    assert!(s.handle_packet_from_vm(&fin).is_ok());
    assert_eq!(host.written(), b"bye");
    let ack = s.to_vm_control_queue.pop_front().unwrap();
    let ack = TcpPacket::new(&ack[34..]).unwrap();
    assert_eq!((ack.get_flags(), ack.get_acknowledgement()), (TcpFlags::ACK, 505));
    assert!(s.handle_packet_from_vm(&frame(505, 0, TcpFlags::ACK, b"late")).is_ok());
    simple_event(&mut s, token, true, true);
    assert_eq!(host.written(), b"bye");
}

#[test]
fn the_direct_proxy_gives_the_data_of_the_last_packet() {
    let host = Host::new();
    let mut d = direct_proxy::NetProxy::new(10, HashMap::new(), NOW);
    let (token, _) = d.add_egress_from(Recorded::new(host.clone()), key(), 500, 7000);
    let input = direct_proxy::events::EventInput { accepted: None, datagram: None };
    d.handle_event(token, false, true, input, NOW);
    d.to_vm_control_queue.clear();
    assert!(d.handle_packet_from_vm(&frame(501, 7001, TcpFlags::FIN, b"bye")).is_ok());
    assert_eq!(host.written(), b"bye");
    let ack = d.to_vm_control_queue.pop_front().unwrap();
    let ack = TcpPacket::new(&ack[34..]).unwrap();
    assert_eq!((ack.get_flags(), ack.get_acknowledgement()), (TcpFlags::ACK, 505));
}

#[test]
fn the_simple_proxy_hands_back_a_stream_it_cannot_register() {
    let host = Host::new();
    let mut s = simple_proxy::NetProxy::new(10, HashMap::from([(3, 8080)]), NOW);
    *host.refuses.lock().unwrap() = true;
    assert!(s.start_ingress(Token(3), Recorded::new(host.clone()), 7, 600).is_some());
    assert!(s.host_connections.is_empty() && s.to_vm_control_queue.is_empty());
    assert_eq!(s.next_token, 10);
    *host.refuses.lock().unwrap() = false;
    assert!(s.start_ingress(Token(3), Recorded::new(host.clone()), 7, 600).is_none());
    assert_eq!(*host.registered.lock().unwrap(), Some(Interest::Readable));
    let syn = s.to_vm_control_queue.pop_front().unwrap();
    let syn = TcpPacket::new(&syn[34..]).unwrap();
    assert_eq!((syn.get_flags(), syn.get_sequence()), (TcpFlags::SYN, 600));
    assert_eq!((syn.get_source(), syn.get_destination()), (32775, 8080));
    assert_eq!(s.next_token, 11);
}

#[test]
fn the_direct_proxy_hands_back_a_stream_it_cannot_register() {
    let host = Host::new();
    let mut d = direct_proxy::NetProxy::new(10, HashMap::from([(3, 8080)]), NOW);
    *host.refuses.lock().unwrap() = true;
    assert!(d.start_ingress(Token(3), Recorded::new(host.clone()), 7, 600).is_some());
    assert!(d.host_connections.is_empty() && d.to_vm_control_queue.is_empty());
    assert_eq!(d.next_token, 11);
    *host.refuses.lock().unwrap() = false;
    assert!(d.start_ingress(Token(3), Recorded::new(host.clone()), 7, 600).is_none());
    assert_eq!(*host.registered.lock().unwrap(), Some(Interest::Both));
    assert_eq!((d.host_connections.len(), d.to_vm_control_queue.len()), (1, 1));
    assert_eq!(d.next_token, 12);
}

#[test]
fn an_accepted_stream_that_cannot_be_registered_is_released() {
    let host = Host::new();
    *host.refuses.lock().unwrap() = true;
    let listeners = || HashMap::from([(3, 8080)]);
    let mut s = simple_proxy::NetProxy::new(10, listeners(), NOW);
    let accepted = Some(Recorded::new(host.clone()));
    let input = simple_proxy::events::EventInput { accepted, datagrams: vec![] };
    assert!(!s.handle_event(Token(3), true, false, input, NOW).wake);
    assert_eq!((s.take_released().len(), s.next_token), (1, 10));
    let mut d = direct_proxy::NetProxy::new(10, listeners(), NOW);
    let accepted = Some(Recorded::new(host.clone()));
    let input = direct_proxy::events::EventInput { accepted, datagram: None };
    assert!(!d.handle_event(Token(3), true, false, input, NOW).wake);
    assert_eq!((d.take_released().len(), d.next_token), (1, 11));
}

#[test]
fn the_simple_proxy_releases_what_is_over() {
    let host = Host::new();
    let (mut s, token, _) = simple_flowing(&host);
    assert!(s.handle_packet_from_vm(&frame(501, 0, TcpFlags::RST, &[])).is_ok());
    assert!(s.connections_to_remove.contains(&token));
    assert_eq!(s.take_released().len(), 1);
    simple_event(&mut s, token, true, true);
    assert!(s.reverse_tcp_nat.is_empty() && s.released.is_empty());

    let host = Host::new();
    let mut s = simple_proxy::NetProxy::new(10, HashMap::new(), NOW);
    let (token, _) = s.add_egress_from(Recorded::new(host.clone()), key(), 500, 7000);
    *host.refuses.lock().unwrap() = true;
    simple_event(&mut s, token, false, true);
    assert_eq!(*host.registered.lock().unwrap(), None);
    assert_eq!(s.take_released().len(), 1);
}

#[test]
fn the_simple_proxy_drops_what_the_machine_has() {
    let host = Host::new();
    let (mut s, token, first) = simple_flowing(&host);
    host.has(&[5; 4000]);
    simple_event(&mut s, token, true, false);
    let waits = |s: &simple_proxy::NetProxy<Recorded<Host>>| {
        s.host_connections.get(&token.0).unwrap().to_vm_buffer().len()
    };
    assert_eq!(waits(&s), 3);
    for (ack, left) in [(first, 3), (first + 1459, 3), (first + 2000, 2), (first + 4000, 0)] {
        assert!(s.handle_packet_from_vm(&frame(501, ack, TcpFlags::ACK, &[])).is_ok());
        assert_eq!(waits(&s), left);
    }
}

#[test]
fn reading_tells_why_it_ended() {
    let read = |host: &Host| {
        let (mut s, token, _) = simple_flowing(host);
        let mut conn = match s.host_connections.remove(&token.0) {
            Some(simple_proxy::AnyConnection::Established(c)) => c,
            _ => panic!("the connection is not established"),
        };
        s.read_from_host_socket(&mut conn, token, key()).0
    };
    let host = Host::new();
    host.has(b"data");
    assert!(read(&host).is_ok());
    host.has(b"data");
    host.has(&[]);
    assert!(matches!(read(&host), Err(HostError::UnexpectedEof)));
    *host.broken.lock().unwrap() = Some(std::io::ErrorKind::ConnectionReset);
    assert!(matches!(read(&host), Err(HostError::ConnectionReset)));
    *host.broken.lock().unwrap() = Some(std::io::ErrorKind::TimedOut);
    match read(&host) {
        Err(HostError::Io(e)) => assert_eq!(e.kind(), std::io::ErrorKind::TimedOut),
        _ => panic!("another error"),
    }
    host.has(&[1; 8193]);
    assert!(matches!(read(&host), Err(HostError::Overrun)));
}

#[test]
fn listeners_are_numbered_in_order() {
    let (table, next) = net_proxy::tables::number_listeners(&vec![80, 443, 80], 5);
    assert_eq!(next, 8);
    assert_eq!(table, HashMap::from([(5, 80), (6, 443), (7, 80)]));
    let (table, next) = net_proxy::tables::number_listeners(&vec![], 5);
    assert!(table.is_empty() && next == 5);
}
