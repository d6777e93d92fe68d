//! The proxy over the state machine.
use std::collections::{HashMap, VecDeque};
use std::sync::{Arc, Mutex};

use bytes::{Bytes, BytesMut};
use net_proxy::addr::{Interest, IpAddr, Ipv4Addr, MacAddr, Token};
use net_proxy::host::{HostRead, HostStream, HostWrite, Recorded, RegisterError};
use net_proxy::packet_utils::build_tcp_packet;
use net_proxy::proxy::events::EventInput;
use net_proxy::proxy::packets::Demand;
use net_proxy::proxy::NetProxy;
use net_proxy::tcp_fsm::{states, AnyConnection, TcpConnection};
use pnet::packet::ethernet::EthernetPacket;
use pnet::packet::ipv4::Ipv4Packet;
use pnet::packet::tcp::{TcpFlags, TcpPacket};
use pnet::packet::Packet;

const NOW: u64 = 0;
const VM_IP: IpAddr = IpAddr::V4(Ipv4Addr(192, 168, 100, 2));
const PROXY_MAC: MacAddr = MacAddr(0x02, 0x00, 0x00, 0x01, 0x02, 0x03);
const VM_MAC: MacAddr = MacAddr(0xde, 0xad, 0xbe, 0xef, 0x00, 0x00);

type Proxy = NetProxy<Recorded<MockHostStream>>;

/// A host whose two directions can be looked into from outside.
#[derive(Default, Clone)]
struct MockHostStream {
    read_buffer: Arc<Mutex<VecDeque<Bytes>>>,
    write_buffer: Arc<Mutex<Vec<u8>>>,
}

impl HostStream for MockHostStream {
    fn read(&mut self, max: usize) -> HostRead {
        let mut read_buf = self.read_buffer.lock().unwrap();
        match read_buf.pop_front() {
            Some(mut front) => {
                let data = front.split_to(front.len().min(max));
                if !front.is_empty() {
                    read_buf.push_front(front);
                }
                HostRead::Data(data.to_vec())
            }
            None => HostRead::WouldBlock,
        }
    }

    fn write(&mut self, data: &[u8]) -> HostWrite {
        self.write_buffer.lock().unwrap().extend_from_slice(data);
        HostWrite::Wrote(data.len())
    }

    fn register(&mut self, _token: Token, _interest: Interest) -> bool {
        true
    }

    fn reregister(&mut self, _token: Token, _interest: Interest) -> Result<(), RegisterError> {
        Ok(())
    }

    fn deregister(&mut self) -> bool {
        true
    }

    fn shutdown_write(&mut self) -> bool {
        true
    }
}

fn ip(a: u8, b: u8, c: u8, d: u8) -> IpAddr {
    IpAddr::V4(Ipv4Addr::new(a, b, c, d))
}

fn setup_proxy() -> Proxy {
    NetProxy::new(10, HashMap::new(), NOW)
}

fn event(proxy: &mut Proxy, token: Token, is_readable: bool, is_writable: bool) {
    let input = EventInput { accepted: None, datagrams: vec![] };
    proxy.handle_event(token, is_readable, is_writable, input, NOW);
}

/// Hands a frame to the proxy, and connects to a host where it asks for one.
fn packet(proxy: &mut Proxy, frame: &[u8]) {
    match proxy.handle_packet_from_vm(frame, NOW).unwrap() {
        Demand::Connect { nat_key, sequence, .. } => {
            let stream = Recorded::new(MockHostStream::default());
            let (_, registered) = proxy.add_egress(stream, nat_key, sequence);
            assert!(registered);
        }
        _ => {}
    }
}

/// A TCP packet as the machine sends it.
fn build_vm_tcp_packet(
    vm_port: u16,
    host_ip: IpAddr,
    host_port: u16,
    seq: u32,
    ack: u32,
    flags: u8,
    payload: &[u8],
) -> Bytes {
    build_tcp_packet(
        &mut BytesMut::new(),
        (VM_IP, vm_port, host_ip, host_port),
        seq,
        ack,
        Some(payload),
        Some(flags),
        VM_MAC,
        PROXY_MAC,
    )
}

fn established(highest_ack_from_vm: u32) -> states::Established {
    states::Established {
        tx_seq: 100,
        rx_seq: 200,
        rx_buf: Default::default(),
        write_buffer: Default::default(),
        write_buffer_size: 0,
        to_vm_buffer: Default::default(),
        in_flight_packets: Default::default(),
        highest_ack_from_vm,
        dup_ack_count: 0,
        host_reads_paused: false,
        vm_reads_paused: false,
        last_fast_retransmit_seq: None,
        current_interest: Interest::Readable,
        vm_window_size: 65535,
        vm_window_scale: 0,
        last_zero_window_probe: None,
        last_activity: NOW,
    }
}

#[test]
fn test_egress_handshake() {
    let mut proxy = setup_proxy();

    let vm_port = 49152;
    let host_ip = ip(8, 8, 8, 8);
    let host_port = 443;
    let vm_initial_seq: u32 = 1000;

    // 1. VM sends SYN
    let syn_from_vm =
        build_vm_tcp_packet(vm_port, host_ip, host_port, vm_initial_seq, 0, TcpFlags::SYN, &[]);
    packet(&mut proxy, &syn_from_vm);

    // A new simple connection was created
    assert_eq!(proxy.host_connections.len(), 1);
    let token = proxy.tcp_nat_table.get(&(VM_IP, vm_port, host_ip, host_port)).unwrap();
    let conn = proxy.host_connections.get(&token.0).unwrap();
    assert!(matches!(conn, AnyConnection::Simple(_)));

    // 2. The host socket becomes writable
    event(&mut proxy, token, false, true);

    // The connection is still a simple one
    let conn_after = proxy.host_connections.get(&token.0).unwrap();
    assert!(matches!(conn_after, AnyConnection::Simple(_)));

    // A SYN-ACK is sent when the host connection is made
    assert_eq!(proxy.to_vm_control_queue.len(), 1);
    let syn_ack_to_vm = proxy.to_vm_control_queue.pop_front().unwrap();
    let eth = EthernetPacket::new(&syn_ack_to_vm).unwrap();
    let ip = Ipv4Packet::new(eth.payload()).unwrap();
    let tcp = TcpPacket::new(ip.payload()).unwrap();
    assert_eq!(tcp.get_flags(), TcpFlags::SYN | TcpFlags::ACK);
    assert_eq!(tcp.get_acknowledgement(), vm_initial_seq.wrapping_add(1));
}

#[test]
fn test_active_close_and_time_wait() {
    let mut proxy = setup_proxy();

    // 1. An established connection whose host is at its end
    let token = Token(21);
    let nat_key = (VM_IP, 50002, ip(8, 8, 8, 8), 443);
    let mock_stream = MockHostStream::default();
    mock_stream.read_buffer.lock().unwrap().push_back(Bytes::from_static(&[]));

    let conn = AnyConnection::Established(TcpConnection {
        stream: Recorded::new(mock_stream),
        nat_key,
        state: established(200),
        packet_buf: BytesMut::with_capacity(2048),
    });
    proxy.host_connections.insert(token.0, conn);
    proxy.tcp_nat_table.insert(nat_key, token);
    proxy.reverse_tcp_nat.insert(token.0, nat_key);
    proxy.next_token = 22;

    // 2. The host closes: the proxy sends a FIN
    event(&mut proxy, token, true, false);

    let conn = proxy.host_connections.get(&token.0).unwrap();
    assert!(matches!(conn, AnyConnection::FinWait1(_)));
    let proxy_fin_seq = if let AnyConnection::FinWait1(c) = conn {
        c.state.fin_seq
    } else {
        panic!()
    };
    assert_eq!(proxy.to_vm_control_queue.len(), 1, "Proxy should send FIN");

    // 3. The machine acknowledges the FIN
    proxy.to_vm_control_queue.clear();
    let ack_of_fin = build_vm_tcp_packet(
        nat_key.1,
        nat_key.2,
        nat_key.3,
        200,
        proxy_fin_seq,
        TcpFlags::ACK,
        &[],
    );
    packet(&mut proxy, &ack_of_fin);

    assert!(matches!(
        proxy.host_connections.get(&token.0).unwrap(),
        AnyConnection::FinWait2(_)
    ));

    // 4. The machine sends its own FIN
    let fin_from_vm = build_vm_tcp_packet(
        nat_key.1,
        nat_key.2,
        nat_key.3,
        200,
        proxy_fin_seq,
        TcpFlags::FIN | TcpFlags::ACK,
        &[],
    );
    packet(&mut proxy, &fin_from_vm);

    assert!(matches!(
        proxy.host_connections.get(&token.0).unwrap(),
        AnyConnection::TimeWait(_)
    ));
    assert_eq!(proxy.to_vm_control_queue.len(), 1, "Proxy should send final ACK");
    assert!(
        proxy.time_wait_queue.iter().any(|&(_, t)| t == token),
        "Connection should be in TIME_WAIT queue"
    );
}

#[test]
fn test_rst_in_established_state() {
    let mut proxy = setup_proxy();

    // 1. An established connection
    let token = Token(30);
    let nat_key = (VM_IP, 50010, ip(8, 8, 8, 8), 443);
    let conn = AnyConnection::Established(TcpConnection {
        stream: Recorded::new(MockHostStream::default()),
        nat_key,
        state: established(100),
        packet_buf: BytesMut::with_capacity(2048),
    });
    proxy.host_connections.insert(token.0, conn);
    proxy.tcp_nat_table.insert(nat_key, token);
    proxy.reverse_tcp_nat.insert(token.0, nat_key);
    proxy.next_token = 31;

    // 2. The machine sends a RST
    let rst_from_vm =
        build_vm_tcp_packet(nat_key.1, nat_key.2, nat_key.3, 200, 0, TcpFlags::RST, &[]);
    packet(&mut proxy, &rst_from_vm);

    // 3. The connection is to be removed
    assert!(
        proxy.connections_to_remove.contains(&token),
        "Connection should be queued for removal after RST"
    );

    // 4. Any event has it removed
    event(&mut proxy, Token(101), false, false);

    // 5. Nothing is left of it
    assert!(
        proxy.connections_to_remove.is_empty(),
        "Cleanup queue should be empty after handle_event"
    );
    assert!(
        proxy.host_connections.get(&token.0).is_none(),
        "Connection should have been removed"
    );
    assert!(
        proxy.tcp_nat_table.get(&nat_key).is_none(),
        "NAT table entry should be gone"
    );
    assert!(
        proxy.reverse_tcp_nat.get(&token.0).is_none(),
        "Reverse NAT table entry should be gone"
    );
}
