//! The proxy that writes straight to the host.
use std::collections::{HashMap, VecDeque};
use std::sync::{Arc, Mutex};

use bytes::{Bytes, BytesMut};
use net_proxy::addr::{Interest, IpAddr, Ipv4Addr, NatKey, Token};
use net_proxy::direct_proxy::events::EventInput;
use net_proxy::direct_proxy::packets::Demand;
use net_proxy::direct_proxy::{
    build_tcp_packet, AnyConnection, Established, NetProxy, TcpConnection, MAX_PROXY_QUEUE_SIZE,
};
use net_proxy::host::{HostRead, HostStream, HostWrite, Recorded, RegisterError};
use pnet::packet::ethernet::{EtherTypes, EthernetPacket, MutableEthernetPacket};
use pnet::packet::ip::IpNextHeaderProtocols;
use pnet::packet::ipv4::{self, Ipv4Packet, MutableIpv4Packet};
use pnet::packet::tcp::{self, MutableTcpPacket, TcpFlags, TcpPacket};
use pnet::packet::{MutablePacket, Packet};
use pnet::util::MacAddr;

const NOW: u64 = 0;
const VM_IP: [u8; 4] = [192, 168, 100, 2];
const PROXY_MAC: MacAddr = MacAddr(0x02, 0x00, 0x00, 0x01, 0x02, 0x03);
const VM_MAC: MacAddr = MacAddr(0xde, 0xad, 0xbe, 0xef, 0x00, 0x00);

type Proxy = NetProxy<Recorded<MockHostStream>>;

/// A host that does what a test wants.
#[derive(Default)]
struct MockHostStream {
    read_buffer: Arc<Mutex<VecDeque<Bytes>>>,
    write_buffer: Arc<Mutex<Vec<u8>>>,
    shutdown_state: Arc<Mutex<bool>>,
    simulate_read_close: Arc<Mutex<bool>>,
    write_capacity: Arc<Mutex<Option<usize>>>,
    read_reset: Arc<Mutex<bool>>,
}

impl HostStream for MockHostStream {
    fn read(&mut self, max: usize) -> HostRead {
        if *self.read_reset.lock().unwrap() {
            return HostRead::Reset;
        }
        if *self.simulate_read_close.lock().unwrap() {
            return HostRead::Data(vec![]);
        }
        let mut read_buf = self.read_buffer.lock().unwrap();
        match read_buf.pop_front() {
            Some(mut front) => {
                let data = front.split_to(front.len().min(max));
                if !front.is_empty() {
                    read_buf.push_front(front);
                }
                HostRead::Data(data.to_vec())
            }
            None => HostRead::WouldBlock,
        }
    }

    fn write(&mut self, data: &[u8]) -> HostWrite {
        let mut capacity = self.write_capacity.lock().unwrap();
        let n = match *capacity {
            Some(0) => return HostWrite::WouldBlock,
            Some(left) => data.len().min(left),
            None => data.len(),
        };
        if let Some(left) = capacity.as_mut() {
            *left -= n;
        }
        self.write_buffer.lock().unwrap().extend_from_slice(&data[..n]);
        HostWrite::Wrote(n)
    }

    fn register(&mut self, _token: Token, _interest: Interest) -> bool {
        true
    }

    fn reregister(&mut self, _token: Token, _interest: Interest) -> Result<(), RegisterError> {
        Ok(())
    }

    fn deregister(&mut self) -> bool {
        true
    }

    fn shutdown_write(&mut self) -> bool {
        *self.shutdown_state.lock().unwrap() = true;
        true
    }
}

fn ip(octets: [u8; 4]) -> IpAddr {
    IpAddr::V4(Ipv4Addr::new(octets[0], octets[1], octets[2], octets[3]))
}

/// A proxy that gives out handles from 10 on.
fn new_proxy() -> Proxy {
    NetProxy::new(10, HashMap::new(), NOW)
}

fn event(proxy: &mut Proxy, token: Token, is_readable: bool, is_writable: bool) {
    let input = EventInput { accepted: None, datagram: None };
    proxy.handle_event(token, is_readable, is_writable, input, NOW);
}

/// Hands a frame to the proxy, and connects to a host where it asks for one.
fn packet(proxy: &mut Proxy, frame: &[u8]) {
    match proxy.handle_packet_from_vm(frame).unwrap() {
        Demand::Connect { nat_key, sequence } => {
            let stream = Recorded::new(MockHostStream::default());
            let (_, registered) = proxy.add_egress(stream, nat_key, sequence);
            assert!(registered);
        }
        _ => {}
    }
}

fn setup_proxy_with_established_conn(
) -> (Proxy, Token, NatKey, Arc<Mutex<Vec<u8>>>, Arc<Mutex<bool>>, Arc<Mutex<bool>>) {
    let mut proxy = new_proxy();

    let token = Token(10);
    let nat_key = (ip(VM_IP), 50000, ip([8, 8, 8, 8]), 443);
    let write_buffer = Arc::new(Mutex::new(Vec::new()));
    let shutdown_state = Arc::new(Mutex::new(false));
    let read_close = Arc::new(Mutex::new(false));

    let mock_stream = Recorded::new(MockHostStream {
        write_buffer: write_buffer.clone(),
        shutdown_state: shutdown_state.clone(),
        simulate_read_close: read_close.clone(),
        ..Default::default()
    });

    let conn = TcpConnection {
        stream: mock_stream,
        tx_seq: 100,
        tx_ack: 200,
        state: Established,
        write_buffer: VecDeque::new(),
        to_vm_buffer: VecDeque::new(),
    };

    proxy.host_connections.insert(token.0, AnyConnection::Established(conn));
    proxy.tcp_nat_table.insert(nat_key, token);
    proxy.reverse_tcp_nat.insert(token.0, nat_key);
    proxy.next_token = 11;

    (proxy, token, nat_key, write_buffer, shutdown_state, read_close)
}

/// Looks at every part of a frame.
fn assert_packet(
    packet_bytes: &Bytes,
    expected_src_ip: IpAddr,
    expected_dst_ip: IpAddr,
    expected_src_port: u16,
    expected_dst_port: u16,
    expected_flags: u8,
    expected_seq: u32,
    expected_ack: u32,
) {
    let eth_packet = EthernetPacket::new(packet_bytes).expect("Failed to parse Ethernet packet");
    assert_eq!(eth_packet.get_ethertype(), EtherTypes::Ipv4);

    let ipv4_packet = Ipv4Packet::new(eth_packet.payload()).expect("Failed to parse IPv4 packet");
    assert_eq!(ip(ipv4_packet.get_source().octets()), expected_src_ip);
    assert_eq!(ip(ipv4_packet.get_destination().octets()), expected_dst_ip);
    assert_eq!(ipv4_packet.get_next_level_protocol(), IpNextHeaderProtocols::Tcp);

    let tcp_packet = TcpPacket::new(ipv4_packet.payload()).expect("Failed to parse TCP packet");
    assert_eq!(tcp_packet.get_source(), expected_src_port);
    assert_eq!(tcp_packet.get_destination(), expected_dst_port);
    assert_eq!(tcp_packet.get_flags(), expected_flags, "TCP flags did not match");
    assert_eq!(tcp_packet.get_sequence(), expected_seq, "Sequence number did not match");
    assert_eq!(
        tcp_packet.get_acknowledgement(),
        expected_ack,
        "Acknowledgment number did not match"
    );
}

#[test]
fn test_partial_write_maintains_order() {
    // 1. SETUP
    let mut proxy = new_proxy();
    let token = Token(10);

    let packet_a_payload = Bytes::from_static(b"THIS_IS_THE_FIRST_PACKET_PAYLOAD"); // 32 bytes
    let packet_b_payload = Bytes::from_static(b"THIS_IS_THE_SECOND_ONE");
    let host_ip = [1, 2, 3, 4];

    let host_written_data = Arc::new(Mutex::new(Vec::new()));
    let mock_write_capacity = Arc::new(Mutex::new(None));

    let mock_stream = Recorded::new(MockHostStream {
        write_buffer: host_written_data.clone(),
        write_capacity: mock_write_capacity.clone(),
        ..Default::default()
    });

    let nat_key = (ip(VM_IP), 12345, ip(host_ip), 80);
    let conn = TcpConnection {
        stream: mock_stream,
        tx_seq: 1000,
        tx_ack: 2000,
        state: Established,
        write_buffer: VecDeque::new(),
        to_vm_buffer: VecDeque::new(),
    };
    proxy.host_connections.insert(token.0, AnyConnection::Established(conn));
    proxy.tcp_nat_table.insert(nat_key, token);
    proxy.reverse_tcp_nat.insert(token.0, nat_key);
    proxy.next_token = 11;

    let build_packet_from_vm = |payload: &[u8], seq: u32| {
        let frame_len = 54 + payload.len();
        let mut raw_packet = vec![0u8; frame_len];
        let mut eth_frame = MutableEthernetPacket::new(&mut raw_packet).unwrap();
        eth_frame.set_destination(PROXY_MAC);
        eth_frame.set_source(VM_MAC);
        eth_frame.set_ethertype(EtherTypes::Ipv4);

        let mut ipv4 = MutableIpv4Packet::new(eth_frame.payload_mut()).unwrap();
        ipv4.set_version(4);
        ipv4.set_header_length(5);
        ipv4.set_total_length((20 + 20 + payload.len()) as u16);
        ipv4.set_ttl(64);
        ipv4.set_next_level_protocol(IpNextHeaderProtocols::Tcp);
        ipv4.set_source(VM_IP.into());
        ipv4.set_destination(host_ip.into());
        ipv4.set_checksum(ipv4::checksum(&ipv4.to_immutable()));

        let mut tcp = MutableTcpPacket::new(ipv4.payload_mut()).unwrap();
        tcp.set_source(12345);
        tcp.set_destination(80);
        tcp.set_sequence(seq);
        tcp.set_acknowledgement(1000);
        tcp.set_data_offset(5);
        tcp.set_flags(TcpFlags::ACK | TcpFlags::PSH);
        tcp.set_window(u16::MAX);
        tcp.set_payload(payload);
        tcp.set_checksum(tcp::ipv4_checksum(&tcp.to_immutable(), &VM_IP.into(), &host_ip.into()));

        Bytes::copy_from_slice(eth_frame.packet())
    };

    // 2. EXECUTION - PART 1: Force a partial write of Packet A
    *mock_write_capacity.lock().unwrap() = Some(20);
    let packet_a = build_packet_from_vm(&packet_a_payload, 2000);
    packet(&mut proxy, &packet_a);

    // Assert that exactly 20 bytes were written.
    assert_eq!(*host_written_data.lock().unwrap(), b"THIS_IS_THE_FIRST_PA");

    // Assert that the remaining 12 bytes were correctly buffered by the proxy.
    if let Some(AnyConnection::Established(c)) = proxy.host_connections.get(&token.0) {
        assert_eq!(c.write_buffer.front().unwrap().as_ref(), b"CKET_PAYLOAD");
    } else {
        panic!("Connection not in established state");
    }

    // 3. EXECUTION - PART 2: Send Packet B
    let packet_b = build_packet_from_vm(&packet_b_payload, 2000 + 32);
    packet(&mut proxy, &packet_b);

    // 4. EXECUTION - PART 3: Drain the proxy's buffer
    *mock_write_capacity.lock().unwrap() = Some(1000);
    event(&mut proxy, token, false, true);

    // 5. FINAL ASSERTION
    let expected_final_data = [packet_a_payload.as_ref(), packet_b_payload.as_ref()].concat();
    assert_eq!(*host_written_data.lock().unwrap(), expected_final_data);
}

#[test]
fn test_egress_handshake_sends_correct_syn_ack() {
    let mut proxy = new_proxy();

    let vm_ip = VM_IP;
    let vm_port = 49152;
    let server_ip = [1, 1, 1, 1];
    let server_port = 80;
    let nat_key = (ip(vm_ip), vm_port, ip(server_ip), server_port);
    let vm_initial_seq = 1000;

    let mut raw_packet_buf = [0u8; 60];
    let mut eth_frame = MutableEthernetPacket::new(&mut raw_packet_buf).unwrap();
    eth_frame.set_destination(PROXY_MAC);
    eth_frame.set_source(VM_MAC);
    eth_frame.set_ethertype(EtherTypes::Ipv4);

    let mut ipv4_packet = MutableIpv4Packet::new(eth_frame.payload_mut()).unwrap();
    ipv4_packet.set_version(4);
    ipv4_packet.set_header_length(5);
    ipv4_packet.set_total_length(40);
    ipv4_packet.set_ttl(64);
    ipv4_packet.set_next_level_protocol(IpNextHeaderProtocols::Tcp);
    ipv4_packet.set_source(vm_ip.into());
    ipv4_packet.set_destination(server_ip.into());

    let mut tcp_packet = MutableTcpPacket::new(ipv4_packet.payload_mut()).unwrap();
    tcp_packet.set_source(vm_port);
    tcp_packet.set_destination(server_port);
    tcp_packet.set_sequence(vm_initial_seq);
    tcp_packet.set_data_offset(5);
    tcp_packet.set_flags(TcpFlags::SYN);
    tcp_packet.set_window(u16::MAX);
    tcp_packet.set_checksum(tcp::ipv4_checksum(
        &tcp_packet.to_immutable(),
        &vm_ip.into(),
        &server_ip.into(),
    ));

    ipv4_packet.set_checksum(ipv4::checksum(&ipv4_packet.to_immutable()));
    let syn_from_vm = eth_frame.packet();
    packet(&mut proxy, syn_from_vm);
    let token = proxy.tcp_nat_table.get(&nat_key).unwrap();
    event(&mut proxy, token, false, true);

    assert_eq!(proxy.to_vm_control_queue.len(), 1);
    let packet_to_vm = proxy.to_vm_control_queue.pop_front().unwrap();

    let proxy_initial_seq =
        if let AnyConnection::Established(conn) = proxy.host_connections.get(&token.0).unwrap() {
            conn.tx_seq.wrapping_sub(1)
        } else {
            panic!("Connection not established");
        };

    assert_packet(
        &packet_to_vm,
        ip(server_ip),
        ip(vm_ip),
        server_port,
        vm_port,
        TcpFlags::SYN | TcpFlags::ACK,
        proxy_initial_seq,
        vm_initial_seq.wrapping_add(1),
    );
}

#[test]
fn test_proxy_acks_data_from_vm() {
    let (mut proxy, token, nat_key, host_write_buffer, _, _) =
        setup_proxy_with_established_conn();

    let (vm_ip, vm_port, host_ip, host_port) = nat_key;

    let conn_state = proxy.host_connections.get_mut(&token.0).unwrap();
    let tx_seq_before = if let AnyConnection::Established(c) = conn_state {
        c.tx_seq
    } else {
        0
    };

    let data_from_vm = build_tcp_packet(
        &mut BytesMut::new(),
        nat_key,
        200,
        101,
        Some(b"0123456789"),
        Some(TcpFlags::ACK | TcpFlags::PSH),
    );
    packet(&mut proxy, &data_from_vm);

    assert_eq!(*host_write_buffer.lock().unwrap(), b"0123456789");

    assert_eq!(proxy.to_vm_control_queue.len(), 1);
    let packet_to_vm = proxy.to_vm_control_queue.pop_front().unwrap();

    assert_packet(
        &packet_to_vm,
        host_ip,
        vm_ip,
        host_port,
        vm_port,
        TcpFlags::ACK,
        tx_seq_before,
        210,
    );
}

#[test]
fn test_fin_from_host_sends_fin_to_vm() {
    let (mut proxy, token, nat_key, _, _, read_close) = setup_proxy_with_established_conn();
    let (vm_ip, vm_port, host_ip, host_port) = nat_key;

    let conn_state_before = proxy.host_connections.get(&token.0).unwrap();
    let (tx_seq_before, tx_ack_before) =
        if let AnyConnection::Established(c) = conn_state_before {
            (c.tx_seq, c.tx_ack)
        } else {
            panic!()
        };

    *read_close.lock().unwrap() = true;

    event(&mut proxy, token, true, false);

    assert_eq!(proxy.to_vm_control_queue.len(), 1);
    let packet_to_vm = proxy.to_vm_control_queue.pop_front().unwrap();

    assert_packet(
        &packet_to_vm,
        host_ip,
        vm_ip,
        host_port,
        vm_port,
        TcpFlags::FIN | TcpFlags::ACK,
        tx_seq_before,
        tx_ack_before,
    );

    let conn_state_after = proxy.host_connections.get(&token.0).unwrap();
    assert!(matches!(conn_state_after, AnyConnection::Closing(_)));
    if let AnyConnection::Closing(c) = conn_state_after {
        assert_eq!(c.tx_seq, tx_seq_before.wrapping_add(1));
    }
}

#[test]
fn test_egress_handshake_and_data_transfer() {
    let mut proxy = new_proxy();

    let vm_port = 49152;
    let server_ip = [1, 1, 1, 1];
    let server_port = 80;

    let nat_key = (ip(VM_IP), vm_port, ip(server_ip), server_port);
    let token = Token(10);

    let mut raw_packet_buf = [0u8; 60];
    let mut eth_frame = MutableEthernetPacket::new(&mut raw_packet_buf).unwrap();
    eth_frame.set_destination(PROXY_MAC);
    eth_frame.set_source(VM_MAC);
    eth_frame.set_ethertype(EtherTypes::Ipv4);

    let mut ipv4_packet = MutableIpv4Packet::new(eth_frame.payload_mut()).unwrap();
    ipv4_packet.set_version(4);
    ipv4_packet.set_header_length(5);
    ipv4_packet.set_total_length(40);
    ipv4_packet.set_ttl(64);
    ipv4_packet.set_next_level_protocol(IpNextHeaderProtocols::Tcp);
    ipv4_packet.set_source(VM_IP.into());
    ipv4_packet.set_destination(server_ip.into());

    let mut tcp_packet = MutableTcpPacket::new(ipv4_packet.payload_mut()).unwrap();
    tcp_packet.set_source(vm_port);
    tcp_packet.set_destination(server_port);
    tcp_packet.set_sequence(1000);
    tcp_packet.set_data_offset(5);
    tcp_packet.set_flags(TcpFlags::SYN);
    tcp_packet.set_window(u16::MAX);
    tcp_packet.set_checksum(tcp::ipv4_checksum(
        &tcp_packet.to_immutable(),
        &VM_IP.into(),
        &server_ip.into(),
    ));

    ipv4_packet.set_checksum(ipv4::checksum(&ipv4_packet.to_immutable()));
    let syn_from_vm = eth_frame.packet();

    packet(&mut proxy, syn_from_vm);

    assert_eq!(proxy.tcp_nat_table.get(&nat_key).unwrap(), token);
    assert_eq!(proxy.host_connections.len(), 1);

    event(&mut proxy, token, false, true);

    assert!(matches!(
        proxy.host_connections.get(&token.0).unwrap(),
        AnyConnection::Established(_)
    ));
    assert_eq!(proxy.to_vm_control_queue.len(), 1);
}

#[test]
fn test_graceful_close_from_vm_fin() {
    let (mut proxy, token, nat_key, _, host_shutdown_state, _) =
        setup_proxy_with_established_conn();

    let fin_from_vm = build_tcp_packet(
        &mut BytesMut::new(),
        nat_key,
        200,
        101,
        None,
        Some(TcpFlags::FIN | TcpFlags::ACK),
    );
    proxy.handle_packet_from_vm(&fin_from_vm).unwrap();

    assert!(matches!(
        proxy.host_connections.get(&token.0).unwrap(),
        AnyConnection::Closing(_)
    ));
    assert!(*host_shutdown_state.lock().unwrap());
}

#[test]
fn test_graceful_close_from_host() {
    let (mut proxy, token, _, _, _, read_close) = setup_proxy_with_established_conn();

    *read_close.lock().unwrap() = true;

    event(&mut proxy, token, true, false);

    assert!(matches!(
        proxy.host_connections.get(&token.0).unwrap(),
        AnyConnection::Closing(_)
    ));
    assert_eq!(proxy.to_vm_control_queue.len(), 1);
    let packet_bytes = proxy.to_vm_control_queue.front().unwrap();
    let eth_packet = EthernetPacket::new(packet_bytes).unwrap();
    let ipv4_packet = Ipv4Packet::new(eth_packet.payload()).unwrap();
    let tcp_packet = TcpPacket::new(ipv4_packet.payload()).unwrap();
    assert_eq!(tcp_packet.get_flags() & TcpFlags::FIN, TcpFlags::FIN);
}

#[test]
fn test_reverse_mode_flow_control() {
    // GIVEN: a proxy with a mocked connection
    let mut proxy = new_proxy();

    let vm_ip = ip(VM_IP);
    let vm_port = 50000;
    let server_ip = ip([93, 184, 216, 34]);
    let server_port = 5201;
    let nat_key = (vm_ip, vm_port, server_ip, server_port);
    let token = Token(10);

    let server_read_buffer = Arc::new(Mutex::new(VecDeque::<Bytes>::new()));
    let mock_server_stream = Recorded::new(MockHostStream {
        read_buffer: server_read_buffer.clone(),
        ..Default::default()
    });

    // Manually insert an established connection
    let conn = TcpConnection {
        stream: mock_server_stream,
        tx_seq: 100,
        tx_ack: 1001,
        state: Established,
        write_buffer: VecDeque::new(),
        to_vm_buffer: VecDeque::new(),
    };
    proxy.tcp_nat_table.insert(nat_key, token);
    proxy.reverse_tcp_nat.insert(token.0, nat_key);
    proxy.next_token = 11;
    proxy.host_connections.insert(token.0, AnyConnection::Established(conn));

    // WHEN: a flood of data arrives from the host (more than the proxy's queue size)
    for i in 0..100 {
        server_read_buffer
            .lock()
            .unwrap()
            .push_back(Bytes::from(format!("chunk_{}", i)));
    }

    // AND: the proxy processes readable events until it decides to pause
    let mut safety_break = 0;
    while !proxy.paused_reads.contains(&token.0) {
        event(&mut proxy, token, true, false);
        safety_break += 1;
        if safety_break > (MAX_PROXY_QUEUE_SIZE + 5) {
            panic!("Test loop ran too many times, backpressure did not engage.");
        }
    }

    // THEN: The connection should be paused and its buffer should be full
    assert!(
        proxy.paused_reads.contains(&token.0),
        "Connection should be in the paused_reads set"
    );

    let get_buffer_len = |proxy: &Proxy| {
        proxy
            .host_connections.get(&token.0)
            .unwrap()
            .to_vm_buffer()
            .len()
    };

    assert_eq!(
        get_buffer_len(&proxy),
        MAX_PROXY_QUEUE_SIZE,
        "Connection's to_vm_buffer should be full"
    );

    // AND: a subsequent 'readable' event for the paused connection should be IGNORED
    event(&mut proxy, token, true, false);

    // Assert that the buffer size has NOT increased, proving the read was skipped.
    assert_eq!(
        get_buffer_len(&proxy),
        MAX_PROXY_QUEUE_SIZE,
        "Buffer size should not increase when a read is paused"
    );

    // WHEN: an ACK is received from the VM, the connection should un-pause
    let ack_from_vm = build_tcp_packet(
        &mut BytesMut::new(),
        nat_key,
        1001, // VM sequence number
        500,  // Doesn't matter for this test
        None,
        Some(TcpFlags::ACK),
    );
    packet(&mut proxy, &ack_from_vm);

    // THEN: The connection should no longer be paused
    assert!(
        !proxy.paused_reads.contains(&token.0),
        "The ACK from the VM should have unpaused reads."
    );

    // AND: The proxy should now be able to read more data again
    let buffer_len_before_resume = get_buffer_len(&proxy);
    event(&mut proxy, token, true, false);
    let buffer_len_after_resume = get_buffer_len(&proxy);
    assert!(
        buffer_len_after_resume > buffer_len_before_resume,
        "Proxy should have read more data after being unpaused"
    );

}

#[test]
fn test_rst_from_vm_tears_down_connection() {
    // 1. SETUP
    let mut proxy = new_proxy();
    let token = Token(10);
    let host_ip = [8, 8, 8, 8];

    // Manually insert an established connection into the proxy's state
    let nat_key = (ip(VM_IP), 54321, ip(host_ip), 443);
    let conn = TcpConnection {
        stream: Recorded::new(MockHostStream::default()), // The mock stream isn't used here
        tx_seq: 1000,
        tx_ack: 2000,
        state: Established,
        write_buffer: VecDeque::new(),
        to_vm_buffer: VecDeque::new(),
    };
    proxy.host_connections.insert(token.0, AnyConnection::Established(conn));
    proxy.tcp_nat_table.insert(nat_key, token);
    proxy.reverse_tcp_nat.insert(token.0, nat_key);
    proxy.next_token = 11;

    // 2. ACTION: Simulate a RST packet arriving from the VM

    // Craft a valid TCP header with the RST flag set
    let rst_packet = {
        let mut raw_packet = [0u8; 100];
        let mut eth = MutableEthernetPacket::new(&mut raw_packet).unwrap();
        eth.set_destination(PROXY_MAC);
        eth.set_source(VM_MAC);
        eth.set_ethertype(EtherTypes::Ipv4);
        let mut ip = MutableIpv4Packet::new(eth.payload_mut()).unwrap();
        ip.set_version(4);
        ip.set_header_length(5);
        ip.set_total_length(40);
        ip.set_ttl(64);
        ip.set_next_level_protocol(IpNextHeaderProtocols::Tcp);
        ip.set_source(VM_IP.into());
        ip.set_destination(host_ip.into());
        let mut tcp = MutableTcpPacket::new(ip.payload_mut()).unwrap();
        tcp.set_source(54321);
        tcp.set_destination(443);
        tcp.set_sequence(2000); // In-sequence
        tcp.set_flags(TcpFlags::RST | TcpFlags::ACK);
        Bytes::copy_from_slice(eth.packet())
    };

    // Process the RST packet
    packet(&mut proxy, &rst_packet);

    // 3. ASSERTION: The connection should be marked for immediate removal
    assert!(
        proxy.connections_to_remove.contains(&token),
        "Connection token should be in the removal queue after a RST"
    );

    // We can also run the cleanup code to be thorough
    event(&mut proxy, Token(999), false, false); // A dummy event to trigger cleanup
    assert!(
        !proxy.host_connections.contains_key(&token.0),
        "Connection should be gone from the map after cleanup"
    );
}
#[test]
fn test_ingress_connection_handshake() {
    // 1. SETUP
    let start_token = 10;
    let listener_token = Token(start_token); // The first token allocated will be for the listener.
    let vm_port = 8080;

    let mut proxy: Proxy =
        NetProxy::new(start_token + 1, HashMap::from([(start_token, vm_port)]), NOW);

    // 2. ACTION - PART 1: Simulate a client connecting to the Unix socket.
    let client = Recorded::new(MockHostStream::default());
    let input = EventInput { accepted: Some(client), datagram: None };
    proxy.handle_event(listener_token, true, false, input, NOW);

    // 3. ASSERTIONS - PART 1: Verify the proxy sends a SYN packet to the VM.
    assert_eq!(
        proxy.host_connections.len(),
        1,
        "A new host connection should be created"
    );
    let new_conn_token = Token(start_token + 1);
    assert!(
        proxy.host_connections.contains_key(&new_conn_token.0),
        "Connection should exist for the new token"
    );
    assert!(
        matches!(
            proxy.host_connections.get(&new_conn_token.0).unwrap(),
            AnyConnection::IngressConnecting(_)
        ),
        "Connection should be in the IngressConnecting state"
    );

    assert_eq!(
        proxy.to_vm_control_queue.len(),
        1,
        "Proxy should have one packet to send to the VM"
    );
    let syn_to_vm = proxy.to_vm_control_queue.pop_front().unwrap();

    let eth_syn = EthernetPacket::new(&syn_to_vm).expect("Failed to parse SYN Ethernet frame");
    let ipv4_syn = Ipv4Packet::new(eth_syn.payload()).expect("Failed to parse SYN IPv4 packet");
    let syn_tcp = TcpPacket::new(ipv4_syn.payload()).expect("Failed to parse SYN TCP packet");

    assert_eq!(
        syn_tcp.get_destination(),
        vm_port,
        "SYN packet destination port should be the forwarded port"
    );
    assert_eq!(
        syn_tcp.get_flags() & TcpFlags::SYN,
        TcpFlags::SYN,
        "Packet should have SYN flag"
    );
    let proxy_initial_seq = syn_tcp.get_sequence();

    // 4. ACTION - PART 2: Simulate the VM replying with a SYN-ACK.
    let nat_key = *proxy.reverse_tcp_nat.get(&new_conn_token.0).unwrap();
    let vm_initial_seq = 5000;
    let syn_ack_from_vm = build_tcp_packet(
        &mut BytesMut::new(),
        nat_key,
        vm_initial_seq,                    // VM's sequence number
        proxy_initial_seq.wrapping_add(1), // Acknowledging the proxy's SYN
        None,
        Some(TcpFlags::SYN | TcpFlags::ACK),
    );
    packet(&mut proxy, &syn_ack_from_vm);

    // 5. ASSERTIONS - PART 2: Verify the connection is now established.
    assert!(
        matches!(
            proxy.host_connections.get(&new_conn_token.0).unwrap(),
            AnyConnection::Established(_)
        ),
        "Connection should now be in the Established state"
    );

    assert_eq!(
        proxy.to_vm_control_queue.len(),
        1,
        "Proxy should have sent the final ACK packet to the VM"
    );

    let final_ack_to_vm = proxy.to_vm_control_queue.pop_front().unwrap();

    let eth_ack = EthernetPacket::new(&final_ack_to_vm)
        .expect("Failed to parse final ACK Ethernet frame");
    let ipv4_ack =
        Ipv4Packet::new(eth_ack.payload()).expect("Failed to parse final ACK IPv4 packet");
    let final_ack_tcp =
        TcpPacket::new(ipv4_ack.payload()).expect("Failed to parse final ACK TCP packet");

    assert_eq!(
        final_ack_tcp.get_flags() & TcpFlags::ACK,
        TcpFlags::ACK,
        "Packet should have ACK flag"
    );
    assert_eq!(
        final_ack_tcp.get_flags() & TcpFlags::SYN,
        0,
        "Packet should NOT have SYN flag"
    );

    assert_eq!(
        final_ack_tcp.get_sequence(),
        proxy_initial_seq.wrapping_add(1)
    );
    assert_eq!(
        final_ack_tcp.get_acknowledgement(),
        vm_initial_seq.wrapping_add(1)
    );
}

#[test]
fn test_host_connection_reset_sends_rst_to_vm() {
    // 1. SETUP
    let mut proxy = new_proxy();
    let token = Token(10);
    let host_ip = [8, 8, 8, 8];

    // Create a mock stream that will return a ConnectionReset error on read.
    let mock_stream = Recorded::new(MockHostStream {
        read_reset: Arc::new(Mutex::new(true)),
        ..Default::default()
    });

    // Manually insert an established connection into the proxy's state.
    let nat_key = (ip(VM_IP), 54321, ip(host_ip), 443);
    let conn = TcpConnection {
        stream: mock_stream,
        tx_seq: 1000,
        tx_ack: 2000,
        state: Established,
        write_buffer: VecDeque::new(),
        to_vm_buffer: VecDeque::new(),
    };
    proxy.host_connections.insert(token.0, AnyConnection::Established(conn));
    proxy.tcp_nat_table.insert(nat_key, token);
    proxy.reverse_tcp_nat.insert(token.0, nat_key);
    proxy.next_token = 11;

    // 2. ACTION: Simulate a readable event, which will trigger the error.
    event(&mut proxy, token, true, false);

    // 3. ASSERTIONS
    // Assert that a RST packet was sent to the VM.
    assert_eq!(
        proxy.to_vm_control_queue.len(),
        1,
        "Proxy should send one packet to VM"
    );
    let rst_packet = proxy.to_vm_control_queue.front().unwrap();
    let eth = EthernetPacket::new(rst_packet).unwrap();
    let ip = Ipv4Packet::new(eth.payload()).unwrap();
    let tcp = TcpPacket::new(ip.payload()).unwrap();
    assert_eq!(
        tcp.get_flags() & TcpFlags::RST,
        TcpFlags::RST,
        "Packet should have RST flag set"
    );

    // Assert that the connection has been fully removed from the proxy's state,
    // which is the end result of the cleanup process.
    assert!(
        !proxy.host_connections.contains_key(&token.0),
        "Connection should be removed from the active connections map after reset"
    );
}

#[test]
fn test_final_ack_completes_graceful_close() {
    // 1. SETUP
    let mut proxy = new_proxy();
    let token = Token(10);
    let host_ip = [8, 8, 8, 8];

    // Create a connection and put it directly into the `Closing` state.
    // This simulates the state after the proxy has sent a FIN to the VM.
    let closing_conn = {
        let est_conn = TcpConnection {
            stream: Recorded::new(MockHostStream::default()),
            tx_seq: 1000,
            tx_ack: 2000,
            state: Established,
            write_buffer: VecDeque::new(),
            to_vm_buffer: VecDeque::new(),
        };
        // When the proxy sends a FIN, its sequence number is incremented.
        let mut conn_after_fin = est_conn.close();
        conn_after_fin.tx_seq = conn_after_fin.tx_seq.wrapping_add(1);
        conn_after_fin
    };
    let nat_key = (ip(VM_IP), 54321, ip(host_ip), 443);
    proxy.host_connections.insert(token.0, AnyConnection::Closing(closing_conn));
    proxy.tcp_nat_table.insert(nat_key, token);
    proxy.reverse_tcp_nat.insert(token.0, nat_key);
    proxy.next_token = 11;

    // 2. ACTION: Simulate the final ACK from the VM.
    // This ACK acknowledges the FIN that the proxy already sent.
    let final_ack_from_vm = build_tcp_packet(
        &mut BytesMut::new(),
        nat_key,
        2000, // VM's sequence number
        1001, // Acknowledging the proxy's FIN (initial seq 1000 + 1)
        None,
        Some(TcpFlags::ACK),
    );
    packet(&mut proxy, &final_ack_from_vm);

    // 3. ASSERTION
    assert!(
        proxy.connections_to_remove.contains(&token),
        "Connection should be marked for removal after final ACK"
    );
}

#[test]
fn test_out_of_order_packet_from_vm_is_ignored() {
    // 1. SETUP
    let mut proxy = new_proxy();
    let token = Token(10);
    let host_ip = [8, 8, 8, 8];

    // The proxy expects the next sequence number from the VM to be 2000.
    let expected_ack_from_vm = 2000;

    let host_write_buffer = Arc::new(Mutex::new(Vec::new()));
    let mock_stream = Recorded::new(MockHostStream {
        write_buffer: host_write_buffer.clone(),
        ..Default::default()
    });

    // Manually insert an established connection into the proxy's state.
    let nat_key = (ip(VM_IP), 54321, ip(host_ip), 443);
    let conn = TcpConnection {
        stream: mock_stream,
        tx_seq: 1000,                 // Proxy's sequence number to the VM
        tx_ack: expected_ack_from_vm, // What the proxy expects from the VM
        state: Established,
        write_buffer: VecDeque::new(),
        to_vm_buffer: VecDeque::new(),
    };
    proxy.host_connections.insert(token.0, AnyConnection::Established(conn));
    proxy.tcp_nat_table.insert(nat_key, token);
    proxy.reverse_tcp_nat.insert(token.0, nat_key);
    proxy.next_token = 11;

    // 2. ACTION: Simulate an out-of-order packet from the VM.
    let out_of_order_packet = {
        let payload = b"This data should be ignored";
        let frame_len = 54 + payload.len();
        let mut raw_packet = vec![0u8; frame_len];
        let mut eth = MutableEthernetPacket::new(&mut raw_packet).unwrap();
        eth.set_destination(PROXY_MAC);
        eth.set_source(VM_MAC);
        eth.set_ethertype(EtherTypes::Ipv4);
        let mut ip = MutableIpv4Packet::new(eth.payload_mut()).unwrap();
        ip.set_version(4);
        ip.set_header_length(5);
        ip.set_total_length((20 + 20 + payload.len()) as u16);
        ip.set_ttl(64);
        ip.set_next_level_protocol(IpNextHeaderProtocols::Tcp);
        ip.set_source(VM_IP.into());
        ip.set_destination(host_ip.into());
        let mut tcp = MutableTcpPacket::new(ip.payload_mut()).unwrap();
        tcp.set_source(54321);
        tcp.set_destination(443);
        tcp.set_sequence(3000); // This sequence number is intentionally incorrect.
        tcp.set_acknowledgement(1000);
        tcp.set_flags(TcpFlags::ACK | TcpFlags::PSH);
        tcp.set_payload(payload);
        Bytes::copy_from_slice(eth.packet())
    };

    // Process the bad packet.
    packet(&mut proxy, &out_of_order_packet);

    // 3. ASSERTIONS
    let conn_state = proxy.host_connections.get(&token.0).unwrap();
    let established_conn = match conn_state {
        AnyConnection::Established(c) => c,
        _ => panic!("Connection is no longer in the established state"),
    };

    // Assert that the proxy's internal state did NOT change.
    assert_eq!(
        established_conn.tx_ack, expected_ack_from_vm,
        "Proxy's expected ack number should not change"
    );

    // Assert that no side effects occurred.
    assert!(
        host_write_buffer.lock().unwrap().is_empty(),
        "No data should have been written to the host"
    );
    assert!(
        proxy.to_vm_control_queue.is_empty(),
        "Proxy should not have sent an ACK for an ignored packet"
    );

}
#[test]
fn test_simultaneous_close() {
    // 1. SETUP
    let mut proxy = new_proxy();
    let token = Token(10);
    let host_ip = [8, 8, 8, 8];

    let mock_stream = Recorded::new(MockHostStream {
        simulate_read_close: Arc::new(Mutex::new(true)),
        ..Default::default()
    });

    let nat_key = (ip(VM_IP), 54321, ip(host_ip), 443);
    let initial_proxy_seq = 1000;
    let conn = TcpConnection {
        stream: mock_stream,
        tx_seq: initial_proxy_seq,
        tx_ack: 2000,
        state: Established,
        write_buffer: VecDeque::new(),
        to_vm_buffer: VecDeque::new(),
    };
    proxy.host_connections.insert(token.0, AnyConnection::Established(conn));
    proxy.tcp_nat_table.insert(nat_key, token);
    proxy.reverse_tcp_nat.insert(token.0, nat_key);
    proxy.next_token = 11;

    // 2. ACTION: Simulate a simultaneous close
    event(&mut proxy, token, true, false);

    let fin_from_vm = build_tcp_packet(
        &mut BytesMut::new(),
        nat_key,
        2000,              // VM's sequence number
        initial_proxy_seq, // Acknowledging data up to this point
        None,
        Some(TcpFlags::FIN | TcpFlags::ACK),
    );
    packet(&mut proxy, &fin_from_vm);

    // 3. ASSERTIONS
    assert_eq!(
        proxy.to_vm_control_queue.len(),
        2,
        "Proxy should have sent two packets to the VM"
    );

    // Check Packet 1: The proxy's FIN
    let proxy_fin_packet = proxy.to_vm_control_queue.pop_front().unwrap();
    let eth_fin =
        EthernetPacket::new(&proxy_fin_packet).expect("Failed to parse FIN Ethernet frame");
    let ipv4_fin = Ipv4Packet::new(eth_fin.payload()).expect("Failed to parse FIN IPv4 packet");
    let tcp_fin = TcpPacket::new(ipv4_fin.payload()).expect("Failed to parse FIN TCP packet");
    assert_eq!(
        tcp_fin.get_flags() & TcpFlags::FIN,
        TcpFlags::FIN,
        "First packet should be a FIN"
    );
    assert_eq!(
        tcp_fin.get_sequence(),
        initial_proxy_seq,
        "FIN sequence should be correct"
    );

    // Check Packet 2: The proxy's ACK of the VM's FIN
    let proxy_ack_packet = proxy.to_vm_control_queue.pop_front().unwrap();
    let eth_ack =
        EthernetPacket::new(&proxy_ack_packet).expect("Failed to parse ACK Ethernet frame");
    let ipv4_ack = Ipv4Packet::new(eth_ack.payload()).expect("Failed to parse ACK IPv4 packet");
    let tcp_ack = TcpPacket::new(ipv4_ack.payload()).expect("Failed to parse ACK TCP packet");
    assert_eq!(
        tcp_ack.get_flags(),
        TcpFlags::ACK,
        "Second packet should be a pure ACK"
    );
    assert_eq!(
        tcp_ack.get_acknowledgement(),
        2001,
        "Should acknowledge the VM's FIN by advancing seq by 1"
    );

    assert!(
        matches!(
            proxy.host_connections.get(&token.0).unwrap(),
            AnyConnection::Closing(_)
        ),
        "Connection should be in the Closing state"
    );
    assert!(
        proxy.connections_to_remove.is_empty(),
        "Connection should not be fully removed yet"
    );

}
