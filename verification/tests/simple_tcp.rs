//! Simple connections.
use std::sync::{Arc, Mutex};

use bytes::BytesMut;
use net_proxy::addr::{Interest, IpAddr, Ipv4Addr, MacAddr, Token};
use net_proxy::host::{HostRead, HostStream, HostWrite, Recorded, RegisterError};
use net_proxy::packet_utils::build_tcp_packet;
use net_proxy::simple_tcp::{SimpleConnectionState, SimpleTcpConnection};
use net_proxy::tcp_fsm::{ProxyAction, MAX_SEGMENT_SIZE};
use net_proxy::wire::TcpSegment;
use pnet::packet::ethernet::EthernetPacket;
use pnet::packet::ipv4::Ipv4Packet;
use pnet::packet::tcp::{TcpFlags, TcpPacket};
use pnet::packet::Packet;
use pnet::util::MacAddr as PnetMac;

/// A host whose two directions can be looked into from outside.
#[derive(Clone, Default)]
struct MockHostStream {
    read_buffer: Arc<Mutex<Vec<u8>>>,
    write_buffer: Arc<Mutex<Vec<u8>>>,
}

impl MockHostStream {
    fn add_read_data(&self, data: &[u8]) {
        self.read_buffer.lock().unwrap().extend_from_slice(data);
    }

    fn get_written_data(&self) -> Vec<u8> {
        self.write_buffer.lock().unwrap().clone()
    }
}

impl HostStream for MockHostStream {
    fn read(&mut self, max: usize) -> HostRead {
        let mut buffer = self.read_buffer.lock().unwrap();
        if buffer.is_empty() {
            return HostRead::WouldBlock;
        }
        let n = buffer.len().min(max);
        HostRead::Data(buffer.drain(..n).collect())
    }

    fn write(&mut self, data: &[u8]) -> HostWrite {
        self.write_buffer.lock().unwrap().extend_from_slice(data);
        HostWrite::Wrote(data.len())
    }

    fn register(&mut self, _token: Token, _interest: Interest) -> bool {
        true
    }

    fn reregister(&mut self, _token: Token, _interest: Interest) -> Result<(), RegisterError> {
        Ok(())
    }

    fn deregister(&mut self) -> bool {
        true
    }

    fn shutdown_write(&mut self) -> bool {
        true
    }
}

fn ip(text: &str) -> IpAddr {
    let v: Vec<u8> = text.split('.').map(|n| n.parse().unwrap()).collect();
    IpAddr::V4(Ipv4Addr::new(v[0], v[1], v[2], v[3]))
}

fn mac(m: PnetMac) -> MacAddr {
    MacAddr::new(m.0, m.1, m.2, m.3, m.4, m.5)
}

fn create_test_tcp_packet(
    src_ip: IpAddr,
    src_port: u16,
    dst_ip: IpAddr,
    dst_port: u16,
    seq: u32,
    ack: u32,
    flags: u8,
    payload: &[u8],
) -> Vec<u8> {
    let mut packet_buf = BytesMut::new();
    let nat_key = (src_ip, src_port, dst_ip, dst_port);
    let packet = build_tcp_packet(
        &mut packet_buf,
        nat_key,
        seq,
        ack,
        Some(payload),
        Some(flags),
        MacAddr::new(0xde, 0xad, 0xbe, 0xef, 0x00, 0x00),
        MacAddr::new(0x02, 0x00, 0x00, 0x01, 0x02, 0x03),
    );
    packet.to_vec()
}

fn segment(data: &[u8]) -> TcpSegment {
    let p = TcpPacket::new(data).unwrap();
    TcpSegment {
        source: p.get_source(),
        destination: p.get_destination(),
        sequence: p.get_sequence(),
        acknowledgement: p.get_acknowledgement(),
        flags: p.get_flags(),
        window: p.get_window(),
        payload: p.payload().to_vec(),
    }
}

#[test]
fn test_syn_ack_packet_structure() {
    let mock_stream = MockHostStream::default();
    let nat_key = (ip("192.168.100.2"), 12345, ip("8.8.8.8"), 443);
    let vm_initial_seq = 1000;
    let mut connection = SimpleTcpConnection::new(Recorded::new(mock_stream), nat_key, vm_initial_seq);

    let proxy_mac = MacAddr::new(0x02, 0x00, 0x00, 0x01, 0x02, 0x03);
    let vm_mac = MacAddr::new(0xde, 0xad, 0xbe, 0xef, 0x00, 0x00);

    // Simulate host connection becoming writable (establishes connection)
    let action = connection.handle_host_event(false, true, proxy_mac, vm_mac);

    // Verify we get a SYN-ACK control packet
    match action {
        ProxyAction::SendControlPacket(packet) => {
            // Parse Ethernet header
            let eth = EthernetPacket::new(&packet).unwrap();
            assert_eq!(mac(eth.get_source()), proxy_mac);
            assert_eq!(mac(eth.get_destination()), vm_mac);
            assert_eq!(eth.get_ethertype(), pnet::packet::ethernet::EtherTypes::Ipv4);

            // Parse IP header
            let ip = Ipv4Packet::new(eth.payload()).unwrap();
            assert_eq!(ip.get_source().to_string(), "8.8.8.8");
            assert_eq!(ip.get_destination().to_string(), "192.168.100.2");

            // Parse TCP header
            let tcp = TcpPacket::new(ip.payload()).unwrap();
            assert_eq!(tcp.get_source(), 443);
            assert_eq!(tcp.get_destination(), 12345);
            assert_eq!(tcp.get_flags(), TcpFlags::SYN | TcpFlags::ACK);
            assert_eq!(tcp.get_sequence(), connection.host_initial_seq);
            assert_eq!(tcp.get_acknowledgement(), vm_initial_seq + 1);
            assert_eq!(tcp.payload().len(), 0); // SYN-ACK has no payload

            // Verify connection state changed to Established
            assert_eq!(connection.state, SimpleConnectionState::Established);
        }
        _ => panic!("Expected SendControlPacket action, got {:?}", action),
    }
}

#[test]
fn test_data_packet_sequence_numbers() {
    let mock_stream = MockHostStream::default();
    let nat_key = (ip("192.168.100.2"), 12345, ip("8.8.8.8"), 443);
    let vm_initial_seq = 2000;
    let mut connection = SimpleTcpConnection::new(Recorded::new(mock_stream), nat_key, vm_initial_seq);

    // Establish connection first
    let proxy_mac = MacAddr::new(0x02, 0x00, 0x00, 0x01, 0x02, 0x03);
    let vm_mac = MacAddr::new(0xde, 0xad, 0xbe, 0xef, 0x00, 0x00);
    connection.handle_host_event(false, true, proxy_mac, vm_mac);
    assert_eq!(connection.state, SimpleConnectionState::Established);

    // Create a data packet from VM
    let payload = b"Hello, World!";
    let vm_packet_data = create_test_tcp_packet(
        ip("192.168.100.2"),
        12345,
        ip("8.8.8.8"),
        443,
        vm_initial_seq + 1, // After handshake
        connection.host_initial_seq + 1,
        TcpFlags::PSH | TcpFlags::ACK,
        payload,
    );

    // Parse the packet and handle it
    let eth = EthernetPacket::new(&vm_packet_data).unwrap();
    let ip = Ipv4Packet::new(eth.payload()).unwrap();
    let tcp = segment(ip.payload());

    let action = connection.handle_vm_packet(&tcp, proxy_mac, vm_mac);

    // Verify we get an ACK back
    match action {
        ProxyAction::Multi(actions) => {
            let control_action = &actions[0];
            match control_action {
                ProxyAction::SendControlPacket(ack_packet) => {
                    // Parse the ACK packet
                    let ack_eth = EthernetPacket::new(ack_packet).unwrap();
                    let ack_ip = Ipv4Packet::new(ack_eth.payload()).unwrap();
                    let ack_tcp = TcpPacket::new(ack_ip.payload()).unwrap();

                    // Verify ACK packet structure
                    assert_eq!(mac(ack_eth.get_source()), proxy_mac);
                    assert_eq!(mac(ack_eth.get_destination()), vm_mac);
                    assert_eq!(ack_ip.get_source().to_string(), "8.8.8.8");
                    assert_eq!(ack_ip.get_destination().to_string(), "192.168.100.2");
                    assert_eq!(ack_tcp.get_source(), 443);
                    assert_eq!(ack_tcp.get_destination(), 12345);
                    assert_eq!(ack_tcp.get_flags(), TcpFlags::ACK);

                    // Verify sequence numbers
                    assert_eq!(ack_tcp.get_sequence(), connection.last_host_seq);
                    assert_eq!(ack_tcp.get_acknowledgement(), vm_initial_seq + 1 + payload.len() as u32);
                    assert_eq!(ack_tcp.payload().len(), 0); // ACK has no payload
                }
                _ => panic!("Expected SendControlPacket in multi-action"),
            }
        }
        ProxyAction::SendControlPacket(ack_packet) => {
            // Same verification as above
            let ack_eth = EthernetPacket::new(&ack_packet).unwrap();
            let ack_ip = Ipv4Packet::new(ack_eth.payload()).unwrap();
            let ack_tcp = TcpPacket::new(ack_ip.payload()).unwrap();

            assert_eq!(ack_tcp.get_acknowledgement(), vm_initial_seq + 1 + payload.len() as u32);
        }
        _ => panic!("Expected control packet action, got {:?}", action),
    }

    // Verify data was buffered for host
    assert_eq!(connection.to_host_buffer.len(), 1);
    let buffered_data = connection.to_host_buffer.front().unwrap();
    assert_eq!(buffered_data.as_ref(), payload);
}

#[test]
fn test_host_to_vm_data_packets() {
    let mock_stream = MockHostStream::default();
    let nat_key = (ip("192.168.100.2"), 12345, ip("8.8.8.8"), 443);
    let vm_initial_seq = 3000;
    let mut connection = SimpleTcpConnection::new(Recorded::new(mock_stream.clone()), nat_key, vm_initial_seq);

    // Establish connection
    let proxy_mac = MacAddr::new(0x02, 0x00, 0x00, 0x01, 0x02, 0x03);
    let vm_mac = MacAddr::new(0xde, 0xad, 0xbe, 0xef, 0x00, 0x00);
    connection.handle_host_event(false, true, proxy_mac, vm_mac);

    // Add data to mock stream
    let test_data = b"HTTP/1.1 200 OK\r\nContent-Length: 4\r\n\r\ntest";
    mock_stream.add_read_data(test_data);

    // Trigger read from host
    let action = connection.handle_host_event(true, false, proxy_mac, vm_mac);

    // Should reregister for READABLE + WRITABLE (may be multiple actions)
    match action {
        ProxyAction::Reregister(interest) => {
            assert!(interest.is_readable());
            assert!(interest.is_writable());
        }
        ProxyAction::Multi(actions) => {
            // Should have at least one Reregister with READABLE + WRITABLE
            let has_readable_writable = actions.iter().any(|a| {
                if let ProxyAction::Reregister(interest) = a {
                    interest.is_readable() && interest.is_writable()
                } else {
                    false
                }
            });
            assert!(has_readable_writable, "Expected at least one Reregister with READABLE + WRITABLE");
        }
        _ => panic!("Expected Reregister action, got {:?}", action),
    }

    // Check that packets were created for VM
    assert!(connection.has_data_for_vm());

    // Get the packet and verify its structure
    let vm_packet = connection.get_packet_to_send_to_vm().unwrap();
    let eth = EthernetPacket::new(&vm_packet).unwrap();
    let ip = Ipv4Packet::new(eth.payload()).unwrap();
    let tcp = TcpPacket::new(ip.payload()).unwrap();

    // Verify packet headers
    assert_eq!(mac(eth.get_source()), proxy_mac);
    assert_eq!(mac(eth.get_destination()), vm_mac);
    assert_eq!(ip.get_source().to_string(), "8.8.8.8");
    assert_eq!(ip.get_destination().to_string(), "192.168.100.2");
    assert_eq!(tcp.get_source(), 443);
    assert_eq!(tcp.get_destination(), 12345);
    assert_eq!(tcp.get_flags(), TcpFlags::PSH | TcpFlags::ACK);

    // Verify sequence numbers
    assert_eq!(tcp.get_sequence(), connection.host_initial_seq + 1); // After SYN-ACK
    assert_eq!(tcp.get_acknowledgement(), connection.last_vm_seq);

    // Verify payload
    let expected_chunk_size = test_data.len().min(MAX_SEGMENT_SIZE);
    assert_eq!(tcp.payload().len(), expected_chunk_size);
    assert_eq!(tcp.payload(), &test_data[..expected_chunk_size]);
}

#[test]
fn test_vm_to_host_data_flow() {
    let mock_stream = MockHostStream::default();
    let nat_key = (ip("192.168.100.2"), 12345, ip("8.8.8.8"), 443);
    let vm_initial_seq = 4000;
    let mut connection = SimpleTcpConnection::new(Recorded::new(mock_stream.clone()), nat_key, vm_initial_seq);

    // Establish connection
    let proxy_mac = MacAddr::new(0x02, 0x00, 0x00, 0x01, 0x02, 0x03);
    let vm_mac = MacAddr::new(0xde, 0xad, 0xbe, 0xef, 0x00, 0x00);
    connection.handle_host_event(false, true, proxy_mac, vm_mac);

    // Create HTTP request from VM
    let http_request = b"GET / HTTP/1.1\r\nHost: example.com\r\n\r\n";
    let vm_packet_data = create_test_tcp_packet(
        ip("192.168.100.2"),
        12345,
        ip("8.8.8.8"),
        443,
        vm_initial_seq + 1,
        connection.host_initial_seq + 1,
        TcpFlags::PSH | TcpFlags::ACK,
        http_request,
    );

    // Handle the packet
    let eth = EthernetPacket::new(&vm_packet_data).unwrap();
    let ip = Ipv4Packet::new(eth.payload()).unwrap();
    let tcp = segment(ip.payload());
    connection.handle_vm_packet(&tcp, proxy_mac, vm_mac);

    // Simulate host socket becoming writable
    connection.handle_host_event(false, true, proxy_mac, vm_mac);

    // Verify data was written to mock stream
    let written_data = mock_stream.get_written_data();
    assert_eq!(written_data, http_request);

    // Verify buffer was drained
    assert_eq!(connection.to_host_buffer.len(), 0);
}

#[test]
fn test_mac_address_consistency() {
    let mock_stream = MockHostStream::default();
    let nat_key = (ip("192.168.100.2"), 12345, ip("10.0.0.1"), 80);
    let vm_initial_seq = 5000;
    let mut connection = SimpleTcpConnection::new(Recorded::new(mock_stream), nat_key, vm_initial_seq);

    // Use specific MAC addresses
    let proxy_mac = MacAddr::new(0xaa, 0xbb, 0xcc, 0xdd, 0xee, 0xff);
    let vm_mac = MacAddr::new(0x11, 0x22, 0x33, 0x44, 0x55, 0x66);

    // Test SYN-ACK packet MAC addresses
    let action = connection.handle_host_event(false, true, proxy_mac, vm_mac);
    match action {
        ProxyAction::SendControlPacket(packet) => {
            let eth = EthernetPacket::new(&packet).unwrap();
            assert_eq!(mac(eth.get_source()), proxy_mac);
            assert_eq!(mac(eth.get_destination()), vm_mac);
        }
        _ => panic!("Expected SendControlPacket"),
    }

    // Test ACK packet MAC addresses
    let payload = b"test";
    let vm_packet_data = create_test_tcp_packet(
        ip("192.168.100.2"),
        12345,
        ip("10.0.0.1"),
        80,
        vm_initial_seq + 1,
        connection.host_initial_seq + 1,
        TcpFlags::PSH | TcpFlags::ACK,
        payload,
    );

    let eth = EthernetPacket::new(&vm_packet_data).unwrap();
    let ip = Ipv4Packet::new(eth.payload()).unwrap();
    let tcp = segment(ip.payload());

    let action = connection.handle_vm_packet(&tcp, proxy_mac, vm_mac);
    match action {
        ProxyAction::Multi(actions) => {
            match &actions[0] {
                ProxyAction::SendControlPacket(ack_packet) => {
                    let ack_eth = EthernetPacket::new(ack_packet).unwrap();
                    assert_eq!(mac(ack_eth.get_source()), proxy_mac);
                    assert_eq!(mac(ack_eth.get_destination()), vm_mac);
                }
                _ => panic!("Expected SendControlPacket in multi-action"),
            }
        }
        ProxyAction::SendControlPacket(ack_packet) => {
            let ack_eth = EthernetPacket::new(&ack_packet).unwrap();
            assert_eq!(mac(ack_eth.get_source()), proxy_mac);
            assert_eq!(mac(ack_eth.get_destination()), vm_mac);
        }
        _ => panic!("Expected control packet action"),
    }
}

const PROXY_MAC: MacAddr = MacAddr(0x02, 0, 0, 1, 2, 3);
const VM_MAC: MacAddr = MacAddr(0xde, 0xad, 0xbe, 0xef, 0, 0);

/// A connection over which data flows, with the number 5000 for its first byte to the machine.
fn flowing(host: &MockHostStream) -> SimpleTcpConnection<Recorded<MockHostStream>> {
    let nat_key = (ip("192.168.100.2"), 12345, ip("8.8.8.8"), 443);
    let stream = Recorded::new(host.clone());
    let mut c = SimpleTcpConnection::with_initial_seq(stream, nat_key, 1000, 4999);
    c.handle_host_event(false, true, PROXY_MAC, VM_MAC);
    c
}

fn from_vm(sequence: u32, acknowledgement: u32, window: u16, flags: u8, data: &[u8]) -> TcpSegment {
    TcpSegment {
        source: 12345,
        destination: 443,
        sequence,
        acknowledgement,
        flags,
        window,
        payload: data.to_vec(),
    }
}

#[test]
fn data_reaches_the_host_in_the_order_it_came() {
    let host = MockHostStream::default();
    let mut c = flowing(&host);
    for (sequence, data) in [(1001, &b"one "[..]), (1005, b"two "), (1009, b"three")] {
        let t = from_vm(sequence, 5000, 65535, TcpFlags::ACK, data);
        match c.handle_vm_packet(&t, PROXY_MAC, VM_MAC) {
            ProxyAction::SendControlPacket(ack) => {
                let ack = TcpPacket::new(&ack[34..]).unwrap();
                assert_eq!(ack.get_acknowledgement(), sequence + data.len() as u32);
            }
            _ => panic!("no acknowledgement"),
        }
    }
    c.handle_host_event(false, true, PROXY_MAC, VM_MAC);
    assert_eq!(host.get_written_data(), b"one two three");
}

#[test]
fn data_for_the_machine_stays_within_its_window() {
    let host = MockHostStream::default();
    let mut c = flowing(&host);
    c.handle_vm_packet(&from_vm(1001, 4999, 3000, TcpFlags::ACK, &[]), PROXY_MAC, VM_MAC);
    host.add_read_data(&[7; 5000]);
    c.handle_host_event(true, false, PROXY_MAC, VM_MAC);
    assert_eq!((c.to_vm_buffer.len(), c.last_host_seq), (2, 5000 + 2 * MAX_SEGMENT_SIZE as u32));
    assert!(!c.vm_can_read);
    let first = c.get_packet_to_send_to_vm().unwrap();
    let second = c.get_packet_to_send_to_vm().unwrap();
    let numbers = |p: &[u8]| TcpPacket::new(&p[34..]).unwrap().get_sequence();
    assert_eq!((numbers(&first), numbers(&second)), (5000, 5000 + MAX_SEGMENT_SIZE as u32));
    assert!(c.vm_can_read && c.get_packet_to_send_to_vm().is_none());
}

#[test]
fn a_connection_that_is_over_stays_over() {
    let host = MockHostStream::default();
    let mut c = flowing(&host);
    c.handle_vm_packet(&from_vm(1001, 5000, 65535, TcpFlags::FIN, &[]), PROXY_MAC, VM_MAC);
    assert_eq!(c.state, SimpleConnectionState::Closed);
    host.add_read_data(b"late");
    c.handle_host_event(true, true, PROXY_MAC, VM_MAC);
    c.handle_vm_packet(&from_vm(1001, 5000, 65535, TcpFlags::ACK, b"x"), PROXY_MAC, VM_MAC);
    assert!(c.state == SimpleConnectionState::Closed && c.to_vm_buffer.is_empty());
    assert!(c.to_host_buffer.is_empty());
}

#[test]
fn a_connection_in_words() {
    let c = flowing(&MockHostStream::default());
    assert_eq!(
        c.fmt(),
        "SimpleTcpConnection { nat_key: (192.168.100.2, 12345, 8.8.8.8, 443), \
         state: Established, to_vm_buffer_len: 0, to_host_buffer_len: 0, host_can_read: true, \
         vm_can_read: true, is_closed: false, vm_initial_seq: 1000, host_initial_seq: 4999, \
         last_vm_seq: 1000, last_host_seq: 5000, vm_acked_seq: 4999, max_inflight_bytes: 65536 }"
    );
}
