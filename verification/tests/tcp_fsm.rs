//! The states of a TCP connection and what they do.
use std::collections::{BTreeMap, VecDeque};

use bytes::{Bytes, BytesMut};
use net_proxy::addr::{Interest, IpAddr, Ipv4Addr, Ipv6Addr, MacAddr, NatKey, Token};
use net_proxy::host::{HostRead, HostStream, HostWrite, Recorded, RegisterError};
use net_proxy::packet_utils::build_tcp_packet;
use net_proxy::tcp_fsm::{
    states, AnyConnection, ProxyAction, TcpConnection, TcpNegotiatedOptions, TcpState,
    HOST_WRITE_BUFFER_HIGH_WATER, MAX_IN_FLIGHT_PACKETS, TCP_BUFFER_SIZE,
};
use net_proxy::wire::TcpSegment;
use pnet::packet::ethernet::{EtherTypes, EthernetPacket, MutableEthernetPacket};
use pnet::packet::ip::IpNextHeaderProtocols;
use pnet::packet::ipv4::Ipv4Packet;
use pnet::packet::ipv6::{Ipv6Packet, MutableIpv6Packet};
use pnet::packet::tcp::{MutableTcpPacket, TcpFlags, TcpPacket};
use pnet::packet::Packet;
use pnet::util::MacAddr as PnetMac;

const NOW: u64 = 0;

/// A host that hands out chunks in turn and takes whatever it is given.
#[derive(Default)]
struct MockStream {
    read_data: VecDeque<Vec<u8>>,
    write_data: Vec<u8>,
}

impl HostStream for MockStream {
    fn read(&mut self, max: usize) -> HostRead {
        match self.read_data.pop_front() {
            Some(mut chunk) => {
                if chunk.len() > max {
                    let rest = chunk.split_off(max);
                    self.read_data.push_front(rest);
                }
                HostRead::Data(chunk)
            }
            None => HostRead::WouldBlock,
        }
    }

    fn write(&mut self, data: &[u8]) -> HostWrite {
        self.write_data.extend_from_slice(data);
        HostWrite::Wrote(data.len())
    }

    fn register(&mut self, _token: Token, _interest: Interest) -> bool {
        true
    }

    fn reregister(&mut self, _token: Token, _interest: Interest) -> Result<(), RegisterError> {
        Ok(())
    }

    fn deregister(&mut self) -> bool {
        true
    }

    fn shutdown_write(&mut self) -> bool {
        true
    }
}

fn ip(text: &str) -> IpAddr {
    let v: Vec<u8> = text.split('.').map(|n| n.parse().unwrap()).collect();
    IpAddr::V4(Ipv4Addr::new(v[0], v[1], v[2], v[3]))
}

fn v6(first: u16, second: u16, last: u16) -> IpAddr {
    IpAddr::V6(Ipv6Addr::new(first, second, 0, 0, 0, 0, 0, last))
}

fn mac(m: PnetMac) -> MacAddr {
    MacAddr::new(m.0, m.1, m.2, m.3, m.4, m.5)
}

fn connection<S>(
    stream: Recorded<MockStream>,
    nat_key: NatKey,
    state: S,
) -> TcpConnection<S, Recorded<MockStream>> {
    TcpConnection { stream, nat_key, state, packet_buf: BytesMut::with_capacity(2048) }
}

/// A connection over which nothing has flowed, registered for reading.
fn established(tx_seq: u32, rx_seq: u32) -> states::Established {
    states::Established {
        tx_seq,
        rx_seq,
        rx_buf: BTreeMap::new(),
        write_buffer: VecDeque::new(),
        write_buffer_size: 0,
        to_vm_buffer: VecDeque::new(),
        in_flight_packets: VecDeque::new(),
        highest_ack_from_vm: tx_seq,
        dup_ack_count: 0,
        host_reads_paused: false,
        vm_reads_paused: false,
        last_fast_retransmit_seq: None,
        current_interest: Interest::Readable,
        vm_window_size: 65535,
        vm_window_scale: 0,
        last_zero_window_probe: None,
        last_activity: NOW,
    }
}

fn create_tcp_packet(seq: u32, ack: u32, flags: u8, payload: &[u8]) -> Vec<u8> {
    let mut packet = vec![0u8; 20 + payload.len()];
    let mut tcp_packet = MutableTcpPacket::new(&mut packet).unwrap();
    tcp_packet.set_source(80);
    tcp_packet.set_destination(12345);
    tcp_packet.set_sequence(seq);
    tcp_packet.set_acknowledgement(ack);
    tcp_packet.set_data_offset(5);
    tcp_packet.set_flags(flags);
    tcp_packet.set_window(65535);
    tcp_packet.set_payload(payload);
    packet
}

fn segment(data: &[u8]) -> TcpSegment {
    let p = TcpPacket::new(data).unwrap();
    TcpSegment {
        source: p.get_source(),
        destination: p.get_destination(),
        sequence: p.get_sequence(),
        acknowledgement: p.get_acknowledgement(),
        flags: p.get_flags(),
        window: p.get_window(),
        payload: p.payload().to_vec(),
    }
}

#[test]
fn test_ack_storm_prevention() {
    let mock_stream = Recorded::new(MockStream::default());
    let nat_key = (ip("192.168.100.2"), 50428, ip("104.16.97.215"), 443);

    // Create an established connection
    let mut conn = connection(mock_stream, nat_key, established(2416030169, 930294810));

    // Add a packet to in-flight that the VM is requesting
    let test_packet = Bytes::from(vec![0u8; 1460]);
    conn.state
        .in_flight_packets
        .push_back((2416030169, test_packet, NOW, 1460));

    let proxy_mac = MacAddr::new(0, 0, 0, 0, 0, 1);
    let vm_mac = MacAddr::new(0, 0, 0, 0, 0, 2);

    // Send 6 duplicate ACKs for the same sequence - should trigger fast retransmit only on the 3rd
    for i in 1..=6 {
        let packet_data = create_tcp_packet(930294809, 2416030169, TcpFlags::ACK, &[]);
        let tcp_packet = segment(&packet_data);

        let (new_conn, _action) = conn.handle_packet(&tcp_packet, proxy_mac, vm_mac, NOW);

        if let AnyConnection::Established(established_conn) = new_conn {
            conn = established_conn;

            if i == 3 {
                // After 3rd duplicate ACK, should have triggered fast retransmit
                assert_eq!(conn.state.last_fast_retransmit_seq, Some(2416030169));
                assert!(
                    !conn.state.to_vm_buffer.is_empty(),
                    "Should have queued retransmission"
                );
                // Clear the buffer to test subsequent ACKs
                conn.state.to_vm_buffer.clear();
            } else if i > 3 {
                // Subsequent duplicate ACKs should not trigger more retransmissions
                assert!(
                    conn.state.to_vm_buffer.is_empty(),
                    "Should not retransmit again for ACK {}",
                    i
                );
                assert_eq!(conn.state.last_fast_retransmit_seq, Some(2416030169));
            }
        } else {
            panic!("Connection should remain in Established state");
        }
    }
}

#[test]
fn test_no_duplicate_packets_in_flight() {
    let mock_stream = Recorded::new(MockStream::default());
    let nat_key = (ip("192.168.100.2"), 50428, ip("104.16.97.215"), 443);

    // Create an established connection with a packet already in-flight
    let mut conn = connection(mock_stream, nat_key, established(2416030169, 930294810));

    let proxy_mac = MacAddr::new(0, 0, 0, 0, 0, 1);
    let vm_mac = MacAddr::new(0, 0, 0, 0, 0, 2);

    // Create a test packet
    let test_packet = build_tcp_packet(
        &mut conn.packet_buf,
        (nat_key.2, nat_key.3, nat_key.0, nat_key.1),
        2416030169,
        930294810,
        Some(&[1, 2, 3, 4]),
        Some(TcpFlags::PSH | TcpFlags::ACK),
        proxy_mac,
        vm_mac,
    );

    // Add packet to send buffer (simulating new data from host)
    conn.state.to_vm_buffer.push_back(test_packet.clone());
    conn.state.in_flight_packets.push_back((
        2416030169,
        test_packet.clone(),
        NOW,
        4,
    ));

    // Verify we have 1 packet in flight
    assert_eq!(conn.state.in_flight_packets.len(), 1);

    // Simulate retransmission by adding the same packet back to send buffer
    conn.state.to_vm_buffer.push_back(test_packet);

    // Create AnyConnection wrapper
    let mut any_conn = AnyConnection::Established(conn);

    // Send the packet twice (original + retransmission)
    let packet1 = any_conn.get_packet_to_send_to_vm(NOW);
    assert!(packet1.is_some());

    let packet2 = any_conn.get_packet_to_send_to_vm(NOW);
    assert!(packet2.is_some());

    // Should still only have 1 packet in flight (no duplicates)
    if let AnyConnection::Established(conn) = any_conn {
        assert_eq!(
            conn.state.in_flight_packets.len(),
            1,
            "Should not have duplicate packets in flight"
        );

        // Verify it's the right packet
        let (seq, _, _, len) = conn.state.in_flight_packets.front().unwrap();
        assert_eq!(*seq, 2416030169);
        assert_eq!(*len, 4);
    } else {
        panic!("Connection should remain in Established state");
    }
}

#[test]
fn test_fast_retransmit_reset_on_new_ack() {
    let mock_stream = Recorded::new(MockStream::default());
    let nat_key = (ip("192.168.100.2"), 50428, ip("104.16.97.215"), 443);

    let conn = connection(mock_stream, nat_key, states::Established {
            highest_ack_from_vm: 930294809,
            dup_ack_count: 3,
            last_fast_retransmit_seq: Some(2416030169),
            ..established(2416030169, 930294810)
        });

    let proxy_mac = MacAddr::new(0, 0, 0, 0, 0, 1);
    let vm_mac = MacAddr::new(0, 0, 0, 0, 0, 2);

    // Send a new ACK that advances the window
    let packet_data = create_tcp_packet(930294809, 2416031629, TcpFlags::ACK, &[]);
    let tcp_packet = segment(&packet_data);

    let (new_conn, _action) = conn.handle_packet(&tcp_packet, proxy_mac, vm_mac, NOW);

    if let AnyConnection::Established(established_conn) = new_conn {
        // Should reset fast retransmit tracking and dup ack count
        assert_eq!(established_conn.state.last_fast_retransmit_seq, None);
        assert_eq!(established_conn.state.dup_ack_count, 0);
        assert_eq!(established_conn.state.highest_ack_from_vm, 2416031629);
    } else {
        panic!("Connection should remain in Established state");
    }
}

#[test]
fn test_interest_includes_to_vm_buffer() {
    let mock_stream = Recorded::new(MockStream::default());
    let nat_key = (ip("192.168.100.2"), 12345, ip("8.8.8.8"), 443);

    let conn = connection(mock_stream, nat_key, established(1000, 2000));

    let proxy_mac = MacAddr::new(0, 0, 0, 0, 0, 1);
    let vm_mac = MacAddr::new(0, 0, 0, 0, 0, 2);

    // Initially no data queued - should be READABLE only
    let packet_data = create_tcp_packet(2000, 1000, TcpFlags::ACK, &[]);
    let tcp_packet = segment(&packet_data);
    let (mut conn, _action) = conn.handle_packet(&tcp_packet, proxy_mac, vm_mac, NOW);

    if let AnyConnection::Established(ref established) = conn {
        assert_eq!(established.state.current_interest, Interest::Readable);
    }

    // Add data to to_vm_buffer - should trigger READABLE | WRITABLE
    if let AnyConnection::Established(ref mut established) = conn {
        established
            .state
            .to_vm_buffer
            .push_back(Bytes::from_static(b"test"));
    }

    let packet_data = create_tcp_packet(2000, 1000, TcpFlags::ACK, &[]);
    let tcp_packet = segment(&packet_data);
    let (conn, _action) = conn.handle_packet(&tcp_packet, proxy_mac, vm_mac, NOW);

    if let AnyConnection::Established(ref established) = conn {
        assert_eq!(
            established.state.current_interest,
            Interest::Both
        );
    }
}

#[test]
fn test_in_flight_packets_size_limit() {
    let mock_stream = Recorded::new(MockStream::default());
    let nat_key = (ip("192.168.100.2"), 12345, ip("8.8.8.8"), 443);

    let mut conn = connection(mock_stream, nat_key, established(1000, 2000));

    // Fill in_flight_packets to limit (TCP_BUFFER_SIZE * 10 = 320)
    for i in 0..320 {
        conn.state.in_flight_packets.push_back((
            1000 + i * 1460,
            Bytes::from_static(b"test"),
            NOW,
            1460,
        ));
    }

    assert!(!conn.state.host_reads_paused);

    // More data from the host finds no room
    let proxy_mac = MacAddr::new(0, 0, 0, 0, 0, 1);
    let vm_mac = MacAddr::new(0, 0, 0, 0, 0, 2);
    conn.queue_host_data(&[42; 1460], proxy_mac, vm_mac, NOW);

    assert!(
        conn.state.host_reads_paused,
        "Host reads should be paused when in_flight_packets exceeds limit"
    );
}

#[test]
fn test_no_unnecessary_reregistration() {
    let mock_stream = Recorded::new(MockStream::default());
    let nat_key = (ip("192.168.100.2"), 12345, ip("8.8.8.8"), 443);

    let conn = connection(mock_stream, nat_key, established(1000, 2000));

    let proxy_mac = MacAddr::new(0, 0, 0, 0, 0, 1);
    let vm_mac = MacAddr::new(0, 0, 0, 0, 0, 2);

    // Send ACK packet - no state change, should not trigger reregistration
    let packet_data = create_tcp_packet(2000, 1000, TcpFlags::ACK, &[]);
    let tcp_packet = segment(&packet_data);
    let (conn, action) = conn.handle_packet(&tcp_packet, proxy_mac, vm_mac, NOW);

    // Should not contain any reregistration action
    match action {
        ProxyAction::Multi(actions) => {
            let has_reregister = actions
                .iter()
                .any(|a| matches!(a, ProxyAction::Reregister(_)));
            assert!(
                !has_reregister,
                "Should not reregister when Interest hasn't changed"
            );
        }
        ProxyAction::Reregister(_) => {
            panic!("Should not reregister when Interest hasn't changed");
        }
        _ => {} // Other actions are fine
    }

    // Verify current_interest is still tracked correctly
    if let AnyConnection::Established(ref established) = conn {
        assert_eq!(established.state.current_interest, Interest::Readable);
    }
}

#[test]
fn test_host_reads_pause_unpause() {
    let mock_stream = Recorded::new(MockStream::default());
    let nat_key = (ip("192.168.100.2"), 12345, ip("8.8.8.8"), 443);

    let mut conn = connection(mock_stream, nat_key, states::Established {
            host_reads_paused: true,
            ..established(1000, 2000)
        });

    // Add some packets to in_flight_packets but keep under unpause threshold
    for i in 0..10 {
        conn.state.in_flight_packets.push_back((
            1000 + i * 1460,
            Bytes::from_static(b"test"),
            NOW,
            1460,
        ));
    }

    let proxy_mac = MacAddr::new(0, 0, 0, 0, 0, 1);
    let vm_mac = MacAddr::new(0, 0, 0, 0, 0, 2);

    // Send ACK that acknowledges some packets - should unpause reads
    let packet_data = create_tcp_packet(2000, 15600, TcpFlags::ACK, &[]); // ACK up to packet 10
    let tcp_packet = segment(&packet_data);
    let (conn, action) = conn.handle_packet(&tcp_packet, proxy_mac, vm_mac, NOW);

    if let AnyConnection::Established(ref established) = conn {
        assert!(
            !established.state.host_reads_paused,
            "Host reads should be unpaused when buffers drain"
        );
    }

    // Verify reregistration action was triggered for unpausing
    match action {
        ProxyAction::Multi(actions) => {
            let has_reregister = actions
                .iter()
                .any(|a| matches!(a, ProxyAction::Reregister(_)));
            assert!(has_reregister, "Should reregister when unpausing reads");
        }
        _ => {}
    }
}

#[test]
fn test_explicit_reregistration_tracking() {
    let mock_stream = Recorded::new(MockStream::default());
    let nat_key = (ip("192.168.100.2"), 12345, ip("8.8.8.8"), 443);

    let conn = connection(mock_stream, nat_key, states::Established {
            host_reads_paused: true,
            current_interest: Interest::Readable,
            ..established(1000, 2000)
        });

    let proxy_mac = MacAddr::new(0, 0, 0, 0, 0, 1);
    let vm_mac = MacAddr::new(0, 0, 0, 0, 0, 2);

    // Send ACK that should unpause reads - triggers explicit reregistration
    let packet_data = create_tcp_packet(2000, 1000, TcpFlags::ACK, &[]);
    let tcp_packet = segment(&packet_data);
    let (conn, _action) = conn.handle_packet(&tcp_packet, proxy_mac, vm_mac, NOW);

    if let AnyConnection::Established(ref established) = conn {
        // current_interest should be updated to reflect the new state
        assert_eq!(established.state.current_interest, Interest::Both);
        assert!(!established.state.host_reads_paused);
    } else {
        panic!("Expected Established state");
    }
}

#[test]
fn test_ack_processing_removes_inflight_packets() {
    // Test that ACK processing correctly removes acknowledged packets
    let proxy_mac = MacAddr::new(0, 0, 0, 0, 0, 1);
    let vm_mac = MacAddr::new(0, 0, 0, 0, 0, 2);

    let mut conn = connection(
        Recorded::new(MockStream::default()),
        (ip("192.168.100.2"),
        8080, ip("8.8.8.8"), 80), established(1000, 2000),
    );

    // Add some packets to in_flight queue
    conn.state.in_flight_packets.push_back((
        1000,
        Bytes::from("packet1"),
        NOW,
        1460,
    ));
    conn.state.in_flight_packets.push_back((
        2460,
        Bytes::from("packet2"),
        NOW,
        1460,
    ));
    conn.state.in_flight_packets.push_back((
        3920,
        Bytes::from("packet3"),
        NOW,
        1460,
    ));

    assert_eq!(conn.state.in_flight_packets.len(), 3);

    // Send ACK for first packet (seq 1000 + len 1460 = 2460)
    let packet_data = create_tcp_packet(2000, 2460, TcpFlags::ACK, &[]);
    let tcp_packet = segment(&packet_data);
    let (conn, _action) = conn.handle_packet(&tcp_packet, proxy_mac, vm_mac, NOW);

    if let AnyConnection::Established(ref established) = conn {
        // First packet should be removed
        assert_eq!(established.state.in_flight_packets.len(), 2);
        assert_eq!(established.state.highest_ack_from_vm, 2460);
    }

    // Send ACK for second packet (seq 2460 + len 1460 = 3920)
    let packet_data = create_tcp_packet(2000, 3920, TcpFlags::ACK, &[]);
    let tcp_packet = segment(&packet_data);
    let (conn, _action) = conn.handle_packet(&tcp_packet, proxy_mac, vm_mac, NOW);

    if let AnyConnection::Established(ref established) = conn {
        // Second packet should be removed
        assert_eq!(established.state.in_flight_packets.len(), 1);
        assert_eq!(established.state.highest_ack_from_vm, 3920);
    }
}

#[test]
fn test_closing_state_handles_ack_and_transitions_to_time_wait() {
    let mock_stream = Recorded::new(MockStream::default());
    let nat_key = (ip("192.168.100.2"), 50428, ip("104.16.97.215"), 443);
    let fin_seq = 1000;
    let rx_seq = 2000;

    // Create a connection in CLOSING state (both sides sent FIN)
    let conn = connection(mock_stream, nat_key, states::Closing { fin_seq, rx_seq });

    let proxy_mac = MacAddr::new(0, 0, 0, 0, 0, 1);
    let vm_mac = MacAddr::new(0, 0, 0, 0, 0, 2);

    // VM ACKs our FIN - should transition to TIME_WAIT
    let packet_data = create_tcp_packet(rx_seq, fin_seq + 1, TcpFlags::ACK, &[]);
    let tcp_packet = segment(&packet_data);

    let (new_conn, action) =
        AnyConnection::Closing(conn).handle_packet(&tcp_packet, proxy_mac, vm_mac, NOW);

    // Should transition to TIME_WAIT
    assert!(matches!(new_conn, AnyConnection::TimeWait(_)));
    assert_eq!(action, ProxyAction::EnterTimeWait);
}

#[test]
fn test_closing_state_handles_retransmitted_fin() {
    let mock_stream = Recorded::new(MockStream::default());
    let nat_key = (ip("192.168.100.2"), 50428, ip("104.16.97.215"), 443);
    let fin_seq = 1000;
    let rx_seq = 2000;

    // Create a connection in CLOSING state
    let conn = connection(mock_stream, nat_key, states::Closing { fin_seq, rx_seq });

    let proxy_mac = MacAddr::new(0, 0, 0, 0, 0, 1);
    let vm_mac = MacAddr::new(0, 0, 0, 0, 0, 2);

    // VM retransmits FIN - should send ACK
    let packet_data = create_tcp_packet(rx_seq, fin_seq + 1, TcpFlags::FIN, &[]);
    let tcp_packet = segment(&packet_data);

    let (new_conn, action) = conn.handle_packet(&tcp_packet, proxy_mac, vm_mac, NOW);

    // Should stay in CLOSING and send control packet (ACK)
    assert!(matches!(new_conn, AnyConnection::Closing(_)));
    assert!(matches!(action, ProxyAction::SendControlPacket(_)));
}

#[test]
fn test_listen_state_rejects_connections_with_rst() {
    let mock_stream = Recorded::new(MockStream::default());
    let nat_key = (ip("192.168.100.2"), 50428, ip("104.16.97.215"), 443);

    // Create a connection in LISTEN state
    let conn = connection(mock_stream, nat_key, states::Listen { listen_port: 443 });

    let proxy_mac = MacAddr::new(0, 0, 0, 0, 0, 1);
    let vm_mac = MacAddr::new(0, 0, 0, 0, 0, 2);

    // VM sends SYN to listening port - should reject with RST (egress-only proxy)
    let packet_data = create_tcp_packet(1000, 0, TcpFlags::SYN, &[]);
    let tcp_packet = segment(&packet_data);

    let (new_conn, action) = conn.handle_packet(&tcp_packet, proxy_mac, vm_mac, NOW);

    // Should stay in LISTEN and send RST
    assert!(matches!(new_conn, AnyConnection::Listen(_)));
    if let ProxyAction::SendControlPacket(packet) = action {
        // Verify it's a RST packet
        let eth_packet = EthernetPacket::new(&packet).unwrap();
        let ip_packet = Ipv4Packet::new(eth_packet.payload()).unwrap();
        let tcp_rst = TcpPacket::new(ip_packet.payload()).unwrap();
        assert_eq!(tcp_rst.get_flags() & TcpFlags::RST, TcpFlags::RST);
    } else {
        panic!("Expected SendControlPacket with RST");
    }
}

#[test]
fn test_closed_state_responds_with_rst_to_any_packet() {
    let mock_stream = Recorded::new(MockStream::default());
    let nat_key = (ip("192.168.100.2"), 50428, ip("104.16.97.215"), 443);

    // Create a connection in CLOSED state
    let conn = connection(mock_stream, nat_key, states::Closed);

    let proxy_mac = MacAddr::new(0, 0, 0, 0, 0, 1);
    let vm_mac = MacAddr::new(0, 0, 0, 0, 0, 2);

    // Send any packet to closed connection
    let packet_data = create_tcp_packet(1000, 2000, TcpFlags::ACK, b"test data");
    let tcp_packet = segment(&packet_data);

    let (new_conn, action) = conn.handle_packet(&tcp_packet, proxy_mac, vm_mac, NOW);

    // Should stay CLOSED and send RST
    assert!(matches!(new_conn, AnyConnection::Closed(_)));
    if let ProxyAction::SendControlPacket(packet) = action {
        // Verify it's a RST packet
        let eth_packet = EthernetPacket::new(&packet).unwrap();
        let ip_packet = Ipv4Packet::new(eth_packet.payload()).unwrap();
        let tcp_rst = TcpPacket::new(ip_packet.payload()).unwrap();
        assert_eq!(tcp_rst.get_flags() & TcpFlags::RST, TcpFlags::RST);
    } else {
        panic!("Expected SendControlPacket with RST");
    }
}

#[test]
fn test_closed_state_ignores_rst_packets() {
    let mock_stream = Recorded::new(MockStream::default());
    let nat_key = (ip("192.168.100.2"), 50428, ip("104.16.97.215"), 443);

    // Create a connection in CLOSED state
    let conn = connection(mock_stream, nat_key, states::Closed);

    let proxy_mac = MacAddr::new(0, 0, 0, 0, 0, 1);
    let vm_mac = MacAddr::new(0, 0, 0, 0, 0, 2);

    // Send RST packet to closed connection
    let packet_data = create_tcp_packet(1000, 2000, TcpFlags::RST, &[]);
    let tcp_packet = segment(&packet_data);

    let (new_conn, action) =
        AnyConnection::Closed(conn).handle_packet(&tcp_packet, proxy_mac, vm_mac, NOW);

    // Should stay CLOSED and do nothing (don't respond to RST with RST)
    assert!(matches!(new_conn, AnyConnection::Closed(_)));
    assert_eq!(action, ProxyAction::DoNothing);
}

#[test]
fn test_fin_wait1_transitions_to_fin_wait2_on_ack() {
    let mock_stream = Recorded::new(MockStream::default());
    let nat_key = (ip("192.168.100.2"), 50428, ip("104.16.97.215"), 443);
    let fin_seq = 1000;
    let rx_seq = 2000;

    // Create a connection in FIN_WAIT1 state
    let conn = connection(mock_stream, nat_key, states::FinWait1 { fin_seq, rx_seq });

    let proxy_mac = MacAddr::new(0, 0, 0, 0, 0, 1);
    let vm_mac = MacAddr::new(0, 0, 0, 0, 0, 2);

    // VM ACKs our FIN - should transition to FIN_WAIT2
    let packet_data = create_tcp_packet(rx_seq, fin_seq, TcpFlags::ACK, &[]);
    let tcp_packet = segment(&packet_data);

    let (new_conn, action) =
        AnyConnection::FinWait1(conn).handle_packet(&tcp_packet, proxy_mac, vm_mac, NOW);

    // Should transition to FIN_WAIT2
    assert!(matches!(new_conn, AnyConnection::FinWait2(_)));
    // Verify no special action needed for transition
    assert!(matches!(
        action,
        ProxyAction::DoNothing | ProxyAction::Multi(_)
    ));
}

#[test]
fn test_fin_wait1_ignores_other_packets() {
    let mock_stream = Recorded::new(MockStream::default());
    let nat_key = (ip("192.168.100.2"), 50428, ip("104.16.97.215"), 443);
    let fin_seq = 1000;
    let rx_seq = 2000;

    // Create a connection in FIN_WAIT1 state
    let conn = connection(mock_stream, nat_key, states::FinWait1 { fin_seq, rx_seq });

    let proxy_mac = MacAddr::new(0, 0, 0, 0, 0, 1);
    let vm_mac = MacAddr::new(0, 0, 0, 0, 0, 2);

    // VM sends FIN without ACKing our FIN - should ignore and stay in FIN_WAIT1
    let packet_data = create_tcp_packet(rx_seq, fin_seq + 10, TcpFlags::FIN, &[]);
    let tcp_packet = segment(&packet_data);

    let (new_conn, action) =
        AnyConnection::FinWait1(conn).handle_packet(&tcp_packet, proxy_mac, vm_mac, NOW);

    // Should stay in FIN_WAIT1 and do nothing
    assert!(matches!(new_conn, AnyConnection::FinWait1(_)));
    assert_eq!(action, ProxyAction::DoNothing);
}

#[test]
fn test_fin_wait2_transitions_to_time_wait_on_fin() {
    let mock_stream = Recorded::new(MockStream::default());
    let nat_key = (ip("192.168.100.2"), 50428, ip("104.16.97.215"), 443);
    let rx_seq = 2000;

    // Create a connection in FIN_WAIT2 state
    let conn = connection(mock_stream, nat_key, states::FinWait2 { rx_seq });

    let proxy_mac = MacAddr::new(0, 0, 0, 0, 0, 1);
    let vm_mac = MacAddr::new(0, 0, 0, 0, 0, 2);

    // VM sends FIN - should transition to TIME_WAIT
    let packet_data = create_tcp_packet(rx_seq, 1001, TcpFlags::FIN, &[]);
    let tcp_packet = segment(&packet_data);

    let (new_conn, action) = conn.handle_packet(&tcp_packet, proxy_mac, vm_mac, NOW);

    // Should transition to TIME_WAIT and send final ACK
    assert!(matches!(new_conn, AnyConnection::TimeWait(_)));
    assert!(matches!(
        action,
        ProxyAction::Multi(_) | ProxyAction::SendControlPacket(_)
    ));
}

#[test]
fn test_close_wait_transitions_to_last_ack_on_close() {
    let mock_stream = Recorded::new(MockStream::default());
    let nat_key = (ip("192.168.100.2"), 50428, ip("104.16.97.215"), 443);
    let tx_seq = 1000;
    let rx_seq = 2000;

    // Create a connection in CLOSE_WAIT state
    let conn = connection(mock_stream, nat_key, states::CloseWait { tx_seq, rx_seq });

    let proxy_mac = MacAddr::new(0, 0, 0, 0, 0, 1);
    let vm_mac = MacAddr::new(0, 0, 0, 0, 0, 2);

    // Simulate host closing the connection (readable event on closed socket)
    let (new_conn, action) =
        AnyConnection::CloseWait(conn).handle_event(true, false, proxy_mac, vm_mac, NOW);

    // Should transition to LAST_ACK and send FIN
    assert!(matches!(new_conn, AnyConnection::LastAck(_)));
    assert!(matches!(
        action,
        ProxyAction::Multi(_) | ProxyAction::SendControlPacket(_)
    ));
}

#[test]
fn test_last_ack_transitions_to_closed_on_ack() {
    let mock_stream = Recorded::new(MockStream::default());
    let nat_key = (ip("192.168.100.2"), 50428, ip("104.16.97.215"), 443);
    let fin_seq = 1000;

    // Create a connection in LAST_ACK state
    let conn = connection(mock_stream, nat_key, states::LastAck { fin_seq });

    let proxy_mac = MacAddr::new(0, 0, 0, 0, 0, 1);
    let vm_mac = MacAddr::new(0, 0, 0, 0, 0, 2);

    // VM ACKs our FIN - should close connection
    let packet_data = create_tcp_packet(2000, fin_seq, TcpFlags::ACK, &[]);
    let tcp_packet = segment(&packet_data);

    let (_new_conn, action) =
        AnyConnection::LastAck(conn).handle_packet(&tcp_packet, proxy_mac, vm_mac, NOW);

    // Should schedule removal (equivalent to CLOSED)
    assert_eq!(action, ProxyAction::ScheduleRemoval);
    // Connection should be removed from the proxy
}

#[test]
fn test_time_wait_handles_retransmitted_fin() {
    let mock_stream = Recorded::new(MockStream::default());
    let nat_key = (ip("192.168.100.2"), 50428, ip("104.16.97.215"), 443);

    // Create a connection in TIME_WAIT state
    let conn = connection(mock_stream, nat_key, states::TimeWait);

    let proxy_mac = MacAddr::new(0, 0, 0, 0, 0, 1);
    let vm_mac = MacAddr::new(0, 0, 0, 0, 0, 2);

    // VM retransmits FIN - should re-send final ACK
    let packet_data = create_tcp_packet(2000, 1001, TcpFlags::FIN, &[]);
    let tcp_packet = segment(&packet_data);

    let (new_conn, action) = conn.handle_packet(&tcp_packet, proxy_mac, vm_mac, NOW);

    // Should stay in TIME_WAIT and send ACK
    assert!(matches!(new_conn, AnyConnection::TimeWait(_)));
    assert!(matches!(action, ProxyAction::SendControlPacket(_)));
}

#[test]
fn test_egress_connecting_establishes_on_syn_ack() {
    let mock_stream = Recorded::new(MockStream::default());
    let nat_key = (ip("192.168.100.2"), 50428, ip("104.16.97.215"), 443);
    let vm_initial_seq = 1000;
    let our_seq = 2000;

    // Create an egress connecting connection
    let conn = connection(mock_stream, nat_key, states::EgressConnecting {
            vm_initial_seq,
            tx_seq: our_seq,
            vm_options: TcpNegotiatedOptions::default(),
        });

    let proxy_mac = MacAddr::new(0, 0, 0, 0, 0, 1);
    let vm_mac = MacAddr::new(0, 0, 0, 0, 0, 2);

    // Host connection becomes writable - should establish connection
    let (new_conn, action) =
        AnyConnection::EgressConnecting(conn).handle_event(false, true, proxy_mac, vm_mac, NOW);

    // Should transition to ESTABLISHED
    assert!(matches!(new_conn, AnyConnection::Established(_)));
    // Should send SYN-ACK to VM and reregister for read/write
    assert!(matches!(action, ProxyAction::Multi(_)));
}

#[test]
fn test_ingress_connecting_establishes_on_ack() {
    let mock_stream = Recorded::new(MockStream::default());
    let nat_key = (ip("192.168.100.2"), 50428, ip("104.16.97.215"), 443);
    let our_seq = 2000;
    let vm_seq = 1000;

    // Create an ingress connecting connection (we sent SYN-ACK)
    let conn = connection(mock_stream, nat_key, states::IngressConnecting {
            tx_seq: our_seq,
            rx_seq: vm_seq + 1, // We expect VM's initial seq + 1
        });

    let proxy_mac = MacAddr::new(0, 0, 0, 0, 0, 1);
    let vm_mac = MacAddr::new(0, 0, 0, 0, 0, 2);

    // VM sends SYN-ACK - should establish connection
    let packet_data =
        create_tcp_packet(vm_seq + 1, our_seq, TcpFlags::SYN | TcpFlags::ACK, &[]);
    let tcp_packet = segment(&packet_data);

    let (new_conn, action) =
        AnyConnection::IngressConnecting(conn).handle_packet(&tcp_packet, proxy_mac, vm_mac, NOW);

    // Should transition to ESTABLISHED
    assert!(matches!(new_conn, AnyConnection::Established(_)));
    // Should send ACK and reregister for read/write
    assert!(matches!(action, ProxyAction::Multi(_)));
}

#[test]
fn test_high_throughput_connection_handles_large_data() {
    let mock_stream = Recorded::new(MockStream::default());
    let nat_key = (ip("192.168.100.2"), 50428, ip("104.16.97.215"), 443);

    // Create an established connection ready for high throughput
    let mut conn = connection(mock_stream, nat_key, established(1000, 2000));

    let proxy_mac = MacAddr::new(0, 0, 0, 0, 0, 1);
    let vm_mac = MacAddr::new(0, 0, 0, 0, 0, 2);

    // Simulate receiving large chunks of data from VM (10KB total)
    let large_data = vec![0xAAu8; 1460]; // MSS-sized chunk
    let num_packets = 7; // ~10KB total

    for i in 0..num_packets {
        let seq = 2000 + (i * 1460) as u32;
        let packet_data = create_tcp_packet(seq, 1000, TcpFlags::ACK, &large_data);
        let tcp_packet = segment(&packet_data);

        let (new_conn, action) = conn.handle_packet(&tcp_packet, proxy_mac, vm_mac, NOW);
        conn = match new_conn {
            AnyConnection::Established(c) => c,
            _ => panic!("Connection should stay established"),
        };

        // Should queue data for host and send ACK
        assert!(matches!(
            action,
            ProxyAction::Multi(_) | ProxyAction::SendControlPacket(_)
        ));
        assert!(!conn.state.write_buffer.is_empty());
    }

    // Verify all data was buffered correctly
    let total_buffered: usize = conn
        .state
        .write_buffer
        .iter()
        .map(|chunk| chunk.len())
        .sum();
    assert_eq!(total_buffered, num_packets * 1460);

    // Connection should not be paused for reasonable amounts of data
    assert!(!conn.state.vm_reads_paused);
}

#[test]
fn test_connection_handles_burst_traffic_with_flow_control() {
    let mock_stream = Recorded::new(MockStream::default());
    let nat_key = (ip("192.168.100.2"), 50428, ip("104.16.97.215"), 443);

    // Create connection with small buffer to trigger flow control
    let mut conn = connection(mock_stream, nat_key, established(1000, 2000));

    let proxy_mac = MacAddr::new(0, 0, 0, 0, 0, 1);
    let vm_mac = MacAddr::new(0, 0, 0, 0, 0, 2);

    // Send burst of large packets to fill buffer beyond high water mark
    let large_data = vec![0xBBu8; 1460];
    let burst_size = 50; // 73KB burst - should trigger flow control

    let mut vm_paused = false;
    for i in 0..burst_size {
        let seq = 2000 + (i * 1460) as u32;
        let packet_data = create_tcp_packet(seq, 1000, TcpFlags::ACK, &large_data);
        let tcp_packet = segment(&packet_data);

        let (new_conn, _action) = conn.handle_packet(&tcp_packet, proxy_mac, vm_mac, NOW);
        conn = match new_conn {
            AnyConnection::Established(c) => c,
            _ => panic!("Connection should stay established"),
        };

        // Check if VM reads got paused due to buffer pressure
        if conn.state.vm_reads_paused {
            vm_paused = true;
            break;
        }
    }

    // Should have triggered flow control pausing
    assert!(vm_paused, "VM reads should be paused for large burst");

    // Buffer should be near or above high water mark
    assert!(conn.state.write_buffer_size >= HOST_WRITE_BUFFER_HIGH_WATER * 3 / 4);
}

#[test]
fn test_connection_handles_out_of_order_packets() {
    let mock_stream = Recorded::new(MockStream::default());
    let nat_key = (ip("192.168.100.2"), 50428, ip("104.16.97.215"), 443);

    let mut conn = connection(mock_stream, nat_key, established(1000, 2000));

    let proxy_mac = MacAddr::new(0, 0, 0, 0, 0, 1);
    let vm_mac = MacAddr::new(0, 0, 0, 0, 0, 2);

    let data1 = vec![0x11u8; 100];
    let data2 = vec![0x22u8; 100];
    let data3 = vec![0x33u8; 100];

    // Send packets out of order: 3, 1, 2

    // Packet 3 (seq 2200)
    let packet3_data = create_tcp_packet(2200, 1000, TcpFlags::ACK, &data3);
    let tcp_packet3 = segment(&packet3_data);
    let (new_conn, _action) = conn.handle_packet(&tcp_packet3, proxy_mac, vm_mac, NOW);
    conn = match new_conn {
        AnyConnection::Established(c) => c,
        _ => panic!("Connection should stay established"),
    };

    // Should buffer out-of-order packet
    assert!(!conn.state.rx_buf.is_empty());
    assert!(conn.state.write_buffer.is_empty()); // Not yet written to host

    // Packet 1 (seq 2000) - the missing packet
    let packet1_data = create_tcp_packet(2000, 1000, TcpFlags::ACK, &data1);
    let tcp_packet1 = segment(&packet1_data);
    let (new_conn, _action) = conn.handle_packet(&tcp_packet1, proxy_mac, vm_mac, NOW);
    conn = match new_conn {
        AnyConnection::Established(c) => c,
        _ => panic!("Connection should stay established"),
    };

    // Should now write packet 1 to host buffer
    assert!(!conn.state.write_buffer.is_empty());

    // Packet 2 (seq 2100)
    let packet2_data = create_tcp_packet(2100, 1000, TcpFlags::ACK, &data2);
    let tcp_packet2 = segment(&packet2_data);
    let (new_conn, _action) = conn.handle_packet(&tcp_packet2, proxy_mac, vm_mac, NOW);
    conn = match new_conn {
        AnyConnection::Established(c) => c,
        _ => panic!("Connection should stay established"),
    };

    // All packets should now be processed in order
    let total_buffered: usize = conn
        .state
        .write_buffer
        .iter()
        .map(|chunk| chunk.len())
        .sum();
    assert_eq!(total_buffered, 300); // All three 100-byte packets

    // Out-of-order buffer should be empty now
    assert!(conn.state.rx_buf.is_empty());
}

#[test]
fn test_multiple_connections_independent_state() {
    // Test that multiple connections maintain independent state
    let proxy_mac = MacAddr::new(0, 0, 0, 0, 0, 1);
    let vm_mac = MacAddr::new(0, 0, 0, 0, 0, 2);

    // Create 3 connections in different states
    let conn1 = connection(
        Recorded::new(MockStream::default()),
        (ip("192.168.100.2"), 50001, ip("1.1.1.1"), 443),
        states::EgressConnecting {
            vm_initial_seq: 1000,
            tx_seq: 2000,
            vm_options: TcpNegotiatedOptions::default(),
        },
    );

    let conn2 = connection(
        Recorded::new(MockStream::default()),
        (ip("192.168.100.2"),
        50002, ip("2.2.2.2"), 443), established(3000, 4000),
    );

    let conn3 = connection(
        Recorded::new(MockStream::default()),
        (ip("192.168.100.2"), 50003, ip("3.3.3.3"), 443),
        states::FinWait1 {
            fin_seq: 5000,
            rx_seq: 6000,
        },
    );

    // Trigger different events on each connection

    // Conn1: Host becomes writable (should transition to Established)
    let (new_conn1, action1) =
        AnyConnection::EgressConnecting(conn1).handle_event(false, true, proxy_mac, vm_mac, NOW);
    assert!(matches!(new_conn1, AnyConnection::Established(_)));
    assert!(matches!(action1, ProxyAction::Multi(_)));

    // Conn2: Receive data packet (should stay Established)
    let data = vec![0xDDu8; 500];
    let packet_data = create_tcp_packet(4000, 3000, TcpFlags::ACK, &data);
    let tcp_packet = segment(&packet_data);
    let (new_conn2, action2) = conn2.handle_packet(&tcp_packet, proxy_mac, vm_mac, NOW);
    assert!(matches!(new_conn2, AnyConnection::Established(_)));
    assert!(matches!(
        action2,
        ProxyAction::Multi(_) | ProxyAction::SendControlPacket(_)
    ));

    // Conn3: Receive FIN ACK (should transition to FinWait2)
    let packet_data = create_tcp_packet(6000, 5000, TcpFlags::ACK, &[]);
    let tcp_packet = segment(&packet_data);
    let (new_conn3, action3) =
        AnyConnection::FinWait1(conn3).handle_packet(&tcp_packet, proxy_mac, vm_mac, NOW);
    assert!(matches!(new_conn3, AnyConnection::FinWait2(_)));
    assert_eq!(action3, ProxyAction::DoNothing);

    // Verify each connection maintained independent state and transitioned correctly
    // This proves the state machine handles multiple concurrent connections properly
}

#[test]
fn test_connection_resource_limits_and_cleanup() {
    let mock_stream = Recorded::new(MockStream::default());
    let nat_key = (ip("192.168.100.2"), 50428, ip("104.16.97.215"), 443);

    let mut conn = connection(mock_stream, nat_key, established(1000, 2000));

    let proxy_mac = MacAddr::new(0, 0, 0, 0, 0, 1);
    let vm_mac = MacAddr::new(0, 0, 0, 0, 0, 2);

    // Add many packets to in-flight buffer to test size limits
    let test_data = vec![0xFFu8; 1460];
    for i in 0..TCP_BUFFER_SIZE + 5 {
        let seq = 1000 + (i * 1460) as u32;
        let packet = Bytes::from(test_data.clone());
        conn.state
            .in_flight_packets
            .push_back((seq, packet, NOW, 1460));
    }

    // Verify buffer size limit is enforced
    assert!(conn.state.in_flight_packets.len() >= TCP_BUFFER_SIZE);

    // Send ACK to clear some in-flight packets
    let ack_seq = 1000 + (TCP_BUFFER_SIZE as u32 / 2 * 1460);
    let packet_data = create_tcp_packet(2000, ack_seq, TcpFlags::ACK, &[]);
    let tcp_packet = segment(&packet_data);

    let (new_conn, _action) = conn.handle_packet(&tcp_packet, proxy_mac, vm_mac, NOW);
    let conn = match new_conn {
        AnyConnection::Established(c) => c,
        _ => panic!("Connection should stay established"),
    };

    // Should have removed ACKed packets from in-flight buffer
    assert!(conn.state.in_flight_packets.len() < TCP_BUFFER_SIZE + 5);

    // Highest ACK should be updated
    assert!(conn.state.highest_ack_from_vm >= ack_seq);
}

#[test]
fn test_concurrent_connection_establishment_and_teardown() {
    let proxy_mac = MacAddr::new(0, 0, 0, 0, 0, 1);
    let vm_mac = MacAddr::new(0, 0, 0, 0, 0, 2);

    // Simulate multiple connections in various stages of establishment/teardown
    let connections = vec![
        // New connection establishing
        AnyConnection::EgressConnecting(connection(
        Recorded::new(MockStream::default()),
        (ip("192.168.100.2"), 50001, ip("1.1.1.1"), 443),
        states::EgressConnecting {
                vm_initial_seq: 1000,
                tx_seq: 2000,
                vm_options: TcpNegotiatedOptions::default(),
            })),
        // Active data transfer
        AnyConnection::Established(connection(Recorded::new(MockStream::default()), (ip("192.168.100.2"), 50002, ip("2.2.2.2"), 443), established(3000, 4000))),
        // Connection closing
        AnyConnection::FinWait1(connection(Recorded::new(MockStream::default()), (ip("192.168.100.2"), 50003, ip("3.3.3.3"), 443), states::FinWait1 {
                fin_seq: 5000,
                rx_seq: 6000,
            })),
    ];

    // Process events on all connections simultaneously
    let mut results = Vec::new();
    for (i, conn) in connections.into_iter().enumerate() {
        let result = match i {
            0 => {
                // Establish connection
                conn.handle_event(false, true, proxy_mac, vm_mac, NOW)
            }
            1 => {
                // Send data
                let data = vec![0xAAu8; 1000];
                let packet_data = create_tcp_packet(4000, 3000, TcpFlags::ACK, &data);
                let tcp_packet = segment(&packet_data);
                conn.handle_packet(&tcp_packet, proxy_mac, vm_mac, NOW)
            }
            2 => {
                // ACK the FIN
                let packet_data = create_tcp_packet(6000, 5000, TcpFlags::ACK, &[]);
                let tcp_packet = segment(&packet_data);
                conn.handle_packet(&tcp_packet, proxy_mac, vm_mac, NOW)
            }
            _ => unreachable!(),
        };
        results.push(result);
    }

    // Verify each connection transitioned correctly despite concurrent processing
    assert!(matches!(results[0].0, AnyConnection::Established(_))); // Connected
    assert!(matches!(results[1].0, AnyConnection::Established(_))); // Still active
    assert!(matches!(results[2].0, AnyConnection::FinWait2(_))); // Closing progressed

    // Each should have appropriate actions
    assert!(matches!(results[0].1, ProxyAction::Multi(_))); // Send SYN-ACK + reregister
    assert!(matches!(
        results[1].1,
        ProxyAction::Multi(_) | ProxyAction::SendControlPacket(_)
    )); // ACK data
    assert_eq!(results[2].1, ProxyAction::DoNothing); // Just state change
}

#[test]
fn test_interest_removes_readable_when_inflight_packets_full() {
    let proxy_mac = MacAddr::new(0, 0, 0, 0, 0, 1);
    let vm_mac = MacAddr::new(0, 0, 0, 0, 0, 2);

    let mut conn = connection(Recorded::new(MockStream::default()), (ip("192.168.100.2"), 8080, ip("8.8.8.8"), 80), established(1000, 2000));

    // Fill in_flight_packets to exceed MAX_IN_FLIGHT_PACKETS limit
    for i in 0..MAX_IN_FLIGHT_PACKETS + 1 {
        conn.state.in_flight_packets.push_back((
            1000 + (i as u32 * 1460),
            Bytes::from(vec![0u8; 1460]),
            NOW,
            1460,
        ));
    }

    // Send empty ACK - should trigger interest recalculation
    let packet_data = create_tcp_packet(2000, 1000, TcpFlags::ACK, &[]);
    let tcp_packet = segment(&packet_data);
    let (conn, action) = conn.handle_packet(&tcp_packet, proxy_mac, vm_mac, NOW);

    // Should remove READABLE interest due to too many in-flight packets
    match action {
        ProxyAction::Multi(actions) => {
            let reregister_action = actions
                .iter()
                .find(|a| matches!(a, ProxyAction::Reregister(_)));
            if let Some(ProxyAction::Reregister(interest)) = reregister_action {
                assert!(
                    !interest.is_readable(),
                    "Should not have READABLE when in-flight packets exceed limit"
                );
                assert!(
                    interest.is_writable(),
                    "Should still have WRITABLE for sending data"
                );
            }
        }
        _ => panic!("Expected Multi action with Reregister"),
    }

    if let AnyConnection::Established(ref established) = conn {
        assert!(
            !established.state.current_interest.is_readable(),
            "current_interest should not have READABLE"
        );
    }
}

#[test]
fn test_interest_removes_readable_when_vm_window_exhausted() {
    let proxy_mac = MacAddr::new(0, 0, 0, 0, 0, 1);
    let vm_mac = MacAddr::new(0, 0, 0, 0, 0, 2);

    let mut conn = connection(Recorded::new(MockStream::default()), (ip("192.168.100.2"), 8080, ip("8.8.8.8"), 80), states::Established {
            vm_window_size: 8760,
            ..established(1000, 2000)
        },
    );

    // Fill in_flight_packets to exhaust VM window (6 packets * 1460 bytes = 8760 bytes)
    for i in 0..6 {
        conn.state.in_flight_packets.push_back((
            1000 + (i as u32 * 1460),
            Bytes::from(vec![0u8; 1460]),
            NOW,
            1460,
        ));
    }

    // Send empty ACK - should trigger interest recalculation
    let packet_data = create_tcp_packet(2000, 1000, TcpFlags::ACK, &[]);
    let tcp_packet = segment(&packet_data);
    let (conn, action) = conn.handle_packet(&tcp_packet, proxy_mac, vm_mac, NOW);

    // Should remove READABLE interest due to VM window exhaustion
    match action {
        ProxyAction::Multi(actions) => {
            let reregister_action = actions
                .iter()
                .find(|a| matches!(a, ProxyAction::Reregister(_)));
            if let Some(ProxyAction::Reregister(interest)) = reregister_action {
                assert!(
                    !interest.is_readable(),
                    "Should not have READABLE when VM window is exhausted"
                );
            }
        }
        _ => panic!("Expected Multi action with Reregister"),
    }

    if let AnyConnection::Established(ref established) = conn {
        assert!(
            !established.state.current_interest.is_readable(),
            "current_interest should not have READABLE"
        );
    }
}

#[test]
fn test_interest_removes_readable_when_buffer_full() {
    let proxy_mac = MacAddr::new(0, 0, 0, 0, 0, 1);
    let vm_mac = MacAddr::new(0, 0, 0, 0, 0, 2);

    let mut conn = connection(
        Recorded::new(MockStream::default()),
        (ip("192.168.100.2"),
        8080, ip("8.8.8.8"), 80), established(1000, 2000),
    );

    // Fill to_vm_buffer to TCP_BUFFER_SIZE limit
    for _ in 0..TCP_BUFFER_SIZE {
        conn.state
            .to_vm_buffer
            .push_back(Bytes::from(vec![0u8; 1460]));
    }

    // Send empty ACK - should trigger interest recalculation
    let packet_data = create_tcp_packet(2000, 1000, TcpFlags::ACK, &[]);
    let tcp_packet = segment(&packet_data);
    let (conn, action) = conn.handle_packet(&tcp_packet, proxy_mac, vm_mac, NOW);

    // Should remove READABLE interest due to full buffer
    match action {
        ProxyAction::Multi(actions) => {
            let reregister_action = actions
                .iter()
                .find(|a| matches!(a, ProxyAction::Reregister(_)));
            if let Some(ProxyAction::Reregister(interest)) = reregister_action {
                assert!(
                    !interest.is_readable(),
                    "Should not have READABLE when to_vm_buffer is full"
                );
                assert!(
                    interest.is_writable(),
                    "Should have WRITABLE since buffer has data"
                );
            }
        }
        _ => panic!("Expected Multi action with Reregister"),
    }

    if let AnyConnection::Established(ref established) = conn {
        assert!(
            !established.state.current_interest.is_readable(),
            "current_interest should not have READABLE"
        );
        assert!(
            established.state.current_interest.is_writable(),
            "current_interest should have WRITABLE"
        );
    }
}

#[test]
fn test_interest_removes_readable_when_host_reads_paused() {
    let proxy_mac = MacAddr::new(0, 0, 0, 0, 0, 1);
    let vm_mac = MacAddr::new(0, 0, 0, 0, 0, 2);

    let conn = connection(
        Recorded::new(MockStream::default()),
        (ip("192.168.100.2"), 8080, ip("8.8.8.8"), 80),
        states::Established {
            host_reads_paused: true,
            current_interest: Interest::Both,
            ..established(1000, 2000)
        },
    );

    // Send empty ACK - should trigger interest recalculation
    let packet_data = create_tcp_packet(2000, 1000, TcpFlags::ACK, &[]);
    let tcp_packet = segment(&packet_data);
    let (conn, action) = conn.handle_packet(&tcp_packet, proxy_mac, vm_mac, NOW);

    // Should remove READABLE interest due to host reads being paused
    match action {
        ProxyAction::Multi(actions) => {
            let reregister_action = actions
                .iter()
                .find(|a| matches!(a, ProxyAction::Reregister(_)));
            if let Some(ProxyAction::Reregister(interest)) = reregister_action {
                assert!(
                    !interest.is_readable(),
                    "Should not have READABLE when host reads are paused"
                );
            }
        }
        _ => panic!("Expected Multi action with Reregister"),
    }

    if let AnyConnection::Established(ref established) = conn {
        assert!(
            !established.state.current_interest.is_readable(),
            "current_interest should not have READABLE"
        );
    }
}

#[test]
fn test_interest_adds_writable_when_data_pending() {
    let proxy_mac = MacAddr::new(0, 0, 0, 0, 0, 1);
    let vm_mac = MacAddr::new(0, 0, 0, 0, 0, 2);

    let mut conn = connection(
        Recorded::new(MockStream::default()),
        (ip("192.168.100.2"),
        8080, ip("8.8.8.8"), 80), established(1000, 2000),
    );

    // Add data to write_buffer
    conn.state
        .write_buffer
        .push_back(Bytes::from(b"test data".to_vec()));

    // Send empty ACK - should trigger interest recalculation
    let packet_data = create_tcp_packet(2000, 1000, TcpFlags::ACK, &[]);
    let tcp_packet = segment(&packet_data);
    let (conn, action) = conn.handle_packet(&tcp_packet, proxy_mac, vm_mac, NOW);

    // Should add WRITABLE interest due to pending write data
    match action {
        ProxyAction::Multi(actions) => {
            let reregister_action = actions
                .iter()
                .find(|a| matches!(a, ProxyAction::Reregister(_)));
            if let Some(ProxyAction::Reregister(interest)) = reregister_action {
                assert!(
                    interest.is_readable(),
                    "Should have READABLE when conditions are met"
                );
                assert!(
                    interest.is_writable(),
                    "Should have WRITABLE when data is pending"
                );
            }
        }
        _ => panic!("Expected Multi action with Reregister"),
    }

    if let AnyConnection::Established(ref established) = conn {
        assert!(
            established.state.current_interest.is_readable(),
            "current_interest should have READABLE"
        );
        assert!(
            established.state.current_interest.is_writable(),
            "current_interest should have WRITABLE"
        );
    }
}

#[test]
fn test_interest_multiple_conditions() {
    let proxy_mac = MacAddr::new(0, 0, 0, 0, 0, 1);
    let vm_mac = MacAddr::new(0, 0, 0, 0, 0, 2);

    let mut conn = connection(
        Recorded::new(MockStream::default()),
        (ip("192.168.100.2"), 8080, ip("8.8.8.8"), 80),
        states::Established {
            host_reads_paused: true,
            current_interest: Interest::Both,
            vm_window_size: 1460,
            ..established(1000, 2000)
        },
    );

    // Add multiple flow control violations
    // 1. host_reads_paused = true
    // 2. Fill buffer to capacity
    for _ in 0..TCP_BUFFER_SIZE {
        conn.state
            .to_vm_buffer
            .push_back(Bytes::from(vec![0u8; 1460]));
    }
    // 3. Exhaust VM window
    conn.state.in_flight_packets.push_back((
        1000,
        Bytes::from(vec![0u8; 1460]),
        NOW,
        1460,
    ));

    // Send empty ACK - should trigger interest recalculation
    let packet_data = create_tcp_packet(2000, 1000, TcpFlags::ACK, &[]);
    let tcp_packet = segment(&packet_data);
    let (conn, action) = conn.handle_packet(&tcp_packet, proxy_mac, vm_mac, NOW);

    // Should remove READABLE due to multiple violations, but keep WRITABLE for pending data
    match action {
        ProxyAction::Multi(actions) => {
            let reregister_action = actions
                .iter()
                .find(|a| matches!(a, ProxyAction::Reregister(_)));
            if let Some(ProxyAction::Reregister(interest)) = reregister_action {
                assert!(
                    !interest.is_readable(),
                    "Should not have READABLE when multiple conditions violated"
                );
                assert!(
                    interest.is_writable(),
                    "Should have WRITABLE when buffer has data"
                );
            }
        }
        _ => panic!("Expected Multi action with Reregister"),
    }

    if let AnyConnection::Established(ref established) = conn {
        assert!(
            !established.state.current_interest.is_readable(),
            "current_interest should not have READABLE"
        );
        assert!(
            established.state.current_interest.is_writable(),
            "current_interest should have WRITABLE"
        );
    }
}

#[test]
fn test_interest_no_unnecessary_reregistration() {
    let proxy_mac = MacAddr::new(0, 0, 0, 0, 0, 1);
    let vm_mac = MacAddr::new(0, 0, 0, 0, 0, 2);

    let conn = connection(
        Recorded::new(MockStream::default()),
        (ip("192.168.100.2"),
        8080, ip("8.8.8.8"), 80), established(1000, 2000),
    );

    // Send empty ACK - should NOT trigger reregistration since interest is already correct
    let packet_data = create_tcp_packet(2000, 1000, TcpFlags::ACK, &[]);
    let tcp_packet = segment(&packet_data);
    let (conn, action) = conn.handle_packet(&tcp_packet, proxy_mac, vm_mac, NOW);

    // Should not have Reregister action since Interest didn't change
    match action {
        ProxyAction::Multi(actions) => {
            let has_reregister = actions
                .iter()
                .any(|a| matches!(a, ProxyAction::Reregister(_)));
            assert!(
                !has_reregister,
                "Should not reregister when Interest hasn't changed"
            );
        }
        ProxyAction::DoNothing => {
            // This is fine - no actions needed
        }
        ProxyAction::Reregister(_) => {
            panic!("Should not reregister when Interest hasn't changed");
        }
        _ => {} // Other actions are fine
    }

    if let AnyConnection::Established(ref established) = conn {
        assert_eq!(
            established.state.current_interest,
            Interest::Readable,
            "current_interest should remain unchanged"
        );
    }
}

#[test]
fn test_packet_addresses_vm_to_host_data_packet() {
    let proxy_mac = MacAddr::new(0x02, 0x00, 0x00, 0x01, 0x02, 0x03);
    let vm_mac = MacAddr::new(0xde, 0xad, 0xbe, 0xef, 0x00, 0x00);

    let conn = connection(
        Recorded::new(MockStream::default()),
        (ip("192.168.100.2"),
        8080, ip("8.8.8.8"), 80), established(1000, 2000),
    );

    // Send data packet from VM
    let vm_data = b"Hello from VM";
    let packet_data = create_tcp_packet(2000, 1000, TcpFlags::PSH | TcpFlags::ACK, vm_data);
    let tcp_packet = segment(&packet_data);
    let (_conn, action) = conn.handle_packet(&tcp_packet, proxy_mac, vm_mac, NOW);

    // Should generate ACK packet to VM
    match action {
        ProxyAction::Multi(actions) => {
            let control_action = actions
                .iter()
                .find(|a| matches!(a, ProxyAction::SendControlPacket(_)));
            if let Some(ProxyAction::SendControlPacket(packet_bytes)) = control_action {
                // Parse the generated packet
                let eth_packet = EthernetPacket::new(packet_bytes).unwrap();
                let ip_packet = Ipv4Packet::new(eth_packet.payload()).unwrap();
                let tcp_packet = TcpPacket::new(ip_packet.payload()).unwrap();

                // Verify MAC addresses (proxy -> VM)
                assert_eq!(
                    mac(eth_packet.get_source()),
                    proxy_mac,
                    "Source MAC should be proxy"
                );
                assert_eq!(
                    mac(eth_packet.get_destination()),
                    vm_mac,
                    "Dest MAC should be VM"
                );

                // Verify IP addresses (host -> VM)
                assert_eq!(
                    ip_packet.get_source().to_string(),
                    "8.8.8.8",
                    "Source IP should be host"
                );
                assert_eq!(
                    ip_packet.get_destination().to_string(),
                    "192.168.100.2",
                    "Dest IP should be VM"
                );

                // Verify TCP ports (host -> VM)
                assert_eq!(
                    tcp_packet.get_source(),
                    80,
                    "Source port should be host port"
                );
                assert_eq!(
                    tcp_packet.get_destination(),
                    8080,
                    "Dest port should be VM port"
                );

                // Verify this is an ACK packet
                assert_eq!(
                    tcp_packet.get_flags() & TcpFlags::ACK,
                    TcpFlags::ACK,
                    "Should be ACK packet"
                );
            } else {
                panic!("Expected SendControlPacket action for ACK");
            }
        }
        _ => panic!("Expected Multi action with SendControlPacket"),
    }
}

#[test]
fn test_packet_addresses_syn_ack_establishment() {
    let proxy_mac = MacAddr::new(0x02, 0x00, 0x00, 0x01, 0x02, 0x03);
    let vm_mac = MacAddr::new(0xde, 0xad, 0xbe, 0xef, 0x00, 0x00);

    let conn = connection(
        Recorded::new(MockStream::default()),
        (ip("192.168.100.2"), 8080, ip("8.8.8.8"), 80),
        states::EgressConnecting {
            vm_initial_seq: 1000,
            tx_seq: 2000,
            vm_options: TcpNegotiatedOptions::default(),
        },
    );

    // Simulate host becoming writable (connection established)
    let (_conn, action) =
        AnyConnection::EgressConnecting(conn).handle_event(false, true, proxy_mac, vm_mac, NOW);

    // Should send SYN-ACK to VM
    match action {
        ProxyAction::Multi(actions) => {
            let control_action = actions
                .iter()
                .find(|a| matches!(a, ProxyAction::SendControlPacket(_)));
            if let Some(ProxyAction::SendControlPacket(packet_bytes)) = control_action {
                // Parse the SYN-ACK packet
                let eth_packet = EthernetPacket::new(packet_bytes).unwrap();
                let ip_packet = Ipv4Packet::new(eth_packet.payload()).unwrap();
                let tcp_packet = TcpPacket::new(ip_packet.payload()).unwrap();

                // Verify MAC addresses (proxy -> VM)
                assert_eq!(
                    mac(eth_packet.get_source()),
                    proxy_mac,
                    "Source MAC should be proxy"
                );
                assert_eq!(
                    mac(eth_packet.get_destination()),
                    vm_mac,
                    "Dest MAC should be VM"
                );

                // Verify IP addresses (host -> VM)
                assert_eq!(
                    ip_packet.get_source().to_string(),
                    "8.8.8.8",
                    "Source IP should be host"
                );
                assert_eq!(
                    ip_packet.get_destination().to_string(),
                    "192.168.100.2",
                    "Dest IP should be VM"
                );

                // Verify TCP ports (host -> VM)
                assert_eq!(
                    tcp_packet.get_source(),
                    80,
                    "Source port should be host port"
                );
                assert_eq!(
                    tcp_packet.get_destination(),
                    8080,
                    "Dest port should be VM port"
                );

                // Verify this is a SYN-ACK packet
                assert_eq!(
                    tcp_packet.get_flags() & (TcpFlags::SYN | TcpFlags::ACK),
                    TcpFlags::SYN | TcpFlags::ACK,
                    "Should be SYN-ACK packet"
                );
            } else {
                panic!("Expected SendControlPacket action for SYN-ACK");
            }
        }
        _ => panic!("Expected Multi action with SendControlPacket"),
    }
}

#[test]
fn test_packet_addresses_fin_teardown() {
    let proxy_mac = MacAddr::new(0x02, 0x00, 0x00, 0x01, 0x02, 0x03);
    let vm_mac = MacAddr::new(0xde, 0xad, 0xbe, 0xef, 0x00, 0x00);

    let conn = connection(
        Recorded::new(MockStream::default()),
        (ip("192.168.100.2"), 8080, ip("8.8.8.8"), 80),
        states::CloseWait {
            tx_seq: 1000,
            rx_seq: 2000,
        },
    );

    // Simulate host close event (readable event indicating close)
    let (_conn, action) =
        AnyConnection::CloseWait(conn).handle_event(true, false, proxy_mac, vm_mac, NOW);

    // Should send FIN to VM
    match action {
        ProxyAction::SendControlPacket(packet_bytes) => {
            // Parse the FIN packet
            let eth_packet = EthernetPacket::new(&packet_bytes).unwrap();
            let ip_packet = Ipv4Packet::new(eth_packet.payload()).unwrap();
            let tcp_packet = TcpPacket::new(ip_packet.payload()).unwrap();

            // Verify MAC addresses (proxy -> VM)
            assert_eq!(
                mac(eth_packet.get_source()),
                proxy_mac,
                "Source MAC should be proxy"
            );
            assert_eq!(
                mac(eth_packet.get_destination()),
                vm_mac,
                "Dest MAC should be VM"
            );

            // Verify IP addresses (host -> VM)
            assert_eq!(
                ip_packet.get_source().to_string(),
                "8.8.8.8",
                "Source IP should be host"
            );
            assert_eq!(
                ip_packet.get_destination().to_string(),
                "192.168.100.2",
                "Dest IP should be VM"
            );

            // Verify TCP ports (host -> VM)
            assert_eq!(
                tcp_packet.get_source(),
                80,
                "Source port should be host port"
            );
            assert_eq!(
                tcp_packet.get_destination(),
                8080,
                "Dest port should be VM port"
            );

            // Verify this is a FIN packet
            assert_eq!(
                tcp_packet.get_flags() & TcpFlags::FIN,
                TcpFlags::FIN,
                "Should be FIN packet"
            );
        }
        _ => panic!("Expected SendControlPacket action for FIN"),
    }
}

#[test]
fn test_packet_addresses_rst_reject() {
    let proxy_mac = MacAddr::new(0x02, 0x00, 0x00, 0x01, 0x02, 0x03);
    let vm_mac = MacAddr::new(0xde, 0xad, 0xbe, 0xef, 0x00, 0x00);

    let conn = connection(
        Recorded::new(MockStream::default()),
        (ip("192.168.100.2"),
        8080, ip("8.8.8.8"), 80), states::Closed,
    );

    // Send packet to closed connection
    let packet_data = create_tcp_packet(1000, 2000, TcpFlags::ACK, b"test data");
    let tcp_packet = segment(&packet_data);
    let (_conn, action) = conn.handle_packet(&tcp_packet, proxy_mac, vm_mac, NOW);

    // Should send RST to VM
    match action {
        ProxyAction::SendControlPacket(packet_bytes) => {
            // Parse the RST packet
            let eth_packet = EthernetPacket::new(&packet_bytes).unwrap();
            let ip_packet = Ipv4Packet::new(eth_packet.payload()).unwrap();
            let tcp_packet = TcpPacket::new(ip_packet.payload()).unwrap();

            // Verify MAC addresses (proxy -> VM)
            assert_eq!(
                mac(eth_packet.get_source()),
                proxy_mac,
                "Source MAC should be proxy"
            );
            assert_eq!(
                mac(eth_packet.get_destination()),
                vm_mac,
                "Dest MAC should be VM"
            );

            // Verify IP addresses (host -> VM)
            assert_eq!(
                ip_packet.get_source().to_string(),
                "8.8.8.8",
                "Source IP should be host"
            );
            assert_eq!(
                ip_packet.get_destination().to_string(),
                "192.168.100.2",
                "Dest IP should be VM"
            );

            // Verify TCP ports (host -> VM)
            assert_eq!(
                tcp_packet.get_source(),
                80,
                "Source port should be host port"
            );
            assert_eq!(
                tcp_packet.get_destination(),
                8080,
                "Dest port should be VM port"
            );

            // Verify this is a RST packet
            assert_eq!(
                tcp_packet.get_flags() & TcpFlags::RST,
                TcpFlags::RST,
                "Should be RST packet"
            );
        }
        _ => panic!("Expected SendControlPacket action for RST"),
    }
}

#[test]
fn test_packet_addresses_data_from_host() {
    let proxy_mac = MacAddr::new(0x02, 0x00, 0x00, 0x01, 0x02, 0x03);
    let vm_mac = MacAddr::new(0xde, 0xad, 0xbe, 0xef, 0x00, 0x00);

    let mut mock_stream = MockStream::default();
    // Add data to be read from host
    mock_stream.read_data.push_back(b"Hello from host".to_vec());

    let conn = connection(
        Recorded::new(mock_stream),
        (ip("192.168.100.2"),
        8080, ip("8.8.8.8"), 80), established(1000, 2000),
    );

    // Trigger read from host
    let (conn, _action) = conn.handle_event(true, false, proxy_mac, vm_mac, NOW);

    // Get the data packet that was queued for VM
    if let AnyConnection::Established(ref established) = conn {
        assert!(
            !established.state.to_vm_buffer.is_empty(),
            "Should have data packet for VM"
        );

        let packet_bytes = &established.state.to_vm_buffer[0];

        // Parse the data packet
        let eth_packet = EthernetPacket::new(packet_bytes).unwrap();
        let ip_packet = Ipv4Packet::new(eth_packet.payload()).unwrap();
        let tcp_packet = TcpPacket::new(ip_packet.payload()).unwrap();

        // Verify MAC addresses (proxy -> VM)
        assert_eq!(
            mac(eth_packet.get_source()),
            proxy_mac,
            "Source MAC should be proxy"
        );
        assert_eq!(
            mac(eth_packet.get_destination()),
            vm_mac,
            "Dest MAC should be VM"
        );

        // Verify IP addresses (host -> VM)
        assert_eq!(
            ip_packet.get_source().to_string(),
            "8.8.8.8",
            "Source IP should be host"
        );
        assert_eq!(
            ip_packet.get_destination().to_string(),
            "192.168.100.2",
            "Dest IP should be VM"
        );

        // Verify TCP ports (host -> VM)
        assert_eq!(
            tcp_packet.get_source(),
            80,
            "Source port should be host port"
        );
        assert_eq!(
            tcp_packet.get_destination(),
            8080,
            "Dest port should be VM port"
        );

        // Verify payload contains host data
        assert_eq!(
            tcp_packet.payload(),
            b"Hello from host",
            "Should contain host data"
        );
    } else {
        panic!("Connection should be in Established state");
    }
}

#[test]
fn test_packet_addresses_ipv6() {
    let proxy_mac = MacAddr::new(0x02, 0x00, 0x00, 0x01, 0x02, 0x03);
    let vm_mac = MacAddr::new(0xde, 0xad, 0xbe, 0xef, 0x00, 0x00);

    let conn = connection(
        Recorded::new(MockStream::default()),
        (v6(0x2001, 0xdb8, 2),
        8080, v6(0x2001, 0xdb8, 8), 80), established(1000, 2000),
    );

    // Create IPv6 TCP packet from VM
    let mut packet_buf = vec![0u8; 74]; // Ethernet + IPv6 + TCP headers

    // Build minimal IPv6 TCP packet

    let mut eth = MutableEthernetPacket::new(&mut packet_buf[0..14]).unwrap();
    eth.set_source(PnetMac::new(0xde, 0xad, 0xbe, 0xef, 0x00, 0x00));
    eth.set_destination(PnetMac::new(0x02, 0x00, 0x00, 0x01, 0x02, 0x03));
    eth.set_ethertype(EtherTypes::Ipv6);

    let mut ipv6 = MutableIpv6Packet::new(&mut packet_buf[14..54]).unwrap();
    ipv6.set_version(6);
    ipv6.set_payload_length(20);
    ipv6.set_next_header(IpNextHeaderProtocols::Tcp);
    ipv6.set_hop_limit(64);
    ipv6.set_source("2001:db8::2".parse().unwrap());
    ipv6.set_destination("2001:db8::8".parse().unwrap());

    let mut tcp = MutableTcpPacket::new(&mut packet_buf[54..74]).unwrap();
    tcp.set_source(8080);
    tcp.set_destination(80);
    tcp.set_sequence(2000);
    tcp.set_acknowledgement(1000);
    tcp.set_data_offset(5);
    tcp.set_flags(TcpFlags::ACK);
    tcp.set_window(65535);

    let tcp_packet = segment(&packet_buf[54..74]);
    let (_conn, action) = conn.handle_packet(&tcp_packet, proxy_mac, vm_mac, NOW);

    // Should generate ACK packet to VM or be DoNothing
    match action {
        ProxyAction::Multi(actions) => {
            let control_action = actions
                .iter()
                .find(|a| matches!(a, ProxyAction::SendControlPacket(_)));
            if let Some(ProxyAction::SendControlPacket(packet_bytes)) = control_action {
                // Parse the generated packet
                let eth_packet = EthernetPacket::new(packet_bytes).unwrap();

                // Verify it's IPv6
                assert_eq!(
                    eth_packet.get_ethertype(),
                    EtherTypes::Ipv6,
                    "Should be IPv6 packet"
                );

                let ipv6_packet = Ipv6Packet::new(eth_packet.payload()).unwrap();
                let tcp_packet = TcpPacket::new(ipv6_packet.payload()).unwrap();

                // Verify MAC addresses (proxy -> VM)
                assert_eq!(
                    mac(eth_packet.get_source()),
                    proxy_mac,
                    "Source MAC should be proxy"
                );
                assert_eq!(
                    mac(eth_packet.get_destination()),
                    vm_mac,
                    "Dest MAC should be VM"
                );

                // Verify IPv6 addresses (host -> VM)
                assert_eq!(
                    ipv6_packet.get_source().to_string(),
                    "2001:db8::8",
                    "Source IP should be host"
                );
                assert_eq!(
                    ipv6_packet.get_destination().to_string(),
                    "2001:db8::2",
                    "Dest IP should be VM"
                );

                // Verify TCP ports (host -> VM)
                assert_eq!(
                    tcp_packet.get_source(),
                    80,
                    "Source port should be host port"
                );
                assert_eq!(
                    tcp_packet.get_destination(),
                    8080,
                    "Dest port should be VM port"
                );
            }
            // If no SendControlPacket found, that's ok - may have been just reregistration
        }
        ProxyAction::SendControlPacket(packet_bytes) => {
            // Parse the generated packet
            let eth_packet = EthernetPacket::new(&packet_bytes).unwrap();

            // Verify it's IPv6
            assert_eq!(
                eth_packet.get_ethertype(),
                EtherTypes::Ipv6,
                "Should be IPv6 packet"
            );

            let ipv6_packet = Ipv6Packet::new(eth_packet.payload()).unwrap();
            let tcp_packet = TcpPacket::new(ipv6_packet.payload()).unwrap();

            // Verify MAC addresses (proxy -> VM)
            assert_eq!(
                mac(eth_packet.get_source()),
                proxy_mac,
                "Source MAC should be proxy"
            );
            assert_eq!(
                mac(eth_packet.get_destination()),
                vm_mac,
                "Dest MAC should be VM"
            );

            // Verify IPv6 addresses (host -> VM)
            assert_eq!(
                ipv6_packet.get_source().to_string(),
                "2001:db8::8",
                "Source IP should be host"
            );
            assert_eq!(
                ipv6_packet.get_destination().to_string(),
                "2001:db8::2",
                "Dest IP should be VM"
            );

            // Verify TCP ports (host -> VM)
            assert_eq!(
                tcp_packet.get_source(),
                80,
                "Source port should be host port"
            );
            assert_eq!(
                tcp_packet.get_destination(),
                8080,
                "Dest port should be VM port"
            );
        }
        _ => {
            // IPv6 might not trigger packet generation, that's also acceptable
        }
    }
}

#[test]
fn test_packet_addresses_different_nat_keys() {
    let proxy_mac = MacAddr::new(0x02, 0x00, 0x00, 0x01, 0x02, 0x03);
    let vm_mac = MacAddr::new(0xde, 0xad, 0xbe, 0xef, 0x00, 0x00);

    // Test different VM/host IP combinations
    let test_cases = vec![
        // (vm_ip, vm_port, host_ip, host_port)
        ("192.168.100.2", 8080, "8.8.8.8", 80),
        ("192.168.100.2", 12345, "1.1.1.1", 443),
        ("192.168.100.2", 55555, "127.0.0.1", 3000),
    ];

    for (vm_ip, vm_port, host_ip, host_port) in test_cases {
        let conn = connection(
        Recorded::new(MockStream::default()),
        (ip(vm_ip),
        vm_port, ip(host_ip), host_port), established(1000, 2000),
    );

        // Send ACK packet from VM
        let packet_data = create_tcp_packet(2000, 1000, TcpFlags::ACK, &[]);
        let tcp_packet = segment(&packet_data);
        let (_conn, action) = conn.handle_packet(&tcp_packet, proxy_mac, vm_mac, NOW);

        // Check if ACK is generated
        match action {
            ProxyAction::Multi(actions) => {
                let control_action = actions
                    .iter()
                    .find(|a| matches!(a, ProxyAction::SendControlPacket(_)));
                if let Some(ProxyAction::SendControlPacket(packet_bytes)) = control_action {
                    // Parse the generated packet
                    let eth_packet = EthernetPacket::new(packet_bytes).unwrap();
                    let ip_packet = Ipv4Packet::new(eth_packet.payload()).unwrap();
                    let tcp_packet = TcpPacket::new(ip_packet.payload()).unwrap();

                    // Verify MAC addresses are always proxy -> VM
                    assert_eq!(
                        mac(eth_packet.get_source()),
                        proxy_mac,
                        "Source MAC should be proxy for {}:{} -> {}:{}",
                        vm_ip,
                        vm_port,
                        host_ip,
                        host_port
                    );
                    assert_eq!(
                        mac(eth_packet.get_destination()),
                        vm_mac,
                        "Dest MAC should be VM for {}:{} -> {}:{}",
                        vm_ip,
                        vm_port,
                        host_ip,
                        host_port
                    );

                    // Verify IP addresses are always host -> VM
                    assert_eq!(
                        ip_packet.get_source().to_string(),
                        host_ip,
                        "Source IP should be host for {}:{} -> {}:{}",
                        vm_ip,
                        vm_port,
                        host_ip,
                        host_port
                    );
                    assert_eq!(
                        ip_packet.get_destination().to_string(),
                        vm_ip,
                        "Dest IP should be VM for {}:{} -> {}:{}",
                        vm_ip,
                        vm_port,
                        host_ip,
                        host_port
                    );

                    // Verify TCP ports are always host -> VM
                    assert_eq!(
                        tcp_packet.get_source(),
                        host_port,
                        "Source port should be host port for {}:{} -> {}:{}",
                        vm_ip,
                        vm_port,
                        host_ip,
                        host_port
                    );
                    assert_eq!(
                        tcp_packet.get_destination(),
                        vm_port,
                        "Dest port should be VM port for {}:{} -> {}:{}",
                        vm_ip,
                        vm_port,
                        host_ip,
                        host_port
                    );
                }
            }
            _ => {
                // Some cases might not generate ACK if no state change
            }
        }
    }
}
