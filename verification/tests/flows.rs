//! UDP flows, reading results, sequence numbers and tables.
use net_proxy::addr::{flip_key, IpAddr, Ipv4Addr, NatKey, Token};
use net_proxy::backend::{fill, frame_body, frame_read, ReadError, WriteError};
use net_proxy::seqnum::length32;
use net_proxy::tables::NatTable;
use net_proxy::udp::{UdpFlows, UDP_SESSION_TIMEOUT};

fn key(port: u16) -> NatKey {
    let vm = IpAddr::V4(Ipv4Addr::new(192, 168, 100, 2));
    (vm, port, IpAddr::V4(Ipv4Addr::new(8, 8, 8, 8)), 53)
}

#[test]
fn udp_flows_keep_their_socket() {
    let mut flows = UdpFlows::new(0);
    assert_eq!(flows.route(key(1), Token(5)), (Token(5), true));
    assert_eq!(flows.route(key(1), Token(6)), (Token(5), false));
    assert_eq!(flows.flow(Token(5)), None);
    flows.opened(Token(5), key(1), 0);
    assert_eq!(flows.flow(Token(5)), Some(key(1)));
}

#[test]
fn cleanup_closes_idle_sockets() {
    let mut flows = UdpFlows::new(0);
    flows.route(key(1), Token(5));
    flows.opened(Token(5), key(1), 0);
    flows.route(key(2), Token(6));
    flows.opened(Token(6), key(2), 0);
    assert!(flows.cleanup(UDP_SESSION_TIMEOUT).is_empty());
    flows.used(Token(6), UDP_SESSION_TIMEOUT);
    assert_eq!(flows.cleanup(UDP_SESSION_TIMEOUT + 1), vec![Token(5)]);
    assert_eq!(flows.flow(Token(5)), None);
    assert_eq!(flows.flow(Token(6)), Some(key(2)));
    assert_eq!(flows.route(key(1), Token(7)), (Token(7), true));
}

#[test]
fn table_has_one_socket_for_a_flow() {
    let mut table = NatTable::new();
    table.insert(key(1), Token(1));
    table.insert(key(2), Token(2));
    table.insert(key(1), Token(3));
    assert_eq!(table.get(&key(1)), Some(Token(3)));
    table.remove(&key(1));
    assert_eq!(table.get(&key(1)), None);
    assert_eq!(table.get(&key(2)), Some(Token(2)));
    assert_eq!(flip_key(flip_key(key(1))), key(1));
}

#[test]
fn results_of_reading() {
    assert!(matches!(frame_read(Ok(9), false), Ok(9)));
    let blocked = std::io::Error::from(std::io::ErrorKind::WouldBlock);
    assert!(matches!(frame_read(Err(blocked), true), Err(ReadError::NothingRead)));
    let broken = std::io::Error::from(std::io::ErrorKind::BrokenPipe);
    assert!(matches!(frame_read(Err(broken), false), Err(ReadError::Internal(_))));
    let broken = std::io::Error::from(std::io::ErrorKind::BrokenPipe);
    assert!(matches!(WriteError::from(broken), WriteError::Internal(_)));
}

#[test]
fn frames_behind_headers() {
    assert_eq!(frame_body(&[1, 2, 3, 4], 3), &[4]);
    let mut buf = [9u8; 4];
    fill(&mut buf, &[1, 2]);
    assert_eq!(buf, [1, 2, 9, 9]);
    assert_eq!(length32(70000), 70000);
}
