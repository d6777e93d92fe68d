//! Frames from the proxy to the machine, by the flow they belong to.
use bytes::BytesMut;
use vstd::prelude::*;

use crate::addr::{flip_key, flipped, IpAddr, NatKey};
use crate::buffer::buf_view;
use crate::packet_utils::{
    fill_ipv4_tcp, fill_ipv4_udp, fill_ipv6_tcp, fill_ipv6_udp, flags_of,
    payload_of, same_family, tcp_frame_window, udp_frame,
};
use crate::proxy::{proxy_ip, proxy_mac, vm_mac};
use crate::wire::{
    TcpHeader, ACK, ETHERNET_HEADER, IPV4_HEADER, IPV6_HEADER, TCP_HEADER, UDP_HEADER,
};

verus! {

/// The direction from the proxy to the machine. A flow that the proxy began runs that way, and
/// any other runs the other way.
pub open spec fn towards_vm(key: NatKey) -> NatKey {
    if key.0 == IpAddr::V4(proxy_ip()) {
        key
    } else {
        flipped(key)
    }
}

/// The acknowledgement to the machine that a flow has reached.
pub open spec fn vm_ack(key: NatKey, tx_seq: u32, tx_ack: u32) -> Seq<u8> {
    vm_frame(key, tx_seq, tx_ack, Seq::empty(), ACK, 0xffff)
}

/// The TCP frame to the machine on a flow.
pub open spec fn vm_frame(
    key: NatKey,
    sequence: u32,
    acknowledgement: u32,
    payload: Seq<u8>,
    flags: u8,
    window: u16,
) -> Seq<u8> {
    tcp_frame_window(
        towards_vm(key),
        sequence,
        acknowledgement,
        payload,
        flags,
        window,
        proxy_mac(),
        vm_mac(),
    )
}

/// The UDP frame to the machine on a flow.
pub open spec fn vm_datagram(key: NatKey, payload: Seq<u8>) -> Seq<u8> {
    udp_frame(flipped(key), payload, proxy_mac(), vm_mac())
}

/// Whether the lengths in the headers of a TCP frame on this flow can count the payload.
pub open spec fn tcp_fits(key: NatKey, payload: Seq<u8>) -> bool {
    payload.len() + (if key.0 is V4 {
        40int
    } else {
        20
    }) <= 0xffff
}

/// Whether the lengths in the headers of a UDP frame on this flow can count the payload.
pub open spec fn udp_fits(key: NatKey, payload: Seq<u8>) -> bool {
    payload.len() + (if key.0 is V4 {
        28int
    } else {
        8
    }) <= 0xffff
}

/// Writes the TCP frame to the machine on a flow into the scratch buffer, if there is one, and
/// says how long it is.
pub(crate) fn fill_vm_frame(
    packet_buf: &mut BytesMut,
    nat_key: NatKey,
    tx_seq: u32,
    tx_ack: u32,
    payload: Option<&[u8]>,
    flags: Option<u8>,
    window: u16,
) -> (r: Option<usize>)
    requires
        tcp_fits(nat_key, payload_of(payload)),
    ensures
        r is Some <==> same_family(nat_key),
        r matches Some(n) ==> buf_view(*final(packet_buf)).len() == n,
        r is Some ==> buf_view(*final(packet_buf)) == vm_frame(
            nat_key,
            tx_seq,
            tx_ack,
            payload_of(payload),
            flags_of(flags),
            window,
        ),
        r is None ==> vm_frame(
            nat_key,
            tx_seq,
            tx_ack,
            payload_of(payload),
            flags_of(flags),
            window,
        ) == Seq::<u8>::empty(),
        r is None ==> *final(packet_buf) == *old(packet_buf),
{
    reveal(tcp_frame_window);
    let key: NatKey = if nat_key.0 == IpAddr::V4(proxy_ip()) {
        nat_key
    } else {
        flip_key(nat_key)
    };
    let f: u8 = match flags {
        Some(f) => f,
        None => 0,
    };
    let h = TcpHeader {
        source: key.1,
        destination: key.3,
        sequence: tx_seq,
        acknowledgement: tx_ack,
        flags: f,
        window,
    };
    let nothing: [u8; 0] = [];
    let data: &[u8] = match payload {
        Some(p) => p,
        None => nothing.as_slice(),
    };
    assert(data@ =~= payload_of(payload));
    match (key.0, key.2) {
        (IpAddr::V4(src), IpAddr::V4(dst)) => {
            fill_ipv4_tcp(packet_buf, src, dst, h, data, proxy_mac(), vm_mac());
            Some(ETHERNET_HEADER + IPV4_HEADER + TCP_HEADER + data.len())
        },
        (IpAddr::V6(src), IpAddr::V6(dst)) => {
            fill_ipv6_tcp(packet_buf, src, dst, h, data, proxy_mac(), vm_mac());
            Some(ETHERNET_HEADER + IPV6_HEADER + TCP_HEADER + data.len())
        },
        _ => None,
    }
}

/// Writes the UDP frame to the machine on a flow into the scratch buffer, if there is one, and
/// says how long it is.
pub(crate) fn fill_vm_datagram(packet_buf: &mut BytesMut, nat_key: NatKey, payload: &[u8]) -> (r:
    Option<usize>)
    requires
        udp_fits(nat_key, payload@),
    ensures
        r is Some <==> same_family(nat_key),
        r matches Some(n) ==> buf_view(*final(packet_buf)).len() == n,
        r is Some ==> buf_view(*final(packet_buf)) == vm_datagram(nat_key, payload@),
        r is None ==> vm_datagram(nat_key, payload@) == Seq::<u8>::empty(),
        r is None ==> *final(packet_buf) == *old(packet_buf),
{
    reveal(udp_frame);
    match (nat_key.2, nat_key.0) {
        (IpAddr::V4(src), IpAddr::V4(dst)) => {
            fill_ipv4_udp(
                packet_buf,
                src,
                dst,
                nat_key.3,
                nat_key.1,
                payload,
                proxy_mac(),
                vm_mac(),
            );
            Some(ETHERNET_HEADER + IPV4_HEADER + UDP_HEADER + payload.len())
        },
        (IpAddr::V6(src), IpAddr::V6(dst)) => {
            fill_ipv6_udp(
                packet_buf,
                src,
                dst,
                nat_key.3,
                nat_key.1,
                payload,
                proxy_mac(),
                vm_mac(),
            );
            Some(ETHERNET_HEADER + IPV6_HEADER + UDP_HEADER + payload.len())
        },
        _ => None,
    }
}

} // verus!
