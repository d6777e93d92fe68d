//! Connections that are being set up.
use bytes::Bytes;
use std::collections::{BTreeMap, VecDeque};
use vstd::prelude::*;

use crate::addr::{flip_key, Instant, Interest, MacAddr};
use crate::buffer::bytes_view;
use crate::host::{HostCall, TracedStream};
use crate::packet_utils::build_tcp_packet;
use crate::tcp_fsm::model::{
    action_view, event_step, fresh, host_did, idle_io, state_wf, steps_of, StateView, Step,
};
use crate::tcp_fsm::states::{EgressConnecting, Established, IngressConnecting};
use crate::tcp_fsm::{reacts, AnyConnection, ProxyAction, TcpConnection, TcpState};
use crate::wire::{TcpSegment, ACK, SYN_ACK};

verus! {

/// An established state over which nothing has flowed yet.
fn fresh_established(
    tx_seq: u32,
    rx_seq: u32,
    highest_ack_from_vm: u32,
    vm_window_size: u16,
    vm_window_scale: u8,
    now: Instant,
) -> (r: Established)
    ensures
        r@ == fresh(tx_seq, rx_seq, highest_ack_from_vm, vm_window_size, vm_window_scale, now),
{
    let r = Established {
        tx_seq,
        rx_seq,
        rx_buf: BTreeMap::new(),
        write_buffer: VecDeque::new(),
        write_buffer_size: 0,
        to_vm_buffer: VecDeque::new(),
        in_flight_packets: VecDeque::new(),
        highest_ack_from_vm,
        dup_ack_count: 0,
        host_reads_paused: false,
        vm_reads_paused: false,
        last_fast_retransmit_seq: None,
        current_interest: Interest::Both,
        vm_window_size,
        vm_window_scale,
        last_zero_window_probe: None,
        last_activity: now,
    };
    assert(r@ =~= fresh(
        tx_seq,
        rx_seq,
        highest_ack_from_vm,
        vm_window_size,
        vm_window_scale,
        now,
    ));
    r
}

/// Sends a packet and registers for both readiness events.
fn send_and_register(packet: Bytes) -> (r: ProxyAction)
    ensures
        action_view(r) == crate::tcp_fsm::model::ActionView::Many(
            seq![Step::Send(bytes_view(packet)), Step::Reregister(Interest::Both)],
        ),
{
    let mut actions: Vec<ProxyAction> = Vec::new();
    actions.push(ProxyAction::SendControlPacket(packet));
    actions.push(ProxyAction::Reregister(Interest::Both));
    assert(steps_of(actions@) =~= seq![
        Step::Send(bytes_view(packet)),
        Step::Reregister(Interest::Both),
    ]);
    ProxyAction::Multi(actions)
}

/// A host that is not touched did nothing.
proof fn untouched_host<H: TracedStream>(
    host: H,
    st: StateView,
    is_readable: bool,
    is_writable: bool,
)
    requires
        !(st is Established) && !(st is Simple),
    ensures
        host_did(host, host, st, is_readable, is_writable, idle_io()),
{
    let none = Seq::<HostCall>::empty();
    assert(host.calls() + (none + none + none) =~= host.calls());
}

/// Handling a readiness event without touching the host.
pub proof fn reacts_without_io<H: TracedStream>(
    before: AnyConnection<H>,
    is_readable: bool,
    is_writable: bool,
    proxy_mac: MacAddr,
    vm_mac: MacAddr,
    now: Instant,
    r: (AnyConnection<H>, ProxyAction),
)
    requires
        !(before@ is Established) && !(before@ is Simple),
        r.0.key() == before.key(),
        r.0.host() == before.host(),
        state_wf(r.0@),
        (r.0@, action_view(r.1)) == event_step(
            before.key(),
            before@,
            is_readable,
            is_writable,
            idle_io(),
            proxy_mac,
            vm_mac,
            now,
        ),
    ensures
        reacts(before, is_readable, is_writable, proxy_mac, vm_mac, now, r),
{
    reveal(reacts);
    untouched_host(before.host(), before@, is_readable, is_writable);
    assert(host_did(
        before.host(),
        r.0.host(),
        before@,
        is_readable,
        is_writable,
        idle_io(),
    ));
}

impl<H: TracedStream> TcpState<H> for TcpConnection<EgressConnecting, H> {
    open spec fn any(self) -> AnyConnection<H> {
        AnyConnection::EgressConnecting(self)
    }

    fn handle_packet(
        self,
        tcp: &TcpSegment,
        proxy_mac: MacAddr,
        vm_mac: MacAddr,
        now: Instant,
    ) -> (r: (AnyConnection<H>, ProxyAction)) {
        (AnyConnection::EgressConnecting(self), ProxyAction::DoNothing)
    }

    fn handle_event(
        self,
        is_readable: bool,
        is_writable: bool,
        proxy_mac: MacAddr,
        vm_mac: MacAddr,
        now: Instant,
    ) -> (r: (AnyConnection<H>, ProxyAction)) {
        if !is_writable {
            let r = (AnyConnection::EgressConnecting(self), ProxyAction::DoNothing);
            proof {
                reacts_without_io(
                    self.any(),
                    is_readable,
                    is_writable,
                    proxy_mac,
                    vm_mac,
                    now,
                    r,
                );
            }
            return r;
        }
        let mut conn = self;
        let tx_seq: u32 = conn.state.tx_seq;
        let ack_seq: u32 = conn.state.vm_initial_seq.wrapping_add(1);
        let packet = build_tcp_packet(
            &mut conn.packet_buf,
            flip_key(conn.nat_key),
            tx_seq,
            ack_seq,
            None,
            Some(SYN_ACK),
            proxy_mac,
            vm_mac,
        );
        let scale: u8 = match conn.state.vm_options.window_scale {
            Some(s) => s,
            None => 0,
        };
        let state = fresh_established(tx_seq.wrapping_add(1), ack_seq, tx_seq, 0xffff, scale, now);
        let action = send_and_register(packet);
        let r = (AnyConnection::Established(conn.transition(state)), action);
        proof {
            reacts_without_io(self.any(), is_readable, is_writable, proxy_mac, vm_mac, now, r);
        }
        r
    }
}

impl<H: TracedStream> TcpState<H> for TcpConnection<IngressConnecting, H> {
    open spec fn any(self) -> AnyConnection<H> {
        AnyConnection::IngressConnecting(self)
    }

    fn handle_packet(
        self,
        tcp: &TcpSegment,
        proxy_mac: MacAddr,
        vm_mac: MacAddr,
        now: Instant,
    ) -> (r: (AnyConnection<H>, ProxyAction)) {
        let mut conn = self;
        let tx_seq: u32 = conn.state.tx_seq;
        if (tcp.flags & SYN_ACK) != SYN_ACK || tcp.acknowledgement != tx_seq {
            return (AnyConnection::IngressConnecting(conn), ProxyAction::DoNothing);
        }
        let rx_seq: u32 = tcp.sequence.wrapping_add(1);
        let packet = build_tcp_packet(
            &mut conn.packet_buf,
            flip_key(conn.nat_key),
            tx_seq,
            rx_seq,
            None,
            Some(ACK),
            proxy_mac,
            vm_mac,
        );
        let state = fresh_established(tx_seq, rx_seq, tx_seq, tcp.window, 0, now);
        let action = send_and_register(packet);
        (AnyConnection::Established(conn.transition(state)), action)
    }

    fn handle_event(
        self,
        is_readable: bool,
        is_writable: bool,
        proxy_mac: MacAddr,
        vm_mac: MacAddr,
        now: Instant,
    ) -> (r: (AnyConnection<H>, ProxyAction)) {
        let r = (AnyConnection::IngressConnecting(self), ProxyAction::DoNothing);
        proof {
            reacts_without_io(self.any(), is_readable, is_writable, proxy_mac, vm_mac, now, r);
        }
        r
    }
}

} // verus!
