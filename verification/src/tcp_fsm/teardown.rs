//! Connections that are being taken down, and ports without a connection.
use vstd::prelude::*;

use crate::addr::{flip_key, Instant, MacAddr};
use crate::host::TracedStream;
use crate::packet_utils::build_tcp_packet;
use crate::seqnum::length32;
use crate::tcp_fsm::handshake::reacts_without_io;
use crate::tcp_fsm::model::{action_view, steps_of, to_vm, ActionView, Step};
use crate::tcp_fsm::states::{
    CloseWait, Closed, Closing, FinWait1, FinWait2, LastAck, Listen, TimeWait,
};
use crate::tcp_fsm::{AnyConnection, ProxyAction, TcpConnection, TcpState};
use crate::wire::{TcpSegment, ACK, FIN, FIN_ACK, RST, RST_ACK, SYN};

verus! {

impl<S, H> TcpConnection<S, H> {
    /// Sends a packet without data to the machine.
    fn send_control(
        &mut self,
        sequence: u32,
        acknowledgement: u32,
        flags: u8,
        proxy_mac: MacAddr,
        vm_mac: MacAddr,
    ) -> (r: ProxyAction)
        ensures
            r is SendControlPacket,
            action_view(r) == ActionView::One(
                Step::Send(
                    to_vm(
                        old(self).nat_key,
                        sequence,
                        acknowledgement,
                        Seq::empty(),
                        flags,
                        proxy_mac,
                        vm_mac,
                    ),
                ),
            ),
            final(self).nat_key == old(self).nat_key,
            final(self).stream == old(self).stream,
            final(self).state == old(self).state,
    {
        let packet = build_tcp_packet(
            &mut self.packet_buf,
            flip_key(self.nat_key),
            sequence,
            acknowledgement,
            None,
            Some(flags),
            proxy_mac,
            vm_mac,
        );
        ProxyAction::SendControlPacket(packet)
    }
}

impl<H: TracedStream> TcpState<H> for TcpConnection<FinWait1, H> {
    open spec fn any(self) -> AnyConnection<H> {
        AnyConnection::FinWait1(self)
    }

    fn handle_packet(
        self,
        tcp: &TcpSegment,
        proxy_mac: MacAddr,
        vm_mac: MacAddr,
        now: Instant,
    ) -> (r: (AnyConnection<H>, ProxyAction)) {
        if (tcp.flags & ACK) != 0 && tcp.acknowledgement == self.state.fin_seq {
            let rx_seq: u32 = self.state.rx_seq;
            let next = self.transition(FinWait2 { rx_seq });
            (AnyConnection::FinWait2(next), ProxyAction::DoNothing)
        } else {
            (AnyConnection::FinWait1(self), ProxyAction::DoNothing)
        }
    }

    fn handle_event(
        self,
        is_readable: bool,
        is_writable: bool,
        proxy_mac: MacAddr,
        vm_mac: MacAddr,
        now: Instant,
    ) -> (r: (AnyConnection<H>, ProxyAction)) {
        let r = (AnyConnection::FinWait1(self), ProxyAction::DoNothing);
        proof {
            reacts_without_io(self.any(), is_readable, is_writable, proxy_mac, vm_mac, now, r);
        }
        r
    }
}

impl<H: TracedStream> TcpState<H> for TcpConnection<FinWait2, H> {
    open spec fn any(self) -> AnyConnection<H> {
        AnyConnection::FinWait2(self)
    }

    fn handle_packet(
        self,
        tcp: &TcpSegment,
        proxy_mac: MacAddr,
        vm_mac: MacAddr,
        now: Instant,
    ) -> (r: (AnyConnection<H>, ProxyAction)) {
        if (tcp.flags & FIN) == 0 {
            return (AnyConnection::FinWait2(self), ProxyAction::DoNothing);
        }
        let mut conn = self;
        let send = conn.send_control(0, tcp.sequence.wrapping_add(1), ACK, proxy_mac, vm_mac);
        let ghost sent = send;
        let mut actions: Vec<ProxyAction> = Vec::new();
        actions.push(send);
        actions.push(ProxyAction::EnterTimeWait);
        assert(steps_of(actions@) =~= seq![
            crate::tcp_fsm::model::step_of(sent),
            Step::EnterTimeWait,
        ]);
        (AnyConnection::TimeWait(conn.transition(TimeWait)), ProxyAction::Multi(actions))
    }

    fn handle_event(
        self,
        is_readable: bool,
        is_writable: bool,
        proxy_mac: MacAddr,
        vm_mac: MacAddr,
        now: Instant,
    ) -> (r: (AnyConnection<H>, ProxyAction)) {
        let r = (AnyConnection::FinWait2(self), ProxyAction::DoNothing);
        proof {
            reacts_without_io(self.any(), is_readable, is_writable, proxy_mac, vm_mac, now, r);
        }
        r
    }
}

impl<H: TracedStream> TcpState<H> for TcpConnection<CloseWait, H> {
    open spec fn any(self) -> AnyConnection<H> {
        AnyConnection::CloseWait(self)
    }

    fn handle_packet(
        self,
        tcp: &TcpSegment,
        proxy_mac: MacAddr,
        vm_mac: MacAddr,
        now: Instant,
    ) -> (r: (AnyConnection<H>, ProxyAction)) {
        (AnyConnection::CloseWait(self), ProxyAction::DoNothing)
    }

    fn handle_event(
        self,
        is_readable: bool,
        is_writable: bool,
        proxy_mac: MacAddr,
        vm_mac: MacAddr,
        now: Instant,
    ) -> (r: (AnyConnection<H>, ProxyAction)) {
        let mut conn = self;
        let tx_seq: u32 = conn.state.tx_seq;
        let rx_seq: u32 = conn.state.rx_seq;
        let send = conn.send_control(tx_seq, rx_seq, FIN_ACK, proxy_mac, vm_mac);
        let next = conn.transition(LastAck { fin_seq: tx_seq.wrapping_add(1) });
        let r = (AnyConnection::LastAck(next), send);
        proof {
            reacts_without_io(self.any(), is_readable, is_writable, proxy_mac, vm_mac, now, r);
        }
        r
    }
}

impl<H: TracedStream> TcpState<H> for TcpConnection<LastAck, H> {
    open spec fn any(self) -> AnyConnection<H> {
        AnyConnection::LastAck(self)
    }

    fn handle_packet(
        self,
        tcp: &TcpSegment,
        proxy_mac: MacAddr,
        vm_mac: MacAddr,
        now: Instant,
    ) -> (r: (AnyConnection<H>, ProxyAction)) {
        if (tcp.flags & ACK) != 0 && tcp.acknowledgement == self.state.fin_seq {
            (AnyConnection::LastAck(self), ProxyAction::ScheduleRemoval)
        } else {
            (AnyConnection::LastAck(self), ProxyAction::DoNothing)
        }
    }

    fn handle_event(
        self,
        is_readable: bool,
        is_writable: bool,
        proxy_mac: MacAddr,
        vm_mac: MacAddr,
        now: Instant,
    ) -> (r: (AnyConnection<H>, ProxyAction)) {
        let r = (AnyConnection::LastAck(self), ProxyAction::DoNothing);
        proof {
            reacts_without_io(self.any(), is_readable, is_writable, proxy_mac, vm_mac, now, r);
        }
        r
    }
}

impl<H: TracedStream> TcpState<H> for TcpConnection<TimeWait, H> {
    open spec fn any(self) -> AnyConnection<H> {
        AnyConnection::TimeWait(self)
    }

    fn handle_packet(
        self,
        tcp: &TcpSegment,
        proxy_mac: MacAddr,
        vm_mac: MacAddr,
        now: Instant,
    ) -> (r: (AnyConnection<H>, ProxyAction)) {
        let mut conn = self;
        let send = if (tcp.flags & FIN) != 0 {
            conn.send_control(0, tcp.sequence.wrapping_add(1), ACK, proxy_mac, vm_mac)
        } else {
            conn.send_control(tcp.acknowledgement, 0, RST, proxy_mac, vm_mac)
        };
        (AnyConnection::TimeWait(conn), send)
    }

    fn handle_event(
        self,
        is_readable: bool,
        is_writable: bool,
        proxy_mac: MacAddr,
        vm_mac: MacAddr,
        now: Instant,
    ) -> (r: (AnyConnection<H>, ProxyAction)) {
        let r = (AnyConnection::TimeWait(self), ProxyAction::DoNothing);
        proof {
            reacts_without_io(self.any(), is_readable, is_writable, proxy_mac, vm_mac, now, r);
        }
        r
    }
}

impl<H: TracedStream> TcpState<H> for TcpConnection<Closing, H> {
    open spec fn any(self) -> AnyConnection<H> {
        AnyConnection::Closing(self)
    }

    fn handle_packet(
        self,
        tcp: &TcpSegment,
        proxy_mac: MacAddr,
        vm_mac: MacAddr,
        now: Instant,
    ) -> (r: (AnyConnection<H>, ProxyAction)) {
        let mut conn = self;
        let fin_seq: u32 = conn.state.fin_seq;
        let rx_seq: u32 = conn.state.rx_seq;
        if (tcp.flags & ACK) != 0 && tcp.acknowledgement == fin_seq.wrapping_add(1) {
            let next = conn.transition(TimeWait);
            return (AnyConnection::TimeWait(next), ProxyAction::EnterTimeWait);
        }
        if (tcp.flags & FIN) != 0 && tcp.sequence == rx_seq {
            let send = conn.send_control(
                fin_seq.wrapping_add(1),
                rx_seq.wrapping_add(1),
                ACK,
                proxy_mac,
                vm_mac,
            );
            return (AnyConnection::Closing(conn), send);
        }
        (AnyConnection::Closing(conn), ProxyAction::DoNothing)
    }

    fn handle_event(
        self,
        is_readable: bool,
        is_writable: bool,
        proxy_mac: MacAddr,
        vm_mac: MacAddr,
        now: Instant,
    ) -> (r: (AnyConnection<H>, ProxyAction)) {
        let r = (AnyConnection::Closing(self), ProxyAction::DoNothing);
        proof {
            reacts_without_io(self.any(), is_readable, is_writable, proxy_mac, vm_mac, now, r);
        }
        r
    }
}

impl<H: TracedStream> TcpState<H> for TcpConnection<Listen, H> {
    open spec fn any(self) -> AnyConnection<H> {
        AnyConnection::Listen(self)
    }

    fn handle_packet(
        self,
        tcp: &TcpSegment,
        proxy_mac: MacAddr,
        vm_mac: MacAddr,
        now: Instant,
    ) -> (r: (AnyConnection<H>, ProxyAction)) {
        let mut conn = self;
        if (tcp.flags & SYN) != 0 && (tcp.flags & ACK) == 0 {
            let send = conn.send_control(
                0,
                tcp.sequence.wrapping_add(1),
                RST_ACK,
                proxy_mac,
                vm_mac,
            );
            return (AnyConnection::Listen(conn), send);
        }
        (AnyConnection::Listen(conn), ProxyAction::DoNothing)
    }

    fn handle_event(
        self,
        is_readable: bool,
        is_writable: bool,
        proxy_mac: MacAddr,
        vm_mac: MacAddr,
        now: Instant,
    ) -> (r: (AnyConnection<H>, ProxyAction)) {
        let r = (AnyConnection::Listen(self), ProxyAction::DoNothing);
        proof {
            reacts_without_io(self.any(), is_readable, is_writable, proxy_mac, vm_mac, now, r);
        }
        r
    }
}

impl<H: TracedStream> TcpState<H> for TcpConnection<Closed, H> {
    open spec fn any(self) -> AnyConnection<H> {
        AnyConnection::Closed(self)
    }

    fn handle_packet(
        self,
        tcp: &TcpSegment,
        proxy_mac: MacAddr,
        vm_mac: MacAddr,
        now: Instant,
    ) -> (r: (AnyConnection<H>, ProxyAction)) {
        let mut conn = self;
        if (tcp.flags & RST) != 0 {
            return (AnyConnection::Closed(conn), ProxyAction::DoNothing);
        }
        if (tcp.flags & ACK) != 0 {
            let send = conn.send_control(tcp.acknowledgement, 0, RST, proxy_mac, vm_mac);
            return (AnyConnection::Closed(conn), send);
        }
        let counted: u32 = if (tcp.flags & 0x03) != 0 {
            1
        } else {
            0
        };
        let ack: u32 = tcp.sequence.wrapping_add(length32(tcp.payload.len())).wrapping_add(counted);
        let send = conn.send_control(0, ack, RST_ACK, proxy_mac, vm_mac);
        (AnyConnection::Closed(conn), send)
    }

    fn handle_event(
        self,
        is_readable: bool,
        is_writable: bool,
        proxy_mac: MacAddr,
        vm_mac: MacAddr,
        now: Instant,
    ) -> (r: (AnyConnection<H>, ProxyAction)) {
        let r = (AnyConnection::Closed(self), ProxyAction::DoNothing);
        proof {
            reacts_without_io(self.any(), is_readable, is_writable, proxy_mac, vm_mac, now, r);
        }
        r
    }
}

} // verus!
