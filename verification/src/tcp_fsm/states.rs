//! The states of a TCP connection towards the virtual machine.
use bytes::Bytes;
use std::collections::{BTreeMap, VecDeque};
use vstd::prelude::*;

use crate::addr::{Instant, Interest};
use crate::tcp_fsm::TcpNegotiatedOptions;

verus! {

/// The host is being connected to on the machine's behalf.
#[derive(Debug)]
pub struct EgressConnecting {
    pub vm_initial_seq: u32,
    pub tx_seq: u32,
    pub vm_options: TcpNegotiatedOptions,
}

/// The machine has been sent a SYN on the host's behalf.
#[derive(Debug)]
pub struct IngressConnecting {
    pub tx_seq: u32,
    pub rx_seq: u32,
}

/// Data flows both ways.
#[derive(Debug)]
pub struct Established {
    pub tx_seq: u32,
    pub rx_seq: u32,
    /// Packets from the machine that came ahead of their turn, by sequence number.
    pub rx_buf: BTreeMap<u32, Bytes>,
    /// Data from the machine to be written to the host.
    pub write_buffer: VecDeque<Bytes>,
    pub write_buffer_size: usize,
    /// Packets with data from the host to be sent to the machine.
    pub to_vm_buffer: VecDeque<Bytes>,
    /// Packets sent to the machine and not yet acknowledged: sequence number, packet, when it
    /// was sent, how far it moves the sequence number.
    pub in_flight_packets: VecDeque<(u32, Bytes, Instant, u32)>,
    pub highest_ack_from_vm: u32,
    pub dup_ack_count: u16,
    pub host_reads_paused: bool,
    /// Data packets from the machine are dropped because the host cannot keep up.
    pub vm_reads_paused: bool,
    /// The acknowledgement that a fast retransmission last answered.
    pub last_fast_retransmit_seq: Option<u32>,
    /// The readiness events that the host socket is registered for.
    pub current_interest: Interest,
    pub vm_window_size: u16,
    pub vm_window_scale: u8,
    pub last_zero_window_probe: Option<Instant>,
    pub last_activity: Instant,
}

/// A FIN was sent; its acknowledgement is awaited.
#[derive(Debug)]
pub struct FinWait1 {
    pub fin_seq: u32,
    pub rx_seq: u32,
}

/// The FIN was acknowledged; the machine's FIN is awaited.
#[derive(Debug)]
pub struct FinWait2 {
    pub rx_seq: u32,
}

/// The machine's FIN came; the host is still to close.
#[derive(Debug)]
pub struct CloseWait {
    pub tx_seq: u32,
    pub rx_seq: u32,
}

/// The FIN that follows the machine's was sent; its acknowledgement is awaited.
#[derive(Debug)]
pub struct LastAck {
    pub fin_seq: u32,
}

/// Both sides sent a FIN; the acknowledgement of ours is awaited.
#[derive(Debug)]
pub struct Closing {
    pub fin_seq: u32,
    pub rx_seq: u32,
}

/// The connection is over but late packets may still come.
#[derive(Debug)]
pub struct TimeWait;

/// A port on which connections would be taken.
#[derive(Debug)]
pub struct Listen {
    pub listen_port: u16,
}

/// There is no connection.
#[derive(Debug)]
pub struct Closed;

} // verus!
