//! A user-space network proxy between a virtual machine and its host: frames from the
//! machine are parsed, tracked as connections and turned into host socket work, and what
//! the host answers is turned back into frames.
pub mod addr;
pub mod buffer;
mod chance;
pub mod wire;
pub mod packet_utils;
pub mod text;
pub mod packet_dump;
pub mod text_laws;
pub mod frame_laws;
pub mod host;
pub mod seqnum;
pub mod simple_tcp;
pub mod tcp_fsm;
pub mod tcp_laws;
pub mod ack_laws;
pub mod state_laws;
pub mod direction_laws;
pub mod simple_laws;
pub mod simple_duty_laws;
pub mod tables;
pub mod udp;
pub mod udp_laws;
pub mod packet_replay;
pub mod gvproxy;
pub mod backend;
pub mod proxy;
pub mod vm_frames;
pub mod direct_proxy;
pub mod simple_proxy;
pub mod reading_laws;
pub mod capacity;
