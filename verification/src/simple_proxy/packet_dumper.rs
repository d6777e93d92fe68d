//! Frames as text.
use vstd::prelude::*;

use crate::packet_dump::{dump_frame, frame_dump, Dump, DumpView};

verus! {

/// A frame that is to be put into words, and the direction it goes in.
#[derive(Debug)]
pub struct PacketDumper<'a> {
    pub data: &'a [u8],
    pub direction: &'static str,
}

/// A frame in words, whether it can be read or not.
pub open spec fn worded(direction: Seq<char>, data: Seq<u8>) -> Seq<char> {
    match frame_dump(direction, data) {
        DumpView::Line(s) => s,
        DumpView::Failed(s) => s,
    }
}

impl<'a> PacketDumper<'a> {
    /// The frame in words.
    pub fn fmt(&self) -> (r: String)
        ensures
            r@ == worded(self.direction@, self.data@),
    {
        match dump_frame(self.data, self.direction) {
            Dump::Line(s) => s,
            Dump::Failed(s) => s,
        }
    }
}

/// A frame from the machine, to be put into words.
pub fn log_packet_in(data: &[u8]) -> (r: PacketDumper<'_>)
    ensures
        r.data@ == data@,
        r.direction@ == "IN"@,
{
    PacketDumper { data, direction: "IN" }
}

/// A frame for the machine, to be put into words.
pub fn log_packet_out(data: &[u8]) -> (r: PacketDumper<'_>)
    ensures
        r.data@ == data@,
        r.direction@ == "OUT"@,
{
    PacketDumper { data, direction: "OUT" }
}

} // verus!
