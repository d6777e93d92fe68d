//! Log lines for frames.
use vstd::prelude::*;

use crate::packet_dump::{dump_frame, frame_dump, Dump, DumpView};

verus! {

/// The line that a frame makes in the log. A frame that cannot be read makes none.
pub open spec fn logged(direction: Seq<char>, data: Seq<u8>) -> Option<Seq<char>> {
    match frame_dump(direction, data) {
        DumpView::Line(s) => Some(s),
        DumpView::Failed(_) => None,
    }
}

/// The line that a frame makes in the log.
fn log_packet(data: &[u8], direction: &str) -> (r: Option<String>)
    ensures
        r is Some <==> logged(direction@, data@) is Some,
        r matches Some(s) ==> s@ == logged(direction@, data@)->0,
{
    match dump_frame(data, direction) {
        Dump::Line(s) => Some(s),
        Dump::Failed(_) => None,
    }
}

/// The line that a frame from the machine makes in the log.
pub fn log_packet_in(data: &[u8]) -> (r: Option<String>)
    ensures
        r is Some <==> logged("IN"@, data@) is Some,
        r matches Some(s) ==> s@ == logged("IN"@, data@)->0,
{
    log_packet(data, "IN")
}

/// The line that a frame for the machine makes in the log.
pub fn log_packet_out(data: &[u8]) -> (r: Option<String>)
    ensures
        r is Some <==> logged("OUT"@, data@) is Some,
        r matches Some(s) ==> s@ == logged("OUT"@, data@)->0,
{
    log_packet(data, "OUT")
}

} // verus!
