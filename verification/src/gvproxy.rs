//! What is said to a gvproxy process before frames go to it.
use vstd::prelude::*;
use vstd::string::StringExecFns;

verus! {

/// The four bytes by which a client makes itself known: `VFKT`.
pub open spec fn magic() -> Seq<u8> {
    seq![0x56u8, 0x46u8, 0x4bu8, 0x54u8]
}

/// The four bytes by which a client makes itself known.
pub fn vfkit_magic() -> (r: [u8; 4])
    ensures
        r@ == magic(),
{
    let r: [u8; 4] = [0x56, 0x46, 0x4b, 0x54];
    assert(r@ =~= magic());
    r
}

/// The path of the client's own socket: that of the process with a suffix.
pub fn local_socket_path(path: &str) -> (r: String)
    ensures
        r@ == path@ + "-krun.sock"@,
{
    let mut s = String::from_str(path);
    s.append("-krun.sock");
    s
}

} // verus!
