//! Numbers, addresses and flags as text.
use vstd::prelude::*;
use vstd::string::StringExecFns;

use crate::addr::{IpAddr, Ipv4Addr, Ipv6Addr, NatKey};
use crate::wire::{ACK, FIN, PSH, RST, SYN, URG};

verus! {

// --- Numbers ---

/// A decimal digit.
pub open spec fn digit(d: int) -> char {
    (48 + d) as char
}

/// A number in decimal.
pub open spec fn decimal(n: nat) -> Seq<char>
    decreases n,
{
    if n < 10 {
        seq![digit(n as int)]
    } else {
        decimal(n / 10).push(digit((n % 10) as int))
    }
}

/// A hexadecimal digit, in lower case.
pub open spec fn hex_digit(d: int) -> char {
    if d < 10 {
        (48 + d) as char
    } else {
        (87 + d) as char
    }
}

/// The last `width` hexadecimal digits of a number.
pub open spec fn hexadecimal(n: nat, width: nat) -> Seq<char>
    decreases width,
{
    if width == 0 {
        Seq::empty()
    } else {
        hexadecimal(n / 16, (width - 1) as nat).push(hex_digit((n % 16) as int))
    }
}

/// Appends a hexadecimal digit.
fn append_digit(s: &mut String, d: u8)
    requires
        d < 16,
    ensures
        final(s)@ == old(s)@.push(hex_digit(d as int)),
{
    let t: &str = match d {
        0 => "0",
        1 => "1",
        2 => "2",
        3 => "3",
        4 => "4",
        5 => "5",
        6 => "6",
        7 => "7",
        8 => "8",
        9 => "9",
        10 => "a",
        11 => "b",
        12 => "c",
        13 => "d",
        14 => "e",
        _ => "f",
    };
    proof {
        reveal_strlit("0");
        reveal_strlit("1");
        reveal_strlit("2");
        reveal_strlit("3");
        reveal_strlit("4");
        reveal_strlit("5");
        reveal_strlit("6");
        reveal_strlit("7");
        reveal_strlit("8");
        reveal_strlit("9");
        reveal_strlit("a");
        reveal_strlit("b");
        reveal_strlit("c");
        reveal_strlit("d");
        reveal_strlit("e");
        reveal_strlit("f");
    }
    s.append(t);
    assert(s@ =~= old(s)@.push(hex_digit(d as int)));
}

/// Appends a number in decimal.
pub fn append_number(s: &mut String, n: u64)
    ensures
        final(s)@ == old(s)@ + decimal(n as nat),
    decreases n,
{
    if n >= 10 {
        append_number(s, n / 10);
    }
    let ghost mid = s@;
    append_digit(s, (n % 10) as u8);
    assert(s@ =~= old(s)@ + decimal(n as nat));
}

/// Appends the last `width` hexadecimal digits of a number.
pub fn append_hex(s: &mut String, n: u32, width: u8)
    ensures
        final(s)@ == old(s)@ + hexadecimal(n as nat, width as nat),
    decreases width,
{
    if width == 0 {
        assert(s@ =~= old(s)@ + hexadecimal(n as nat, 0));
    } else {
        append_hex(s, n / 16, width - 1);
        append_digit(s, (n % 16) as u8);
        assert(s@ =~= old(s)@ + hexadecimal(n as nat, width as nat));
    }
}

// --- Addresses ---

/// An IPv4 address as text: its four octets in decimal, with dots between them.
pub open spec fn ipv4_text(a: Ipv4Addr) -> Seq<char> {
    decimal(a.0 as nat) + "."@ + decimal(a.1 as nat) + "."@ + decimal(a.2 as nat) + "."@ + decimal(
        a.3 as nat,
    )
}

/// The text that the standard library gives an IPv6 address with these segments.
pub uninterp spec fn ipv6_text(segments: Seq<u16>) -> Seq<char>;

/// The `Display` of the standard library's IPv6 address. The result is that text, by name.
#[verifier::external_body]
fn ipv6_display(a: &Ipv6Addr) -> (r: String)
    ensures
        r@ == ipv6_text(a.segments()),
{
    let mut p = pnet::packet::ipv6::MutableIpv6Packet::owned(vec![0u8; 40]).unwrap();
    p.set_source([a.0, a.1, a.2, a.3, a.4, a.5, a.6, a.7].into());
    p.get_source().to_string()
}

/// An IP address as text.
pub open spec fn ip_text(a: IpAddr) -> Seq<char> {
    match a {
        IpAddr::V4(v4) => ipv4_text(v4),
        IpAddr::V6(v6) => ipv6_text(v6.segments()),
    }
}

/// Appends an IP address.
pub fn append_ip(s: &mut String, a: &IpAddr)
    ensures
        final(s)@ == old(s)@ + ip_text(*a),
{
    match a {
        IpAddr::V4(v4) => {
            append_number(s, v4.0 as u64);
            s.append(".");
            append_number(s, v4.1 as u64);
            s.append(".");
            append_number(s, v4.2 as u64);
            s.append(".");
            append_number(s, v4.3 as u64);
        },
        IpAddr::V6(v6) => {
            let t = ipv6_display(v6);
            s.append(t.as_str());
        },
    }
    assert(s@ =~= old(s)@ + ip_text(*a));
}

/// A flow as text: its addresses and ports in round brackets.
pub open spec fn key_text(key: NatKey) -> Seq<char> {
    "("@ + ip_text(key.0) + ", "@ + decimal(key.1 as nat) + ", "@ + ip_text(key.2) + ", "@
        + decimal(key.3 as nat) + ")"@
}

/// Appends a flow.
pub fn append_key(s: &mut String, key: &NatKey)
    ensures
        final(s)@ == old(s)@ + key_text(*key),
{
    s.append("(");
    append_ip(s, &key.0);
    s.append(", ");
    append_number(s, key.1 as u64);
    s.append(", ");
    append_ip(s, &key.2);
    s.append(", ");
    append_number(s, key.3 as u64);
    s.append(")");
    assert(s@ =~= old(s)@ + key_text(*key));
}

/// A truth value as text.
pub open spec fn bool_text(b: bool) -> Seq<char> {
    if b {
        "true"@
    } else {
        "false"@
    }
}

/// Appends a truth value.
pub fn append_bool(s: &mut String, b: bool)
    ensures
        final(s)@ == old(s)@ + bool_text(b),
{
    if b {
        s.append("true");
    } else {
        s.append("false");
    }
}

// --- Protocols ---

/// The name that the packet library gives an IP protocol number.
pub uninterp spec fn protocol_name(number: u8) -> Seq<char>;

/// `pnet`'s `Display` of an IP protocol number. The result is that name, by name: a table of
/// about a hundred and forty entries.
#[verifier::external_body]
pub(crate) fn protocol_display(number: u8) -> (r: String)
    ensures
        r@ == protocol_name(number),
{
    pnet::packet::ip::IpNextHeaderProtocol(number).to_string()
}

/// The name that the packet library gives an Ethernet type.
pub uninterp spec fn ethertype_name(number: u16) -> Seq<char>;

/// `pnet`'s `Display` of an Ethernet type. The result is that name, by name: a table of some
/// two dozen entries.
#[verifier::external_body]
pub(crate) fn ethertype_display(number: u16) -> (r: String)
    ensures
        r@ == ethertype_name(number),
{
    pnet::packet::ethernet::EtherType(number).to_string()
}

// --- Flags ---

/// One letter for a flag that is set.
pub open spec fn flag_letter(flags: u8, flag: u8, letter: Seq<char>) -> Seq<char> {
    if flags & flag != 0 {
        letter
    } else {
        Seq::empty()
    }
}

/// The flags of a TCP packet as letters.
pub open spec fn flags_text(flags: u8) -> Seq<char> {
    flag_letter(flags, SYN, "S"@) + flag_letter(flags, ACK, "."@) + flag_letter(flags, FIN, "F"@)
        + flag_letter(flags, RST, "R"@) + flag_letter(flags, PSH, "P"@)
}

/// The flags of a TCP packet as letters, with that for urgent data.
pub open spec fn all_flags_text(flags: u8) -> Seq<char> {
    flags_text(flags) + flag_letter(flags, URG, "U"@)
}

/// The flags of a TCP packet as letters.
pub fn format_tcp_flags(flags: u8) -> (r: String)
    ensures
        r@ == flags_text(flags),
{
    let mut s = String::new();
    if (flags & SYN) != 0 {
        s.append("S");
    }
    assert(s@ =~= flag_letter(flags, SYN, "S"@));
    let ghost a = s@;
    if (flags & ACK) != 0 {
        s.append(".");
    }
    assert(s@ =~= a + flag_letter(flags, ACK, "."@));
    let ghost b = s@;
    if (flags & FIN) != 0 {
        s.append("F");
    }
    assert(s@ =~= b + flag_letter(flags, FIN, "F"@));
    let ghost c = s@;
    if (flags & RST) != 0 {
        s.append("R");
    }
    assert(s@ =~= c + flag_letter(flags, RST, "R"@));
    let ghost d = s@;
    if (flags & PSH) != 0 {
        s.append("P");
    }
    assert(s@ =~= d + flag_letter(flags, PSH, "P"@));
    s
}

/// The flags of a TCP packet as letters, with that for urgent data.
pub fn format_all_tcp_flags(flags: u8) -> (r: String)
    ensures
        r@ == all_flags_text(flags),
{
    let mut s = format_tcp_flags(flags);
    if (flags & URG) != 0 {
        s.append("U");
    }
    assert(s@ =~= flags_text(flags) + flag_letter(flags, URG, "U"@));
    s
}

} // verus!
