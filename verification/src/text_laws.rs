//! What can be read off the text that frames, flags and numbers are put into.
use vstd::prelude::*;

use crate::addr::{IpAddr, Ipv4Addr, MacAddr, NatKey};
use crate::frame_laws::{
    ethernet_reads, tcp_frame_reads_back, tcp_reads, udp_frame_reads_back, udp_reads,
};
use crate::packet_dump::{crc32, frame_dump, frame_line, DumpView};
use crate::packet_replay::{
    digits_value, find, find_is_first, is_digit, line_connection, line_data, line_direction,
    line_timestamp, lines_traces, number, stands_at, started, unsigned, PacketDirection,
};
use crate::packet_utils::{ip_view, same_family, tcp_frame_window, udp_frame};
use crate::text::{all_flags_text, decimal, flags_text, hexadecimal, ip_text};
use crate::wire::{ipv4_at, u16_at};

verus! {

// --- Numbers ---

/// The value of a hexadecimal digit.
pub open spec fn hex_value(c: char) -> int {
    if '0' <= c <= '9' {
        c as int - '0' as int
    } else {
        c as int - 'a' as int + 10
    }
}

/// The value of hexadecimal digits, the most significant first.
pub open spec fn hex_digits_value(s: Seq<char>) -> int
    decreases s.len(),
{
    if s.len() == 0 {
        0
    } else {
        hex_digits_value(s.drop_last()) * 16 + hex_value(s.last())
    }
}

/// A number in decimal digits reads back as the number, and has no zero too many in front.
pub proof fn decimal_reads_back(n: nat)
    ensures
        digits_value(decimal(n)) == n,
        decimal(n).len() > 0,
        forall|i: int| 0 <= i < decimal(n).len() ==> is_digit(#[trigger] decimal(n)[i]),
        n > 0 ==> decimal(n)[0] != '0',
        n <= u32::MAX ==> number(decimal(n)) == Some(n as u32),
    decreases n,
{
    let s = decimal(n);
    if n < 10 {
        assert(s.drop_last() =~= Seq::<char>::empty());
        reveal_with_fuel(digits_value, 2);
    } else {
        decimal_reads_back(n / 10);
        assert(s.drop_last() =~= decimal(n / 10));
        assert(s[0] == decimal(n / 10)[0]);
    }
    assert(is_digit(s[0]));
    assert(unsigned(s) == s);
}

/// A number in hexadecimal digits of a given count reads back as the number, as far as that many
/// digits can hold it.
pub proof fn hexadecimal_reads_back(n: nat, width: nat)
    ensures
        hexadecimal(n, width).len() == width,
        hex_digits_value(hexadecimal(n, width)) == n % pow16(width),
    decreases width,
{
    if width == 0 {
        assert(n % 1 == 0);
    } else {
        let s = hexadecimal(n, width);
        let m = pow16((width - 1) as nat);
        hexadecimal_reads_back(n / 16, (width - 1) as nat);
        assert(s.drop_last() =~= hexadecimal(n / 16, (width - 1) as nat));
        assert(hex_value(s.last()) == n % 16);
        pow16_is_positive((width - 1) as nat);
        vstd::arithmetic::div_mod::lemma_breakdown(n as int, 16, m as int);
    }
}

/// How many numbers that many hexadecimal digits can hold.
pub open spec fn pow16(width: nat) -> nat
    decreases width,
{
    if width == 0 {
        1
    } else {
        16 * pow16((width - 1) as nat)
    }
}

proof fn pow16_is_positive(width: nat)
    ensures
        pow16(width) > 0,
    decreases width,
{
    if width > 0 {
        pow16_is_positive((width - 1) as nat);
    }
}

// --- Flags ---

/// Flags in letters: each flag that is set has its letter there once, no other letter is there,
/// and the letters stand in a fixed order.
pub proof fn flags_read_back(flags: u8)
    ensures
        flags_text(flags) == (if flags & 0x02 != 0 {
            seq!['S']
        } else {
            Seq::empty()
        }) + (if flags & 0x10 != 0 {
            seq!['.']
        } else {
            Seq::empty()
        }) + (if flags & 0x01 != 0 {
            seq!['F']
        } else {
            Seq::empty()
        }) + (if flags & 0x04 != 0 {
            seq!['R']
        } else {
            Seq::empty()
        }) + (if flags & 0x08 != 0 {
            seq!['P']
        } else {
            Seq::empty()
        }),
        all_flags_text(flags) == flags_text(flags) + (if flags & 0x20 != 0 {
            seq!['U']
        } else {
            Seq::empty()
        }),
{
    reveal_strlit("S");
    reveal_strlit(".");
    reveal_strlit("F");
    reveal_strlit("R");
    reveal_strlit("P");
    reveal_strlit("U");
    assert("S"@ =~= seq!['S']);
    assert("."@ =~= seq!['.']);
    assert("F"@ =~= seq!['F']);
    assert("R"@ =~= seq!['R']);
    assert("P"@ =~= seq!['P']);
    assert("U"@ =~= seq!['U']);
}

// --- Lines ---

/// The line for a TCP frame tells its direction, its two ends, its flags, its numbers, its
/// window, how much it carries, and a checksum of that, or a dash for each digit where it
/// carries nothing.
#[verifier::rlimit(60)]
pub proof fn tcp_frame_makes_its_line(
    direction: Seq<char>,
    key: NatKey,
    sequence: u32,
    acknowledgement: u32,
    payload: Seq<u8>,
    flags: u8,
    window: u16,
    src_mac: MacAddr,
    dst_mac: MacAddr,
)
    requires
        same_family(key),
        payload.len() <= 0xffff - 40,
    ensures
        frame_line(
            direction,
            tcp_frame_window(
                key,
                sequence,
                acknowledgement,
                payload,
                flags,
                window,
                src_mac,
                dst_mac,
            ),
        ) == Some(
            "["@ + direction + "] "@ + ip_text(key.0) + ":"@ + decimal(key.1 as nat) + " > "@
                + ip_text(key.2) + ":"@ + decimal(key.3 as nat) + ": Flags ["@ + flags_text(flags)
                + "], seq "@ + decimal(sequence as nat) + ", ack "@ + decimal(
                acknowledgement as nat,
            ) + ", win "@ + decimal(window as nat) + ", len "@ + decimal(payload.len())
                + ", crc32 "@ + (if payload.len() == 0 {
                "----------"@
            } else {
                hexadecimal(crc32(payload) as nat, 8)
            }),
        ),
{
    reveal(tcp_reads);
    reveal(ethernet_reads);
    tcp_frame_reads_back(
        key,
        sequence,
        acknowledgement,
        payload,
        flags,
        window,
        src_mac,
        dst_mac,
    );
}

/// The line for a UDP frame tells its direction, its two ends, how much it carries, and a
/// checksum of that.
#[verifier::rlimit(60)]
pub proof fn udp_frame_makes_its_line(
    direction: Seq<char>,
    key: NatKey,
    payload: Seq<u8>,
    src_mac: MacAddr,
    dst_mac: MacAddr,
)
    requires
        same_family(key),
        payload.len() <= 0xffff - 28,
    ensures
        frame_line(direction, udp_frame(key, payload, src_mac, dst_mac)) == Some(
            "["@ + direction + "] "@ + ip_text(key.0) + ":"@ + decimal(key.1 as nat) + " > "@
                + ip_text(key.2) + ":"@ + decimal(key.3 as nat) + ": UDP len "@ + decimal(
                payload.len(),
            ) + ", crc32 "@ + (if payload.len() == 0 {
                "----------"@
            } else {
                hexadecimal(crc32(payload) as nat, 8)
            }),
        ),
{
    reveal(udp_reads);
    reveal(ethernet_reads);
    udp_frame_reads_back(key, payload, src_mac, dst_mac);
}

/// The dump of a TCP frame over IPv4 tells its direction, its two ends, all its flags, its
/// numbers, its window and how much it carries.
#[verifier::rlimit(60)]
pub proof fn tcp_frame_makes_its_dump(
    direction: Seq<char>,
    key: NatKey,
    sequence: u32,
    acknowledgement: u32,
    payload: Seq<u8>,
    flags: u8,
    window: u16,
    src_mac: MacAddr,
    dst_mac: MacAddr,
)
    requires
        same_family(key),
        payload.len() <= 0xffff - 40,
    ensures
        frame_dump(
            direction,
            tcp_frame_window(
                key,
                sequence,
                acknowledgement,
                payload,
                flags,
                window,
                src_mac,
                dst_mac,
            ),
        ) == DumpView::Line(
            (if key.0 is V4 {
                "["@ + direction + "] IP "@ + ip_text(key.0) + "."@ + decimal(key.1 as nat)
                    + " > "@ + ip_text(key.2) + "."@ + decimal(key.3 as nat)
            } else {
                "["@ + direction + "] IP6 ["@ + ip_text(key.0) + "]:"@ + decimal(key.1 as nat)
                    + " > ["@ + ip_text(key.2) + "]:"@ + decimal(key.3 as nat)
            }) + ": Flags ["@ + all_flags_text(flags) + "], seq "@ + decimal(sequence as nat)
                + ", ack "@ + decimal(acknowledgement as nat) + ", win "@ + decimal(window as nat)
                + ", len "@ + decimal(payload.len()),
        ),
{
    reveal(tcp_reads);
    reveal(ethernet_reads);
    reveal(ip_view);
    tcp_frame_reads_back(
        key,
        sequence,
        acknowledgement,
        payload,
        flags,
        window,
        src_mac,
        dst_mac,
    );
}

/// An IPv4 address is put into words by its four numbers, the first one first, with dots between
/// them.
pub proof fn address_is_spelled_out(a: Ipv4Addr)
    ensures
        ip_text(IpAddr::V4(a)) == decimal(a.0 as nat).push('.') + decimal(a.1 as nat).push('.')
            + decimal(a.2 as nat).push('.') + decimal(a.3 as nat),
{
    reveal_strlit(".");
    assert("."@ =~= seq!['.']);
    assert(ip_text(IpAddr::V4(a)) =~= decimal(a.0 as nat).push('.') + decimal(a.1 as nat).push('.')
        + decimal(a.2 as nat).push('.') + decimal(a.3 as nat));
}

/// The dump of an ARP frame tells its direction, whether it asks or answers, whom it looks for
/// and who looks. Frames that are too short to be read are said to be so.
pub proof fn arp_frame_makes_its_dump(direction: Seq<char>, data: Seq<u8>)
    requires
        u16_at(data, 12) == 0x0806,
    ensures
        data.len() < 14 ==> frame_dump(direction, data) is Failed,
        14 <= data.len() < 42 ==> frame_dump(direction, data) is Failed,
        data.len() >= 42 ==> frame_dump(direction, data) == DumpView::Line(
            "["@ + direction + "] ARP, "@ + (if u16_at(data, 20) == 1 {
                "request"@
            } else {
                "reply"@
            }) + ", who has "@ + ip_text(IpAddr::V4(ipv4_at(data, 38))) + "? Tell "@ + ip_text(
                IpAddr::V4(ipv4_at(data, 28)),
            ),
        ),
{
    let body = data.skip(14);
    if data.len() >= 42 {
        assert(u16_at(body, 6) == u16_at(data, 20));
        assert(ipv4_at(body, 24) == ipv4_at(data, 38));
        assert(ipv4_at(body, 14) == ipv4_at(data, 28));
    }
}

// --- Lines that are read again ---

/// Whether a text stands somewhere in a line.
pub open spec fn stands_in(line: Seq<char>, p: Seq<char>) -> bool {
    exists|i: int| stands_at(line, p, i)
}

/// A line tells a direction exactly where it holds one of the two marks, the mark for frames from
/// the machine first.
pub proof fn mark_tells_direction(line: Seq<char>)
    ensures
        stands_in(line, "[IN]"@) ==> line_direction(line) == Some(PacketDirection::VmToProxy),
        !stands_in(line, "[IN]"@) && stands_in(line, "[OUT]"@) ==> line_direction(line) == Some(
            PacketDirection::ProxyToVm,
        ),
        !stands_in(line, "[IN]"@) && !stands_in(line, "[OUT]"@) ==> line_direction(line) is None,
{
    find_is_first(line, "[IN]"@);
    find_is_first(line, "[OUT]"@);
}

/// What stands for the frame of a line: sixty bytes, and where the line tells of numbers the two
/// hardware addresses first and as many bytes more as it says that were carried.
pub proof fn line_stands_for_a_frame(line: Seq<char>)
    ensures
        ({
            let numbers = stands_in(line, "seq"@) && stands_in(line, "ack"@);
            let data = line_data(line);
            &&& !numbers ==> data.len() == 60 && forall|i: int|
                0 <= i < 60 ==> #[trigger] data[i] == 0
            &&& numbers ==> {
                &&& data.len() >= 60
                &&& !stands_in(line, "len "@) ==> data.len() == 60
                &&& data.take(12) == seq![
                    0xdeu8,
                    0xadu8,
                    0xbeu8,
                    0xefu8,
                    0u8,
                    0u8,
                    0x02u8,
                    0u8,
                    0u8,
                    0x01u8,
                    0x02u8,
                    0x03u8,
                ]
                &&& forall|i: int| 12 <= i < data.len() ==> #[trigger] data[i] == 0
            }
        }),
{
    find_is_first(line, "seq"@);
    find_is_first(line, "ack"@);
    find_is_first(line, "len "@);
    let data = line_data(line);
    if stands_in(line, "seq"@) && stands_in(line, "ack"@) {
        assert(data.take(12) =~= seq![
            0xdeu8,
            0xadu8,
            0xbeu8,
            0xefu8,
            0u8,
            0u8,
            0x02u8,
            0u8,
            0u8,
            0x01u8,
            0x02u8,
            0x03u8,
        ]);
    }
}

/// Where a line says how much was carried, in digits up to the next blank or the end, that many
/// bytes more stand for its frame.
pub proof fn line_tells_how_much(before: Seq<char>, n: u32)
    requires
        forall|j: int|
            j < before.len() ==> !#[trigger] stands_at(
                before + "len "@ + decimal(n as nat),
                "len "@,
                j,
            ),
        stands_in(before, "seq"@),
        stands_in(before, "ack"@),
    ensures
        line_data(before + "len "@ + decimal(n as nat)).len() == 60 + n,
{
    reveal_strlit("len ");
    reveal_strlit(" ");
    let digits = decimal(n as nat);
    let p = "len "@;
    let line = before + p + digits;
    decimal_reads_back(n as nat);
    stays_in(before, p + digits, "seq"@);
    stays_in(before, p + digits, "ack"@);
    assert(before + (p + digits) =~= line);
    find_is_first(line, "seq"@);
    find_is_first(line, "ack"@);
    find_is_first(line, p);
    assert(line.subrange(before.len() as int, (before.len() + p.len()) as int) =~= p);
    assert(stands_at(line, p, before.len() as int));
    let after = line.skip((before.len() + p.len()) as int);
    assert(after =~= digits);
    find_is_first(digits, " "@);
    if let Some(i) = find(digits, " "@) {
        assert(digits.subrange(i, i + 1)[0] == digits[i]);
        assert(" "@[0] == ' ');
        assert(is_digit(digits[i]));
    }
}

/// What stands in a text stands in the same text with more behind it.
proof fn stays_in(line: Seq<char>, more: Seq<char>, p: Seq<char>)
    requires
        stands_in(line, p),
    ensures
        stands_in(line + more, p),
{
    let i = choose|i: int| stands_at(line, p, i);
    assert((line + more).subrange(i, i + p.len()) =~= line.subrange(i, i + p.len()));
    assert(stands_at(line + more, p, i));
}

/// The lines that tell a direction.
pub open spec fn telling(lines: Seq<(u64, String)>) -> Seq<(u64, String)> {
    lines.filter(|l: (u64, String)| line_direction(l.1@) is Some)
}

/// Of many lines exactly those that tell a direction are kept, in their order, each with what it
/// tells.
pub proof fn telling_lines_are_kept_in_order(start: Option<u64>, lines: Seq<(u64, String)>)
    ensures
        ({
            let traces = lines_traces(start, lines).0;
            let kept = telling(lines);
            &&& traces.len() == kept.len()
            &&& forall|i: int|
                0 <= i < kept.len() ==> {
                    let line = kept[i].1@;
                    &&& Some((#[trigger] traces[i]).direction) == line_direction(line)
                    &&& traces[i].data == line_data(line)
                    &&& traces[i].connection_id == line_connection(line)
                }
        }),
    decreases lines.len(),
{
    reveal(Seq::filter);
    if lines.len() > 0 {
        telling_lines_are_kept_in_order(start, lines.drop_last());
    }
}

/// Time counts from the first line that has one: that line stands at zero, and a later one at as
/// much as has passed since. A line without a time stands at zero.
pub proof fn time_counts_from_the_first_line(
    first: Seq<char>,
    line: Seq<char>,
    begin: u64,
    now: u64,
)
    requires
        stands_in(first, "T"@),
        stands_in(first, "Z"@),
        begin <= now,
    ensures
        started(None, first, begin) == Some(begin),
        line_timestamp(None, first, begin) == 0,
        started(Some(begin), line, now) == Some(begin),
        stands_in(line, "T"@) && stands_in(line, "Z"@) ==> line_timestamp(Some(begin), line, now)
            == now - begin,
        !(stands_in(line, "T"@) && stands_in(line, "Z"@)) ==> line_timestamp(
            Some(begin),
            line,
            now,
        ) == 0 && started(None, line, now) is None,
{
    find_is_first(first, "T"@);
    find_is_first(first, "Z"@);
    find_is_first(line, "T"@);
    find_is_first(line, "Z"@);
}

/// A line names its connection between the first end of a bracket and the first word on flags.
#[verifier::rlimit(60)]
pub proof fn line_names_its_connection(before: Seq<char>, name: Seq<char>, behind: Seq<char>)
    requires
        forall|j: int|
            j < before.len() ==> !#[trigger] stands_at(
                before + "] "@ + name + ": Flags"@ + behind,
                "] "@,
                j,
            ),
        forall|j: int|
            j < before.len() + 2 + name.len() ==> !#[trigger] stands_at(
                before + "] "@ + name + ": Flags"@ + behind,
                ": Flags"@,
                j,
            ),
    ensures
        line_connection(before + "] "@ + name + ": Flags"@ + behind) == Some(name),
{
    reveal_strlit("] ");
    reveal_strlit(": Flags");
    let line = before + "] "@ + name + ": Flags"@ + behind;
    let a = before.len() as int;
    let b = (before.len() + 2 + name.len()) as int;
    assert(line.subrange(a, a + 2) =~= "] "@);
    assert(line.subrange(b, b + 7) =~= ": Flags"@);
    assert(stands_at(line, "] "@, a));
    assert(stands_at(line, ": Flags"@, b));
    find_is_first(line, "] "@);
    find_is_first(line, ": Flags"@);
    assert(line.subrange(a + 2, b) =~= name);
}

} // verus!
