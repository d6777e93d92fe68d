//! Packet traces: taken from log lines, and played back.
use std::collections::VecDeque;

use bytes::Bytes;
use vstd::prelude::*;
use vstd::string::StrSliceExecFns;

use crate::buffer::bytes_view;

verus! {

// --- Traces ---

/// The way that a packet went.
#[derive(Clone, Copy, Debug, PartialEq, Eq, Structural)]
pub enum PacketDirection {
    /// From the machine to the proxy.
    VmToProxy,
    /// From the proxy to the machine.
    ProxyToVm,
    /// From an outside host to the proxy.
    HostToProxy,
    /// From the proxy to an outside host.
    ProxyToHost,
}

/// A packet that was seen: when, in nanoseconds since the first one, which way it went, what
/// it held and on which connection.
#[derive(Debug)]
pub struct PacketTrace {
    pub timestamp: u64,
    pub direction: PacketDirection,
    pub data: Bytes,
    pub connection_id: Option<String>,
}

/// The same over plain values.
#[verifier::ext_equal]
pub struct TraceView {
    pub timestamp: u64,
    pub direction: PacketDirection,
    pub data: Seq<u8>,
    pub connection_id: Option<Seq<char>>,
}

impl View for PacketTrace {
    type V = TraceView;

    open spec fn view(&self) -> TraceView {
        TraceView {
            timestamp: self.timestamp,
            direction: self.direction,
            data: bytes_view(self.data),
            connection_id: match self.connection_id {
                Some(s) => Some(s@),
                None => None,
            },
        }
    }
}

impl Clone for PacketTrace {
    fn clone(&self) -> (r: Self)
        ensures
            r@ == self@,
    {
        PacketTrace {
            timestamp: self.timestamp,
            direction: self.direction,
            data: self.data.clone(),
            connection_id: match &self.connection_id {
                Some(s) => Some(s.clone()),
                None => None,
            },
        }
    }
}

/// The traces of a queue, over plain values.
pub open spec fn trace_views(q: Seq<PacketTrace>) -> Seq<TraceView> {
    q.map_values(|t: PacketTrace| t@)
}

// --- Searching text ---

/// Whether the text `p` stands in `s` at place `i`.
pub open spec fn stands_at(s: Seq<char>, p: Seq<char>, i: int) -> bool {
    0 <= i && i + p.len() <= s.len() && s.subrange(i, i + p.len()) == p
}

/// The first place, from `i` on, where `p` stands in `s`.
pub open spec fn find_from(s: Seq<char>, p: Seq<char>, i: int) -> Option<int>
    decreases s.len() + 1 - i,
{
    if i > s.len() {
        None
    } else if stands_at(s, p, i) {
        Some(i)
    } else {
        find_from(s, p, i + 1)
    }
}

/// The first place where `p` stands in `s`.
pub open spec fn find(s: Seq<char>, p: Seq<char>) -> Option<int> {
    find_from(s, p, 0)
}

/// The place that a search gives is the first: the text stands there and nowhere before it,
/// and where a search gives none, the text stands nowhere.
pub proof fn find_is_first(s: Seq<char>, p: Seq<char>)
    ensures
        match find(s, p) {
            Some(i) => stands_at(s, p, i) && forall|j: int| j < i ==> !stands_at(s, p, j),
            None => forall|j: int| !stands_at(s, p, j),
        },
{
    find_from_is_first(s, p, 0);
}

proof fn find_from_is_first(s: Seq<char>, p: Seq<char>, i: int)
    requires
        0 <= i,
    ensures
        match find_from(s, p, i) {
            Some(k) => i <= k && stands_at(s, p, k) && forall|j: int|
                i <= j < k ==> !stands_at(s, p, j),
            None => forall|j: int| i <= j ==> !stands_at(s, p, j),
        },
    decreases s.len() + 1 - i,
{
    if i <= s.len() && !stands_at(s, p, i) {
        find_from_is_first(s, p, i + 1);
    }
}

/// The characters of a text.
fn chars_of(s: &str) -> (r: Vec<char>)
    ensures
        r@ == s@,
{
    let n: usize = s.unicode_len();
    let mut v: Vec<char> = Vec::new();
    let mut i: usize = 0;
    while i < n
        invariant
            i <= n,
            n == s@.len(),
            v@ == s@.take(i as int),
        decreases n - i,
    {
        v.push(s.get_char(i));
        i = i + 1;
        assert(v@ =~= s@.take(i as int));
    }
    assert(v@ =~= s@);
    v
}

/// Whether the text `p` stands in `s` at place `i`.
fn found_at(s: &Vec<char>, p: &Vec<char>, i: usize) -> (r: bool)
    requires
        i <= s@.len(),
    ensures
        r == stands_at(s@, p@, i as int),
{
    let n: usize = s.len();
    if p.len() > n - i {
        return false;
    }
    let mut j: usize = 0;
    while j < p.len()
        invariant
            j <= p@.len(),
            n == s@.len(),
            i + p@.len() <= n,
            forall|k: int| 0 <= k < j ==> s@[i + k] == p@[k],
        decreases p@.len() - j,
    {
        if s[i + j] != p[j] {
            assert(s@.subrange(i as int, i + p@.len())[j as int] != p@[j as int]);
            return false;
        }
        j = j + 1;
    }
    assert(s@.subrange(i as int, i + p@.len()) =~= p@);
    true
}

/// The first place where `p` stands in `s`.
fn find_text(s: &Vec<char>, p: &str) -> (r: Option<usize>)
    ensures
        r is Some <==> find(s@, p@) is Some,
        r matches Some(i) ==> i == find(s@, p@)->0 && i + p@.len() <= s@.len(),
{
    let q: Vec<char> = chars_of(p);
    let mut i: usize = 0;
    let n: usize = s.len();
    while i < n
        invariant
            i <= n,
            n == s@.len(),
            q@ == p@,
            find(s@, p@) == find_from(s@, p@, i as int),
        decreases n - i,
    {
        if found_at(s, &q, i) {
            return Some(i);
        }
        i = i + 1;
    }
    if found_at(s, &q, n) {
        Some(n)
    } else {
        assert(find_from(s@, p@, n + 1) is None);
        None
    }
}

/// Whether the text `p` stands in `s`.
fn contains(s: &Vec<char>, p: &str) -> (r: bool)
    ensures
        r == (find(s@, p@) is Some),
{
    find_text(s, p).is_some()
}

// --- Numbers in text ---

/// Whether a character is a decimal digit.
pub open spec fn is_digit(c: char) -> bool {
    '0' <= c <= '9'
}

/// The number that a row of decimal digits stands for.
pub open spec fn digits_value(s: Seq<char>) -> nat
    decreases s.len(),
{
    if s.len() == 0 {
        0
    } else {
        digits_value(s.drop_last()) * 10 + (s.last() as nat - '0' as nat) as nat
    }
}

/// The digits of a number, without the plus sign that may stand before them.
pub open spec fn unsigned(s: Seq<char>) -> Seq<char> {
    if s.len() > 0 && s[0] == '+' {
        s.skip(1)
    } else {
        s
    }
}

/// The number that a text stands for, where it is one of 32 bits.
pub open spec fn number(s: Seq<char>) -> Option<u32> {
    let d = unsigned(s);
    if d.len() > 0 && (forall|i: int| 0 <= i < d.len() ==> is_digit(#[trigger] d[i]))
        && digits_value(d) <= u32::MAX {
        Some(digits_value(d) as u32)
    } else {
        None
    }
}

/// A row of digits stands for no less than the row that it begins with.
proof fn digits_grow(s: Seq<char>, n: int)
    requires
        0 <= n <= s.len(),
    ensures
        digits_value(s.take(n)) <= digits_value(s),
    decreases s.len() - n,
{
    if n < s.len() {
        digits_grow(s, n + 1);
        assert(s.take(n + 1).drop_last() =~= s.take(n));
        assert(digits_value(s.take(n + 1)) >= digits_value(s.take(n)) * 10);
    } else {
        assert(s.take(n) =~= s);
    }
}

/// The decimal digit that a character stands for.
fn digit_of(c: char) -> (r: Option<u8>)
    ensures
        r is Some <==> is_digit(c),
        r matches Some(d) ==> d == c as nat - '0' as nat && d < 10,
{
    if '0' <= c && c <= '9' {
        Some((c as u32 - '0' as u32) as u8)
    } else {
        None
    }
}

/// The number that the characters from `from` to `to` stand for.
fn parse_number(s: &Vec<char>, from: usize, to: usize) -> (r: Option<u32>)
    requires
        from <= to <= s@.len(),
    ensures
        r == number(s@.subrange(from as int, to as int)),
{
    let ghost t = s@.subrange(from as int, to as int);
    let ghost d = unsigned(t);
    let start: usize = if from < to && s[from] == '+' {
        from + 1
    } else {
        from
    };
    assert(d =~= s@.subrange(start as int, to as int));
    if start == to {
        return None;
    }
    let mut value: u32 = 0;
    let mut i: usize = start;
    while i < to
        invariant
            start <= i <= to,
            to <= s@.len(),
            d == s@.subrange(start as int, to as int),
            d == unsigned(t),
            t == s@.subrange(from as int, to as int),
            start < to,
            value == digits_value(d.take(i - start)),
            forall|k: int| 0 <= k < i - start ==> is_digit(#[trigger] d[k]),
        decreases to - i,
    {
        let c: char = s[i];
        assert(c == d[i - start]);
        assert(d.take(i + 1 - start).drop_last() =~= d.take(i - start));
        let x: u8 = match digit_of(c) {
            Some(x) => x,
            None => {
                return None;
            },
        };
        if value > (u32::MAX - x as u32) / 10 {
            proof {
                digits_grow(d, i + 1 - start);
            }
            return None;
        }
        value = value * 10 + x as u32;
        i = i + 1;
    }
    assert(d.take(to - start) =~= d);
    Some(value)
}

// --- Reading log lines ---

/// How many bytes the encoding of a character takes.
pub open spec fn char_width(c: char) -> nat {
    if (c as nat) < 0x80 {
        1
    } else if (c as nat) < 0x800 {
        2
    } else if (c as nat) < 0x10000 {
        3
    } else {
        4
    }
}

/// How many bytes the encoding of a text takes.
pub open spec fn text_width(s: Seq<char>) -> nat
    decreases s.len(),
{
    if s.len() == 0 {
        0
    } else {
        text_width(s.drop_last()) + char_width(s.last())
    }
}

/// Text that starts earlier is wider, by the widths of the characters before.
proof fn wider_before(s: Seq<char>, j: int, k: int, t: int)
    requires
        0 <= j < k <= t <= s.len(),
    ensures
        text_width(s.subrange(j, t)) > text_width(s.subrange(k, t)),
        j + 1 == k ==> text_width(s.subrange(j, t)) == char_width(s[j]) + text_width(
            s.subrange(k, t),
        ),
    decreases t,
{
    let a = s.subrange(j, t);
    let b = s.subrange(k, t);
    assert(a.drop_last() =~= s.subrange(j, t - 1));
    if k < t {
        wider_before(s, j, k, t - 1);
        assert(b.drop_last() =~= s.subrange(k, t - 1));
    } else {
        assert(text_width(a) >= char_width(a.last()));
        if j + 1 == k {
            assert(a.drop_last().len() == 0);
        }
    }
}

/// How many bytes the encoding of a character takes.
fn width_of(c: char) -> (r: usize)
    ensures
        r == char_width(c),
        1 <= r <= 4,
{
    let n: u32 = c as u32;
    if n < 0x80 {
        1
    } else if n < 0x800 {
        2
    } else if n < 0x10000 {
        3
    } else {
        4
    }
}

/// Whether a date, ten bytes wide, can stand before the first `T` of a line that holds a time.
pub open spec fn date_stands(line: Seq<char>) -> bool {
    match (find(line, "T"@), find(line, "Z"@)) {
        (Some(t), Some(z)) => exists|k: int|
            0 <= k <= t && k <= z + 1 && text_width(#[trigger] line.subrange(k, t)) == 10,
        _ => true,
    }
}

/// Whether the flags of a line stand behind the end of its marker.
pub open spec fn flags_follow(line: Seq<char>) -> bool {
    match (find(line, "] "@), find(line, ": Flags"@)) {
        (Some(s), Some(e)) => s + 2 <= e,
        _ => true,
    }
}

/// The direction that a line gives.
pub open spec fn line_direction(line: Seq<char>) -> Option<PacketDirection> {
    if find(line, "[IN]"@) is Some {
        Some(PacketDirection::VmToProxy)
    } else if find(line, "[OUT]"@) is Some {
        Some(PacketDirection::ProxyToVm)
    } else {
        None
    }
}

/// Whether a line holds a time.
pub open spec fn line_timed(line: Seq<char>) -> bool {
    find(line, "T"@) is Some && find(line, "Z"@) is Some
}

/// The moment from which times count, once a line was read at the moment `now`.
pub open spec fn started(start: Option<u64>, line: Seq<char>, now: u64) -> Option<u64> {
    if line_timed(line) && start is None {
        Some(now)
    } else {
        start
    }
}

/// The time that a line read at the moment `now` gets: how long ago the first line with a
/// time was read.
pub open spec fn line_timestamp(start: Option<u64>, line: Seq<char>, now: u64) -> u64 {
    match start {
        Some(s) => if line_timed(line) && now > s {
            (now - s) as u64
        } else {
            0
        },
        None => 0,
    }
}

/// The number that stands behind the first `p` of a line, up to the next space.
pub open spec fn number_after(line: Seq<char>, p: Seq<char>) -> Option<u32> {
    match find(line, p) {
        Some(i) => {
            let after = line.skip(i + p.len());
            match find(after, " "@) {
                Some(end) => number(after.take(end)),
                None => number(after),
            }
        },
        None => None,
    }
}

/// How large a payload a line speaks of.
pub open spec fn payload_size(line: Seq<char>) -> nat {
    match number_after(line, "len "@) {
        Some(n) => n as nat,
        None => 0,
    }
}

/// As many zero bytes.
pub open spec fn zeros(n: nat) -> Seq<u8> {
    Seq::new(n, |i: int| 0u8)
}

/// The two hardware addresses that a made-up packet begins with.
pub open spec fn made_up_addresses() -> Seq<u8> {
    seq![
        0xdeu8,
        0xadu8,
        0xbeu8,
        0xefu8,
        0u8,
        0u8,
        0x02u8,
        0u8,
        0u8,
        0x01u8,
        0x02u8,
        0x03u8,
    ]
}

/// The packet that stands for a line: headers of sixty bytes, and a payload where the line
/// speaks of one.
pub open spec fn line_data(line: Seq<char>) -> Seq<u8> {
    if find(line, "seq"@) is Some && find(line, "ack"@) is Some {
        made_up_addresses() + zeros(48 + payload_size(line))
    } else {
        zeros(60)
    }
}

/// The connection that a line names: what stands between its marker and its flags.
pub open spec fn line_connection(line: Seq<char>) -> Option<Seq<char>> {
    match (find(line, "] "@), find(line, ": Flags"@)) {
        (Some(s), Some(e)) => Some(line.subrange(s + 2, e)),
        _ => None,
    }
}

/// The trace that a line read at the moment `now` gives, where it gives a direction.
pub open spec fn line_trace(start: Option<u64>, line: Seq<char>, now: u64) -> Option<TraceView> {
    match line_direction(line) {
        Some(direction) => Some(
            TraceView {
                timestamp: line_timestamp(start, line, now),
                direction,
                data: line_data(line),
                connection_id: line_connection(line),
            },
        ),
        None => None,
    }
}

/// Whether a line has room for the parts that are read out of it.
pub open spec fn line_readable(line: Seq<char>) -> bool {
    line_direction(line) is Some ==> date_stands(line) && flags_follow(line)
}

/// The traces that lines give, each read at its moment, and the moment from which times count
/// then.
pub open spec fn lines_traces(start: Option<u64>, lines: Seq<(u64, String)>) -> (
    Seq<TraceView>,
    Option<u64>,
)
    decreases lines.len(),
{
    if lines.len() == 0 {
        (Seq::empty(), start)
    } else {
        let (sofar, from) = lines_traces(start, lines.drop_last());
        let (now, line) = lines.last();
        match line_trace(from, line@, now) {
            Some(t) => (sofar.push(t), started(from, line@, now)),
            None => (sofar, from),
        }
    }
}

/// Reads traces out of log lines.
#[derive(Debug)]
pub struct TraceParser {
    traces: VecDeque<PacketTrace>,
    start_time: Option<u64>,
}

impl TraceParser {
    /// The traces that were read, in the order of their lines.
    pub closed spec fn read(&self) -> Seq<TraceView> {
        trace_views(self.traces@)
    }

    /// The moment from which times count.
    pub closed spec fn start(&self) -> Option<u64> {
        self.start_time
    }

    /// A parser that has read nothing.
    pub fn new() -> (r: Self)
        ensures
            r.read() == Seq::<TraceView>::empty(),
            r.start() is None,
    {
        let r = TraceParser { traces: VecDeque::new(), start_time: None };
        assert(r.read() =~= Seq::<TraceView>::empty());
        r
    }

    /// Reads a line at the moment `now`. One without a direction gives nothing.
    pub fn parse_log_line(&mut self, line: &str, now: u64) -> (r: Option<PacketTrace>)
        requires
            line_readable(line@),
        ensures
            r is Some <==> line_direction(line@) is Some,
            r matches Some(t) ==> Some(t@) == line_trace(old(self).start(), line@, now),
            final(self).read() == match line_trace(old(self).start(), line@, now) {
                Some(t) => old(self).read().push(t),
                None => old(self).read(),
            },
            final(self).start() == if line_direction(line@) is Some {
                started(old(self).start(), line@, now)
            } else {
                old(self).start()
            },
    {
        let chars: Vec<char> = chars_of(line);
        let direction = match Self::extract_direction(&chars) {
            Some(d) => d,
            None => {
                return None;
            },
        };
        let timestamp: u64 = match self.extract_timestamp(&chars, now) {
            Some(t) => t,
            None => 0,
        };
        let data: Bytes = match Self::extract_packet_data(&chars) {
            Some(d) => d,
            None => {
                let mut v: Vec<u8> = Vec::new();
                Self::push_zeros(&mut v, 60);
                assert(v@ =~= zeros(60));
                Bytes::copy_from_slice(v.as_slice())
            },
        };
        let connection_id = Self::extract_connection_id(line, &chars);
        let trace = PacketTrace { timestamp, direction, data, connection_id };
        let ghost before = self.traces@;
        self.traces.push_back(trace.clone());
        assert(trace_views(self.traces@) =~= trace_views(before).push(trace@));
        Some(trace)
    }

    /// Reads lines in order, each at its moment, and says how many of them gave a trace.
    pub fn load_lines(&mut self, lines: &Vec<(u64, String)>) -> (r: usize)
        requires
            forall|i: int| 0 <= i < lines@.len() ==> line_readable((#[trigger] lines@[i]).1@),
        ensures
            ({
                let (traces, start) = lines_traces(old(self).start(), lines@);
                &&& final(self).read() == old(self).read() + traces
                &&& final(self).start() == start
                &&& r == traces.len()
            }),
    {
        let ghost before = self.read();
        let ghost first = self.start();
        let mut count: usize = 0;
        let mut i: usize = 0;
        assert(before + lines_traces(first, lines@.take(0)).0 =~= before);
        while i < lines.len()
            invariant
                i <= lines@.len(),
                count <= i,
                forall|j: int| 0 <= j < lines@.len() ==> line_readable((#[trigger] lines@[j]).1@),
                self.read() == before + lines_traces(first, lines@.take(i as int)).0,
                self.start() == lines_traces(first, lines@.take(i as int)).1,
                count == lines_traces(first, lines@.take(i as int)).0.len(),
            decreases lines@.len() - i,
        {
            let ghost sofar = lines_traces(first, lines@.take(i as int)).0;
            let trace = self.parse_log_line(lines[i].1.as_str(), lines[i].0);
            proof {
                let next = lines@.take(i + 1);
                assert(next.drop_last() =~= lines@.take(i as int));
                assert(self.read() =~= before + lines_traces(first, next).0);
            }
            if trace.is_some() {
                count = count + 1;
            }
            i = i + 1;
        }
        assert(lines@.take(i as int) =~= lines@);
        count
    }

    /// Whether a line can be read.
    pub fn accepts(line: &str) -> (r: bool)
        ensures
            r == line_readable(line@),
    {
        let chars: Vec<char> = chars_of(line);
        if Self::extract_direction(&chars).is_none() {
            return true;
        }
        let dated = match (find_text(&chars, "T"), find_text(&chars, "Z")) {
            (Some(t), Some(z)) => Self::has_date(&chars, t, z),
            _ => true,
        };
        let followed = match (find_text(&chars, "] "), find_text(&chars, ": Flags")) {
            (Some(start), Some(end)) => start <= end && end - start >= 2,
            _ => true,
        };
        dated && followed
    }

    /// Whether some text ten bytes wide ends at the place `t` and starts no later than behind
    /// the place `z`.
    fn has_date(line: &Vec<char>, t: usize, z: usize) -> (r: bool)
        requires
            t <= line@.len(),
        ensures
            r == exists|k: int|
                0 <= k <= t && k <= z + 1 && text_width(#[trigger] line@.subrange(k, t as int))
                    == 10,
    {
        let mut k: usize = t;
        let mut width: usize = 0;
        assert(line@.subrange(t as int, t as int) =~= Seq::<char>::empty());
        while k > 0 && width < 10
            invariant
                k <= t <= line@.len(),
                width == text_width(line@.subrange(k as int, t as int)),
                width < 14,
                forall|j: int|
                    k < j <= t ==> text_width(#[trigger] line@.subrange(j, t as int)) < 10,
            decreases k,
        {
            proof {
                wider_before(line@, k - 1, k as int, t as int);
            }
            k = k - 1;
            width = width + width_of(line[k]);
        }
        proof {
            assert forall|j: int| 0 <= j < k implies text_width(
                #[trigger] line@.subrange(j, t as int),
            ) > width by {
                wider_before(line@, j, k as int, t as int);
            }
            if width == 10 && k <= z + 1 {
                assert(text_width(line@.subrange(k as int, t as int)) == 10);
            }
        }
        width == 10 && (k == 0 || k - 1 <= z)
    }

    fn extract_direction(line: &Vec<char>) -> (r: Option<PacketDirection>)
        ensures
            r == line_direction(line@),
    {
        if contains(line, "[IN]") {
            Some(PacketDirection::VmToProxy)
        } else if contains(line, "[OUT]") {
            Some(PacketDirection::ProxyToVm)
        } else {
            None
        }
    }

    fn extract_timestamp(&mut self, line: &Vec<char>, now: u64) -> (r: Option<u64>)
        ensures
            r is Some <==> line_timed(line@),
            r matches Some(t) ==> t == line_timestamp(old(self).start_time, line@, now),
            final(self).start_time == started(old(self).start_time, line@, now),
            final(self).traces == old(self).traces,
    {
        if contains(line, "T") && contains(line, "Z") {
            match self.start_time {
                None => {
                    self.start_time = Some(now);
                    Some(0)
                },
                Some(start) => Some(
                    if now > start {
                        now - start
                    } else {
                        0
                    },
                ),
            }
        } else {
            None
        }
    }

    fn push_zeros(v: &mut Vec<u8>, n: u32)
        ensures
            final(v)@ == old(v)@ + zeros(n as nat),
    {
        let ghost before = v@;
        let mut i: u32 = 0;
        while i < n
            invariant
                i <= n,
                v@ == before + zeros(i as nat),
            decreases n - i,
        {
            v.push(0);
            i = i + 1;
            assert(v@ =~= before + zeros(i as nat));
        }
    }

    fn extract_packet_data(line: &Vec<char>) -> (r: Option<Bytes>)
        ensures
            r is Some <==> find(line@, "seq"@) is Some && find(line@, "ack"@) is Some,
            r matches Some(b) ==> bytes_view(b) == line_data(line@),
    {
        if contains(line, "seq") && contains(line, "ack") {
            let mut packet: Vec<u8> = vec![
                0xde,
                0xad,
                0xbe,
                0xef,
                0x00,
                0x00,
                0x02,
                0x00,
                0x00,
                0x01,
                0x02,
                0x03,
            ];
            assert(packet@ =~= made_up_addresses());
            Self::push_zeros(&mut packet, 48);
            let size: u32 = match Self::extract_number_after(line, "len ") {
                Some(n) => n,
                None => 0,
            };
            Self::push_zeros(&mut packet, size);
            assert(packet@ =~= made_up_addresses() + zeros(48 + payload_size(line@)));
            Some(Bytes::copy_from_slice(packet.as_slice()))
        } else {
            None
        }
    }

    fn extract_connection_id(text: &str, line: &Vec<char>) -> (r: Option<String>)
        requires
            text@ == line@,
            flags_follow(line@),
        ensures
            r is Some <==> line_connection(line@) is Some,
            r matches Some(s) ==> Some(s@) == line_connection(line@),
    {
        match (find_text(line, "] "), find_text(line, ": Flags")) {
            (Some(start), Some(end)) => Some(text.substring_char(start + 2, end).to_owned()),
            _ => None,
        }
    }

    fn extract_number_after(line: &Vec<char>, pattern: &str) -> (r: Option<u32>)
        ensures
            r == number_after(line@, pattern@),
    {
        match find_text(line, pattern) {
            Some(pos) => {
                let n: usize = line.len();
                assert(pos + pattern@.len() <= n);
                let start: usize = pos + pattern.unicode_len();
                let after: Vec<char> = Self::rest(line, start);
                match find_text(&after, " ") {
                    Some(end) => {
                        assert(after@.take(end as int) =~= after@.subrange(0, end as int));
                        parse_number(&after, 0, end)
                    },
                    None => {
                        assert(after@ =~= after@.subrange(0, after@.len() as int));
                        parse_number(&after, 0, after.len())
                    },
                }
            },
            None => None,
        }
    }

    fn rest(line: &Vec<char>, start: usize) -> (r: Vec<char>)
        requires
            start <= line@.len(),
        ensures
            r@ == line@.skip(start as int),
    {
        let mut v: Vec<char> = Vec::new();
        let mut i: usize = start;
        while i < line.len()
            invariant
                start <= i <= line@.len(),
                v@ == line@.subrange(start as int, i as int),
            decreases line@.len() - i,
        {
            v.push(line[i]);
            i = i + 1;
            assert(v@ =~= line@.subrange(start as int, i as int));
        }
        assert(v@ =~= line@.skip(start as int));
        v
    }

    /// The traces that were read.
    pub fn get_traces(&self) -> (r: &VecDeque<PacketTrace>)
        ensures
            trace_views(r@) == self.read(),
    {
        &self.traces
    }
}

// --- Playing traces back ---

/// Plays traces back in order, each when its time has come.
#[derive(Debug)]
pub struct PacketReplayer {
    traces: VecDeque<PacketTrace>,
    current_time: u64,
}

impl PacketReplayer {
    /// The traces that have not been played yet.
    pub closed spec fn left(&self) -> Seq<TraceView> {
        trace_views(self.traces@)
    }

    /// How far the time has got, in nanoseconds.
    pub closed spec fn time(&self) -> u64 {
        self.current_time
    }

    /// A replay of these traces, from the beginning.
    pub fn new(traces: VecDeque<PacketTrace>) -> (r: Self)
        ensures
            r.left() == trace_views(traces@),
            r.time() == 0,
    {
        PacketReplayer { traces, current_time: 0 }
    }

    /// The next packet, where its time has come.
    pub fn next_packet(&mut self) -> (r: Option<PacketTrace>)
        ensures
            final(self).time() == old(self).time(),
            r is Some <==> old(self).left().len() > 0 && old(self).left()[0].timestamp
                <= old(self).time(),
            r matches Some(t) ==> t@ == old(self).left()[0] && final(self).left()
                == old(self).left().skip(1),
            r is None ==> final(self).left() == old(self).left(),
    {
        let due = self.traces.len() > 0 && self.traces[0].timestamp <= self.current_time;
        if due {
            let ghost before = self.traces@;
            assert(trace_views(before)[0] == before[0]@);
            let r = self.traces.pop_front();
            assert(trace_views(self.traces@) =~= trace_views(before).skip(1));
            r
        } else {
            assert(self.traces@.len() > 0 ==> trace_views(self.traces@)[0] == self.traces@[0]@);
            None
        }
    }

    /// Lets the time go on.
    pub fn advance_time(&mut self, delta: u64)
        requires
            old(self).time() + delta <= u64::MAX,
        ensures
            final(self).time() == old(self).time() + delta,
            final(self).left() == old(self).left(),
    {
        self.current_time = self.current_time + delta;
    }

    /// Whether every packet has been played.
    pub fn is_complete(&self) -> (r: bool)
        ensures
            r == (self.left().len() == 0),
    {
        self.traces.len() == 0
    }
}

// --- Laws ---

/// The traces that a replay hands out while its time stands still at `now`: the longest row
/// from the front whose times have come.
pub open spec fn due(left: Seq<TraceView>, now: u64) -> Seq<TraceView>
    decreases left.len(),
{
    if left.len() > 0 && left[0].timestamp <= now {
        seq![left[0]] + due(left.skip(1), now)
    } else {
        Seq::empty()
    }
}

/// A replay keeps the order and loses nothing: what it hands out is where its traces begin,
/// nothing of it comes before its time, and only a trace whose time has not come can be next.
pub proof fn replay_keeps_order(left: Seq<TraceView>, now: u64)
    ensures
        due(left, now).len() <= left.len(),
        due(left, now) == left.take(due(left, now).len() as int),
        forall|i: int|
            0 <= i < due(left, now).len() ==> (#[trigger] due(left, now)[i]).timestamp <= now,
        due(left, now).len() < left.len() ==> left[due(left, now).len() as int].timestamp > now,
    decreases left.len(),
{
    if left.len() > 0 && left[0].timestamp <= now {
        replay_keeps_order(left.skip(1), now);
        let rest = due(left.skip(1), now);
        assert(due(left, now) =~= seq![left[0]] + rest);
        assert(due(left, now) =~= left.take(due(left, now).len() as int));
        assert forall|i: int| 0 <= i < due(left, now).len() implies (#[trigger] due(
            left,
            now,
        )[i]).timestamp <= now by {
            if i > 0 {
                assert(due(left, now)[i] == rest[i - 1]);
            }
        }
    } else {
        assert(due(left, now) =~= left.take(0));
    }
}

/// The time of a trace is how long after the first line with a time its own was read, so that
/// lines read one after another get times that do not go down.
pub proof fn timestamps_do_not_go_down(start: u64, line: Seq<char>, later: Seq<char>, a: u64, b: u64)
    requires
        line_timed(line),
        line_timed(later),
        a <= b,
    ensures
        line_timestamp(Some(start), line, a) <= line_timestamp(Some(start), later, b),
        line_timestamp(None, line, a) == 0,
        started(None, line, a) == Some(a),
        started(Some(start), line, a) == Some(start),
{
}

} // verus!
