//! The host side of a connection.
use bytes::Bytes;
use std::collections::VecDeque;
use vstd::prelude::*;

use crate::addr::{Interest, Token};
use crate::buffer::{
    advance, bytes_view, drop_bytes, drop_bytes_twice, flat, flat_drop_bytes, views,
};

verus! {

/// Why a host stream cannot be read from any more.
#[derive(Debug)]
pub enum HostError {
    /// The peer ended the stream.
    UnexpectedEof,
    /// The peer reset the connection.
    ConnectionReset,
    /// The stream handed out more than it was asked for.
    Overrun,
    /// Another error, as the system reports it.
    Io(std::io::Error),
}

/// What came of reading from a host stream. Data of length zero is the end of the stream.
#[derive(Debug)]
pub enum HostRead {
    Data(Vec<u8>),
    WouldBlock,
    /// The peer reset the connection.
    Reset,
    Failed(HostError),
}

/// What came of writing to a host stream.
#[derive(Debug)]
pub enum HostWrite {
    Wrote(usize),
    WouldBlock,
    Failed,
}

/// Why a stream could not be registered for other readiness events.
#[derive(Debug)]
pub struct RegisterError {
    /// Whether the stream was not registered at all.
    pub unregistered: bool,
    pub error: std::io::Error,
}

// --- The calls that a stream has seen ---

/// What a read came to.
pub enum ReadView {
    Data(Seq<u8>),
    WouldBlock,
    Reset,
    Failed(HostError),
}

/// What a write came to.
pub enum WriteView {
    Wrote(nat),
    WouldBlock,
    Failed,
}

/// What changing a registration came to.
pub enum RegisterView {
    Done,
    /// The stream was not registered at all.
    Unregistered,
    Failed,
}

pub open spec fn register_view(r: Result<(), RegisterError>) -> RegisterView {
    match r {
        Ok(_) => RegisterView::Done,
        Err(e) => {
            if e.unregistered {
                RegisterView::Unregistered
            } else {
                RegisterView::Failed
            }
        },
    }
}

/// A call of a host stream, and what it came to.
pub enum HostCall {
    Read { max: nat, got: ReadView },
    Write { data: Seq<u8>, took: WriteView },
    Register { token: Token, interest: Interest, ok: bool },
    Reregister { token: Token, interest: Interest, came: RegisterView },
    Deregister { ok: bool },
    ShutdownWrite { ok: bool },
}

impl View for HostRead {
    type V = ReadView;

    open spec fn view(&self) -> ReadView {
        match self {
            HostRead::Data(d) => ReadView::Data(d@),
            HostRead::WouldBlock => ReadView::WouldBlock,
            HostRead::Reset => ReadView::Reset,
            HostRead::Failed(e) => ReadView::Failed(*e),
        }
    }
}

impl View for HostWrite {
    type V = WriteView;

    open spec fn view(&self) -> WriteView {
        match self {
            HostWrite::Wrote(n) => WriteView::Wrote(*n as nat),
            HostWrite::WouldBlock => WriteView::WouldBlock,
            HostWrite::Failed => WriteView::Failed,
        }
    }
}

/// A stream socket of the host, or whatever stands for one.
pub trait HostStream: Sized {
    /// Reads up to `max` bytes.
    fn read(&mut self, max: usize) -> HostRead;

    /// Writes from the start of `data`.
    fn write(&mut self, data: &[u8]) -> HostWrite;

    /// Registers the stream for readiness events, and says whether that worked.
    fn register(&mut self, token: Token, interest: Interest) -> bool;

    /// Changes which readiness events the stream is registered for.
    fn reregister(&mut self, token: Token, interest: Interest) -> Result<(), RegisterError>;

    /// Ends the registration of the stream, and says whether that worked.
    fn deregister(&mut self) -> bool;

    /// Tells the host that no more data will be written, and says whether that worked.
    fn shutdown_write(&mut self) -> bool;
}

/// A stream that knows the calls it has seen: a read hands out no more than was asked for, and
/// a write takes no more than it was given.
pub trait TracedStream: Sized {
    /// The calls so far, in order.
    spec fn calls(&self) -> Seq<HostCall>;

    /// Reads up to `max` bytes.
    fn read(&mut self, max: usize) -> (r: HostRead)
        ensures
            r matches HostRead::Data(d) ==> d@.len() <= max,
            final(self).calls() == old(self).calls().push(
                HostCall::Read { max: max as nat, got: r@ },
            ),
    ;

    /// Writes from the start of `data`.
    fn write(&mut self, data: &[u8]) -> (r: HostWrite)
        ensures
            r matches HostWrite::Wrote(n) ==> n <= data@.len(),
            final(self).calls() == old(self).calls().push(
                HostCall::Write { data: data@, took: r@ },
            ),
    ;

    /// Registers the stream for readiness events, and says whether that worked.
    fn register(&mut self, token: Token, interest: Interest) -> (ok: bool)
        ensures
            final(self).calls() == old(self).calls().push(
                HostCall::Register { token, interest, ok },
            ),
    ;

    /// Changes which readiness events the stream is registered for.
    fn reregister(&mut self, token: Token, interest: Interest) -> (r: Result<(), RegisterError>)
        ensures
            final(self).calls() == old(self).calls().push(
                HostCall::Reregister { token, interest, came: register_view(r) },
            ),
    ;

    /// Ends the registration of the stream, and says whether that worked.
    fn deregister(&mut self) -> (ok: bool)
        ensures
            final(self).calls() == old(self).calls().push(HostCall::Deregister { ok }),
    ;

    /// Tells the host that no more data will be written, and says whether that worked.
    fn shutdown_write(&mut self) -> (ok: bool)
        ensures
            final(self).calls() == old(self).calls().push(HostCall::ShutdownWrite { ok }),
    ;
}

/// Whether one more stream has been released, which has seen these calls.
pub open spec fn one_released<H: TracedStream>(
    before: Seq<H>,
    after: Seq<H>,
    calls: Seq<HostCall>,
) -> bool {
    &&& after == before.push(after.last())
    &&& after.last().calls() == calls
}

/// Whether the last call of a stream is the one that ends its registration.
pub open spec fn deregistered(before: Seq<HostCall>, after: Seq<HostCall>) -> bool {
    ||| after == before.push(HostCall::Deregister { ok: true })
    ||| after == before.push(HostCall::Deregister { ok: false })
}

/// A host stream together with the calls that it has seen.
pub struct Recorded<S: HostStream> {
    stream: S,
    trace: Ghost<Seq<HostCall>>,
}

impl<S: HostStream> Recorded<S> {
    /// A stream that has seen no calls.
    pub fn new(stream: S) -> (r: Self)
        ensures
            r.calls() == Seq::<HostCall>::empty(),
    {
        Recorded { stream, trace: Ghost(Seq::empty()) }
    }
}

impl<S: HostStream> TracedStream for Recorded<S> {
    closed spec fn calls(&self) -> Seq<HostCall> {
        self.trace@
    }

    /// A read that hands out more than was asked for has failed.
    fn read(&mut self, max: usize) -> (r: HostRead) {
        let r = match self.stream.read(max) {
            HostRead::Data(d) => if d.len() <= max {
                HostRead::Data(d)
            } else {
                HostRead::Failed(HostError::Overrun)
            },
            other => other,
        };
        proof {
            self.trace@ = self.trace@.push(HostCall::Read { max: max as nat, got: r@ });
        }
        r
    }

    /// A write that takes more than it was given has failed.
    fn write(&mut self, data: &[u8]) -> (r: HostWrite) {
        let r = match self.stream.write(data) {
            HostWrite::Wrote(n) => if n <= data.len() {
                HostWrite::Wrote(n)
            } else {
                HostWrite::Failed
            },
            other => other,
        };
        proof {
            self.trace@ = self.trace@.push(HostCall::Write { data: data@, took: r@ });
        }
        r
    }

    fn register(&mut self, token: Token, interest: Interest) -> (ok: bool) {
        let ok = self.stream.register(token, interest);
        proof {
            self.trace@ = self.trace@.push(HostCall::Register { token, interest, ok });
        }
        ok
    }

    fn reregister(&mut self, token: Token, interest: Interest) -> (r: Result<(), RegisterError>) {
        let r = self.stream.reregister(token, interest);
        proof {
            self.trace@ = self.trace@.push(
                HostCall::Reregister { token, interest, came: register_view(r) },
            );
        }
        r
    }

    fn deregister(&mut self) -> (ok: bool) {
        let ok = self.stream.deregister();
        proof {
            self.trace@ = self.trace@.push(HostCall::Deregister { ok });
        }
        ok
    }

    fn shutdown_write(&mut self) -> (ok: bool) {
        let ok = self.stream.shutdown_write();
        proof {
            self.trace@ = self.trace@.push(HostCall::ShutdownWrite { ok });
        }
        ok
    }
}

/// The bytes that the reads among these calls handed out, in order.
pub open spec fn received(calls: Seq<HostCall>) -> Seq<u8>
    decreases calls.len(),
{
    if calls.len() == 0 {
        Seq::empty()
    } else {
        match calls.last() {
            HostCall::Read { got: ReadView::Data(d), .. } => received(calls.drop_last()) + d,
            _ => received(calls.drop_last()),
        }
    }
}

/// The bytes that the writes among these calls took, in order.
pub open spec fn sent(calls: Seq<HostCall>) -> Seq<u8>
    decreases calls.len(),
{
    if calls.len() == 0 {
        Seq::empty()
    } else {
        match calls.last() {
            HostCall::Write { data, took: WriteView::Wrote(n) } => sent(calls.drop_last())
                + data.take(n as int),
            _ => sent(calls.drop_last()),
        }
    }
}

/// What was sent by some calls and then by others is what was sent by all of them.
pub proof fn sent_adds(a: Seq<HostCall>, b: Seq<HostCall>)
    ensures
        sent(a + b) == sent(a) + sent(b),
    decreases b.len(),
{
    if b.len() == 0 {
        assert(a + b =~= a);
        assert(sent(a) + sent(b) =~= sent(a));
    } else {
        sent_adds(a, b.drop_last());
        assert((a + b).drop_last() =~= a + b.drop_last());
        assert(sent(a + b) =~= sent(a) + sent(b));
    }
}

/// What was received by some calls and then by others is what was received by all of them.
pub proof fn received_adds(a: Seq<HostCall>, b: Seq<HostCall>)
    ensures
        received(a + b) == received(a) + received(b),
    decreases b.len(),
{
    if b.len() == 0 {
        assert(a + b =~= a);
        assert(received(a) + received(b) =~= received(a));
    } else {
        received_adds(a, b.drop_last());
        assert((a + b).drop_last() =~= a + b.drop_last());
        assert(received(a + b) =~= received(a) + received(b));
    }
}

// --- Writing what waits for the host ---

/// Why writing stopped.
#[derive(Debug, Clone, Copy, PartialEq, Eq, Structural)]
pub enum WriteEnd {
    /// Nothing waits any more.
    Emptied,
    /// The host took a part of a chunk.
    Partial,
    /// The host took nothing, which shows that it is closed.
    Closed,
    WouldBlock,
    Failed,
}

/// Whether writing chunks in order, until the host takes one not whole, makes these calls:
/// `written` bytes are taken and writing stops for the reason `end`.
pub open spec fn write_run(
    q: Seq<Seq<u8>>,
    calls: Seq<HostCall>,
    written: int,
    end: WriteEnd,
) -> bool
    decreases q.len(),
{
    if q.len() == 0 {
        calls.len() == 0 && written == 0 && end == WriteEnd::Emptied
    } else {
        &&& calls.len() > 0
        &&& match calls[0] {
            HostCall::Write { data, took } => {
                &&& data == q[0]
                &&& match took {
                    WriteView::Wrote(n) => {
                        if n == 0 {
                            calls.len() == 1 && written == 0 && end == WriteEnd::Closed
                        } else if n < q[0].len() {
                            calls.len() == 1 && written == n && end == WriteEnd::Partial
                        } else {
                            n == q[0].len() && write_run(
                                q.skip(1),
                                calls.skip(1),
                                written - n,
                                end,
                            )
                        }
                    },
                    WriteView::WouldBlock => calls.len() == 1 && written == 0 && end
                        == WriteEnd::WouldBlock,
                    WriteView::Failed => calls.len() == 1 && written == 0 && end
                        == WriteEnd::Failed,
                }
            },
            _ => false,
        }
    }
}

/// What was written is the start of what waited.
pub proof fn write_run_sends(q: Seq<Seq<u8>>, calls: Seq<HostCall>, written: int, end: WriteEnd)
    requires
        write_run(q, calls, written, end),
    ensures
        0 <= written <= flat(q).len(),
        sent(calls) == flat(q).take(written),
        received(calls) == Seq::<u8>::empty(),
    decreases q.len(),
{
    reveal_with_fuel(sent, 2);
    reveal_with_fuel(received, 2);
    if q.len() == 0 {
        assert(sent(calls) =~= flat(q).take(written));
    } else {
        let first = calls.take(1);
        let rest = calls.skip(1);
        assert(first + rest =~= calls);
        sent_adds(first, rest);
        received_adds(first, rest);
        assert(first.drop_last() =~= Seq::<HostCall>::empty());
        assert(first.last() == calls[0]);
        assert(flat(q).len() == q[0].len() + flat(q.skip(1)).len());
        assert(received(calls) =~= received(rest));
        match calls[0] {
            HostCall::Write { data, took: WriteView::Wrote(n) } => {
                if n > 0 && n == q[0].len() {
                    write_run_sends(q.skip(1), rest, written - n, end);
                    assert(q[0].take(n as int) =~= q[0]);
                    assert(sent(calls) =~= flat(q).take(written));
                } else {
                    assert(rest =~= Seq::<HostCall>::empty());
                    assert(sent(calls) =~= flat(q).take(written));
                }
            },
            _ => {
                assert(rest =~= Seq::<HostCall>::empty());
                assert(sent(calls) =~= flat(q).take(written));
            },
        }
    }
}

/// Writing goes on: what was done so far and then a run on what is left make one run.
spec fn continues(
    q: Seq<Seq<u8>>,
    left: Seq<Seq<u8>>,
    done: Seq<HostCall>,
    written: int,
) -> bool {
    forall|rest: Seq<HostCall>, w: int, e: WriteEnd| #[trigger]
        write_run(left, rest, w, e) ==> write_run(q, done + rest, written + w, e)
}

proof fn continues_once(
    q: Seq<Seq<u8>>,
    left: Seq<Seq<u8>>,
    done: Seq<HostCall>,
    written: int,
)
    requires
        continues(q, left, done, written),
        left.len() > 0,
        left[0].len() > 0,
    ensures
        continues(
            q,
            left.skip(1),
            done.push(
                HostCall::Write { data: left[0], took: WriteView::Wrote(left[0].len()) },
            ),
            written + left[0].len(),
        ),
{
    let call = HostCall::Write { data: left[0], took: WriteView::Wrote(left[0].len()) };
    assert forall|rest: Seq<HostCall>, w: int, e: WriteEnd| #[trigger]
        write_run(left.skip(1), rest, w, e) implies write_run(
        q,
        done.push(call) + rest,
        written + left[0].len() + w,
        e,
    ) by {
        let all = seq![call] + rest;
        assert(all.skip(1) =~= rest);
        assert(write_run(left, all, w + left[0].len(), e));
        assert(done.push(call) + rest =~= done + all);
    }
}

/// Writes chunks in order until the host takes one not whole. Says how many bytes it took and
/// why writing stopped.
pub(crate) fn write_pending<H: TracedStream>(stream: &mut H, queue: &mut VecDeque<Bytes>) -> (r: (
    usize,
    WriteEnd,
    Ghost<Seq<HostCall>>,
))
    requires
        flat(views(old(queue)@)).len() <= usize::MAX,
    ensures
        final(stream).calls() == old(stream).calls() + r.2@,
        write_run(views(old(queue)@), r.2@, r.0 as int, r.1),
        views(final(queue)@) == drop_bytes(views(old(queue)@), r.0 as nat),
        r.1 == WriteEnd::Emptied <==> final(queue)@.len() == 0,
{
    let ghost q = views(queue@);
    let ghost first = stream.calls();
    let ghost mut done = Seq::<HostCall>::empty();
    let mut written: usize = 0;
    proof {
        assert(first + done =~= first);
        assert forall|rest: Seq<HostCall>, w: int, e: WriteEnd| #[trigger]
            write_run(q, rest, w, e) implies write_run(q, done + rest, 0 + w, e) by {
            assert(done + rest =~= rest);
        }
    }
    while queue.len() > 0
        invariant
            q == views(old(queue)@),
            first == old(stream).calls(),
            flat(q).len() <= usize::MAX,
            written <= flat(q).len(),
            views(queue@) == drop_bytes(q, written as nat),
            stream.calls() == first + done,
            continues(q, views(queue@), done, written as int),
        decreases queue@.len(),
    {
        let ghost left = views(queue@);
        let mut data = queue.pop_front().unwrap();
        proof {
            flat_drop_bytes(q, written as nat);
            assert(flat(left).len() == left[0].len() + flat(left.skip(1)).len());
            assert(views(queue@) =~= left.skip(1));
            assert(bytes_view(data) == left[0]);
        }
        let took = stream.write(&data);
        let ghost call = HostCall::Write { data: left[0], took: took@ };
        proof {
            assert(stream.calls() =~= first + done.push(call));
            assert(done + seq![call] =~= done.push(call));
            assert(seq![call].skip(1) =~= Seq::<HostCall>::empty());
        }
        match took {
            HostWrite::Wrote(n) => {
                proof {
                    drop_bytes_twice(q, written as nat, n as nat);
                }
                if n == 0 {
                    queue.push_front(data);
                    proof {
                        assert(views(queue@) =~= left);
                        assert(write_run(left, seq![call], 0, WriteEnd::Closed));
                    }
                    return (written, WriteEnd::Closed, Ghost(done.push(call)));
                }
                if n < data.len() {
                    advance(&mut data, n);
                    queue.push_front(data);
                    proof {
                        assert(views(queue@) =~= left.update(0, left[0].skip(n as int)));
                        assert(write_run(left, seq![call], n as int, WriteEnd::Partial));
                    }
                    return (written + n, WriteEnd::Partial, Ghost(done.push(call)));
                }
                proof {
                    continues_once(q, left, done, written as int);
                    assert(drop_bytes(left.skip(1), 0) == left.skip(1));
                    done = done.push(call);
                }
                written = written + n;
            },
            HostWrite::WouldBlock => {
                queue.push_front(data);
                proof {
                    assert(views(queue@) =~= left);
                    assert(write_run(left, seq![call], 0, WriteEnd::WouldBlock));
                }
                return (written, WriteEnd::WouldBlock, Ghost(done.push(call)));
            },
            HostWrite::Failed => {
                queue.push_front(data);
                proof {
                    assert(views(queue@) =~= left);
                    assert(write_run(left, seq![call], 0, WriteEnd::Failed));
                }
                return (written, WriteEnd::Failed, Ghost(done.push(call)));
            },
        }
    }
    proof {
        assert(write_run(views(queue@), Seq::empty(), 0, WriteEnd::Emptied));
        assert(done + Seq::<HostCall>::empty() =~= done);
    }
    (written, WriteEnd::Emptied, Ghost(done))
}

// --- Reading what a stream still has ---

/// How often a stream that is closing is read from at a time, at most.
pub const DRAIN_LIMIT: u64 = 0xffff_ffff_ffff_ffff;

/// Whether reading `max` bytes at a time until there is no more, at most so often, makes these
/// calls.
pub open spec fn drain_run(calls: Seq<HostCall>, max: nat, limit: nat) -> bool
    decreases limit,
{
    if limit == 0 {
        calls.len() == 0
    } else {
        &&& calls.len() > 0
        &&& match calls[0] {
            HostCall::Read { max: m, got: ReadView::Data(d) } => {
                &&& m == max
                &&& if d.len() > 0 {
                    drain_run(calls.skip(1), max, (limit - 1) as nat)
                } else {
                    calls.len() == 1
                }
            },
            HostCall::Read { max: m, .. } => m == max && calls.len() == 1,
            _ => false,
        }
    }
}

/// Reading goes on: what was done so far and then a run with what is left make one run.
spec fn drains_on(done: Seq<HostCall>, max: nat, left: nat, limit: nat) -> bool {
    forall|rest: Seq<HostCall>| #[trigger]
        drain_run(rest, max, left) ==> drain_run(done + rest, max, limit)
}

/// Reads what a closing stream still has.
pub(crate) fn drain<H: TracedStream>(stream: &mut H, max: usize) -> (r: Ghost<Seq<HostCall>>)
    ensures
        final(stream).calls() == old(stream).calls() + r@,
        drain_run(r@, max as nat, DRAIN_LIMIT as nat),
{
    let ghost first = stream.calls();
    let ghost mut done = Seq::<HostCall>::empty();
    let mut left: u64 = DRAIN_LIMIT;
    proof {
        assert(first + done =~= first);
        assert forall|rest: Seq<HostCall>| #[trigger]
            drain_run(rest, max as nat, left as nat) implies drain_run(
            done + rest,
            max as nat,
            DRAIN_LIMIT as nat,
        ) by {
            assert(done + rest =~= rest);
        }
    }
    while left > 0
        invariant
            first == old(stream).calls(),
            stream.calls() == first + done,
            drains_on(done, max as nat, left as nat, DRAIN_LIMIT as nat),
        decreases left,
    {
        let got = stream.read(max);
        let ghost call = HostCall::Read { max: max as nat, got: got@ };
        let ghost one = seq![call];
        proof {
            assert(stream.calls() =~= first + done.push(call));
            assert(done + one =~= done.push(call));
        }
        let more = match got {
            HostRead::Data(d) => d.len() > 0,
            _ => false,
        };
        if !more {
            assert(drain_run(one, max as nat, left as nat));
            return Ghost(done.push(call));
        }
        proof {
            let now = done.push(call);
            assert forall|rest: Seq<HostCall>| #[trigger]
                drain_run(rest, max as nat, (left - 1) as nat) implies drain_run(
                now + rest,
                max as nat,
                DRAIN_LIMIT as nat,
            ) by {
                let all = one + rest;
                assert(all.skip(1) =~= rest);
                assert(drain_run(all, max as nat, left as nat));
                assert(now + rest =~= done + all);
            }
            done = now;
            assert(drains_on(done, max as nat, (left - 1) as nat, DRAIN_LIMIT as nat));
        }
        left = left - 1;
    }
    proof {
        assert(drain_run(Seq::empty(), max as nat, 0));
        assert(done + Seq::<HostCall>::empty() =~= done);
    }
    Ghost(done)
}

} // verus!
