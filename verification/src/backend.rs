//! What reading and writing frames can come to.
use vstd::prelude::*;

verus! {

/// `std::io::Error`, which is carried through unread.
#[verifier::external_type_specification]
#[verifier::external_body]
pub struct ExIoError(std::io::Error);

#[derive(Debug)]
pub enum ReadError {
    /// Nothing was read from the backend.
    NothingRead,
    /// Another internal error occurred.
    Internal(std::io::Error),
}

#[derive(Debug)]
pub enum WriteError {
    /// Nothing was written; the frame can be dropped or resent later.
    NothingWritten,
    /// A partial write occurred; the write has to be completed.
    PartialWrite,
    /// The backend process does not seem to be running.
    ProcessNotRunning,
    /// Another internal error occurred.
    Internal(std::io::Error),
}

impl From<std::io::Error> for WriteError {
    fn from(value: std::io::Error) -> (r: Self) {
        WriteError::Internal(value)
    }
}

impl vstd::std_specs::convert::FromSpecImpl<std::io::Error> for WriteError {
    open spec fn obeys_from_spec() -> bool {
        true
    }

    open spec fn from_spec(value: std::io::Error) -> Self {
        WriteError::Internal(value)
    }
}

/// What a read from a datagram socket comes to for the reader of a frame: that there is
/// nothing to read yet is not an internal error.
pub fn frame_read(received: Result<usize, std::io::Error>, would_block: bool) -> (r: Result<
    usize,
    ReadError,
>)
    ensures
        match received {
            Ok(n) => r == Ok::<usize, ReadError>(n),
            Err(e) => r == Err::<usize, ReadError>(
                if would_block {
                    ReadError::NothingRead
                } else {
                    ReadError::Internal(e)
                },
            ),
        },
{
    match received {
        Ok(n) => Ok(n),
        Err(e) => {
            if would_block {
                Err(ReadError::NothingRead)
            } else {
                Err(ReadError::Internal(e))
            }
        },
    }
}

/// The frame behind a header of `hdr_len` bytes.
pub fn frame_body(buf: &[u8], hdr_len: usize) -> (r: &[u8])
    requires
        hdr_len <= buf@.len(),
    ensures
        r@ == buf@.skip(hdr_len as int),
{
    let r: &[u8] = vstd::slice::slice_subrange(buf, hdr_len, buf.len());
    assert(r@ =~= buf@.skip(hdr_len as int));
    r
}

/// Copies a frame to the start of a buffer.
pub fn fill(buf: &mut [u8], frame: &[u8])
    requires
        frame@.len() <= old(buf)@.len(),
    ensures
        final(buf)@ == frame@ + old(buf)@.skip(frame@.len() as int),
{
    let mut i: usize = 0;
    let ghost before = buf@;
    let n: usize = frame.len();
    while i < n
        invariant
            i <= n,
            n == frame@.len(),
            n <= before.len(),
            buf@ == frame@.take(i as int) + before.skip(i as int),
        decreases n - i,
    {
        buf[i] = frame[i];
        i = i + 1;
        assert(buf@ =~= frame@.take(i as int) + before.skip(i as int));
    }
    assert(buf@ =~= frame@ + before.skip(n as int));
}

} // verus!
