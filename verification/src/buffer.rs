//! The byte buffers of the `bytes` crate.
//!
//! Every item here is trusted: it states, over the bytes that a buffer holds, what the
//! crate's source shows of the method it names.
use bytes::{Buf, Bytes, BytesMut};
use vstd::prelude::*;

verus! {

/// `Bytes`: a shared, read-only run of bytes.
#[verifier::external_type_specification]
#[verifier::external_body]
pub struct ExBytes(Bytes);

/// `BytesMut`: a growable run of bytes.
#[verifier::external_type_specification]
#[verifier::external_body]
pub struct ExBytesMut(BytesMut);

/// The bytes that a `Bytes` holds.
pub uninterp spec fn bytes_view(b: Bytes) -> Seq<u8>;

/// The bytes that a `BytesMut` holds.
pub uninterp spec fn buf_view(b: BytesMut) -> Seq<u8>;

/// `Bytes::new`: an empty buffer.
pub assume_specification[ Bytes::new ]() -> (r: Bytes)
    ensures
        bytes_view(r) == Seq::<u8>::empty(),
;

/// `Bytes::len`: how many bytes the buffer holds.
pub assume_specification[ Bytes::len ](b: &Bytes) -> (r: usize)
    ensures
        r == bytes_view(*b).len(),
;

/// `Bytes::copy_from_slice`: a buffer that holds a copy of the slice.
pub assume_specification[ Bytes::copy_from_slice ](data: &[u8]) -> (r: Bytes)
    ensures
        bytes_view(r) == data@,
;

/// `Bytes::clone`: a second handle on the same bytes.
pub assume_specification[ <Bytes as Clone>::clone ](b: &Bytes) -> (r: Bytes)
    ensures
        bytes_view(r) == bytes_view(*b),
;

/// `Bytes::deref`: the held bytes as a slice.
pub assume_specification[ <Bytes as core::ops::Deref>::deref ](b: &Bytes) -> (r: &[u8])
    ensures
        r@ == bytes_view(*b),
;

/// `Buf::advance` on `Bytes`: drops the first `n` bytes. It panics when fewer are held.
#[verifier::external_body]
pub(crate) fn advance(b: &mut Bytes, n: usize)
    requires
        n <= bytes_view(*old(b)).len(),
    ensures
        bytes_view(*final(b)) == bytes_view(*old(b)).skip(n as int),
{
    b.advance(n)
}

/// `BytesMut::with_capacity`: an empty buffer. It panics when no allocation can have that
/// capacity.
pub assume_specification[ BytesMut::with_capacity ](capacity: usize) -> (r: BytesMut)
    requires
        capacity <= isize::MAX,
    ensures
        buf_view(r) == Seq::<u8>::empty(),
;

/// `BytesMut::clear`: drops all the bytes.
pub assume_specification[ BytesMut::clear ](b: &mut BytesMut)
    ensures
        buf_view(*final(b)) == Seq::<u8>::empty(),
;

/// `BytesMut::resize`: cuts the buffer to `new_len` bytes, or fills it up to that many with
/// copies of `value`. It panics when no allocation can have that length.
pub assume_specification[ BytesMut::resize ](b: &mut BytesMut, new_len: usize, value: u8)
    requires
        new_len <= isize::MAX,
    ensures
        buf_view(*final(b)) == if new_len <= buf_view(*old(b)).len() {
            buf_view(*old(b)).take(new_len as int)
        } else {
            buf_view(*old(b)) + Seq::new(
                (new_len - buf_view(*old(b)).len()) as nat,
                |i: int| value,
            )
        },
;

/// `BytesMut::split_to`: hands out the first `at` bytes and keeps the rest. It panics when
/// fewer than `at` bytes are held.
pub assume_specification[ BytesMut::split_to ](b: &mut BytesMut, at: usize) -> (r: BytesMut)
    requires
        at <= buf_view(*old(b)).len(),
    ensures
        buf_view(r) == buf_view(*old(b)).take(at as int),
        buf_view(*final(b)) == buf_view(*old(b)).skip(at as int),
;

/// `BytesMut::clone`: a second buffer with the same bytes.
pub assume_specification[ <BytesMut as Clone>::clone ](b: &BytesMut) -> (r: BytesMut)
    ensures
        buf_view(r) == buf_view(*b),
;

/// `BytesMut::freeze`: the same bytes as a `Bytes`.
pub assume_specification[ BytesMut::freeze ](b: BytesMut) -> (r: Bytes)
    ensures
        bytes_view(r) == buf_view(b),
;

/// The bytes that each buffer of a queue holds.
pub open spec fn views(q: Seq<Bytes>) -> Seq<Seq<u8>> {
    Seq::new(q.len(), |i: int| bytes_view(q[i]))
}

/// All the bytes of a queue of chunks, in order.
pub open spec fn flat(q: Seq<Seq<u8>>) -> Seq<u8>
    decreases q.len(),
{
    if q.len() == 0 {
        Seq::empty()
    } else {
        q[0] + flat(q.skip(1))
    }
}

/// What is left of a queue of chunks once its first `n` bytes have been taken: chunks that
/// were taken whole are gone, and one that was taken in part is cut.
pub open spec fn drop_bytes(q: Seq<Seq<u8>>, n: nat) -> Seq<Seq<u8>>
    decreases q.len(),
{
    if q.len() == 0 || n == 0 {
        q
    } else if q[0].len() <= n {
        drop_bytes(q.skip(1), (n - q[0].len()) as nat)
    } else {
        q.update(0, q[0].skip(n as int))
    }
}

/// Appending a chunk appends its bytes.
pub proof fn flat_push(q: Seq<Seq<u8>>, c: Seq<u8>)
    ensures
        flat(q.push(c)) == flat(q) + c,
    decreases q.len(),
{
    if q.len() == 0 {
        reveal_with_fuel(flat, 2);
        assert(q.push(c).skip(1) =~= Seq::<Seq<u8>>::empty());
        assert(flat(q.push(c)) =~= c);
        assert(flat(q) + c =~= c);
    } else {
        flat_push(q.skip(1), c);
        assert(q.push(c).skip(1) =~= q.skip(1).push(c));
        assert(flat(q.push(c)) =~= flat(q) + c);
    }
}

/// Taking bytes off a queue of chunks takes them off the front of what it holds.
pub proof fn flat_drop_bytes(q: Seq<Seq<u8>>, n: nat)
    requires
        n <= flat(q).len(),
    ensures
        flat(drop_bytes(q, n)) == flat(q).skip(n as int),
    decreases q.len(),
{
    if q.len() == 0 || n == 0 {
        assert(flat(q).skip(0) =~= flat(q));
    } else if q[0].len() <= n {
        flat_drop_bytes(q.skip(1), (n - q[0].len()) as nat);
        assert(flat(q).skip(n as int) =~= flat(q.skip(1)).skip(n - q[0].len()));
    } else {
        let cut = q.update(0, q[0].skip(n as int));
        assert(cut.skip(1) =~= q.skip(1));
        assert(flat(cut) =~= flat(q).skip(n as int));
    }
}

/// Taking bytes off a queue of chunks in two goes takes as many as in one.
pub proof fn drop_bytes_twice(q: Seq<Seq<u8>>, a: nat, b: nat)
    ensures
        drop_bytes(drop_bytes(q, a), b) == drop_bytes(q, a + b),
    decreases q.len(),
{
    if q.len() == 0 || a == 0 || b == 0 {
    } else if q[0].len() <= a {
        drop_bytes_twice(q.skip(1), (a - q[0].len()) as nat, b);
    } else {
        let cut = q.update(0, q[0].skip(a as int));
        assert(cut.skip(1) =~= q.skip(1));
        if q[0].len() <= a + b {
        } else {
            assert(cut[0].skip(b as int) =~= q[0].skip((a + b) as int));
            assert(cut.update(0, cut[0].skip(b as int)) =~= q.update(
                0,
                q[0].skip((a + b) as int),
            ));
        }
    }
}

} // verus!
