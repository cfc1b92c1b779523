//! Big-endian integers and the byte cursors of the `bytes` crate.

use bytes::{Buf, BufMut, BytesMut};
use vstd::arithmetic::power::pow;
use vstd::prelude::*;

verus! {

/// The number that `s` writes in base 256, most significant byte first.
pub open spec fn be_value(s: Seq<u8>) -> nat
    decreases s.len(),
{
    if s.len() == 0 {
        0
    } else {
        be_value(s.drop_last()) * 256 + s.last() as nat
    }
}

/// The low `n` base-256 digits of `v`, most significant first.
pub open spec fn be_bytes(v: nat, n: nat) -> Seq<u8>
    decreases n,
{
    if n == 0 {
        Seq::empty()
    } else {
        be_bytes(v / 256, (n - 1) as nat).push((v % 256) as u8)
    }
}

/// Writing a number on `n` bytes and reading it back gives the number, as long
/// as `n` bytes can hold it.
pub proof fn law_be_value_of_bytes(v: nat, n: nat)
    requires
        v < pow(256, n),
    ensures
        be_value(be_bytes(v, n)) == v,
        be_bytes(v, n).len() == n,
    decreases n,
{
    reveal(pow);
    if n > 0 {
        let m = (n - 1) as nat;
        assert(v / 256 < pow(256, m)) by (nonlinear_arith)
            requires
                v < pow(256, n),
                pow(256, n) == 256 * pow(256, m),
        ;
        law_be_value_of_bytes(v / 256, m);
        assert(be_bytes(v, n).drop_last() =~= be_bytes(v / 256, m));
    }
}

/// Reading bytes as a number and writing it on as many bytes gives the bytes.
pub proof fn law_be_bytes_of_value(s: Seq<u8>)
    ensures
        be_bytes(be_value(s), s.len()) == s,
    decreases s.len(),
{
    if s.len() > 0 {
        law_be_bytes_of_value(s.drop_last());
        assert(s.drop_last().push(s.last()) =~= s);
    }
}

/// The bytes of `s` make a number below 256 to the power of their count.
pub proof fn lemma_be_value_bound(s: Seq<u8>)
    ensures
        be_value(s) < pow(256, s.len()),
    decreases s.len(),
{
    reveal(pow);
    if s.len() > 0 {
        lemma_be_value_bound(s.drop_last());
    }
}

/// `Buf::get_u32` of the `bytes` crate on a `&[u8]` cursor: the first four bytes
/// as a big-endian number, and the cursor moved past them. It panics on a
/// shorter cursor.
#[verifier::external_body]
pub(crate) fn get_u32(cursor: &mut &[u8]) -> (v: u32)
    requires
        old(cursor)@.len() >= 4,
    ensures
        v == be_value(old(cursor)@.take(4)),
        final(cursor)@ == old(cursor)@.skip(4),
{
    cursor.get_u32()
}

/// `Buf::get_u16` of the `bytes` crate on a `&[u8]` cursor: the first two bytes
/// as a big-endian number, and the cursor moved past them. It panics on a
/// shorter cursor.
#[verifier::external_body]
pub(crate) fn get_u16(cursor: &mut &[u8]) -> (v: u16)
    requires
        old(cursor)@.len() >= 2,
    ensures
        v == be_value(old(cursor)@.take(2)),
        final(cursor)@ == old(cursor)@.skip(2),
{
    cursor.get_u16()
}

/// `Buf::get_u8` of the `bytes` crate on a `&[u8]` cursor: the first byte, and
/// the cursor moved past it. It panics on an empty cursor.
#[verifier::external_body]
pub(crate) fn get_u8(cursor: &mut &[u8]) -> (v: u8)
    requires
        old(cursor)@.len() >= 1,
    ensures
        v == old(cursor)@[0],
        final(cursor)@ == old(cursor)@.skip(1),
{
    cursor.get_u8()
}

/// `Buf::remaining` of the `bytes` crate on a `&[u8]` cursor: its length.
#[verifier::external_body]
pub(crate) fn remaining(cursor: &&[u8]) -> (n: usize)
    ensures
        n == cursor@.len(),
{
    cursor.remaining()
}

/// `Buf::has_remaining` of the `bytes` crate on a `&[u8]` cursor: whether it
/// holds a byte.
#[verifier::external_body]
pub(crate) fn has_remaining(cursor: &&[u8]) -> (b: bool)
    ensures
        b == (cursor@.len() > 0),
{
    cursor.has_remaining()
}

/// `Buf::advance` of the `bytes` crate on a `&[u8]` cursor: the cursor moved past
/// its first `n` bytes. It panics on a shorter cursor.
#[verifier::external_body]
pub(crate) fn advance(cursor: &mut &[u8], n: usize)
    requires
        n <= old(cursor)@.len(),
    ensures
        final(cursor)@ == old(cursor)@.skip(n as int),
{
    cursor.advance(n)
}

/// `BufMut::put_slice` of the `bytes` crate on a `&mut [u8]`: `src` over the first
/// bytes of `buf`, the others unchanged. It panics where `src` is the longer.
#[verifier::external_body]
pub(crate) fn put_slice(buf: &mut [u8], src: &[u8])
    requires
        src@.len() <= old(buf)@.len(),
    ensures
        final(buf)@ == src@ + old(buf)@.skip(src@.len() as int),
{
    let mut dst = buf;
    dst.put_slice(src)
}

/// The growable byte buffer of the `bytes` crate.
#[verifier::external_type_specification]
#[verifier::external_body]
pub struct ExBytesMut(bytes::BytesMut);

/// The bytes that a `BytesMut` holds.
pub uninterp spec fn buffer_bytes(buf: BytesMut) -> Seq<u8>;

/// `BytesMut::with_capacity` of the `bytes` crate: an empty buffer. It panics
/// where no allocation can be that large.
#[verifier::external_body]
pub(crate) fn buffer_with_capacity(capacity: usize) -> (buf: BytesMut)
    requires
        capacity <= isize::MAX,
    ensures
        buffer_bytes(buf) == Seq::<u8>::empty(),
{
    BytesMut::with_capacity(capacity)
}

/// `BytesMut::extend_from_slice` of the `bytes` crate: `tail` appended. A buffer
/// that has to grow may double, so the new length is kept to half of the
/// largest allocation.
#[verifier::external_body]
pub(crate) fn buffer_extend_from_slice(buf: &mut BytesMut, tail: &[u8])
    requires
        buffer_bytes(*old(buf)).len() + tail@.len() <= isize::MAX / 2,
    ensures
        buffer_bytes(*final(buf)) == buffer_bytes(*old(buf)) + tail@,
{
    buf.extend_from_slice(tail)
}

/// `AsRef::as_ref` of the `bytes` crate on a `BytesMut`: the bytes it holds.
#[verifier::external_body]
pub(crate) fn buffer_as_slice(buf: &BytesMut) -> (s: &[u8])
    ensures
        s@ == buffer_bytes(*buf),
{
    buf.as_ref()
}

/// The four bytes of `v`, most significant first.
pub fn u32_be_bytes(v: u32) -> (r: [u8; 4])
    ensures
        r@ == be_bytes(v as nat, 4),
{
    proof {
        reveal_with_fuel(be_bytes, 5);
    }
    let high: u32 = v / 256;
    let higher: u32 = high / 256;
    let highest: u32 = higher / 256;
    let r = [(highest % 256) as u8, (higher % 256) as u8, (high % 256) as u8, (v % 256) as u8];
    assert(r@ =~= be_bytes(v as nat, 4));
    r
}

/// The two bytes of `v`, most significant first.
pub fn u16_be_bytes(v: u16) -> (r: [u8; 2])
    ensures
        r@ == be_bytes(v as nat, 2),
{
    proof {
        reveal_with_fuel(be_bytes, 3);
    }
    let r = [(v / 256 % 256) as u8, (v % 256) as u8];
    assert(r@ =~= be_bytes(v as nat, 2));
    r
}

} // verus!
