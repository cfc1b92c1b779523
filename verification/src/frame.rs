//! The frame: a fixed header of big-endian integers, then the payload.

use vstd::prelude::*;
use vstd::slice::slice_to_vec;

use crate::wire::{
    be_bytes, be_value, buffer_as_slice, buffer_bytes, buffer_extend_from_slice,
    buffer_with_capacity, get_u16, get_u32, get_u8, law_be_bytes_of_value, law_be_value_of_bytes,
    lemma_be_value_bound, u16_be_bytes, u32_be_bytes,
};

verus! {

/// The largest datagram that the transport below is taken to carry.
pub const MTU: u16 = 1400;

/// The most payload bytes that one segment of a write carries.
pub const MSS: u16 = MTU - 1398;

/// The command of a frame that carries a segment.
pub const CMD_PUSH: u8 = 0;

/// The command of a frame that acknowledges segments.
pub const CMD_ACK: u8 = 1;

/// The number of bytes before the payload.
pub const HEADER_LEN: usize = 24;

/// One datagram of the protocol.
#[derive(Debug)]
pub struct NcpFrame {
    pub conv: u32,
    pub cmd: u8,
    pub frg: u8,
    pub wnd: u16,
    pub ts: u32,
    pub sn: u32,
    pub una: u32,
    pub len: u32,
    pub data: Vec<u8>,
}

/// The contents of an `NcpFrame`.
#[verifier::ext_equal]
pub struct FrameView {
    pub conv: u32,
    pub cmd: u8,
    pub frg: u8,
    pub wnd: u16,
    pub ts: u32,
    pub sn: u32,
    pub una: u32,
    pub len: u32,
    pub data: Seq<u8>,
}

impl View for NcpFrame {
    type V = FrameView;

    open spec fn view(&self) -> FrameView {
        FrameView {
            conv: self.conv,
            cmd: self.cmd,
            frg: self.frg,
            wnd: self.wnd,
            ts: self.ts,
            sn: self.sn,
            una: self.una,
            len: self.len,
            data: self.data@,
        }
    }
}

/// The header of `f` on the wire.
pub open spec fn header_bytes(f: FrameView) -> Seq<u8> {
    be_bytes(f.conv as nat, 4) + seq![f.cmd, f.frg] + be_bytes(f.wnd as nat, 2) + be_bytes(
        f.ts as nat,
        4,
    ) + be_bytes(f.sn as nat, 4) + be_bytes(f.una as nat, 4) + be_bytes(f.len as nat, 4)
}

/// `f` on the wire: the header, and the payload unless the `len` field is zero.
pub open spec fn encode(f: FrameView) -> Seq<u8> {
    if f.len == 0 {
        header_bytes(f)
    } else {
        header_bytes(f) + f.data
    }
}

/// What the bytes of a datagram, a header at least, say. Everything behind the
/// header is payload, whatever the `len` field, unless that field is zero.
pub open spec fn decode(raw: Seq<u8>) -> FrameView {
    let len = be_value(raw.subrange(20, 24)) as u32;
    FrameView {
        conv: be_value(raw.subrange(0, 4)) as u32,
        cmd: raw[4],
        frg: raw[5],
        wnd: be_value(raw.subrange(6, 8)) as u16,
        ts: be_value(raw.subrange(8, 12)) as u32,
        sn: be_value(raw.subrange(12, 16)) as u32,
        una: be_value(raw.subrange(16, 20)) as u32,
        len,
        data: if len > 0 {
            raw.skip(24)
        } else {
            Seq::empty()
        },
    }
}

/// Whether the wire keeps all of `f`: no payload is left behind by a zero `len`.
pub open spec fn wire_safe(f: FrameView) -> bool {
    f.len == 0 ==> f.data.len() == 0
}

/// Reads the frame that a datagram holds. A datagram shorter than a header has
/// none.
pub fn read_frame(recv_frame: &[u8]) -> (frame: NcpFrame)
    requires
        recv_frame@.len() >= HEADER_LEN,
    ensures
        frame@ == decode(recv_frame@),
{
    let ghost raw = recv_frame@;
    let mut frame_raw = recv_frame;
    let conv: u32 = get_u32(&mut frame_raw);
    let cmd: u8 = get_u8(&mut frame_raw);
    assert(frame_raw@ =~= raw.skip(5));
    let frg: u8 = get_u8(&mut frame_raw);
    assert(frame_raw@ =~= raw.skip(6));
    let wnd: u16 = get_u16(&mut frame_raw);
    assert(frame_raw@ =~= raw.skip(8));
    let ts: u32 = get_u32(&mut frame_raw);
    assert(frame_raw@ =~= raw.skip(12));
    let sn: u32 = get_u32(&mut frame_raw);
    assert(frame_raw@ =~= raw.skip(16));
    let una: u32 = get_u32(&mut frame_raw);
    assert(frame_raw@ =~= raw.skip(20));
    let len: u32 = get_u32(&mut frame_raw);
    assert(frame_raw@ =~= raw.skip(24));
    proof {
        assert(raw.take(4) =~= raw.subrange(0, 4));
        assert(raw.skip(6).take(2) =~= raw.subrange(6, 8));
        assert(raw.skip(8).take(4) =~= raw.subrange(8, 12));
        assert(raw.skip(12).take(4) =~= raw.subrange(12, 16));
        assert(raw.skip(16).take(4) =~= raw.subrange(16, 20));
        assert(raw.skip(20).take(4) =~= raw.subrange(20, 24));
    }
    let data = if len > 0 {
        slice_to_vec(frame_raw)
    } else {
        Vec::new()
    };
    NcpFrame { conv, cmd, frg, wnd, ts, sn, una, len, data }
}

/// The datagram that carries `frame`. The payload is limited only by what one
/// allocation can hold.
pub fn write_frame(frame: &NcpFrame) -> (datagram: Vec<u8>)
    requires
        frame.len != 0 ==> frame.data@.len() <= isize::MAX / 2 - HEADER_LEN,
    ensures
        datagram@ == encode(frame@),
{
    proof {
        reveal_with_fuel(be_bytes, 5);
    }
    let mut buf = buffer_with_capacity(1400);
    buffer_extend_from_slice(&mut buf, &u32_be_bytes(frame.conv));
    buffer_extend_from_slice(&mut buf, &[frame.cmd]);
    buffer_extend_from_slice(&mut buf, &[frame.frg]);
    buffer_extend_from_slice(&mut buf, &u16_be_bytes(frame.wnd));
    buffer_extend_from_slice(&mut buf, &u32_be_bytes(frame.ts));
    buffer_extend_from_slice(&mut buf, &u32_be_bytes(frame.sn));
    buffer_extend_from_slice(&mut buf, &u32_be_bytes(frame.una));
    buffer_extend_from_slice(&mut buf, &u32_be_bytes(frame.len));
    assert(buffer_bytes(buf) =~= header_bytes(frame@));
    if frame.len != 0 {
        buffer_extend_from_slice(&mut buf, frame.data.as_slice());
    }
    slice_to_vec(buffer_as_slice(&buf))
}

proof fn lemma_header(f: FrameView, tail: Seq<u8>)
    ensures
        header_bytes(f).len() == 24,
        ({
            let raw = header_bytes(f) + tail;
            &&& raw.subrange(0, 4) == be_bytes(f.conv as nat, 4)
            &&& raw[4] == f.cmd
            &&& raw[5] == f.frg
            &&& raw.subrange(6, 8) == be_bytes(f.wnd as nat, 2)
            &&& raw.subrange(8, 12) == be_bytes(f.ts as nat, 4)
            &&& raw.subrange(12, 16) == be_bytes(f.sn as nat, 4)
            &&& raw.subrange(16, 20) == be_bytes(f.una as nat, 4)
            &&& raw.subrange(20, 24) == be_bytes(f.len as nat, 4)
        }),
{
    reveal_with_fuel(be_bytes, 5);
    let raw = header_bytes(f) + tail;
    assert(raw.subrange(0, 4) =~= be_bytes(f.conv as nat, 4));
    assert(raw.subrange(6, 8) =~= be_bytes(f.wnd as nat, 2));
    assert(raw.subrange(8, 12) =~= be_bytes(f.ts as nat, 4));
    assert(raw.subrange(12, 16) =~= be_bytes(f.sn as nat, 4));
    assert(raw.subrange(16, 20) =~= be_bytes(f.una as nat, 4));
    assert(raw.subrange(20, 24) =~= be_bytes(f.len as nat, 4));
}

proof fn lemma_pow256()
    ensures
        vstd::arithmetic::power::pow(256, 2) == 0x1_0000,
        vstd::arithmetic::power::pow(256, 4) == 0x1_0000_0000,
{
    reveal_with_fuel(vstd::arithmetic::power::pow, 5);
}

/// Reading what was written gives the frame back, the payload with it unless
/// the `len` field is zero.
pub proof fn law_decode_of_encode(f: FrameView)
    ensures
        encode(f).len() >= HEADER_LEN,
        decode(encode(f)) == (FrameView {
            data: if f.len == 0 {
                Seq::empty()
            } else {
                f.data
            },
            ..f
        }),
        wire_safe(f) ==> decode(encode(f)) == f,
{
    let tail = if f.len == 0 {
        Seq::<u8>::empty()
    } else {
        f.data
    };
    let raw = header_bytes(f) + tail;
    assert(encode(f) =~= raw);
    lemma_header(f, tail);
    lemma_pow256();
    law_be_value_of_bytes(f.conv as nat, 4);
    law_be_value_of_bytes(f.wnd as nat, 2);
    law_be_value_of_bytes(f.ts as nat, 4);
    law_be_value_of_bytes(f.sn as nat, 4);
    law_be_value_of_bytes(f.una as nat, 4);
    law_be_value_of_bytes(f.len as nat, 4);
    assert(raw.skip(24) =~= tail);
    if wire_safe(f) {
        assert(f.data =~= tail);
    }
}

/// Writing what was read gives the datagram back, unless its `len` field is zero
/// and bytes follow the header all the same.
pub proof fn law_encode_of_decode(raw: Seq<u8>)
    requires
        raw.len() >= HEADER_LEN,
        decode(raw).len == 0 ==> raw.len() == HEADER_LEN,
    ensures
        encode(decode(raw)) == raw,
{
    let f = decode(raw);
    lemma_be_value_bound(raw.subrange(0, 4));
    lemma_be_value_bound(raw.subrange(6, 8));
    lemma_be_value_bound(raw.subrange(8, 12));
    lemma_be_value_bound(raw.subrange(12, 16));
    lemma_be_value_bound(raw.subrange(16, 20));
    lemma_be_value_bound(raw.subrange(20, 24));
    lemma_pow256();
    law_be_bytes_of_value(raw.subrange(0, 4));
    law_be_bytes_of_value(raw.subrange(6, 8));
    law_be_bytes_of_value(raw.subrange(8, 12));
    law_be_bytes_of_value(raw.subrange(12, 16));
    law_be_bytes_of_value(raw.subrange(16, 20));
    law_be_bytes_of_value(raw.subrange(20, 24));
    assert(header_bytes(f) =~= raw.take(24));
    assert(encode(f) =~= raw);
}

/// The number that four bytes of `raw` from `i` on write, most significant first.
pub open spec fn word_at(raw: Seq<u8>, i: int) -> int {
    raw[i] * 0x100_0000 + raw[i + 1] * 0x1_0000 + raw[i + 2] * 0x100 + raw[i + 3]
}

proof fn lemma_word(raw: Seq<u8>, i: int)
    requires
        0 <= i,
        i + 4 <= raw.len(),
    ensures
        be_value(raw.subrange(i, i + 4)) == word_at(raw, i),
        0 <= word_at(raw, i) <= u32::MAX,
{
    let s = raw.subrange(i, i + 4);
    let s3 = s.drop_last();
    let s2 = s3.drop_last();
    let s1 = s2.drop_last();
    assert(s1.drop_last() =~= Seq::empty());
    reveal_with_fuel(be_value, 5);
    assert(be_value(s1) == raw[i]);
    assert(be_value(s2) == raw[i] * 256 + raw[i + 1]);
    assert(be_value(s3) == (raw[i] * 256 + raw[i + 1]) * 256 + raw[i + 2]);
}

/// Where the fields of a frame stand in a datagram of at least a header: `conv`,
/// `cmd`, `frg`, `wnd`, `ts`, `sn`, `una`, `len`, each most significant byte first.
/// What follows is the payload, unless `len` is zero.
pub proof fn law_fields(raw: Seq<u8>)
    requires
        raw.len() >= 24,
    ensures
        ({
            let f = decode(raw);
            &&& f.conv == word_at(raw, 0)
            &&& f.cmd == raw[4] && f.frg == raw[5]
            &&& f.wnd == raw[6] * 0x100 + raw[7]
            &&& f.ts == word_at(raw, 8)
            &&& f.sn == word_at(raw, 12)
            &&& f.una == word_at(raw, 16)
            &&& f.len == word_at(raw, 20)
            &&& f.len == 0 ==> f.data.len() == 0
            &&& f.len != 0 ==> f.data.len() == raw.len() - 24 && forall|i: int|
                0 <= i < f.data.len() ==> #[trigger] f.data[i] == raw[24 + i]
        }),
{
    lemma_word(raw, 0);
    lemma_word(raw, 8);
    lemma_word(raw, 12);
    lemma_word(raw, 16);
    lemma_word(raw, 20);
    let s = raw.subrange(6, 8);
    reveal_with_fuel(be_value, 3);
    assert(s.drop_last().drop_last() =~= Seq::empty());
    assert(be_value(s.drop_last()) == raw[6]);
}

/// The datagram of a frame holds its fields at the same places, and its payload
/// behind the header unless `len` is zero.
pub proof fn law_layout(f: FrameView)
    ensures
        ({
            let raw = encode(f);
            &&& raw.len() == 24 + if f.len == 0 {
                0
            } else {
                f.data.len()
            }
            &&& word_at(raw, 0) == f.conv
            &&& raw[4] == f.cmd && raw[5] == f.frg
            &&& raw[6] * 0x100 + raw[7] == f.wnd
            &&& word_at(raw, 8) == f.ts
            &&& word_at(raw, 12) == f.sn
            &&& word_at(raw, 16) == f.una
            &&& word_at(raw, 20) == f.len
            &&& forall|i: int| 24 <= i < raw.len() ==> #[trigger] raw[i] == f.data[i - 24]
        }),
{
    law_decode_of_encode(f);
    law_fields(encode(f));
    lemma_header(f, Seq::empty());
}

/// The numbers that both ends of a stream have to agree on: the two commands, the
/// length of the header, and the most that one segment carries.
pub proof fn law_agreed_numbers()
    ensures
        CMD_PUSH == 0,
        CMD_ACK == 1,
        HEADER_LEN == 24,
        MTU == 1400,
        MSS == 2,
{
}

} // verus!
