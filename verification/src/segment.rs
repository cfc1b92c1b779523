//! Segments: the numbered pieces that a connection sends and receives.

use vstd::prelude::*;

use crate::frame::{FrameView, NcpFrame, CMD_ACK, CMD_PUSH};

verus! {

/// How far a segment has come.
#[derive(Debug, Clone, Copy, PartialEq, Eq, Structural)]
pub enum SegState {
    /// Not transmitted yet, or received.
    Init,
    /// Transmitted, not acknowledged.
    WaitAck,
    /// Acknowledged.
    Sent,
}

/// A numbered piece of the stream. A segment without data closes the stream.
#[derive(Debug)]
pub struct NcpSegment {
    pub seg_no: u32,
    pub state: SegState,
    pub timestamp: u32,
    pub rexmit_timestamp: u32,
    pub data: Option<Vec<u8>>,
}

/// The contents of an `NcpSegment`.
#[verifier::ext_equal]
pub struct SegView {
    pub seg_no: u32,
    pub state: SegState,
    pub timestamp: u32,
    pub rexmit_timestamp: u32,
    pub data: Option<Seq<u8>>,
}

/// The bytes of an optional vector.
pub open spec fn opt_bytes(data: Option<Vec<u8>>) -> Option<Seq<u8>> {
    match data {
        Some(d) => Some(d@),
        None => None,
    }
}

impl View for NcpSegment {
    type V = SegView;

    open spec fn view(&self) -> SegView {
        SegView {
            seg_no: self.seg_no,
            state: self.state,
            timestamp: self.timestamp,
            rexmit_timestamp: self.rexmit_timestamp,
            data: opt_bytes(self.data),
        }
    }
}

/// The contents of a sequence of segments.
pub open spec fn segs(s: Seq<NcpSegment>) -> Seq<SegView> {
    s.map_values(|x: NcpSegment| x@)
}

/// The frame that carries `s`. The `len` field holds the payload's length modulo
/// two to the power of 32.
pub open spec fn push_frame(s: SegView) -> FrameView {
    let data = match s.data {
        Some(d) => d,
        None => Seq::empty(),
    };
    FrameView {
        conv: 0,
        cmd: CMD_PUSH,
        frg: 0,
        wnd: 0,
        ts: s.timestamp,
        sn: s.seg_no,
        una: 0,
        len: (data.len() % 0x1_0000_0000) as u32,
        data,
    }
}

/// The frame that acknowledges segment `seg_no` and all those before `recv_next`.
pub open spec fn ack_frame_view(seg_no: u32, recv_next: u32) -> FrameView {
    FrameView {
        conv: 0,
        cmd: CMD_ACK,
        frg: 0,
        wnd: 0,
        ts: 0,
        sn: seg_no,
        una: recv_next,
        len: 0,
        data: Seq::empty(),
    }
}

/// The segment that a received frame carries. One without payload closes the
/// stream.
pub open spec fn received(f: FrameView) -> SegView {
    SegView {
        seg_no: f.sn,
        state: SegState::Init,
        timestamp: f.ts,
        rexmit_timestamp: 0,
        data: if f.data.len() == 0 {
            None
        } else {
            Some(f.data)
        },
    }
}

/// The frame that carries `seg`.
pub fn segment_frame(seg: &NcpSegment) -> (frame: NcpFrame)
    ensures
        frame@ == push_frame(seg@),
        frame.cmd == CMD_PUSH,
        frame.sn == seg.seg_no,
        frame.ts == seg.timestamp,
{
    let data = match &seg.data {
        Some(d) => d.clone(),
        None => Vec::new(),
    };
    let wide: u64 = data.len() as u64;
    assert(wide as u32 == wide % 0x1_0000_0000) by (bit_vector);
    let len: u32 = #[verifier::truncate] (wide as u32);
    assert(data@ =~= push_frame(seg@).data);
    NcpFrame {
        conv: 0,
        cmd: CMD_PUSH,
        frg: 0,
        wnd: 0,
        ts: seg.timestamp,
        sn: seg.seg_no,
        una: 0,
        len,
        data,
    }
}

/// The frame that acknowledges segment `seg_no` and all those before `recv_next`.
pub fn ack_frame(seg_no: u32, recv_next: u32) -> (frame: NcpFrame)
    ensures
        frame@ == ack_frame_view(seg_no, recv_next),
        frame.cmd == CMD_ACK,
        frame.sn == seg_no,
        frame.una == recv_next,
{
    NcpFrame {
        conv: 0,
        cmd: CMD_ACK,
        frg: 0,
        wnd: 0,
        ts: 0,
        sn: seg_no,
        una: recv_next,
        len: 0,
        data: Vec::new(),
    }
}

} // verus!
