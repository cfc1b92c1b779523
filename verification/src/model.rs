//! What a connection is and does, as mathematics.

use vstd::prelude::*;

use crate::frame::{FrameView, CMD_ACK, CMD_PUSH};
use crate::segment::{ack_frame_view, push_frame, received, SegState, SegView};
use crate::stream::{ReadNoty, ReaderTry, WriterNoty};
use crate::timing::{i32diff_ok, signed, Rtt};

verus! {

/// The contents of an `NcpStreamInner`.
#[verifier::ext_equal]
pub struct InnerView {
    /// The segments that may still be written.
    pub write_wnd: i16,
    /// The bound on waiting segments up to which new ones are transmitted.
    pub send_wnd_limit: u32,
    /// The number of the next segment to be written.
    pub send_sn: u32,
    /// The number of the oldest segment that is not acknowledged.
    pub send_una: u32,
    pub send_next: u32,
    /// The segments that were written and not transmitted, oldest first.
    pub send_queue: Seq<SegView>,
    /// The segments that were transmitted, oldest first.
    pub send_buf: Seq<SegView>,
    /// The number of the next segment for the reader.
    pub recv_next: u32,
    /// The segments that were received and not read, by number.
    pub recv_buf: Seq<SegView>,
    pub now: u32,
    pub closing: bool,
    pub closing_sn: u32,
    pub rto: u32,
    pub srtt: u32,
    pub rttval: u32,
}

/// The contents of a `HandleMsg`.
pub enum MsgView {
    RecvData(FrameView),
    WriteData(Seq<u8>),
    CheckResend,
    Close,
}

/// The contents of an `Action`.
pub enum ActionView {
    Push(FrameView),
    Ack(FrameView),
    Notify(WriterNoty),
}

/// Whether `s` holds segment `sn`.
pub open spec fn has_seg(s: Seq<SegView>, sn: u32) -> bool {
    exists|i: int| 0 <= i < s.len() && (#[trigger] s[i]).seg_no == sn
}

/// How many segments of `s` come before number `sn`.
pub open spec fn count_below(s: Seq<SegView>, sn: u32) -> nat
    decreases s.len(),
{
    if s.len() == 0 {
        0
    } else {
        count_below(s.drop_last(), sn) + if s.last().seg_no < sn {
            1nat
        } else {
            0nat
        }
    }
}

/// Whether the acknowledgement `f` covers `s`.
pub open spec fn covers(f: FrameView, s: SegView) -> bool {
    s.seg_no == f.sn || s.seg_no < f.una
}

/// `s` after the acknowledgement `f`.
pub open spec fn mark(f: FrameView, s: SegView) -> SegView {
    if covers(f, s) {
        SegView { state: SegState::Sent, ..s }
    } else {
        s
    }
}

/// All of `s` after the acknowledgement `f`.
pub open spec fn mark_all(f: FrameView, s: Seq<SegView>) -> Seq<SegView> {
    s.map_values(|x: SegView| mark(f, x))
}

/// The age of the last segment of `s` that the acknowledgement `f` covers; zero
/// where it covers none.
pub open spec fn ack_sample(f: FrameView, s: Seq<SegView>, now: u32) -> int
    decreases s.len(),
{
    if s.len() == 0 {
        0
    } else if covers(f, s.last()) {
        now - s.last().timestamp
    } else {
        ack_sample(f, s.drop_last(), now)
    }
}

/// How many segments at the head of `s` are acknowledged.
pub open spec fn sent_prefix(s: Seq<SegView>) -> nat
    decreases s.len(),
{
    if s.len() == 0 || s[0].state != SegState::Sent {
        0
    } else {
        1 + sent_prefix(s.skip(1))
    }
}

/// What the writer is told when what it wrote as `data` is acknowledged, `None` for
/// a close.
pub open spec fn piece_noty(data: Option<Seq<u8>>) -> WriterNoty {
    if data is Some {
        WriterNoty::WindowInc(1)
    } else {
        WriterNoty::Closed
    }
}

/// What the writer is told when `s` leaves the send buffer.
pub open spec fn ack_noty(s: SegView) -> WriterNoty {
    piece_noty(s.data)
}

/// `s` as it is transmitted for the first time.
pub open spec fn launched(s: SegView, now: u32) -> SegView {
    SegView { state: SegState::WaitAck, timestamp: now, ..s }
}

/// All of `s` as it is transmitted for the first time.
pub open spec fn launch_all(s: Seq<SegView>, now: u32) -> Seq<SegView> {
    s.map_values(|x: SegView| launched(x, now))
}

/// The actions that transmit all of `s`.
pub open spec fn push_all(s: Seq<SegView>) -> Seq<ActionView> {
    s.map_values(|x: SegView| ActionView::Push(push_frame(x)))
}

/// Whether the retransmission time of `s` has come.
pub open spec fn due(s: SegView, now: u32) -> bool {
    signed(now) - signed(s.rexmit_timestamp) >= 0
}

impl InnerView {
    /// The segments that were written and not acknowledged, oldest first.
    pub open spec fn outstanding(self) -> Seq<SegView> {
        self.send_buf + self.send_queue
    }

    /// The invariant of a connection.
    pub open spec fn wf(self) -> bool {
        // What is outstanding is numbered without a gap up to the next number.
        &&& self.send_una + self.outstanding().len() == self.send_sn
        &&& forall|i: int|
            0 <= i < self.outstanding().len() ==> (#[trigger] self.outstanding()[i]).seg_no
                == self.send_una + i
        // The queue holds what was never transmitted, the buffer what was.
        &&& forall|i: int|
            0 <= i < self.send_queue.len() ==> (#[trigger] self.send_queue[i]).state
                == SegState::Init
        &&& forall|i: int|
            0 <= i < self.send_buf.len() ==> (#[trigger] self.send_buf[i]).state
                != SegState::Init
        // Nothing acknowledged waits at the head of the buffer.
        &&& self.send_buf.len() > 0 ==> self.send_buf[0].state == SegState::WaitAck
        // What was received is in order, without doubles, and not read yet.
        &&& forall|i: int, j: int|
            0 <= i < j < self.recv_buf.len() ==> (#[trigger] self.recv_buf[i]).seg_no < (
            #[trigger] self.recv_buf[j]).seg_no
        &&& forall|i: int|
            0 <= i < self.recv_buf.len() ==> (#[trigger] self.recv_buf[i]).seg_no
                >= self.recv_next
        &&& 200 <= self.rto <= 30000
        &&& self.send_wnd_limit < u32::MAX
    }

    /// The same state at time `now`.
    pub open spec fn at(self, now: u32) -> InnerView {
        InnerView { now, ..self }
    }

    /// The round-trip state.
    pub open spec fn rtt(self) -> Rtt {
        Rtt { srtt: self.srtt as int, rttval: self.rttval as int }
    }

    /// The state after the round-trip sample `rtt`.
    pub open spec fn sampled(self, rtt: int) -> InnerView {
        let next = self.rtt().sampled(rtt);
        InnerView {
            srtt: next.srtt as u32,
            rttval: next.rttval as u32,
            rto: next.rto() as u32,
            ..self
        }
    }

    /// Whether a received segment `sn` is new.
    pub open spec fn is_new(self, sn: u32) -> bool {
        sn >= self.recv_next && !has_seg(self.recv_buf, sn)
    }

    /// The state after a frame with a segment: a new one is stored in its place.
    pub open spec fn after_push(self, f: FrameView) -> InnerView {
        if self.is_new(f.sn) {
            InnerView {
                recv_buf: self.recv_buf.insert(
                    count_below(self.recv_buf, f.sn) as int,
                    received(f),
                ),
                ..self
            }
        } else {
            self
        }
    }

    /// How many segments leave the send buffer at the acknowledgement `f`.
    pub open spec fn ack_count(self, f: FrameView) -> nat {
        sent_prefix(mark_all(f, self.send_buf))
    }

    /// Whether the arithmetic of the acknowledgement `f` stays in range.
    pub open spec fn ack_ok(self, f: FrameView) -> bool {
        let sample = ack_sample(f, self.send_buf, self.now);
        &&& forall|i: int|
            0 <= i < self.send_buf.len() && covers(f, #[trigger] self.send_buf[i])
                ==> self.send_buf[i].timestamp <= self.now
        &&& sample > 0 ==> self.rtt().sample_ok(sample)
        &&& self.write_wnd + self.ack_count(f) <= i16::MAX
    }

    /// The state after the acknowledgement `f`: the segments it covers are marked,
    /// those marked at the head leave and open the window, and the age of the
    /// last one covered is a round-trip sample.
    pub open spec fn after_ack(self, f: FrameView) -> InnerView {
        let sample = ack_sample(f, self.send_buf, self.now);
        let timed = if sample > 0 {
            self.sampled(sample)
        } else {
            self
        };
        let n = self.ack_count(f);
        InnerView {
            send_buf: mark_all(f, self.send_buf).skip(n as int),
            send_una: (self.send_una + n) as u32,
            write_wnd: (self.write_wnd + n) as i16,
            ..timed
        }
    }

    /// What the writer is told at the acknowledgement `f`.
    pub open spec fn ack_actions(self, f: FrameView) -> Seq<ActionView> {
        mark_all(f, self.send_buf).take(self.ack_count(f) as int).map_values(
            |s: SegView| ActionView::Notify(ack_noty(s)),
        )
    }

    /// The segment that a write of `data`, or a close, makes.
    pub open spec fn new_seg(self, data: Option<Seq<u8>>) -> SegView {
        SegView {
            seg_no: self.send_sn,
            state: SegState::Init,
            timestamp: self.now,
            rexmit_timestamp: (self.now + self.rto + self.rto / 8) as u32,
            data,
        }
    }

    /// Whether the arithmetic of a write, or of a close, stays in range.
    pub open spec fn write_ok(self, data: Option<Seq<u8>>) -> bool {
        &&& self.send_sn < u32::MAX
        &&& self.now + self.rto + self.rto / 8 <= u32::MAX
        &&& data is Some ==> self.write_wnd > i16::MIN
    }

    /// The state after a write of `data`, or after a close. Only data takes from
    /// the window.
    pub open spec fn after_write(self, data: Option<Seq<u8>>) -> InnerView {
        InnerView {
            send_sn: (self.send_sn + 1) as u32,
            send_queue: self.send_queue.push(self.new_seg(data)),
            write_wnd: if data is Some {
                (self.write_wnd - 1) as i16
            } else {
                self.write_wnd
            },
            ..self
        }
    }

    /// Whether every retransmission time can be held against the clock.
    pub open spec fn resend_ok(self) -> bool {
        forall|i: int|
            0 <= i < self.send_buf.len() ==> i32diff_ok(
                self.now,
                (#[trigger] self.send_buf[i]).rexmit_timestamp,
            )
    }

    /// The actions that transmit again what is due.
    pub open spec fn resend_actions(self) -> Seq<ActionView> {
        push_all(self.send_buf.filter(|s: SegView| due(s, self.now)))
    }

    /// Whether the window lets the queue go out: all of it or nothing.
    pub open spec fn can_flush(self) -> bool {
        self.outstanding().len() <= 2 + self.send_wnd_limit
    }

    /// The state after the queue had its chance to go out.
    pub open spec fn after_flush(self) -> InnerView {
        if self.can_flush() {
            InnerView {
                send_buf: self.send_buf + launch_all(self.send_queue, self.now),
                send_queue: Seq::empty(),
                ..self
            }
        } else {
            self
        }
    }

    /// The actions that let the queue go out.
    pub open spec fn flush_actions(self) -> Seq<ActionView> {
        if self.can_flush() {
            push_all(launch_all(self.send_queue, self.now))
        } else {
            Seq::empty()
        }
    }

    /// Whether `msg` is a segment that the reader already has.
    pub open spec fn stale(self, msg: MsgView) -> bool {
        msg matches MsgView::RecvData(f) && f.cmd == CMD_PUSH && f.sn < self.recv_next
    }

    /// Whether `msg` can be handled at time `now`: its command is known and its
    /// arithmetic stays in range.
    pub open spec fn admits(self, msg: MsgView, now: u32) -> bool {
        match msg {
            MsgView::RecvData(f) => f.cmd == CMD_PUSH || (f.cmd == CMD_ACK && self.at(
                now,
            ).ack_ok(f)),
            MsgView::WriteData(d) => self.at(now).write_ok(Some(d)),
            MsgView::CheckResend => self.at(now).resend_ok(),
            MsgView::Close => self.at(now).write_ok(None),
        }
    }

    /// The state after `msg`, before the queue goes out.
    pub open spec fn after_msg(self, msg: MsgView) -> InnerView {
        match msg {
            MsgView::RecvData(f) => if f.cmd == CMD_PUSH {
                self.after_push(f)
            } else {
                self.after_ack(f)
            },
            MsgView::WriteData(d) => self.after_write(Some(d)),
            MsgView::CheckResend => self,
            MsgView::Close => self.after_write(None),
        }
    }

    /// What `msg` itself calls for.
    pub open spec fn msg_actions(self, msg: MsgView) -> Seq<ActionView> {
        match msg {
            MsgView::RecvData(f) => if f.cmd == CMD_PUSH {
                seq![ActionView::Ack(ack_frame_view(f.sn, self.recv_next))]
            } else {
                self.ack_actions(f)
            },
            MsgView::WriteData(_) => Seq::empty(),
            MsgView::CheckResend => self.resend_actions(),
            MsgView::Close => Seq::empty(),
        }
    }

    /// The state after `msg` at time `now`. After a segment that the reader
    /// already has the queue is left alone.
    pub open spec fn step(self, msg: MsgView, now: u32) -> InnerView {
        if self.stale(msg) {
            self.at(now)
        } else {
            self.at(now).after_msg(msg).after_flush()
        }
    }

    /// What is to be done at `msg`, in order.
    pub open spec fn step_actions(self, msg: MsgView, now: u32) -> Seq<ActionView> {
        if self.stale(msg) {
            self.at(now).msg_actions(msg)
        } else {
            self.at(now).msg_actions(msg) + self.at(now).after_msg(msg).flush_actions()
        }
    }

    /// Whether the next segment for the reader is there.
    pub open spec fn ready(self) -> bool {
        self.recv_buf.len() > 0 && self.recv_buf[0].seg_no == self.recv_next
    }

    /// The state with `data` in the first received segment.
    pub open spec fn with_head_data(self, data: Option<Seq<u8>>) -> InnerView {
        InnerView {
            recv_buf: self.recv_buf.update(0, SegView { data, ..self.recv_buf[0] }),
            ..self
        }
    }

    /// The state with `noty` back in the first received segment.
    pub open spec fn put_back(self, noty: ReadNoty) -> InnerView {
        match noty {
            ReadNoty::Data(d) => self.with_head_data(Some(d@)),
            ReadNoty::Eof => self,
        }
    }

    /// The state after the first received segment was handed to the reader's channel
    /// with the outcome `seen`.
    pub open spec fn after_try(self, seen: ReaderTry) -> InnerView {
        match seen {
            ReaderTry::Took => self.after_took(),
            ReaderTry::Full(noty) => self.put_back(noty),
            ReaderTry::Gone => self,
        }
    }

    /// The state after the reader took the next segment.
    pub open spec fn after_took(self) -> InnerView {
        InnerView {
            recv_buf: self.recv_buf.skip(1),
            recv_next: (self.recv_next + 1) as u32,
            ..self
        }
    }
}

/// The state of a connection on which nothing has happened.
pub open spec fn initial() -> InnerView {
    InnerView {
        write_wnd: 64,
        send_wnd_limit: 64,
        send_sn: 0,
        send_una: 0,
        send_next: 0,
        send_queue: Seq::empty(),
        send_buf: Seq::empty(),
        recv_next: 0,
        recv_buf: Seq::empty(),
        now: 0,
        closing: false,
        closing_sn: 0,
        rto: 200,
        srtt: 0,
        rttval: 0,
    }
}

pub proof fn lemma_count_below(s: Seq<SegView>, sn: u32, idx: int)
    requires
        0 <= idx <= s.len(),
        forall|i: int| 0 <= i < idx ==> (#[trigger] s[i]).seg_no < sn,
        forall|i: int| idx <= i < s.len() ==> (#[trigger] s[i]).seg_no >= sn,
    ensures
        count_below(s, sn) == idx,
    decreases s.len(),
{
    if s.len() > 0 {
        let t = s.drop_last();
        assert forall|i: int| 0 <= i < t.len() implies t[i] == s[i] by {}
        if idx == s.len() {
            lemma_count_below(t, sn, idx - 1);
        } else {
            lemma_count_below(t, sn, idx);
        }
    }
}

/// Taking in a segment keeps the invariant.
pub proof fn law_push_keeps_wf(v: InnerView, f: FrameView)
    requires
        v.wf(),
    ensures
        v.after_push(f).wf(),
{
    let w = v.after_push(f);
    assert(w.outstanding() =~= v.outstanding());
    if v.is_new(f.sn) {
        let k = lemma_rank(v.recv_buf, f.sn);
        lemma_count_below(v.recv_buf, f.sn, k);
        assert forall|i: int| 0 <= i < v.recv_buf.len() implies (
        #[trigger] v.recv_buf[i]).seg_no != f.sn by {}
        assert forall|i: int, j: int| 0 <= i < j < w.recv_buf.len() implies (
        #[trigger] w.recv_buf[i]).seg_no < (#[trigger] w.recv_buf[j]).seg_no by {
            let i0 = if i < k { i } else { i - 1 };
            let j0 = if j < k { j } else { j - 1 };
            if i != k {
                assert(w.recv_buf[i] == v.recv_buf[i0]);
            }
            if j != k {
                assert(w.recv_buf[j] == v.recv_buf[j0]);
            }
        }
        assert forall|i: int| 0 <= i < w.recv_buf.len() implies (
        #[trigger] w.recv_buf[i]).seg_no >= w.recv_next by {
            let i0 = if i < k { i } else { i - 1 };
            if i != k {
                assert(w.recv_buf[i] == v.recv_buf[i0]);
            }
        }
    }
}

/// Where a sorted sequence of segments passes number `sn`.
pub proof fn lemma_rank(s: Seq<SegView>, sn: u32) -> (k: int)
    requires
        forall|i: int, j: int|
            0 <= i < j < s.len() ==> (#[trigger] s[i]).seg_no < (#[trigger] s[j]).seg_no,
    ensures
        0 <= k <= s.len(),
        forall|i: int| 0 <= i < k ==> (#[trigger] s[i]).seg_no < sn,
        forall|i: int| k <= i < s.len() ==> (#[trigger] s[i]).seg_no >= sn,
    decreases s.len(),
{
    if s.len() == 0 || s.last().seg_no < sn {
        assert forall|i: int| 0 <= i < s.len() implies (#[trigger] s[i]).seg_no < sn by {
            if i < s.len() - 1 {
                assert(s[i].seg_no < s[s.len() - 1].seg_no);
            }
        }
        s.len() as int
    } else {
        let t = s.drop_last();
        assert forall|i: int| 0 <= i < t.len() implies t[i] == s[i] by {}
        lemma_rank(t, sn)
    }
}

pub proof fn lemma_sent_prefix(s: Seq<SegView>)
    ensures
        sent_prefix(s) <= s.len(),
        forall|i: int|
            0 <= i < sent_prefix(s) ==> (#[trigger] s[i]).state == SegState::Sent,
        sent_prefix(s) < s.len() ==> s[sent_prefix(s) as int].state != SegState::Sent,
    decreases s.len(),
{
    if s.len() > 0 && s[0].state == SegState::Sent {
        let t = s.skip(1);
        lemma_sent_prefix(t);
        assert forall|i: int| 0 <= i < sent_prefix(s) implies (#[trigger] s[i]).state
            == SegState::Sent by {
            if i > 0 {
                assert(t[i - 1] == s[i]);
            }
        }
    }
}

/// Taking in an acknowledgement keeps the invariant.
pub proof fn law_ack_keeps_wf(v: InnerView, f: FrameView)
    requires
        v.wf(),
        v.ack_ok(f),
    ensures
        v.after_ack(f).wf(),
{
    let w = v.after_ack(f);
    let m = mark_all(f, v.send_buf);
    let n = v.ack_count(f) as int;
    lemma_sent_prefix(m);
    assert forall|i: int| 0 <= i < w.outstanding().len() implies (
    #[trigger] w.outstanding()[i]).seg_no == w.send_una + i by {
        assert(w.outstanding()[i].seg_no == v.outstanding()[i + n].seg_no);
    }
    assert forall|i: int| 0 <= i < w.send_buf.len() implies (#[trigger] w.send_buf[i]).state
        != SegState::Init by {
        assert(w.send_buf[i] == mark(f, v.send_buf[i + n]));
    }
    if w.send_buf.len() > 0 {
        assert(w.send_buf[0] == m[n]);
    }
}

/// A write, or a close, keeps the invariant.
pub proof fn law_write_keeps_wf(v: InnerView, data: Option<Seq<u8>>)
    requires
        v.wf(),
        v.write_ok(data),
    ensures
        v.after_write(data).wf(),
{
    let w = v.after_write(data);
    assert(w.outstanding() =~= v.outstanding().push(v.new_seg(data)));
}

/// Letting the queue go out keeps the invariant.
pub proof fn law_flush_keeps_wf(v: InnerView)
    requires
        v.wf(),
    ensures
        v.after_flush().wf(),
{
    let w = v.after_flush();
    assert(w.outstanding().len() == v.outstanding().len());
    assert forall|i: int| 0 <= i < w.outstanding().len() implies (
    #[trigger] w.outstanding()[i]).seg_no == w.send_una + i by {
        assert(w.outstanding()[i].seg_no == v.outstanding()[i].seg_no);
    }
    if v.can_flush() && v.send_buf.len() > 0 {
        assert(w.send_buf[0] == v.send_buf[0]);
    }
}

/// Every message that can be handled keeps the invariant.
pub proof fn law_step_keeps_wf(v: InnerView, msg: MsgView, now: u32)
    requires
        v.wf(),
        v.admits(msg, now),
    ensures
        v.step(msg, now).wf(),
{
    let t = v.at(now);
    assert(t.outstanding() =~= v.outstanding());
    assert(t.wf());
    match msg {
        MsgView::RecvData(f) => {
            if f.cmd == CMD_PUSH {
                law_push_keeps_wf(t, f);
            } else {
                law_ack_keeps_wf(t, f);
            }
        },
        MsgView::WriteData(d) => {
            law_write_keeps_wf(t, Some(d));
        },
        MsgView::CheckResend => {},
        MsgView::Close => {
            law_write_keeps_wf(t, None);
        },
    }
    law_flush_keeps_wf(t.after_msg(msg));
}

/// Serving the reader keeps the invariant.
pub proof fn law_took_keeps_wf(v: InnerView)
    requires
        v.wf(),
        v.ready(),
        v.recv_next < u32::MAX,
    ensures
        v.after_took().wf(),
{
    let w = v.after_took();
    assert(w.outstanding() =~= v.outstanding());
    assert forall|i: int| 0 <= i < w.recv_buf.len() implies (#[trigger] w.recv_buf[i]).seg_no
        >= w.recv_next by {
        assert(v.recv_buf[0].seg_no < v.recv_buf[i + 1].seg_no);
    }
}

pub proof fn lemma_head_data_keeps_wf(v: InnerView, data: Option<Seq<u8>>)
    requires
        v.wf(),
        v.recv_buf.len() > 0,
    ensures
        v.with_head_data(data).wf(),
{
    let w = v.with_head_data(data);
    assert(w.outstanding() =~= v.outstanding());
    assert forall|i: int| 0 <= i < w.recv_buf.len() implies (#[trigger] w.recv_buf[i]).seg_no
        == v.recv_buf[i].seg_no by {}
}

} // verus!
