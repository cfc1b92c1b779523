//! The state machine of one connection.

use std::collections::VecDeque;
use vstd::prelude::*;

use crate::frame::{NcpFrame, CMD_ACK, CMD_PUSH};
use crate::model::{
    ack_noty, ack_sample, covers, due, has_seg, initial, launch_all, law_ack_keeps_wf,
    law_flush_keeps_wf, law_push_keeps_wf, law_took_keeps_wf, law_write_keeps_wf,
    lemma_count_below, lemma_head_data_keeps_wf, mark, mark_all, push_all, sent_prefix, ActionView,
    InnerView, MsgView,
};
use crate::segment::{
    ack_frame, ack_frame_view, opt_bytes, push_frame, received, segment_frame, segs, NcpSegment,
    SegState, SegView,
};
use crate::stream::{noty_payload, read_next, ReadNext, ReadNoty, ReaderTry, WriteCmd, WriterNoty};
use crate::timing::{i32diff, i32diff_fits, i32diff_ok, sample_fits, MAX_INTERVAL};

verus! {

/// The state of one connection.
pub struct NcpStreamInner {
    pub write_wnd: i16,
    pub send_wnd_limit: u32,
    pub send_sn: u32,
    pub send_una: u32,
    pub send_next: u32,
    pub send_queue: VecDeque<NcpSegment>,
    pub send_buf: VecDeque<NcpSegment>,
    pub recv_next: u32,
    pub recv_buf: VecDeque<NcpSegment>,
    pub now: u32,
    pub closing: bool,
    pub closing_sn: u32,
    pub rto: u32,
    pub srtt: u32,
    pub rttval: u32,
}

impl View for NcpStreamInner {
    type V = InnerView;

    open spec fn view(&self) -> InnerView {
        InnerView {
            write_wnd: self.write_wnd,
            send_wnd_limit: self.send_wnd_limit,
            send_sn: self.send_sn,
            send_una: self.send_una,
            send_next: self.send_next,
            send_queue: segs(self.send_queue@),
            send_buf: segs(self.send_buf@),
            recv_next: self.recv_next,
            recv_buf: segs(self.recv_buf@),
            now: self.now,
            closing: self.closing,
            closing_sn: self.closing_sn,
            rto: self.rto,
            srtt: self.srtt,
            rttval: self.rttval,
        }
    }
}

/// What a connection reacts to.
#[derive(Debug)]
pub enum HandleMsg {
    /// A datagram has come in.
    RecvData(NcpFrame),
    /// The writer has a segment.
    WriteData(Vec<u8>),
    /// It is time to look for segments to transmit again.
    CheckResend,
    /// The writer closes the stream.
    Close,
}

impl View for HandleMsg {
    type V = MsgView;

    open spec fn view(&self) -> MsgView {
        match *self {
            HandleMsg::RecvData(f) => MsgView::RecvData(f@),
            HandleMsg::WriteData(d) => MsgView::WriteData(d@),
            HandleMsg::CheckResend => MsgView::CheckResend,
            HandleMsg::Close => MsgView::Close,
        }
    }
}

/// The message that a command of the writer makes.
pub fn command_msg(cmd: WriteCmd) -> (msg: HandleMsg)
    ensures
        msg@ == match cmd {
            WriteCmd::Data(d) => MsgView::WriteData(d@),
            WriteCmd::Close => MsgView::Close,
        },
{
    match cmd {
        WriteCmd::Data(d) => HandleMsg::WriteData(d),
        WriteCmd::Close => HandleMsg::Close,
    }
}

/// What a connection wants done.
#[derive(Debug)]
pub enum Action {
    /// Send this frame to the peer of the connection.
    Push(NcpFrame),
    /// Send this frame to where the last datagram came from.
    Ack(NcpFrame),
    /// Tell the writer.
    Notify(WriterNoty),
}

impl View for Action {
    type V = ActionView;

    open spec fn view(&self) -> ActionView {
        match *self {
            Action::Push(f) => ActionView::Push(f@),
            Action::Ack(f) => ActionView::Ack(f@),
            Action::Notify(n) => ActionView::Notify(n),
        }
    }
}

/// The contents of a sequence of actions.
pub open spec fn action_views(s: Seq<Action>) -> Seq<ActionView> {
    s.map_values(|a: Action| a@)
}

/// A view holds what its value holds, field by field and item by item.
pub proof fn law_views(
    inner: NcpStreamInner,
    msg: HandleMsg,
    actions: Seq<Action>,
    queue: Seq<NcpSegment>,
)
    ensures
        ({
            let v = inner@;
            &&& v.write_wnd == inner.write_wnd && v.send_wnd_limit == inner.send_wnd_limit
            &&& v.send_sn == inner.send_sn && v.send_una == inner.send_una
            &&& v.send_next == inner.send_next && v.recv_next == inner.recv_next
            &&& v.send_queue == segs(inner.send_queue@) && v.send_buf == segs(inner.send_buf@)
            &&& v.recv_buf == segs(inner.recv_buf@)
            &&& v.now == inner.now && v.closing == inner.closing
            &&& v.closing_sn == inner.closing_sn
            &&& v.rto == inner.rto && v.srtt == inner.srtt && v.rttval == inner.rttval
        }),
        match msg {
            HandleMsg::RecvData(f) => msg@ == MsgView::RecvData(f@),
            HandleMsg::WriteData(d) => msg@ == MsgView::WriteData(d@),
            HandleMsg::CheckResend => msg@ == MsgView::CheckResend,
            HandleMsg::Close => msg@ == MsgView::Close,
        },
        action_views(actions).len() == actions.len(),
        forall|i: int|
            0 <= i < actions.len() ==> #[trigger] action_views(actions)[i] == match actions[i] {
                Action::Push(f) => ActionView::Push(f@),
                Action::Ack(f) => ActionView::Ack(f@),
                Action::Notify(n) => ActionView::Notify(n),
            },
        segs(queue).len() == queue.len(),
        forall|i: int|
            0 <= i < queue.len() ==> {
                let s = #[trigger] segs(queue)[i];
                &&& s.seg_no == queue[i].seg_no && s.state == queue[i].state
                &&& s.timestamp == queue[i].timestamp
                &&& s.rexmit_timestamp == queue[i].rexmit_timestamp
                &&& s.data == match queue[i].data {
                    Some(d) => Some(d@),
                    None => None,
                }
            },
{
}

/// The answer to one message.
#[derive(Debug)]
pub struct Step {
    /// What to do, in this order.
    pub actions: Vec<Action>,
    /// Whether the reader is to be served before the next message.
    pub proceed: bool,
}

/// Takes the round-trip sample `rtt` into the estimate and sets the
/// retransmission timeout.
pub fn update_rtt(ncp_inner: &mut NcpStreamInner, rtt: u32)
    requires
        old(ncp_inner)@.rtt().sample_ok(rtt as int),
    ensures
        final(ncp_inner)@ == old(ncp_inner)@.sampled(rtt as int),
        old(ncp_inner)@.wf() ==> final(ncp_inner)@.wf(),
{
    let ghost v = ncp_inner@;
    if ncp_inner.srtt == 0 {
        ncp_inner.srtt = rtt;
        ncp_inner.rttval = rtt / 2;
    } else {
        let delta: u32 = if rtt > ncp_inner.srtt {
            rtt - ncp_inner.srtt
        } else {
            ncp_inner.srtt - rtt
        };
        ncp_inner.rttval = (3 * ncp_inner.rttval + delta) / 4;
        ncp_inner.srtt = (7 * ncp_inner.srtt + rtt) / 8;
        if ncp_inner.srtt < 1 {
            ncp_inner.srtt = 1;
        }
    }
    let spread: u32 = 4 * ncp_inner.rttval;
    let rto: u32 = ncp_inner.srtt + if MAX_INTERVAL > spread {
        MAX_INTERVAL
    } else {
        spread
    };
    let floored: u32 = if rto < 20 {
        20
    } else {
        rto
    };
    ncp_inner.rto = if floored < 30000 {
        floored
    } else {
        30000
    };
    assert(ncp_inner@ =~= v.sampled(rtt as int));
    assert(ncp_inner@.outstanding() =~= v.outstanding());
}

impl NcpStreamInner {
    /// A connection on which nothing has happened.
    pub fn new() -> (inner: NcpStreamInner)
        ensures
            inner@ == initial(),
            inner@.wf(),
    {
        let inner = NcpStreamInner {
            write_wnd: 64,
            send_wnd_limit: 64,
            send_sn: 0,
            send_una: 0,
            send_next: 0,
            send_queue: VecDeque::new(),
            send_buf: VecDeque::new(),
            recv_next: 0,
            recv_buf: VecDeque::new(),
            now: 0,
            closing: false,
            closing_sn: 0,
            rto: 200,
            srtt: 0,
            rttval: 0,
        };
        assert(inner@ =~= initial());
        inner
    }

    /// Takes in a frame with a segment. The answer is its acknowledgement.
    pub fn on_push(&mut self, frame: NcpFrame) -> (ack: NcpFrame)
        requires
            old(self)@.wf(),
        ensures
            final(self)@ == old(self)@.after_push(frame@),
            final(self)@.wf(),
            ack@ == ack_frame_view(frame.sn, old(self)@.recv_next),
            ack.cmd == CMD_ACK,
            ack.sn == frame.sn,
            ack.una == old(self).recv_next,
    {
        let ghost v = self@;
        let sn: u32 = frame.sn;
        let ack = ack_frame(sn, self.recv_next);
        if sn < self.recv_next {
            return ack;
        }
        let mut idx: usize = 0;
        while idx < self.recv_buf.len() && self.recv_buf[idx].seg_no < sn
            invariant
                idx <= self.recv_buf@.len(),
                forall|i: int| 0 <= i < idx ==> (#[trigger] v.recv_buf[i]).seg_no < sn,
                v == self@,
            decreases self.recv_buf@.len() - idx,
        {
            assert(v.recv_buf[idx as int].seg_no < sn);
            idx = idx + 1;
        }
        if idx < self.recv_buf.len() && self.recv_buf[idx].seg_no == sn {
            assert(v.recv_buf[idx as int].seg_no == sn);
            return ack;
        }
        let seg = NcpSegment {
            seg_no: sn,
            state: SegState::Init,
            timestamp: frame.ts,
            rexmit_timestamp: 0,
            data: if frame.data.len() == 0 {
                None
            } else {
                Some(frame.data)
            },
        };
        proof {
            if idx < v.recv_buf.len() {
                assert(v.recv_buf[idx as int].seg_no > sn);
            }
            assert forall|i: int| idx <= i < v.recv_buf.len() implies (
            #[trigger] v.recv_buf[i]).seg_no > sn by {
                if i > idx {
                    assert(v.recv_buf[idx as int].seg_no < v.recv_buf[i].seg_no);
                }
            }
            lemma_count_below(v.recv_buf, sn, idx as int);
            assert(!has_seg(v.recv_buf, sn));
            assert(seg@ == received(frame@));
        }
        self.recv_buf.insert(idx, seg);
        assert(self@.recv_buf =~= v.recv_buf.insert(idx as int, seg@));
        proof {
            assert(self@ == v.after_push(frame@));
            law_push_keeps_wf(v, frame@);
        }
        ack
    }

    /// Marks what the acknowledgement `frame` covers. The result is the age of the
    /// last segment covered.
    fn mark_acked(&mut self, frame: &NcpFrame) -> (sample: u32)
        requires
            old(self)@.ack_ok(frame@),
        ensures
            final(self)@ == (InnerView {
                send_buf: mark_all(frame@, old(self)@.send_buf),
                ..old(self)@
            }),
            sample == ack_sample(frame@, old(self)@.send_buf, old(self).now),
    {
        let ghost v = self@;
        let ghost f = frame@;
        let mut marked: VecDeque<NcpSegment> = VecDeque::new();
        let mut sample: u32 = 0;
        while self.send_buf.len() > 0
            invariant
                f == frame@,
                v.ack_ok(f),
                marked@.len() <= v.send_buf.len(),
                self@ == (InnerView { send_buf: v.send_buf.skip(marked@.len() as int), ..v }),
                segs(marked@) == mark_all(f, v.send_buf.take(marked@.len() as int)),
                sample == ack_sample(f, v.send_buf.take(marked@.len() as int), v.now),
            decreases self.send_buf@.len(),
        {
            let ghost i = marked@.len() as int;
            let ghost before = self@.send_buf;
            assert(before.len() == self.send_buf@.len());
            if let Some(mut seg) = self.send_buf.pop_front() {
                let ghost was = seg@;
                assert(was == before[0]);
                assert(was == v.send_buf[i]);
                assert(covers(f, v.send_buf[i]) ==> v.send_buf[i].timestamp <= v.now);
                if seg.seg_no == frame.sn || seg.seg_no < frame.una {
                    seg.state = SegState::Sent;
                    sample = self.now - seg.timestamp;
                }
                assert(seg@ == mark(f, was));
                let ghost marked_before = segs(marked@);
                marked.push_back(seg);
                proof {
                    assert(segs(marked@) =~= marked_before.push(mark(f, was)));
                    assert(v.send_buf.take(i + 1).drop_last() =~= v.send_buf.take(i));
                    assert(segs(marked@) =~= mark_all(f, v.send_buf.take(i + 1)));
                    assert(self@.send_buf =~= before.skip(1));
                    assert(self@.send_buf =~= v.send_buf.skip(i + 1));
                }
            }
        }
        proof {
            assert(self@.send_buf.len() == self.send_buf@.len());
            assert(v.send_buf.take(marked@.len() as int) =~= v.send_buf);
        }
        self.send_buf = marked;
        sample
    }

    /// Lets the acknowledged segments at the head of the send buffer go.
    fn drop_acked(&mut self) -> (actions: Vec<Action>)
        requires
            old(self).write_wnd + sent_prefix(old(self)@.send_buf) <= i16::MAX,
            old(self).send_una + old(self)@.send_buf.len() <= u32::MAX,
            forall|i: int|
                0 <= i < old(self)@.send_buf.len() ==> (
                #[trigger] old(self)@.send_buf[i]).seg_no == old(self).send_una + i,
        ensures
            ({
                let n = sent_prefix(old(self)@.send_buf);
                &&& final(self)@ == (InnerView {
                    send_buf: old(self)@.send_buf.skip(n as int),
                    send_una: (old(self).send_una + n) as u32,
                    write_wnd: (old(self).write_wnd + n) as i16,
                    ..old(self)@
                })
                &&& action_views(actions@) == old(self)@.send_buf.take(n as int).map_values(
                    |s: SegView| ActionView::Notify(ack_noty(s)),
                )
            }),
    {
        let ghost v = self@;
        let ghost m = v.send_buf;
        let ghost total = sent_prefix(m);
        let mut actions: Vec<Action> = Vec::new();
        proof {
            assert(m.skip(0) =~= m);
        }
        while self.send_buf.len() > 0 && self.send_buf[0].state == SegState::Sent
            && self.send_buf[0].seg_no == self.send_una
            invariant
                m == v.send_buf,
                total == sent_prefix(m),
                v.write_wnd + total <= i16::MAX,
                v.send_una + m.len() <= u32::MAX,
                forall|i: int| 0 <= i < m.len() ==> (#[trigger] m[i]).seg_no == v.send_una + i,
                actions@.len() <= m.len(),
                total == actions@.len() + sent_prefix(m.skip(actions@.len() as int)),
                self@ == (InnerView {
                    send_buf: m.skip(actions@.len() as int),
                    send_una: (v.send_una + actions@.len()) as u32,
                    write_wnd: (v.write_wnd + actions@.len()) as i16,
                    ..v
                }),
                action_views(actions@) == m.take(actions@.len() as int).map_values(
                    |s: SegView| ActionView::Notify(ack_noty(s)),
                ),
            decreases self.send_buf@.len(),
        {
            let ghost k = actions@.len() as int;
            let ghost before = self@.send_buf;
            let ghost actions_before = action_views(actions@);
            assert(before.len() == self.send_buf@.len());
            assert(before[0] == self.send_buf@[0]@);
            assert(before[0] == m[k]);
            assert(m.skip(k).skip(1) =~= m.skip(k + 1));
            if let Some(seg) = self.send_buf.pop_front() {
                assert(seg@ == m[k]);
                self.send_una = seg.seg_no + 1;
                self.write_wnd = self.write_wnd + 1;
                let noty = match seg.data {
                    Some(_) => WriterNoty::WindowInc(1),
                    None => WriterNoty::Closed,
                };
                assert(noty == ack_noty(m[k]));
                actions.push(Action::Notify(noty));
                proof {
                    assert(self@.send_buf =~= before.skip(1));
                    assert(self@.send_buf =~= m.skip(k + 1));
                    assert(action_views(actions@) =~= actions_before.push(
                        ActionView::Notify(noty),
                    ));
                    assert(action_views(actions@) =~= m.take(k + 1).map_values(
                        |s: SegView| ActionView::Notify(ack_noty(s)),
                    ));
                }
            }
        }
        proof {
            let k = actions@.len() as int;
            assert(self@.send_buf.len() == self.send_buf@.len());
            if k < m.len() {
                assert(self@.send_buf[0] == m[k]);
                assert(self@.send_buf[0] == self.send_buf@[0]@);
            }
            assert(sent_prefix(m.skip(k)) == 0);
        }
        actions
    }

    /// Takes in an acknowledgement. The answer is what the writer is told.
    pub fn on_ack(&mut self, frame: &NcpFrame) -> (actions: Vec<Action>)
        requires
            old(self)@.wf(),
            old(self)@.ack_ok(frame@),
        ensures
            final(self)@ == old(self)@.after_ack(frame@),
            final(self)@.wf(),
            action_views(actions@) == old(self)@.ack_actions(frame@),
    {
        let ghost v = self@;
        let sample: u32 = self.mark_acked(frame);
        if sample > 0 {
            update_rtt(self, sample);
        }
        proof {
            law_ack_keeps_wf(v, frame@);
            assert forall|i: int| 0 <= i < self@.send_buf.len() implies (
            #[trigger] self@.send_buf[i]).seg_no == self.send_una + i by {
                assert(v.outstanding()[i] == v.send_buf[i]);
            }
        }
        let actions = self.drop_acked();
        assert(self@ =~= v.after_ack(frame@));
        actions
    }

    /// Takes in a segment from the writer; without data it closes the stream.
    pub fn on_write(&mut self, data: Option<Vec<u8>>)
        requires
            old(self)@.wf(),
            old(self)@.write_ok(opt_bytes(data)),
        ensures
            final(self)@ == old(self)@.after_write(opt_bytes(data)),
            final(self)@.wf(),
    {
        let ghost v = self@;
        let rto: u32 = self.rto;
        assert(rto >> 3 == rto / 8) by (bit_vector);
        let seg_no: u32 = self.send_sn;
        self.send_sn = self.send_sn + 1;
        if data.is_some() {
            self.write_wnd = self.write_wnd - 1;
        }
        let seg = NcpSegment {
            seg_no,
            state: SegState::Init,
            timestamp: self.now,
            rexmit_timestamp: self.now + rto + (rto >> 3),
            data,
        };
        assert(seg@ == v.new_seg(opt_bytes(data)));
        self.send_queue.push_back(seg);
        proof {
            assert(self@.send_queue =~= v.send_queue.push(seg@));
            assert(self@ =~= v.after_write(opt_bytes(data)));
            law_write_keeps_wf(v, opt_bytes(data));
        }
    }

    /// Finds the segments to be transmitted again.
    pub fn resend(&self) -> (actions: Vec<Action>)
        requires
            self@.resend_ok(),
        ensures
            action_views(actions@) == self@.resend_actions(),
    {
        let ghost v = self@;
        let ghost pred = |s: SegView| due(s, v.now);
        let mut actions: Vec<Action> = Vec::new();
        let mut i: usize = 0;
        proof {
            assert(v.send_buf.take(0) =~= Seq::empty());
            reveal(Seq::filter);
        }
        while i < self.send_buf.len()
            invariant
                v == self@,
                v.resend_ok(),
                pred == (|s: SegView| due(s, v.now)),
                i <= self.send_buf@.len(),
                action_views(actions@) == push_all(v.send_buf.take(i as int).filter(pred)),
            decreases self.send_buf@.len() - i,
        {
            let seg = &self.send_buf[i];
            assert(seg@ == v.send_buf[i as int]);
            let ghost before = v.send_buf.take(i as int).filter(pred);
            let ghost actions_before = action_views(actions@);
            proof {
                reveal(Seq::filter);
                assert(v.send_buf.take(i + 1).drop_last() =~= v.send_buf.take(i as int));
            }
            if i32diff(self.now, seg.rexmit_timestamp) >= 0 {
                actions.push(Action::Push(segment_frame(seg)));
                proof {
                    assert(action_views(actions@) =~= actions_before.push(
                        ActionView::Push(push_frame(seg@)),
                    ));
                    assert(push_all(before.push(seg@)) =~= push_all(before).push(
                        ActionView::Push(push_frame(seg@)),
                    ));
                }
            }
            i = i + 1;
        }
        assert(v.send_buf.take(i as int) =~= v.send_buf);
        actions
    }

    /// Lets the queue go out if the window allows.
    pub fn flush(&mut self) -> (actions: Vec<Action>)
        requires
            old(self)@.wf(),
        ensures
            final(self)@ == old(self)@.after_flush(),
            final(self)@.wf(),
            action_views(actions@) == old(self)@.flush_actions(),
    {
        let ghost v = self@;
        let ghost q = launch_all(v.send_queue, v.now);
        let mut actions: Vec<Action> = Vec::new();
        let mut blocked: bool = false;
        proof {
            assert(v.send_buf + q.take(0) =~= v.send_buf);
            assert(v.send_queue.skip(0) =~= v.send_queue);
        }
        while !blocked && self.send_queue.len() > 0
            invariant
                v.wf(),
                q == launch_all(v.send_queue, v.now),
                actions@.len() <= q.len(),
                self@ == (InnerView {
                    send_buf: v.send_buf + q.take(actions@.len() as int),
                    send_queue: v.send_queue.skip(actions@.len() as int),
                    ..v
                }),
                action_views(actions@) == push_all(q.take(actions@.len() as int)),
                actions@.len() > 0 ==> v.can_flush(),
                blocked ==> !v.can_flush(),
            decreases self.send_queue@.len(), if blocked { 0int } else { 1int },
        {
            let ghost k = actions@.len() as int;
            let ghost queue_before = self@.send_queue;
            let ghost buf_before = self@.send_buf;
            let ghost actions_before = action_views(actions@);
            let ghost whole = self.send_queue@;
            assert(queue_before.len() == whole.len());
            assert(buf_before.len() == self.send_buf@.len());
            assert(v.outstanding().len() <= u32::MAX);
            if let Some(mut seg) = self.send_queue.pop_front() {
                assert(seg@ == queue_before[0]);
                assert(seg@ == v.send_queue[k]);
                let pending: usize = self.send_queue.len() + self.send_buf.len();
                assert(self@.send_queue =~= queue_before.skip(1));
                assert(pending == v.outstanding().len() - 1);
                if pending <= 1 + self.send_wnd_limit as usize {
                    seg.state = SegState::WaitAck;
                    seg.timestamp = self.now;
                    assert(seg@ == q[k]);
                    actions.push(Action::Push(segment_frame(&seg)));
                    self.send_buf.push_back(seg);
                    proof {
                        assert(self@.send_queue =~= v.send_queue.skip(k + 1));
                        assert(self@.send_buf =~= buf_before.push(q[k]));
                        assert(self@.send_buf =~= v.send_buf + q.take(k + 1));
                        assert(action_views(actions@) =~= actions_before.push(
                            ActionView::Push(push_frame(q[k])),
                        ));
                        assert(action_views(actions@) =~= push_all(q.take(k + 1)));
                    }
                } else {
                    self.send_queue.push_front(seg);
                    blocked = true;
                    proof {
                        assert(self.send_queue@ =~= whole);
                    }
                }
            }
        }
        proof {
            if blocked {
                assert(v.send_buf + q.take(0) =~= v.send_buf);
                assert(v.send_queue.skip(0) =~= v.send_queue);
                assert(self@ =~= v);
            } else {
                assert(self@.send_queue.len() == self.send_queue@.len());
                assert(q.take(actions@.len() as int) =~= q);
                if !v.can_flush() {
                    assert(v.send_buf + q =~= v.send_buf);
                    assert(self@ =~= v);
                } else {
                    assert(self@ =~= v.after_flush());
                }
            }
            law_flush_keeps_wf(v);
        }
        actions
    }

    /// Tells whether the acknowledgement `frame` can be handled at time `now`.
    fn admits_ack(&self, frame: &NcpFrame, now: u32) -> (admitted: bool)
        requires
            self@.wf(),
        ensures
            admitted == self@.at(now).ack_ok(frame@),
    {
        let ghost v = self@.at(now);
        let ghost f = frame@;
        let ghost m = mark_all(f, v.send_buf);
        let mut sample: u32 = 0;
        let mut count: usize = 0;
        let mut i: usize = 0;
        proof {
            assert(m.skip(0) =~= m);
        }
        while i < self.send_buf.len()
            invariant
                v == self@.at(now),
                f == frame@,
                m == mark_all(f, v.send_buf),
                i <= self.send_buf@.len(),
                count <= i,
                forall|j: int|
                    0 <= j < i && covers(f, #[trigger] v.send_buf[j])
                        ==> v.send_buf[j].timestamp <= now,
                sample == ack_sample(f, v.send_buf.take(i as int), now),
                count == i ==> sent_prefix(m) == i + sent_prefix(m.skip(i as int)),
                count < i ==> sent_prefix(m) == count,
            decreases self.send_buf@.len() - i,
        {
            let seg = &self.send_buf[i];
            let covered: bool = seg.seg_no == frame.sn || seg.seg_no < frame.una;
            proof {
                assert(seg@ == v.send_buf[i as int]);
                assert(v.send_buf.take(i + 1).drop_last() =~= v.send_buf.take(i as int));
                assert(m.skip(i as int).skip(1) =~= m.skip(i + 1));
                assert(m.skip(i as int)[0] == m[i as int]);
            }
            if covered {
                if seg.timestamp > now {
                    assert(covers(f, v.send_buf[i as int]));
                    return false;
                }
                sample = now - seg.timestamp;
            }
            if count == i && (covered || seg.state == SegState::Sent) {
                count = count + 1;
            }
            i = i + 1;
        }
        proof {
            assert(v.send_buf.take(i as int) =~= v.send_buf);
            assert(v.outstanding().len() <= u32::MAX);
        }
        if sample > 0 && !sample_fits(self.srtt, self.rttval, sample) {
            return false;
        }
        self.write_wnd as i64 + count as i64 <= 32767
    }

    /// Tells whether a write can be handled at time `now`.
    fn admits_write(&self, takes_window: bool, now: u32) -> (admitted: bool)
        ensures
            forall|data: Option<Seq<u8>>|
                takes_window == (data is Some) ==> admitted == #[trigger] self@.at(
                    now,
                ).write_ok(data),
    {
        self.send_sn < u32::MAX && now as u64 + self.rto as u64 + self.rto as u64 / 8
            <= u32::MAX as u64 && (!takes_window || self.write_wnd > i16::MIN)
    }

    /// Tells whether every retransmission time can be held against time `now`.
    fn admits_resend(&self, now: u32) -> (admitted: bool)
        ensures
            admitted == self@.at(now).resend_ok(),
    {
        let ghost v = self@.at(now);
        let mut i: usize = 0;
        while i < self.send_buf.len()
            invariant
                v == self@.at(now),
                i <= self.send_buf@.len(),
                forall|j: int|
                    0 <= j < i ==> i32diff_ok(
                        now,
                        (#[trigger] v.send_buf[j]).rexmit_timestamp,
                    ),
            decreases self.send_buf@.len() - i,
        {
            let seg = &self.send_buf[i];
            assert(seg@ == v.send_buf[i as int]);
            if !i32diff_fits(now, seg.rexmit_timestamp) {
                return false;
            }
            i = i + 1;
        }
        true
    }

    /// Tells whether `msg` can be handled at time `now`.
    pub fn admits(&self, msg: &HandleMsg, now: u32) -> (admitted: bool)
        requires
            self@.wf(),
        ensures
            admitted == self@.admits(msg@, now),
    {
        match msg {
            HandleMsg::RecvData(frame) => frame.cmd == CMD_PUSH || (frame.cmd == CMD_ACK
                && self.admits_ack(frame, now)),
            HandleMsg::WriteData(_) => self.admits_write(true, now),
            HandleMsg::CheckResend => self.admits_resend(now),
            HandleMsg::Close => self.admits_write(false, now),
        }
    }

    /// Handles one message at time `now`, and then lets the queue go out. A segment
    /// that the reader already has is acknowledged and nothing else.
    pub fn handle_msg(&mut self, msg: HandleMsg, now: u32) -> (step: Step)
        requires
            old(self)@.wf(),
            old(self)@.admits(msg@, now),
        ensures
            final(self)@ == old(self)@.step(msg@, now),
            final(self)@.wf(),
            action_views(step.actions@) == old(self)@.step_actions(msg@, now),
            step.proceed == !old(self)@.stale(msg@),
            step.proceed == !(msg matches HandleMsg::RecvData(f) && f.cmd == CMD_PUSH && f.sn
                < old(self).recv_next),
    {
        let ghost v = self@;
        let ghost mv = msg@;
        let ghost t = v.at(now);
        self.now = now;
        proof {
            assert(self@ =~= t);
            assert(t.outstanding() =~= v.outstanding());
        }
        let mut actions: Vec<Action> = Vec::new();
        match msg {
            HandleMsg::RecvData(frame) => {
                if frame.cmd == CMD_PUSH {
                    let stale: bool = frame.sn < self.recv_next;
                    let ack = self.on_push(frame);
                    actions.push(Action::Ack(ack));
                    assert(action_views(actions@) =~= t.msg_actions(mv));
                    if stale {
                        return Step { actions, proceed: false };
                    }
                } else {
                    actions = self.on_ack(&frame);
                }
            },
            HandleMsg::WriteData(data) => {
                self.on_write(Some(data));
            },
            HandleMsg::CheckResend => {
                actions = self.resend();
            },
            HandleMsg::Close => {
                self.on_write(None);
            },
        }
        assert(action_views(actions@) =~= t.msg_actions(mv));
        assert(self@ == t.after_msg(mv));
        let ghost first = action_views(actions@);
        let mut pushes = self.flush();
        let ghost second = action_views(pushes@);
        actions.append(&mut pushes);
        assert(action_views(actions@) =~= first + second);
        Step { actions, proceed: true }
    }

    /// Takes the next segment for the reader out of the received ones, if it is
    /// there: its data, or the end of the stream. Its place stays until the
    /// reader took it.
    pub fn next_read(&mut self) -> (noty: Option<ReadNoty>)
        requires
            old(self)@.wf(),
        ensures
            final(self)@.wf(),
            noty is Some == old(self)@.ready(),
            noty is None ==> final(self)@ == old(self)@,
            noty matches Some(n) ==> {
                &&& noty_payload(n) == old(self)@.recv_buf[0].data
                &&& final(self)@ == old(self)@.with_head_data(None)
            },
    {
        let ghost v = self@;
        if self.recv_buf.len() == 0 || self.recv_buf[0].seg_no != self.recv_next {
            proof {
                assert(v.recv_buf.len() == self.recv_buf@.len());
                if v.recv_buf.len() > 0 {
                    assert(v.recv_buf[0] == self.recv_buf@[0]@);
                }
            }
            return None;
        }
        let ghost before = self.recv_buf@;
        assert(v.recv_buf[0] == before[0]@);
        match self.recv_buf.pop_front() {
            Some(seg) => {
                let NcpSegment { seg_no, state, timestamp, rexmit_timestamp, data } = seg;
                let noty = match data {
                    Some(d) => ReadNoty::Data(d),
                    None => ReadNoty::Eof,
                };
                self.recv_buf.push_front(
                    NcpSegment { seg_no, state, timestamp, rexmit_timestamp, data: None },
                );
                proof {
                    assert(self@.recv_buf =~= v.with_head_data(None).recv_buf);
                    assert(self@ =~= v.with_head_data(None));
                    lemma_head_data_keeps_wf(v, None);
                }
                Some(noty)
            },
            None => None,
        }
    }

    /// Puts back what `next_read` gave and the reader had no room for.
    pub fn reader_full(&mut self, noty: ReadNoty)
        requires
            old(self)@.wf(),
            old(self)@.recv_buf.len() > 0,
        ensures
            final(self)@.wf(),
            final(self)@ == old(self)@.put_back(noty),
    {
        let ghost v = self@;
        assert(v.recv_buf.len() == self.recv_buf@.len());
        match noty {
            ReadNoty::Data(d) => {
                let ghost bytes = d@;
                let ghost before = self.recv_buf@;
                assert(v.recv_buf[0] == before[0]@);
                if let Some(mut seg) = self.recv_buf.pop_front() {
                    seg.data = Some(d);
                    self.recv_buf.push_front(seg);
                    proof {
                        assert(self@.recv_buf =~= v.with_head_data(Some(bytes)).recv_buf);
                        assert(self@ =~= v.with_head_data(Some(bytes)));
                        lemma_head_data_keeps_wf(v, Some(bytes));
                    }
                }
            },
            ReadNoty::Eof => {},
        }
    }

    /// Goes on to the next segment after the reader took one. At the end of the
    /// stream the result is what the writer is told, and the connection is over.
    pub fn reader_took(&mut self, eof: bool) -> (end: Option<WriterNoty>)
        requires
            old(self)@.wf(),
            old(self)@.ready(),
            old(self).recv_next < u32::MAX,
        ensures
            final(self)@ == old(self)@.after_took(),
            final(self)@.wf(),
            end == if eof {
                Some(WriterNoty::Closed)
            } else {
                None
            },
    {
        let ghost v = self@;
        self.recv_next = self.recv_next + 1;
        let _ = self.recv_buf.pop_front();
        proof {
            assert(self@.recv_buf =~= v.recv_buf.skip(1));
            assert(self@ =~= v.after_took());
            law_took_keeps_wf(v);
        }
        if eof {
            Some(WriterNoty::Closed)
        } else {
            None
        }
    }

    /// How the connection goes on after handing what `next_read` gave to the
    /// reader; `eof` tells whether that was the end of the stream. What the reader
    /// took is left behind, and what it had no room for is put back.
    pub fn on_reader(&mut self, eof: bool, seen: ReaderTry) -> (next: ReadNext)
        requires
            old(self)@.wf(),
            old(self)@.ready(),
            seen is Took ==> old(self).recv_next < u32::MAX,
        ensures
            final(self)@.wf(),
            final(self)@ == old(self)@.after_try(seen),
            next == read_next(eof, seen),
    {
        match seen {
            ReaderTry::Took => match self.reader_took(eof) {
                Some(end) => ReadNext::Over(end),
                None => ReadNext::More,
            },
            ReaderTry::Full(noty) => {
                self.reader_full(noty);
                ReadNext::Wait
            },
            ReaderTry::Gone => ReadNext::Fail,
        }
    }
}

} // verus!
