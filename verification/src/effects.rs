//! What each message does to a connection, field by field.

use vstd::prelude::*;

use crate::frame::{FrameView, CMD_ACK, CMD_PUSH};
use crate::model::{
    ack_sample, covers, due, has_seg, initial, lemma_count_below, lemma_rank,
    lemma_sent_prefix, mark_all, ActionView, InnerView, MsgView,
};
use crate::segment::{SegState, SegView};
use crate::stream::{ReadNoty, ReaderTry, WriterNoty};

verus! {

/// Whether the retransmission time `t` has come at time `now`, both read in two's
/// complement.
pub open spec fn has_passed(now: u32, t: u32) -> bool {
    if (now < 0x8000_0000) == (t < 0x8000_0000) {
        now >= t
    } else {
        now < 0x8000_0000
    }
}

/// Whether the action `a` sends the segment `s`, all of it and nothing else.
pub open spec fn sends_segment(a: ActionView, s: SegView) -> bool {
    a matches ActionView::Push(f) && {
        &&& f.cmd == CMD_PUSH
        &&& f.sn == s.seg_no
        &&& f.ts == s.timestamp
        &&& f.data == (if s.data is Some {
            s.data->0
        } else {
            Seq::empty()
        })
        &&& f.len == f.data.len() % 0x1_0000_0000
        &&& f.conv == 0 && f.frg == 0 && f.wnd == 0 && f.una == 0
    }
}

/// Whether `w` and the actions `pushes` are what becomes of the transmitted segments
/// `held` and the waiting ones `waiting` at time `now`: with up to `limit` and two
/// of them in all, every waiting one is sent, in order, and held from then on as
/// transmitted now; with more, nothing happens.
pub open spec fn sends_off(
    held: Seq<SegView>,
    waiting: Seq<SegView>,
    limit: u32,
    now: u32,
    w: InnerView,
    pushes: Seq<ActionView>,
) -> bool {
    let n = held.len() as int;
    if held.len() + waiting.len() <= 2 + limit {
        &&& w.send_queue.len() == 0
        &&& w.send_buf.len() == n + waiting.len()
        &&& forall|i: int| 0 <= i < n ==> #[trigger] w.send_buf[i] == held[i]
        &&& forall|i: int|
            n <= i < w.send_buf.len() ==> {
                &&& (#[trigger] w.send_buf[i]).seg_no == waiting[i - n].seg_no
                &&& w.send_buf[i].data == waiting[i - n].data
                &&& w.send_buf[i].rexmit_timestamp == waiting[i - n].rexmit_timestamp
                &&& w.send_buf[i].state == SegState::WaitAck
                &&& w.send_buf[i].timestamp == now
            }
        &&& pushes.len() == waiting.len()
        &&& forall|i: int|
            0 <= i < pushes.len() ==> sends_segment(#[trigger] pushes[i], w.send_buf[n + i])
    } else {
        &&& w.send_buf == held
        &&& w.send_queue == waiting
        &&& pushes.len() == 0
    }
}

/// Whether the round-trip estimate is the same in both states.
pub open spec fn same_estimate(v: InnerView, w: InnerView) -> bool {
    w.srtt == v.srtt && w.rttval == v.rttval && w.rto == v.rto
}

/// Whether the estimate of `w` is that of `v` with a round trip of `sample`
/// milliseconds taken in: the first one sets it, a later one weighs an eighth of
/// the mean and a quarter of the deviation, and the timeout is the mean and four
/// deviations, 200 at least for these, 30000 at most in all.
pub open spec fn estimate_takes(v: InnerView, w: InnerView, sample: int) -> bool {
    let off = if sample > v.srtt {
        sample - v.srtt
    } else {
        v.srtt - sample
    };
    let mean = (7 * v.srtt + sample) / 8;
    let spread = if 4 * w.rttval < 200 {
        200
    } else {
        4 * w.rttval
    };
    &&& v.srtt == 0 ==> w.srtt == sample && w.rttval == sample / 2
    &&& v.srtt != 0 ==> w.rttval == (3 * v.rttval + off) / 4 && w.srtt == (if mean < 1 {
        1
    } else {
        mean
    })
    &&& w.rto == (if w.srtt + spread < 30000 {
        w.srtt + spread
    } else {
        30000
    })
}

/// Whether a `u32` holds every number on the way to the estimate with `sample`.
pub open spec fn estimate_holds(v: InnerView, sample: int) -> bool {
    let off = if sample > v.srtt {
        sample - v.srtt
    } else {
        v.srtt - sample
    };
    if v.srtt == 0 {
        4 * (sample / 2) <= u32::MAX && sample + 200 <= u32::MAX && sample + 4 * (sample / 2)
            <= u32::MAX
    } else {
        let mean = if 7 * v.srtt + sample < 8 {
            1
        } else {
            (7 * v.srtt + sample) / 8
        };
        let dev = (3 * v.rttval + off) / 4;
        &&& 3 * v.rttval + off <= u32::MAX
        &&& 7 * v.srtt + sample <= u32::MAX
        &&& 4 * dev <= u32::MAX
        &&& mean + 200 <= u32::MAX
        &&& mean + 4 * dev <= u32::MAX
    }
}

/// Whether the acknowledgement `f` speaks of `s`: by its number, or as one of all
/// before `una`.
pub open spec fn names(f: FrameView, s: SegView) -> bool {
    s.seg_no == f.sn || s.seg_no < f.una
}

/// Whether `s` is acknowledged once `f` came.
pub open spec fn settled(f: FrameView, s: SegView) -> bool {
    s.state == SegState::Sent || names(f, s)
}

/// Whether `k` is the last segment of `s` of which `f` speaks.
pub open spec fn last_named(f: FrameView, s: Seq<SegView>, k: int) -> bool {
    &&& 0 <= k < s.len()
    &&& names(f, s[k])
    &&& forall|j: int| k < j < s.len() ==> !names(f, #[trigger] s[j])
}

/// Whether `n` is how many segments at the head of `s` are acknowledged once `f`
/// came.
pub open spec fn settled_head(f: FrameView, s: Seq<SegView>, n: int) -> bool {
    &&& 0 <= n <= s.len()
    &&& forall|i: int| 0 <= i < n ==> settled(f, #[trigger] s[i])
    &&& n < s.len() ==> !settled(f, s[n])
}

/// A new connection has numbered, sent and received nothing, has room for 64
/// segments, and waits 200 milliseconds and an eighth before it sends again.
pub proof fn law_start()
    ensures
        ({
            let v = initial();
            &&& v.write_wnd == 64 && v.send_wnd_limit == 64
            &&& v.send_sn == 0 && v.send_una == 0 && v.send_next == 0 && v.recv_next == 0
            &&& v.send_queue.len() == 0 && v.send_buf.len() == 0 && v.recv_buf.len() == 0
            &&& v.srtt == 0 && v.rttval == 0 && v.rto == 200
            &&& !v.closing && v.closing_sn == 0 && v.now == 0
        }),
{
}

/// Whatever comes, the clock is set, the limit and the number for the reader stay,
/// and so does everything that no message touches.
pub proof fn law_step_frame(v: InnerView, msg: MsgView, now: u32)
    ensures
        ({
            let w = v.step(msg, now);
            &&& w.now == now
            &&& w.send_wnd_limit == v.send_wnd_limit
            &&& w.send_next == v.send_next
            &&& w.recv_next == v.recv_next
            &&& w.closing == v.closing && w.closing_sn == v.closing_sn
        }),
        !(msg is RecvData) ==> v.step(msg, now).recv_buf == v.recv_buf,
        (msg is RecvData || msg is CheckResend) ==> v.step(msg, now).send_sn == v.send_sn,
{
}

/// The loop goes on to the next message without serving the reader exactly when a
/// frame brings a segment that the reader already has. After every tick, write,
/// close and acknowledgement, and after every other segment, the reader is served.
pub proof fn law_reader_is_served_after(v: InnerView, msg: MsgView)
    ensures
        v.stale(msg) <==> exists|f: FrameView|
            msg == MsgView::RecvData(f) && f.cmd == CMD_PUSH && #[trigger] f.sn < v.recv_next,
        msg is CheckResend || msg is WriteData || msg is Close ==> !v.stale(msg),
{
    if v.stale(msg) {
        let f = msg->RecvData_0;
        assert(msg == MsgView::RecvData(f) && f.cmd == CMD_PUSH && f.sn < v.recv_next);
    }
}

/// A frame with a segment is answered at once, before anything else: with an
/// acknowledgement of its number and of all before the number for the reader. It
/// is the only acknowledgement and the writer is told nothing. A segment that the
/// reader already has calls for nothing more, and any other lets the queue go out.
pub proof fn law_push_effect(v: InnerView, f: FrameView, now: u32)
    requires
        f.cmd == CMD_PUSH,
    ensures
        ({
            let w = v.step(MsgView::RecvData(f), now);
            let acts = v.step_actions(MsgView::RecvData(f), now);
            &&& acts.len() >= 1
            &&& acts[0] matches ActionView::Ack(a) && {
                &&& a.cmd == CMD_ACK
                &&& a.sn == f.sn
                &&& a.una == v.recv_next
                &&& a.data.len() == 0 && a.len == 0
                &&& a.conv == 0 && a.frg == 0 && a.wnd == 0 && a.ts == 0
            }
            &&& forall|i: int| 1 <= i < acts.len() ==> (#[trigger] acts[i]) is Push
            &&& w.send_una == v.send_una && w.write_wnd == v.write_wnd && same_estimate(v, w)
            &&& f.sn < v.recv_next ==> acts.len() == 1 && w.send_buf == v.send_buf && w.send_queue
                == v.send_queue
            &&& f.sn >= v.recv_next ==> sends_off(
                v.send_buf,
                v.send_queue,
                v.send_wnd_limit,
                now,
                w,
                acts.skip(1),
            )
        }),
{
    let acts = v.step_actions(MsgView::RecvData(f), now);
    if f.sn >= v.recv_next {
        assert(acts.skip(1) =~= v.at(now).after_push(f).flush_actions());
    }
}

/// A segment that the reader does not have and that does not wait already is stored
/// at its place by number, with the payload that it brought, none meaning a close.
/// Any other leaves the received segments as they are. The result is that place.
pub proof fn law_push_stores(v: InnerView, f: FrameView, now: u32) -> (k: int)
    requires
        v.wf(),
        f.cmd == CMD_PUSH,
    ensures
        ({
            let w = v.step(MsgView::RecvData(f), now);
            let fresh = f.sn >= v.recv_next && forall|i: int|
                0 <= i < v.recv_buf.len() ==> (#[trigger] v.recv_buf[i]).seg_no != f.sn;
            &&& !fresh ==> w.recv_buf == v.recv_buf && v.after_push(f) == v
            &&& fresh ==> {
                &&& 0 <= k <= v.recv_buf.len()
                &&& forall|i: int| 0 <= i < k ==> (#[trigger] v.recv_buf[i]).seg_no < f.sn
                &&& forall|i: int|
                    k <= i < v.recv_buf.len() ==> (#[trigger] v.recv_buf[i]).seg_no > f.sn
                &&& w.recv_buf.len() == v.recv_buf.len() + 1
                &&& forall|i: int| 0 <= i < k ==> #[trigger] w.recv_buf[i] == v.recv_buf[i]
                &&& forall|i: int|
                    k < i < w.recv_buf.len() ==> #[trigger] w.recv_buf[i] == v.recv_buf[i - 1]
                &&& w.recv_buf[k].seg_no == f.sn
                &&& w.recv_buf[k].timestamp == f.ts
                &&& w.recv_buf[k].rexmit_timestamp == 0
                &&& w.recv_buf[k].state == SegState::Init
                &&& w.recv_buf[k].data == (if f.data.len() > 0 {
                    Some(f.data)
                } else {
                    None
                })
            }
        }),
{
    let k = lemma_rank(v.recv_buf, f.sn);
    lemma_count_below(v.recv_buf, f.sn, k);
    assert(v.at(now).recv_buf == v.recv_buf);
    if forall|i: int| 0 <= i < v.recv_buf.len() ==> (#[trigger] v.recv_buf[i]).seg_no != f.sn {
        assert(!has_seg(v.recv_buf, f.sn));
    } else {
        assert(has_seg(v.recv_buf, f.sn));
    }
    k
}

proof fn lemma_ack_parts(v: InnerView, f: FrameView, now: u32) -> (n: int)
    requires
        v.wf(),
    ensures
        n == v.at(now).ack_count(f),
        settled_head(f, v.send_buf, n),
{
    let m = mark_all(f, v.send_buf);
    lemma_sent_prefix(m);
    let n = v.at(now).ack_count(f) as int;
    assert forall|i: int| 0 <= i < n implies settled(f, #[trigger] v.send_buf[i]) by {
        assert(m[i].state == SegState::Sent);
    }
    if n < m.len() {
        assert(m[n].state != SegState::Sent);
    }
    n
}

/// An acknowledgement marks the segments that it names as acknowledged and changes
/// nothing else of any segment: numbers, payloads, times of transmission and of
/// retransmission stay, and those that it does not name stay altogether. The
/// acknowledged ones at the head, and no others, leave. For each that leaves the
/// window has a place more, and the writer is told first of all, in order: of the
/// place where it carried data, of the end where it was a close.
pub proof fn law_ack_effect(v: InnerView, f: FrameView, now: u32)
    requires
        v.wf(),
        f.cmd == CMD_ACK,
        v.admits(MsgView::RecvData(f), now),
    ensures
        ({
            let w = v.step(MsgView::RecvData(f), now);
            let acts = v.step_actions(MsgView::RecvData(f), now);
            let n = w.send_una - v.send_una;
            let held = Seq::new(
                (v.send_buf.len() - n) as nat,
                |i: int|
                    SegView {
                        state: if names(f, v.send_buf[n + i]) {
                            SegState::Sent
                        } else {
                            v.send_buf[n + i].state
                        },
                        ..v.send_buf[n + i]
                    },
            );
            &&& settled_head(f, v.send_buf, n)
            &&& w.write_wnd == v.write_wnd + n
            &&& w.recv_buf == v.recv_buf
            &&& acts.len() >= n
            &&& forall|i: int|
                0 <= i < n ==> #[trigger] acts[i] == ActionView::Notify(
                    if v.send_buf[i].data is Some {
                        WriterNoty::WindowInc(1)
                    } else {
                        WriterNoty::Closed
                    },
                )
            &&& sends_off(held, v.send_queue, v.send_wnd_limit, now, w, acts.skip(n))
        }),
{
    let t = v.at(now);
    let acts = v.step_actions(MsgView::RecvData(f), now);
    let n = lemma_ack_parts(v, f, now);
    let u = t.after_ack(f);
    let held = Seq::new(
        (v.send_buf.len() - n) as nat,
        |i: int|
            SegView {
                state: if names(f, v.send_buf[n + i]) {
                    SegState::Sent
                } else {
                    v.send_buf[n + i].state
                },
                ..v.send_buf[n + i]
            },
    );
    assert(v.outstanding().len() == v.send_buf.len() + v.send_queue.len());
    assert(u.send_buf =~= held);
    assert(acts.skip(n) =~= u.flush_actions());
}

/// An acknowledgement leaves every segment that it does not name exactly as it was,
/// its retransmission time included, unless the segment was acknowledged before.
pub proof fn law_ack_keeps_unnamed(v: InnerView, f: FrameView, now: u32, i: int)
    requires
        v.wf(),
        f.cmd == CMD_ACK,
        v.admits(MsgView::RecvData(f), now),
        0 <= i < v.send_buf.len(),
        !settled(f, v.send_buf[i]),
    ensures
        ({
            let w = v.step(MsgView::RecvData(f), now);
            let n = w.send_una - v.send_una;
            &&& n <= i < n + w.send_buf.len()
            &&& w.send_buf[i - n] == v.send_buf[i]
        }),
{
    law_ack_effect(v, f, now);
}

proof fn lemma_sample(f: FrameView, s: Seq<SegView>, now: u32, k: int)
    requires
        last_named(f, s, k),
    ensures
        ack_sample(f, s, now) == now - s[k].timestamp,
    decreases s.len(),
{
    assert(s[s.len() - 1] == s.last());
    if k < s.len() - 1 {
        assert(!names(f, s[s.len() - 1]));
        assert forall|j: int| k < j < s.drop_last().len() implies !names(
            f,
            #[trigger] s.drop_last()[j],
        ) by {
            assert(s.drop_last()[j] == s[j]);
        }
        lemma_sample(f, s.drop_last(), now, k);
    }
}

proof fn lemma_no_sample(f: FrameView, s: Seq<SegView>, now: u32)
    requires
        forall|j: int| 0 <= j < s.len() ==> !names(f, #[trigger] s[j]),
    ensures
        ack_sample(f, s, now) == 0,
    decreases s.len(),
{
    if s.len() > 0 {
        assert(!names(f, s[s.len() - 1]));
        assert forall|j: int| 0 <= j < s.drop_last().len() implies !names(
            f,
            #[trigger] s.drop_last()[j],
        ) by {
            assert(s.drop_last()[j] == s[j]);
        }
        lemma_no_sample(f, s.drop_last(), now);
    }
}

/// An acknowledgement that names a transmitted segment measures a round trip: the age
/// of the last one named. A positive age is taken into the estimate, whatever the
/// estimate was; otherwise the estimate stays.
pub proof fn law_ack_measures(v: InnerView, f: FrameView, now: u32, k: int)
    requires
        f.cmd == CMD_ACK,
        v.admits(MsgView::RecvData(f), now),
        last_named(f, v.send_buf, k),
    ensures
        ({
            let w = v.step(MsgView::RecvData(f), now);
            let sample = now - v.send_buf[k].timestamp;
            &&& sample >= 0
            &&& sample > 0 ==> estimate_takes(v, w, sample)
            &&& sample == 0 ==> same_estimate(v, w)
        }),
{
    lemma_sample(f, v.send_buf, now, k);
    assert(covers(f, v.at(now).send_buf[k]));
}

/// The estimate changes at nothing but an acknowledgement that names a transmitted
/// segment.
pub proof fn law_estimate_stays(v: InnerView, msg: MsgView, now: u32)
    requires
        v.admits(msg, now),
        msg matches MsgView::RecvData(f) ==> (f.cmd == CMD_ACK ==> forall|j: int|
            0 <= j < v.send_buf.len() ==> !names(f, #[trigger] v.send_buf[j])),
    ensures
        same_estimate(v, v.step(msg, now)),
{
    if let MsgView::RecvData(f) = msg {
        if f.cmd == CMD_ACK {
            lemma_no_sample(f, v.send_buf, now);
        }
    }
}

/// Taking a round trip of `sample` milliseconds into the estimate changes nothing but
/// the estimate, and can be done exactly when a `u32` holds every number on the way.
pub proof fn law_sample_effect(v: InnerView, sample: u32)
    ensures
        v.rtt().sample_ok(sample as int) <==> estimate_holds(v, sample as int),
        v.rtt().sample_ok(sample as int) ==> estimate_takes(
            v,
            v.sampled(sample as int),
            sample as int,
        ),
        ({
            let w = v.sampled(sample as int);
            w == (InnerView { srtt: w.srtt, rttval: w.rttval, rto: w.rto, ..v })
        }),
{
}

/// A write, or a close, makes one segment with the next number: last in the queue,
/// with the bytes that were written, and to be sent again when the present timeout
/// and an eighth of it have passed. Only data takes from the window. The writer is
/// told nothing, and what is outstanding stays as it is.
pub proof fn law_write_effect(v: InnerView, msg: MsgView, now: u32)
    requires
        msg is WriteData || msg is Close,
        v.admits(msg, now),
    ensures
        ({
            let w = v.step(msg, now);
            let acts = v.step_actions(msg, now);
            let data = if msg is WriteData {
                Some(msg->WriteData_0)
            } else {
                None
            };
            let seg = SegView {
                seg_no: v.send_sn,
                state: SegState::Init,
                timestamp: now,
                rexmit_timestamp: (now + v.rto + v.rto / 8) as u32,
                data,
            };
            &&& now + v.rto + v.rto / 8 <= u32::MAX
            &&& w.send_sn == v.send_sn + 1
            &&& w.send_una == v.send_una
            &&& w.write_wnd == v.write_wnd - (if msg is WriteData {
                1int
            } else {
                0int
            })
            &&& sends_off(v.send_buf, v.send_queue.push(seg), v.send_wnd_limit, now, w, acts)
        }),
{
    let u = v.at(now).after_msg(msg);
    assert(v.step_actions(msg, now) =~= u.flush_actions());
}

proof fn lemma_picks(s: Seq<SegView>, now: u32) -> (picks: Seq<int>)
    ensures
        ({
            let chosen = s.filter(|x: SegView| due(x, now));
            &&& chosen.len() == picks.len()
            &&& forall|j: int|
                0 <= j < picks.len() ==> 0 <= #[trigger] picks[j] < s.len() && has_passed(
                    now,
                    s[picks[j]].rexmit_timestamp,
                ) && chosen[j] == s[picks[j]]
            &&& forall|a: int, b: int| 0 <= a < b < picks.len() ==> picks[a] < picks[b]
            &&& forall|i: int|
                0 <= i < s.len() && has_passed(now, (#[trigger] s[i]).rexmit_timestamp)
                    ==> picks.contains(i)
        }),
    decreases s.len(),
{
    reveal(Seq::filter);
    let pred = |x: SegView| due(x, now);
    if s.len() == 0 {
        Seq::empty()
    } else {
        let before = lemma_picks(s.drop_last(), now);
        let n = s.len() - 1;
        assert forall|j: int| 0 <= j < before.len() implies s.drop_last()[before[j]]
            == s[before[j]] by {}
        let picks = if due(s.last(), now) {
            before.push(n)
        } else {
            before
        };
        assert forall|i: int|
            0 <= i < s.len() && has_passed(
                now,
                (#[trigger] s[i]).rexmit_timestamp,
            ) implies picks.contains(i) by {
            if i < n {
                assert(s.drop_last()[i] == s[i]);
                assert(before.contains(i));
                let j = choose|j: int| 0 <= j < before.len() && before[j] == i;
                assert(picks[j] == i);
            } else {
                assert(picks[picks.len() - 1] == i);
            }
        }
        picks
    }
}

/// A check sends again the transmitted segments whose time has come, all of them and
/// no others, in order, and then lets the queue go out. It changes nothing of the
/// segments that were transmitted. The result is which ones it sends again.
pub proof fn law_check_effect(v: InnerView, now: u32) -> (picks: Seq<int>)
    ensures
        ({
            let w = v.step(MsgView::CheckResend, now);
            let acts = v.step_actions(MsgView::CheckResend, now);
            let n = picks.len() as int;
            &&& n <= acts.len()
            &&& forall|j: int|
                0 <= j < n ==> 0 <= #[trigger] picks[j] < v.send_buf.len() && has_passed(
                    now,
                    v.send_buf[picks[j]].rexmit_timestamp,
                ) && sends_segment(acts[j], v.send_buf[picks[j]])
            &&& forall|a: int, b: int| 0 <= a < b < n ==> picks[a] < picks[b]
            &&& forall|i: int|
                0 <= i < v.send_buf.len() && has_passed(
                    now,
                    (#[trigger] v.send_buf[i]).rexmit_timestamp,
                ) ==> picks.contains(i)
            &&& w.send_una == v.send_una && w.write_wnd == v.write_wnd && same_estimate(v, w)
            &&& sends_off(v.send_buf, v.send_queue, v.send_wnd_limit, now, w, acts.skip(n))
        }),
{
    let t = v.at(now);
    let acts = v.step_actions(MsgView::CheckResend, now);
    let picks = lemma_picks(v.send_buf, now);
    let pred = |x: SegView| due(x, now);
    assert(t.resend_actions().len() == picks.len());
    assert forall|j: int| 0 <= j < picks.len() implies 0 <= #[trigger] picks[j]
        < v.send_buf.len() && has_passed(now, v.send_buf[picks[j]].rexmit_timestamp)
        && sends_segment(acts[j], v.send_buf[picks[j]]) by {
        assert(acts[j] == t.resend_actions()[j]);
    }
    assert(acts.skip(picks.len() as int) =~= t.flush_actions());
    picks
}

/// When the reader takes the next segment, that segment goes and the next number is
/// wanted; nothing else changes.
pub proof fn law_took_effect(v: InnerView)
    requires
        v.wf(),
        v.ready(),
        v.recv_next < u32::MAX,
    ensures
        ({
            let w = v.after_took();
            &&& v.recv_buf[0].seg_no == v.recv_next
            &&& w.recv_next == v.recv_next + 1
            &&& w.recv_buf.len() == v.recv_buf.len() - 1
            &&& forall|i: int|
                0 <= i < w.recv_buf.len() ==> #[trigger] w.recv_buf[i] == v.recv_buf[i + 1]
            &&& w == (InnerView { recv_next: w.recv_next, recv_buf: w.recv_buf, ..v })
        }),
        v.after_try(ReaderTry::Took) == v.after_took(),
        v.after_try(ReaderTry::Gone) == v,
{
}

/// There is something for the reader exactly when the segment with the next number
/// has come.
pub proof fn law_ready_is_next_come(v: InnerView)
    requires
        v.wf(),
    ensures
        v.ready() <==> exists|i: int|
            0 <= i < v.recv_buf.len() && (#[trigger] v.recv_buf[i]).seg_no == v.recv_next,
{
    if exists|i: int|
        0 <= i < v.recv_buf.len() && (#[trigger] v.recv_buf[i]).seg_no == v.recv_next {
        let i = choose|i: int|
            0 <= i < v.recv_buf.len() && (#[trigger] v.recv_buf[i]).seg_no == v.recv_next;
        if i > 0 {
            assert(v.recv_buf[0].seg_no < v.recv_buf[i].seg_no);
        }
    }
}

/// What the reader had no room for is back in the first segment, and nothing else
/// changes.
pub proof fn law_put_back_effect(v: InnerView, noty: ReadNoty)
    requires
        v.recv_buf.len() > 0,
    ensures
        ({
            let w = v.put_back(noty);
            &&& v.after_try(ReaderTry::Full(noty)) == w
            &&& w.recv_buf.len() == v.recv_buf.len()
            &&& forall|i: int|
                1 <= i < w.recv_buf.len() ==> #[trigger] w.recv_buf[i] == v.recv_buf[i]
            &&& w.recv_buf[0].data == (match noty {
                ReadNoty::Data(d) => Some(d@),
                ReadNoty::Eof => v.recv_buf[0].data,
            })
            &&& w.recv_buf[0] == (SegView { data: w.recv_buf[0].data, ..v.recv_buf[0] })
            &&& w == (InnerView { recv_buf: w.recv_buf, ..v })
        }),
        ({
            let w = v.with_head_data(None);
            &&& w.recv_buf.len() == v.recv_buf.len()
            &&& forall|i: int|
                1 <= i < w.recv_buf.len() ==> #[trigger] w.recv_buf[i] == v.recv_buf[i]
            &&& w.recv_buf[0] == (SegView { data: None, ..v.recv_buf[0] })
            &&& w == (InnerView { recv_buf: w.recv_buf, ..v })
        }),
{
}

/// A frame with a segment can always be handled, and one with an unknown command
/// never. A write, or a close, can be handled as long as there is a number for it
/// and its retransmission time is one that the clock can show, and data only while
/// the window can count it.
pub proof fn law_admitted(v: InnerView, msg: MsgView, now: u32)
    ensures
        msg matches MsgView::RecvData(f) ==> (f.cmd == CMD_PUSH ==> v.admits(msg, now)),
        msg matches MsgView::RecvData(f) ==> (f.cmd != CMD_PUSH && f.cmd != CMD_ACK ==> !v.admits(
            msg,
            now,
        )),
        msg is WriteData || msg is Close ==> (v.admits(msg, now) <==> v.send_sn < u32::MAX && now
            + v.rto + v.rto / 8 <= u32::MAX && (msg is WriteData ==> v.write_wnd > i16::MIN)),
{
}

/// An acknowledgement can be handled exactly when no segment that it names is younger
/// than now, the round trip that it measures can be taken into the estimate, and the
/// window can count the segments that leave. Here `n` is how many leave.
pub proof fn law_ack_admitted(v: InnerView, f: FrameView, now: u32, n: int)
    requires
        v.wf(),
        f.cmd == CMD_ACK,
        settled_head(f, v.send_buf, n),
    ensures
        v.admits(MsgView::RecvData(f), now) <==> {
            &&& forall|i: int|
                0 <= i < v.send_buf.len() && names(f, #[trigger] v.send_buf[i])
                    ==> v.send_buf[i].timestamp <= now
            &&& forall|k: int| #[trigger]
                last_named(f, v.send_buf, k) && now > v.send_buf[k].timestamp ==> estimate_holds(
                    v,
                    now - v.send_buf[k].timestamp,
                )
            &&& v.write_wnd + n <= i16::MAX
        },
{
    let t = v.at(now);
    let m = lemma_ack_parts(v, f, now);
    if n < m {
        assert(settled(f, v.send_buf[n]));
    }
    if m < n {
        assert(settled(f, v.send_buf[m]));
    }
    assert forall|i: int| 0 <= i < v.send_buf.len() implies covers(f, t.send_buf[i]) == names(
        f,
        #[trigger] v.send_buf[i],
    ) by {}
    assert forall|k: int| #[trigger] last_named(f, v.send_buf, k) implies ack_sample(
        f,
        v.send_buf,
        now,
    ) == now - v.send_buf[k].timestamp by {
        lemma_sample(f, v.send_buf, now, k);
    }
    let some = lemma_last_named(f, v.send_buf);
    if some < 0 {
        lemma_no_sample(f, v.send_buf, now);
    } else {
        assert(last_named(f, v.send_buf, some));
    }
}

/// The last segment of `s` that `f` names, or a negative number.
pub(crate) proof fn lemma_last_named(f: FrameView, s: Seq<SegView>) -> (k: int)
    ensures
        k >= 0 ==> last_named(f, s, k),
        k < 0 ==> forall|j: int| 0 <= j < s.len() ==> !names(f, #[trigger] s[j]),
    decreases s.len(),
{
    if s.len() == 0 {
        -1
    } else if names(f, s[s.len() - 1]) {
        s.len() - 1
    } else {
        let k = lemma_last_named(f, s.drop_last());
        assert forall|j: int| 0 <= j < s.len() - 1 implies s.drop_last()[j] == #[trigger] s[j] by {}
        k
    }
}

/// A check can be handled exactly when an `i32` holds the distance of every
/// retransmission time from now, both read in two's complement.
pub proof fn law_check_admitted(v: InnerView, now: u32)
    ensures
        v.admits(MsgView::CheckResend, now) <==> forall|i: int|
            0 <= i < v.send_buf.len() ==> {
                let t = (#[trigger] v.send_buf[i]).rexmit_timestamp;
                ||| (now < 0x8000_0000) == (t < 0x8000_0000)
                ||| t - now > 0x8000_0000
                ||| now - t >= 0x8000_0000
            },
{
    assert(v.at(now).send_buf == v.send_buf);
    assert forall|i: int| 0 <= i < v.send_buf.len() implies ({
        let t = (#[trigger] v.send_buf[i]).rexmit_timestamp;
        ||| (now < 0x8000_0000) == (t < 0x8000_0000)
        ||| t - now > 0x8000_0000
        ||| now - t >= 0x8000_0000
    }) == crate::timing::i32diff_ok(now, v.send_buf[i].rexmit_timestamp) by {}
    if v.admits(MsgView::CheckResend, now) {
        assert forall|i: int| 0 <= i < v.send_buf.len() implies ({
            let t = (#[trigger] v.send_buf[i]).rexmit_timestamp;
            ||| (now < 0x8000_0000) == (t < 0x8000_0000)
            ||| t - now > 0x8000_0000
            ||| now - t >= 0x8000_0000
        }) by {
            assert(crate::timing::i32diff_ok(now, v.at(now).send_buf[i].rexmit_timestamp));
        }
    }
}

} // verus!
