//! What has come at the receiving side, and what an acknowledgement says of it.

use vstd::prelude::*;

use crate::delivery::{all_possible, law_run_keeps_wf, run, taken, written, Event};
use crate::effects::law_push_effect;
use crate::frame::{decode, encode, law_decode_of_encode, FrameView, CMD_ACK, CMD_PUSH};
use crate::model::{
    has_seg, initial, lemma_count_below, lemma_rank, ActionView, InnerView, MsgView,
};
use crate::notices::{acked, law_closed_when_all_acked, lemma_acked, told, transmitted};
use crate::segment::{ack_frame_view, received, SegState};
use crate::stream::WriterNoty;

verus! {

/// Whether segment `sn` has come: the reader took it, or it waits for the reader.
pub open spec fn has_come(v: InnerView, sn: u32) -> bool {
    sn < v.recv_next || has_seg(v.recv_buf, sn)
}

/// The first frame that brings segment `sn` in the course of `events`.
pub open spec fn first_copy(events: Seq<Event>, sn: u32) -> Option<FrameView>
    decreases events.len(),
{
    if events.len() == 0 {
        None
    } else {
        let before = first_copy(events.drop_last(), sn);
        match events.last() {
            Event::Message { msg: MsgView::RecvData(f), now: _ } if before is None && f.cmd
                == CMD_PUSH && f.sn == sn => Some(f),
            _ => before,
        }
    }
}

/// Whether the frame `f` is sent as an acknowledgement in the course of `events`.
pub open spec fn answered(v: InnerView, events: Seq<Event>, f: FrameView) -> bool
    decreases events.len(),
{
    events.len() > 0 && (answered(v, events.drop_last(), f) || (
    events.last() matches Event::Message { msg, now } && run(v, events.drop_last()).step_actions(
        msg,
        now,
    ).contains(ActionView::Ack(f))))
}

/// Whether every acknowledgement that comes in the course of `at_a` is a datagram
/// that the other side sent in the course of `at_b`.
pub open spec fn all_acks_come_from(at_a: Seq<Event>, at_b: Seq<Event>) -> bool {
    forall|i: int|
        0 <= i < at_a.len() ==> ((#[trigger] at_a[i]) matches Event::Message {
            msg: MsgView::RecvData(g),
            now: _,
        } ==> (g.cmd == CMD_ACK ==> exists|f: FrameView| #[trigger]
            answered(initial(), at_b, f) && g == decode(encode(f))))
}

/// A frame with a segment makes its segment come, and no other.
proof fn lemma_push_comes(v: InnerView, f: FrameView)
    requires
        v.wf(),
    ensures
        forall|sn: u32| #[trigger]
            has_come(v.after_push(f), sn) <==> has_come(v, sn) || sn == f.sn,
        forall|i: int|
            0 <= i < v.after_push(f).recv_buf.len() ==> v.recv_buf.contains(
                #[trigger] v.after_push(f).recv_buf[i],
            ) || (v.is_new(f.sn) && v.after_push(f).recv_buf[i] == received(f)),
{
    let w = v.after_push(f);
    if v.is_new(f.sn) {
        let k = lemma_rank(v.recv_buf, f.sn);
        lemma_count_below(v.recv_buf, f.sn, k);
        assert(w.recv_buf[k] == received(f));
        assert forall|i: int| 0 <= i < w.recv_buf.len() implies v.recv_buf.contains(
            #[trigger] w.recv_buf[i],
        ) || w.recv_buf[i] == received(f) by {
            if i < k {
                assert(w.recv_buf[i] == v.recv_buf[i]);
            } else if i > k {
                assert(w.recv_buf[i] == v.recv_buf[i - 1]);
            }
        }
        assert forall|sn: u32| #[trigger]
            has_come(w, sn) <==> has_come(v, sn) || sn == f.sn by {
            if has_seg(v.recv_buf, sn) {
                let i = choose|i: int|
                    0 <= i < v.recv_buf.len() && (#[trigger] v.recv_buf[i]).seg_no == sn;
                if i < k {
                    assert(w.recv_buf[i] == v.recv_buf[i]);
                } else {
                    assert(w.recv_buf[i + 1] == v.recv_buf[i]);
                }
                assert(has_seg(w.recv_buf, sn));
            }
            if has_seg(w.recv_buf, sn) {
                let i = choose|i: int|
                    0 <= i < w.recv_buf.len() && (#[trigger] w.recv_buf[i]).seg_no == sn;
                if i < k {
                    assert(w.recv_buf[i] == v.recv_buf[i]);
                    assert(has_seg(v.recv_buf, sn));
                } else if i > k {
                    assert(w.recv_buf[i] == v.recv_buf[i - 1]);
                    assert(has_seg(v.recv_buf, sn));
                }
            }
        }
    }
}

/// The reader's taking a segment leaves what has come as it is.
proof fn lemma_took_comes(v: InnerView)
    requires
        v.wf(),
        v.ready(),
        v.recv_next < u32::MAX,
    ensures
        forall|sn: u32| #[trigger] has_come(v.after_took(), sn) <==> has_come(v, sn),
{
    let w = v.after_took();
    assert forall|sn: u32| #[trigger] has_come(w, sn) <==> has_come(v, sn) by {
        if has_seg(v.recv_buf, sn) {
            let i = choose|i: int|
                0 <= i < v.recv_buf.len() && (#[trigger] v.recv_buf[i]).seg_no == sn;
            if i > 0 {
                assert(w.recv_buf[i - 1] == v.recv_buf[i]);
                assert(has_seg(w.recv_buf, sn));
            }
        }
        if has_seg(w.recv_buf, sn) {
            let i = choose|i: int|
                0 <= i < w.recv_buf.len() && (#[trigger] w.recv_buf[i]).seg_no == sn;
            assert(w.recv_buf[i] == v.recv_buf[i + 1]);
        }
        if sn == v.recv_next {
            assert(v.recv_buf[0].seg_no == sn);
        }
    }
}

/// What has come, waits and was taken are the first copies.
proof fn lemma_first_copies(events: Seq<Event>)
    requires
        all_possible(initial(), events),
    ensures
        ({
            let v = run(initial(), events);
            let got = taken(initial(), events);
            &&& forall|sn: u32| #[trigger]
                has_come(v, sn) <==> first_copy(events, sn) is Some
            &&& forall|i: int|
                0 <= i < v.recv_buf.len() ==> #[trigger] v.recv_buf[i] == received(
                    first_copy(events, v.recv_buf[i].seg_no)->0,
                )
            &&& got.len() == v.recv_next
            &&& forall|i: int|
                0 <= i < got.len() ==> #[trigger] got[i] == received(
                    first_copy(events, i as u32)->0,
                ).data
        }),
    decreases events.len(),
{
    let w = run(initial(), events);
    let got = taken(initial(), events);
    if events.len() == 0 {
        assert forall|sn: u32| #[trigger]
            has_come(w, sn) <==> first_copy(events, sn) is Some by {}
    } else {
        let before = events.drop_last();
        let v = run(initial(), before);
        let had = taken(initial(), before);
        lemma_first_copies(before);
        law_run_keeps_wf(initial(), before);
        // A copy that was there stays the first.
        assert forall|sn: u32| #[trigger] has_come(v, sn) implies first_copy(events, sn)
            == first_copy(before, sn) by {}
        assert forall|i: int| 0 <= i < had.len() implies #[trigger] had[i] == received(
            first_copy(events, i as u32)->0,
        ).data by {
            assert(has_come(v, i as u32));
        }
        match events.last() {
            Event::Message { msg, now } => {
                let t = v.at(now);
                assert(t.outstanding() =~= v.outstanding());
                let push = msg matches MsgView::RecvData(f) && f.cmd == CMD_PUSH;
                if push {
                    let f = msg->RecvData_0;
                    let u = t.after_push(f);
                    lemma_push_comes(t, f);
                    assert(w.recv_next == v.recv_next);
                    if f.sn < v.recv_next {
                        assert(u == t);
                    }
                    assert(w.recv_buf == u.recv_buf);
                    assert forall|sn: u32| #[trigger]
                        has_come(w, sn) <==> first_copy(events, sn) is Some by {
                        assert(has_come(u, sn) <==> has_come(t, sn) || sn == f.sn);
                        assert(has_come(t, sn) <==> has_come(v, sn));
                        assert(has_come(u, sn) <==> has_come(w, sn));
                    }
                    assert forall|i: int| 0 <= i < w.recv_buf.len() implies
                        #[trigger] w.recv_buf[i] == received(
                        first_copy(events, w.recv_buf[i].seg_no)->0,
                    ) by {
                        let s = w.recv_buf[i];
                        assert(s == u.recv_buf[i]);
                        if t.recv_buf.contains(s) {
                            let j = choose|j: int| 0 <= j < v.recv_buf.len() && v.recv_buf[j] == s;
                            assert(v.recv_buf[j].seg_no == s.seg_no);
                            assert(has_come(v, s.seg_no));
                        } else {
                            assert(!has_come(v, f.sn));
                            assert(first_copy(events, f.sn) == Some(f));
                        }
                    }
                } else {
                    assert(w.recv_buf == v.recv_buf && w.recv_next == v.recv_next);
                    assert forall|sn: u32| #[trigger]
                        has_come(w, sn) <==> first_copy(events, sn) is Some by {
                        assert(has_come(w, sn) <==> has_come(v, sn));
                    }
                    assert forall|i: int| 0 <= i < w.recv_buf.len() implies
                        #[trigger] w.recv_buf[i] == received(
                        first_copy(events, w.recv_buf[i].seg_no)->0,
                    ) by {
                        assert(w.recv_buf[i] == v.recv_buf[i]);
                    }
                }
                assert(got == had);
            },
            Event::Took => {
                lemma_took_comes(v);
                assert forall|sn: u32| #[trigger]
                    has_come(w, sn) <==> first_copy(events, sn) is Some by {
                    assert(has_come(w, sn) <==> has_come(v, sn));
                }
                assert forall|i: int| 0 <= i < w.recv_buf.len() implies
                    #[trigger] w.recv_buf[i] == received(
                    first_copy(events, w.recv_buf[i].seg_no)->0,
                ) by {
                    assert(w.recv_buf[i] == v.recv_buf[i + 1]);
                }
                assert forall|i: int| 0 <= i < got.len() implies #[trigger] got[i] == received(
                    first_copy(events, i as u32)->0,
                ).data by {
                    if i < had.len() {
                        assert(got[i] == had[i]);
                    } else {
                        assert(got[i] == v.recv_buf[0].data);
                    }
                }
            },
        }
    }
}

/// The first copy counts: whatever later copies of a segment carry, what the reader
/// takes under a number is what the first frame with that number brought, and a
/// segment has come just when such a frame came.
pub proof fn law_first_copy_counts(events: Seq<Event>)
    requires
        all_possible(initial(), events),
    ensures
        forall|sn: u32| #[trigger]
            has_come(run(initial(), events), sn) <==> first_copy(events, sn) is Some,
        taken(initial(), events).len() == run(initial(), events).recv_next,
        forall|sn: u32|
            sn < taken(initial(), events).len() ==> (#[trigger] first_copy(
                events,
                sn,
            ) matches Some(f) && taken(initial(), events)[sn as int] == received(f).data),
{
    lemma_first_copies(events);
    let got = taken(initial(), events);
    assert forall|sn: u32| sn < got.len() implies (#[trigger] first_copy(
        events,
        sn,
    ) matches Some(f) && got[sn as int] == received(f).data) by {
        assert(has_come(run(initial(), events), sn));
        assert(got[sn as int] == received(first_copy(events, sn)->0).data);
    }
}

/// What an acknowledgement says is true when it is sent, and stays true.
proof fn lemma_answered(events: Seq<Event>, f: FrameView)
    requires
        all_possible(initial(), events),
        answered(initial(), events, f),
    ensures
        f == ack_frame_view(f.sn, f.una),
        has_come(run(initial(), events), f.sn),
        f.una <= run(initial(), events).recv_next,
    decreases events.len(),
{
    let before = events.drop_last();
    let v = run(initial(), before);
    let w = run(initial(), events);
    lemma_first_copies(before);
    lemma_first_copies(events);
    assert(v.recv_next <= w.recv_next);
    if answered(initial(), before, f) {
        lemma_answered(before, f);
        assert(first_copy(before, f.sn) is Some);
        assert(first_copy(events, f.sn) is Some);
    } else if let Event::Message { msg, now } = events.last() {
        let t = v.at(now);
        let first = t.msg_actions(msg);
        let actions = v.step_actions(msg, now);
        let k = choose|k: int| 0 <= k < actions.len() && actions[k] == ActionView::Ack(f);
        if k < first.len() {
            assert(first[k] == ActionView::Ack(f));
        } else {
            assert(t.after_msg(msg).flush_actions()[k - first.len()] == ActionView::Ack(f));
        }
        assert(first_copy(events, f.sn) is Some);
    }
}

/// What is acknowledged has been received: a segment that one side counts as
/// acknowledged has come at the other side, as long as every acknowledgement that
/// comes is one that the other side sent.
pub proof fn law_acked_has_come(at_a: Seq<Event>, at_b: Seq<Event>, sn: u32)
    requires
        all_possible(initial(), at_b),
        all_acks_come_from(at_a, at_b),
        acked(initial(), at_a, sn),
    ensures
        has_come(run(initial(), at_b), sn),
    decreases at_a.len(),
{
    let before = at_a.drop_last();
    if acked(initial(), before, sn) {
        assert forall|i: int| 0 <= i < before.len() implies ((
        #[trigger] before[i]) matches Event::Message { msg: MsgView::RecvData(g), now: _ } ==> (
        g.cmd == CMD_ACK ==> exists|f: FrameView| #[trigger]
            answered(initial(), at_b, f) && g == decode(encode(f)))) by {
            assert(before[i] == at_a[i]);
        }
        law_acked_has_come(before, at_b, sn);
    } else {
        assert(at_a[at_a.len() - 1] == at_a.last());
        if let Event::Message { msg: MsgView::RecvData(g), now: _ } = at_a.last() {
            let f = choose|f: FrameView| #[trigger]
                answered(initial(), at_b, f) && g == decode(encode(f));
            lemma_answered(at_b, f);
            law_decode_of_encode(f);
        }
    }
}

/// The acknowledgement that answers a segment settles it: once it comes back to the
/// side that transmitted the segment, that side counts the segment as acknowledged,
/// and with it every transmitted one below the number that the other side's reader
/// wants next.
pub proof fn law_answer_settles(
    b: InnerView,
    f: FrameView,
    now_b: u32,
    at_a: Seq<Event>,
    now_a: u32,
    sn: u32,
)
    requires
        f.cmd == CMD_PUSH,
        transmitted(initial(), at_a, sn),
        sn == f.sn || sn < b.recv_next,
        ({
            let a = b.step_actions(MsgView::RecvData(f), now_b)[0]->Ack_0;
            all_possible(
                initial(),
                at_a.push(
                    Event::Message { msg: MsgView::RecvData(decode(encode(a))), now: now_a },
                ),
            )
        }),
    ensures
        ({
            let a = b.step_actions(MsgView::RecvData(f), now_b)[0]->Ack_0;
            let all = at_a.push(
                Event::Message { msg: MsgView::RecvData(decode(encode(a))), now: now_a },
            );
            let w = run(initial(), all);
            &&& acked(initial(), all, sn)
            &&& sn < w.send_una || (sn - w.send_una < w.send_buf.len() && w.send_buf[sn
                - w.send_una].state == SegState::Sent)
        }),
{
    let a = b.step_actions(MsgView::RecvData(f), now_b)[0]->Ack_0;
    let all = at_a.push(Event::Message { msg: MsgView::RecvData(decode(encode(a))), now: now_a });
    law_push_effect(b, f, now_b);
    law_decode_of_encode(a);
    assert(all.drop_last() =~= at_a);
    assert(acked(initial(), all, sn));
    lemma_acked(all, sn);
}

/// What a finished shutdown means: once the writer is told that its close was
/// acknowledged, the close and everything that it wrote before have come at the
/// other side.
pub proof fn law_closed_means_all_come(at_a: Seq<Event>, at_b: Seq<Event>, i: int)
    requires
        all_possible(initial(), at_a),
        all_possible(initial(), at_b),
        all_acks_come_from(at_a, at_b),
        !taken(initial(), at_a).contains(None),
        0 <= i < written(at_a).len(),
        written(at_a)[i] is None,
        i < told(initial(), at_a).len(),
        told(initial(), at_a)[i] == WriterNoty::Closed,
    ensures
        forall|sn: u32| sn <= i ==> #[trigger] has_come(run(initial(), at_b), sn),
{
    law_closed_when_all_acked(at_a, i);
    assert forall|sn: u32| sn <= i implies #[trigger] has_come(run(initial(), at_b), sn) by {
        assert(acked(initial(), at_a, sn));
        law_acked_has_come(at_a, at_b, sn);
    }
}

} // verus!
