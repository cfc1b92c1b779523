//! What the writer is told of what it wrote, over any run of events.

use vstd::prelude::*;

use crate::delivery::{
    adds, all_possible, lemma_msg_sends, lemma_run_sends, pushed, run, sends, taken, written, Event,
};
use crate::frame::{FrameView, CMD_ACK, CMD_PUSH};
use crate::model::{
    due, initial, law_step_keeps_wf, lemma_sent_prefix, mark_all, piece_noty, ActionView,
    InnerView, MsgView,
};
use crate::segment::{push_frame, SegState, SegView};
use crate::stream::WriterNoty;

verus! {

/// The notifications among `actions`, in order.
pub open spec fn notices(actions: Seq<ActionView>) -> Seq<WriterNoty>
    decreases actions.len(),
{
    if actions.len() == 0 {
        Seq::empty()
    } else {
        let before = notices(actions.drop_last());
        match actions.last() {
            ActionView::Notify(noty) => before.push(noty),
            _ => before,
        }
    }
}

/// What the writer is told in the course of `events`. Besides the actions of the
/// steps, the reader's taking the end of the stream tells it that all is over.
pub open spec fn told(v: InnerView, events: Seq<Event>) -> Seq<WriterNoty>
    decreases events.len(),
{
    if events.len() == 0 {
        Seq::empty()
    } else {
        let before = told(v, events.drop_last());
        let u = run(v, events.drop_last());
        match events.last() {
            Event::Message { msg, now } => before + notices(u.step_actions(msg, now)),
            Event::Took => if u.recv_buf[0].data is Some {
                before
            } else {
                before.push(WriterNoty::Closed)
            },
        }
    }
}

/// Whether segment `sn` was transmitted in the course of `events`.
pub open spec fn transmitted(v: InnerView, events: Seq<Event>, sn: u32) -> bool {
    exists|f: FrameView| #[trigger] pushed(v, events, f) && f.sn == sn
}

/// Whether segment `sn` was acknowledged in the course of `events`: after it had
/// been transmitted, an acknowledgement came with its number, or of all before a
/// later one.
pub open spec fn acked(v: InnerView, events: Seq<Event>, sn: u32) -> bool
    decreases events.len(),
{
    events.len() > 0 && (acked(v, events.drop_last(), sn) || (events.last() matches Event::Message {
        msg: MsgView::RecvData(f),
        now: _,
    } && f.cmd == CMD_ACK && (f.sn == sn || sn < f.una) && transmitted(
        v,
        events.drop_last(),
        sn,
    )))
}

/// The number of the first segment that was never transmitted.
pub open spec fn first_unsent(v: InnerView) -> int {
    v.send_una + v.send_buf.len()
}

/// Whether `v` counts segment `sn` as acknowledged.
pub open spec fn counted(v: InnerView, sn: u32) -> bool {
    sn < v.send_una || (sn < first_unsent(v) && v.send_buf[sn - v.send_una].state
        == SegState::Sent)
}

proof fn lemma_notices_add(a: Seq<ActionView>, b: Seq<ActionView>)
    ensures
        notices(a + b) == notices(a) + notices(b),
    decreases b.len(),
{
    if b.len() == 0 {
        assert(a + b =~= a);
        assert(notices(a) + notices(b) =~= notices(a));
    } else {
        lemma_notices_add(a, b.drop_last());
        assert((a + b).drop_last() =~= a + b.drop_last());
        assert(notices(a + b) =~= notices(a) + notices(b));
    }
}

proof fn lemma_no_notices(actions: Seq<ActionView>)
    requires
        forall|i: int| 0 <= i < actions.len() ==> !((#[trigger] actions[i]) is Notify),
    ensures
        notices(actions) == Seq::<WriterNoty>::empty(),
    decreases actions.len(),
{
    if actions.len() > 0 {
        let before = actions.drop_last();
        assert forall|i: int| 0 <= i < before.len() implies !((#[trigger] before[i]) is Notify) by {
            assert(before[i] == actions[i]);
        }
        lemma_no_notices(before);
        assert(!(actions[actions.len() - 1] is Notify));
    }
}

proof fn lemma_all_notices(actions: Seq<ActionView>, notys: Seq<WriterNoty>)
    requires
        actions.len() == notys.len(),
        forall|i: int|
            0 <= i < actions.len() ==> #[trigger] actions[i] == ActionView::Notify(notys[i]),
    ensures
        notices(actions) == notys,
    decreases actions.len(),
{
    if actions.len() > 0 {
        let before = actions.drop_last();
        assert forall|i: int| 0 <= i < before.len() implies #[trigger] before[i]
            == ActionView::Notify(notys.drop_last()[i]) by {
            assert(before[i] == actions[i]);
        }
        lemma_all_notices(before, notys.drop_last());
        assert(actions[actions.len() - 1] == ActionView::Notify(notys[actions.len() - 1]));
        assert(notices(actions) =~= notys);
    } else {
        assert(notices(actions) =~= notys);
    }
}

/// One step tells the writer of the segments that it moves `send_una` past.
proof fn lemma_step_tells(v: InnerView, sent: Seq<Option<Seq<u8>>>, msg: MsgView, now: u32)
    requires
        sends(v, sent),
        v.admits(msg, now),
    ensures
        ({
            let w = v.step(msg, now);
            &&& v.send_una <= w.send_una <= sent.len()
            &&& notices(v.step_actions(msg, now)) == sent.subrange(
                v.send_una as int,
                w.send_una as int,
            ).map_values(|p: Option<Seq<u8>>| piece_noty(p))
        }),
{
    let t = v.at(now);
    let w = v.step(msg, now);
    let first = t.msg_actions(msg);
    let rest = t.after_msg(msg).flush_actions();
    let notys = sent.subrange(v.send_una as int, w.send_una as int).map_values(
        |p: Option<Seq<u8>>| piece_noty(p),
    );
    lemma_no_notices(rest);
    lemma_notices_add(first, rest);
    assert(notices(first) + Seq::<WriterNoty>::empty() =~= notices(first));
    assert(v.outstanding().len() == v.send_buf.len() + v.send_queue.len());
    let ack = msg matches MsgView::RecvData(f) && f.cmd != CMD_PUSH;
    if ack {
        let f = msg->RecvData_0;
        let n = t.ack_count(f) as int;
        let marked = mark_all(f, t.send_buf);
        lemma_sent_prefix(marked);
        assert forall|i: int| 0 <= i < first.len() implies #[trigger] first[i]
            == ActionView::Notify(notys[i]) by {
            assert(v.outstanding()[i] == v.send_buf[i]);
            assert(marked[i].data == v.send_buf[i].data);
        }
        lemma_all_notices(first, notys);
    } else {
        assert(notys =~= Seq::empty());
        lemma_no_notices(first);
    }
}

/// The transmitted segments are those below `first_unsent`.
pub(crate) proof fn lemma_transmitted(events: Seq<Event>, sn: u32)
    requires
        all_possible(initial(), events),
    ensures
        transmitted(initial(), events, sn) <==> sn < first_unsent(run(initial(), events)),
    decreases events.len(),
{
    if events.len() > 0 {
        let before = events.drop_last();
        let v = run(initial(), before);
        let w = run(initial(), events);
        lemma_transmitted(before, sn);
        lemma_run_sends(before);
        assert(v.outstanding().len() == v.send_buf.len() + v.send_queue.len());
        if let Event::Message { msg, now } = events.last() {
            let t = v.at(now);
            let u = t.after_msg(msg);
            let first = t.msg_actions(msg);
            let actions = v.step_actions(msg, now);
            lemma_msg_sends(v, written(before), msg, now);
            if let MsgView::RecvData(f) = msg {
                lemma_sent_prefix(mark_all(f, t.send_buf));
            }
            assert(first_unsent(u) == first_unsent(v));
            if transmitted(initial(), events, sn) {
                let f = choose|f: FrameView| #[trigger]
                    pushed(initial(), events, f) && f.sn == sn;
                if pushed(initial(), before, f) {
                    assert(transmitted(initial(), before, sn));
                } else {
                    assert(actions.contains(ActionView::Push(f)));
                    let k = choose|k: int| 0 <= k < actions.len() && actions[k]
                        == ActionView::Push(f);
                    if k < first.len() {
                        assert(first[k] == ActionView::Push(f));
                        if msg is CheckResend {
                            let pred = |s: SegView| due(s, t.now);
                            let chosen = t.send_buf.filter(pred);
                            t.send_buf.lemma_filter_contains_rev(pred, chosen[k]);
                            let i = choose|i: int|
                                0 <= i < t.send_buf.len() && t.send_buf[i] == chosen[k];
                            assert(v.outstanding()[i] == t.send_buf[i]);
                            assert(f == push_frame(t.send_buf[i]));
                        }
                    } else {
                        let j = k - first.len();
                        assert(u.flush_actions()[j] == ActionView::Push(f));
                        assert(u.outstanding()[u.send_buf.len() + j] == u.send_queue[j]);
                    }
                }
            }
            if sn < first_unsent(w) {
                if sn < first_unsent(v) {
                    let f = choose|f: FrameView| #[trigger]
                        pushed(initial(), before, f) && f.sn == sn;
                    assert(pushed(initial(), events, f));
                } else {
                    let j = sn - first_unsent(u);
                    assert(u.outstanding()[u.send_buf.len() + j] == u.send_queue[j]);
                    let f = push_frame(crate::model::launched(u.send_queue[j], u.now));
                    assert(u.flush_actions()[j] == ActionView::Push(f));
                    assert(actions[first.len() + j] == ActionView::Push(f));
                    assert(pushed(initial(), events, f));
                }
            }
        } else {
            if transmitted(initial(), events, sn) {
                let f = choose|f: FrameView| #[trigger]
                    pushed(initial(), events, f) && f.sn == sn;
                assert(pushed(initial(), before, f));
            }
            if sn < first_unsent(w) {
                let f = choose|f: FrameView| #[trigger]
                    pushed(initial(), before, f) && f.sn == sn;
                assert(pushed(initial(), events, f));
            }
        }
    } else {
        assert(!transmitted(initial(), events, sn));
    }
}

/// One step counts what the acknowledgement covers and nothing else.
proof fn lemma_step_counts(v: InnerView, msg: MsgView, now: u32, sn: u32)
    requires
        v.wf(),
        v.admits(msg, now),
    ensures
        counted(v.step(msg, now), sn) <==> counted(v, sn) || (msg matches MsgView::RecvData(f)
            && f.cmd == CMD_ACK && (f.sn == sn || sn < f.una) && sn < first_unsent(v)),
{
    let t = v.at(now);
    let w = v.step(msg, now);
    let u = t.after_msg(msg);
    law_step_keeps_wf(v, msg, now);
    let ack = msg matches MsgView::RecvData(f) && f.cmd != CMD_PUSH;
    if v.send_una <= sn < first_unsent(v) {
        assert(v.outstanding()[sn - v.send_una] == v.send_buf[sn - v.send_una]);
    }
    if ack {
        let f = msg->RecvData_0;
        let n = t.ack_count(f) as int;
        let marked = mark_all(f, t.send_buf);
        lemma_sent_prefix(marked);
        if v.send_una <= sn < first_unsent(v) {
            let i = sn - v.send_una;
            assert(marked[i] == crate::model::mark(f, v.send_buf[i]));
            if i >= n {
                assert(u.send_buf[i - n] == marked[i]);
                assert(w.send_buf[i - n] == marked[i]);
            }
        }
    }
    if first_unsent(v) <= sn < first_unsent(w) {
        assert(w.send_buf[sn - w.send_una].state == SegState::WaitAck);
    }
}

/// The acknowledged segments are those that the state counts.
pub(crate) proof fn lemma_acked(events: Seq<Event>, sn: u32)
    requires
        all_possible(initial(), events),
    ensures
        acked(initial(), events, sn) <==> counted(run(initial(), events), sn),
    decreases events.len(),
{
    if events.len() > 0 {
        let before = events.drop_last();
        lemma_acked(before, sn);
        lemma_transmitted(before, sn);
        lemma_run_sends(before);
        if let Event::Message { msg, now } = events.last() {
            lemma_step_counts(run(initial(), before), msg, now, sn);
        }
    }
}

/// `send_una` is the least number of a segment that was not acknowledged after it
/// had been transmitted. Acknowledgements that come again, and those of segments
/// that were never transmitted, do not move it.
pub proof fn law_una_is_first_unacked(events: Seq<Event>)
    requires
        all_possible(initial(), events),
    ensures
        forall|sn: u32|
            sn < run(initial(), events).send_una ==> #[trigger] acked(initial(), events, sn),
        !acked(initial(), events, run(initial(), events).send_una),
{
    let v = run(initial(), events);
    lemma_run_sends(events);
    assert forall|sn: u32| sn < v.send_una implies #[trigger] acked(initial(), events, sn) by {
        lemma_acked(events, sn);
    }
    lemma_acked(events, v.send_una);
}

proof fn lemma_told_below_una(events: Seq<Event>)
    requires
        all_possible(initial(), events),
        !taken(initial(), events).contains(None),
    ensures
        run(initial(), events).send_una <= written(events).len(),
        told(initial(), events) == written(events).take(
            run(initial(), events).send_una as int,
        ).map_values(|p: Option<Seq<u8>>| piece_noty(p)),
    decreases events.len(),
{
    let piece = |p: Option<Seq<u8>>| piece_noty(p);
    lemma_run_sends(events);
    let w = run(initial(), events);
    if events.len() == 0 {
        assert(told(initial(), events) =~= written(events).take(0).map_values(piece));
    } else {
        let before = events.drop_last();
        let v = run(initial(), before);
        let all = taken(initial(), events);
        if taken(initial(), before).contains(None) {
            let i = choose|i: int|
                0 <= i < taken(initial(), before).len() && taken(initial(), before)[i] is None;
            assert(all[i] is None);
            assert(all.contains(None));
        }
        lemma_told_below_una(before);
        lemma_run_sends(before);
        match events.last() {
            Event::Message { msg, now } => {
                lemma_step_tells(v, written(before), msg, now);
                assert(written(before) + adds(msg) =~= written(events));
                assert(told(initial(), events) =~= written(events).take(
                    w.send_una as int,
                ).map_values(piece));
            },
            Event::Took => {
                assert(all.last() == v.recv_buf[0].data);
                assert(all[all.len() - 1] == all.last());
                assert(v.recv_buf[0].data is Some);
            },
        }
    }
}

/// As long as the reader has not come to the end of the stream, the writer was
/// told of exactly the commands below `p`, the least number that was not
/// acknowledged: once for each, in the order in which it gave them, a larger
/// window for data and the end for a close.
pub proof fn law_told_of_each_acked(events: Seq<Event>, p: u32)
    requires
        all_possible(initial(), events),
        !taken(initial(), events).contains(None),
        forall|sn: u32| sn < p ==> #[trigger] acked(initial(), events, sn),
        !acked(initial(), events, p),
    ensures
        p == run(initial(), events).send_una,
        p <= written(events).len(),
        told(initial(), events) == written(events).take(p as int).map_values(
            |data: Option<Seq<u8>>| piece_noty(data),
        ),
{
    let una = run(initial(), events).send_una;
    law_una_is_first_unacked(events);
    if una < p {
        assert(acked(initial(), events, una));
    }
    lemma_told_below_una(events);
    assert(told(initial(), events) =~= written(events).take(p as int).map_values(
        |data: Option<Seq<u8>>| piece_noty(data),
    ));
}

/// The writer is told that the stream is closed when its close and everything that
/// it wrote before it were acknowledged, and not earlier.
pub proof fn law_closed_when_all_acked(events: Seq<Event>, i: int)
    requires
        all_possible(initial(), events),
        !taken(initial(), events).contains(None),
        0 <= i < written(events).len(),
        written(events)[i] is None,
    ensures
        (i < told(initial(), events).len() && told(initial(), events)[i] == WriterNoty::Closed)
            <==> (forall|sn: u32| sn <= i ==> #[trigger] acked(initial(), events, sn)),
{
    let v = run(initial(), events);
    law_una_is_first_unacked(events);
    law_told_of_each_acked(events, v.send_una);
    if forall|sn: u32| sn <= i ==> #[trigger] acked(initial(), events, sn) {
        if v.send_una <= i {
            assert(acked(initial(), events, v.send_una));
        }
    }
}

} // verus!
