//! What holds of a connection from one event to the next.

use vstd::prelude::*;

use crate::frame::{FrameView, CMD_PUSH};
use crate::model::{
    ack_noty, due, has_seg, lemma_count_below, lemma_rank,
    lemma_sent_prefix, mark, mark_all, push_all, ActionView, InnerView, MsgView,
};
use crate::segment::{ack_frame_view, push_frame, received, SegView};
use crate::stream::{noty_payload, read_next, ReadNext, ReadNoty, ReaderTry, WriterNoty};

verus! {

/// A segment that comes twice is stored once: the second time changes nothing,
/// whatever it carries.
pub proof fn law_duplicate_push(v: InnerView, f: FrameView, g: FrameView)
    requires
        v.wf(),
        f.sn == g.sn,
    ensures
        v.after_push(f).after_push(g) == v.after_push(f),
{
    if v.is_new(f.sn) {
        let k = lemma_rank(v.recv_buf, f.sn);
        lemma_count_below(v.recv_buf, f.sn, k);
        assert(v.after_push(f).recv_buf[k] == received(f));
    }
}

/// The order in which two segments come makes no difference.
pub proof fn law_push_order(v: InnerView, f: FrameView, g: FrameView)
    requires
        v.wf(),
        f.sn != g.sn,
    ensures
        v.after_push(f).after_push(g) == v.after_push(g).after_push(f),
{
    if f.sn < g.sn {
        lemma_push_order(v, f, g);
    } else {
        lemma_push_order(v, g, f);
    }
}

/// Where segment `f` stands between the received ones, and that it adds nothing
/// but itself.
proof fn lemma_inserted(v: InnerView, f: FrameView) -> (k: int)
    requires
        v.wf(),
        v.is_new(f.sn),
    ensures
        0 <= k <= v.recv_buf.len(),
        v.after_push(f).recv_buf == v.recv_buf.insert(k, received(f)),
        forall|i: int| 0 <= i < k ==> (#[trigger] v.recv_buf[i]).seg_no < f.sn,
        forall|i: int| k <= i < v.recv_buf.len() ==> (#[trigger] v.recv_buf[i]).seg_no > f.sn,
        forall|sn: u32|
            #[trigger] has_seg(v.after_push(f).recv_buf, sn) == (sn == f.sn || has_seg(
                v.recv_buf,
                sn,
            )),
{
    let k = lemma_rank(v.recv_buf, f.sn);
    lemma_count_below(v.recv_buf, f.sn, k);
    let w = v.after_push(f).recv_buf;
    assert(w[k] == received(f));
    assert forall|sn: u32| #[trigger] has_seg(w, sn) == (sn == f.sn || has_seg(
        v.recv_buf,
        sn,
    )) by {
        if has_seg(w, sn) {
            let i = choose|i: int| 0 <= i < w.len() && (#[trigger] w[i]).seg_no == sn;
            if i < k {
                assert(v.recv_buf[i].seg_no == sn);
            } else if i > k {
                assert(v.recv_buf[i - 1].seg_no == sn);
            }
        }
        if has_seg(v.recv_buf, sn) {
            let i = choose|i: int|
                0 <= i < v.recv_buf.len() && (#[trigger] v.recv_buf[i]).seg_no == sn;
            if i < k {
                assert(w[i].seg_no == sn);
            } else {
                assert(w[i + 1].seg_no == sn);
            }
        }
    }
    assert forall|i: int| k <= i < v.recv_buf.len() implies (#[trigger] v.recv_buf[i]).seg_no
        > f.sn by {
        assert(v.recv_buf[i].seg_no != f.sn);
    }
    k
}

proof fn lemma_push_order(v: InnerView, f: FrameView, g: FrameView)
    requires
        v.wf(),
        f.sn < g.sn,
    ensures
        v.after_push(f).after_push(g) == v.after_push(g).after_push(f),
{
    let vf = v.after_push(f);
    let vg = v.after_push(g);
    crate::model::law_push_keeps_wf(v, f);
    crate::model::law_push_keeps_wf(v, g);
    if v.is_new(f.sn) && v.is_new(g.sn) {
        let k = lemma_inserted(v, f);
        let l = lemma_inserted(v, g);
        assert(has_seg(vf.recv_buf, g.sn) == has_seg(v.recv_buf, g.sn));
        assert(has_seg(vg.recv_buf, f.sn) == has_seg(v.recv_buf, f.sn));
        if k > l {
            assert(v.recv_buf[l].seg_no < f.sn);
        }
        assert(k <= l);
        assert forall|i: int| 0 <= i < l + 1 implies (#[trigger] vf.recv_buf[i]).seg_no
            < g.sn by {
            if i < k {
                assert(vf.recv_buf[i] == v.recv_buf[i]);
            } else if i > k {
                assert(vf.recv_buf[i] == v.recv_buf[i - 1]);
            }
        }
        assert forall|i: int| l + 1 <= i < vf.recv_buf.len() implies (
        #[trigger] vf.recv_buf[i]).seg_no >= g.sn by {
            assert(vf.recv_buf[i] == v.recv_buf[i - 1]);
        }
        lemma_count_below(vf.recv_buf, g.sn, l + 1);
        assert forall|i: int| 0 <= i < k implies (#[trigger] vg.recv_buf[i]).seg_no < f.sn by {
            assert(vg.recv_buf[i] == v.recv_buf[i]);
        }
        assert forall|i: int| k <= i < vg.recv_buf.len() implies (
        #[trigger] vg.recv_buf[i]).seg_no >= f.sn by {
            if i < l {
                assert(vg.recv_buf[i] == v.recv_buf[i]);
            } else if i > l {
                assert(vg.recv_buf[i] == v.recv_buf[i - 1]);
            }
        }
        lemma_count_below(vg.recv_buf, f.sn, k);
        assert(vf.after_push(g).recv_buf =~= vg.after_push(f).recv_buf);
    } else if v.is_new(f.sn) {
        let k = lemma_inserted(v, f);
        assert(has_seg(vf.recv_buf, g.sn) == has_seg(v.recv_buf, g.sn));
    } else if v.is_new(g.sn) {
        let l = lemma_inserted(v, g);
        assert(has_seg(vg.recv_buf, f.sn) == has_seg(v.recv_buf, f.sn));
    }
}

/// Every frame with a segment is answered by exactly one acknowledgement, which
/// comes first and names the segment and the next one that the reader wants.
pub proof fn law_push_answered(v: InnerView, f: FrameView, now: u32)
    requires
        f.cmd == CMD_PUSH,
    ensures
        ({
            let actions = v.step_actions(MsgView::RecvData(f), now);
            &&& actions.len() > 0
            &&& actions[0] == ActionView::Ack(ack_frame_view(f.sn, v.recv_next))
            &&& forall|i: int| 1 <= i < actions.len() ==> (#[trigger] actions[i]) is Push
        }),
{
}

/// The next segment for the reader is at the head as soon as it has come.
pub proof fn law_ready_when_received(v: InnerView)
    requires
        v.wf(),
    ensures
        v.ready() == has_seg(v.recv_buf, v.recv_next),
{
    if v.ready() {
        assert(v.recv_buf[0].seg_no == v.recv_next);
    }
    if has_seg(v.recv_buf, v.recv_next) {
        let i = choose|i: int|
            0 <= i < v.recv_buf.len() && (#[trigger] v.recv_buf[i]).seg_no == v.recv_next;
        if i > 0 {
            assert(v.recv_buf[0].seg_no < v.recv_buf[i].seg_no);
        }
    }
}

/// What the reader had no room for is put back as it was.
pub proof fn law_put_back_undoes_take(v: InnerView)
    requires
        v.ready(),
    ensures
        v.with_head_data(None).with_head_data(v.recv_buf[0].data) == v,
{
    assert(v.with_head_data(None).with_head_data(v.recv_buf[0].data).recv_buf =~= v.recv_buf);
}

/// Handing the next segment out and going on leaves what going on leaves.
pub proof fn law_take_then_took(v: InnerView)
    requires
        v.ready(),
    ensures
        v.with_head_data(None).ready(),
        v.with_head_data(None).after_took() == v.after_took(),
{
    assert(v.with_head_data(None).after_took().recv_buf =~= v.after_took().recv_buf);
}

/// Serving the reader loses nothing and ends with the stream: when the reader takes
/// what it is handed, the connection goes on to the next segment, and is over just
/// when that segment was a close; when there is no room, everything is as before.
pub proof fn law_reader_served(v: InnerView, noty: ReadNoty)
    requires
        v.ready(),
        noty_payload(noty) == v.recv_buf[0].data,
    ensures
        v.with_head_data(None).after_try(ReaderTry::Took) == v.after_took(),
        v.with_head_data(None).after_try(ReaderTry::Full(noty)) == v,
        read_next(noty_payload(noty) is None, ReaderTry::Took) == if v.recv_buf[0].data is Some {
            ReadNext::More
        } else {
            ReadNext::Over(WriterNoty::Closed)
        },
{
    law_take_then_took(v);
    law_put_back_undoes_take(v);
    assert(v.recv_buf[0].data is None ==> v.with_head_data(None).recv_buf =~= v.recv_buf);
}

/// An acknowledgement is cumulative: no transmitted segment before its `una` is
/// left, and what is left at the head is not the segment it names.
pub proof fn law_ack_cumulative(v: InnerView, f: FrameView)
    requires
        v.wf(),
        v.ack_ok(f),
    ensures
        forall|i: int|
            0 <= i < v.after_ack(f).send_buf.len() ==> (#[trigger] v.after_ack(
                f,
            ).send_buf[i]).seg_no >= f.una,
        v.after_ack(f).send_buf.len() > 0 ==> v.after_ack(f).send_buf[0].seg_no != f.sn,
{
    let m = mark_all(f, v.send_buf);
    let n = v.ack_count(f) as int;
    let w = v.after_ack(f);
    lemma_sent_prefix(m);
    if w.send_buf.len() > 0 {
        assert(w.send_buf[0] == m[n]);
        assert(m[n] == mark(f, v.send_buf[n]));
        assert forall|i: int| 0 <= i < w.send_buf.len() implies (
        #[trigger] w.send_buf[i]).seg_no >= f.una by {
            assert(w.send_buf[i] == mark(f, v.send_buf[n + i]));
            assert(v.outstanding()[n + i] == v.send_buf[n + i]);
            assert(v.outstanding()[n] == v.send_buf[n]);
        }
    }
}

/// The same acknowledgement a second time opens no window, lets no segment go and
/// tells the writer nothing.
pub proof fn law_ack_repeated(v: InnerView, f: FrameView)
    requires
        v.wf(),
        v.ack_ok(f),
    ensures
        v.after_ack(f).ack_count(f) == 0,
        v.after_ack(f).ack_actions(f) == Seq::<ActionView>::empty(),
        v.after_ack(f).after_ack(f).send_buf == v.after_ack(f).send_buf,
        v.after_ack(f).after_ack(f).send_una == v.after_ack(f).send_una,
        v.after_ack(f).after_ack(f).write_wnd == v.after_ack(f).write_wnd,
{
    let m = mark_all(f, v.send_buf);
    let n = v.ack_count(f) as int;
    let w = v.after_ack(f);
    lemma_sent_prefix(m);
    let again = mark_all(f, w.send_buf);
    assert(again =~= w.send_buf) by {
        assert forall|i: int| 0 <= i < again.len() implies again[i] == w.send_buf[i] by {
            assert(w.send_buf[i] == mark(f, v.send_buf[n + i]));
        }
    }
    if w.send_buf.len() > 0 {
        assert(w.send_buf[0] == m[n]);
    }
    assert(w.ack_actions(f) =~= Seq::empty());
    assert(again.skip(0) =~= w.send_buf);
}

/// How many segments of `s` carry data.
pub open spec fn data_count(s: Seq<SegView>) -> nat
    decreases s.len(),
{
    if s.len() == 0 {
        0
    } else {
        data_count(s.drop_last()) + if s.last().data is Some {
            1nat
        } else {
            0nat
        }
    }
}

/// How many of `s` tell the writer that the window grew by one.
pub open spec fn window_incs(s: Seq<ActionView>) -> nat
    decreases s.len(),
{
    if s.len() == 0 {
        0
    } else {
        window_incs(s.drop_last()) + if s.last() == ActionView::Notify(
            WriterNoty::WindowInc(1),
        ) {
            1nat
        } else {
            0nat
        }
    }
}

/// How many of `s` tell the writer that the stream is closed.
pub open spec fn closings(s: Seq<ActionView>) -> nat
    decreases s.len(),
{
    if s.len() == 0 {
        0
    } else {
        closings(s.drop_last()) + if s.last() == ActionView::Notify(WriterNoty::Closed) {
            1nat
        } else {
            0nat
        }
    }
}

proof fn lemma_data_count_add(a: Seq<SegView>, b: Seq<SegView>)
    ensures
        data_count(a + b) == data_count(a) + data_count(b),
    decreases b.len(),
{
    if b.len() == 0 {
        assert(a + b =~= a);
    } else {
        assert((a + b).drop_last() =~= a + b.drop_last());
        lemma_data_count_add(a, b.drop_last());
    }
}

proof fn lemma_data_count_same(a: Seq<SegView>, b: Seq<SegView>)
    requires
        a.len() == b.len(),
        forall|i: int| 0 <= i < a.len() ==> (#[trigger] a[i]).data == b[i].data,
    ensures
        data_count(a) == data_count(b),
    decreases a.len(),
{
    if a.len() > 0 {
        assert(a[a.len() - 1].data == b[b.len() - 1].data);
        assert forall|i: int| 0 <= i < a.drop_last().len() implies (
        #[trigger] a.drop_last()[i]).data == b.drop_last()[i].data by {
            assert(a[i].data == b[i].data);
        }
        lemma_data_count_same(a.drop_last(), b.drop_last());
    }
}

proof fn lemma_notify_counts(s: Seq<SegView>)
    ensures
        ({
            let actions = s.map_values(|x: SegView| ActionView::Notify(ack_noty(x)));
            &&& window_incs(actions) == data_count(s)
            &&& window_incs(actions) + closings(actions) == s.len()
        }),
    decreases s.len(),
{
    if s.len() > 0 {
        let actions = s.map_values(|x: SegView| ActionView::Notify(ack_noty(x)));
        lemma_notify_counts(s.drop_last());
        assert(actions.drop_last() =~= s.drop_last().map_values(
            |x: SegView| ActionView::Notify(ack_noty(x)),
        ));
    }
}

proof fn lemma_no_notify(s: Seq<ActionView>)
    requires
        forall|i: int| 0 <= i < s.len() ==> !((#[trigger] s[i]) is Notify),
    ensures
        window_incs(s) == 0,
        closings(s) == 0,
    decreases s.len(),
{
    if s.len() > 0 {
        assert(!(s[s.len() - 1] is Notify));
        assert forall|i: int| 0 <= i < s.drop_last().len() implies !((
        #[trigger] s.drop_last()[i]) is Notify) by {
            assert(!(s[i] is Notify));
        }
        lemma_no_notify(s.drop_last());
    }
}

proof fn lemma_counts_add(a: Seq<ActionView>, b: Seq<ActionView>)
    ensures
        window_incs(a + b) == window_incs(a) + window_incs(b),
        closings(a + b) == closings(a) + closings(b),
    decreases b.len(),
{
    if b.len() == 0 {
        assert(a + b =~= a);
    } else {
        assert((a + b).drop_last() =~= a + b.drop_last());
        lemma_counts_add(a, b.drop_last());
    }
}

/// How many segments the message writes that carry data.
pub open spec fn data_written(msg: MsgView) -> nat {
    if msg is WriteData {
        1
    } else {
        0
    }
}

/// The window is kept in account: every segment of data takes one, and every one
/// acknowledged gives one back, of which the writer is told. Beyond that only an
/// acknowledged close adds one, of which the writer is told in its own way.
pub proof fn law_window_account(v: InnerView, msg: MsgView, now: u32)
    requires
        v.wf(),
        v.admits(msg, now),
    ensures
        ({
            let w = v.step(msg, now);
            let actions = v.step_actions(msg, now);
            &&& w.write_wnd + data_count(w.outstanding()) == v.write_wnd + data_count(
                v.outstanding(),
            ) + closings(actions)
            &&& data_count(w.outstanding()) == data_count(v.outstanding()) + data_written(msg)
                - window_incs(actions)
            &&& w.send_una == v.send_una + window_incs(actions) + closings(actions)
        }),
{
    let t = v.at(now);
    let u = t.after_msg(msg);
    let first = t.msg_actions(msg);
    assert(t.outstanding() =~= v.outstanding());
    match msg {
        MsgView::RecvData(f) => {
            if f.cmd == CMD_PUSH {
                assert(u.outstanding() =~= t.outstanding());
                lemma_no_notify(first);
            } else {
                lemma_ack_account(t, f);
            }
        },
        MsgView::WriteData(d) => {
            assert(u.outstanding() =~= t.outstanding().push(t.new_seg(Some(d))));
            assert(u.outstanding().drop_last() =~= t.outstanding());
            lemma_no_notify(first);
        },
        MsgView::CheckResend => {
            assert forall|i: int| 0 <= i < first.len() implies !((#[trigger] first[i]) is Notify)
                by {}
            lemma_no_notify(first);
        },
        MsgView::Close => {
            assert(u.outstanding() =~= t.outstanding().push(t.new_seg(None)));
            assert(u.outstanding().drop_last() =~= t.outstanding());
            lemma_no_notify(first);
        },
    }
    if !v.stale(msg) {
        let w = u.after_flush();
        let second = u.flush_actions();
        assert forall|i: int| 0 <= i < second.len() implies !((#[trigger] second[i]) is Notify)
            by {}
        lemma_no_notify(second);
        lemma_counts_add(first, second);
        assert(w.outstanding().len() == u.outstanding().len());
        assert forall|i: int| 0 <= i < w.outstanding().len() implies (
        #[trigger] w.outstanding()[i]).data == u.outstanding()[i].data by {}
        lemma_data_count_same(w.outstanding(), u.outstanding());
    }
}

proof fn lemma_ack_account(t: InnerView, f: FrameView)
    requires
        t.wf(),
        t.ack_ok(f),
    ensures
        ({
            let u = t.after_ack(f);
            let actions = t.ack_actions(f);
            &&& u.write_wnd + data_count(u.outstanding()) == t.write_wnd + data_count(
                t.outstanding(),
            ) + closings(actions)
            &&& data_count(u.outstanding()) == data_count(t.outstanding()) - window_incs(
                actions,
            )
            &&& u.send_una == t.send_una + window_incs(actions) + closings(actions)
        }),
{
    let u = t.after_ack(f);
    let m = mark_all(f, t.send_buf);
    let n = t.ack_count(f) as int;
    lemma_sent_prefix(m);
    lemma_notify_counts(m.take(n));
    assert(m.take(n) + u.outstanding() =~= m + t.send_queue);
    lemma_data_count_add(m.take(n), u.outstanding());
    assert forall|i: int| 0 <= i < t.outstanding().len() implies (
    #[trigger] (m + t.send_queue)[i]).data == t.outstanding()[i].data by {}
    lemma_data_count_same(m + t.send_queue, t.outstanding());
}

/// No more than the limit and two segments are ever on their way at once.
pub proof fn law_in_flight_bounded(v: InnerView, msg: MsgView, now: u32)
    requires
        v.wf(),
        v.admits(msg, now),
        v.send_buf.len() <= 2 + v.send_wnd_limit,
    ensures
        v.step(msg, now).send_buf.len() <= 2 + v.send_wnd_limit,
        v.step(msg, now).send_wnd_limit == v.send_wnd_limit,
{
    if let MsgView::RecvData(f) = msg {
        lemma_sent_prefix(mark_all(f, v.send_buf));
    }
}

/// The window lets the queue out whole: after any message that is no old segment,
/// nothing waits, or more than the limit and two segments are unacknowledged.
pub proof fn law_queue_goes_out(v: InnerView, msg: MsgView, now: u32)
    requires
        !v.stale(msg),
    ensures
        ({
            let w = v.step(msg, now);
            w.send_queue.len() == 0 || w.outstanding().len() > 2 + w.send_wnd_limit
        }),
{
    let u = v.at(now).after_msg(msg);
    if !u.can_flush() {
        assert(u.after_flush() == u);
    }
}

/// While the clock is in one half of its range, a retransmission time in the same
/// half has come when the clock has reached it.
pub proof fn law_due_in_one_half(s: SegView, now: u32)
    requires
        (now < 0x8000_0000) == (s.rexmit_timestamp < 0x8000_0000),
    ensures
        due(s, now) == (now >= s.rexmit_timestamp),
{
}

/// A transmitted segment whose time has come is sent again at every check until it
/// leaves, and no other is.
pub proof fn law_due_is_sent_again(v: InnerView, now: u32)
    ensures
        forall|i: int|
            0 <= i < v.send_buf.len() && due(v.send_buf[i], now) ==> v.step_actions(
                MsgView::CheckResend,
                now,
            ).contains(ActionView::Push(push_frame(#[trigger] v.send_buf[i]))),
        forall|a: ActionView| #[trigger]
            v.at(now).resend_actions().contains(a) ==> exists|i: int|
                0 <= i < v.send_buf.len() && due(v.send_buf[i], now) && a == ActionView::Push(
                    push_frame(#[trigger] v.send_buf[i]),
                ),
{
    let pred = |s: SegView| due(s, now);
    let chosen = v.send_buf.filter(pred);
    let again = v.at(now).resend_actions();
    let actions = v.step_actions(MsgView::CheckResend, now);
    assert(again == push_all(chosen));
    assert forall|i: int| 0 <= i < v.send_buf.len() && due(v.send_buf[i], now) implies
        actions.contains(ActionView::Push(push_frame(#[trigger] v.send_buf[i]))) by {
        v.send_buf.lemma_filter_contains(pred, i);
        let k = choose|k: int| 0 <= k < chosen.len() && chosen[k] == v.send_buf[i];
        assert(again[k] == ActionView::Push(push_frame(v.send_buf[i])));
        assert(actions[k] == again[k]);
    }
    assert forall|a: ActionView| #[trigger] again.contains(a) implies exists|i: int|
        0 <= i < v.send_buf.len() && due(v.send_buf[i], now) && a == ActionView::Push(
            push_frame(#[trigger] v.send_buf[i]),
        ) by {
        let k = choose|k: int| 0 <= k < again.len() && again[k] == a;
        v.send_buf.lemma_filter_pred(pred, k);
        assert(chosen.contains(chosen[k]));
        v.send_buf.lemma_filter_contains_rev(pred, chosen[k]);
        let i = choose|i: int| 0 <= i < v.send_buf.len() && v.send_buf[i] == chosen[k];
        assert(again[k] == ActionView::Push(push_frame(v.send_buf[i])));
    }
}

/// Numbers only grow, and a message moves nothing that the reader has not taken.
pub proof fn law_numbers_grow(v: InnerView, msg: MsgView, now: u32)
    requires
        v.wf(),
        v.admits(msg, now),
    ensures
        v.step(msg, now).send_sn >= v.send_sn,
        v.step(msg, now).send_una >= v.send_una,
        v.step(msg, now).recv_next == v.recv_next,
{
    law_window_account(v, msg, now);
}

} // verus!
