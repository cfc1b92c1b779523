//! What the reader on one side gets of what the writer on the other side wrote,
//! over any run of events and any loss, doubling and reordering of datagrams.

use vstd::prelude::*;

use crate::frame::{decode, encode, law_decode_of_encode, FrameView, CMD_PUSH};
use crate::model::{
    has_seg, initial, law_step_keeps_wf, law_took_keeps_wf, lemma_count_below,
    lemma_rank, lemma_sent_prefix, mark_all, ActionView, InnerView, MsgView,
};
use crate::segment::{push_frame, received, SegView};
use crate::stream::{
    accepted, handed, law_handed_is_accepted, law_reads_in_order, Inbox, Offer, ReaderView,
};

verus! {

/// What can happen to a connection.
pub enum Event {
    /// A message comes at a time.
    Message { msg: MsgView, now: u32 },
    /// The reader takes the next segment.
    Took,
}

/// The state after `e`.
pub open spec fn apply(v: InnerView, e: Event) -> InnerView {
    match e {
        Event::Message { msg, now } => v.step(msg, now),
        Event::Took => v.after_took(),
    }
}

/// Whether `e` can happen: the message can be handled, or the segment is there.
pub open spec fn possible(v: InnerView, e: Event) -> bool {
    match e {
        Event::Message { msg, now } => v.admits(msg, now),
        Event::Took => v.ready() && v.recv_next < u32::MAX,
    }
}

/// The state after `events`.
pub open spec fn run(v: InnerView, events: Seq<Event>) -> InnerView
    decreases events.len(),
{
    if events.len() == 0 {
        v
    } else {
        apply(run(v, events.drop_last()), events.last())
    }
}

/// Whether `events` can happen, one after the other.
pub open spec fn all_possible(v: InnerView, events: Seq<Event>) -> bool
    decreases events.len(),
{
    events.len() == 0 || (all_possible(v, events.drop_last()) && possible(
        run(v, events.drop_last()),
        events.last(),
    ))
}

/// What the writer wrote in the course of `events`: `None` for a close.
pub open spec fn written(events: Seq<Event>) -> Seq<Option<Seq<u8>>>
    decreases events.len(),
{
    if events.len() == 0 {
        Seq::empty()
    } else {
        let before = written(events.drop_last());
        match events.last() {
            Event::Message { msg: MsgView::WriteData(d), now: _ } => before.push(Some(d)),
            Event::Message { msg: MsgView::Close, now: _ } => before.push(None),
            _ => before,
        }
    }
}

/// What the reader took in the course of `events`: `None` for the end of the
/// stream.
pub open spec fn taken(v: InnerView, events: Seq<Event>) -> Seq<Option<Seq<u8>>>
    decreases events.len(),
{
    if events.len() == 0 {
        Seq::empty()
    } else {
        let before = taken(v, events.drop_last());
        match events.last() {
            Event::Took => before.push(run(v, events.drop_last()).recv_buf[0].data),
            _ => before,
        }
    }
}

/// Whether the frame `f` with a segment is sent in the course of `events`.
pub open spec fn pushed(v: InnerView, events: Seq<Event>, f: FrameView) -> bool
    decreases events.len(),
{
    events.len() > 0 && (pushed(v, events.drop_last(), f) || (events.last() matches Event::Message {
        msg,
        now,
    } && run(v, events.drop_last()).step_actions(msg, now).contains(ActionView::Push(f))))
}

/// Whether the frame `f` carries its segment of `sent`.
pub open spec fn carries(f: FrameView, sent: Seq<Option<Seq<u8>>>) -> bool {
    &&& f.sn < sent.len()
    &&& f.cmd == CMD_PUSH
    &&& f.data == match sent[f.sn as int] {
        Some(d) => d,
        None => Seq::empty(),
    }
    &&& f.len == f.data.len() % 0x1_0000_0000
}

/// Whether what is outstanding in `v` is the end of `sent`.
pub open spec fn sends(v: InnerView, sent: Seq<Option<Seq<u8>>>) -> bool {
    &&& v.wf()
    &&& v.send_sn == sent.len()
    &&& forall|i: int|
        0 <= i < v.outstanding().len() ==> (#[trigger] v.outstanding()[i]).data == sent[v.send_una
            + i]
}

/// Whether what was received in `v` is part of `sent`.
pub open spec fn holds(v: InnerView, sent: Seq<Option<Seq<u8>>>) -> bool {
    forall|i: int|
        0 <= i < v.recv_buf.len() ==> (#[trigger] v.recv_buf[i]).seg_no < sent.len()
            && v.recv_buf[i].data == sent[v.recv_buf[i].seg_no as int]
}

/// Whether a segment that `msg` brings is the one that `sent` has under its number.
pub open spec fn brings(msg: MsgView, sent: Seq<Option<Seq<u8>>>) -> bool {
    msg matches MsgView::RecvData(f) ==> (f.cmd == CMD_PUSH ==> f.sn < sent.len() && received(
        f,
    ).data == sent[f.sn as int])
}

/// Every state that a connection can reach is well formed.
pub proof fn law_run_keeps_wf(v: InnerView, events: Seq<Event>)
    requires
        v.wf(),
        all_possible(v, events),
    ensures
        run(v, events).wf(),
    decreases events.len(),
{
    if events.len() > 0 {
        law_run_keeps_wf(v, events.drop_last());
        let u = run(v, events.drop_last());
        match events.last() {
            Event::Message { msg, now } => law_step_keeps_wf(u, msg, now),
            Event::Took => law_took_keeps_wf(u),
        }
    }
}

/// The segments that one step adds to what was written.
pub open spec fn adds(msg: MsgView) -> Seq<Option<Seq<u8>>> {
    match msg {
        MsgView::WriteData(d) => seq![Some(d)],
        MsgView::Close => seq![None],
        _ => Seq::empty(),
    }
}

pub(crate) proof fn lemma_msg_sends(v: InnerView, sent: Seq<Option<Seq<u8>>>, msg: MsgView, now: u32)
    requires
        sends(v, sent),
        v.admits(msg, now),
    ensures
        ({
            let u = v.at(now).after_msg(msg);
            &&& u.send_sn == (sent + adds(msg)).len()
            &&& u.send_una + u.outstanding().len() == u.send_sn
            &&& forall|i: int|
                0 <= i < u.outstanding().len() ==> (#[trigger] u.outstanding()[i]).data == (sent
                    + adds(msg))[u.send_una + i] && u.outstanding()[i].seg_no == u.send_una + i
        }),
{
    let t = v.at(now);
    let u = t.after_msg(msg);
    let all = sent + adds(msg);
    assert(t.outstanding() =~= v.outstanding());
    match msg {
        MsgView::RecvData(f) => {
            assert(all =~= sent);
            if f.cmd == CMD_PUSH {
                assert(u.outstanding() =~= t.outstanding());
            } else {
                let n = t.ack_count(f) as int;
                lemma_sent_prefix(mark_all(f, t.send_buf));
                assert forall|i: int| 0 <= i < u.outstanding().len() implies (
                #[trigger] u.outstanding()[i]).data == all[u.send_una + i]
                    && u.outstanding()[i].seg_no == u.send_una + i by {
                    assert(u.outstanding()[i].data == v.outstanding()[n + i].data);
                    assert(u.outstanding()[i].seg_no == v.outstanding()[n + i].seg_no);
                }
            }
        },
        MsgView::WriteData(d) => {
            assert(u.outstanding() =~= t.outstanding().push(t.new_seg(Some(d))));
        },
        MsgView::CheckResend => {
            assert(all =~= sent);
        },
        MsgView::Close => {
            assert(u.outstanding() =~= t.outstanding().push(t.new_seg(None)));
        },
    }
}

proof fn lemma_step_sends(v: InnerView, sent: Seq<Option<Seq<u8>>>, msg: MsgView, now: u32)
    requires
        sends(v, sent),
        v.admits(msg, now),
    ensures
        sends(v.step(msg, now), sent + adds(msg)),
        forall|f: FrameView|
            #[trigger] v.step_actions(msg, now).contains(ActionView::Push(f)) ==> carries(
                f,
                sent + adds(msg),
            ),
{
    let t = v.at(now);
    let u = t.after_msg(msg);
    let w = v.step(msg, now);
    let all = sent + adds(msg);
    lemma_msg_sends(v, sent, msg, now);
    law_step_keeps_wf(v, msg, now);
    assert(t.outstanding() =~= v.outstanding());
    if v.stale(msg) {
        assert(all =~= sent);
    } else {
        assert forall|i: int| 0 <= i < w.outstanding().len() implies (
        #[trigger] w.outstanding()[i]).data == all[w.send_una + i] by {
            assert(w.outstanding()[i].data == u.outstanding()[i].data);
        }
    }
    assert forall|f: FrameView|
        #[trigger] v.step_actions(msg, now).contains(ActionView::Push(f)) implies carries(
        f,
        all,
    ) by {
        let first = t.msg_actions(msg);
        let actions = v.step_actions(msg, now);
        let k = choose|k: int| 0 <= k < actions.len() && actions[k] == ActionView::Push(f);
        if k < first.len() {
            assert(first[k] == ActionView::Push(f));
            if msg is CheckResend {
                let pred = |s: SegView| crate::model::due(s, t.now);
                let chosen = t.send_buf.filter(pred);
                t.send_buf.lemma_filter_contains_rev(pred, chosen[k]);
                let i = choose|i: int| 0 <= i < t.send_buf.len() && t.send_buf[i] == chosen[k];
                assert(v.outstanding()[i] == t.send_buf[i]);
                assert(all =~= sent);
                assert(f == push_frame(t.send_buf[i]));
            }
        } else {
            let j = k - first.len();
            assert(u.flush_actions()[j] == ActionView::Push(f));
            let i = u.send_buf.len() + j;
            assert(u.outstanding()[i] == u.send_queue[j]);
        }
    }
}

pub(crate) proof fn lemma_run_sends(events: Seq<Event>)
    requires
        all_possible(initial(), events),
    ensures
        sends(run(initial(), events), written(events)),
    decreases events.len(),
{
    if events.len() > 0 {
        let before = events.drop_last();
        lemma_run_sends(before);
        let u = run(initial(), before);
        match events.last() {
            Event::Message { msg, now } => {
                lemma_step_sends(u, written(before), msg, now);
                assert(written(before) + adds(msg) =~= written(events));
            },
            Event::Took => {
                law_took_keeps_wf(u);
                assert(u.after_took().outstanding() =~= u.outstanding());
            },
        }
    }
}

/// Whatever happens, every segment that is sent, the first time and any other,
/// carries what the writer wrote under its number.
pub proof fn law_sent_as_written(events: Seq<Event>, f: FrameView)
    requires
        all_possible(initial(), events),
        pushed(initial(), events, f),
    ensures
        carries(f, written(events)),
    decreases events.len(),
{
    let before = events.drop_last();
    lemma_run_sends(before);
    let u = run(initial(), before);
    if pushed(initial(), before, f) {
        law_sent_as_written(before, f);
        assert(written(before).len() <= written(events).len());
        assert(written(events)[f.sn as int] == written(before)[f.sn as int]);
    } else {
        match events.last() {
            Event::Message { msg, now } => {
                lemma_step_sends(u, written(before), msg, now);
                assert(written(before) + adds(msg) =~= written(events));
                assert(u.step_actions(msg, now).contains(ActionView::Push(f)));
            },
            Event::Took => {},
        }
    }
}

proof fn lemma_push_holds(v: InnerView, sent: Seq<Option<Seq<u8>>>, f: FrameView)
    requires
        v.wf(),
        holds(v, sent),
        f.sn < sent.len(),
        received(f).data == sent[f.sn as int],
    ensures
        holds(v.after_push(f), sent),
{
    let w = v.after_push(f);
    if v.is_new(f.sn) {
        let k = lemma_rank(v.recv_buf, f.sn);
        lemma_count_below(v.recv_buf, f.sn, k);
        assert forall|i: int| 0 <= i < w.recv_buf.len() implies (
        #[trigger] w.recv_buf[i]).seg_no < sent.len() && w.recv_buf[i].data
            == sent[w.recv_buf[i].seg_no as int] by {
            if i < k {
                assert(w.recv_buf[i] == v.recv_buf[i]);
            } else if i > k {
                assert(w.recv_buf[i] == v.recv_buf[i - 1]);
            }
        }
    }
}

/// Whether every segment that comes in the course of `events` is the one that
/// `sent` has under its number.
pub open spec fn all_bring(events: Seq<Event>, sent: Seq<Option<Seq<u8>>>) -> bool {
    forall|i: int|
        0 <= i < events.len() ==> ((#[trigger] events[i]) matches Event::Message { msg, now: _ }
            ==> brings(msg, sent))
}

proof fn lemma_run_holds(events: Seq<Event>, sent: Seq<Option<Seq<u8>>>)
    requires
        all_possible(initial(), events),
        all_bring(events, sent),
    ensures
        holds(run(initial(), events), sent),
        run(initial(), events).recv_next <= sent.len(),
        taken(initial(), events) == sent.take(run(initial(), events).recv_next as int),
    decreases events.len(),
{
    if events.len() == 0 {
        assert(taken(initial(), events) =~= sent.take(0));
    } else {
        let before = events.drop_last();
        assert forall|i: int| 0 <= i < before.len() implies ((
        #[trigger] before[i]) matches Event::Message { msg, now: _ } ==> brings(
            msg,
            sent,
        )) by {
            assert(before[i] == events[i]);
        }
        lemma_run_holds(before, sent);
        law_run_keeps_wf(initial(), before);
        let u = run(initial(), before);
        assert(events[events.len() - 1] == events.last());
        match events.last() {
            Event::Message { msg, now } => {
                let t = u.at(now);
                assert(t.outstanding() =~= u.outstanding());
                assert(brings(msg, sent));
                if let MsgView::RecvData(f) = msg {
                    if f.cmd == CMD_PUSH {
                        lemma_push_holds(t, sent, f);
                    }
                }
            },
            Event::Took => {
                let w = u.after_took();
                assert(u.recv_buf[0].seg_no == u.recv_next);
                assert forall|i: int| 0 <= i < w.recv_buf.len() implies (
                #[trigger] w.recv_buf[i]).seg_no < sent.len() && w.recv_buf[i].data
                    == sent[w.recv_buf[i].seg_no as int] by {
                    assert(w.recv_buf[i] == u.recv_buf[i + 1]);
                }
                assert(taken(initial(), events) =~= sent.take(w.recv_next as int));
            },
        }
    }
}

/// Whatever is lost, doubled or out of order, the reader takes the segments of
/// `sent` from the first on, each once and in order, as long as every segment
/// that comes is the one that `sent` has under its number.
pub proof fn law_taken_in_order(events: Seq<Event>, sent: Seq<Option<Seq<u8>>>)
    requires
        all_possible(initial(), events),
        all_bring(events, sent),
    ensures
        taken(initial(), events).len() == run(initial(), events).recv_next,
        taken(initial(), events).is_prefix_of(sent),
{
    lemma_run_holds(events, sent);
}

/// Whether every segment that comes at the receiving side, in the course of `at_b`,
/// is a datagram that the sending side sent in the course of `at_a`.
pub open spec fn all_come_from(at_b: Seq<Event>, at_a: Seq<Event>) -> bool {
    forall|i: int|
        0 <= i < at_b.len() ==> ((#[trigger] at_b[i]) matches Event::Message {
            msg: MsgView::RecvData(g),
            now: _,
        } ==> (g.cmd == CMD_PUSH ==> exists|f: FrameView| #[trigger]
            pushed(initial(), at_a, f) && g == decode(encode(f))))
}

/// Whether every piece of `sent` that is not a close can be told from one and fits
/// the `len` field.
pub open spec fn sendable(sent: Seq<Option<Seq<u8>>>) -> bool {
    forall|i: int|
        0 <= i < sent.len() ==> ((#[trigger] sent[i]) matches Some(d) ==> 0 < d.len()
            < 0x1_0000_0000)
}

/// The bytes of `pieces`, joined in order.
pub open spec fn joined(pieces: Seq<Option<Seq<u8>>>) -> Seq<u8>
    decreases pieces.len(),
{
    if pieces.len() == 0 {
        Seq::empty()
    } else {
        joined(pieces.drop_last()) + match pieces.last() {
            Some(d) => d,
            None => Seq::empty(),
        }
    }
}

proof fn lemma_joined_prefix(s: Seq<Option<Seq<u8>>>, k: int)
    requires
        0 <= k <= s.len(),
    ensures
        joined(s.take(k)).is_prefix_of(joined(s)),
    decreases s.len(),
{
    if k == s.len() {
        assert(s.take(k) =~= s);
    } else {
        assert(s.drop_last().take(k) =~= s.take(k));
        lemma_joined_prefix(s.drop_last(), k);
    }
}

/// The stream: what the reader takes on one side is the beginning of what the
/// writer wrote on the other side, piece by piece and byte by byte, whatever
/// datagrams are lost, doubled or out of order. Left out are pieces without a
/// byte, which read as a close, and those too long for the `len` field.
pub proof fn law_stream_end_to_end(at_a: Seq<Event>, at_b: Seq<Event>)
    requires
        all_possible(initial(), at_a),
        all_possible(initial(), at_b),
        all_come_from(at_b, at_a),
        sendable(written(at_a)),
    ensures
        taken(initial(), at_b).is_prefix_of(written(at_a)),
        joined(taken(initial(), at_b)).is_prefix_of(joined(written(at_a))),
{
    let sent = written(at_a);
    assert forall|i: int| 0 <= i < at_b.len() implies ((
    #[trigger] at_b[i]) matches Event::Message { msg, now: _ } ==> brings(msg, sent)) by {
        if let Event::Message { msg: MsgView::RecvData(g), now: _ } = at_b[i] {
            if g.cmd == CMD_PUSH {
                let f = choose|f: FrameView| #[trigger]
                    pushed(initial(), at_a, f) && g == decode(encode(f));
                law_sent_as_written(at_a, f);
                law_decode_of_encode(f);
                assert(sent[f.sn as int] matches Some(d) ==> 0 < d.len() < 0x1_0000_0000);
                assert(g == f);
                assert(received(g).data == sent[f.sn as int]);
            }
        }
    }
    law_taken_in_order(at_b, sent);
    let k = taken(initial(), at_b).len() as int;
    assert(taken(initial(), at_b) =~= sent.take(k));
    lemma_joined_prefix(sent, k);
}

proof fn lemma_received_not_empty(events: Seq<Event>)
    requires
        all_possible(initial(), events),
    ensures
        ({
            let v = run(initial(), events);
            forall|i: int|
                0 <= i < v.recv_buf.len() ==> ((#[trigger] v.recv_buf[i]).data matches Some(d)
                    ==> d.len() > 0)
        }),
    decreases events.len(),
{
    if events.len() > 0 {
        let before = events.drop_last();
        lemma_received_not_empty(before);
        law_run_keeps_wf(initial(), before);
        let u = run(initial(), before);
        let w = run(initial(), events);
        match events.last() {
            Event::Message { msg, now } => {
                if let MsgView::RecvData(f) = msg {
                    if f.cmd == CMD_PUSH && u.is_new(f.sn) {
                        let k = lemma_rank(u.recv_buf, f.sn);
                        lemma_count_below(u.recv_buf, f.sn, k);
                        assert(w.recv_buf =~= u.recv_buf.insert(k, received(f)));
                        assert forall|i: int| 0 <= i < w.recv_buf.len() implies ((
                        #[trigger] w.recv_buf[i]).data matches Some(d) ==> d.len() > 0) by {
                            if i < k {
                                assert(w.recv_buf[i] == u.recv_buf[i]);
                            } else if i > k {
                                assert(w.recv_buf[i] == u.recv_buf[i - 1]);
                            }
                        }
                    }
                }
            },
            Event::Took => {
                assert forall|i: int| 0 <= i < w.recv_buf.len() implies ((
                #[trigger] w.recv_buf[i]).data matches Some(d) ==> d.len() > 0) by {
                    assert(w.recv_buf[i] == u.recv_buf[i + 1]);
                }
            },
        }
    }
}

/// Whether `e` is the coming of a segment without a byte, the peer's end of the
/// stream.
pub open spec fn ends(e: Event) -> bool {
    e matches Event::Message { msg: MsgView::RecvData(f), now: _ } && f.cmd == CMD_PUSH
        && f.data.len() == 0
}

proof fn lemma_no_end_received(events: Seq<Event>)
    requires
        all_possible(initial(), events),
        forall|i: int| 0 <= i < events.len() ==> !ends(#[trigger] events[i]),
    ensures
        ({
            let v = run(initial(), events);
            forall|i: int| 0 <= i < v.recv_buf.len() ==> (#[trigger] v.recv_buf[i]).data is Some
        }),
        !taken(initial(), events).contains(None),
    decreases events.len(),
{
    if events.len() > 0 {
        let before = events.drop_last();
        assert forall|i: int| 0 <= i < before.len() implies !ends(#[trigger] before[i]) by {
            assert(before[i] == events[i]);
        }
        lemma_no_end_received(before);
        law_run_keeps_wf(initial(), before);
        let u = run(initial(), before);
        let w = run(initial(), events);
        assert(!ends(events[events.len() - 1]));
        match events.last() {
            Event::Message { msg, now } => {
                if let MsgView::RecvData(f) = msg {
                    if f.cmd == CMD_PUSH && u.is_new(f.sn) {
                        let k = lemma_rank(u.recv_buf, f.sn);
                        lemma_count_below(u.recv_buf, f.sn, k);
                        assert(w.recv_buf =~= u.recv_buf.insert(k, received(f)));
                    }
                }
            },
            Event::Took => {
                let all = taken(initial(), events);
                assert(all =~= taken(initial(), before).push(u.recv_buf[0].data));
                if all.contains(None) {
                    let i = choose|i: int| 0 <= i < all.len() && all[i] is None;
                    assert(taken(initial(), before)[i] is None);
                    assert(taken(initial(), before).contains(None));
                }
            },
        }
    }
}

/// The reader comes to the end of the stream only if the peer sent it.
pub proof fn law_end_comes_from_peer(events: Seq<Event>)
    requires
        all_possible(initial(), events),
        forall|i: int| 0 <= i < events.len() ==> !ends(#[trigger] events[i]),
    ensures
        !taken(initial(), events).contains(None),
{
    lemma_no_end_received(events);
}

/// Whatever comes, the reader is never handed a piece without a byte: one that
/// comes without a byte is the end of the stream.
pub proof fn law_taken_not_empty(events: Seq<Event>)
    requires
        all_possible(initial(), events),
    ensures
        forall|i: int|
            0 <= i < taken(initial(), events).len() ==> ((
            #[trigger] taken(initial(), events)[i]) matches Some(d) ==> d.len() > 0),
    decreases events.len(),
{
    if events.len() > 0 {
        let before = events.drop_last();
        let all = taken(initial(), events);
        law_taken_not_empty(before);
        lemma_received_not_empty(before);
        let u = run(initial(), before);
        assert forall|i: int| 0 <= i < all.len() implies ((
        #[trigger] all[i]) matches Some(d) ==> d.len() > 0) by {
            if i < taken(initial(), before).len() {
                assert(all[i] == taken(initial(), before)[i]);
            } else {
                assert(all[i] == u.recv_buf[0].data);
            }
        }
    }
}

/// The blocks of `pieces` up to the first close.
pub open spec fn blocks(pieces: Seq<Option<Seq<u8>>>) -> Seq<Seq<u8>>
    decreases pieces.len(),
{
    if pieces.len() == 0 {
        Seq::empty()
    } else {
        let before = blocks(pieces.drop_last());
        match pieces.last() {
            Some(d) if !pieces.drop_last().contains(None) => before.push(d),
            _ => before,
        }
    }
}

proof fn lemma_blocks(pieces: Seq<Option<Seq<u8>>>)
    requires
        forall|i: int|
            0 <= i < pieces.len() ==> ((#[trigger] pieces[i]) matches Some(d) ==> d.len() > 0),
    ensures
        forall|i: int|
            0 <= i < blocks(pieces).len() ==> (#[trigger] blocks(pieces)[i]).len() > 0,
        blocks(pieces).flatten().is_prefix_of(joined(pieces)),
        !pieces.contains(None) ==> blocks(pieces).flatten() == joined(pieces),
    decreases pieces.len(),
{
    if pieces.len() > 0 {
        let before = pieces.drop_last();
        assert forall|i: int| 0 <= i < before.len() implies ((
        #[trigger] before[i]) matches Some(d) ==> d.len() > 0) by {
            assert(before[i] == pieces[i]);
        }
        lemma_blocks(before);
        assert(pieces[pieces.len() - 1] == pieces.last());
        if before.contains(None) {
            let i = choose|i: int| 0 <= i < before.len() && before[i] is None;
            assert(pieces[i] is None);
            assert(pieces.contains(None));
        } else if let Some(d) = pieces.last() {
            blocks(before).lemma_flatten_push(d);
            assert(blocks(pieces).flatten() =~= joined(pieces));
        } else {
            assert(joined(pieces) =~= joined(before));
            assert(pieces.contains(None));
        }
    }
}

/// The stream as its two callers see it: however the reading side cuts its
/// buffers, the bytes it has read are the beginning of the bytes that the other
/// side wrote, and a read with room gives no bytes only after all that was taken
/// up to a close. Left out is what `law_stream_end_to_end` leaves out.
pub proof fn law_bytes_read_as_written(at_a: Seq<Event>, at_b: Seq<Event>, rooms: Seq<nat>)
    requires
        all_possible(initial(), at_a),
        all_possible(initial(), at_b),
        all_come_from(at_b, at_a),
        sendable(written(at_a)),
    ensures
        ({
            let inbox = Inbox {
                reader: ReaderView { pending: None, last_read: 0 },
                blocks: blocks(taken(initial(), at_b)),
            };
            &&& inbox.wf()
            &&& inbox.reads(rooms).is_prefix_of(joined(written(at_a)))
            &&& forall|room: nat|
                room > 0 && (#[trigger] inbox.after_reads(rooms).read(room)).len() == 0
                    ==> inbox.reads(rooms) == blocks(taken(initial(), at_b)).flatten()
        }),
{
    let pieces = taken(initial(), at_b);
    let inbox = Inbox {
        reader: ReaderView { pending: None, last_read: 0 },
        blocks: blocks(pieces),
    };
    law_stream_end_to_end(at_a, at_b);
    law_taken_not_empty(at_b);
    lemma_blocks(pieces);
    assert(inbox.left() =~= blocks(pieces).flatten());
    law_reads_in_order(inbox, rooms);
}

/// The commands that hand over the segments of `offers`, followed by a close.
pub open spec fn commands(offers: Seq<Offer>) -> Seq<Option<Seq<u8>>> {
    handed(offers).map_values(|s: Seq<u8>| Some(s)).push(None)
}

proof fn lemma_joined_segments(s: Seq<Seq<u8>>)
    ensures
        joined(s.map_values(|x: Seq<u8>| Some(x))) == s.flatten(),
    decreases s.len(),
{
    let pieces = s.map_values(|x: Seq<u8>| Some(x));
    s.lemma_flatten_and_flatten_alt_are_equivalent();
    if s.len() > 0 {
        let t = s.drop_last();
        lemma_joined_segments(t);
        t.lemma_flatten_and_flatten_alt_are_equivalent();
        assert(pieces.drop_last() =~= t.map_values(|x: Seq<u8>| Some(x)));
    } else {
        assert(joined(pieces) =~= s.flatten());
    }
}

/// The stream from write to read: over any number of writes, with whatever windows,
/// the bytes that the other side has read are the beginning of the bytes that the
/// writing side was told were written. The connection may have handled all the
/// commands of the writes, with or without the close, or only the first of them.
pub proof fn law_bytes_read_as_accepted(
    offers: Seq<Offer>,
    at_a: Seq<Event>,
    at_b: Seq<Event>,
    rooms: Seq<nat>,
)
    requires
        all_possible(initial(), at_a),
        all_possible(initial(), at_b),
        all_come_from(at_b, at_a),
        written(at_a).is_prefix_of(commands(offers)),
    ensures
        (Inbox {
            reader: ReaderView { pending: None, last_read: 0 },
            blocks: blocks(taken(initial(), at_b)),
        }).reads(rooms).is_prefix_of(accepted(offers)),
{
    let sent = written(at_a);
    let all = commands(offers);
    law_handed_is_accepted(offers);
    lemma_joined_segments(handed(offers));
    assert(all.drop_last() =~= handed(offers).map_values(|s: Seq<u8>| Some(s)));
    assert(joined(all) =~= accepted(offers));
    assert(sent =~= all.take(sent.len() as int));
    lemma_joined_prefix(all, sent.len() as int);
    assert forall|i: int| 0 <= i < sent.len() implies ((
    #[trigger] sent[i]) matches Some(d) ==> 0 < d.len() < 0x1_0000_0000) by {
        assert(sent[i] == all[i]);
        if i < handed(offers).len() {
            assert(sent[i] == Some(handed(offers)[i]));
        }
    }
    law_bytes_read_as_written(at_a, at_b, rooms);
}

/// `n` times the reader takes the next segment.
pub open spec fn takes(n: nat) -> Seq<Event> {
    Seq::new(n, |i: int| Event::Took)
}

/// As soon as the next `n` segments have come, in whatever order, the reader can
/// take all of them.
pub proof fn law_all_come_all_taken(v: InnerView, n: nat)
    requires
        v.wf(),
        v.recv_next + n <= u32::MAX,
        forall|sn: u32| v.recv_next <= sn < v.recv_next + n ==> #[trigger] has_seg(v.recv_buf, sn),
    ensures
        all_possible(v, takes(n)),
        run(v, takes(n)).recv_next == v.recv_next + n,
        run(v, takes(n)).recv_buf == v.recv_buf.skip(n as int),
        n <= v.recv_buf.len(),
        run(v, takes(n)).wf(),
    decreases n,
{
    if n == 0 {
        assert(v.recv_buf.skip(0) =~= v.recv_buf);
    } else {
        let m = (n - 1) as nat;
        law_all_come_all_taken(v, m);
        assert(takes(n).drop_last() =~= takes(m));
        let u = run(v, takes(m));
        let next = u.recv_next;
        assert(has_seg(v.recv_buf, next));
        let i = choose|i: int|
            0 <= i < v.recv_buf.len() && (#[trigger] v.recv_buf[i]).seg_no == next;
        lemma_taken_below(v, m);
        assert(i >= m);
        assert(u.recv_buf[i - m] == v.recv_buf[i]);
        assert(has_seg(u.recv_buf, next));
        crate::laws::law_ready_when_received(u);
        law_took_keeps_wf(u);
        assert(v.recv_buf.skip(m as int).skip(1) =~= v.recv_buf.skip(n as int));
    }
}

/// The segments that `n` takes remove are all numbered below the next one then.
proof fn lemma_taken_below(v: InnerView, n: nat)
    requires
        v.wf(),
        v.recv_next + n <= u32::MAX,
        all_possible(v, takes(n)),
        n <= v.recv_buf.len(),
    ensures
        forall|i: int|
            0 <= i < n ==> (#[trigger] v.recv_buf[i]).seg_no == v.recv_next + i,
        run(v, takes(n)).recv_next == v.recv_next + n,
        run(v, takes(n)).recv_buf == v.recv_buf.skip(n as int),
    decreases n,
{
    if n == 0 {
        assert(v.recv_buf.skip(0) =~= v.recv_buf);
    } else {
        let m = (n - 1) as nat;
        assert(takes(n).drop_last() =~= takes(m));
        lemma_taken_below(v, m);
        let u = run(v, takes(m));
        assert(u.recv_buf[0] == v.recv_buf[m as int]);
        assert(v.recv_buf.skip(m as int).skip(1) =~= v.recv_buf.skip(n as int));
    }
}

} // verus!
