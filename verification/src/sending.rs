//! When and in what order segments are transmitted for the first time.

use vstd::prelude::*;

use crate::delivery::{all_possible, lemma_msg_sends, lemma_run_sends, run, written, Event};
use crate::model::{due, initial, lemma_sent_prefix, mark_all, ActionView, InnerView, MsgView};
use crate::notices::{first_unsent, lemma_transmitted, transmitted};
use crate::segment::SegView;

verus! {

/// The numbers of the segments among `actions` that were not transmitted in the
/// course of `events`, in order.
pub open spec fn fresh(v: InnerView, events: Seq<Event>, actions: Seq<ActionView>) -> Seq<u32>
    decreases actions.len(),
{
    if actions.len() == 0 {
        Seq::empty()
    } else {
        let before = fresh(v, events, actions.drop_last());
        match actions.last() {
            ActionView::Push(f) if !transmitted(v, events, f.sn) => before.push(f.sn),
            _ => before,
        }
    }
}

/// The numbers of the segments in the order of their first transmissions in the
/// course of `events`.
pub open spec fn first_sent(v: InnerView, events: Seq<Event>) -> Seq<u32>
    decreases events.len(),
{
    if events.len() == 0 {
        Seq::empty()
    } else {
        let before = events.drop_last();
        match events.last() {
            Event::Message { msg, now } => first_sent(v, before) + fresh(
                v,
                before,
                run(v, before).step_actions(msg, now),
            ),
            Event::Took => first_sent(v, before),
        }
    }
}

/// The numbers from `from` up to `to`.
pub open spec fn numbers(from: int, to: int) -> Seq<u32> {
    Seq::new((to - from) as nat, |i: int| (from + i) as u32)
}

proof fn lemma_fresh_add(
    v: InnerView,
    events: Seq<Event>,
    a: Seq<ActionView>,
    b: Seq<ActionView>,
)
    ensures
        fresh(v, events, a + b) == fresh(v, events, a) + fresh(v, events, b),
    decreases b.len(),
{
    if b.len() == 0 {
        assert(a + b =~= a);
        assert(fresh(v, events, a) + fresh(v, events, b) =~= fresh(v, events, a));
    } else {
        lemma_fresh_add(v, events, a, b.drop_last());
        assert((a + b).drop_last() =~= a + b.drop_last());
        assert(fresh(v, events, a + b) =~= fresh(v, events, a) + fresh(v, events, b));
    }
}

proof fn lemma_none_fresh(v: InnerView, events: Seq<Event>, actions: Seq<ActionView>)
    requires
        forall|i: int|
            0 <= i < actions.len() ==> ((#[trigger] actions[i]) matches ActionView::Push(f)
                ==> transmitted(v, events, f.sn)),
    ensures
        fresh(v, events, actions) == Seq::<u32>::empty(),
    decreases actions.len(),
{
    if actions.len() > 0 {
        let before = actions.drop_last();
        assert forall|i: int| 0 <= i < before.len() implies ((
        #[trigger] before[i]) matches ActionView::Push(f) ==> transmitted(v, events, f.sn)) by {
            assert(before[i] == actions[i]);
        }
        lemma_none_fresh(v, events, before);
        assert(actions[actions.len() - 1] == actions.last());
    }
}

proof fn lemma_all_fresh(v: InnerView, events: Seq<Event>, actions: Seq<ActionView>, from: int)
    requires
        0 <= from,
        from + actions.len() <= u32::MAX,
        forall|i: int|
            0 <= i < actions.len() ==> ((#[trigger] actions[i]) matches ActionView::Push(f)
                && f.sn == from + i && !transmitted(v, events, f.sn)),
    ensures
        fresh(v, events, actions) == numbers(from, from + actions.len()),
    decreases actions.len(),
{
    if actions.len() > 0 {
        let before = actions.drop_last();
        assert forall|i: int| 0 <= i < before.len() implies ((
        #[trigger] before[i]) matches ActionView::Push(f) && f.sn == from + i && !transmitted(
            v,
            events,
            f.sn,
        )) by {
            assert(before[i] == actions[i]);
        }
        lemma_all_fresh(v, events, before, from);
        assert(actions[actions.len() - 1] == actions.last());
    }
    assert(fresh(v, events, actions) =~= numbers(from, from + actions.len()));
}

/// One step transmits for the first time what it lets out of the queue.
proof fn lemma_step_fresh(events: Seq<Event>, msg: MsgView, now: u32)
    requires
        all_possible(initial(), events),
        run(initial(), events).admits(msg, now),
    ensures
        ({
            let v = run(initial(), events);
            let w = v.step(msg, now);
            &&& first_unsent(v) <= first_unsent(w)
            &&& fresh(initial(), events, v.step_actions(msg, now)) == numbers(
                first_unsent(v),
                first_unsent(w),
            )
        }),
{
    let v = run(initial(), events);
    let t = v.at(now);
    let u = t.after_msg(msg);
    let w = v.step(msg, now);
    let first = t.msg_actions(msg);
    let rest = u.flush_actions();
    lemma_run_sends(events);
    lemma_msg_sends(v, written(events), msg, now);
    if let MsgView::RecvData(f) = msg {
        lemma_sent_prefix(mark_all(f, t.send_buf));
    }
    assert(first_unsent(u) == first_unsent(v));
    assert forall|i: int| 0 <= i < first.len() implies ((
    #[trigger] first[i]) matches ActionView::Push(f) ==> transmitted(initial(), events, f.sn)) by {
        if let ActionView::Push(f) = first[i] {
            if msg is CheckResend {
                let pred = |s: SegView| due(s, t.now);
                let chosen = t.send_buf.filter(pred);
                t.send_buf.lemma_filter_contains_rev(pred, chosen[i]);
                let j = choose|j: int| 0 <= j < t.send_buf.len() && t.send_buf[j] == chosen[i];
                assert(v.outstanding()[j] == t.send_buf[j]);
                lemma_transmitted(events, f.sn);
            }
        }
    }
    lemma_none_fresh(initial(), events, first);
    assert(u.outstanding().len() == u.send_buf.len() + u.send_queue.len());
    assert forall|i: int| 0 <= i < rest.len() implies ((
    #[trigger] rest[i]) matches ActionView::Push(f) && f.sn == first_unsent(u) + i && !transmitted(
        initial(),
        events,
        f.sn,
    )) by {
        assert(u.outstanding()[u.send_buf.len() + i] == u.send_queue[i]);
        lemma_transmitted(events, (first_unsent(u) + i) as u32);
    }
    lemma_all_fresh(initial(), events, rest, first_unsent(u));
    lemma_fresh_add(initial(), events, first, rest);
    assert(fresh(initial(), events, v.step_actions(msg, now)) =~= numbers(
        first_unsent(v),
        first_unsent(w),
    ));
}

/// Segments are transmitted for the first time in the order in which the writer
/// gave the commands, each number once and none left out.
pub proof fn law_first_sent_in_order(events: Seq<Event>)
    requires
        all_possible(initial(), events),
    ensures
        first_sent(initial(), events).len() <= written(events).len(),
        forall|i: int|
            0 <= i < first_sent(initial(), events).len() ==> #[trigger] first_sent(
                initial(),
                events,
            )[i] == i,
        forall|sn: u32|
            sn < first_sent(initial(), events).len() <==> #[trigger] transmitted(
                initial(),
                events,
                sn,
            ),
{
    let v = run(initial(), events);
    lemma_first_sent(events);
    lemma_run_sends(events);
    assert(v.outstanding().len() == v.send_buf.len() + v.send_queue.len());
    assert forall|sn: u32|
        sn < first_sent(initial(), events).len() <==> #[trigger] transmitted(
            initial(),
            events,
            sn,
        ) by {
        lemma_transmitted(events, sn);
    }
}

proof fn lemma_first_sent(events: Seq<Event>)
    requires
        all_possible(initial(), events),
    ensures
        first_sent(initial(), events) == numbers(0, first_unsent(run(initial(), events))),
    decreases events.len(),
{
    if events.len() > 0 {
        lemma_first_sent(events.drop_last());
        if let Event::Message { msg, now } = events.last() {
            lemma_step_fresh(events.drop_last(), msg, now);
        }
    }
    assert(first_sent(initial(), events) =~= numbers(0, first_unsent(run(initial(), events))));
}

/// A segment is transmitted for the first time while its own command is handled, if
/// and only if fewer segments are unacknowledged then than the limit and two; all
/// that waited goes out before it.
pub proof fn law_sent_with_its_command(events: Seq<Event>, msg: MsgView, now: u32)
    requires
        all_possible(initial(), events.push(Event::Message { msg, now })),
        msg is WriteData || msg is Close,
    ensures
        ({
            let v = run(initial(), events);
            let own = written(events).len() as u32;
            let sent = fresh(initial(), events, v.step_actions(msg, now));
            &&& own == written(events).len()
            &&& !transmitted(initial(), events, own)
            &&& v.outstanding().len() < 2 + v.send_wnd_limit ==> sent == numbers(
                first_unsent(v),
                own + 1,
            ) && transmitted(initial(), events.push(Event::Message { msg, now }), own)
            &&& v.outstanding().len() >= 2 + v.send_wnd_limit ==> sent == Seq::<u32>::empty()
                && !transmitted(initial(), events.push(Event::Message { msg, now }), own)
        }),
{
    let all = events.push(Event::Message { msg, now });
    let v = run(initial(), events);
    assert(all.drop_last() =~= events);
    let own = written(events).len() as u32;
    let t = v.at(now);
    let u = t.after_msg(msg);
    lemma_run_sends(events);
    lemma_run_sends(all);
    lemma_step_fresh(events, msg, now);
    lemma_transmitted(events, own);
    lemma_transmitted(all, own);
    assert(v.outstanding().len() == v.send_buf.len() + v.send_queue.len());
    assert(u.outstanding().len() == v.outstanding().len() + 1);
    if !u.can_flush() {
        assert(numbers(first_unsent(v), first_unsent(v)) =~= Seq::empty());
    }
}

} // verus!
