//! When segments are sent again, and what the timeout is made of, over any run of
//! events.

use vstd::prelude::*;

use crate::delivery::{
    all_possible, carries, law_sent_as_written, lemma_run_sends, pushed, run, written, Event,
};
use crate::effects::{
    has_passed, law_ack_effect, law_ack_measures, law_check_effect, law_estimate_stays,
    law_push_effect, law_write_effect, lemma_last_named, names, sends_off, sends_segment,
};
use crate::frame::{FrameView, CMD_ACK, CMD_PUSH};
use crate::model::{initial, ActionView, InnerView, MsgView};
use crate::notices::{acked, first_unsent, lemma_acked, lemma_transmitted, transmitted};
use crate::segment::{SegState, SegView};

verus! {

/// A round-trip estimate, in milliseconds: the mean, its deviation, and the timeout.
pub struct Estimate {
    pub srtt: int,
    pub rttval: int,
    pub rto: int,
}

impl Estimate {
    /// The estimate with a round trip of `sample` milliseconds taken in: the first
    /// one sets it, a later one weighs an eighth of the mean and a quarter of the
    /// deviation.
    pub open spec fn with(self, sample: int) -> Estimate {
        let off = if sample > self.srtt {
            sample - self.srtt
        } else {
            self.srtt - sample
        };
        let mean = (7 * self.srtt + sample) / 8;
        let srtt = if self.srtt == 0 {
            sample
        } else if mean < 1 {
            1
        } else {
            mean
        };
        let rttval = if self.srtt == 0 {
            sample / 2
        } else {
            (3 * self.rttval + off) / 4
        };
        let spread = if 4 * rttval < 200 {
            200
        } else {
            4 * rttval
        };
        Estimate {
            srtt,
            rttval,
            rto: if srtt + spread < 30000 {
                srtt + spread
            } else {
                30000
            },
        }
    }
}

/// When segment `sn` was transmitted for the first time in the course of `events`.
pub open spec fn sent_at(events: Seq<Event>, sn: u32) -> int
    decreases events.len(),
{
    if events.len() == 0 {
        0
    } else if transmitted(initial(), events.drop_last(), sn) {
        sent_at(events.drop_last(), sn)
    } else {
        match events.last() {
            Event::Message { msg: _, now } => now as int,
            Event::Took => 0,
        }
    }
}

/// Whether the acknowledgement `f` names segment `sn` and finds it transmitted and
/// kept, with all below `send_una` gone.
pub open spec fn finds(events: Seq<Event>, f: FrameView, sn: u32) -> bool {
    &&& transmitted(initial(), events, sn)
    &&& run(initial(), events).send_una <= sn
    &&& sn == f.sn || sn < f.una
}

/// Whether `sn` is the last segment that the acknowledgement `f` finds.
pub open spec fn finds_last(events: Seq<Event>, f: FrameView, sn: u32) -> bool {
    finds(events, f, sn) && forall|m: u32| #[trigger] finds(events, f, m) ==> m <= sn
}

/// The round trip that the acknowledgement `f` measures at time `now`, after
/// `events`: the time since the last segment that it finds was first transmitted;
/// zero where it finds none.
pub open spec fn round_trip(events: Seq<Event>, f: FrameView, now: u32) -> int {
    if exists|sn: u32| finds_last(events, f, sn) {
        now - sent_at(events, choose|sn: u32| finds_last(events, f, sn))
    } else {
        0
    }
}

/// All positive round trips that were measured in the course of `events`, taken in
/// one after the other, none left out.
pub open spec fn estimate(events: Seq<Event>) -> Estimate
    decreases events.len(),
{
    if events.len() == 0 {
        Estimate { srtt: 0, rttval: 0, rto: 200 }
    } else {
        let before = estimate(events.drop_last());
        match events.last() {
            Event::Message { msg: MsgView::RecvData(f), now } if f.cmd == CMD_ACK && round_trip(
                events.drop_last(),
                f,
                now,
            ) > 0 => before.with(round_trip(events.drop_last(), f, now)),
            _ => before,
        }
    }
}

/// When segment `sn` is to be sent again: the timeout that the round trips measured
/// until then call for, and an eighth of it, after its command.
pub open spec fn deadline(events: Seq<Event>, sn: u32) -> int
    decreases events.len(),
{
    if events.len() == 0 {
        0
    } else {
        let before = events.drop_last();
        let rto = estimate(before).rto;
        match events.last() {
            Event::Message { msg, now } if (msg is WriteData || msg is Close) && written(
                before,
            ).len() == sn => now + rto + rto / 8,
            _ => deadline(before, sn),
        }
    }
}

/// Whether a check at time `now`, after `events`, sends segment `sn`.
pub open spec fn check_sends(events: Seq<Event>, now: u32, sn: u32) -> bool {
    exists|f: FrameView| #[trigger]
        run(initial(), events).step_actions(MsgView::CheckResend, now).contains(
            ActionView::Push(f),
        ) && f.sn == sn
}

/// Every segment kept for retransmission bears the time of its first transmission.
proof fn lemma_sent_at(events: Seq<Event>)
    requires
        all_possible(initial(), events),
    ensures
        ({
            let v = run(initial(), events);
            forall|i: int|
                0 <= i < v.send_buf.len() ==> (#[trigger] v.send_buf[i]).timestamp == sent_at(
                    events,
                    (v.send_una + i) as u32,
                )
        }),
    decreases events.len(),
{
    if events.len() > 0 {
        let before = events.drop_last();
        let v = run(initial(), before);
        let w = run(initial(), events);
        lemma_sent_at(before);
        lemma_run_sends(before);
        lemma_run_sends(events);
        assert(v.outstanding().len() == v.send_buf.len() + v.send_queue.len());
        assert(w.outstanding().len() == w.send_buf.len() + w.send_queue.len());
        assert forall|i: int| 0 <= i < w.send_buf.len() implies (
        #[trigger] w.send_buf[i]).timestamp == sent_at(events, (w.send_una + i) as u32) by {
            lemma_transmitted(before, (w.send_una + i) as u32);
            match events.last() {
                Event::Message { msg, now } => {
                    let n = lemma_step_keeps(v, msg, now);
                    if n + i < v.send_buf.len() {
                        assert(v.send_buf[n + i].timestamp == sent_at(
                            before,
                            (v.send_una + (n + i)) as u32,
                        ));
                    }
                },
                Event::Took => {},
            }
        }
    }
}

/// What one step keeps of the segments that were transmitted: all but the first few,
/// with their times. What it adds is transmitted now.
proof fn lemma_step_keeps(v: InnerView, msg: MsgView, now: u32) -> (n: int)
    requires
        v.wf(),
        v.admits(msg, now),
    ensures
        ({
            let w = v.step(msg, now);
            &&& n == w.send_una - v.send_una
            &&& 0 <= n <= v.send_buf.len()
            &&& v.send_buf.len() <= n + w.send_buf.len()
            &&& forall|i: int|
                0 <= i < w.send_buf.len() ==> if n + i < v.send_buf.len() {
                    &&& (#[trigger] w.send_buf[i]).timestamp == v.send_buf[n + i].timestamp
                    &&& w.send_buf[i].rexmit_timestamp == v.send_buf[n + i].rexmit_timestamp
                } else {
                    w.send_buf[i].timestamp == now
                }
        }),
{
    match msg {
        MsgView::RecvData(f) => {
            if f.cmd == CMD_PUSH {
                law_push_effect(v, f, now);
            } else {
                law_ack_effect(v, f, now);
            }
        },
        MsgView::CheckResend => {
            let picks = law_check_effect(v, now);
        },
        _ => {
            law_write_effect(v, msg, now);
        },
    }
    v.step(msg, now).send_una - v.send_una
}

/// The segments that `f` finds are those in the send buffer that it names.
proof fn lemma_finds(events: Seq<Event>, f: FrameView, sn: u32)
    requires
        all_possible(initial(), events),
    ensures
        ({
            let v = run(initial(), events);
            finds(events, f, sn) <==> v.send_una <= sn < first_unsent(v) && names(
                f,
                v.send_buf[sn - v.send_una],
            )
        }),
{
    let v = run(initial(), events);
    lemma_run_sends(events);
    lemma_transmitted(events, sn);
    if v.send_una <= sn < first_unsent(v) {
        assert(v.outstanding()[sn - v.send_una] == v.send_buf[sn - v.send_una]);
    }
}

proof fn lemma_round_trip(events: Seq<Event>, f: FrameView, now: u32)
    requires
        all_possible(initial(), events),
        f.cmd == CMD_ACK,
        run(initial(), events).admits(MsgView::RecvData(f), now),
    ensures
        ({
            let v = run(initial(), events);
            let w = v.step(MsgView::RecvData(f), now);
            let before = Estimate {
                srtt: v.srtt as int,
                rttval: v.rttval as int,
                rto: v.rto as int,
            };
            let after = Estimate {
                srtt: w.srtt as int,
                rttval: w.rttval as int,
                rto: w.rto as int,
            };
            let sample = round_trip(events, f, now);
            &&& sample > 0 ==> after == before.with(sample)
            &&& sample <= 0 ==> after == before
        }),
{
    let v = run(initial(), events);
    lemma_run_sends(events);
    lemma_sent_at(events);
    let k = lemma_last_named(f, v.send_buf);
    assert(v.outstanding().len() == v.send_buf.len() + v.send_queue.len());
    if k >= 0 {
        let last = (v.send_una + k) as u32;
        lemma_finds(events, f, last);
        assert forall|m: u32| #[trigger] finds(events, f, m) implies m <= last by {
            lemma_finds(events, f, m);
            if m > last {
                assert(!names(f, v.send_buf[m - v.send_una]));
            }
        }
        assert(finds_last(events, f, last));
        let other = choose|sn: u32| finds_last(events, f, sn);
        assert(finds_last(events, f, other));
        assert(finds(events, f, other) && finds(events, f, last));
        assert(other == last);
        assert(v.send_buf[k].timestamp == sent_at(events, last));
        law_ack_measures(v, f, now, k);
    } else {
        assert forall|sn: u32| !finds_last(events, f, sn) by {
            lemma_finds(events, f, sn);
        }
        law_estimate_stays(v, MsgView::RecvData(f), now);
    }
}

/// The estimate of a connection is made of all positive round trips that its
/// acknowledgements measured, in order and none left out: each is the time from the
/// first transmission of the last segment that the acknowledgement finds to the
/// coming of the acknowledgement.
pub proof fn law_estimate_of_round_trips(events: Seq<Event>)
    requires
        all_possible(initial(), events),
    ensures
        run(initial(), events).srtt == estimate(events).srtt,
        run(initial(), events).rttval == estimate(events).rttval,
        run(initial(), events).rto == estimate(events).rto,
    decreases events.len(),
{
    if events.len() > 0 {
        let before = events.drop_last();
        let v = run(initial(), before);
        law_estimate_of_round_trips(before);
        match events.last() {
            Event::Message { msg, now } => {
                let ack = msg matches MsgView::RecvData(f) && f.cmd == CMD_ACK;
                if ack {
                    lemma_round_trip(before, msg->RecvData_0, now);
                } else {
                    law_estimate_stays(v, msg, now);
                }
            },
            Event::Took => {},
        }
    }
}

/// Every outstanding segment bears its deadline.
proof fn lemma_deadlines(events: Seq<Event>)
    requires
        all_possible(initial(), events),
    ensures
        ({
            let v = run(initial(), events);
            forall|i: int|
                0 <= i < v.outstanding().len() ==> (
                #[trigger] v.outstanding()[i]).rexmit_timestamp == deadline(
                    events,
                    (v.send_una + i) as u32,
                )
        }),
    decreases events.len(),
{
    if events.len() > 0 {
        let before = events.drop_last();
        let v = run(initial(), before);
        let w = run(initial(), events);
        lemma_deadlines(before);
        lemma_run_sends(before);
        lemma_run_sends(events);
        law_estimate_of_round_trips(before);
        assert(v.outstanding().len() == v.send_buf.len() + v.send_queue.len());
        assert(w.outstanding().len() == w.send_buf.len() + w.send_queue.len());
        match events.last() {
            Event::Message { msg, now } => {
                let n = w.send_una - v.send_una;
                lemma_step_deadlines(v, msg, now);
                assert forall|i: int| 0 <= i < w.outstanding().len() implies (
                #[trigger] w.outstanding()[i]).rexmit_timestamp == deadline(
                    events,
                    (w.send_una + i) as u32,
                ) by {
                    if n + i < v.outstanding().len() {
                        assert(v.outstanding()[n + i].rexmit_timestamp == deadline(
                            before,
                            (v.send_una + (n + i)) as u32,
                        ));
                    }
                }
            },
            Event::Took => {
                assert(w.outstanding() =~= v.outstanding());
            },
        }
    }
}

/// Going out leaves every retransmission time as it was.
proof fn lemma_off_deadlines(
    held: Seq<SegView>,
    waiting: Seq<SegView>,
    limit: u32,
    now: u32,
    w: InnerView,
    pushes: Seq<ActionView>,
)
    requires
        sends_off(held, waiting, limit, now, w, pushes),
    ensures
        w.outstanding().len() == held.len() + waiting.len(),
        forall|i: int|
            0 <= i < w.outstanding().len() ==> (#[trigger] w.outstanding()[i]).rexmit_timestamp
                == (held + waiting)[i].rexmit_timestamp,
{
    assert forall|i: int| 0 <= i < w.outstanding().len() implies (
    #[trigger] w.outstanding()[i]).rexmit_timestamp == (held + waiting)[i].rexmit_timestamp by {
        if i < w.send_buf.len() {
            assert(w.outstanding()[i] == w.send_buf[i]);
        }
    }
}

/// No step changes a retransmission time, and a command sets that of its segment.
proof fn lemma_step_deadlines(v: InnerView, msg: MsgView, now: u32)
    requires
        v.wf(),
        v.admits(msg, now),
    ensures
        ({
            let w = v.step(msg, now);
            let n = w.send_una - v.send_una;
            &&& 0 <= n <= v.send_buf.len()
            &&& forall|i: int|
                0 <= i < w.outstanding().len() ==> if n + i < v.outstanding().len() {
                    (#[trigger] w.outstanding()[i]).rexmit_timestamp == v.outstanding()[n
                        + i].rexmit_timestamp
                } else {
                    &&& msg is WriteData || msg is Close
                    &&& n + i == v.outstanding().len()
                    &&& w.outstanding()[i].rexmit_timestamp == now + v.rto + v.rto / 8
                }
        }),
{
    let w = v.step(msg, now);
    let acts = v.step_actions(msg, now);
    let n = w.send_una - v.send_una;
    let limit = v.send_wnd_limit;
    match msg {
        MsgView::RecvData(f) => {
            if f.cmd == CMD_PUSH {
                law_push_effect(v, f, now);
                if f.sn >= v.recv_next {
                    lemma_off_deadlines(v.send_buf, v.send_queue, limit, now, w, acts.skip(1));
                }
            } else {
                law_ack_effect(v, f, now);
                let held = Seq::new(
                    (v.send_buf.len() - n) as nat,
                    |i: int|
                        SegView {
                            state: if names(f, v.send_buf[n + i]) {
                                SegState::Sent
                            } else {
                                v.send_buf[n + i].state
                            },
                            ..v.send_buf[n + i]
                        },
                );
                lemma_off_deadlines(held, v.send_queue, limit, now, w, acts.skip(n));
            }
        },
        MsgView::CheckResend => {
            let picks = law_check_effect(v, now);
            lemma_off_deadlines(
                v.send_buf,
                v.send_queue,
                limit,
                now,
                w,
                acts.skip(picks.len() as int),
            );
        },
        _ => {
            law_write_effect(v, msg, now);
            let seg = SegView {
                seg_no: v.send_sn,
                state: SegState::Init,
                timestamp: now,
                rexmit_timestamp: (now + v.rto + v.rto / 8) as u32,
                data: if msg is WriteData {
                    Some(msg->WriteData_0)
                } else {
                    None
                },
            };
            lemma_off_deadlines(v.send_buf, v.send_queue.push(seg), limit, now, w, acts);
        },
    }
}

/// A segment is sent again when its time has come, and not before: a check after any
/// run sends a segment that was transmitted and not acknowledged exactly when its
/// deadline has passed, whatever was acknowledged in between, and with the bytes
/// that were written. The deadline was fixed by the command: the timeout that the
/// round trips measured until then call for, and an eighth of it. A segment whose
/// deadline has not passed is not sent again in any case.
pub proof fn law_sent_again_from_deadline(events: Seq<Event>, now: u32, sn: u32)
    requires
        all_possible(
            initial(),
            events.push(Event::Message { msg: MsgView::CheckResend, now }),
        ),
        transmitted(initial(), events, sn),
    ensures
        0 <= deadline(events, sn) <= u32::MAX,
        !acked(initial(), events, sn) ==> (check_sends(events, now, sn) <==> has_passed(
            now,
            deadline(events, sn) as u32,
        )),
        !has_passed(now, deadline(events, sn) as u32) ==> !check_sends(events, now, sn),
        forall|f: FrameView| #[trigger]
            run(initial(), events).step_actions(MsgView::CheckResend, now).contains(
                ActionView::Push(f),
            ) ==> carries(f, written(events)),
{
    let check = Event::Message { msg: MsgView::CheckResend, now };
    let all = events.push(check);
    assert(all.drop_last() =~= events);
    let v = run(initial(), events);
    let acts = v.step_actions(MsgView::CheckResend, now);
    let picks = law_check_effect(v, now);
    lemma_run_sends(events);
    lemma_deadlines(events);
    lemma_deadline_range(events, sn);
    lemma_transmitted(events, sn);
    lemma_acked(events, sn);
    assert(v.outstanding().len() == v.send_buf.len() + v.send_queue.len());
    let i = sn - v.send_una;
    if i >= 0 {
        assert(v.outstanding()[i] == v.send_buf[i]);
        if has_passed(now, v.send_buf[i].rexmit_timestamp) {
            assert(picks.contains(i));
            let j = choose|j: int| 0 <= j < picks.len() && picks[j] == i;
            assert(sends_segment(acts[j], v.send_buf[picks[j]]));
            assert(acts.contains(acts[j]));
            let f = acts[j]->Push_0;
            assert(acts.contains(ActionView::Push(f)) && f.sn == sn);
        }
    }
    if check_sends(events, now, sn) {
        let f = choose|f: FrameView| #[trigger]
            acts.contains(ActionView::Push(f)) && f.sn == sn;
        let j = choose|j: int| 0 <= j < acts.len() && acts[j] == ActionView::Push(f);
        if j < picks.len() {
            assert(sends_segment(acts[j], v.send_buf[picks[j]]));
            assert(v.outstanding()[picks[j]] == v.send_buf[picks[j]]);
            assert(picks[j] == i);
        } else {
            let w = v.step(MsgView::CheckResend, now);
            let k = j - picks.len();
            let rest = acts.skip(picks.len() as int);
            assert(rest[k] == acts[j]);
            assert(sends_segment(rest[k], w.send_buf[v.send_buf.len() + k]));
            assert(v.outstanding()[v.send_buf.len() + k] == v.send_queue[k]);
        }
    }
    assert forall|f: FrameView| #[trigger] acts.contains(ActionView::Push(f)) implies carries(
        f,
        written(events),
    ) by {
        assert(pushed(initial(), all, f));
        law_sent_as_written(all, f);
        assert(written(all) =~= written(events));
    }
}

proof fn lemma_deadline_range(events: Seq<Event>, sn: u32)
    requires
        all_possible(initial(), events),
    ensures
        0 <= deadline(events, sn) <= u32::MAX,
    decreases events.len(),
{
    if events.len() > 0 {
        let before = events.drop_last();
        lemma_deadline_range(before, sn);
        law_estimate_of_round_trips(before);
        if let Event::Message { msg, now } = events.last() {
            if msg is WriteData || msg is Close {
                law_write_effect(run(initial(), before), msg, now);
            }
        }
    }
}

} // verus!
