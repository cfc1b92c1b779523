//! Flow control: the writing end, its two channels and its connection together.

use vstd::prelude::*;

use crate::laws::{data_count, data_written, law_window_account, window_incs};
use crate::model::{initial, law_step_keeps_wf, InnerView, MsgView};
use crate::stream::{plan_count, window_after, WriterNoty};

verus! {

/// A writing end with its connection.
pub struct Link {
    /// The window of the writing end.
    pub write_wnd: i16,
    /// The segments of data on their way to the connection.
    pub commands: int,
    pub conn: InnerView,
    /// The notifications of one more segment on their way back.
    pub notys: int,
}

impl Link {
    /// Every place in the window is free, on its way, outstanding, or on its way
    /// back.
    pub open spec fn balanced(self) -> bool {
        &&& self.conn.wf()
        &&& self.conn.send_wnd_limit == 64
        &&& 0 <= self.write_wnd
        &&& 0 <= self.commands
        &&& 0 <= self.notys
        &&& self.write_wnd + self.commands + data_count(self.conn.outstanding()) + self.notys
            == 64
    }
}

/// A new stream is in balance.
pub proof fn law_link_starts_balanced()
    ensures
        (Link { write_wnd: 64, commands: 0, conn: initial(), notys: 0 }).balanced(),
{
    assert(initial().outstanding() =~= Seq::empty());
}

/// A write with an open window keeps the balance, however many of its segments the
/// connection takes.
pub proof fn law_link_write(link: Link, len: nat, accepted: nat)
    requires
        link.balanced(),
        link.write_wnd > 0,
        accepted <= plan_count(len, link.write_wnd),
    ensures
        (Link {
            write_wnd: (link.write_wnd - accepted) as i16,
            commands: link.commands + accepted,
            ..link
        }).balanced(),
{
}

/// A message to the connection keeps the balance.
pub proof fn law_link_message(link: Link, msg: MsgView, now: u32)
    requires
        link.balanced(),
        link.conn.admits(msg, now),
        msg is WriteData ==> link.commands > 0,
    ensures
        (Link {
            commands: link.commands - data_written(msg),
            conn: link.conn.step(msg, now),
            notys: link.notys + window_incs(link.conn.step_actions(msg, now)),
            ..link
        }).balanced(),
{
    law_window_account(link.conn, msg, now);
    law_step_keeps_wf(link.conn, msg, now);
}

/// A notification that the writing end takes in keeps the balance, and opens the
/// window.
pub proof fn law_link_noty(link: Link)
    requires
        link.balanced(),
        link.notys > 0,
    ensures
        0 < window_after(link.write_wnd, WriterNoty::WindowInc(1)) <= 64,
        (Link {
            write_wnd: window_after(link.write_wnd, WriterNoty::WindowInc(1)) as i16,
            notys: link.notys - 1,
            ..link
        }).balanced(),
{
}

/// In balance, no more than 64 segments of data are unacknowledged. With up to two
/// closes beside them the queue is never held back.
pub proof fn law_link_never_stalls(link: Link)
    requires
        link.balanced(),
    ensures
        data_count(link.conn.outstanding()) <= 64,
        link.conn.outstanding().len() <= data_count(link.conn.outstanding()) + 2
            ==> link.conn.can_flush(),
{
}

} // verus!
