//! The two ends of a stream.

use vstd::prelude::*;
use vstd::slice::{slice_subrange, slice_to_vec};

use crate::frame::MSS;
use crate::segment::opt_bytes;
use crate::wire::{advance, has_remaining, put_slice, remaining};

verus! {

/// What a connection tells the writing end.
#[derive(Debug, Clone, Copy, PartialEq, Eq, Structural)]
pub enum WriterNoty {
    /// The window has grown.
    WindowInc(i16),
    /// The stream is closed.
    Closed,
}

/// What a connection tells the reading end.
#[derive(Debug)]
pub enum ReadNoty {
    /// The next bytes of the stream.
    Data(Vec<u8>),
    /// The peer has closed the stream.
    Eof,
}

/// What the writing end asks of a connection.
#[derive(Debug)]
pub enum WriteCmd {
    /// Send these bytes as one segment.
    Data(Vec<u8>),
    /// Close the stream.
    Close,
}

/// The local address from which a connection to a remote one starts.
pub fn local_addr(remote_is_ipv4: bool) -> (addr: &'static str)
    ensures
        addr@ == if remote_is_ipv4 {
            "0.0.0.0:0"@
        } else {
            "[::]:0"@
        },
{
    if remote_is_ipv4 {
        "0.0.0.0:0"
    } else {
        "[::]:0"
    }
}

/// The payload that a `ReadNoty` hands over; `None` for the end of the stream.
pub open spec fn noty_payload(noty: ReadNoty) -> Option<Seq<u8>> {
    match noty {
        ReadNoty::Data(d) => Some(d@),
        ReadNoty::Eof => None,
    }
}

/// Tells whether `noty` is the end of the stream.
pub fn is_eof(noty: &ReadNoty) -> (eof: bool)
    ensures
        eof == (noty_payload(*noty) is None),
        eof == (*noty is Eof),
{
    match noty {
        ReadNoty::Data(_) => false,
        ReadNoty::Eof => true,
    }
}

/// The reading end. A block that the caller's buffer could not hold whole is
/// kept, and `last_read` of its bytes have been handed out.
pub struct NcpStreamReader {
    pub pending_buf: Option<Vec<u8>>,
    pub last_read: usize,
}

/// The contents of an `NcpStreamReader`.
pub struct ReaderView {
    pub pending: Option<Seq<u8>>,
    pub last_read: int,
}

impl View for NcpStreamReader {
    type V = ReaderView;

    open spec fn view(&self) -> ReaderView {
        ReaderView { pending: opt_bytes(self.pending_buf), last_read: self.last_read as int }
    }
}

/// What the channel from the connection to the reader shows.
#[derive(Debug)]
pub enum ReadRecv {
    /// A message.
    Noty(ReadNoty),
    /// The end: the connection is gone.
    Ended,
    /// Nothing yet.
    Pending,
}

/// The smaller of two numbers.
pub open spec fn smaller(a: int, b: int) -> int {
    if a < b {
        a
    } else {
        b
    }
}

impl ReaderView {
    /// Something of a kept block is still to be handed out.
    pub open spec fn wf(self) -> bool {
        self.pending matches Some(p) ==> 0 <= self.last_read < p.len()
    }

    /// The bytes of the kept block that were not handed out yet.
    pub open spec fn left(self) -> Seq<u8> {
        match self.pending {
            Some(p) => p.skip(self.last_read),
            None => Seq::empty(),
        }
    }

    /// What a read into `room` bytes takes of the kept block.
    pub open spec fn rest(self, room: int) -> Seq<u8> {
        let p = self.pending->0;
        p.subrange(self.last_read, self.last_read + smaller(p.len() - self.last_read, room))
    }

    /// The reader after a read of the kept block. The block is dropped when all of
    /// it was handed out.
    pub open spec fn after_rest(self, room: int) -> ReaderView {
        let n = self.last_read + self.rest(room).len();
        if n < (self.pending->0).len() {
            ReaderView { last_read: n, ..self }
        } else {
            ReaderView { pending: None, last_read: 0 }
        }
    }

    /// The reader after the block `s` came for a read into `room` bytes.
    pub open spec fn after_block(self, s: Seq<u8>, room: int) -> ReaderView {
        if s.len() <= room {
            self
        } else {
            ReaderView { pending: Some(s), last_read: room }
        }
    }
}

/// What a read into `room` bytes takes of the block `s`.
pub open spec fn block_head(s: Seq<u8>, room: int) -> Seq<u8> {
    s.take(smaller(s.len() as int, room))
}

impl NcpStreamReader {
    /// A reader that has received nothing.
    pub fn new() -> (reader: NcpStreamReader)
        ensures
            reader@ == (ReaderView { pending: None, last_read: 0 }),
            reader@.wf(),
    {
        NcpStreamReader { pending_buf: None, last_read: 0 }
    }

    /// Serves a read from the kept block, if there is one. `None` means that the
    /// channel is to be asked.
    pub fn read_pending(&mut self, buf: &mut [u8]) -> (size: Option<usize>)
        requires
            old(self)@.wf(),
        ensures
            final(self)@.wf(),
            match old(self)@.pending {
                Some(_) => {
                    let taken = old(self)@.rest(old(buf)@.len() as int);
                    &&& size == Some(taken.len() as usize)
                    &&& final(buf)@ == taken + old(buf)@.skip(taken.len() as int)
                    &&& final(self)@ == old(self)@.after_rest(old(buf)@.len() as int)
                },
                None => {
                    &&& size is None
                    &&& final(buf)@ == old(buf)@
                    &&& final(self)@ == old(self)@
                },
            },
    {
        match &self.pending_buf {
            Some(pending) => {
                let left: usize = pending.len() - self.last_read;
                let sendable: usize = if left < buf.len() {
                    left
                } else {
                    buf.len()
                };
                put_slice(
                    buf,
                    slice_subrange(
                        pending.as_slice(),
                        self.last_read,
                        self.last_read + sendable,
                    ),
                );
                if sendable < left {
                    self.last_read = self.last_read + sendable;
                } else {
                    self.pending_buf = None;
                    self.last_read = 0;
                }
                Some(sendable)
            },
            None => None,
        }
    }

    /// Serves a read from what the channel shows. `None` means that nothing is
    /// there yet; no bytes mean the end of the stream.
    pub fn read_received(&mut self, recv: ReadRecv, buf: &mut [u8]) -> (size: Option<usize>)
        requires
            old(self)@.pending is None,
        ensures
            final(self)@.wf(),
            match recv {
                ReadRecv::Noty(ReadNoty::Data(s)) => {
                    let taken = block_head(s@, old(buf)@.len() as int);
                    &&& size == Some(taken.len() as usize)
                    &&& final(buf)@ == taken + old(buf)@.skip(taken.len() as int)
                    &&& final(self)@ == old(self)@.after_block(s@, old(buf)@.len() as int)
                },
                ReadRecv::Noty(ReadNoty::Eof) | ReadRecv::Ended => {
                    &&& size == Some(0usize)
                    &&& final(buf)@ == old(buf)@
                    &&& final(self)@ == old(self)@
                },
                ReadRecv::Pending => {
                    &&& size is None
                    &&& final(buf)@ == old(buf)@
                    &&& final(self)@ == old(self)@
                },
            },
    {
        match recv {
            ReadRecv::Noty(ReadNoty::Data(s)) => {
                if s.len() <= buf.len() {
                    put_slice(buf, s.as_slice());
                    assert(block_head(s@, old(buf)@.len() as int) =~= s@);
                    Some(s.len())
                } else {
                    self.last_read = buf.len();
                    put_slice(buf, slice_subrange(s.as_slice(), 0, self.last_read));
                    self.pending_buf = Some(s);
                    Some(self.last_read)
                }
            },
            ReadRecv::Noty(ReadNoty::Eof) => Some(0),
            ReadRecv::Ended => Some(0),
            ReadRecv::Pending => None,
        }
    }
}

/// What became of handing a `ReadNoty` to the reader's channel.
#[derive(Debug)]
pub enum ReaderTry {
    /// The reader has it.
    Took,
    /// There was no room; here it is back.
    Full(ReadNoty),
    /// The reader is gone.
    Gone,
}

/// How a connection goes on after handing something to the reader.
#[derive(Debug, Clone, Copy, PartialEq, Eq, Structural)]
pub enum ReadNext {
    /// Hand out the next segment.
    More,
    /// Hand out nothing until the next message.
    Wait,
    /// Tell the writer this; the connection is over.
    Over(WriterNoty),
    /// The connection fails.
    Fail,
}

/// How a connection goes on after `seen`; `eof` tells whether the end of the stream
/// was handed out.
pub open spec fn read_next(eof: bool, seen: ReaderTry) -> ReadNext {
    match seen {
        ReaderTry::Took => if eof {
            ReadNext::Over(WriterNoty::Closed)
        } else {
            ReadNext::More
        },
        ReaderTry::Full(_) => ReadNext::Wait,
        ReaderTry::Gone => ReadNext::Fail,
    }
}

/// The reader and the blocks that still wait in the channel.
#[verifier::ext_equal]
pub struct Inbox {
    pub reader: ReaderView,
    pub blocks: Seq<Seq<u8>>,
}

impl Inbox {
    /// The reader is in order and no block is empty.
    pub open spec fn wf(self) -> bool {
        &&& self.reader.wf()
        &&& forall|i: int| 0 <= i < self.blocks.len() ==> (#[trigger] self.blocks[i]).len() > 0
    }

    /// The bytes that are still to be read.
    pub open spec fn left(self) -> Seq<u8> {
        self.reader.left() + self.blocks.flatten()
    }

    /// What a read into `room` bytes gives: the kept block comes first, then the
    /// channel is asked, which is at its end when no block waits.
    pub open spec fn read(self, room: nat) -> Seq<u8> {
        if self.reader.pending is Some {
            self.reader.rest(room as int)
        } else if self.blocks.len() > 0 {
            block_head(self.blocks.first(), room as int)
        } else {
            Seq::empty()
        }
    }

    /// What is left after a read into `room` bytes.
    pub open spec fn after_read(self, room: nat) -> Inbox {
        if self.reader.pending is Some {
            Inbox { reader: self.reader.after_rest(room as int), ..self }
        } else if self.blocks.len() > 0 {
            Inbox {
                reader: self.reader.after_block(self.blocks.first(), room as int),
                blocks: self.blocks.drop_first(),
            }
        } else {
            self
        }
    }

    /// What is left after reads into `rooms` bytes each.
    pub open spec fn after_reads(self, rooms: Seq<nat>) -> Inbox
        decreases rooms.len(),
    {
        if rooms.len() == 0 {
            self
        } else {
            self.after_reads(rooms.drop_last()).after_read(rooms.last())
        }
    }

    /// What reads into `rooms` bytes each give, joined.
    pub open spec fn reads(self, rooms: Seq<nat>) -> Seq<u8>
        decreases rooms.len(),
    {
        if rooms.len() == 0 {
            Seq::empty()
        } else {
            self.reads(rooms.drop_last()) + self.after_reads(rooms.drop_last()).read(rooms.last())
        }
    }
}

/// How much a read takes: of a kept block what is left of it, of a new one all of it,
/// or as much as there is room for. What there was no room for is kept, from where
/// the read ended, and a block of which nothing is left is not.
pub proof fn law_read_amount(r: ReaderView, s: Seq<u8>, room: nat)
    requires
        r.wf(),
    ensures
        r.pending matches Some(p) ==> {
            let end = if r.last_read + room < p.len() {
                r.last_read + room
            } else {
                p.len() as int
            };
            &&& r.rest(room as int).len() == end - r.last_read
            &&& forall|i: int|
                r.last_read <= i < end ==> r.rest(room as int)[i - r.last_read]
                    == #[trigger] p[i]
            &&& end < p.len() ==> r.after_rest(room as int).pending == Some(p) && r.after_rest(
                room as int,
            ).last_read == end
            &&& end == p.len() ==> r.after_rest(room as int).pending is None && r.after_rest(
                room as int,
            ).last_read == 0
        },
        s.len() <= room ==> block_head(s, room as int) == s && r.after_block(s, room as int) == r,
        s.len() > room ==> {
            &&& block_head(s, room as int).len() == room
            &&& forall|i: int|
                0 <= i < room ==> block_head(s, room as int)[i] == #[trigger] s[i]
            &&& r.after_block(s, room as int).pending == Some(s)
            &&& r.after_block(s, room as int).last_read == room
        },
{
    if s.len() <= room {
        assert(block_head(s, room as int) =~= s);
    }
}

/// What became of handing something to the reader decides how the connection goes on:
/// it hands out more after what was taken, unless that was the end of the stream,
/// waits when there was no room, and fails when the reader is gone.
pub proof fn law_reader_decides(eof: bool, seen: ReaderTry)
    ensures
        read_next(eof, seen) == ReadNext::More <==> seen is Took && !eof,
        read_next(eof, seen) == ReadNext::Over(WriterNoty::Closed) <==> seen is Took && eof,
        read_next(eof, seen) == ReadNext::Wait <==> seen is Full,
        read_next(eof, seen) == ReadNext::Fail <==> seen is Gone,
{
}

/// A read takes the next bytes: what it gives and what is left are, joined, what
/// was left before. It gives no bytes only when it has no room or nothing is left.
pub proof fn law_read_takes_next(inbox: Inbox, room: nat)
    requires
        inbox.wf(),
    ensures
        inbox.after_read(room).wf(),
        inbox.read(room) + inbox.after_read(room).left() == inbox.left(),
        inbox.read(room).len() <= room,
        inbox.read(room).len() == 0 <==> room == 0 || inbox.left().len() == 0,
{
    let r = inbox.reader;
    if r.pending is Some {
        assert(r.rest(room as int) + r.after_rest(room as int).left() =~= r.left());
        assert(inbox.read(room) + inbox.after_read(room).left() =~= inbox.left());
    } else if inbox.blocks.len() > 0 {
        let s = inbox.blocks.first();
        assert(inbox.blocks[0].len() > 0);
        let after = inbox.after_read(room);
        assert(block_head(s, room as int) + after.reader.left() =~= s);
        assert(inbox.read(room) + after.left() =~= inbox.left());
        assert forall|i: int| 0 <= i < after.blocks.len() implies (
        #[trigger] after.blocks[i]).len() > 0 by {
            assert(after.blocks[i] == inbox.blocks[i + 1]);
        }
    } else {
        assert(inbox.read(room) + inbox.after_read(room).left() =~= inbox.left());
    }
}

/// However the buffers are cut, the reads give the bytes of the blocks in order:
/// joined with what is left after them they are what was left before, over any
/// number of blocks. So a read with room gives no bytes only at the end, when
/// everything was read.
pub proof fn law_reads_in_order(inbox: Inbox, rooms: Seq<nat>)
    requires
        inbox.wf(),
    ensures
        inbox.after_reads(rooms).wf(),
        inbox.reads(rooms) + inbox.after_reads(rooms).left() == inbox.left(),
        inbox.reads(rooms).is_prefix_of(inbox.left()),
        forall|room: nat|
            room > 0 && (#[trigger] inbox.after_reads(rooms).read(room)).len() == 0
                ==> inbox.reads(rooms) == inbox.left(),
    decreases rooms.len(),
{
    if rooms.len() > 0 {
        let before = inbox.after_reads(rooms.drop_last());
        law_reads_in_order(inbox, rooms.drop_last());
        law_read_takes_next(before, rooms.last());
        assert(inbox.reads(rooms) + inbox.after_reads(rooms).left() =~= inbox.reads(
            rooms.drop_last(),
        ) + (before.read(rooms.last()) + inbox.after_reads(rooms).left()));
    } else {
        assert(inbox.reads(rooms) + inbox.left() =~= inbox.left());
    }
    let after = inbox.after_reads(rooms);
    assert(inbox.reads(rooms) =~= inbox.left().take(inbox.reads(rooms).len() as int));
    assert forall|room: nat|
        room > 0 && (#[trigger] after.read(room)).len() == 0 implies inbox.reads(rooms)
        == inbox.left() by {
        law_read_takes_next(after, room);
        assert(inbox.reads(rooms) =~= inbox.left());
    }
}

/// The writing end: the number of segments that may still be written, and whether
/// the connection was asked to close the stream.
pub struct NcpStreamWriter {
    pub write_wnd: i16,
    pub closing: bool,
}

/// What a look at the notification channel shows.
#[derive(Debug)]
pub enum NotyTry {
    Noty(WriterNoty),
    /// Nothing is there.
    Empty,
    /// The connection is gone.
    Closed,
}

/// What waiting on the notification channel brings.
#[derive(Debug)]
pub enum NotyPoll {
    Noty(WriterNoty),
    /// The connection is gone.
    Ended,
    /// Nothing yet; the caller will be woken.
    Pending,
}

/// How a write goes on.
#[derive(Debug, Clone, Copy, PartialEq, Eq, Structural)]
pub enum WriteNext {
    /// Look at the notification channel.
    TryNoty,
    /// Wait on the notification channel.
    PollNoty,
    /// Hand over segments.
    Send,
    /// The write waits.
    Wait,
    /// The write fails: the stream is at its end.
    Fail,
}

/// How a shutdown goes on.
#[derive(Debug, Clone, Copy, PartialEq, Eq, Structural)]
pub enum CloseNext {
    /// Ask the connection to close the stream, then wait on the notification channel.
    SendClose,
    /// Wait on the notification channel.
    PollNoty,
    /// The shutdown waits.
    Wait,
    /// The stream is closed.
    Done,
    /// The shutdown fails: the connection is gone before the stream was closed.
    Fail,
}

/// The window after `noty`.
pub open spec fn window_after(write_wnd: i16, noty: WriterNoty) -> int {
    match noty {
        WriterNoty::WindowInc(inc) => write_wnd + inc,
        WriterNoty::Closed => write_wnd as int,
    }
}

/// Whether the window after `noty` is one that an `i16` holds.
pub open spec fn window_ok(write_wnd: i16, noty: WriterNoty) -> bool {
    i16::MIN <= window_after(write_wnd, noty) <= i16::MAX
}

/// How a write with the window `write_wnd` begins.
pub open spec fn begin_next(write_wnd: i16) -> WriteNext {
    if write_wnd > 0 {
        WriteNext::Send
    } else {
        WriteNext::TryNoty
    }
}

/// The window after a look at the notification channel.
pub open spec fn try_window(write_wnd: i16, seen: NotyTry) -> int {
    match seen {
        NotyTry::Noty(noty) => window_after(write_wnd, noty),
        _ => write_wnd as int,
    }
}

/// How a write with the window `write_wnd` goes on after a look at the channel.
pub open spec fn try_next(write_wnd: i16, seen: NotyTry) -> WriteNext {
    match seen {
        NotyTry::Noty(WriterNoty::WindowInc(_)) => WriteNext::TryNoty,
        NotyTry::Empty if write_wnd > 0 => WriteNext::Send,
        NotyTry::Empty => WriteNext::PollNoty,
        _ => WriteNext::Fail,
    }
}

/// The window after waiting on the notification channel.
pub open spec fn poll_window(write_wnd: i16, seen: NotyPoll) -> int {
    match seen {
        NotyPoll::Noty(noty) => window_after(write_wnd, noty),
        _ => write_wnd as int,
    }
}

/// How a write goes on after waiting on the channel.
pub open spec fn poll_next(seen: NotyPoll) -> WriteNext {
    match seen {
        NotyPoll::Noty(WriterNoty::WindowInc(_)) => WriteNext::Send,
        NotyPoll::Pending => WriteNext::Wait,
        _ => WriteNext::Fail,
    }
}

/// How a shutdown goes on after waiting on the channel.
pub open spec fn close_next(seen: NotyPoll) -> CloseNext {
    match seen {
        NotyPoll::Noty(WriterNoty::WindowInc(_)) => CloseNext::PollNoty,
        NotyPoll::Noty(WriterNoty::Closed) => CloseNext::Done,
        NotyPoll::Pending => CloseNext::Wait,
        NotyPoll::Ended => CloseNext::Fail,
    }
}

/// The sum of `incs`.
pub open spec fn inc_sum(incs: Seq<i16>) -> int
    decreases incs.len(),
{
    if incs.len() == 0 {
        0
    } else {
        inc_sum(incs.drop_last()) + incs.last()
    }
}

/// The window after looks at the channel that show `incs`, one after the other.
pub open spec fn window_after_tries(write_wnd: i16, incs: Seq<i16>) -> int
    decreases incs.len(),
{
    if incs.len() == 0 {
        write_wnd as int
    } else {
        try_window(
            window_after_tries(write_wnd, incs.drop_last()) as i16,
            NotyTry::Noty(WriterNoty::WindowInc(incs.last())),
        )
    }
}

/// The window after waits of a shutdown that bring `incs`, one after the other.
pub open spec fn window_after_waits(write_wnd: i16, incs: Seq<i16>) -> int
    decreases incs.len(),
{
    if incs.len() == 0 {
        write_wnd as int
    } else {
        poll_window(
            window_after_waits(write_wnd, incs.drop_last()) as i16,
            NotyPoll::Noty(WriterNoty::WindowInc(incs.last())),
        )
    }
}

/// The window is the sum of what it was and of all that was told of it, whether a
/// write or a shutdown took it in, as long as it stays in range.
pub proof fn law_window_adds_up(write_wnd: i16, incs: Seq<i16>)
    requires
        forall|k: int|
            0 <= k <= incs.len() ==> -32768 <= write_wnd + inc_sum(#[trigger] incs.take(k))
                <= 32767,
    ensures
        window_after_tries(write_wnd, incs) == write_wnd + inc_sum(incs),
        window_after_waits(write_wnd, incs) == write_wnd + inc_sum(incs),
    decreases incs.len(),
{
    if incs.len() > 0 {
        let before = incs.drop_last();
        assert forall|k: int| 0 <= k <= before.len() implies -32768 <= write_wnd + inc_sum(
            #[trigger] before.take(k),
        ) <= 32767 by {
            assert(before.take(k) =~= incs.take(k));
        }
        law_window_adds_up(write_wnd, before);
        assert(incs.take(before.len() as int) =~= before);
    }
}

/// When a write hands over segments, waits and fails. An open window lets it go at
/// once. With a shut one it takes in all that is there, goes on if that opened the
/// window, and waits for more if not; what it waited for lets it go. It fails when
/// the stream is closed or the connection gone, and in no other case.
pub proof fn law_write_decides(write_wnd: i16, tried: NotyTry, polled: NotyPoll)
    ensures
        begin_next(write_wnd) == WriteNext::Send <==> write_wnd > 0,
        begin_next(write_wnd) == WriteNext::TryNoty <==> write_wnd <= 0,
        try_next(write_wnd, tried) == WriteNext::Send <==> tried is Empty && write_wnd > 0,
        try_next(write_wnd, tried) == WriteNext::PollNoty <==> tried is Empty && write_wnd <= 0,
        try_next(write_wnd, tried) == WriteNext::TryNoty <==> (tried matches NotyTry::Noty(n)
            && n is WindowInc),
        try_next(write_wnd, tried) == WriteNext::Fail <==> tried is Closed || tried
            == NotyTry::Noty(WriterNoty::Closed),
        poll_next(polled) == WriteNext::Send <==> (polled matches NotyPoll::Noty(n)
            && n is WindowInc),
        poll_next(polled) == WriteNext::Wait <==> polled is Pending,
        poll_next(polled) == WriteNext::Fail <==> polled is Ended || polled == NotyPoll::Noty(
            WriterNoty::Closed,
        ),
{
}

/// A shutdown is done exactly when the connection says that the stream is closed. It
/// waits through everything else that it is told, and fails when the connection is
/// gone.
pub proof fn law_close_decides(polled: NotyPoll)
    ensures
        close_next(polled) == CloseNext::Done <==> polled == NotyPoll::Noty(WriterNoty::Closed),
        close_next(polled) == CloseNext::PollNoty <==> (polled matches NotyPoll::Noty(n)
            && n is WindowInc),
        close_next(polled) == CloseNext::Wait <==> polled is Pending,
        close_next(polled) == CloseNext::Fail <==> polled is Ended,
{
}

/// How many segments `len` bytes fill.
pub open spec fn seg_total(len: nat) -> nat {
    if len % (MSS as nat) == 0 {
        len / (MSS as nat)
    } else {
        len / (MSS as nat) + 1
    }
}

/// How many segments a write of `len` bytes hands over. A window that is open
/// limits it; a write that went on with a shut window hands over all.
pub open spec fn plan_count(len: nat, write_wnd: i16) -> nat {
    if 0 < write_wnd < seg_total(len) {
        write_wnd as nat
    } else {
        seg_total(len)
    }
}

/// Whether the window can count every segment that the write hands over.
pub open spec fn plan_ok(len: nat, write_wnd: i16) -> bool {
    write_wnd - plan_count(len, write_wnd) >= i16::MIN
}

/// Segment number `i` of `bytes`.
pub open spec fn plan_segment(bytes: Seq<u8>, i: int) -> Seq<u8> {
    bytes.subrange(i * MSS, smaller(bytes.len() as int, (i + 1) * MSS))
}

/// The segments that a write of `bytes` hands over.
pub open spec fn write_plan(bytes: Seq<u8>, write_wnd: i16) -> Seq<Seq<u8>> {
    Seq::new(plan_count(bytes.len(), write_wnd), |i: int| plan_segment(bytes, i))
}

/// How many of `len` bytes a write hands over.
pub open spec fn plan_bytes(len: nat, write_wnd: i16) -> int {
    smaller(len as int, plan_count(len, write_wnd) * MSS)
}

/// The segments of one write.
#[derive(Debug)]
pub struct WritePlan {
    pub segments: Vec<Vec<u8>>,
    /// The number of bytes in all of them.
    pub total: usize,
}

impl WritePlan {
    /// The bytes of the segments, in order.
    pub open spec fn segs(self) -> Seq<Seq<u8>> {
        self.segments@.map_values(|s: Vec<u8>| s@)
    }
}

impl NcpStreamWriter {
    /// A writer with the whole window.
    pub fn new() -> (writer: NcpStreamWriter)
        ensures
            writer == (NcpStreamWriter { write_wnd: 64, closing: false }),
    {
        NcpStreamWriter { write_wnd: 64, closing: false }
    }

    /// Tells whether the window can take `noty`.
    pub fn window_fits(&self, noty: &WriterNoty) -> (fits: bool)
        ensures
            fits == window_ok(self.write_wnd, *noty),
    {
        match noty {
            WriterNoty::WindowInc(inc) => {
                let sum: i32 = self.write_wnd as i32 + *inc as i32;
                -32768 <= sum && sum <= 32767
            },
            WriterNoty::Closed => true,
        }
    }

    /// How a write begins: with an open window by handing over segments, else by
    /// looking for notifications.
    pub fn begin_write(&self) -> (next: WriteNext)
        ensures
            next == begin_next(self.write_wnd),
            next == if self.write_wnd <= 0 {
                WriteNext::TryNoty
            } else {
                WriteNext::Send
            },
    {
        if self.write_wnd <= 0 {
            WriteNext::TryNoty
        } else {
            WriteNext::Send
        }
    }

    /// How a write goes on after a look at the notifications: all of them are
    /// taken in first, and the write waits only if they left the window shut. A
    /// closed stream takes no more.
    pub fn on_try(&mut self, seen: NotyTry) -> (next: WriteNext)
        requires
            seen matches NotyTry::Noty(n) ==> window_ok(old(self).write_wnd, n),
        ensures
            final(self).write_wnd == try_window(old(self).write_wnd, seen),
            next == try_next(old(self).write_wnd, seen),
            final(self).closing == old(self).closing,
            final(self).write_wnd == match seen {
                NotyTry::Noty(n) => window_after(old(self).write_wnd, n),
                _ => old(self).write_wnd as int,
            },
            next == match seen {
                NotyTry::Noty(WriterNoty::WindowInc(_)) => WriteNext::TryNoty,
                NotyTry::Noty(WriterNoty::Closed) => WriteNext::Fail,
                NotyTry::Empty => if old(self).write_wnd > 0 {
                    WriteNext::Send
                } else {
                    WriteNext::PollNoty
                },
                NotyTry::Closed => WriteNext::Fail,
            },
    {
        match seen {
            NotyTry::Noty(WriterNoty::WindowInc(inc)) => {
                self.write_wnd = self.write_wnd + inc;
                WriteNext::TryNoty
            },
            NotyTry::Noty(WriterNoty::Closed) => WriteNext::Fail,
            NotyTry::Empty => {
                if self.write_wnd > 0 {
                    WriteNext::Send
                } else {
                    WriteNext::PollNoty
                }
            },
            NotyTry::Closed => WriteNext::Fail,
        }
    }

    /// How a write goes on after waiting on the notifications: one that came lets
    /// segments go, whatever it left of the window.
    pub fn on_poll(&mut self, seen: NotyPoll) -> (next: WriteNext)
        requires
            seen matches NotyPoll::Noty(n) ==> window_ok(old(self).write_wnd, n),
        ensures
            final(self).write_wnd == poll_window(old(self).write_wnd, seen),
            next == poll_next(seen),
            final(self).closing == old(self).closing,
            final(self).write_wnd == match seen {
                NotyPoll::Noty(n) => window_after(old(self).write_wnd, n),
                _ => old(self).write_wnd as int,
            },
            next == match seen {
                NotyPoll::Noty(WriterNoty::WindowInc(_)) => WriteNext::Send,
                NotyPoll::Noty(WriterNoty::Closed) => WriteNext::Fail,
                NotyPoll::Ended => WriteNext::Fail,
                NotyPoll::Pending => WriteNext::Wait,
            },
    {
        match seen {
            NotyPoll::Noty(WriterNoty::WindowInc(inc)) => {
                self.write_wnd = self.write_wnd + inc;
                WriteNext::Send
            },
            NotyPoll::Noty(WriterNoty::Closed) => WriteNext::Fail,
            NotyPoll::Ended => WriteNext::Fail,
            NotyPoll::Pending => WriteNext::Wait,
        }
    }

    /// How a shutdown begins: the first time by asking the connection to close the
    /// stream, later by waiting only, so that it is asked once.
    pub fn begin_close(&mut self) -> (next: CloseNext)
        ensures
            *final(self) == (NcpStreamWriter { closing: true, ..*old(self) }),
            next == if old(self).closing {
                CloseNext::PollNoty
            } else {
                CloseNext::SendClose
            },
    {
        if self.closing {
            CloseNext::PollNoty
        } else {
            self.closing = true;
            CloseNext::SendClose
        }
    }

    /// How a shutdown goes on once the connection was asked, `accepted` telling
    /// whether it took the request. A connection that is gone takes none.
    pub fn close_sent(&self, accepted: bool) -> (next: CloseNext)
        ensures
            next == if accepted {
                CloseNext::PollNoty
            } else {
                CloseNext::Fail
            },
    {
        if accepted {
            CloseNext::PollNoty
        } else {
            CloseNext::Fail
        }
    }

    /// How a shutdown goes on after waiting on the notifications: those of segments
    /// written before are taken in, and the stream is closed when the connection
    /// says so.
    pub fn on_close_poll(&mut self, seen: NotyPoll) -> (next: CloseNext)
        requires
            seen matches NotyPoll::Noty(n) ==> window_ok(old(self).write_wnd, n),
        ensures
            final(self).write_wnd == poll_window(old(self).write_wnd, seen),
            next == close_next(seen),
            final(self).closing == old(self).closing,
            final(self).write_wnd == match seen {
                NotyPoll::Noty(n) => window_after(old(self).write_wnd, n),
                _ => old(self).write_wnd as int,
            },
            next == match seen {
                NotyPoll::Noty(WriterNoty::WindowInc(_)) => CloseNext::PollNoty,
                NotyPoll::Noty(WriterNoty::Closed) => CloseNext::Done,
                NotyPoll::Ended => CloseNext::Fail,
                NotyPoll::Pending => CloseNext::Wait,
            },
    {
        match seen {
            NotyPoll::Noty(WriterNoty::WindowInc(inc)) => {
                self.write_wnd = self.write_wnd + inc;
                CloseNext::PollNoty
            },
            NotyPoll::Noty(WriterNoty::Closed) => CloseNext::Done,
            NotyPoll::Ended => CloseNext::Fail,
            NotyPoll::Pending => CloseNext::Wait,
        }
    }

    /// Tells whether the window can count every segment that a write of `len` bytes
    /// would hand over.
    pub fn plan_fits(&self, len: usize) -> (fits: bool)
        ensures
            fits == plan_ok(len as nat, self.write_wnd),
    {
        let whole: usize = len / MSS as usize;
        let all: usize = if len % MSS as usize == 0 {
            whole
        } else {
            whole + 1
        };
        self.write_wnd > 0 || (all <= 65535 && self.write_wnd as i32 - all as i32 >= -32768)
    }

    /// Cuts `buf` into the segments that a write hands over, in this order. It
    /// ends where the window shuts.
    pub fn plan_write(&self, buf: &[u8]) -> (plan: WritePlan)
        requires
            plan_ok(buf@.len(), self.write_wnd),
        ensures
            plan.segs() == write_plan(buf@, self.write_wnd),
            plan.total == plan_bytes(buf@.len(), self.write_wnd),
            plan.segments@.len() == write_plan(buf@, self.write_wnd).len(),
            forall|i: int|
                0 <= i < plan.segments@.len() ==> (#[trigger] plan.segments@[i])@ == write_plan(
                    buf@,
                    self.write_wnd,
                )[i],
    {
        let ghost bytes = buf@;
        let mut cursor = buf;
        let mut segments: Vec<Vec<u8>> = Vec::new();
        let mut total: usize = 0;
        let mut wnd: i16 = self.write_wnd;
        let mut shut: bool = false;
        proof {
            assert(bytes.skip(0) =~= bytes);
        }
        while !shut && has_remaining(&cursor)
            invariant
                bytes == buf@,
                plan_ok(bytes.len(), self.write_wnd),
                total <= bytes.len(),
                cursor@ == bytes.skip(total as int),
                total == smaller(bytes.len() as int, segments@.len() * MSS),
                segments@.len() <= plan_count(bytes.len(), self.write_wnd),
                wnd == self.write_wnd - segments@.len(),
                shut == (segments@.len() > 0 && wnd == 0),
                forall|i: int|
                    0 <= i < segments@.len() ==> (#[trigger] segments@[i])@ == plan_segment(
                        bytes,
                        i,
                    ),
            decreases bytes.len() - total, if shut { 0int } else { 1int },
        {
            let left: usize = remaining(&cursor);
            let seg_len: usize = if left < MSS as usize {
                left
            } else {
                MSS as usize
            };
            let seg = slice_to_vec(slice_subrange(cursor, 0, seg_len));
            assert(total == segments@.len() * MSS);
            assert((segments@.len() + 1) * MSS == total + MSS) by (nonlinear_arith)
                requires
                    total == segments@.len() * MSS,
            ;
            assert(seg@ == bytes.skip(total as int).subrange(0, seg_len as int));
            assert(seg@ =~= plan_segment(bytes, segments@.len() as int));
            advance(&mut cursor, seg_len);
            assert(cursor@ =~= bytes.skip(total + seg_len));
            segments.push(seg);
            total = total + seg_len;
            wnd = wnd - 1;
            shut = wnd == 0;
        }
        let plan = WritePlan { segments, total };
        assert(plan.segs() =~= write_plan(bytes, self.write_wnd));
        plan
    }

    /// Ends a write of which the connection took the first `accepted` segments: the
    /// number of bytes written, or `None` where one was refused.
    pub fn finish_write(&mut self, plan: &WritePlan, accepted: usize) -> (written: Option<usize>)
        requires
            accepted <= plan.segments@.len(),
            old(self).write_wnd - accepted >= i16::MIN,
        ensures
            final(self).write_wnd == old(self).write_wnd - accepted,
            final(self).closing == old(self).closing,
            written == if accepted == plan.segments@.len() {
                Some(plan.total)
            } else {
                None
            },
    {
        self.write_wnd = (self.write_wnd as i32 - accepted as i32) as i16;
        if accepted == plan.segments.len() {
            Some(plan.total)
        } else {
            None
        }
    }
}

/// Joined in order, the segments of a write are the first bytes to be written; all
/// of them where the window allows. None is empty, and none is longer than the
/// maximum.
pub proof fn law_plan_is_prefix(bytes: Seq<u8>, write_wnd: i16)
    ensures
        write_plan(bytes, write_wnd).flatten() == bytes.take(
            plan_bytes(bytes.len(), write_wnd),
        ),
        forall|i: int|
            0 <= i < write_plan(bytes, write_wnd).len() ==> 1 <= (#[trigger] write_plan(
                bytes,
                write_wnd,
            )[i]).len() <= MSS,
        plan_count(bytes.len(), write_wnd) == seg_total(bytes.len()) ==> write_plan(
            bytes,
            write_wnd,
        ).flatten() == bytes,
        plan_bytes(bytes.len(), write_wnd) > 0 <==> bytes.len() > 0,
{
    lemma_plan_prefix(bytes, plan_count(bytes.len(), write_wnd));
    if plan_count(bytes.len(), write_wnd) == seg_total(bytes.len()) {
        assert(bytes.take(bytes.len() as int) =~= bytes);
    }
}

/// How a write is cut: into full segments, the last one with what is left, until the
/// bytes end or an open window is used up. A window that is shut does not count.
/// The write can be counted when the window goes down by one for each segment
/// without leaving its range.
pub proof fn law_plan_cut(bytes: Seq<u8>, write_wnd: i16)
    ensures
        ({
            let plan = write_plan(bytes, write_wnd);
            &&& forall|i: int|
                0 <= i < plan.len() - 1 ==> (#[trigger] plan[i]).len() == MSS
            &&& write_wnd > 0 ==> plan.len() <= write_wnd
            &&& plan.flatten() == bytes || (write_wnd > 0 && plan.len() == write_wnd
                && plan.last().len() == MSS)
            &&& plan.flatten() == bytes.take(plan.flatten().len() as int)
            &&& plan_bytes(bytes.len(), write_wnd) == plan.flatten().len()
            &&& plan_ok(bytes.len(), write_wnd) <==> write_wnd - plan.len() >= -32768
        }),
{
    let plan = write_plan(bytes, write_wnd);
    law_plan_is_prefix(bytes, write_wnd);
    assert forall|i: int| 0 <= i < plan.len() && (i + 1) * MSS <= bytes.len() implies (
    #[trigger] plan[i]).len() == MSS by {}
}

/// A notification of more room opens the window by as much, one of the end leaves it,
/// and it can be taken in when the window stays in range.
pub proof fn law_window_effect(write_wnd: i16, inc: i16)
    ensures
        window_after(write_wnd, WriterNoty::WindowInc(inc)) == write_wnd + inc,
        window_after(write_wnd, WriterNoty::Closed) == write_wnd,
        window_ok(write_wnd, WriterNoty::WindowInc(inc)) <==> -32768 <= write_wnd + inc <= 32767,
        window_ok(write_wnd, WriterNoty::Closed),
{
}

/// A write: the bytes that the caller offers and the window with which segments
/// are handed over.
pub struct Offer {
    pub bytes: Seq<u8>,
    pub write_wnd: i16,
}

/// The segments that `offers` hand over, in order.
pub open spec fn handed(offers: Seq<Offer>) -> Seq<Seq<u8>>
    decreases offers.len(),
{
    if offers.len() == 0 {
        Seq::empty()
    } else {
        handed(offers.drop_last()) + write_plan(offers.last().bytes, offers.last().write_wnd)
    }
}

/// The bytes of `offers` that the caller is told were written, in order.
pub open spec fn accepted(offers: Seq<Offer>) -> Seq<u8>
    decreases offers.len(),
{
    if offers.len() == 0 {
        Seq::empty()
    } else {
        let last = offers.last();
        accepted(offers.drop_last()) + last.bytes.take(
            plan_bytes(last.bytes.len(), last.write_wnd),
        )
    }
}

/// Over any number of writes, with whatever windows, the segments handed over are,
/// joined, the bytes that the caller was told were written. None is empty, and none
/// is longer than the maximum.
pub proof fn law_handed_is_accepted(offers: Seq<Offer>)
    ensures
        handed(offers).flatten() == accepted(offers),
        forall|i: int|
            0 <= i < handed(offers).len() ==> 1 <= (#[trigger] handed(offers)[i]).len() <= MSS,
    decreases offers.len(),
{
    if offers.len() > 0 {
        let before = handed(offers.drop_last());
        let plan = write_plan(offers.last().bytes, offers.last().write_wnd);
        law_handed_is_accepted(offers.drop_last());
        law_plan_is_prefix(offers.last().bytes, offers.last().write_wnd);
        vstd::seq_lib::lemma_flatten_concat(before, plan);
        assert forall|i: int| 0 <= i < handed(offers).len() implies 1 <= (
        #[trigger] handed(offers)[i]).len() <= MSS by {
            if i < before.len() {
                assert(handed(offers)[i] == before[i]);
            } else {
                assert(handed(offers)[i] == plan[i - before.len()]);
            }
        }
    }
}

proof fn lemma_plan_prefix(bytes: Seq<u8>, count: nat)
    requires
        count <= seg_total(bytes.len()),
    ensures
        Seq::new(count, |i: int| plan_segment(bytes, i)).flatten() == bytes.take(
            smaller(bytes.len() as int, count * MSS),
        ),
    decreases count,
{
    let s = Seq::new(count, |i: int| plan_segment(bytes, i));
    s.lemma_flatten_and_flatten_alt_are_equivalent();
    if count > 0 {
        let before = (count - 1) as nat;
        let t = Seq::new(before, |i: int| plan_segment(bytes, i));
        lemma_plan_prefix(bytes, before);
        t.lemma_flatten_and_flatten_alt_are_equivalent();
        assert(s.drop_last() =~= t);
        assert(bytes.take(smaller(bytes.len() as int, before * MSS)) + plan_segment(
            bytes,
            before as int,
        ) =~= bytes.take(smaller(bytes.len() as int, count * MSS)));
    } else {
        assert(bytes.take(0) =~= Seq::empty());
    }
}

} // verus!
