use ncp::frame::{NcpFrame, CMD_ACK, CMD_PUSH};
use ncp::inner::{command_msg, Action, HandleMsg, NcpStreamInner, Step};
use ncp::segment::{ack_frame, SegState};
use ncp::stream::{is_eof, ReadNext, ReadNoty, ReaderTry, WriteCmd, WriterNoty};

fn push(sn: u32, data: &[u8]) -> HandleMsg {
    HandleMsg::RecvData(NcpFrame {
        conv: 0,
        cmd: CMD_PUSH,
        frg: 0,
        wnd: 0,
        ts: 40,
        sn,
        una: 0,
        len: data.len() as u32,
        data: data.to_vec(),
    })
}

fn ack(sn: u32, una: u32) -> HandleMsg {
    HandleMsg::RecvData(ack_frame(sn, una))
}

fn write(data: &[u8]) -> HandleMsg {
    HandleMsg::WriteData(data.to_vec())
}

fn handle(inner: &mut NcpStreamInner, msg: HandleMsg, now: u32) -> Step {
    assert!(inner.admits(&msg, now));
    inner.handle_msg(msg, now)
}

fn pushes(step: &Step) -> Vec<(u32, Vec<u8>)> {
    let mut out = Vec::new();
    for a in step.actions.iter() {
        if let Action::Push(f) = a {
            out.push((f.sn, f.data.clone()));
        }
    }
    out
}

fn acks(step: &Step) -> Vec<(u32, u32)> {
    let mut out = Vec::new();
    for a in step.actions.iter() {
        if let Action::Ack(f) = a {
            assert_eq!(f.cmd, CMD_ACK);
            out.push((f.sn, f.una));
        }
    }
    out
}

fn notys(step: &Step) -> Vec<WriterNoty> {
    let mut out = Vec::new();
    for a in step.actions.iter() {
        if let Action::Notify(n) = a {
            out.push(*n);
        }
    }
    out
}

fn received(inner: &NcpStreamInner) -> Vec<u32> {
    inner.recv_buf.iter().map(|s| s.seg_no).collect()
}

#[test]
fn new_connection_has_the_whole_window() {
    let inner = NcpStreamInner::new();
    assert_eq!((inner.write_wnd, inner.send_wnd_limit), (64, 64));
    assert_eq!((inner.send_sn, inner.send_una, inner.send_next, inner.recv_next), (0, 0, 0, 0));
    assert_eq!((inner.rto, inner.srtt, inner.rttval, inner.now), (200, 0, 0, 0));
    assert_eq!((inner.closing, inner.closing_sn), (false, 0));
    assert!(inner.send_queue.is_empty() && inner.send_buf.is_empty() && inner.recv_buf.is_empty());
}

#[test]
fn commands_become_messages() {
    assert!(matches!(command_msg(WriteCmd::Data(vec![1])), HandleMsg::WriteData(d) if d == vec![1]));
    assert!(matches!(command_msg(WriteCmd::Close), HandleMsg::Close));
}

#[test]
fn write_goes_out_at_once() {
    let mut inner = NcpStreamInner::new();
    let step = handle(&mut inner, write(&[1, 2]), 1000);
    assert!(step.proceed);
    assert_eq!(pushes(&step), vec![(0, vec![1, 2])]);
    assert_eq!(step.actions.len(), 1);
    assert_eq!((inner.send_sn, inner.send_una, inner.write_wnd), (1, 0, 63));
    assert!(inner.send_queue.is_empty());
    let seg = &inner.send_buf[0];
    assert_eq!((seg.seg_no, seg.state), (0, SegState::WaitAck));
    // 1000 + 200 + 200 / 8
    assert_eq!((seg.timestamp, seg.rexmit_timestamp), (1000, 1225));
}

#[test]
fn close_takes_no_window() {
    let mut inner = NcpStreamInner::new();
    let step = handle(&mut inner, HandleMsg::Close, 5);
    assert_eq!(pushes(&step), vec![(0, Vec::new())]);
    assert_eq!((inner.send_sn, inner.write_wnd), (1, 64));
    assert!(inner.send_buf[0].data.is_none());
}

#[test]
fn acknowledgement_opens_the_window_and_samples() {
    let mut inner = NcpStreamInner::new();
    handle(&mut inner, write(&[1]), 1000);
    handle(&mut inner, write(&[2]), 1000);
    let step = handle(&mut inner, ack(0, 0), 1080);
    assert_eq!(notys(&step), vec![WriterNoty::WindowInc(1)]);
    assert_eq!((inner.send_una, inner.write_wnd, inner.send_buf.len()), (1, 63, 1));
    assert_eq!((inner.srtt, inner.rttval, inner.rto), (80, 40, 280));
}

#[test]
fn acknowledgement_out_of_order_waits_for_the_head() {
    let mut inner = NcpStreamInner::new();
    for i in 0..3 {
        handle(&mut inner, write(&[i]), 1000);
    }
    let step = handle(&mut inner, ack(2, 0), 1000);
    assert!(step.actions.is_empty());
    assert_eq!((inner.send_una, inner.send_buf.len(), inner.srtt), (0, 3, 0));
    assert_eq!(inner.send_buf[2].state, SegState::Sent);
    let step = handle(&mut inner, ack(0, 0), 1000);
    assert_eq!(notys(&step), vec![WriterNoty::WindowInc(1)]);
    assert_eq!(inner.send_una, 1);
    let step = handle(&mut inner, ack(1, 1), 1000);
    assert_eq!(notys(&step).len(), 2);
    assert_eq!((inner.send_una, inner.send_buf.len(), inner.write_wnd), (3, 0, 64));
}

#[test]
fn acknowledgement_is_cumulative() {
    let mut inner = NcpStreamInner::new();
    for i in 0..5 {
        handle(&mut inner, write(&[i]), 1000);
    }
    let step = handle(&mut inner, ack(7, 4), 1001);
    assert_eq!(notys(&step).len(), 4);
    assert_eq!((inner.send_una, inner.send_buf.len()), (4, 1));
    let again = handle(&mut inner, ack(7, 4), 1002);
    assert!(again.actions.is_empty());
    assert_eq!((inner.send_una, inner.send_buf.len(), inner.write_wnd), (4, 1, 63));
}

#[test]
fn last_covered_segment_gives_the_sample() {
    let mut inner = NcpStreamInner::new();
    handle(&mut inner, write(&[1]), 1000);
    handle(&mut inner, write(&[2]), 1050);
    handle(&mut inner, ack(1, 1), 1060);
    assert_eq!(inner.srtt, 10);
}

#[test]
fn acknowledged_close_is_told_and_counts_for_the_window() {
    let mut inner = NcpStreamInner::new();
    handle(&mut inner, write(&[1]), 1000);
    handle(&mut inner, HandleMsg::Close, 1000);
    let step = handle(&mut inner, ack(1, 1), 1000);
    assert_eq!(notys(&step), vec![WriterNoty::WindowInc(1), WriterNoty::Closed]);
    assert_eq!(inner.write_wnd, 65);
}

#[test]
fn writer_is_told_of_each_command_once_and_in_order() {
    let mut inner = NcpStreamInner::new();
    let mut told = Vec::new();
    told.append(&mut notys(&handle(&mut inner, ack(0, 4), 990)));
    handle(&mut inner, write(&[1]), 1000);
    handle(&mut inner, write(&[2]), 1000);
    handle(&mut inner, write(&[3]), 1000);
    handle(&mut inner, HandleMsg::Close, 1000);
    for (sn, una) in [(3u32, 0u32), (1, 0), (1, 0), (99, 0)] {
        told.append(&mut notys(&handle(&mut inner, ack(sn, una), 1010)));
    }
    assert_eq!((told.len(), inner.send_una), (0, 0));
    told.append(&mut notys(&handle(&mut inner, ack(0, 0), 1020)));
    assert_eq!((told.len(), inner.send_una), (2, 2));
    told.append(&mut notys(&handle(&mut inner, ack(0, 2), 1030)));
    assert_eq!((told.len(), inner.send_una), (2, 2));
    told.append(&mut notys(&handle(&mut inner, ack(2, 1), 1040)));
    told.append(&mut notys(&handle(&mut inner, ack(2, 4), 1050)));
    let one = WriterNoty::WindowInc(1);
    assert_eq!(told, vec![one, one, one, WriterNoty::Closed]);
    assert_eq!(inner.send_una, 4);
}

#[test]
fn due_segments_are_sent_again() {
    let mut inner = NcpStreamInner::new();
    handle(&mut inner, write(&[1]), 1000);
    handle(&mut inner, write(&[2]), 1100);
    assert!(handle(&mut inner, HandleMsg::CheckResend, 1224).actions.is_empty());
    let step = handle(&mut inner, HandleMsg::CheckResend, 1225);
    assert_eq!(pushes(&step), vec![(0, vec![1])]);
    let step = handle(&mut inner, HandleMsg::CheckResend, 1325);
    assert_eq!(pushes(&step), vec![(0, vec![1]), (1, vec![2])]);
    assert_eq!(inner.send_buf[0].rexmit_timestamp, 1225);
}

#[test]
fn queue_is_held_back_beyond_the_limit() {
    let mut inner = NcpStreamInner::new();
    for i in 0..66u32 {
        let step = handle(&mut inner, write(&[i as u8]), 1000);
        assert_eq!(pushes(&step).len(), 1);
    }
    let step = handle(&mut inner, write(&[66]), 1000);
    assert!(step.actions.is_empty());
    assert_eq!((inner.send_buf.len(), inner.send_queue.len()), (66, 1));
    assert_eq!(inner.send_queue[0].state, SegState::Init);
    let step = handle(&mut inner, ack(0, 1), 1100);
    assert_eq!(notys(&step), vec![WriterNoty::WindowInc(1)]);
    assert_eq!(pushes(&step), vec![(66, vec![66])]);
    assert_eq!((inner.send_buf.len(), inner.send_queue.len()), (66, 0));
    assert_eq!(inner.send_buf[65].timestamp, 1100);
}

#[test]
fn every_segment_is_acknowledged_once() {
    let mut inner = NcpStreamInner::new();
    let step = handle(&mut inner, push(0, &[1]), 10);
    assert_eq!((acks(&step), step.actions.len(), step.proceed), (vec![(0, 0)], 1, true));
    let step = handle(&mut inner, push(0, &[1]), 10);
    assert_eq!((acks(&step), step.actions.len(), step.proceed), (vec![(0, 0)], 1, true));
    assert_eq!(received(&inner), vec![0]);
    assert!(inner.next_read().is_some());
    assert!(inner.reader_took(false).is_none());
    let step = handle(&mut inner, push(0, &[1]), 10);
    assert_eq!((acks(&step), step.actions.len(), step.proceed), (vec![(0, 1)], 1, false));
    assert!(inner.recv_buf.is_empty());
}

#[test]
fn old_segment_leaves_the_queue_alone() {
    let mut inner = NcpStreamInner::new();
    for i in 0..67u32 {
        handle(&mut inner, write(&[i as u8]), 1000);
    }
    inner.send_wnd_limit = 100;
    inner.recv_next = 5;
    let step = handle(&mut inner, push(4, &[1]), 1001);
    assert_eq!((acks(&step), step.proceed, inner.send_queue.len()), (vec![(4, 5)], false, 1));
    assert_eq!(inner.now, 1001);
    let step = handle(&mut inner, push(6, &[1]), 1002);
    assert_eq!((acks(&step), step.proceed, inner.send_queue.len()), (vec![(6, 5)], true, 0));
    assert_eq!(pushes(&step), vec![(66, vec![66])]);
}

#[test]
fn segments_are_sorted_whatever_their_order() {
    let mut a = NcpStreamInner::new();
    let mut b = NcpStreamInner::new();
    for sn in [3, 1, 4, 0, 2] {
        handle(&mut a, push(sn, &[sn as u8]), 10);
    }
    for sn in [4, 4, 2, 3, 2, 0, 1] {
        handle(&mut b, push(sn, &[sn as u8]), 10);
    }
    assert_eq!(received(&a), vec![0, 1, 2, 3, 4]);
    assert_eq!(received(&b), received(&a));
    assert_eq!((a.recv_buf[1].timestamp, a.recv_buf[1].rexmit_timestamp), (40, 0));
}

#[test]
fn reader_waits_for_the_next_number() {
    let mut inner = NcpStreamInner::new();
    handle(&mut inner, push(1, &[9]), 10);
    assert!(inner.next_read().is_none());
    handle(&mut inner, push(0, &[8]), 10);
    assert!(matches!(inner.next_read(), Some(ReadNoty::Data(d)) if d == vec![8]));
    assert!(inner.reader_took(false).is_none());
    assert!(matches!(inner.next_read(), Some(ReadNoty::Data(d)) if d == vec![9]));
}

#[test]
fn full_reader_gets_the_same_again() {
    let mut inner = NcpStreamInner::new();
    handle(&mut inner, push(0, &[8, 7]), 10);
    let noty = inner.next_read().unwrap();
    inner.reader_full(noty);
    assert_eq!(inner.recv_next, 0);
    assert_eq!(inner.recv_buf[0].data, Some(vec![8, 7]));
    assert!(matches!(inner.next_read(), Some(ReadNoty::Data(d)) if d == vec![8, 7]));
}

#[test]
fn segment_without_payload_ends_the_stream() {
    let mut inner = NcpStreamInner::new();
    handle(&mut inner, push(0, &[]), 10);
    let noty = inner.next_read().unwrap();
    assert!(matches!(noty, ReadNoty::Eof));
    inner.reader_full(noty);
    assert!(matches!(inner.next_read(), Some(ReadNoty::Eof)));
    assert_eq!(inner.reader_took(true), Some(WriterNoty::Closed));
    assert_eq!((inner.recv_next, inner.recv_buf.len()), (1, 0));
}

#[test]
fn what_cannot_be_handled_is_told() {
    let mut inner = NcpStreamInner::new();
    let mut odd = ack_frame(0, 0);
    odd.cmd = 2;
    assert!(!inner.admits(&HandleMsg::RecvData(odd), 10));
    assert!(!inner.admits(&write(&[1]), u32::MAX - 224));
    assert!(inner.admits(&write(&[1]), u32::MAX - 225));
    handle(&mut inner, write(&[1]), 1000);
    assert!(!inner.admits(&ack(0, 0), 999));
    assert!(inner.admits(&ack(5, 0), 999));
    assert!(!inner.admits(&HandleMsg::CheckResend, 0x8000_0000));
    inner.srtt = 700_000_000;
    assert!(!inner.admits(&ack(0, 0), 1001));
    assert!(inner.admits(&ack(0, 0), 1000));
    inner.write_wnd = i16::MAX;
    assert!(!inner.admits(&ack(0, 0), 1000));
    assert!(inner.admits(&ack(1, 0), 1000));
    inner.write_wnd = i16::MIN;
    assert!(!inner.admits(&write(&[1]), 1000));
    assert!(inner.admits(&HandleMsg::Close, 1000));
}

#[test]
fn retransmission_time_is_held_in_twos_complement() {
    let mut inner = NcpStreamInner::new();
    handle(&mut inner, write(&[1]), u32::MAX - 300);
    assert_eq!(inner.send_buf[0].rexmit_timestamp, u32::MAX - 75);
    assert!(handle(&mut inner, HandleMsg::CheckResend, u32::MAX - 76).actions.is_empty());
    assert_eq!(pushes(&handle(&mut inner, HandleMsg::CheckResend, u32::MAX)).len(), 1);
    assert_eq!(pushes(&handle(&mut inner, HandleMsg::CheckResend, 3)).len(), 1);
}

#[test]
fn acknowledged_segment_behind_a_gap_is_still_sent_again() {
    let mut inner = NcpStreamInner::new();
    handle(&mut inner, write(&[1]), 1000);
    handle(&mut inner, write(&[2]), 1000);
    handle(&mut inner, ack(1, 0), 1000);
    let step = handle(&mut inner, HandleMsg::CheckResend, 1300);
    assert_eq!(pushes(&step), vec![(0, vec![1]), (1, vec![2])]);
}

#[test]
fn reader_that_takes_gets_the_next() {
    let mut inner = NcpStreamInner::new();
    handle(&mut inner, push(0, &[1]), 10);
    handle(&mut inner, push(1, &[]), 10);
    let noty = inner.next_read().unwrap();
    let eof = is_eof(&noty);
    assert!(!eof);
    assert_eq!(inner.on_reader(eof, ReaderTry::Took), ReadNext::More);
    assert_eq!((inner.recv_next, received(&inner)), (1, vec![1]));
    let noty = inner.next_read().unwrap();
    let eof = is_eof(&noty);
    assert!(eof);
    assert_eq!(inner.on_reader(eof, ReaderTry::Took), ReadNext::Over(WriterNoty::Closed));
    assert_eq!((inner.recv_next, received(&inner)), (2, vec![]));
}

#[test]
fn reader_without_room_gets_the_same_again() {
    let mut inner = NcpStreamInner::new();
    handle(&mut inner, push(0, &[1, 2]), 10);
    handle(&mut inner, push(1, &[]), 10);
    let noty = inner.next_read().unwrap();
    assert_eq!(inner.on_reader(false, ReaderTry::Full(noty)), ReadNext::Wait);
    assert_eq!((inner.recv_next, received(&inner)), (0, vec![0, 1]));
    assert_eq!(inner.recv_buf[0].data, Some(vec![1, 2]));
    assert!(inner.next_read().is_some());
    assert_eq!(inner.on_reader(false, ReaderTry::Took), ReadNext::More);
    let end = inner.next_read().unwrap();
    assert_eq!(inner.on_reader(true, ReaderTry::Full(end)), ReadNext::Wait);
    assert_eq!((inner.recv_next, received(&inner)), (1, vec![1]));
    assert!(is_eof(&inner.next_read().unwrap()));
}

#[test]
fn reader_that_is_gone_fails_the_connection() {
    let mut inner = NcpStreamInner::new();
    handle(&mut inner, push(0, &[1]), 10);
    assert!(inner.next_read().is_some());
    assert_eq!(inner.on_reader(false, ReaderTry::Gone), ReadNext::Fail);
    assert_eq!((inner.recv_next, received(&inner)), (0, vec![0]));
}

#[test]
fn first_copy_of_a_segment_counts() {
    let mut inner = NcpStreamInner::new();
    handle(&mut inner, push(1, &[5]), 10);
    handle(&mut inner, push(1, &[6]), 10);
    handle(&mut inner, push(0, &[7]), 10);
    handle(&mut inner, push(0, &[8]), 10);
    let mut got = Vec::new();
    while let Some(noty) = inner.next_read() {
        if let ReadNoty::Data(d) = noty {
            got.push(d);
        }
        inner.on_reader(false, ReaderTry::Took);
        handle(&mut inner, push(0, &[9]), 10);
    }
    assert_eq!(got, vec![vec![7], vec![5]]);
}

#[test]
fn first_transmissions_follow_the_commands() {
    let mut inner = NcpStreamInner::new();
    for i in 0..66u32 {
        let step = if i == 40 {
            handle(&mut inner, HandleMsg::Close, 1000)
        } else {
            handle(&mut inner, write(&[i as u8]), 1000)
        };
        assert_eq!(pushes(&step).iter().map(|p| p.0).collect::<Vec<u32>>(), vec![i]);
    }
    for i in 66..68u32 {
        assert!(pushes(&handle(&mut inner, write(&[i as u8]), 1000)).is_empty());
    }
    assert!(pushes(&handle(&mut inner, ack(0, 1), 1010)).is_empty());
    assert_eq!(pushes(&handle(&mut inner, ack(1, 2), 1020)), vec![(66, vec![66]), (67, vec![67])]);
}
