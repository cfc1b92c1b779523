use ncp::frame::{read_frame, write_frame, NcpFrame, HEADER_LEN};
use ncp::inner::{Action, HandleMsg, NcpStreamInner};
use ncp::stream::{
    CloseNext, NcpStreamReader, NcpStreamWriter, NotyPoll, ReadNoty, ReadRecv, WriterNoty,
};

fn send(from: &mut NcpStreamInner, msg: HandleMsg, now: u32) -> Vec<Vec<u8>> {
    assert!(from.admits(&msg, now));
    let mut wire = Vec::new();
    for a in from.handle_msg(msg, now).actions {
        if let Action::Push(f) = a {
            wire.push(write_frame(&f));
        }
    }
    wire
}

fn arrive(raw: &[u8]) -> NcpFrame {
    assert!(raw.len() >= HEADER_LEN);
    read_frame(raw)
}

fn drain(inner: &mut NcpStreamInner) -> Vec<Option<Vec<u8>>> {
    let mut out = Vec::new();
    while let Some(noty) = inner.next_read() {
        match noty {
            ReadNoty::Data(d) => {
                out.push(Some(d));
                inner.reader_took(false);
            }
            ReadNoty::Eof => {
                out.push(None);
                inner.reader_took(true);
            }
        }
    }
    out
}

#[test]
fn stream_survives_loss_doubles_and_reordering() {
    let mut a = NcpStreamInner::new();
    let mut b = NcpStreamInner::new();
    let writer = NcpStreamWriter::new();
    let plan = writer.plan_write(b"reliable bytes");
    let mut wire = Vec::new();
    for seg in plan.segments {
        wire.append(&mut send(&mut a, HandleMsg::WriteData(seg), 1000));
    }
    wire.append(&mut send(&mut a, HandleMsg::Close, 1000));
    assert_eq!(wire.len(), 8);

    let mut got = Vec::new();
    for k in [7usize, 5, 5, 2, 0, 1, 0] {
        b.handle_msg(HandleMsg::RecvData(arrive(&wire[k])), 1010);
        got.append(&mut drain(&mut b));
    }
    assert_eq!(got.len(), 3);

    let again = send(&mut a, HandleMsg::CheckResend, 1400);
    assert_eq!(again.len(), 8);
    for raw in again.iter().rev() {
        b.handle_msg(HandleMsg::RecvData(arrive(raw)), 1410);
        got.append(&mut drain(&mut b));
    }
    assert_eq!(got.len(), 8);
    assert_eq!(got[7], None);
    let mut bytes = Vec::new();
    for piece in got.into_iter().flatten() {
        bytes.extend_from_slice(&piece);
    }
    assert_eq!(bytes, b"reliable bytes".to_vec());
}

#[test]
fn window_stays_in_balance() {
    let mut a = NcpStreamInner::new();
    let mut writer = NcpStreamWriter::new();
    let plan = writer.plan_write(&[7u8; 300]);
    assert_eq!((plan.segments.len(), plan.total), (64, 128));
    let accepted = plan.segments.len();
    assert_eq!(writer.finish_write(&plan, accepted), Some(128));
    for seg in plan.segments {
        assert_eq!(send(&mut a, HandleMsg::WriteData(seg), 50).len(), 1);
    }
    assert_eq!((writer.write_wnd, a.write_wnd, a.send_buf.len()), (0, 0, 64));
    let msg = HandleMsg::RecvData(ncp::segment::ack_frame(9, 10));
    for action in a.handle_msg(msg, 60).actions {
        if let Action::Notify(n) = action {
            assert_eq!(n, WriterNoty::WindowInc(1));
            writer.on_try(ncp::stream::NotyTry::Noty(n));
        }
    }
    assert_eq!((writer.write_wnd, a.write_wnd, a.send_buf.len()), (10, 10, 54));
}

#[test]
fn bytes_are_read_as_they_were_written() {
    let mut a = NcpStreamInner::new();
    let mut b = NcpStreamInner::new();
    let plan = NcpStreamWriter::new().plan_write(b"some longer text");
    let mut wire = Vec::new();
    for seg in plan.segments {
        wire.append(&mut send(&mut a, HandleMsg::WriteData(seg), 1000));
    }
    wire.append(&mut send(&mut a, HandleMsg::Close, 1000));
    let mut blocks = Vec::new();
    for raw in wire.iter().rev() {
        b.handle_msg(HandleMsg::RecvData(arrive(raw)), 1010);
        blocks.append(&mut drain(&mut b));
    }
    assert_eq!((blocks.len(), blocks[8].is_none()), (9, true));
    let mut reader = NcpStreamReader::new();
    let mut read = Vec::new();
    let mut buf = [0u8; 1];
    for piece in blocks {
        while let Some(size) = reader.read_pending(&mut buf) {
            assert_eq!(size, 1);
            read.extend_from_slice(&buf);
        }
        let recv = match piece {
            Some(data) => ReadRecv::Noty(ReadNoty::Data(data)),
            None => ReadRecv::Noty(ReadNoty::Eof),
        };
        let size = reader.read_received(recv, &mut buf).unwrap();
        read.extend_from_slice(&buf[..size]);
    }
    assert_eq!(read, b"some longer text".to_vec());
}

#[test]
fn shutdown_is_over_when_all_is_acknowledged() {
    let mut a = NcpStreamInner::new();
    let mut writer = NcpStreamWriter::new();
    let plan = writer.plan_write(&[1, 2, 3]);
    assert_eq!(writer.finish_write(&plan, 2), Some(3));
    for seg in plan.segments {
        send(&mut a, HandleMsg::WriteData(seg), 1000);
    }
    assert_eq!(writer.begin_close(), CloseNext::SendClose);
    send(&mut a, HandleMsg::Close, 1000);
    assert_eq!(writer.close_sent(true), CloseNext::PollNoty);
    let mut next = writer.on_close_poll(NotyPoll::Pending);
    for (sn, una) in [(2u32, 0u32), (0, 0), (1, 2)] {
        assert_ne!(next, CloseNext::Done);
        let msg = HandleMsg::RecvData(ncp::segment::ack_frame(sn, una));
        for action in a.handle_msg(msg, 1010).actions {
            if let Action::Notify(n) = action {
                next = writer.on_close_poll(NotyPoll::Noty(n));
            }
        }
    }
    assert_eq!(next, CloseNext::Done);
    assert_eq!((writer.write_wnd, writer.closing), (64, true));
}

#[test]
fn writes_hand_over_what_they_accept() {
    let mut a = NcpStreamInner::new();
    let mut b = NcpStreamInner::new();
    let mut writer = NcpStreamWriter { write_wnd: 3, closing: false };
    let text = b"several writes";
    let mut accepted = Vec::new();
    let mut wire = Vec::new();
    for (from, to) in [(0usize, 3usize), (3, 14)] {
        let plan = writer.plan_write(&text[from..to]);
        let count = plan.segments.len();
        let total = writer.finish_write(&plan, count).unwrap();
        accepted.extend_from_slice(&text[from..from + total]);
        for seg in plan.segments {
            wire.append(&mut send(&mut a, HandleMsg::WriteData(seg), 1000));
        }
    }
    assert_eq!((accepted.as_slice(), wire.len()), (&b"sever"[..], 3));
    for raw in wire.iter().rev() {
        b.handle_msg(HandleMsg::RecvData(arrive(raw)), 1010);
    }
    let mut read = Vec::new();
    for piece in drain(&mut b).into_iter().flatten() {
        read.extend_from_slice(&piece);
    }
    assert_eq!(read, accepted);
}

#[test]
fn acknowledged_segments_have_come() {
    let mut a = NcpStreamInner::new();
    let mut b = NcpStreamInner::new();
    let mut wire = Vec::new();
    for i in 0..3u8 {
        wire.append(&mut send(&mut a, HandleMsg::WriteData(vec![i]), 1000));
    }
    wire.append(&mut send(&mut a, HandleMsg::Close, 1000));
    let mut told = Vec::new();
    for k in [2usize, 0, 3, 1] {
        let mut answers = Vec::new();
        for action in b.handle_msg(HandleMsg::RecvData(arrive(&wire[k])), 1005).actions {
            if let Action::Ack(f) = action {
                answers.push(write_frame(&f));
            }
        }
        assert_eq!(answers.len(), 1);
        for action in a.handle_msg(HandleMsg::RecvData(arrive(&answers[0])), 1010).actions {
            if let Action::Notify(n) = action {
                told.push(n);
            }
        }
        for sn in 0..a.send_una {
            assert!(b.recv_buf.iter().any(|s| s.seg_no == sn));
        }
    }
    let one = WriterNoty::WindowInc(1);
    assert_eq!(told, vec![one, one, one, WriterNoty::Closed]);
    assert_eq!(drain(&mut b), vec![Some(vec![0]), Some(vec![1]), Some(vec![2]), None]);
}
