use ncp::stream::{
    is_eof, local_addr, CloseNext, NcpStreamReader, NcpStreamWriter, NotyPoll, NotyTry, ReadNoty,
    ReadRecv, WriteNext, WriterNoty,
};

fn block(data: &[u8]) -> ReadRecv {
    ReadRecv::Noty(ReadNoty::Data(data.to_vec()))
}

#[test]
fn local_address_follows_the_remote_family() {
    assert_eq!(local_addr(true), "0.0.0.0:0");
    assert_eq!(local_addr(false), "[::]:0");
}

#[test]
fn block_that_fits_is_handed_over_whole() {
    let mut reader = NcpStreamReader::new();
    let mut buf = [0u8; 5];
    assert_eq!(reader.read_pending(&mut buf), None);
    assert_eq!(reader.read_received(block(&[1, 2, 3]), &mut buf), Some(3));
    assert_eq!(buf, [1, 2, 3, 0, 0]);
    assert!(reader.pending_buf.is_none());
    assert_eq!(reader.read_received(block(&[4, 5, 6, 7, 8]), &mut buf), Some(5));
    assert_eq!(buf, [4, 5, 6, 7, 8]);
    assert!(reader.pending_buf.is_none());
}

#[test]
fn long_block_is_read_on() {
    let mut reader = NcpStreamReader::new();
    let mut buf = [0u8; 2];
    assert_eq!(reader.read_received(block(&[1, 2, 3, 4, 5]), &mut buf), Some(2));
    assert_eq!((buf, reader.last_read), ([1, 2], 2));
    assert_eq!(reader.read_pending(&mut buf), Some(2));
    assert_eq!((buf, reader.last_read), ([3, 4], 4));
    assert_eq!(reader.read_pending(&mut buf), Some(1));
    assert_eq!((buf, reader.last_read), ([5, 4], 0));
    assert!(reader.pending_buf.is_none());
}

#[test]
fn drained_block_makes_way_for_the_next() {
    let mut reader = NcpStreamReader::new();
    let mut buf = [9u8; 2];
    assert_eq!(reader.read_received(block(&[1, 2, 3]), &mut buf), Some(2));
    assert_eq!(buf, [1, 2]);
    assert_eq!(reader.read_pending(&mut buf), Some(1));
    assert_eq!(buf, [3, 2]);
    assert_eq!(reader.read_pending(&mut buf), None);
    assert_eq!(reader.read_received(block(&[4, 5]), &mut buf), Some(2));
    assert_eq!(buf, [4, 5]);
}

#[test]
fn kept_block_outlives_a_read_without_room() {
    let mut reader = NcpStreamReader::new();
    let mut none = [0u8; 0];
    let mut one = [0u8; 1];
    assert_eq!(reader.read_received(block(&[1, 2]), &mut none), Some(0));
    assert_eq!(reader.read_pending(&mut none), Some(0));
    assert_eq!(reader.read_pending(&mut one), Some(1));
    assert_eq!(one, [1]);
    assert_eq!(reader.read_pending(&mut none), Some(0));
    assert_eq!(reader.read_pending(&mut one), Some(1));
    assert_eq!(one, [2]);
    assert_eq!(reader.read_pending(&mut one), None);
}

#[test]
fn reads_of_any_size_join_to_the_blocks() {
    let blocks: Vec<Vec<u8>> = vec![vec![1], vec![2, 3, 4, 5, 6], vec![7, 8], vec![9, 10, 11]];
    let rooms: Vec<Vec<usize>> = vec![vec![1], vec![2], vec![3, 1], vec![5, 2, 1], vec![20]];
    for sizes in rooms.iter() {
        let mut reader = NcpStreamReader::new();
        let mut waiting = blocks.iter();
        let mut read: Vec<u8> = Vec::new();
        let mut turn = 0;
        loop {
            let mut buf = vec![0u8; sizes[turn % sizes.len()]];
            turn += 1;
            let size = match reader.read_pending(&mut buf) {
                Some(size) => size,
                None => {
                    let recv = match waiting.next() {
                        Some(data) => block(data),
                        None => ReadRecv::Noty(ReadNoty::Eof),
                    };
                    reader.read_received(recv, &mut buf).unwrap()
                }
            };
            if size == 0 {
                break;
            }
            read.extend_from_slice(&buf[..size]);
        }
        assert_eq!(read, vec![1, 2, 3, 4, 5, 6, 7, 8, 9, 10, 11]);
    }
}

#[test]
fn only_the_end_is_the_end() {
    assert!(is_eof(&ReadNoty::Eof));
    assert!(!is_eof(&ReadNoty::Data(vec![1])));
    assert!(!is_eof(&ReadNoty::Data(Vec::new())));
}

#[test]
fn close_is_asked_for_once() {
    let mut writer = NcpStreamWriter::new();
    assert_eq!(writer.begin_close(), CloseNext::SendClose);
    assert_eq!((writer.write_wnd, writer.closing), (64, true));
    assert_eq!(writer.begin_close(), CloseNext::PollNoty);
    assert_eq!((writer.write_wnd, writer.closing), (64, true));
}

#[test]
fn close_waits_for_what_was_written_before() {
    let mut writer = NcpStreamWriter { write_wnd: 62, closing: true };
    assert_eq!(writer.close_sent(true), CloseNext::PollNoty);
    assert_eq!(writer.on_close_poll(NotyPoll::Pending), CloseNext::Wait);
    let one = WriterNoty::WindowInc(1);
    assert_eq!(writer.on_close_poll(NotyPoll::Noty(one)), CloseNext::PollNoty);
    assert_eq!(writer.on_close_poll(NotyPoll::Noty(one)), CloseNext::PollNoty);
    assert_eq!((writer.write_wnd, writer.closing), (64, true));
    assert_eq!(writer.on_close_poll(NotyPoll::Noty(WriterNoty::Closed)), CloseNext::Done);
    assert_eq!((writer.write_wnd, writer.closing), (64, true));
}

#[test]
fn close_fails_when_the_connection_is_gone() {
    let mut writer = NcpStreamWriter { write_wnd: 3, closing: true };
    assert_eq!(writer.close_sent(false), CloseNext::Fail);
    assert_eq!(writer.on_close_poll(NotyPoll::Ended), CloseNext::Fail);
    assert_eq!(writer.write_wnd, 3);
}

#[test]
fn end_and_wait_hand_nothing_over() {
    let mut reader = NcpStreamReader::new();
    let mut buf = [7u8; 2];
    assert_eq!(reader.read_received(ReadRecv::Noty(ReadNoty::Eof), &mut buf), Some(0));
    assert_eq!(reader.read_received(ReadRecv::Ended, &mut buf), Some(0));
    assert_eq!(reader.read_received(ReadRecv::Pending, &mut buf), None);
    assert_eq!(buf, [7, 7]);
}

#[test]
fn open_window_sends() {
    let writer = NcpStreamWriter::new();
    assert_eq!((writer.write_wnd, writer.closing), (64, false));
    assert_eq!(writer.begin_write(), WriteNext::Send);
}

#[test]
fn shut_window_takes_in_all_notifications() {
    let mut writer = NcpStreamWriter { write_wnd: 0, closing: false };
    assert_eq!(writer.begin_write(), WriteNext::TryNoty);
    let one = WriterNoty::WindowInc(1);
    assert_eq!(writer.on_try(NotyTry::Noty(one)), WriteNext::TryNoty);
    assert_eq!(writer.on_try(NotyTry::Noty(one)), WriteNext::TryNoty);
    assert_eq!(writer.write_wnd, 2);
    assert_eq!(writer.on_try(NotyTry::Empty), WriteNext::Send);
    assert_eq!(writer.on_try(NotyTry::Closed), WriteNext::Fail);
    assert_eq!(writer.on_try(NotyTry::Noty(WriterNoty::Closed)), WriteNext::Fail);
    assert_eq!(writer.write_wnd, 2);
}

#[test]
fn shut_window_waits() {
    let mut writer = NcpStreamWriter { write_wnd: 0, closing: false };
    assert_eq!(writer.on_try(NotyTry::Empty), WriteNext::PollNoty);
    assert_eq!(writer.on_poll(NotyPoll::Pending), WriteNext::Wait);
    assert_eq!(writer.on_poll(NotyPoll::Noty(WriterNoty::WindowInc(3))), WriteNext::Send);
    assert_eq!(writer.write_wnd, 3);
    assert_eq!(writer.on_poll(NotyPoll::Ended), WriteNext::Fail);
    assert_eq!(writer.on_poll(NotyPoll::Noty(WriterNoty::Closed)), WriteNext::Fail);
}

#[test]
fn window_out_of_range_is_told() {
    let writer = NcpStreamWriter { write_wnd: 32767, closing: false };
    assert!(!writer.window_fits(&WriterNoty::WindowInc(1)));
    assert!(writer.window_fits(&WriterNoty::WindowInc(0)));
    assert!(writer.window_fits(&WriterNoty::Closed));
}

#[test]
fn write_is_cut_into_segments() {
    let mut writer = NcpStreamWriter::new();
    let plan = writer.plan_write(&[1, 2, 3, 4, 5]);
    assert_eq!(plan.segments, vec![vec![1, 2], vec![3, 4], vec![5]]);
    assert_eq!(plan.total, 5);
    assert_eq!(writer.write_wnd, 64);
    assert_eq!(writer.finish_write(&plan, 3), Some(5));
    assert_eq!(writer.write_wnd, 61);
}

#[test]
fn write_ends_where_the_window_shuts() {
    let mut writer = NcpStreamWriter { write_wnd: 2, closing: false };
    let plan = writer.plan_write(&[1, 2, 3, 4, 5]);
    assert_eq!(plan.segments, vec![vec![1, 2], vec![3, 4]]);
    assert_eq!(plan.total, 4);
    assert_eq!(writer.finish_write(&plan, 2), Some(4));
    assert_eq!((writer.write_wnd, writer.begin_write()), (0, WriteNext::TryNoty));
}

#[test]
fn write_past_a_shut_window_hands_over_all() {
    let writer = NcpStreamWriter { write_wnd: -1, closing: false };
    assert_eq!(writer.plan_write(&[1, 2, 3]).segments, vec![vec![1, 2], vec![3]]);
    assert!(writer.plan_fits(65_534));
    assert!(!writer.plan_fits(65_536));
    assert!(NcpStreamWriter::new().plan_fits(1_000_000));
}

#[test]
fn refused_segment_fails_the_write() {
    let mut writer = NcpStreamWriter::new();
    let plan = writer.plan_write(&[1, 2, 3]);
    assert_eq!(writer.finish_write(&plan, 1), None);
    assert_eq!(writer.write_wnd, 63);
}

#[test]
fn empty_write_hands_over_nothing() {
    let mut writer = NcpStreamWriter::new();
    let plan = writer.plan_write(&[]);
    assert!(plan.segments.is_empty());
    assert_eq!(writer.finish_write(&plan, 0), Some(0));
    assert_eq!(writer.write_wnd, 64);
}
