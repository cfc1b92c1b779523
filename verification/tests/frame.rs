use ncp::frame::{read_frame, write_frame, NcpFrame, CMD_ACK, CMD_PUSH, HEADER_LEN, MSS, MTU};
use ncp::segment::{ack_frame, segment_frame, NcpSegment, SegState};
use ncp::wire::{u16_be_bytes, u32_be_bytes};

fn sample(len: u32, data: Vec<u8>) -> NcpFrame {
    NcpFrame {
        conv: 0x0102_0304,
        cmd: 5,
        frg: 6,
        wnd: 0x0708,
        ts: 0x090a_0b0c,
        sn: 0x0d0e_0f10,
        una: 0x1112_1314,
        len,
        data,
    }
}

#[test]
fn constants_of_the_wire() {
    assert_eq!((MTU, MSS, CMD_PUSH, CMD_ACK, HEADER_LEN), (1400, 2, 0, 1, 24));
}

#[test]
fn integers_are_big_endian() {
    assert_eq!(u32_be_bytes(0x0102_0304), [1, 2, 3, 4]);
    assert_eq!(u32_be_bytes(u32::MAX), [255, 255, 255, 255]);
    assert_eq!(u32_be_bytes(256), [0, 0, 1, 0]);
    assert_eq!(u16_be_bytes(0xfffe), [255, 254]);
    assert_eq!(u16_be_bytes(1), [0, 1]);
}

#[test]
fn write_frame_lays_out_header_and_payload() {
    let datagram = write_frame(&sample(3, vec![7, 8, 9]));
    let expected: Vec<u8> = vec![
        1, 2, 3, 4, 5, 6, 7, 8, 9, 10, 11, 12, 13, 14, 15, 16, 17, 18, 19, 20, 0, 0, 0, 3, 7, 8, 9,
    ];
    assert_eq!(datagram, expected);
}

#[test]
fn write_frame_leaves_payload_out_when_len_is_zero() {
    let datagram = write_frame(&sample(0, vec![7, 8, 9]));
    assert_eq!(datagram.len(), 24);
    assert_eq!(&datagram[20..], &[0, 0, 0, 0]);
}

#[test]
fn read_frame_reads_every_field() {
    let raw: Vec<u8> = (1..=24).collect();
    let f = read_frame(&raw);
    assert_eq!(f.conv, 0x0102_0304);
    assert_eq!(f.cmd, 5);
    assert_eq!(f.frg, 6);
    assert_eq!(f.wnd, 0x0708);
    assert_eq!(f.ts, 0x090a_0b0c);
    assert_eq!(f.sn, 0x0d0e_0f10);
    assert_eq!(f.una, 0x1112_1314);
    assert_eq!(f.len, 0x1516_1718);
    assert!(f.data.is_empty());
}

#[test]
fn read_frame_takes_all_that_follows_whatever_len_says() {
    let mut raw = write_frame(&sample(1, vec![1]));
    raw.extend_from_slice(&[2, 3]);
    let f = read_frame(&raw);
    assert_eq!(f.len, 1);
    assert_eq!(f.data, vec![1, 2, 3]);
}

#[test]
fn read_frame_drops_what_follows_when_len_is_zero() {
    let mut raw = write_frame(&sample(0, Vec::new()));
    raw.push(9);
    assert!(read_frame(&raw).data.is_empty());
}

#[test]
fn frame_survives_the_wire() {
    let f = read_frame(&write_frame(&sample(2, vec![200, 201])));
    assert_eq!(
        (f.conv, f.cmd, f.frg, f.wnd, f.ts, f.sn, f.una, f.len, f.data),
        (0x0102_0304, 5, 6, 0x0708, 0x090a_0b0c, 0x0d0e_0f10, 0x1112_1314, 2, vec![200, 201])
    );
}

#[test]
fn datagram_survives_reading_and_writing() {
    let raw: Vec<u8> = (0..40).map(|i| 255 - i).collect();
    assert_eq!(write_frame(&read_frame(&raw)), raw);
}

#[test]
fn segment_frame_carries_the_segment() {
    let seg = NcpSegment {
        seg_no: 9,
        state: SegState::WaitAck,
        timestamp: 77,
        rexmit_timestamp: 99,
        data: Some(vec![4, 5]),
    };
    let f = segment_frame(&seg);
    assert_eq!((f.conv, f.cmd, f.frg, f.wnd, f.una), (0, CMD_PUSH, 0, 0, 0));
    assert_eq!((f.ts, f.sn, f.len, f.data), (77, 9, 2, vec![4, 5]));
}

#[test]
fn segment_frame_of_a_close_has_no_payload() {
    let seg = NcpSegment {
        seg_no: 9,
        state: SegState::WaitAck,
        timestamp: 77,
        rexmit_timestamp: 99,
        data: None,
    };
    let f = segment_frame(&seg);
    assert_eq!((f.sn, f.len), (9, 0));
    assert!(f.data.is_empty());
}

#[test]
fn ack_frame_names_segment_and_next() {
    let f = ack_frame(3, 8);
    assert_eq!((f.conv, f.cmd, f.frg, f.wnd), (0, CMD_ACK, 0, 0));
    assert_eq!((f.ts, f.sn, f.una, f.len), (0, 3, 8, 0));
    assert!(f.data.is_empty());
}
