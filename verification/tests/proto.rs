use lan_remote::proto::{
    copy_range, push_be16, push_be32, read_be16, read_be32, ControlMsg, InboundVideo, VideoPacket,
    CONTROL_PORT, VIDEO_CHUNK_MAX, VIDEO_HDR_LEN, VIDEO_PORT,
};

fn written(data: &[u8]) -> Vec<u8> {
    let mut buf = Vec::new();
    VideoPacket {
        frame_id: 0x0102_0304,
        chunk_idx: 0x0506,
        total_chunks: 0x0708,
        pts_ms: 0x090a_0b0c,
        data,
    }
    .write_to(&mut buf);
    buf
}

#[test]
fn ports_and_sizes() {
    assert_eq!(CONTROL_PORT, 7272);
    assert_eq!(VIDEO_PORT, 7274);
    assert_eq!(VIDEO_CHUNK_MAX, 1300);
    assert_eq!(VIDEO_HDR_LEN, 14);
}

#[test]
fn datagram_layout() {
    assert_eq!(
        written(&[0xaa, 0xbb, 0xcc]),
        vec![1, 2, 3, 4, 5, 6, 7, 8, 9, 10, 11, 12, 0, 3, 0xaa, 0xbb, 0xcc]
    );
}

#[test]
fn write_to_appends() {
    let mut buf = vec![42];
    VideoPacket { frame_id: 0, chunk_idx: 0, total_chunks: 0, pts_ms: 0, data: &[] }
        .write_to(&mut buf);
    assert_eq!(buf.len(), 15);
    assert_eq!(buf[0], 42);
}

#[test]
fn datagram_reads_back() {
    let mut buf = written(&[7; 300]);
    buf.extend_from_slice(&[1, 2, 3]);
    assert_eq!(
        InboundVideo::parse(&buf),
        Some(InboundVideo {
            frame_id: 0x0102_0304,
            chunk_idx: 0x0506,
            total_chunks: 0x0708,
            pts_ms: 0x090a_0b0c,
            data: vec![7; 300],
        })
    );
}

#[test]
fn what_was_read_writes_the_same_bytes() {
    let buf = written(&[1, 2, 3, 4, 5]);
    let p = InboundVideo::parse(&buf).unwrap();
    let mut again = Vec::new();
    VideoPacket {
        frame_id: p.frame_id,
        chunk_idx: p.chunk_idx,
        total_chunks: p.total_chunks,
        pts_ms: p.pts_ms,
        data: &p.data,
    }
    .write_to(&mut again);
    assert_eq!(again, buf);
}

#[test]
fn short_datagrams_are_refused() {
    let buf = written(&[1, 2, 3]);
    for n in 0..buf.len() {
        assert_eq!(InboundVideo::parse(&buf[..n]), None);
    }
    assert!(InboundVideo::parse(&written(&[])).is_some());
}

#[test]
fn length_field_keeps_the_low_sixteen_bits() {
    let data = vec![0u8; 0x1_0002];
    let buf = written(&data);
    assert_eq!(&buf[12..14], &[0, 2]);
    assert_eq!(InboundVideo::parse(&buf).unwrap().data, vec![0, 0]);
}

#[test]
fn numbers_are_big_endian() {
    let mut buf = Vec::new();
    push_be16(&mut buf, 0xbeef);
    push_be32(&mut buf, 0xdead_c0de);
    assert_eq!(buf, vec![0xbe, 0xef, 0xde, 0xad, 0xc0, 0xde]);
    assert_eq!(read_be16(&buf, 0), 0xbeef);
    assert_eq!(read_be32(&buf, 2), 0xdead_c0de);
    assert_eq!(copy_range(&buf, 1, 3), vec![0xef, 0xde]);
}

#[test]
fn messages_compare_by_what_they_say() {
    let a = ControlMsg::FileChunk { id: 1, data: vec![1, 2] };
    assert_eq!(a.clone(), a);
    assert_ne!(a, ControlMsg::FileChunk { id: 1, data: vec![1] });
    assert_ne!(ControlMsg::Ping, ControlMsg::Pong);
}
