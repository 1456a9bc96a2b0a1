use lan_remote::assembly::Reassembler;
use lan_remote::crypto::Cipher;
use lan_remote::host::{seal_datagrams, FrameSender};
use lan_remote::proto::InboundVideo;

fn packet(frame_id: u32, chunk_idx: u16, total_chunks: u16, data: &[u8]) -> InboundVideo {
    InboundVideo { frame_id, chunk_idx, total_chunks, pts_ms: 0, data: data.to_vec() }
}

fn frame(n: u32) -> Vec<u8> {
    (0..n).map(|i| (i * 7 % 253) as u8).collect()
}

fn packets(sender: &mut FrameSender, nal: &[u8]) -> Vec<Vec<u8>> {
    sender.packetize(nal, 3)
}

fn feed(r: &mut Reassembler, datagram: &[u8]) -> Option<Vec<u8>> {
    r.push(InboundVideo::parse(datagram).unwrap())
}

#[test]
fn chunks_in_order_make_the_frame() {
    let nal = frame(3000);
    let mut r = Reassembler::new();
    let ds = packets(&mut FrameSender::new(), &nal);
    assert_eq!(feed(&mut r, &ds[0]), None);
    assert_eq!(feed(&mut r, &ds[1]), None);
    assert_eq!(feed(&mut r, &ds[2]), Some(nal));
}

#[test]
fn chunks_in_any_order_and_twice_make_the_frame() {
    let nal = frame(5000);
    let ds = packets(&mut FrameSender::new(), &nal);
    for order in [[3, 1, 0, 2, 2], [2, 0, 3, 3, 1], [1, 1, 3, 0, 2]] {
        let mut r = Reassembler::new();
        let mut out = Vec::new();
        for i in order {
            out.push(feed(&mut r, &ds[i]));
        }
        let frames: Vec<_> = out.iter().flatten().collect();
        assert_eq!(frames, vec![&nal]);
    }
}

#[test]
fn frames_may_overlap() {
    let mut sender = FrameSender::new();
    let a = frame(2000);
    let b = frame(2500);
    let da = packets(&mut sender, &a);
    let db = packets(&mut sender, &b);
    let mut r = Reassembler::new();
    assert_eq!(feed(&mut r, &db[1]), None);
    assert_eq!(feed(&mut r, &da[1]), None);
    assert_eq!(feed(&mut r, &da[0]), Some(a));
    assert_eq!(feed(&mut r, &db[0]), Some(b));
}

#[test]
fn passed_frames_are_dropped() {
    let mut r = Reassembler::new();
    assert_eq!(r.push(packet(10, 0, 1, &[1])), Some(vec![1]));
    assert_eq!(r.push(packet(9, 0, 1, &[2])), None);
    assert_eq!(r.push(packet(71, 0, 1, &[3])), None);
    assert_eq!(r.push(packet(70, 0, 1, &[4])), Some(vec![4]));
    assert_eq!(r.push(packet(10, 0, 1, &[5])), None);
}

#[test]
fn the_first_frames_are_counted_from_zero() {
    let mut r = Reassembler::new();
    assert_eq!(r.push(packet(61, 0, 1, &[1])), None);
    assert_eq!(r.push(packet(60, 0, 1, &[1])), Some(vec![1]));
}

#[test]
fn the_number_before_zero_is_behind() {
    let mut r = Reassembler::new();
    assert_eq!(r.push(packet(u32::MAX, 0, 1, &[0])), None);
    assert_eq!(r.push(packet(0, 0, 1, &[0])), Some(vec![0]));
}

#[test]
fn frames_behind_the_last_complete_one_are_given_up() {
    let mut r = Reassembler::new();
    assert_eq!(r.push(packet(5, 0, 2, &[1])), None);
    assert_eq!(r.push(packet(6, 0, 1, &[9])), Some(vec![9]));
    assert_eq!(r.push(packet(5, 1, 2, &[2])), None);
    assert_eq!(r.push(packet(6, 0, 1, &[8])), Some(vec![8]));
}

#[test]
fn the_first_packet_says_how_many_chunks_there_are() {
    let mut r = Reassembler::new();
    assert_eq!(r.push(packet(0, 0, 2, &[1])), None);
    assert_eq!(r.push(packet(0, 1, 9, &[2])), Some(vec![1, 2]));
}

#[test]
fn a_frame_of_no_chunks_never_completes() {
    let mut r = Reassembler::new();
    assert_eq!(r.push(packet(0, 0, 0, &[1])), None);
    assert_eq!(r.push(packet(0, 1, 0, &[1])), None);
}

#[test]
fn an_index_beyond_the_count_takes_no_place() {
    let mut r = Reassembler::new();
    assert_eq!(r.push(packet(0, 0, 2, &[1])), None);
    assert_eq!(r.push(packet(0, 5, 2, &[9])), None);
    assert_eq!(r.push(packet(0, 2, 2, &[9])), None);
    assert_eq!(r.push(packet(0, 0, 2, &[1])), None);
    assert_eq!(r.push(packet(0, 1, 2, &[2])), Some(vec![1, 2]));
    let mut r = Reassembler::new();
    assert_eq!(r.push(packet(0, 7, 2, &[9])), None);
    assert_eq!(r.push(packet(0, 0, 1, &[3])), Some(vec![3]));
}

#[test]
fn sealed_video_arrives() {
    let cipher = Cipher::new(&[6; 32]);
    let mut sender = FrameSender::new();
    let mut r = Reassembler::new();
    for n in [1u32, 1300, 1301, 9999] {
        let nal = frame(n);
        let plain = packets(&mut sender, &nal);
        let sealed = seal_datagrams(&cipher, &plain).unwrap();
        let mut out = None;
        for d in sealed.iter().rev() {
            assert_eq!(out, None);
            assert_eq!(r.receive(&cipher, &[0; 50]), None);
            assert_eq!(r.receive(&Cipher::new(&[7; 32]), d), None);
            out = r.receive(&cipher, d);
        }
        assert_eq!(out, Some(nal));
    }
}

#[test]
fn datagrams_without_a_packet_are_dropped() {
    let cipher = Cipher::new(&[6; 32]);
    let mut r = Reassembler::new();
    assert_eq!(r.receive(&cipher, &cipher.seal(&[1, 2, 3]).unwrap()), None);
    assert_eq!(r.receive(&cipher, &[]), None);
}

#[test]
fn a_stream_comes_out_frame_by_frame() {
    let mut sender = FrameSender::new();
    let mut r = Reassembler::new();
    let mut seen = Vec::new();
    let nals: Vec<Vec<u8>> = (1..200).map(|i| frame(i * 31)).collect();
    for nal in &nals {
        for d in packets(&mut sender, nal) {
            seen.extend(feed(&mut r, &d));
        }
    }
    assert_eq!(seen, nals);
}

#[test]
fn fifty_nine_lost_frames_are_not_missed_and_sixty_are() {
    for (lost, out) in [(59, Some(vec![7])), (60, None)] {
        let mut r = Reassembler::new();
        assert_eq!(r.push(packet(3, 0, 1, &[1])), Some(vec![1]));
        assert_eq!(r.push(packet(3 + lost + 1, 0, 1, &[7])), out);
    }
}
