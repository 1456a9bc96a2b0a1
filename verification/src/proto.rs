//! What goes over the wire: control messages and video datagrams.

use vstd::prelude::*;

verus! {

/// TCP control port: bidirectional messages.
pub const CONTROL_PORT: u16 = 7272;

/// UDP video port: the host streams to the viewer on this port, unless the viewer
/// announces another.
pub const VIDEO_PORT: u16 = 7274;

/// Most H.264 payload bytes in one datagram (stays under a 1400-byte MTU).
pub const VIDEO_CHUNK_MAX: usize = 1300;

/// Datagram header: frame_id(4) + chunk_idx(2) + total_chunks(2) + pts_ms(4) +
/// data_len(2).
pub const VIDEO_HDR_LEN: usize = 14;

/// Messages sent over the TCP control channel.
///
/// A fractional number is held as the bits of its IEEE 754 single-precision form.
#[derive(Debug, Clone, PartialEq)]
pub enum ControlMsg {
    /// Viewer to host: initiate a session and say where to stream the video.
    Hello { udp_port: u16 },
    /// Host to viewer: screen dimensions and stream settings.
    Welcome { width: u32, height: u32, fps: u32 },
    /// Cursor position relative to the remote screen, from 0 to 1 each way.
    MouseMove { nx: u32, ny: u32 },
    /// 0 is the left button, 1 the right, 2 the middle.
    MouseButton { btn: u8, pressed: bool },
    MouseScroll { dx: u32, dy: u32 },
    /// A key that writes no text, by its wire code.
    KeyPress { keycode: u32, pressed: bool },
    /// Unicode code point of a printable character.
    KeyChar { ch: u32 },
    Ping,
    Pong,
    /// Text that was copied to the sender's clipboard.
    Clipboard { text: String },
    /// A file begins: its name and its size in bytes.
    FileStart { id: u32, name: String, size: u64 },
    /// The next bytes of a file.
    FileChunk { id: u32, data: Vec<u8> },
    /// A file is complete.
    FileEnd { id: u32 },
}

/// What a control message says: texts as characters, data as bytes.
pub ghost enum Message {
    Hello { udp_port: u16 },
    Welcome { width: u32, height: u32, fps: u32 },
    MouseMove { nx: u32, ny: u32 },
    MouseButton { btn: u8, pressed: bool },
    MouseScroll { dx: u32, dy: u32 },
    KeyPress { keycode: u32, pressed: bool },
    KeyChar { ch: u32 },
    Ping,
    Pong,
    Clipboard { text: Seq<char> },
    FileStart { id: u32, name: Seq<char>, size: u64 },
    FileChunk { id: u32, data: Seq<u8> },
    FileEnd { id: u32 },
}

impl View for ControlMsg {
    type V = Message;

    open spec fn view(&self) -> Message {
        match *self {
            ControlMsg::Hello { udp_port } => Message::Hello { udp_port },
            ControlMsg::Welcome { width, height, fps } => Message::Welcome { width, height, fps },
            ControlMsg::MouseMove { nx, ny } => Message::MouseMove { nx, ny },
            ControlMsg::MouseButton { btn, pressed } => Message::MouseButton { btn, pressed },
            ControlMsg::MouseScroll { dx, dy } => Message::MouseScroll { dx, dy },
            ControlMsg::KeyPress { keycode, pressed } => Message::KeyPress { keycode, pressed },
            ControlMsg::KeyChar { ch } => Message::KeyChar { ch },
            ControlMsg::Ping => Message::Ping,
            ControlMsg::Pong => Message::Pong,
            ControlMsg::Clipboard { text } => Message::Clipboard { text: text@ },
            ControlMsg::FileStart { id, name, size } => Message::FileStart { id, name: name@, size },
            ControlMsg::FileChunk { id, data } => Message::FileChunk { id, data: data@ },
            ControlMsg::FileEnd { id } => Message::FileEnd { id },
        }
    }
}

/// What a video datagram carries.
pub ghost struct Packet {
    pub frame_id: u32,
    pub chunk_idx: u16,
    pub total_chunks: u16,
    pub pts_ms: u32,
    pub data: Seq<u8>,
}

/// The two bytes of `x`, the most significant first.
pub open spec fn be16(x: u16) -> Seq<u8> {
    seq![(x / 0x100) as u8, (x % 0x100) as u8]
}

/// The four bytes of `x`, the most significant first.
pub open spec fn be32(x: u32) -> Seq<u8> {
    seq![
        (x / 0x100_0000) as u8,
        (x / 0x1_0000 % 0x100) as u8,
        (x / 0x100 % 0x100) as u8,
        (x % 0x100) as u8,
    ]
}

/// The number whose two bytes, the most significant first, stand in `b` at `at`.
pub open spec fn be16_at(b: Seq<u8>, at: int) -> u16 {
    (b[at] * 0x100 + b[at + 1]) as u16
}

/// The number whose four bytes, the most significant first, stand in `b` at `at`.
pub open spec fn be32_at(b: Seq<u8>, at: int) -> u32 {
    (b[at] * 0x100_0000 + b[at + 1] * 0x1_0000 + b[at + 2] * 0x100 + b[at + 3]) as u32
}

/// The header of a datagram. Its length field holds the low 16 bits of the
/// length of the data.
pub open spec fn packet_header(p: Packet) -> Seq<u8> {
    be32(p.frame_id) + be16(p.chunk_idx) + be16(p.total_chunks) + be32(p.pts_ms) + be16(
        (p.data.len() % 0x1_0000) as u16,
    )
}

/// A datagram: its header, then its data.
pub open spec fn packet_bytes(p: Packet) -> Seq<u8> {
    packet_header(p) + p.data
}

/// What a buffer holds as a datagram: nothing if it is shorter than a header, or
/// than its header says. Bytes behind the data do not matter.
pub open spec fn parse_packet(b: Seq<u8>) -> Option<Packet> {
    if b.len() < VIDEO_HDR_LEN || b.len() < VIDEO_HDR_LEN + be16_at(b, 12) {
        None
    } else {
        Some(
            Packet {
                frame_id: be32_at(b, 0),
                chunk_idx: be16_at(b, 4),
                total_chunks: be16_at(b, 6),
                pts_ms: be32_at(b, 8),
                data: b.subrange(VIDEO_HDR_LEN as int, VIDEO_HDR_LEN + be16_at(b, 12)),
            },
        )
    }
}

/// Appends the two bytes of `x` to `buf`, the most significant first.
pub fn push_be16(buf: &mut Vec<u8>, x: u16)
    ensures
        final(buf)@ == old(buf)@ + be16(x),
{
    buf.push((x / 0x100) as u8);
    buf.push((x % 0x100) as u8);
    assert(buf@ =~= old(buf)@ + be16(x));
}

/// Appends the four bytes of `x` to `buf`, the most significant first.
pub fn push_be32(buf: &mut Vec<u8>, x: u32)
    ensures
        final(buf)@ == old(buf)@ + be32(x),
{
    buf.push((x / 0x100_0000) as u8);
    buf.push((x / 0x1_0000 % 0x100) as u8);
    buf.push((x / 0x100 % 0x100) as u8);
    buf.push((x % 0x100) as u8);
    assert(buf@ =~= old(buf)@ + be32(x));
}

/// Reads the two bytes at `at` as a number, the most significant first.
pub fn read_be16(b: &[u8], at: usize) -> (x: u16)
    requires
        at + 2 <= b@.len(),
    ensures
        x == be16_at(b@, at as int),
{
    b[at] as u16 * 0x100 + b[at + 1] as u16
}

/// Reads the four bytes at `at` as a number, the most significant first.
pub fn read_be32(b: &[u8], at: usize) -> (x: u32)
    requires
        at + 4 <= b@.len(),
    ensures
        x == be32_at(b@, at as int),
{
    b[at] as u32 * 0x100_0000 + b[at + 1] as u32 * 0x1_0000 + b[at + 2] as u32 * 0x100 + b[at
        + 3] as u32
}

/// Appends all of `bytes` to `buf`.
pub fn push_bytes(buf: &mut Vec<u8>, bytes: &[u8])
    ensures
        final(buf)@ == old(buf)@ + bytes@,
{
    buf.extend_from_slice(bytes);
    assert(buf@ =~= old(buf)@ + bytes@);
}

/// The bytes of `b` from `from` on, up to `to`.
pub fn copy_range(b: &[u8], from: usize, to: usize) -> (v: Vec<u8>)
    requires
        from <= to <= b@.len(),
    ensures
        v@ == b@.subrange(from as int, to as int),
{
    let mut v: Vec<u8> = Vec::new();
    push_bytes(&mut v, vstd::slice::slice_subrange(b, from, to));
    v
}

/// All parts, one behind the other.
pub open spec fn joined(parts: Seq<Seq<u8>>) -> Seq<u8>
    decreases parts.len(),
{
    if parts.len() == 0 {
        Seq::empty()
    } else {
        joined(parts.drop_last()) + parts.last()
    }
}

/// One UDP datagram carrying a slice of an encoded video frame.
pub struct VideoPacket<'a> {
    pub frame_id: u32,
    pub chunk_idx: u16,
    pub total_chunks: u16,
    pub pts_ms: u32,
    pub data: &'a [u8],
}

impl<'a> View for VideoPacket<'a> {
    type V = Packet;

    open spec fn view(&self) -> Packet {
        Packet {
            frame_id: self.frame_id,
            chunk_idx: self.chunk_idx,
            total_chunks: self.total_chunks,
            pts_ms: self.pts_ms,
            data: self.data@,
        }
    }
}

impl<'a> VideoPacket<'a> {
    /// Appends the datagram to `buf`.
    pub fn write_to(&self, buf: &mut Vec<u8>)
        ensures
            final(buf)@ == old(buf)@ + packet_bytes(self@),
    {
        push_be32(buf, self.frame_id);
        push_be16(buf, self.chunk_idx);
        push_be16(buf, self.total_chunks);
        push_be32(buf, self.pts_ms);
        push_be16(buf, (self.data.len() % 0x1_0000) as u16);
        push_bytes(buf, self.data);
        assert(buf@ =~= old(buf)@ + packet_bytes(self@));
    }
}

/// An owned, parsed UDP datagram.
#[derive(Debug, PartialEq)]
pub struct InboundVideo {
    pub frame_id: u32,
    pub chunk_idx: u16,
    pub total_chunks: u16,
    pub pts_ms: u32,
    pub data: Vec<u8>,
}

impl View for InboundVideo {
    type V = Packet;

    open spec fn view(&self) -> Packet {
        Packet {
            frame_id: self.frame_id,
            chunk_idx: self.chunk_idx,
            total_chunks: self.total_chunks,
            pts_ms: self.pts_ms,
            data: self.data@,
        }
    }
}

impl InboundVideo {
    /// Reads a datagram. `None` if the buffer is too short for it.
    pub fn parse(buf: &[u8]) -> (r: Option<Self>)
        ensures
            r is Some <==> parse_packet(buf@) is Some,
            r matches Some(p) ==> Some(p@) == parse_packet(buf@),
    {
        if buf.len() < VIDEO_HDR_LEN {
            return None;
        }
        let frame_id: u32 = read_be32(buf, 0);
        let chunk_idx: u16 = read_be16(buf, 4);
        let total_chunks: u16 = read_be16(buf, 6);
        let pts_ms: u32 = read_be32(buf, 8);
        let data_len: usize = read_be16(buf, 12) as usize;
        if buf.len() < VIDEO_HDR_LEN + data_len {
            return None;
        }
        let data = copy_range(buf, VIDEO_HDR_LEN, VIDEO_HDR_LEN + data_len);
        Some(InboundVideo { frame_id, chunk_idx, total_chunks, pts_ms, data })
    }
}

proof fn lemma_be16(b: Seq<u8>, at: int, x: u16)
    requires
        0 <= at,
        at + 2 <= b.len(),
        b.subrange(at, at + 2) == be16(x),
    ensures
        be16_at(b, at) == x,
{
    assert(b[at] == be16(x)[0]) by {
        assert(b.subrange(at, at + 2)[0] == b[at]);
    }
    assert(b[at + 1] == be16(x)[1]) by {
        assert(b.subrange(at, at + 2)[1] == b[at + 1]);
    }
}

proof fn lemma_be16_bytes(b: Seq<u8>, at: int)
    requires
        0 <= at,
        at + 2 <= b.len(),
    ensures
        be16(be16_at(b, at)) == b.subrange(at, at + 2),
{
    assert(be16(be16_at(b, at)) =~= seq![b[at], b[at + 1]]);
    assert(b.subrange(at, at + 2) =~= seq![b[at], b[at + 1]]);
}

proof fn lemma_be32_digits(b0: u8, b1: u8, b2: u8, b3: u8)
    ensures
        ({
            let x = (b0 * 0x100_0000 + b1 * 0x1_0000 + b2 * 0x100 + b3) as u32;
            &&& x / 0x100_0000 == b0
            &&& x / 0x1_0000 % 0x100 == b1
            &&& x / 0x100 % 0x100 == b2
            &&& x % 0x100 == b3
        }),
{
    let x = b0 * 0x100_0000 + b1 * 0x1_0000 + b2 * 0x100 + b3;
    assert(0 <= x <= 0xffff_ffff);
    assert(x / 0x100 == b0 * 0x1_0000 + b1 * 0x100 + b2);
    assert(x / 0x1_0000 == b0 * 0x100 + b1);
    assert(x / 0x100_0000 == b0);
}

/// A number is made of its bytes.
pub proof fn lemma_number_of_bytes(x: u32, y: u16)
    ensures
        0x100_0000 * (x / 0x100_0000) + 0x1_0000 * (x / 0x1_0000 % 0x100) + 0x100 * (x / 0x100
            % 0x100) + x % 0x100 == x,
        0x100 * (y / 0x100) + y % 0x100 == y,
{
    assert(x / 0x100 / 0x100 == x / 0x1_0000);
    assert(x / 0x1_0000 / 0x100 == x / 0x100_0000);
}

proof fn lemma_be32_bytes(b: Seq<u8>, at: int)
    requires
        0 <= at,
        at + 4 <= b.len(),
    ensures
        be32(be32_at(b, at)) == b.subrange(at, at + 4),
{
    lemma_be32_digits(b[at], b[at + 1], b[at + 2], b[at + 3]);
    assert(be32(be32_at(b, at)) =~= b.subrange(at, at + 4));
}

/// Reading four bytes gives back the number that was written.
pub proof fn lemma_be32(b: Seq<u8>, at: int, x: u32)
    requires
        0 <= at,
        at + 4 <= b.len(),
        b.subrange(at, at + 4) == be32(x),
    ensures
        be32_at(b, at) == x,
{
    assert(b[at] == be32(x)[0]) by {
        assert(b.subrange(at, at + 4)[0] == b[at]);
    }
    assert(b[at + 1] == be32(x)[1]) by {
        assert(b.subrange(at, at + 4)[1] == b[at + 1]);
    }
    assert(b[at + 2] == be32(x)[2]) by {
        assert(b.subrange(at, at + 4)[2] == b[at + 2]);
    }
    assert(b[at + 3] == be32(x)[3]) by {
        assert(b.subrange(at, at + 4)[3] == b[at + 3]);
    }
}

/// A datagram reads back as what was written, whatever follows it, as long as
/// its data is short enough for the length field.
pub proof fn law_parse_written(p: Packet, rest: Seq<u8>)
    requires
        p.data.len() < 0x1_0000,
    ensures
        parse_packet(packet_bytes(p) + rest) == Some(p),
{
    let b = packet_bytes(p) + rest;
    let n = p.data.len() as u16;
    assert(b.subrange(0, 4) =~= be32(p.frame_id));
    assert(b.subrange(4, 6) =~= be16(p.chunk_idx));
    assert(b.subrange(6, 8) =~= be16(p.total_chunks));
    assert(b.subrange(8, 12) =~= be32(p.pts_ms));
    assert(b.subrange(12, 14) =~= be16(n));
    lemma_be32(b, 0, p.frame_id);
    lemma_be16(b, 4, p.chunk_idx);
    lemma_be16(b, 6, p.total_chunks);
    lemma_be32(b, 8, p.pts_ms);
    lemma_be16(b, 12, n);
    assert(b.subrange(14, 14 + n as int) =~= p.data);
}

/// What was read is what the buffer starts with: written again, it gives the
/// bytes that were read.
pub proof fn law_write_parsed(b: Seq<u8>)
    ensures
        parse_packet(b) matches Some(p) ==> {
            &&& packet_bytes(p).len() <= b.len()
            &&& b.subrange(0, packet_bytes(p).len() as int) == packet_bytes(p)
        },
{
    if let Some(p) = parse_packet(b) {
        let n = be16_at(b, 12);
        lemma_be32_bytes(b, 0);
        lemma_be16_bytes(b, 4);
        lemma_be16_bytes(b, 6);
        lemma_be32_bytes(b, 8);
        lemma_be16_bytes(b, 12);
        assert(p.data.len() == n);
        assert(packet_header(p) =~= b.subrange(0, 4) + b.subrange(4, 6) + b.subrange(6, 8)
            + b.subrange(8, 12) + b.subrange(12, 14));
        assert(packet_header(p) =~= b.subrange(0, 14));
        assert(b.subrange(0, 14 + n) =~= b.subrange(0, 14) + b.subrange(14, 14 + n));
    }
}

/// A datagram on the wire: the number of its frame, the index of its chunk, the count of
/// chunks, the time stamp and the length of the data, each with its most significant
/// byte first, then the data. What was in the buffer before stays in front.
pub proof fn law_datagram_layout(p: VideoPacket<'_>, buf: &mut Vec<u8>)
    requires
        call_ensures(VideoPacket::write_to, (&p, buf), ()),
    ensures
        ({
            let at = old(buf)@.len() as int;
            let b = final(buf)@;
            let len = p.data@.len() % 0x1_0000;
            &&& b.len() == at + 14 + p.data@.len()
            &&& b.take(at) == old(buf)@
            &&& b[at + 0] == p.frame_id / 0x100_0000
            &&& b[at + 1] == p.frame_id / 0x1_0000 % 0x100
            &&& b[at + 2] == p.frame_id / 0x100 % 0x100
            &&& b[at + 3] == p.frame_id % 0x100
            &&& b[at + 4] == p.chunk_idx / 0x100
            &&& b[at + 5] == p.chunk_idx % 0x100
            &&& b[at + 6] == p.total_chunks / 0x100
            &&& b[at + 7] == p.total_chunks % 0x100
            &&& b[at + 8] == p.pts_ms / 0x100_0000
            &&& b[at + 9] == p.pts_ms / 0x1_0000 % 0x100
            &&& b[at + 10] == p.pts_ms / 0x100 % 0x100
            &&& b[at + 11] == p.pts_ms % 0x100
            &&& b[at + 12] == len / 0x100
            &&& b[at + 13] == len % 0x100
            &&& b.skip(at + 14) == p.data@
        }),
{
    let at = old(buf)@.len() as int;
    let b = final(buf)@;
    lemma_packet_layout(p@);
    assert(b.take(at) =~= old(buf)@);
    assert(b.skip(at) =~= packet_bytes(p@));
    assert forall|i: int| 0 <= i < 14 implies #[trigger] b[at + i] == packet_bytes(p@)[i] by {
        assert(b.skip(at)[i] == b[at + i]);
    }
    assert(b[at + 0] == packet_bytes(p@)[0]);
    assert(b.skip(at + 14) =~= p.data@);
}

/// Where the parts of a datagram stand.
pub proof fn lemma_packet_layout(p: Packet)
    ensures
        ({
            let b = packet_bytes(p);
            let len = p.data.len() % 0x1_0000;
            &&& b.len() == 14 + p.data.len()
            &&& b[0] == p.frame_id / 0x100_0000
            &&& b[1] == p.frame_id / 0x1_0000 % 0x100
            &&& b[2] == p.frame_id / 0x100 % 0x100
            &&& b[3] == p.frame_id % 0x100
            &&& b[4] == p.chunk_idx / 0x100
            &&& b[5] == p.chunk_idx % 0x100
            &&& b[6] == p.total_chunks / 0x100
            &&& b[7] == p.total_chunks % 0x100
            &&& b[8] == p.pts_ms / 0x100_0000
            &&& b[9] == p.pts_ms / 0x1_0000 % 0x100
            &&& b[10] == p.pts_ms / 0x100 % 0x100
            &&& b[11] == p.pts_ms % 0x100
            &&& b[12] == len / 0x100
            &&& b[13] == len % 0x100
            &&& b.skip(14) == p.data
        }),
{
    assert(packet_bytes(p).skip(14) =~= p.data);
}

/// A buffer is read as a datagram exactly if it has a header and as much data as the last
/// two bytes of the header say. Every field is read from its own bytes, the most
/// significant first.
pub proof fn law_datagram_read(buf: &[u8], r: Option<InboundVideo>)
    requires
        call_ensures(InboundVideo::parse, (buf,), r),
    ensures
        r is Some <==> buf@.len() >= 14 && buf@.len() >= 14 + 0x100 * buf@[12] + buf@[13],
        r matches Some(p) ==> {
            let b = buf@;
            &&& p.frame_id == 0x100_0000 * b[0] + 0x1_0000 * b[1] + 0x100 * b[2] + b[3]
            &&& p.chunk_idx == 0x100 * b[4] + b[5]
            &&& p.total_chunks == 0x100 * b[6] + b[7]
            &&& p.pts_ms == 0x100_0000 * b[8] + 0x1_0000 * b[9] + 0x100 * b[10] + b[11]
            &&& p.data@ == b.subrange(14, 14 + 0x100 * b[12] + b[13])
        },
{
    if let Some(p) = r {
        assert(p@ == parse_packet(buf@)->0);
    }
}

/// What is written as a datagram is read as it was, field by field, from a buffer that
/// held nothing before and has anything behind it.
pub proof fn law_datagram_read_back(
    p: VideoPacket<'_>,
    buf: &mut Vec<u8>,
    come: &[u8],
    r: Option<InboundVideo>,
)
    requires
        p.data@.len() < 0x1_0000,
        old(buf)@.len() == 0,
        call_ensures(VideoPacket::write_to, (&p, buf), ()),
        come@.len() >= final(buf)@.len(),
        come@.take(final(buf)@.len() as int) == final(buf)@,
        call_ensures(InboundVideo::parse, (come,), r),
    ensures
        r matches Some(q) && {
            &&& q.frame_id == p.frame_id
            &&& q.chunk_idx == p.chunk_idx
            &&& q.total_chunks == p.total_chunks
            &&& q.pts_ms == p.pts_ms
            &&& q.data@ == p.data@
        },
{
    let n = final(buf)@.len() as int;
    assert(final(buf)@ =~= packet_bytes(p@));
    assert(come@ =~= packet_bytes(p@) + come@.skip(n));
    law_parse_written(p@, come@.skip(n));
    if let Some(q) = r {
        assert(q@ == p@);
    }
}

/// Numbers are written with their most significant byte first, behind what is there, and
/// read from where they stand.
pub proof fn law_big_endian(
    buf: &mut Vec<u8>,
    short: u16,
    wide: &mut Vec<u8>,
    long: u32,
    b: &[u8],
    at: usize,
    x: u16,
    y: u32,
)
    requires
        call_ensures(push_be16, (buf, short), ()),
        call_ensures(push_be32, (wide, long), ()),
        at + 4 <= b@.len(),
        call_ensures(read_be16, (b, at), x),
        call_ensures(read_be32, (b, at), y),
    ensures
        final(buf)@ == old(buf)@.push((short / 0x100) as u8).push((short % 0x100) as u8),
        final(wide)@ == old(wide)@.push((long / 0x100_0000) as u8).push(
            (long / 0x1_0000 % 0x100) as u8,
        ).push((long / 0x100 % 0x100) as u8).push((long % 0x100) as u8),
        x == 0x100 * b@[at as int] + b@[at + 1],
        y == 0x100_0000 * b@[at as int] + 0x1_0000 * b@[at + 1] + 0x100 * b@[at + 2] + b@[at + 3],
{
    assert(final(buf)@ =~= old(buf)@.push((short / 0x100) as u8).push((short % 0x100) as u8));
    assert(final(wide)@ =~= old(wide)@.push((long / 0x100_0000) as u8).push(
        (long / 0x1_0000 % 0x100) as u8,
    ).push((long / 0x100 % 0x100) as u8).push((long % 0x100) as u8));
}

/// Bytes are appended as they are, and copied from and up to where it is said.
pub proof fn law_bytes_moved(
    buf: &mut Vec<u8>,
    bytes: &[u8],
    b: &[u8],
    from: usize,
    to: usize,
    v: Vec<u8>,
)
    requires
        call_ensures(push_bytes, (buf, bytes), ()),
        from <= to <= b@.len(),
        call_ensures(copy_range, (b, from, to), v),
    ensures
        final(buf)@.len() == old(buf)@.len() + bytes@.len(),
        final(buf)@.take(old(buf)@.len() as int) == old(buf)@,
        final(buf)@.skip(old(buf)@.len() as int) == bytes@,
        v@.len() == to - from,
        forall|i: int| 0 <= i < to - from ==> #[trigger] v@[i] == b@[from + i],
{
    assert(final(buf)@.take(old(buf)@.len() as int) =~= old(buf)@);
    assert(final(buf)@.skip(old(buf)@.len() as int) =~= bytes@);
}

/// Parts are joined as they are and in order: nothing comes of none, one part comes out
/// as it is, and those of two lists stand one behind the other.
pub proof fn law_joined(part: Seq<u8>, a: Seq<Seq<u8>>, b: Seq<Seq<u8>>)
    ensures
        joined(Seq::<Seq<u8>>::empty()) == Seq::<u8>::empty(),
        joined(seq![part]) == part,
        joined(a + b) == joined(a) + joined(b),
    decreases b.len(),
{
    reveal_with_fuel(joined, 2);
    assert(seq![part].drop_last() =~= Seq::<Seq<u8>>::empty());
    assert(joined(seq![part]) =~= part);
    if b.len() == 0 {
        assert(a + b =~= a);
    } else {
        law_joined(part, a, b.drop_last());
        assert((a + b).drop_last() =~= a + b.drop_last());
        assert((a + b).last() == b.last());
    }
    assert(joined(a + b) =~= joined(a) + joined(b));
}

/// What a control message says is what it holds, part by part; so two messages that say
/// the same are alike.
pub proof fn law_message_says(msg: ControlMsg)
    ensures
        match msg {
            ControlMsg::Hello { udp_port } => msg@ == (Message::Hello { udp_port }),
            ControlMsg::Welcome { width, height, fps } => msg@ == (Message::Welcome {
                width,
                height,
                fps,
            }),
            ControlMsg::MouseMove { nx, ny } => msg@ == (Message::MouseMove { nx, ny }),
            ControlMsg::MouseButton { btn, pressed } => msg@ == (Message::MouseButton {
                btn,
                pressed,
            }),
            ControlMsg::MouseScroll { dx, dy } => msg@ == (Message::MouseScroll { dx, dy }),
            ControlMsg::KeyPress { keycode, pressed } => msg@ == (Message::KeyPress {
                keycode,
                pressed,
            }),
            ControlMsg::KeyChar { ch } => msg@ == (Message::KeyChar { ch }),
            ControlMsg::Ping => msg@ == Message::Ping,
            ControlMsg::Pong => msg@ == Message::Pong,
            ControlMsg::Clipboard { text } => msg@ == (Message::Clipboard { text: text@ }),
            ControlMsg::FileStart { id, name, size } => msg@ == (Message::FileStart {
                id,
                name: name@,
                size,
            }),
            ControlMsg::FileChunk { id, data } => msg@ == (Message::FileChunk { id, data: data@ }),
            ControlMsg::FileEnd { id } => msg@ == (Message::FileEnd { id }),
        },
{
}

/// The ports and sizes that both sides count on.
pub proof fn law_agreed_numbers()
    ensures
        CONTROL_PORT == 7272,
        VIDEO_PORT == 7274,
        VIDEO_CHUNK_MAX == 1300,
        VIDEO_HDR_LEN == 4 + 2 + 2 + 4 + 2,
{
}

} // verus!
