//! Length-prefixed, sealed framing of control messages.

use vstd::prelude::*;

use crate::crypto::{
    law_nonce_from_system, nonce_drawn, opened, random_bytes, sealed, system_gave, xchacha_encrypt,
    Cipher, RandomUnavailable, NONCE_LEN, PLAINTEXT_MAX, TAG_LEN,
};
use crate::proto::{be32, be32_at, lemma_be32, push_be32, push_bytes, read_be32};
use crate::text::{decimal, numbered};

verus! {

/// Most bytes of the body of a frame.
pub const CONTROL_MAX: u32 = 1_000_000;

/// Bytes of the length in front of the body.
pub const LENGTH_LEN: usize = 4;

/// A frame: the length of its body in four bytes, which hold the low 32 bits of
/// it, then the body.
pub open spec fn frame_bytes(body: Seq<u8>) -> Seq<u8> {
    be32((body.len() % 0x1_0000_0000) as u32) + body
}

/// Reads one frame off a stream: its body and what follows it. `None` if the stream
/// ends within the frame, or if the frame is too large.
pub open spec fn read_frame(stream: Seq<u8>) -> Option<(Seq<u8>, Seq<u8>)> {
    if stream.len() < LENGTH_LEN || be32_at(stream, 0) > CONTROL_MAX || stream.len() < LENGTH_LEN
        + be32_at(stream, 0) {
        None
    } else {
        let end = LENGTH_LEN + be32_at(stream, 0);
        Some((stream.subrange(LENGTH_LEN as int, end), stream.skip(end)))
    }
}

/// Reads all frames off a stream, up to where it ends or breaks.
pub open spec fn read_frames(stream: Seq<u8>) -> Seq<Seq<u8>>
    decreases stream.len(),
{
    match read_frame(stream) {
        Some((body, rest)) => seq![body] + read_frames(rest),
        None => Seq::empty(),
    }
}

/// Frames, one behind the other.
pub open spec fn stream_of_frames(bodies: Seq<Seq<u8>>) -> Seq<u8>
    decreases bodies.len(),
{
    if bodies.len() == 0 {
        Seq::empty()
    } else {
        frame_bytes(bodies[0]) + stream_of_frames(bodies.drop_first())
    }
}

/// Why a message cannot be received.
#[derive(Debug, Clone, Copy, PartialEq, Eq, Structural)]
pub enum TransportError {
    /// The frame says that it is larger than any frame may be.
    TooLarge { len: u32 },
    /// The body does not open under the key of the connection.
    NotAuthentic,
}

impl TransportError {
    /// The error in words.
    pub fn message(&self) -> (text: String)
        ensures
            text@ == match *self {
                TransportError::TooLarge { len } => "control message too large: "@ + decimal(
                    len as nat,
                ) + " bytes"@,
                TransportError::NotAuthentic => "control message failed to decrypt"@,
            },
    {
        match *self {
            TransportError::TooLarge { len } => numbered(
                "control message too large: ",
                len as u64,
                " bytes",
            ),
            TransportError::NotAuthentic => "control message failed to decrypt".to_owned(),
        }
    }
}

/// A frame with that body.
pub fn encode_frame(body: &[u8]) -> (out: Vec<u8>)
    ensures
        out@ == frame_bytes(body@),
{
    let mut out: Vec<u8> = Vec::new();
    push_be32(&mut out, (body.len() as u64 % 0x1_0000_0000) as u32);
    push_bytes(&mut out, body);
    assert(out@ =~= frame_bytes(body@));
    out
}

/// How many bytes the body of a frame has, by the length in front of it.
pub fn frame_len(header: &[u8; 4]) -> (r: Result<usize, TransportError>)
    ensures
        match r {
            Ok(len) => len == be32_at(header@, 0) && len <= CONTROL_MAX,
            Err(e) => be32_at(header@, 0) > CONTROL_MAX && e == (TransportError::TooLarge {
                len: be32_at(header@, 0),
            }),
        },
{
    let len: u32 = read_be32(header.as_slice(), 0);
    if len > CONTROL_MAX {
        Err(TransportError::TooLarge { len })
    } else {
        Ok(len as usize)
    }
}

/// The result is a frame whose body is the message sealed under the nonce that was
/// drawn, or a failure if none was.
pub open spec fn is_sent(
    key: Seq<u8>,
    drawn: Result<[u8; 24], RandomUnavailable>,
    msg: Seq<u8>,
    r: Result<Vec<u8>, RandomUnavailable>,
) -> bool {
    match drawn {
        Ok(nonce) => r matches Ok(out) && out@ == frame_bytes(sealed(key, nonce@, msg)),
        Err(_) => r is Err,
    }
}

/// One end of a control connection: every message is sealed and framed.
pub struct ControlChannel {
    cipher: Cipher,
}

impl View for ControlChannel {
    type V = Seq<u8>;

    /// The key of the connection.
    closed spec fn view(&self) -> Seq<u8> {
        self.cipher@
    }
}

impl ControlChannel {
    pub fn new(cipher: Cipher) -> (r: Self)
        ensures
            r@ == cipher@,
    {
        ControlChannel { cipher }
    }

    /// The bytes to write for a message that is sealed under the nonce that was
    /// drawn: a frame whose body opens to it. Fails exactly if none was drawn.
    pub fn send_drawn(&self, nonce: Result<[u8; 24], RandomUnavailable>, data: &[u8]) -> (r: Result<
        Vec<u8>,
        RandomUnavailable,
    >)
        requires
            data@.len() <= PLAINTEXT_MAX,
        ensures
            match nonce {
                Ok(n) => {
                    &&& r matches Ok(out)
                    &&& out@ == frame_bytes(sealed(self@, n@, data@))
                    &&& out@.len() == LENGTH_LEN + NONCE_LEN + data@.len() + TAG_LEN
                    &&& out@.skip(LENGTH_LEN as int) == sealed(self@, n@, data@)
                    &&& out@.subrange(LENGTH_LEN as int, LENGTH_LEN + NONCE_LEN) == n@
                    &&& carries(self@, out@.skip(LENGTH_LEN as int), data@)
                },
                Err(_) => r is Err,
            },
    {
        match self.cipher.seal_drawn(nonce, data) {
            Ok(body) => {
                let out = encode_frame(body.as_slice());
                assert(out@.skip(LENGTH_LEN as int) =~= body@);
                assert(out@.subrange(LENGTH_LEN as int, LENGTH_LEN + NONCE_LEN) =~= body@.subrange(
                    0,
                    NONCE_LEN as int,
                ));
                Ok(out)
            },
            Err(e) => Err(e),
        }
    }

    /// The bytes to write for a message: a frame whose body opens to it. The nonce is one
    /// that `random_bytes` gave; fails exactly if it gave none.
    pub fn send(&self, data: &[u8]) -> (r: Result<Vec<u8>, RandomUnavailable>)
        requires
            data@.len() <= PLAINTEXT_MAX,
        ensures
            r matches Ok(out) ==> {
                &&& out@.len() == LENGTH_LEN + NONCE_LEN + data@.len() + TAG_LEN
                &&& out@ == frame_bytes(out@.skip(LENGTH_LEN as int))
                &&& carries(self@, out@.skip(LENGTH_LEN as int), data@)
                &&& out@ == frame_bytes(
                    sealed(
                        self@,
                        out@.subrange(LENGTH_LEN as int, LENGTH_LEN + NONCE_LEN),
                        data@,
                    ),
                )
            },
            exists|drawn: Result<[u8; 24], RandomUnavailable>| #[trigger]
                nonce_drawn(drawn) && is_sent(self@, drawn, data@, r),
    {
        let drawn = random_bytes::<24>();
        assert(nonce_drawn(drawn));
        self.send_drawn(drawn, data)
    }

    /// The message in the body of a frame.
    pub fn recv(&self, body: &[u8]) -> (r: Result<Vec<u8>, TransportError>)
        ensures
            match r {
                Ok(data) => opened(self@, body@) == Some(data@),
                Err(e) => opened(self@, body@) is None && e == TransportError::NotAuthentic,
            },
    {
        match self.cipher.open(body) {
            Some(data) => Ok(data),
            None => Err(TransportError::NotAuthentic),
        }
    }

    /// Another handle on the connection, for a reader beside a writer.
    pub fn try_clone(&self) -> (r: Self)
        ensures
            r@ == self@,
    {
        ControlChannel { cipher: self.cipher.clone() }
    }
}

/// A frame reads back as its body, and what follows it stays.
pub proof fn law_frame_read_back(body: Seq<u8>, rest: Seq<u8>)
    requires
        body.len() <= CONTROL_MAX,
    ensures
        read_frame(frame_bytes(body) + rest) == Some((body, rest)),
{
    let n = body.len() as u32;
    let stream = frame_bytes(body) + rest;
    assert(stream.subrange(0, 4) =~= be32(n));
    lemma_be32(stream, 0, n);
    assert(stream.subrange(4, 4 + n) =~= body);
    assert(stream.skip(4 + n) =~= rest);
}

/// What is written to a connection is what is read from it, message by message and
/// in order.
pub proof fn law_stream_read_back(bodies: Seq<Seq<u8>>)
    requires
        forall|i: int| 0 <= i < bodies.len() ==> (#[trigger] bodies[i]).len() <= CONTROL_MAX,
    ensures
        read_frames(stream_of_frames(bodies)) == bodies,
    decreases bodies.len(),
{
    if bodies.len() > 0 {
        let tail = bodies.drop_first();
        assert forall|i: int| 0 <= i < tail.len() implies (#[trigger] tail[i]).len()
            <= CONTROL_MAX by {
            assert(tail[i] == bodies[i + 1]);
        }
        law_stream_read_back(tail);
        assert(bodies[0].len() <= CONTROL_MAX);
        law_frame_read_back(bodies[0], stream_of_frames(tail));
        assert(bodies =~= seq![bodies[0]] + tail);
    }
}

/// How many of the frames with those bodies end within the first `cut` bytes.
pub open spec fn whole_frames(bodies: Seq<Seq<u8>>, cut: int) -> nat
    decreases bodies.len(),
{
    if bodies.len() == 0 || cut < LENGTH_LEN + bodies[0].len() {
        0
    } else {
        1 + whole_frames(bodies.drop_first(), cut - LENGTH_LEN - bodies[0].len())
    }
}

/// A stream that is cut, within a length, within a body or between frames, gives the
/// frames that end before the cut and nothing of the next one.
pub proof fn law_cut_stream(bodies: Seq<Seq<u8>>, cut: int)
    requires
        forall|i: int| 0 <= i < bodies.len() ==> (#[trigger] bodies[i]).len() <= CONTROL_MAX,
        0 <= cut <= stream_of_frames(bodies).len(),
    ensures
        whole_frames(bodies, cut) <= bodies.len(),
        read_frames(stream_of_frames(bodies).take(cut)) == bodies.take(
            whole_frames(bodies, cut) as int,
        ),
        cut == stream_of_frames(bodies).len() ==> whole_frames(bodies, cut) == bodies.len(),
    decreases bodies.len(),
{
    let stream = stream_of_frames(bodies).take(cut);
    if bodies.len() == 0 {
        assert(bodies.take(0) =~= Seq::<Seq<u8>>::empty());
    } else {
        let body = bodies[0];
        let tail = bodies.drop_first();
        let n = LENGTH_LEN + body.len();
        assert(body.len() <= CONTROL_MAX);
        if cut < n {
            if cut >= LENGTH_LEN {
                assert(stream.subrange(0, 4) =~= be32(body.len() as u32));
                lemma_be32(stream, 0, body.len() as u32);
            }
            assert(read_frame(stream) is None);
            assert(bodies.take(0) =~= Seq::<Seq<u8>>::empty());
        } else {
            assert forall|i: int| 0 <= i < tail.len() implies (#[trigger] tail[i]).len()
                <= CONTROL_MAX by {
                assert(tail[i] == bodies[i + 1]);
            }
            law_cut_stream(tail, cut - n);
            let rest = stream_of_frames(tail).take(cut - n);
            assert(stream =~= frame_bytes(body) + rest);
            law_frame_read_back(body, rest);
            let k = whole_frames(tail, cut - n) as int;
            assert(seq![body] + tail.take(k) =~= bodies.take(k + 1));
        }
    }
}

/// The body is one in which a message is sent under a key: as long as the message with
/// a nonce and a tag, and opening to it.
pub open spec fn carries(key: Seq<u8>, body: Seq<u8>, msg: Seq<u8>) -> bool {
    &&& body.len() == NONCE_LEN + msg.len() + TAG_LEN
    &&& opened(key, body) == Some(msg)
}

/// What each of the bodies opens to.
pub open spec fn open_all(key: Seq<u8>, bodies: Seq<Seq<u8>>) -> Seq<Option<Seq<u8>>> {
    Seq::new(bodies.len(), |i: int| opened(key, bodies[i]))
}

/// What one side sends, the other side with its key receives: messages that are sent one
/// behind the other are read back, each of them, whole and in order, and nothing behind
/// them. Where the connection ends early, those that came whole are read back, and
/// nothing of the next one. A message is left out whose sealed form is larger than a
/// frame may be.
pub proof fn law_messages_arrive(
    key: Seq<u8>,
    msgs: Seq<Seq<u8>>,
    bodies: Seq<Seq<u8>>,
    cut: int,
)
    requires
        bodies.len() == msgs.len(),
        forall|i: int|
            0 <= i < msgs.len() ==> NONCE_LEN + (#[trigger] msgs[i]).len() + TAG_LEN <= CONTROL_MAX,
        forall|i: int| 0 <= i < msgs.len() ==> carries(key, #[trigger] bodies[i], msgs[i]),
        0 <= cut <= stream_of_frames(bodies).len(),
    ensures
        open_all(key, read_frames(stream_of_frames(bodies))) == Seq::new(
            msgs.len(),
            |i: int| Some(msgs[i]),
        ),
        whole_frames(bodies, cut) <= msgs.len(),
        open_all(key, read_frames(stream_of_frames(bodies).take(cut))) == Seq::new(
            whole_frames(bodies, cut),
            |i: int| Some(msgs[i]),
        ),
{
    assert forall|i: int| 0 <= i < bodies.len() implies (#[trigger] bodies[i]).len()
        <= CONTROL_MAX by {
        assert(carries(key, bodies[i], msgs[i]));
        assert(NONCE_LEN + msgs[i].len() + TAG_LEN <= CONTROL_MAX);
    }
    law_stream_read_back(bodies);
    law_cut_stream(bodies, cut);
    assert forall|i: int| 0 <= i < bodies.len() implies opened(key, #[trigger] bodies[i]) == Some(
        msgs[i],
    ) by {
        assert(carries(key, bodies[i], msgs[i]));
    }
    assert(open_all(key, bodies) =~= Seq::new(msgs.len(), |i: int| Some(msgs[i])));
    let k = whole_frames(bodies, cut);
    assert(open_all(key, bodies.take(k as int)) =~= Seq::new(k, |i: int| Some(msgs[i])));
}

/// A frame that is too large is never read, whatever follows.
pub proof fn law_large_frame_refused(body: Seq<u8>, rest: Seq<u8>)
    requires
        CONTROL_MAX < body.len() < 0x1_0000_0000,
    ensures
        read_frame(frame_bytes(body) + rest) is None,
{
    let n = body.len() as u32;
    let stream = frame_bytes(body) + rest;
    assert(stream.subrange(0, 4) =~= be32(n));
    lemma_be32(stream, 0, n);
}

/// A frame on the wire: the low 32 bits of the length of the body in four bytes, the most
/// significant first, then the body as it is.
pub proof fn law_frame_layout(body: &[u8], out: Vec<u8>)
    requires
        call_ensures(encode_frame, (body,), out),
    ensures
        out@.len() == 4 + body@.len(),
        0x100_0000 * out@[0] + 0x1_0000 * out@[1] + 0x100 * out@[2] + out@[3] == body@.len()
            % 0x1_0000_0000,
        out@.skip(4) == body@,
{
    assert(out@.skip(4) =~= body@);
}

/// The length in front of a body is read as it was written, and one above a million is
/// refused, with the length in the error.
pub proof fn law_length_read(header: &[u8; 4], r: Result<usize, TransportError>)
    requires
        call_ensures(frame_len, (header,), r),
    ensures
        ({
            let n = 0x100_0000 * header@[0] + 0x1_0000 * header@[1] + 0x100 * header@[2]
                + header@[3];
            if n <= 1_000_000 {
                r matches Ok(len) && len == n
            } else {
                r matches Err(TransportError::TooLarge { len }) && len == n
            }
        }),
{
}

/// What is written as a frame is read back: its length from the first four bytes, and its
/// body from as many behind them.
pub proof fn law_frame_comes_back(
    body: &[u8],
    out: Vec<u8>,
    header: &[u8; 4],
    r: Result<usize, TransportError>,
)
    requires
        body@.len() <= 1_000_000,
        call_ensures(encode_frame, (body,), out),
        out@.len() >= 4 ==> header@ == out@.take(4),
        call_ensures(frame_len, (header,), r),
    ensures
        r matches Ok(len) && len == body@.len() && out@.len() == 4 + len && out@.subrange(
            4,
            4 + len,
        ) == body@,
{
    law_frame_layout(body, out);
    law_length_read(header, r);
    assert(header@[0] == out@[0] && header@[1] == out@[1] && header@[2] == out@[2] && header@[3]
        == out@[3]);
    assert(out@.subrange(4, 4 + body@.len() as int) =~= body@);
}

/// A frame is read off a stream exactly if the stream has all of it and its length is at
/// most a million: its body comes out as it is, and what follows it is left.
pub proof fn law_frame_off_stream(stream: Seq<u8>)
    ensures
        stream.len() < 4 ==> read_frame(stream) is None,
        stream.len() >= 4 ==> {
            let n = 0x100_0000 * stream[0] + 0x1_0000 * stream[1] + 0x100 * stream[2] + stream[3];
            if n > 1_000_000 || stream.len() < 4 + n {
                read_frame(stream) is None
            } else {
                read_frame(stream) == Some((stream.subrange(4, 4 + n), stream.skip(4 + n)))
            }
        },
{
}

/// A message that is sent is received as it was, at the other end of the connection or
/// through another handle: its frame has a length that is accepted, and its body gives the
/// message back. The nonce in front is one that the system gave, and nothing is sent
/// exactly if it gave none.
pub proof fn law_message_received(
    cipher: Cipher,
    sender: ControlChannel,
    far_cipher: Cipher,
    receiver: ControlChannel,
    handle: ControlChannel,
    data: &[u8],
    sent: Result<Vec<u8>, RandomUnavailable>,
    body: &[u8],
    r: Result<Vec<u8>, TransportError>,
    s: Result<Vec<u8>, TransportError>,
)
    requires
        far_cipher@ == cipher@,
        call_ensures(ControlChannel::new, (cipher,), sender),
        call_ensures(ControlChannel::new, (far_cipher,), receiver),
        call_ensures(ControlChannel::try_clone, (&receiver,), handle),
        24 + data@.len() + 16 <= 1_000_000,
        call_ensures(ControlChannel::send, (&sender, data), sent),
        sent matches Ok(out) ==> body@ == out@.skip(4),
        call_ensures(ControlChannel::recv, (&receiver, body), r),
        call_ensures(ControlChannel::recv, (&handle, body), s),
    ensures
        sent matches Ok(out) ==> {
            &&& out@.len() == 4 + 24 + data@.len() + 16
            &&& 0x100_0000 * out@[0] + 0x1_0000 * out@[1] + 0x100 * out@[2] + out@[3] == 24
                + data@.len() + 16
            &&& r matches Ok(d) && d@ == data@
            &&& s matches Ok(d) && d@ == data@
        },
        exists|drawn: Result<[u8; 24], getrandom::Error>| #[trigger]
            system_gave(drawn) && match drawn {
                Ok(nonce) => sent matches Ok(out) && out@.skip(4) == nonce@ + xchacha_encrypt(
                    cipher@,
                    nonce@,
                    data@,
                ),
                Err(_) => sent is Err,
            },
{
    if let Ok(out) = sent {
        assert(carries(cipher@, out@.skip(4), data@));
    }
    let nonce = choose|drawn: Result<[u8; 24], RandomUnavailable>| #[trigger]
        nonce_drawn(drawn) && is_sent(sender@, drawn, data@, sent);
    law_nonce_from_system(nonce);
    let drawn = choose|drawn: Result<[u8; 24], getrandom::Error>| #[trigger]
        system_gave(drawn) && match drawn {
            Ok(bytes) => nonce == Ok::<[u8; 24], RandomUnavailable>(bytes),
            Err(_) => nonce is Err,
        };
    assert(system_gave(drawn));
    if let Ok(n) = nonce {
        assert((sent->Ok_0)@.skip(4) =~= sealed(cipher@, n@, data@));
    }
}

/// A body that does not open is refused as not authentic; one that opens is received.
pub proof fn law_received_if_opened(
    channel: &ControlChannel,
    body: &[u8],
    r: Result<Vec<u8>, TransportError>,
)
    requires
        call_ensures(ControlChannel::recv, (channel, body), r),
    ensures
        match opened(channel@, body@) {
            Some(plain) => r matches Ok(data) && data@ == plain,
            None => r == Err::<Vec<u8>, _>(TransportError::NotAuthentic),
        },
{
}

/// A message that is sealed under a nonce that was drawn is framed behind it; nothing is
/// sent where none was drawn.
pub proof fn law_sent_as_drawn(
    channel: &ControlChannel,
    nonce: Result<[u8; 24], RandomUnavailable>,
    data: &[u8],
    r: Result<Vec<u8>, RandomUnavailable>,
)
    requires
        data@.len() <= PLAINTEXT_MAX,
        call_ensures(ControlChannel::send_drawn, (channel, nonce, data), r),
    ensures
        match nonce {
            Ok(n) => {
                &&& r matches Ok(out)
                &&& out@.skip(4) == n@ + xchacha_encrypt(channel@, n@, data@)
                &&& 0x100_0000 * out@[0] + 0x1_0000 * out@[1] + 0x100 * out@[2] + out@[3] == (24
                    + data@.len() + 16) % 0x1_0000_0000
                &&& opened(channel@, out@.skip(4)) == Some(data@)
            },
            Err(_) => r is Err,
        },
{
}

/// Each error says what is wrong, that of a large frame with its length.
pub proof fn law_transport_error_words(error: TransportError, text: String)
    requires
        call_ensures(TransportError::message, (&error,), text),
    ensures
        error matches TransportError::TooLarge { len } ==> text@ == "control message too large: "@
            + decimal(len as nat) + " bytes"@,
        error is NotAuthentic ==> text@ == "control message failed to decrypt"@,
{
}

} // verus!
