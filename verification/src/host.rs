//! The host's side: what it sends as video, and what it does with the messages of
//! a viewer.

use vstd::prelude::*;

use crate::crypto::{
    law_nonce_from_system, nonce_drawn, opened, random_bytes, sealed, system_gave, xchacha_encrypt,
    Cipher, RandomUnavailable, NONCE_LEN, PLAINTEXT_MAX, TAG_LEN,
};
use crate::proto::{
    joined, lemma_number_of_bytes, lemma_packet_layout, packet_bytes, ControlMsg, Message, Packet, VideoPacket,
    VIDEO_CHUNK_MAX, VIDEO_HDR_LEN, VIDEO_PORT,
};
use crate::sync::{route_sync, sync_route, SyncRoute};
use crate::text::{address, decimal, socket_address};

verus! {

/// Into how many chunks an encoded frame of that length is cut.
pub open spec fn chunk_count(len: nat) -> nat {
    (len + VIDEO_CHUNK_MAX - 1) as nat / VIDEO_CHUNK_MAX as nat
}

/// Where a chunk of an encoded frame of that length ends.
pub open spec fn chunk_end(len: nat, i: int) -> int {
    if (i + 1) * VIDEO_CHUNK_MAX < len {
        (i + 1) * VIDEO_CHUNK_MAX
    } else {
        len as int
    }
}

/// A chunk of an encoded frame: all of full size but the last.
pub open spec fn chunk(nal: Seq<u8>, i: int) -> Seq<u8> {
    nal.subrange(i * VIDEO_CHUNK_MAX, chunk_end(nal.len(), i))
}

/// What the datagram of a chunk says. Index and count are held in 16 bits.
pub open spec fn chunk_packet(frame_id: u32, pts_ms: u32, nal: Seq<u8>, i: int) -> Packet {
    Packet {
        frame_id,
        chunk_idx: (i % 0x1_0000) as u16,
        total_chunks: (chunk_count(nal.len()) % 0x1_0000) as u16,
        pts_ms,
        data: chunk(nal, i),
    }
}

/// Cuts encoded frames into datagrams and numbers the frames.
pub struct FrameSender {
    frame_id: u32,
}

impl View for FrameSender {
    type V = u32;

    /// The number of the next frame.
    closed spec fn view(&self) -> u32 {
        self.frame_id
    }
}

impl FrameSender {
    /// The first frame has the number 0.
    pub fn new() -> (r: Self)
        ensures
            r@ == 0,
    {
        FrameSender { frame_id: 0 }
    }

    /// The datagrams of the next encoded frame, in order.
    pub fn packetize(&mut self, nal: &[u8], pts_ms: u32) -> (out: Vec<Vec<u8>>)
        ensures
            final(self)@ == old(self)@.wrapping_add(1),
            out@.len() == chunk_count(nal@.len()),
            forall|i: int|
                0 <= i < out@.len() ==> #[trigger] out@[i]@ == packet_bytes(
                    chunk_packet(old(self)@, pts_ms, nal@, i),
                ),
    {
        let len: usize = nal.len();
        let count: usize = if len == 0 {
            0
        } else {
            (len - 1) / VIDEO_CHUNK_MAX + 1
        };
        assert(count == chunk_count(nal@.len()));
        let total: u16 = (count % 0x1_0000) as u16;
        let mut out: Vec<Vec<u8>> = Vec::new();
        let mut i: usize = 0;
        let mut from: usize = 0;
        while i < count
            invariant
                self.frame_id == old(self).frame_id,
                len == nal@.len(),
                count == chunk_count(nal@.len()),
                total == count % 0x1_0000,
                i <= count,
                i < count ==> from == i * VIDEO_CHUNK_MAX,
                out@.len() == i,
                forall|j: int|
                    0 <= j < i ==> #[trigger] out@[j]@ == packet_bytes(
                        chunk_packet(self.frame_id, pts_ms, nal@, j),
                    ),
            decreases count - i,
        {
            let to: usize = if len - from > VIDEO_CHUNK_MAX {
                from + VIDEO_CHUNK_MAX
            } else {
                len
            };
            assert(to == chunk_end(nal@.len(), i as int));
            let packet = VideoPacket {
                frame_id: self.frame_id,
                chunk_idx: (i % 0x1_0000) as u16,
                total_chunks: total,
                pts_ms,
                data: vstd::slice::slice_subrange(nal, from, to),
            };
            assert(packet@ == chunk_packet(self.frame_id, pts_ms, nal@, i as int));
            let mut buf: Vec<u8> = Vec::with_capacity(VIDEO_CHUNK_MAX + VIDEO_HDR_LEN);
            packet.write_to(&mut buf);
            assert(buf@ =~= packet_bytes(packet@));
            out.push(buf);
            from = to;
            i = i + 1;
        }
        self.frame_id = self.frame_id.wrapping_add(1);
        out
    }
}

/// Seals each datagram on its own, under the nonce that was drawn for it. Fails
/// exactly if none was drawn for one of them.
pub fn seal_datagrams_drawn(
    cipher: &Cipher,
    datagrams: &Vec<Vec<u8>>,
    nonces: &Vec<Result<[u8; 24], RandomUnavailable>>,
) -> (r: Result<Vec<Vec<u8>>, RandomUnavailable>)
    requires
        nonces@.len() == datagrams@.len(),
        forall|i: int| 0 <= i < datagrams@.len() ==> #[trigger] datagrams@[i]@.len() <= PLAINTEXT_MAX,
    ensures
        r is Ok <==> forall|i: int| 0 <= i < nonces@.len() ==> (#[trigger] nonces@[i]) is Ok,
        r matches Ok(out) ==> {
            &&& out@.len() == datagrams@.len()
            &&& forall|i: int|
                0 <= i < out@.len() ==> #[trigger] out@[i]@ == sealed(
                    cipher@,
                    nonces@[i]->Ok_0@,
                    datagrams@[i]@,
                )
            &&& forall|i: int|
                0 <= i < out@.len() ==> opened(cipher@, #[trigger] out@[i]@) == Some(
                    datagrams@[i]@,
                )
            &&& forall|i: int|
                0 <= i < out@.len() ==> #[trigger] out@[i]@.len() == NONCE_LEN
                    + datagrams@[i]@.len() + TAG_LEN
        },
{
    let mut out: Vec<Vec<u8>> = Vec::new();
    let mut i: usize = 0;
    while i < datagrams.len()
        invariant
            i <= datagrams@.len(),
            nonces@.len() == datagrams@.len(),
            out@.len() == i,
            forall|j: int|
                0 <= j < datagrams@.len() ==> #[trigger] datagrams@[j]@.len() <= PLAINTEXT_MAX,
            forall|j: int| 0 <= j < i ==> (#[trigger] nonces@[j]) is Ok,
            forall|j: int|
                0 <= j < i ==> #[trigger] out@[j]@ == sealed(
                    cipher@,
                    nonces@[j]->Ok_0@,
                    datagrams@[j]@,
                ),
            forall|j: int|
                0 <= j < i ==> opened(cipher@, #[trigger] out@[j]@) == Some(datagrams@[j]@),
            forall|j: int|
                0 <= j < i ==> #[trigger] out@[j]@.len() == NONCE_LEN + datagrams@[j]@.len()
                    + TAG_LEN,
        decreases datagrams@.len() - i,
    {
        match cipher.seal_drawn(nonces[i], datagrams[i].as_slice()) {
            Ok(body) => {
                out.push(body);
            },
            Err(e) => {
                return Err(e);
            },
        }
        i = i + 1;
    }
    Ok(out)
}

/// For each datagram a nonce was drawn. If all could be had, the result is the datagrams,
/// each sealed under its own; otherwise it is a failure.
pub open spec fn are_sealed(
    key: Seq<u8>,
    nonces: Seq<Result<[u8; 24], RandomUnavailable>>,
    datagrams: Seq<Vec<u8>>,
    r: Result<Vec<Vec<u8>>, RandomUnavailable>,
) -> bool {
    &&& nonces.len() == datagrams.len()
    &&& forall|i: int| 0 <= i < nonces.len() ==> nonce_drawn(#[trigger] nonces[i])
    &&& r is Ok <==> forall|i: int| 0 <= i < nonces.len() ==> (#[trigger] nonces[i]) is Ok
    &&& r matches Ok(out) ==> out@.len() == datagrams.len() && forall|i: int|
        0 <= i < out@.len() ==> #[trigger] out@[i]@ == sealed(
            key,
            nonces[i]->Ok_0@,
            datagrams[i]@,
        )
}

/// Seals each datagram on its own, under a nonce that `random_bytes` gave for it. Fails
/// exactly if it gave none for one of them; where there is none to seal, it does not
/// fail.
pub fn seal_datagrams(cipher: &Cipher, datagrams: &Vec<Vec<u8>>) -> (r: Result<
    Vec<Vec<u8>>,
    RandomUnavailable,
>)
    requires
        forall|i: int| 0 <= i < datagrams@.len() ==> #[trigger] datagrams@[i]@.len() <= PLAINTEXT_MAX,
    ensures
        datagrams@.len() == 0 ==> r is Ok,
        r matches Ok(out) ==> {
            &&& out@.len() == datagrams@.len()
            &&& forall|i: int|
                0 <= i < out@.len() ==> #[trigger] out@[i]@ == sealed(
                    cipher@,
                    out@[i]@.subrange(0, NONCE_LEN as int),
                    datagrams@[i]@,
                )
            &&& forall|i: int|
                0 <= i < out@.len() ==> opened(cipher@, #[trigger] out@[i]@) == Some(
                    datagrams@[i]@,
                )
            &&& forall|i: int|
                0 <= i < out@.len() ==> #[trigger] out@[i]@.len() == NONCE_LEN
                    + datagrams@[i]@.len() + TAG_LEN
        },
        exists|nonces: Seq<Result<[u8; 24], RandomUnavailable>>| #[trigger]
            are_sealed(cipher@, nonces, datagrams@, r),
{
    let mut nonces: Vec<Result<[u8; 24], RandomUnavailable>> = Vec::new();
    let mut i: usize = 0;
    while i < datagrams.len()
        invariant
            i <= datagrams@.len(),
            nonces@.len() == i,
            forall|j: int| 0 <= j < i ==> nonce_drawn(#[trigger] nonces@[j]),
        decreases datagrams@.len() - i,
    {
        let drawn = random_bytes::<24>();
        assert(nonce_drawn(drawn));
        nonces.push(drawn);
        i = i + 1;
    }
    match seal_datagrams_drawn(cipher, datagrams, &nonces) {
        Ok(out) => {
            assert forall|k: int| 0 <= k < out@.len() implies #[trigger] out@[k]@ == sealed(
                cipher@,
                out@[k]@.subrange(0, NONCE_LEN as int),
                datagrams@[k]@,
            ) by {
                assert(nonces@[k] is Ok);
                assert(out@[k]@.subrange(0, NONCE_LEN as int) =~= nonces@[k]->Ok_0@);
            }
            let r = Ok(out);
            assert(are_sealed(cipher@, nonces@, datagrams@, r));
            r
        },
        Err(e) => {
            let r = Err(e);
            assert(are_sealed(cipher@, nonces@, datagrams@, r));
            r
        },
    }
}

/// A key that writes no text, as the host injects it.
#[derive(Debug, Clone, Copy, PartialEq, Eq, Structural)]
pub enum HostKey {
    Return,
    Tab,
    Space,
    Backspace,
    Delete,
    Escape,
    UpArrow,
    DownArrow,
    LeftArrow,
    RightArrow,
    Home,
    End,
    PageUp,
    PageDown,
    Shift,
    Control,
    Alt,
    Meta,
    F1,
    F2,
    F3,
    F4,
    F5,
    F6,
    F7,
    F8,
    F9,
    F10,
    F11,
    F12,
    CapsLock,
}

/// The key that a wire code stands for.
pub open spec fn host_key(code: u32) -> Option<HostKey> {
    match code {
        0x00 => Some(HostKey::Return),
        0x01 => Some(HostKey::Tab),
        0x02 => Some(HostKey::Space),
        0x03 => Some(HostKey::Backspace),
        0x04 => Some(HostKey::Delete),
        0x05 => Some(HostKey::Escape),
        0x10 => Some(HostKey::UpArrow),
        0x11 => Some(HostKey::DownArrow),
        0x12 => Some(HostKey::LeftArrow),
        0x13 => Some(HostKey::RightArrow),
        0x14 => Some(HostKey::Home),
        0x15 => Some(HostKey::End),
        0x16 => Some(HostKey::PageUp),
        0x17 => Some(HostKey::PageDown),
        0x20 => Some(HostKey::Shift),
        0x21 => Some(HostKey::Control),
        0x22 => Some(HostKey::Alt),
        0x23 => Some(HostKey::Meta),
        0x30 => Some(HostKey::F1),
        0x31 => Some(HostKey::F2),
        0x32 => Some(HostKey::F3),
        0x33 => Some(HostKey::F4),
        0x34 => Some(HostKey::F5),
        0x35 => Some(HostKey::F6),
        0x36 => Some(HostKey::F7),
        0x37 => Some(HostKey::F8),
        0x38 => Some(HostKey::F9),
        0x39 => Some(HostKey::F10),
        0x3a => Some(HostKey::F11),
        0x3b => Some(HostKey::F12),
        0x40 => Some(HostKey::CapsLock),
        _ => None,
    }
}

/// The key that a wire code stands for.
pub fn winit_keycode_to_enigo(code: u32) -> (r: Option<HostKey>)
    ensures
        r == host_key(code),
{
    match code {
        0x00 => Some(HostKey::Return),
        0x01 => Some(HostKey::Tab),
        0x02 => Some(HostKey::Space),
        0x03 => Some(HostKey::Backspace),
        0x04 => Some(HostKey::Delete),
        0x05 => Some(HostKey::Escape),
        0x10 => Some(HostKey::UpArrow),
        0x11 => Some(HostKey::DownArrow),
        0x12 => Some(HostKey::LeftArrow),
        0x13 => Some(HostKey::RightArrow),
        0x14 => Some(HostKey::Home),
        0x15 => Some(HostKey::End),
        0x16 => Some(HostKey::PageUp),
        0x17 => Some(HostKey::PageDown),
        0x20 => Some(HostKey::Shift),
        0x21 => Some(HostKey::Control),
        0x22 => Some(HostKey::Alt),
        0x23 => Some(HostKey::Meta),
        0x30 => Some(HostKey::F1),
        0x31 => Some(HostKey::F2),
        0x32 => Some(HostKey::F3),
        0x33 => Some(HostKey::F4),
        0x34 => Some(HostKey::F5),
        0x35 => Some(HostKey::F6),
        0x36 => Some(HostKey::F7),
        0x37 => Some(HostKey::F8),
        0x38 => Some(HostKey::F9),
        0x39 => Some(HostKey::F10),
        0x3a => Some(HostKey::F11),
        0x3b => Some(HostKey::F12),
        0x40 => Some(HostKey::CapsLock),
        _ => None,
    }
}

/// A mouse button, as the host injects it.
#[derive(Debug, Clone, Copy, PartialEq, Eq, Structural)]
pub enum HostButton {
    Left,
    Right,
    Middle,
}

/// What the host injects for a message.
#[derive(Debug, Clone, Copy, PartialEq, Eq, Structural)]
pub enum InputAction {
    /// Move the cursor to that part of the screen's width and height.
    MoveMouse { nx: u32, ny: u32 },
    Button { button: HostButton, pressed: bool },
    Scroll { dx: u32, dy: u32 },
    /// Write a character.
    Text { ch: char },
    Key { key: HostKey, pressed: bool },
    /// Nothing.
    Nothing,
}

/// The code is that of a character: a code point that is no surrogate.
pub open spec fn is_scalar(code: u32) -> bool {
    code < 0xd800 || 0xe000 <= code <= 0x10ffff
}

/// The character has that code.
pub open spec fn has_code(c: char, code: u32) -> bool {
    c as u32 == code
}

/// The character with that code.
pub open spec fn char_of(code: u32) -> char {
    choose|c: char| has_code(c, code)
}

/// Calls `char::from_u32`: the character with that code, if the code is that of a
/// character.
#[verifier::external_body]
fn char_from_code(code: u32) -> (r: Option<char>)
    ensures
        r is Some <==> is_scalar(code),
        r matches Some(c) ==> has_code(c, code),
{
    char::from_u32(code)
}

/// A character is the one with its code.
pub proof fn lemma_char_of(c: char)
    ensures
        char_of(c as u32) == c,
{
    let code = c as u32;
    assert(has_code(c, code));
    let d = char_of(code);
    assert(has_code(d, code));
    assert(c as int == d as int);
}

/// The button with that number.
pub open spec fn host_button(btn: u8) -> Option<HostButton> {
    match btn {
        0 => Some(HostButton::Left),
        1 => Some(HostButton::Right),
        2 => Some(HostButton::Middle),
        _ => None,
    }
}

/// What the host injects for a message.
pub open spec fn input_action(msg: Message) -> InputAction {
    match msg {
        Message::MouseMove { nx, ny } => InputAction::MoveMouse { nx, ny },
        Message::MouseButton { btn, pressed } => match host_button(btn) {
            Some(button) => InputAction::Button { button, pressed },
            None => InputAction::Nothing,
        },
        Message::MouseScroll { dx, dy } => InputAction::Scroll { dx, dy },
        Message::KeyChar { ch } => if is_scalar(ch) {
            InputAction::Text { ch: char_of(ch) }
        } else {
            InputAction::Nothing
        },
        Message::KeyPress { keycode, pressed } => match host_key(keycode) {
            Some(key) => InputAction::Key { key, pressed },
            None => InputAction::Nothing,
        },
        _ => InputAction::Nothing,
    }
}

/// What the host injects for a message.
pub fn handle_input(msg: &ControlMsg) -> (r: InputAction)
    ensures
        r == input_action(msg@),
{
    match msg {
        ControlMsg::MouseMove { nx, ny } => InputAction::MoveMouse { nx: *nx, ny: *ny },
        ControlMsg::MouseButton { btn, pressed } => {
            let button = match *btn {
                0 => HostButton::Left,
                1 => HostButton::Right,
                2 => HostButton::Middle,
                _ => {
                    return InputAction::Nothing;
                },
            };
            InputAction::Button { button, pressed: *pressed }
        },
        ControlMsg::MouseScroll { dx, dy } => InputAction::Scroll { dx: *dx, dy: *dy },
        ControlMsg::KeyChar { ch } => match char_from_code(*ch) {
            Some(c) => {
                proof {
                    lemma_char_of(c);
                }
                InputAction::Text { ch: c }
            },
            None => InputAction::Nothing,
        },
        ControlMsg::KeyPress { keycode, pressed } => match winit_keycode_to_enigo(*keycode) {
            Some(key) => InputAction::Key { key, pressed: *pressed },
            None => InputAction::Nothing,
        },
        _ => InputAction::Nothing,
    }
}

/// The port that the video goes to: the one that the viewer announced, or the
/// usual one if it announced none.
pub open spec fn video_port(announced: u16) -> u16 {
    if announced == 0 {
        VIDEO_PORT
    } else {
        announced
    }
}

/// The address that the video goes to.
pub fn video_address(viewer_ip: &str, announced: u16) -> (r: String)
    ensures
        r@ == address(viewer_ip@, video_port(announced)),
{
    socket_address(
        viewer_ip,
        if announced == 0 {
            VIDEO_PORT
        } else {
            announced
        },
    )
}

/// The host's answer to a viewer's Hello.
pub fn welcome(width: u32, height: u32, fps: u32) -> (r: ControlMsg)
    ensures
        r@ == (Message::Welcome { width, height, fps }),
{
    ControlMsg::Welcome { width, height, fps }
}

/// How far a session has come.
#[derive(Debug, Clone, Copy, PartialEq, Eq, Structural)]
pub enum Phase {
    AwaitingHello,
    Streaming,
    Closed,
}

/// What the host does with a message.
#[derive(Debug, Clone, Copy, PartialEq, Eq, Structural)]
pub enum HostAction {
    /// End the session: it did not begin with Hello.
    Refuse,
    /// Answer with Welcome and stream video to the port that was announced.
    Start { udp_port: u16 },
    /// Inject input.
    Inject(InputAction),
    /// Put the text on the clipboard, or take in the part of a file.
    Sync(SyncRoute),
    /// Nothing.
    Nothing,
}

/// What a message does in a phase of a session; `clipboard` says whether the
/// clipboard is shared.
pub open spec fn host_step(phase: Phase, clipboard: bool, msg: Message) -> (Phase, HostAction) {
    match phase {
        Phase::AwaitingHello => match msg {
            Message::Hello { udp_port } => (Phase::Streaming, HostAction::Start { udp_port }),
            _ => (Phase::Closed, HostAction::Refuse),
        },
        Phase::Streaming => (
            phase,
            if sync_route(msg, clipboard) != SyncRoute::Neither {
                HostAction::Sync(sync_route(msg, clipboard))
            } else if input_action(msg) != InputAction::Nothing {
                HostAction::Inject(input_action(msg))
            } else {
                HostAction::Nothing
            },
        ),
        Phase::Closed => (phase, HostAction::Nothing),
    }
}

/// The host's side of a session.
pub struct HostSession {
    phase: Phase,
    clipboard: bool,
}

impl HostSession {
    pub closed spec fn phase(&self) -> Phase {
        self.phase
    }

    /// The clipboard is shared.
    pub closed spec fn shares_clipboard(&self) -> bool {
        self.clipboard
    }

    pub fn new(clipboard: bool) -> (r: Self)
        ensures
            r.phase() == Phase::AwaitingHello,
            r.shares_clipboard() == clipboard,
    {
        HostSession { phase: Phase::AwaitingHello, clipboard }
    }

    /// Takes in a message of the viewer and says what to do with it.
    pub fn on_message(&mut self, msg: &ControlMsg) -> (r: HostAction)
        ensures
            (final(self).phase(), r) == host_step(
                old(self).phase(),
                old(self).shares_clipboard(),
                msg@,
            ),
            final(self).shares_clipboard() == old(self).shares_clipboard(),
    {
        match self.phase {
            Phase::AwaitingHello => match msg {
                ControlMsg::Hello { udp_port } => {
                    self.phase = Phase::Streaming;
                    HostAction::Start { udp_port: *udp_port }
                },
                _ => {
                    self.phase = Phase::Closed;
                    HostAction::Refuse
                },
            },
            Phase::Streaming => {
                let route = route_sync(msg, self.clipboard);
                if route != SyncRoute::Neither {
                    return HostAction::Sync(route);
                }
                let input = handle_input(msg);
                if input != InputAction::Nothing {
                    HostAction::Inject(input)
                } else {
                    HostAction::Nothing
                }
            },
            Phase::Closed => HostAction::Nothing,
        }
    }
}

/// What the messages of a session make of its phase, and what is done with each.
pub open spec fn host_steps(phase: Phase, clipboard: bool, msgs: Seq<Message>) -> (
    Phase,
    Seq<HostAction>,
)
    decreases msgs.len(),
{
    if msgs.len() == 0 {
        (phase, Seq::empty())
    } else {
        let (before, actions) = host_steps(phase, clipboard, msgs.drop_last());
        let (after, action) = host_step(before, clipboard, msgs.last());
        (after, actions.push(action))
    }
}

/// Nothing that a viewer sends has any effect on the host unless its first message
/// was Hello; and only that one starts a stream.
pub proof fn law_hello_first(clipboard: bool, msgs: Seq<Message>)
    ensures
        host_steps(Phase::AwaitingHello, clipboard, msgs).1.len() == msgs.len(),
        msgs.len() > 0 && !(msgs[0] is Hello) ==> host_steps(
            Phase::AwaitingHello,
            clipboard,
            msgs,
        ).1[0] == HostAction::Refuse,
        forall|i: int|
            #![trigger host_steps(Phase::AwaitingHello, clipboard, msgs).1[i]]
            0 <= i < msgs.len() ==> match host_steps(Phase::AwaitingHello, clipboard, msgs).1[i] {
                HostAction::Start { udp_port } => i == 0 && msgs[0] == (Message::Hello { udp_port }),
                HostAction::Inject(_) => msgs[0] is Hello,
                HostAction::Sync(_) => msgs[0] is Hello,
                _ => true,
            },
{
    lemma_phases(clipboard, msgs);
}

proof fn lemma_phases(clipboard: bool, msgs: Seq<Message>)
    ensures
        ({
            let (phase, actions) = host_steps(Phase::AwaitingHello, clipboard, msgs);
            &&& actions.len() == msgs.len()
            &&& phase == (if msgs.len() == 0 {
                Phase::AwaitingHello
            } else if msgs[0] is Hello {
                Phase::Streaming
            } else {
                Phase::Closed
            })
            &&& forall|i: int|
                0 <= i < msgs.len() ==> #[trigger] actions[i] == host_step(
                    if i == 0 {
                        Phase::AwaitingHello
                    } else if msgs[0] is Hello {
                        Phase::Streaming
                    } else {
                        Phase::Closed
                    },
                    clipboard,
                    msgs[i],
                ).1
        }),
    decreases msgs.len(),
{
    if msgs.len() > 0 {
        lemma_phases(clipboard, msgs.drop_last());
    }
}

/// All chunks together are the frame, and none of them is too large or empty.
pub proof fn law_chunks_cover(nal: Seq<u8>)
    ensures
        joined(Seq::new(chunk_count(nal.len()), |i: int| chunk(nal, i))) == nal,
        forall|i: int|
            0 <= i < chunk_count(nal.len()) ==> 0 < (#[trigger] chunk(nal, i)).len()
                <= VIDEO_CHUNK_MAX,
{
    let n = chunk_count(nal.len());
    lemma_chunks_prefix(nal, n as int);
    if n > 0 {
        assert(chunk_end(nal.len(), n - 1) == nal.len());
    }
    assert(nal.take(nal.len() as int) =~= nal);
}

proof fn lemma_chunks_prefix(nal: Seq<u8>, n: int)
    requires
        0 <= n <= chunk_count(nal.len()),
    ensures
        joined(Seq::new(n as nat, |i: int| chunk(nal, i))) == nal.take(
            if n == 0 {
                0
            } else {
                chunk_end(nal.len(), n - 1)
            },
        ),
    decreases n,
{
    let parts = Seq::new(n as nat, |i: int| chunk(nal, i));
    if n == 0 {
        assert(nal.take(0) =~= Seq::<u8>::empty());
    } else {
        lemma_chunks_prefix(nal, n - 1);
        assert(parts.drop_last() =~= Seq::new((n - 1) as nat, |i: int| chunk(nal, i)));
        let from = (n - 1) * VIDEO_CHUNK_MAX;
        let to = chunk_end(nal.len(), n - 1);
        assert(nal.take(to) =~= nal.take(from) + nal.subrange(from, to));
    }
}

/// Each datagram of a frame, sealed or not, stays under the 1400 bytes of the
/// smallest network frame that is expected.
pub proof fn law_datagrams_fit(frame_id: u32, pts_ms: u32, nal: Seq<u8>, i: int)
    requires
        0 <= i < chunk_count(nal.len()),
    ensures
        packet_bytes(chunk_packet(frame_id, pts_ms, nal, i)).len() <= VIDEO_CHUNK_MAX
            + VIDEO_HDR_LEN,
        NONCE_LEN + packet_bytes(chunk_packet(frame_id, pts_ms, nal, i)).len() + TAG_LEN < 1400,
{
    law_chunks_cover(nal);
    assert(chunk(nal, i).len() <= VIDEO_CHUNK_MAX);
}

/// A frame is cut into as many pieces of 1300 bytes as it takes, the last of which may be
/// shorter. Each goes into a datagram of its own, in order, behind the number of the
/// frame, its own index, the count of all, the time stamp and its length; index and count
/// in 16 bits. The next frame has the next number, and the first has the number 0.
pub proof fn law_frame_cut(
    first: FrameSender,
    sender: &mut FrameSender,
    nal: &[u8],
    pts_ms: u32,
    out: Vec<Vec<u8>>,
    i: int,
)
    requires
        call_ensures(FrameSender::new, (), first),
        call_ensures(FrameSender::packetize, (sender, nal, pts_ms), out),
    ensures
        first@ == 0,
        final(sender)@ == (old(sender)@ + 1) % 0x1_0000_0000,
        1300 * out@.len() >= nal@.len() > 1300 * out@.len() - 1300,
        0 <= i < out@.len() ==> {
            let b = out@[i]@;
            let to = if 1300 * i + 1300 < nal@.len() {
                1300 * i + 1300
            } else {
                nal@.len() as int
            };
            &&& 0x100_0000 * b[0] + 0x1_0000 * b[1] + 0x100 * b[2] + b[3] == old(sender)@
            &&& 0x100 * b[4] + b[5] == i % 0x1_0000
            &&& 0x100 * b[6] + b[7] == out@.len() % 0x1_0000
            &&& 0x100_0000 * b[8] + 0x1_0000 * b[9] + 0x100 * b[10] + b[11] == pts_ms
            &&& 0x100 * b[12] + b[13] == to - 1300 * i
            &&& b.skip(14) == nal@.subrange(1300 * i, to)
        },
{
    lemma_chunk_count(nal@.len());
    if 0 <= i < out@.len() {
        assert(out@[i]@ == packet_bytes(chunk_packet(old(sender)@, pts_ms, nal@, i)));
        lemma_chunk_datagram(old(sender)@, pts_ms, nal@, i);
    }
}

proof fn lemma_chunk_count(len: nat)
    ensures
        1300 * chunk_count(len) >= len > 1300 * chunk_count(len) - 1300,
{
}

proof fn lemma_chunk_datagram(frame_id: u32, pts_ms: u32, nal: Seq<u8>, i: int)
    requires
        0 <= i < chunk_count(nal.len()),
    ensures
        ({
            let b = packet_bytes(chunk_packet(frame_id, pts_ms, nal, i));
            let to = if 1300 * i + 1300 < nal.len() {
                1300 * i + 1300
            } else {
                nal.len() as int
            };
            &&& 0x100_0000 * b[0] + 0x1_0000 * b[1] + 0x100 * b[2] + b[3] == frame_id
            &&& 0x100 * b[4] + b[5] == i % 0x1_0000
            &&& 0x100 * b[6] + b[7] == chunk_count(nal.len()) % 0x1_0000
            &&& 0x100_0000 * b[8] + 0x1_0000 * b[9] + 0x100 * b[10] + b[11] == pts_ms
            &&& 0x100 * b[12] + b[13] == to - 1300 * i
            &&& b.skip(14) == nal.subrange(1300 * i, to)
        }),
{
    let p = chunk_packet(frame_id, pts_ms, nal, i);
    lemma_chunk_count(nal.len());
    lemma_packet_layout(p);
    lemma_number_of_bytes(frame_id, p.chunk_idx);
    lemma_number_of_bytes(pts_ms, p.total_chunks);
    lemma_number_of_bytes(pts_ms, p.data.len() as u16);
}

/// Each datagram is sealed under a nonce that the system gave for it, and opens to what it
/// was. They are all there, in order, or none of them is: exactly if the system gave no
/// nonce for one.
pub proof fn law_datagrams_sealed(
    cipher: &Cipher,
    datagrams: &Vec<Vec<u8>>,
    r: Result<Vec<Vec<u8>>, RandomUnavailable>,
)
    requires
        call_ensures(seal_datagrams, (cipher, datagrams), r),
    ensures
        r matches Ok(out) ==> out@.len() == datagrams@.len() && forall|i: int|
            0 <= i < out@.len() ==> opened(cipher@, #[trigger] out@[i]@) == Some(datagrams@[i]@),
        exists|drawn: Seq<Result<[u8; 24], getrandom::Error>>|
            #![trigger drawn.len()]
            {
                &&& drawn.len() == datagrams@.len()
                &&& forall|i: int| 0 <= i < drawn.len() ==> system_gave(#[trigger] drawn[i])
                &&& r is Ok <==> forall|i: int| 0 <= i < drawn.len() ==> (#[trigger] drawn[i]) is Ok
                &&& r matches Ok(out) ==> forall|i: int|
                    0 <= i < out@.len() ==> #[trigger] out@[i]@ == drawn[i]->Ok_0@
                        + xchacha_encrypt(cipher@, drawn[i]->Ok_0@, datagrams@[i]@)
            },
{
    let nonces = choose|nonces: Seq<Result<[u8; 24], RandomUnavailable>>| #[trigger]
        are_sealed(cipher@, nonces, datagrams@, r);
    let gave = |i: int, d: Result<[u8; 24], getrandom::Error>|
        system_gave(d) && match d {
            Ok(bytes) => nonces[i] == Ok::<[u8; 24], RandomUnavailable>(bytes),
            Err(_) => nonces[i] is Err,
        };
    let drawn = Seq::new(
        nonces.len(),
        |i: int| choose|d: Result<[u8; 24], getrandom::Error>| #[trigger] gave(i, d),
    );
    assert forall|i: int| 0 <= i < nonces.len() implies gave(i, #[trigger] drawn[i]) by {
        assert(nonce_drawn(nonces[i]));
        law_nonce_from_system(nonces[i]);
        let d = choose|d: Result<[u8; 24], getrandom::Error>| #[trigger]
            system_gave(d) && match d {
                Ok(bytes) => nonces[i] == Ok::<[u8; 24], RandomUnavailable>(bytes),
                Err(_) => nonces[i] is Err,
            };
        assert(gave(i, d));
    }
    assert(forall|i: int|
        0 <= i < drawn.len() ==> ((#[trigger] drawn[i]) is Ok <==> nonces[i] is Ok));
    if r is Ok {
        assert forall|i: int| 0 <= i < drawn.len() implies (#[trigger] drawn[i]) is Ok by {
            assert(nonces[i] is Ok);
        }
        let out = r->Ok_0;
        assert forall|i: int| 0 <= i < out@.len() implies #[trigger] out@[i]@ == drawn[i]->Ok_0@
            + xchacha_encrypt(cipher@, drawn[i]->Ok_0@, datagrams@[i]@) by {
            assert(gave(i, drawn[i]));
            assert(nonces[i] is Ok);
            assert(out@[i]@ == sealed(cipher@, nonces[i]->Ok_0@, datagrams@[i]@));
        }
    } else {
        assert(exists|i: int| 0 <= i < nonces.len() && !((#[trigger] nonces[i]) is Ok));
        let i = choose|i: int| 0 <= i < nonces.len() && !((#[trigger] nonces[i]) is Ok);
        assert(!(drawn[i] is Ok));
    }
    assert(drawn.len() == datagrams@.len());
}

/// The keys on the wire.
pub proof fn law_key_codes(code: u32, r: Option<HostKey>)
    requires
        call_ensures(winit_keycode_to_enigo, (code,), r),
    ensures
        match code {
            0x00 => r == Some(HostKey::Return),
            0x01 => r == Some(HostKey::Tab),
            0x02 => r == Some(HostKey::Space),
            0x03 => r == Some(HostKey::Backspace),
            0x04 => r == Some(HostKey::Delete),
            0x05 => r == Some(HostKey::Escape),
            0x10 => r == Some(HostKey::UpArrow),
            0x11 => r == Some(HostKey::DownArrow),
            0x12 => r == Some(HostKey::LeftArrow),
            0x13 => r == Some(HostKey::RightArrow),
            0x14 => r == Some(HostKey::Home),
            0x15 => r == Some(HostKey::End),
            0x16 => r == Some(HostKey::PageUp),
            0x17 => r == Some(HostKey::PageDown),
            0x20 => r == Some(HostKey::Shift),
            0x21 => r == Some(HostKey::Control),
            0x22 => r == Some(HostKey::Alt),
            0x23 => r == Some(HostKey::Meta),
            0x30 => r == Some(HostKey::F1),
            0x31 => r == Some(HostKey::F2),
            0x32 => r == Some(HostKey::F3),
            0x33 => r == Some(HostKey::F4),
            0x34 => r == Some(HostKey::F5),
            0x35 => r == Some(HostKey::F6),
            0x36 => r == Some(HostKey::F7),
            0x37 => r == Some(HostKey::F8),
            0x38 => r == Some(HostKey::F9),
            0x39 => r == Some(HostKey::F10),
            0x3a => r == Some(HostKey::F11),
            0x3b => r == Some(HostKey::F12),
            0x40 => r == Some(HostKey::CapsLock),
            _ => r is None,
        },
{
}

/// What the host injects for a message is what the message says: the cursor goes to just
/// that position, the wheel turns by just that much both ways, button and key go down if
/// it says pressed and up if not, and a character is written that has the code. For an
/// unknown button, key or code, and for any other message, it injects nothing.
pub proof fn law_injected(msg: &ControlMsg, r: InputAction)
    requires
        call_ensures(handle_input, (msg,), r),
    ensures
        match *msg {
            ControlMsg::MouseMove { nx, ny } => r == (InputAction::MoveMouse { nx, ny }),
            ControlMsg::MouseScroll { dx, dy } => r == (InputAction::Scroll { dx, dy }),
            ControlMsg::MouseButton { btn, pressed } => {
                &&& btn == 0 ==> r == (InputAction::Button { button: HostButton::Left, pressed })
                &&& btn == 1 ==> r == (InputAction::Button { button: HostButton::Right, pressed })
                &&& btn == 2 ==> r == (InputAction::Button { button: HostButton::Middle, pressed })
                &&& btn > 2 ==> r == InputAction::Nothing
            },
            ControlMsg::KeyChar { ch } => if ch < 0xd800 || 0xe000 <= ch <= 0x10ffff {
                r matches InputAction::Text { ch: c } && c as u32 == ch
            } else {
                r == InputAction::Nothing
            },
            ControlMsg::KeyPress { keycode, pressed } => match host_key(keycode) {
                Some(key) => r == (InputAction::Key { key, pressed }),
                None => r == InputAction::Nothing,
            },
            _ => r == InputAction::Nothing,
        },
{
    if let ControlMsg::KeyChar { ch } = *msg {
        if ch < 0xd800 || 0xe000 <= ch <= 0x10ffff {
            let c = ch as char;
            assert(has_code(c, ch));
            assert(has_code(char_of(ch), ch));
        }
    }
}

/// The video goes to the address that the viewer has and the port that it announced, or
/// 7274 if it announced none.
pub proof fn law_video_address(viewer_ip: &str, announced: u16, r: String)
    requires
        call_ensures(video_address, (viewer_ip, announced), r),
    ensures
        announced != 0 ==> r@ == viewer_ip@ + seq![':'] + decimal(announced as nat),
        announced == 0 ==> r@ == viewer_ip@ + seq![':'] + decimal(7274),
{
}

/// The answer to Hello says the screen's width and height and the frame rate.
pub proof fn law_welcome(width: u32, height: u32, fps: u32, r: ControlMsg)
    requires
        call_ensures(welcome, (width, height, fps), r),
    ensures
        r == (ControlMsg::Welcome { width, height, fps }),
{
}

/// A session that has not begun takes Hello, which starts the stream to the port that is
/// in it, and is closed by anything else. Once it has begun it stays open: clipboard texts
/// go to the clipboard while that is shared, parts of files to the files, and input is
/// injected as `handle_input` says. A closed session does nothing any more. The choice to
/// share the clipboard stays.
pub proof fn law_session_step(
    fresh: HostSession,
    shared: bool,
    session: &mut HostSession,
    msg: &ControlMsg,
    r: HostAction,
    input: InputAction,
)
    requires
        call_ensures(HostSession::new, (shared,), fresh),
        call_ensures(HostSession::on_message, (session, msg), r),
        call_ensures(handle_input, (msg,), input),
    ensures
        fresh.phase() == Phase::AwaitingHello,
        fresh.shares_clipboard() == shared,
        final(session).shares_clipboard() == old(session).shares_clipboard(),
        old(session).phase() == Phase::AwaitingHello ==> match *msg {
            ControlMsg::Hello { udp_port } => r == (HostAction::Start { udp_port })
                && final(session).phase() == Phase::Streaming,
            _ => r == HostAction::Refuse && final(session).phase() == Phase::Closed,
        },
        old(session).phase() == Phase::Streaming ==> final(session).phase() == Phase::Streaming
            && match *msg {
            ControlMsg::Clipboard { .. } => if old(session).shares_clipboard() {
                r == HostAction::Sync(SyncRoute::Clipboard)
            } else {
                r == HostAction::Nothing
            },
            ControlMsg::FileStart { .. } => r == HostAction::Sync(SyncRoute::File),
            ControlMsg::FileChunk { .. } => r == HostAction::Sync(SyncRoute::File),
            ControlMsg::FileEnd { .. } => r == HostAction::Sync(SyncRoute::File),
            _ => r == (if input == InputAction::Nothing {
                HostAction::Nothing
            } else {
                HostAction::Inject(input)
            }),
        },
        old(session).phase() == Phase::Closed ==> r == HostAction::Nothing
            && final(session).phase() == Phase::Closed,
{
}

/// Datagrams are sealed each under the nonce that was drawn for it, in order, all of them
/// or, exactly if a nonce is missing, none.
pub proof fn law_datagrams_as_drawn(
    cipher: &Cipher,
    datagrams: &Vec<Vec<u8>>,
    nonces: &Vec<Result<[u8; 24], RandomUnavailable>>,
    r: Result<Vec<Vec<u8>>, RandomUnavailable>,
    i: int,
)
    requires
        nonces@.len() == datagrams@.len(),
        call_ensures(seal_datagrams_drawn, (cipher, datagrams, nonces), r),
        0 <= i < datagrams@.len(),
    ensures
        nonces@[i] is Err ==> r is Err,
        (forall|k: int| 0 <= k < nonces@.len() ==> (#[trigger] nonces@[k]) is Ok) ==> r is Ok,
        r matches Ok(out) ==> {
            let n = nonces@[i]->Ok_0@;
            &&& out@.len() == datagrams@.len()
            &&& out@[i]@ == n + xchacha_encrypt(cipher@, n, datagrams@[i]@)
            &&& opened(cipher@, out@[i]@) == Some(datagrams@[i]@)
        },
{
}

} // verus!
