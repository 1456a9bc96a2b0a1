//! The viewer's side: the handshake with a host, and the input that is forwarded to
//! it.

use vstd::prelude::*;

use crate::host::{
    handle_input, host_key, host_step, input_action, is_scalar, law_injected, lemma_char_of,
    video_port, welcome, HostAction, HostButton, HostKey, InputAction, Phase,
};
use crate::proto::{ControlMsg, Message};
use crate::text::{control, is_control, to_chars};

verus! {

/// A decoded RGBA frame, ready for display.
#[derive(Debug, Clone, PartialEq)]
pub struct RgbaFrame {
    pub data: Vec<u8>,
    pub width: u32,
    pub height: u32,
}

/// Why the handshake with a host failed.
#[derive(Debug, PartialEq)]
pub enum HandshakeError {
    /// The host answered with another message.
    ExpectedWelcome(ControlMsg),
    /// The host gave no answer that opens: it has another password, or hung up.
    Rejected,
}

impl HandshakeError {
    /// The error in words; what another message says is not among them.
    pub fn message(&self) -> (text: &'static str)
        ensures
            text@ == match *self {
                HandshakeError::ExpectedWelcome(_) => "expected Welcome, got "@,
                HandshakeError::Rejected => {
                    "Incorrect password, or the host rejected the connection"@
                },
            },
    {
        match self {
            HandshakeError::ExpectedWelcome(_) => "expected Welcome, got ",
            HandshakeError::Rejected => "Incorrect password, or the host rejected the connection",
        }
    }
}

/// The remote screen's width and height and the frame rate, if the message is a
/// Welcome.
pub open spec fn welcomed(msg: Message) -> Option<(u32, u32, u32)> {
    match msg {
        Message::Welcome { width, height, fps } => Some((width, height, fps)),
        _ => None,
    }
}

/// Finishes the handshake with the answer to Hello, if there was one: the remote
/// screen's width and height and the frame rate.
pub fn finish_handshake(answer: Option<ControlMsg>) -> (r: Result<(u32, u32, u32), HandshakeError>)
    ensures
        match answer {
            Some(msg) => match welcomed(msg@) {
                Some(screen) => r == Ok::<_, HandshakeError>(screen),
                None => r == Err::<(u32, u32, u32), _>(HandshakeError::ExpectedWelcome(msg)),
            },
            None => r == Err::<(u32, u32, u32), _>(HandshakeError::Rejected),
        },
{
    match answer {
        Some(ControlMsg::Welcome { width, height, fps }) => Ok((width, height, fps)),
        Some(other) => Err(HandshakeError::ExpectedWelcome(other)),
        None => Err(HandshakeError::Rejected),
    }
}

/// A key of the viewer's keyboard, as far as it is forwarded by itself; those that
/// write text are forwarded as text.
#[derive(Debug, Clone, Copy, PartialEq, Eq, Structural)]
pub enum ViewKey {
    Enter,
    Tab,
    Backspace,
    Delete,
    Escape,
    ArrowUp,
    ArrowDown,
    ArrowLeft,
    ArrowRight,
    Home,
    End,
    PageUp,
    PageDown,
    F1,
    F2,
    F3,
    F4,
    F5,
    F6,
    F7,
    F8,
    F9,
    F10,
    F11,
    F12,
    /// Any other key.
    Other,
}

/// The wire code of a key.
pub open spec fn wire_code(key: ViewKey) -> Option<u32> {
    match key {
        ViewKey::Enter => Some(0x00),
        ViewKey::Tab => Some(0x01),
        ViewKey::Backspace => Some(0x03),
        ViewKey::Delete => Some(0x04),
        ViewKey::Escape => Some(0x05),
        ViewKey::ArrowUp => Some(0x10),
        ViewKey::ArrowDown => Some(0x11),
        ViewKey::ArrowLeft => Some(0x12),
        ViewKey::ArrowRight => Some(0x13),
        ViewKey::Home => Some(0x14),
        ViewKey::End => Some(0x15),
        ViewKey::PageUp => Some(0x16),
        ViewKey::PageDown => Some(0x17),
        ViewKey::F1 => Some(0x30),
        ViewKey::F2 => Some(0x31),
        ViewKey::F3 => Some(0x32),
        ViewKey::F4 => Some(0x33),
        ViewKey::F5 => Some(0x34),
        ViewKey::F6 => Some(0x35),
        ViewKey::F7 => Some(0x36),
        ViewKey::F8 => Some(0x37),
        ViewKey::F9 => Some(0x38),
        ViewKey::F10 => Some(0x39),
        ViewKey::F11 => Some(0x3a),
        ViewKey::F12 => Some(0x3b),
        ViewKey::Other => None,
    }
}

/// The wire code of a key.
pub fn egui_key_to_wire(key: ViewKey) -> (r: Option<u32>)
    ensures
        r == wire_code(key),
{
    match key {
        ViewKey::Enter => Some(0x00),
        ViewKey::Tab => Some(0x01),
        ViewKey::Backspace => Some(0x03),
        ViewKey::Delete => Some(0x04),
        ViewKey::Escape => Some(0x05),
        ViewKey::ArrowUp => Some(0x10),
        ViewKey::ArrowDown => Some(0x11),
        ViewKey::ArrowLeft => Some(0x12),
        ViewKey::ArrowRight => Some(0x13),
        ViewKey::Home => Some(0x14),
        ViewKey::End => Some(0x15),
        ViewKey::PageUp => Some(0x16),
        ViewKey::PageDown => Some(0x17),
        ViewKey::F1 => Some(0x30),
        ViewKey::F2 => Some(0x31),
        ViewKey::F3 => Some(0x32),
        ViewKey::F4 => Some(0x33),
        ViewKey::F5 => Some(0x34),
        ViewKey::F6 => Some(0x35),
        ViewKey::F7 => Some(0x36),
        ViewKey::F8 => Some(0x37),
        ViewKey::F9 => Some(0x38),
        ViewKey::F10 => Some(0x39),
        ViewKey::F11 => Some(0x3a),
        ViewKey::F12 => Some(0x3b),
        ViewKey::Other => None,
    }
}

/// A button of the viewer's mouse.
#[derive(Debug, Clone, Copy, PartialEq, Eq, Structural)]
pub enum ViewButton {
    Primary,
    Secondary,
    Middle,
    Other,
}

/// The number of a button on the wire.
pub open spec fn wire_button(button: ViewButton) -> Option<u8> {
    match button {
        ViewButton::Primary => Some(0),
        ViewButton::Secondary => Some(1),
        ViewButton::Middle => Some(2),
        ViewButton::Other => None,
    }
}

/// What the viewer's user did.
#[derive(Debug, PartialEq)]
pub enum InputEvent {
    PointerButton { button: ViewButton, pressed: bool },
    Key { key: ViewKey, pressed: bool },
    Text { text: String },
    Other,
}

/// The messages that write a text, a character each. Control characters write
/// nothing.
pub open spec fn text_messages(text: Seq<char>) -> Seq<Message>
    decreases text.len(),
{
    if text.len() == 0 {
        Seq::empty()
    } else if control(text.last()) {
        text_messages(text.drop_last())
    } else {
        text_messages(text.drop_last()).push(Message::KeyChar { ch: text.last() as u32 })
    }
}

/// The messages that forward an event.
pub open spec fn event_messages(event: InputEvent) -> Seq<Message> {
    match event {
        InputEvent::PointerButton { button, pressed } => match wire_button(button) {
            Some(btn) => seq![Message::MouseButton { btn, pressed }],
            None => Seq::empty(),
        },
        InputEvent::Key { key, pressed } => match wire_code(key) {
            Some(keycode) => seq![Message::KeyPress { keycode, pressed }],
            None => Seq::empty(),
        },
        InputEvent::Text { text } => text_messages(text@),
        InputEvent::Other => Seq::empty(),
    }
}

/// The messages that forward events, in their order.
pub open spec fn events_messages(events: Seq<InputEvent>) -> Seq<Message>
    decreases events.len(),
{
    if events.len() == 0 {
        Seq::empty()
    } else {
        events_messages(events.drop_last()) + event_messages(events.last())
    }
}

/// The messages that forward what happened since the last time: where the cursor
/// went, how far it scrolled, then the events. Nothing is forwarded before there is
/// a picture of the remote screen.
pub open spec fn forwarded(
    active: bool,
    mouse: Option<(u32, u32)>,
    scroll: Option<(u32, u32)>,
    events: Seq<InputEvent>,
) -> Seq<Message> {
    if !active {
        Seq::empty()
    } else {
        (match mouse {
            Some((nx, ny)) => seq![Message::MouseMove { nx, ny }],
            None => Seq::empty(),
        }) + (match scroll {
            Some((dx, dy)) => seq![Message::MouseScroll { dx, dy }],
            None => Seq::empty(),
        }) + events_messages(events)
    }
}

/// What messages say.
pub open spec fn said(msgs: Seq<ControlMsg>) -> Seq<Message> {
    Seq::new(msgs.len(), |i: int| msgs[i]@)
}

fn push_message(out: &mut Vec<ControlMsg>, msg: ControlMsg)
    ensures
        said(final(out)@) == said(old(out)@).push(msg@),
{
    out.push(msg);
    assert(said(out@) =~= said(old(out)@).push(msg@));
}

/// Appends the messages that write a text.
fn forward_text(out: &mut Vec<ControlMsg>, text: &str)
    ensures
        said(final(out)@) == said(old(out)@) + text_messages(text@),
{
    let chars = to_chars(text);
    let mut i: usize = 0;
    assert(said(out@) =~= said(out@) + text_messages(text@.take(0)));
    while i < chars.len()
        invariant
            chars@ == text@,
            i <= chars@.len(),
            said(out@) == said(old(out)@) + text_messages(text@.take(i as int)),
        decreases chars@.len() - i,
    {
        let c: char = chars[i];
        if !is_control(c) {
            push_message(out, ControlMsg::KeyChar { ch: c as u32 });
        }
        proof {
            let next = text@.take(i + 1);
            assert(next.drop_last() =~= text@.take(i as int));
            assert(next.last() == c);
            assert(said(out@) =~= said(old(out)@) + text_messages(next));
        }
        i = i + 1;
    }
    assert(text@.take(text@.len() as int) =~= text@);
}

/// Appends the messages that forward an event.
fn forward_event(out: &mut Vec<ControlMsg>, event: &InputEvent)
    ensures
        said(final(out)@) == said(old(out)@) + event_messages(*event),
{
    match event {
        InputEvent::PointerButton { button, pressed } => {
            let btn: u8 = match *button {
                ViewButton::Primary => 0,
                ViewButton::Secondary => 1,
                ViewButton::Middle => 2,
                ViewButton::Other => {
                    return;
                },
            };
            push_message(out, ControlMsg::MouseButton { btn, pressed: *pressed });
        },
        InputEvent::Key { key, pressed } => {
            if let Some(keycode) = egui_key_to_wire(*key) {
                push_message(out, ControlMsg::KeyPress { keycode, pressed: *pressed });
            }
        },
        InputEvent::Text { text } => {
            forward_text(out, text.as_str());
        },
        InputEvent::Other => {},
    }
    assert(said(out@) =~= said(old(out)@) + event_messages(*event));
}

/// The messages that forward what happened since the last time. A position or a
/// scroll is given where it is to be sent.
pub fn forward_input(
    active: bool,
    mouse: Option<(u32, u32)>,
    scroll: Option<(u32, u32)>,
    events: &Vec<InputEvent>,
) -> (out: Vec<ControlMsg>)
    ensures
        said(out@) == forwarded(active, mouse, scroll, events@),
{
    let mut out: Vec<ControlMsg> = Vec::new();
    assert(said(out@) =~= Seq::<Message>::empty());
    if !active {
        return out;
    }
    if let Some((nx, ny)) = mouse {
        push_message(&mut out, ControlMsg::MouseMove { nx, ny });
    }
    if let Some((dx, dy)) = scroll {
        push_message(&mut out, ControlMsg::MouseScroll { dx, dy });
    }
    let ghost first = said(out@);
    let mut i: usize = 0;
    assert(said(out@) =~= first + events_messages(events@.take(0)));
    while i < events.len()
        invariant
            i <= events@.len(),
            said(out@) == first + events_messages(events@.take(i as int)),
        decreases events@.len() - i,
    {
        forward_event(&mut out, &events[i]);
        proof {
            let next = events@.take(i + 1);
            assert(next.drop_last() =~= events@.take(i as int));
            assert(said(out@) =~= first + events_messages(next));
        }
        i = i + 1;
    }
    assert(events@.take(events@.len() as int) =~= events@);
    assert(said(out@) =~= forwarded(active, mouse, scroll, events@));
    out
}

/// The key that is meant on the host by a key of the viewer.
pub open spec fn same_key(key: ViewKey) -> Option<HostKey> {
    match key {
        ViewKey::Enter => Some(HostKey::Return),
        ViewKey::Tab => Some(HostKey::Tab),
        ViewKey::Backspace => Some(HostKey::Backspace),
        ViewKey::Delete => Some(HostKey::Delete),
        ViewKey::Escape => Some(HostKey::Escape),
        ViewKey::ArrowUp => Some(HostKey::UpArrow),
        ViewKey::ArrowDown => Some(HostKey::DownArrow),
        ViewKey::ArrowLeft => Some(HostKey::LeftArrow),
        ViewKey::ArrowRight => Some(HostKey::RightArrow),
        ViewKey::Home => Some(HostKey::Home),
        ViewKey::End => Some(HostKey::End),
        ViewKey::PageUp => Some(HostKey::PageUp),
        ViewKey::PageDown => Some(HostKey::PageDown),
        ViewKey::F1 => Some(HostKey::F1),
        ViewKey::F2 => Some(HostKey::F2),
        ViewKey::F3 => Some(HostKey::F3),
        ViewKey::F4 => Some(HostKey::F4),
        ViewKey::F5 => Some(HostKey::F5),
        ViewKey::F6 => Some(HostKey::F6),
        ViewKey::F7 => Some(HostKey::F7),
        ViewKey::F8 => Some(HostKey::F8),
        ViewKey::F9 => Some(HostKey::F9),
        ViewKey::F10 => Some(HostKey::F10),
        ViewKey::F11 => Some(HostKey::F11),
        ViewKey::F12 => Some(HostKey::F12),
        ViewKey::Other => None,
    }
}

/// Both sides read the wire codes alike: what the host injects for a key of the
/// viewer is that key, and keys that are not forwarded have no code.
pub proof fn law_keys_agree(key: ViewKey, pressed: bool)
    ensures
        match same_key(key) {
            Some(host) => {
                &&& wire_code(key) is Some
                &&& host_key(wire_code(key)->0) == Some(host)
                &&& input_action(
                    Message::KeyPress { keycode: wire_code(key)->0, pressed },
                ) == (InputAction::Key { key: host, pressed })
            },
            None => wire_code(key) is None,
        },
{
}

/// Both sides number the mouse buttons alike.
pub proof fn law_buttons_agree(pressed: bool)
    ensures
        input_action(
            Message::MouseButton { btn: wire_button(ViewButton::Primary)->0, pressed },
        ) == (InputAction::Button { button: HostButton::Left, pressed }),
        input_action(
            Message::MouseButton { btn: wire_button(ViewButton::Secondary)->0, pressed },
        ) == (InputAction::Button { button: HostButton::Right, pressed }),
        input_action(
            Message::MouseButton { btn: wire_button(ViewButton::Middle)->0, pressed },
        ) == (InputAction::Button { button: HostButton::Middle, pressed }),
{
}

/// The characters of a text that are no control characters.
pub open spec fn printable(text: Seq<char>) -> Seq<char>
    decreases text.len(),
{
    if text.len() == 0 {
        Seq::empty()
    } else if control(text.last()) {
        printable(text.drop_last())
    } else {
        printable(text.drop_last()).push(text.last())
    }
}

/// What is written on the viewer is written on the host: the characters that are no
/// control characters, in their order.
pub proof fn law_text_arrives(text: Seq<char>)
    ensures
        text_messages(text).len() == printable(text).len(),
        forall|i: int|
            0 <= i < printable(text).len() ==> input_action(#[trigger] text_messages(text)[i]) == (
            InputAction::Text { ch: printable(text)[i] }),
    decreases text.len(),
{
    if text.len() > 0 {
        law_text_arrives(text.drop_last());
        lemma_char_of(text.last());
        assert(is_scalar(text.last() as u32));
    }
}

/// The two sides of the handshake fit: a Hello starts a stream to the port that it
/// announces, and a Welcome tells the viewer what the host put into it.
pub proof fn law_handshake_fits(
    clipboard: bool,
    udp_port: u16,
    width: u32,
    height: u32,
    fps: u32,
)
    requires
        udp_port != 0,
    ensures
        host_step(Phase::AwaitingHello, clipboard, Message::Hello { udp_port }) == (
            Phase::Streaming,
            HostAction::Start { udp_port },
        ),
        video_port(udp_port) == udp_port,
        welcomed(Message::Welcome { width, height, fps }) == Some((width, height, fps)),
{
}

/// The wire code of each key.
pub proof fn law_wire_codes(key: ViewKey, r: Option<u32>)
    requires
        call_ensures(egui_key_to_wire, (key,), r),
    ensures
        match key {
            ViewKey::Enter => r == Some(0x00u32),
            ViewKey::Tab => r == Some(0x01u32),
            ViewKey::Backspace => r == Some(0x03u32),
            ViewKey::Delete => r == Some(0x04u32),
            ViewKey::Escape => r == Some(0x05u32),
            ViewKey::ArrowUp => r == Some(0x10u32),
            ViewKey::ArrowDown => r == Some(0x11u32),
            ViewKey::ArrowLeft => r == Some(0x12u32),
            ViewKey::ArrowRight => r == Some(0x13u32),
            ViewKey::Home => r == Some(0x14u32),
            ViewKey::End => r == Some(0x15u32),
            ViewKey::PageUp => r == Some(0x16u32),
            ViewKey::PageDown => r == Some(0x17u32),
            ViewKey::F1 => r == Some(0x30u32),
            ViewKey::F2 => r == Some(0x31u32),
            ViewKey::F3 => r == Some(0x32u32),
            ViewKey::F4 => r == Some(0x33u32),
            ViewKey::F5 => r == Some(0x34u32),
            ViewKey::F6 => r == Some(0x35u32),
            ViewKey::F7 => r == Some(0x36u32),
            ViewKey::F8 => r == Some(0x37u32),
            ViewKey::F9 => r == Some(0x38u32),
            ViewKey::F10 => r == Some(0x39u32),
            ViewKey::F11 => r == Some(0x3au32),
            ViewKey::F12 => r == Some(0x3bu32),
            ViewKey::Other => r is None,
        },
{
}

/// What messages say, they say one by one.
pub proof fn law_said(msgs: Seq<ControlMsg>)
    ensures
        said(msgs).len() == msgs.len(),
        forall|i: int| 0 <= i < msgs.len() ==> #[trigger] said(msgs)[i] == msgs[i]@,
{
}

/// A message that says that the cursor or the wheel moved is just that message.
proof fn lemma_pointer_message(msg: ControlMsg, x: u32, y: u32, btn: u8, pressed: bool)
    ensures
        msg@ == (Message::MouseMove { nx: x, ny: y }) ==> msg == (ControlMsg::MouseMove {
            nx: x,
            ny: y,
        }),
        msg@ == (Message::MouseScroll { dx: x, dy: y }) ==> msg == (ControlMsg::MouseScroll {
            dx: x,
            dy: y,
        }),
        msg@ == (Message::MouseButton { btn, pressed }) ==> msg == (ControlMsg::MouseButton {
            btn,
            pressed,
        }),
        msg@ == (Message::KeyPress { keycode: x, pressed }) ==> msg == (ControlMsg::KeyPress {
            keycode: x,
            pressed,
        }),
        msg@ == (Message::KeyChar { ch: x }) ==> msg == (ControlMsg::KeyChar { ch: x }),
{
}

/// What is forwarded, and in what order: where the cursor went, exactly as it was given,
/// then how far it scrolled, exactly as it was given, then what the events alone would
/// give. Without a picture nothing is forwarded.
pub proof fn law_forwarded(
    active: bool,
    mouse: Option<(u32, u32)>,
    scroll: Option<(u32, u32)>,
    events: &Vec<InputEvent>,
    out: Vec<ControlMsg>,
    alone: Vec<ControlMsg>,
)
    requires
        call_ensures(forward_input, (active, mouse, scroll, events), out),
        call_ensures(forward_input, (active, None, None, events), alone),
    ensures
        !active ==> out@.len() == 0,
        active ==> {
            let m: int = if mouse is Some {
                1
            } else {
                0
            };
            let s: int = if scroll is Some {
                1
            } else {
                0
            };
            &&& out@.len() == m + s + alone@.len()
            &&& mouse matches Some((nx, ny)) ==> out@[0] == (ControlMsg::MouseMove { nx, ny })
            &&& scroll matches Some((dx, dy)) ==> out@[m] == (ControlMsg::MouseScroll { dx, dy })
            &&& forall|k: int|
                0 <= k < alone@.len() ==> (#[trigger] alone@[k])@ == out@[m + s + k]@
        },
{
    law_said(out@);
    law_said(alone@);
    if active {
        let m: int = if mouse is Some {
            1
        } else {
            0
        };
        let s: int = if scroll is Some {
            1
        } else {
            0
        };
        assert(said(alone@) =~= events_messages(events@));
        assert(said(out@).skip(m + s) =~= events_messages(events@));
        if let Some((nx, ny)) = mouse {
            assert(said(out@)[0] == (Message::MouseMove { nx, ny }));
            lemma_pointer_message(out@[0], nx, ny, 0, true);
        }
        if let Some((dx, dy)) = scroll {
            assert(said(out@)[m] == (Message::MouseScroll { dx, dy }));
            lemma_pointer_message(out@[m], dx, dy, 0, true);
        }
        assert forall|k: int| 0 <= k < alone@.len() implies (#[trigger] alone@[k])@ == out@[m + s
            + k]@ by {
            assert(said(alone@)[k] == said(out@).skip(m + s)[k]);
        }
    } else {
        assert(said(out@).len() == 0);
    }
}

/// Events are forwarded in their order: what two lists of them give, they give together,
/// one behind the other; and no events give nothing.
pub proof fn law_events_in_order(a: Seq<InputEvent>, b: Seq<InputEvent>)
    ensures
        events_messages(Seq::<InputEvent>::empty()) == Seq::<Message>::empty(),
        events_messages(a + b) == events_messages(a) + events_messages(b),
    decreases b.len(),
{
    if b.len() == 0 {
        assert(a + b =~= a);
    } else {
        law_events_in_order(a, b.drop_last());
        assert((a + b).drop_last() =~= a + b.drop_last());
        assert((a + b).last() == b.last());
    }
    assert(events_messages(a + b) =~= events_messages(a) + events_messages(b));
}

/// The same of calls: the messages for two lists of events are, one behind the other,
/// those for both together.
pub proof fn law_events_joined(
    a: &Vec<InputEvent>,
    b: &Vec<InputEvent>,
    both: &Vec<InputEvent>,
    x: Vec<ControlMsg>,
    y: Vec<ControlMsg>,
    z: Vec<ControlMsg>,
)
    requires
        both@ == a@ + b@,
        call_ensures(forward_input, (true, None, None, a), x),
        call_ensures(forward_input, (true, None, None, b), y),
        call_ensures(forward_input, (true, None, None, both), z),
    ensures
        z@.len() == x@.len() + y@.len(),
        forall|k: int| 0 <= k < x@.len() ==> (#[trigger] x@[k])@ == z@[k]@,
        forall|k: int| 0 <= k < y@.len() ==> (#[trigger] y@[k])@ == z@[x@.len() + k]@,
{
    law_events_in_order(a@, b@);
    assert(said(x@) =~= events_messages(a@));
    assert(said(y@) =~= events_messages(b@));
    assert(said(z@) =~= said(x@) + said(y@));
    assert forall|k: int| 0 <= k < x@.len() implies (#[trigger] x@[k])@ == z@[k]@ by {
        assert(said(z@)[k] == said(x@)[k]);
    }
    assert forall|k: int| 0 <= k < y@.len() implies (#[trigger] y@[k])@ == z@[x@.len() + k]@ by {
        assert(said(z@)[x@.len() + k] == said(y@)[k]);
    }
}

/// What the host does for messages, one after the other.
pub open spec fn done_on_host(msgs: Seq<ControlMsg>, done: Seq<InputAction>) -> bool {
    &&& done.len() == msgs.len()
    &&& forall|k: int|
        0 <= k < msgs.len() ==> call_ensures(handle_input, (&#[trigger] msgs[k],), done[k])
}

/// What the user does with the mouse and the keys is what happens on the host. A button
/// goes down there when it goes down here and up when it goes up, the same button; a key
/// likewise. A button or a key that is not forwarded does nothing.
pub proof fn law_event_happens_on_host(
    events: &Vec<InputEvent>,
    out: Vec<ControlMsg>,
    done: Seq<InputAction>,
)
    requires
        events@.len() == 1,
        call_ensures(forward_input, (true, None, None, events), out),
        done_on_host(out@, done),
    ensures
        match events@[0] {
            InputEvent::PointerButton { button, pressed } => match button {
                ViewButton::Primary => done == seq![
                    InputAction::Button { button: HostButton::Left, pressed },
                ],
                ViewButton::Secondary => done == seq![
                    InputAction::Button { button: HostButton::Right, pressed },
                ],
                ViewButton::Middle => done == seq![
                    InputAction::Button { button: HostButton::Middle, pressed },
                ],
                ViewButton::Other => done.len() == 0,
            },
            InputEvent::Key { key, pressed } => match key {
                ViewKey::Enter => done == seq![InputAction::Key { key: HostKey::Return, pressed }],
                ViewKey::Tab => done == seq![InputAction::Key { key: HostKey::Tab, pressed }],
                ViewKey::Backspace => done == seq![InputAction::Key { key: HostKey::Backspace, pressed }],
                ViewKey::Delete => done == seq![InputAction::Key { key: HostKey::Delete, pressed }],
                ViewKey::Escape => done == seq![InputAction::Key { key: HostKey::Escape, pressed }],
                ViewKey::ArrowUp => done == seq![InputAction::Key { key: HostKey::UpArrow, pressed }],
                ViewKey::ArrowDown => done == seq![InputAction::Key { key: HostKey::DownArrow, pressed }],
                ViewKey::ArrowLeft => done == seq![InputAction::Key { key: HostKey::LeftArrow, pressed }],
                ViewKey::ArrowRight => done == seq![InputAction::Key { key: HostKey::RightArrow, pressed }],
                ViewKey::Home => done == seq![InputAction::Key { key: HostKey::Home, pressed }],
                ViewKey::End => done == seq![InputAction::Key { key: HostKey::End, pressed }],
                ViewKey::PageUp => done == seq![InputAction::Key { key: HostKey::PageUp, pressed }],
                ViewKey::PageDown => done == seq![InputAction::Key { key: HostKey::PageDown, pressed }],
                ViewKey::F1 => done == seq![InputAction::Key { key: HostKey::F1, pressed }],
                ViewKey::F2 => done == seq![InputAction::Key { key: HostKey::F2, pressed }],
                ViewKey::F3 => done == seq![InputAction::Key { key: HostKey::F3, pressed }],
                ViewKey::F4 => done == seq![InputAction::Key { key: HostKey::F4, pressed }],
                ViewKey::F5 => done == seq![InputAction::Key { key: HostKey::F5, pressed }],
                ViewKey::F6 => done == seq![InputAction::Key { key: HostKey::F6, pressed }],
                ViewKey::F7 => done == seq![InputAction::Key { key: HostKey::F7, pressed }],
                ViewKey::F8 => done == seq![InputAction::Key { key: HostKey::F8, pressed }],
                ViewKey::F9 => done == seq![InputAction::Key { key: HostKey::F9, pressed }],
                ViewKey::F10 => done == seq![InputAction::Key { key: HostKey::F10, pressed }],
                ViewKey::F11 => done == seq![InputAction::Key { key: HostKey::F11, pressed }],
                ViewKey::F12 => done == seq![InputAction::Key { key: HostKey::F12, pressed }],
                ViewKey::Other => done.len() == 0,
            },
            InputEvent::Text { .. } => true,
            InputEvent::Other => done.len() == 0,
        },
{
    let event = events@[0];
    lemma_one_event(events@, out@);
    if out@.len() == 1 {
        assert(said(out@)[0] == out@[0]@);
        assert(call_ensures(handle_input, (&out@[0],), done[0]));
        law_injected(&out@[0], done[0]);
        assert(done =~= seq![done[0]]);
        if let InputEvent::PointerButton { button, pressed } = event {
            if let Some(btn) = wire_button(button) {
                lemma_pointer_message(out@[0], 0, 0, btn, pressed);
            }
        }
        if let InputEvent::Key { key, pressed } = event {
            if let Some(code) = wire_code(key) {
                lemma_pointer_message(out@[0], code, 0, 0, pressed);
            }
        }
    }
}

/// One event gives the messages that forward it.
proof fn lemma_one_event(events: Seq<InputEvent>, out: Seq<ControlMsg>)
    requires
        events.len() == 1,
        said(out) == forwarded(true, None, None, events),
    ensures
        said(out) == event_messages(events[0]),
        out.len() == event_messages(events[0]).len(),
{
    reveal_with_fuel(events_messages, 2);
    assert(events.drop_last() =~= Seq::<InputEvent>::empty());
    assert(said(out) =~= event_messages(events[0]));
    law_said(out);
}

/// On the wire the left button is 0, the right one 1 and the middle one 2, and a button or
/// a key that is pressed is sent as pressed, one that is released as released.
pub proof fn law_event_on_wire(events: &Vec<InputEvent>, out: Vec<ControlMsg>, r: Option<u32>)
    requires
        events@.len() == 1,
        call_ensures(forward_input, (true, None, None, events), out),
        events@[0] matches InputEvent::Key { key, .. } ==> call_ensures(
            egui_key_to_wire,
            (key,),
            r,
        ),
    ensures
        match events@[0] {
            InputEvent::PointerButton { button, pressed } => match button {
                ViewButton::Primary => out@ == seq![ControlMsg::MouseButton { btn: 0, pressed }],
                ViewButton::Secondary => out@ == seq![ControlMsg::MouseButton { btn: 1, pressed }],
                ViewButton::Middle => out@ == seq![ControlMsg::MouseButton { btn: 2, pressed }],
                ViewButton::Other => out@.len() == 0,
            },
            InputEvent::Key { pressed, .. } => match r {
                Some(keycode) => out@ == seq![ControlMsg::KeyPress { keycode, pressed }],
                None => out@.len() == 0,
            },
            InputEvent::Text { .. } => true,
            InputEvent::Other => out@.len() == 0,
        },
{
    lemma_one_event(events@, out@);
    if out@.len() == 1 {
        assert(said(out@)[0] == out@[0]@);
        assert(out@ =~= seq![out@[0]]);
        if let InputEvent::PointerButton { button, pressed } = events@[0] {
            if let Some(btn) = wire_button(button) {
                lemma_pointer_message(out@[0], 0, 0, btn, pressed);
            }
        }
        if let InputEvent::Key { key, pressed } = events@[0] {
            if let Some(code) = wire_code(key) {
                lemma_pointer_message(out@[0], code, 0, 0, pressed);
            }
        }
    }
}

/// Text is forwarded character by character and in order: two texts one behind the other
/// give what each of them gives; a control character gives nothing, and any other one
/// message with its code, for which the host writes that character.
pub proof fn law_text_forwarded(a: Seq<char>, b: Seq<char>, c: char)
    ensures
        text_messages(Seq::<char>::empty()) == Seq::<Message>::empty(),
        text_messages(a + b) == text_messages(a) + text_messages(b),
        (c as int) < 0x20 || 0x7f <= (c as int) <= 0x9f ==> text_messages(seq![c]) == Seq::<
            Message,
        >::empty(),
        0x20 <= (c as int) < 0x7f || 0x9f < (c as int) ==> text_messages(seq![c]) == seq![
            Message::KeyChar { ch: c as u32 },
        ] && input_action(Message::KeyChar { ch: c as u32 }) == (InputAction::Text { ch: c }),
    decreases b.len(),
{
    reveal_with_fuel(text_messages, 2);
    assert(seq![c].drop_last() =~= Seq::<char>::empty());
    assert(seq![c].last() == c);
    lemma_char_of(c);
    assert(is_scalar(c as u32));
    if b.len() == 0 {
        assert(a + b =~= a);
    } else {
        law_text_forwarded(a, b.drop_last(), c);
        assert((a + b).drop_last() =~= a + b.drop_last());
        assert((a + b).last() == b.last());
    }
    assert(text_messages(a + b) =~= text_messages(a) + text_messages(b));
}

/// A character that the user types is the character that the host writes; a control
/// character writes nothing. Texts one behind the other are forwarded one behind the
/// other.
pub proof fn law_text_typed(
    events: &Vec<InputEvent>,
    text: String,
    out: Vec<ControlMsg>,
    done: Seq<InputAction>,
)
    requires
        events@.len() == 1,
        events@[0] == (InputEvent::Text { text }),
        call_ensures(forward_input, (true, None, None, events), out),
        done_on_host(out@, done),
    ensures
        said(out@) == text_messages(text@),
        forall|i: int|
            0 <= i <= text@.len() ==> said(out@) == text_messages(#[trigger] text@.take(i))
                + text_messages(text@.skip(i)),
        text@.len() == 1 ==> {
            let c = text@[0];
            if (c as int) < 0x20 || 0x7f <= (c as int) <= 0x9f {
                done.len() == 0
            } else {
                done == seq![InputAction::Text { ch: c }]
            }
        },
        done.len() <= text@.len(),
        (forall|i: int|
            0 <= i < text@.len() ==> 0x20 <= (#[trigger] text@[i] as int) < 0x7f || 0x9f < (
            text@[i] as int)) ==> done.len() == text@.len() && forall|i: int|
            0 <= i < text@.len() ==> #[trigger] done[i] == (InputAction::Text { ch: text@[i] }),
{
    lemma_one_event(events@, out@);
    law_said(out@);
    let t = text@;
    assert forall|i: int| 0 <= i <= t.len() implies said(out@) == text_messages(
        #[trigger] t.take(i),
    ) + text_messages(t.skip(i)) by {
        law_text_forwarded(t.take(i), t.skip(i), ' ');
        assert(t.take(i) + t.skip(i) =~= t);
    }
    lemma_text_len(t);
    assert forall|k: int| 0 <= k < done.len() implies #[trigger] done[k] == input_action(
        said(out@)[k],
    ) by {
        assert(call_ensures(handle_input, (&out@[k],), done[k]));
    }
    if t.len() == 1 {
        law_text_forwarded(t, t, t[0]);
        assert(t =~= seq![t[0]]);
        let c = t[0];
        if !((c as int) < 0x20 || 0x7f <= (c as int) <= 0x9f) {
            assert(done[0] == input_action(said(out@)[0]));
            assert(done =~= seq![InputAction::Text { ch: c }]);
        }
    }
    if forall|i: int|
        0 <= i < t.len() ==> 0x20 <= (#[trigger] t[i] as int) < 0x7f || 0x9f < (t[i] as int) {
        lemma_plain_text(t);
        assert(done.len() == t.len());
        assert forall|k: int| 0 <= k < t.len() implies #[trigger] done[k] == (InputAction::Text {
            ch: t[k],
        }) by {
            assert(done[k] == input_action(said(out@)[k]));
            law_text_forwarded(t, t, t[k]);
            assert(0x20 <= (t[k] as int) < 0x7f || 0x9f < (t[k] as int));
        }
    }
}

proof fn lemma_text_len(text: Seq<char>)
    ensures
        text_messages(text).len() <= text.len(),
    decreases text.len(),
{
    if text.len() > 0 {
        lemma_text_len(text.drop_last());
    }
}

/// A text without control characters gives a message for each of its characters.
proof fn lemma_plain_text(text: Seq<char>)
    requires
        forall|i: int|
            0 <= i < text.len() ==> 0x20 <= (#[trigger] text[i] as int) < 0x7f || 0x9f < (
            text[i] as int),
    ensures
        text_messages(text).len() == text.len(),
        forall|i: int|
            0 <= i < text.len() ==> #[trigger] text_messages(text)[i] == (Message::KeyChar {
                ch: text[i] as u32,
            }),
    decreases text.len(),
{
    if text.len() > 0 {
        let front = text.drop_last();
        assert forall|i: int| 0 <= i < front.len() implies 0x20 <= (#[trigger] front[i] as int)
            < 0x7f || 0x9f < (front[i] as int) by {
            assert(front[i] == text[i]);
        }
        lemma_plain_text(front);
        let c = text[text.len() - 1];
        assert(0x20 <= (c as int) < 0x7f || 0x9f < (c as int));
        lemma_no_control(c);
    }
}

proof fn lemma_no_control(c: char)
    requires
        0x20 <= (c as int) < 0x7f || 0x9f < (c as int),
    ensures
        !control(c),
{
}

/// The cursor goes to just the position on the host that it has on the viewer, and the
/// wheel turns there just as far, in the same direction, as here.
pub proof fn law_pointer_happens_on_host(
    mouse: Option<(u32, u32)>,
    scroll: Option<(u32, u32)>,
    events: &Vec<InputEvent>,
    out: Vec<ControlMsg>,
    alone: Vec<ControlMsg>,
    done: Seq<InputAction>,
)
    requires
        call_ensures(forward_input, (true, mouse, scroll, events), out),
        call_ensures(forward_input, (true, None, None, events), alone),
        done_on_host(out@, done),
    ensures
        mouse matches Some((nx, ny)) ==> done[0] == (InputAction::MoveMouse { nx, ny }),
        scroll matches Some((dx, dy)) ==> done[if mouse is Some {
            1
        } else {
            0
        }] == (InputAction::Scroll { dx, dy }),
        events@.len() == 0 ==> done.len() == (if mouse is Some {
            1int
        } else {
            0
        }) + (if scroll is Some {
            1int
        } else {
            0
        }),
{
    law_forwarded(true, mouse, scroll, events, out, alone);
    let m: int = if mouse is Some {
        1
    } else {
        0
    };
    if mouse is Some {
        assert(call_ensures(handle_input, (&out@[0],), done[0]));
        law_injected(&out@[0], done[0]);
    }
    if scroll is Some {
        assert(call_ensures(handle_input, (&out@[m],), done[m]));
        law_injected(&out@[m], done[m]);
    }
    if events@.len() == 0 {
        law_said(alone@);
        assert(said(alone@).len() == 0);
    }
}

/// The handshake tells the viewer what the host said: its screen's width and height and
/// its frame rate. Any other answer is an error that holds the answer, and none is a
/// rejection.
pub proof fn law_handshake(
    width: u32,
    height: u32,
    fps: u32,
    answer: ControlMsg,
    r: Result<(u32, u32, u32), HandshakeError>,
    other: ControlMsg,
    s: Result<(u32, u32, u32), HandshakeError>,
    t: Result<(u32, u32, u32), HandshakeError>,
)
    requires
        call_ensures(welcome, (width, height, fps), answer),
        call_ensures(finish_handshake, (Some(answer),), r),
        !(other is Welcome),
        call_ensures(finish_handshake, (Some(other),), s),
        call_ensures(finish_handshake, (None,), t),
    ensures
        r == Ok::<(u32, u32, u32), HandshakeError>((width, height, fps)),
        s == Err::<(u32, u32, u32), HandshakeError>(HandshakeError::ExpectedWelcome(other)),
        t == Err::<(u32, u32, u32), HandshakeError>(HandshakeError::Rejected),
{
}

/// Each error says what is wrong.
pub proof fn law_handshake_error_words(error: HandshakeError, text: &'static str)
    requires
        call_ensures(HandshakeError::message, (&error,), text),
    ensures
        error is ExpectedWelcome ==> text@ == "expected Welcome, got "@,
        error is Rejected ==> text@ == "Incorrect password, or the host rejected the connection"@,
{
}

} // verus!
