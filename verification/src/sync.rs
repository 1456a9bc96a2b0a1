//! Clipboard sharing and file transfer, for both sides of a session.

use std::collections::HashMap;

use vstd::prelude::*;
use vstd::string::*;

use crate::crypto::{NONCE_LEN, TAG_LEN};
use crate::proto::{copy_range, joined, ControlMsg, Message};
use crate::text::{
    decimal, law_decimal_distinct, law_trim_twice, law_trimmed, law_trimmed_ends, lemma_trim_parts,
    lemma_trimmed_part, push_decimal, to_chars, trim, trimmed, white_space,
};
use crate::transport::CONTROL_MAX;

verus! {

broadcast use vstd::std_specs::hash::group_hash_axioms;

/// Most bytes of a file in one message. Stays well under the cap of a control
/// frame.
pub const FILE_CHUNK: usize = 49152;

/// How many names are tried for a file, the one that it was sent with among them.
pub const NAME_TRIES: u32 = 10_000;

/// What a message is for, as far as it is for the clipboard or for a file.
#[derive(Debug, Clone, Copy, PartialEq, Eq, Structural)]
pub enum SyncRoute {
    Clipboard,
    File,
    Neither,
}

/// Where a message belongs. Clipboard texts count only while the clipboard is
/// shared.
pub open spec fn sync_route(msg: Message, clipboard: bool) -> SyncRoute {
    match msg {
        Message::Clipboard { .. } => if clipboard {
            SyncRoute::Clipboard
        } else {
            SyncRoute::Neither
        },
        Message::FileStart { .. } => SyncRoute::File,
        Message::FileChunk { .. } => SyncRoute::File,
        Message::FileEnd { .. } => SyncRoute::File,
        _ => SyncRoute::Neither,
    }
}

/// Where a message belongs.
pub fn route_sync(msg: &ControlMsg, clipboard: bool) -> (r: SyncRoute)
    ensures
        r == sync_route(msg@, clipboard),
{
    match msg {
        ControlMsg::Clipboard { .. } => if clipboard {
            SyncRoute::Clipboard
        } else {
            SyncRoute::Neither
        },
        ControlMsg::FileStart { .. } => SyncRoute::File,
        ControlMsg::FileChunk { .. } => SyncRoute::File,
        ControlMsg::FileEnd { .. } => SyncRoute::File,
        _ => SyncRoute::Neither,
    }
}

/// A character that parts the directories of a path.
pub open spec fn is_separator(c: char) -> bool {
    c == '/' || c == '\\'
}

/// What follows the last separator, or all of the text if it has none.
pub open spec fn last_segment(s: Seq<char>) -> Seq<char>
    decreases s.len(),
{
    if s.len() == 0 || is_separator(s.last()) {
        Seq::empty()
    } else {
        last_segment(s.drop_last()).push(s.last())
    }
}

/// The name is one that stands for a directory.
pub open spec fn only_dots(name: Seq<char>) -> bool {
    name == seq!['.'] || name == seq!['.', '.']
}

/// The name under which a file is received: the last part of the name that it was
/// sent with, or `file` if that is blank or stands for a directory.
pub open spec fn sanitized(name: Seq<char>) -> Seq<char> {
    let base = trimmed(last_segment(name));
    if base.len() == 0 || only_dots(base) {
        "file"@
    } else {
        base
    }
}

fn is_only_dots(name: &str) -> (r: bool)
    ensures
        r == only_dots(name@),
{
    let chars = to_chars(name);
    let len: usize = chars.len();
    let r: bool = (len == 1 && chars[0] == '.') || (len == 2 && chars[0] == '.' && chars[1] == '.');
    proof {
        if len == 1 && chars@[0] == '.' {
            assert(name@ =~= seq!['.']);
        }
        if len == 2 && chars@[0] == '.' && chars@[1] == '.' {
            assert(name@ =~= seq!['.', '.']);
        }
    }
    r
}

/// Keeps only the last part of a name, so that a file stays in its directory.
pub fn sanitize(name: &str) -> (r: String)
    ensures
        r@ == sanitized(name@),
{
    let chars = to_chars(name);
    let len: usize = chars.len();
    let mut from: usize = len;
    assert(name@.take(len as int) =~= name@);
    assert(name@.subrange(len as int, len as int) =~= Seq::<char>::empty());
    assert(last_segment(name@) =~= last_segment(name@) + Seq::<char>::empty());
    while from > 0 && chars[from - 1] != '/' && chars[from - 1] != '\\'
        invariant
            chars@ == name@,
            len == name@.len(),
            from <= len,
            last_segment(name@) == last_segment(name@.take(from as int)) + name@.subrange(
                from as int,
                len as int,
            ),
        decreases from,
    {
        proof {
            let s = name@.take(from as int);
            assert(s.drop_last() =~= name@.take(from - 1));
            assert(last_segment(s) + name@.subrange(from as int, len as int) =~= last_segment(
                s.drop_last(),
            ) + name@.subrange(from - 1, len as int));
        }
        from = from - 1;
    }
    assert(last_segment(name@.take(from as int)) =~= Seq::<char>::empty());
    assert(last_segment(name@) =~= name@.subrange(from as int, len as int));
    let base = trim(name.substring_char(from, len));
    if base.unicode_len() == 0 || is_only_dots(base) {
        "file".to_owned()
    } else {
        base.to_owned()
    }
}

/// Where the last dot of a name stands, or -1 if it has none.
pub open spec fn last_dot(name: Seq<char>) -> int
    decreases name.len(),
{
    if name.len() == 0 {
        -1
    } else if name.last() == '.' {
        name.len() - 1
    } else {
        last_dot(name.drop_last())
    }
}

/// The name without its extension. A dot that a name begins with starts none.
pub open spec fn stem(name: Seq<char>) -> Seq<char> {
    if only_dots(name) {
        Seq::empty()
    } else if last_dot(name) <= 0 {
        name
    } else {
        name.take(last_dot(name))
    }
}

/// The extension of a name with the dot before it; nothing if it has none.
pub open spec fn dotted_extension(name: Seq<char>) -> Seq<char> {
    if only_dots(name) || last_dot(name) <= 0 {
        Seq::empty()
    } else {
        name.skip(last_dot(name))
    }
}

/// The names that are tried for a file, in order: the name itself, then the name
/// with a number behind its stem.
pub open spec fn candidate(name: Seq<char>, n: nat) -> Seq<char> {
    if n == 0 {
        name
    } else {
        stem(name) + seq![' ', '('] + decimal(n) + seq![')'] + dotted_extension(name)
    }
}

fn find_last_dot(chars: &Vec<char>) -> (r: Option<usize>)
    ensures
        match r {
            Some(i) => i == last_dot(chars@) && i < chars@.len(),
            None => last_dot(chars@) == -1,
        },
{
    let mut i: usize = chars.len();
    assert(chars@.take(i as int) =~= chars@);
    while i > 0
        invariant
            i <= chars@.len(),
            last_dot(chars@) == last_dot(chars@.take(i as int)),
        decreases i,
    {
        assert(chars@.take(i as int).drop_last() =~= chars@.take(i - 1));
        if chars[i - 1] == '.' {
            return Some(i - 1);
        }
        i = i - 1;
    }
    None
}

/// The name without its extension, and the extension with the dot before it.
fn split_name<'a>(name: &'a str) -> (r: (&'a str, &'a str))
    ensures
        r.0@ == stem(name@),
        r.1@ == dotted_extension(name@),
{
    let chars = to_chars(name);
    let len: usize = chars.len();
    proof {
        assert(name@.subrange(0, 0) =~= Seq::<char>::empty());
        assert(name@.subrange(0, len as int) =~= name@);
    }
    if is_only_dots(name) {
        return (name.substring_char(0, 0), name.substring_char(0, 0));
    }
    match find_last_dot(&chars) {
        Some(dot) => {
            if dot > 0 {
                assert(name@.subrange(dot as int, len as int) =~= name@.skip(dot as int));
                assert(name@.subrange(0, dot as int) =~= name@.take(dot as int));
                (name.substring_char(0, dot), name.substring_char(dot, len))
            } else {
                (name, name.substring_char(0, 0))
            }
        },
        None => (name, name.substring_char(0, 0)),
    }
}

/// The name with that number that is tried for a file.
pub fn candidate_name(name: &str, n: u32) -> (r: String)
    ensures
        r@ == candidate(name@, n as nat),
{
    if n == 0 {
        return name.to_owned();
    }
    let (stem, ext) = split_name(name);
    let mut r = stem.to_owned();
    r.append(" (");
    push_decimal(&mut r, n as u64);
    r.append(")");
    r.append(ext);
    proof {
        reveal_strlit(" (");
        reveal_strlit(")");
        assert(" ("@ =~= seq![' ', '(']);
        assert(")"@ =~= seq![')']);
    }
    r
}

/// Asked whether there is a file of that name, `exists_file` gave that answer.
pub open spec fn answered<F: Fn(&str) -> bool>(exists_file: F, name: Seq<char>, answer: bool) -> bool {
    exists|s: &str| s@ == name && #[trigger] exists_file.ensures((s,), answer)
}

/// Of the names that are tried, the one with that number is the first for which there
/// was no file.
pub open spec fn picked<F: Fn(&str) -> bool>(
    exists_file: F,
    name: Seq<char>,
    n: nat,
    r: Seq<char>,
) -> bool {
    &&& n < NAME_TRIES
    &&& r == candidate(name, n)
    &&& answered(exists_file, r, false)
    &&& all_taken(exists_file, name, n)
}

/// The name is the first of those that are tried for which there was no file.
pub open spec fn first_free<F: Fn(&str) -> bool>(
    exists_file: F,
    name: Seq<char>,
    r: Seq<char>,
) -> bool {
    exists|n: nat| #[trigger] picked(exists_file, name, n, r)
}

/// There was a file for each of the first `n` names that are tried.
pub open spec fn all_taken<F: Fn(&str) -> bool>(exists_file: F, name: Seq<char>, n: nat) -> bool {
    forall|j: nat| j < n ==> answered(exists_file, #[trigger] candidate(name, j), true)
}

/// Avoids writing over an existing file by putting a number behind its name. Gives a
/// name for which there was no file, or none where there was one for each name that is
/// tried.
pub fn unique_path<F: Fn(&str) -> bool>(name: &str, exists_file: F) -> (r: Option<String>)
    requires
        forall|s: &str| #[trigger] exists_file.requires((s,)),
    ensures
        r matches Some(s) ==> first_free(exists_file, name@, s@),
        r is None ==> all_taken(exists_file, name@, NAME_TRIES as nat),
{
    let mut n: u32 = 0;
    while n < NAME_TRIES
        invariant
            n <= NAME_TRIES,
            forall|s: &str| #[trigger] exists_file.requires((s,)),
            all_taken(exists_file, name@, n as nat),
        decreases NAME_TRIES - n,
    {
        let cand = candidate_name(name, n);
        let taken: bool = exists_file(cand.as_str());
        if !taken {
            assert(picked(exists_file, name@, n as nat, cand@));
            return Some(cand);
        }
        n = n + 1;
    }
    None
}

/// A file that is being received: its name, the bytes that have come, and those
/// that were announced.
pub ghost struct Transfer {
    pub name: Seq<char>,
    pub received: u64,
    pub total: u64,
}

struct OpenFile {
    name: String,
    received: u64,
    total: u64,
}

impl View for OpenFile {
    type V = Transfer;

    closed spec fn view(&self) -> Transfer {
        Transfer { name: self.name@, received: self.received, total: self.total }
    }
}

/// What is to be done with a file.
#[derive(Debug, PartialEq)]
pub enum FileAction {
    /// Create a file of that name, or of one that is not taken yet.
    Create { id: u32, name: String, size: u64 },
    /// Write the data of the message to the file.
    Write { id: u32 },
    /// The file is complete.
    Close { id: u32, name: String, received: u64, total: u64 },
    Nothing,
}

/// What is to be done with a file, the name as its characters.
pub ghost enum FileStep {
    Create { id: u32, name: Seq<char>, size: u64 },
    Write { id: u32 },
    Close { id: u32, name: Seq<char>, received: u64, total: u64 },
    Nothing,
}

impl View for FileAction {
    type V = FileStep;

    open spec fn view(&self) -> FileStep {
        match *self {
            FileAction::Create { id, name, size } => FileStep::Create { id, name: name@, size },
            FileAction::Write { id } => FileStep::Write { id },
            FileAction::Close { id, name, received, total } => FileStep::Close {
                id,
                name: name@,
                received,
                total,
            },
            FileAction::Nothing => FileStep::Nothing,
        }
    }
}

/// What a message makes of the files that are open, and what is to be done. A file
/// is open only once it has been created.
pub open spec fn file_step(open: Map<u32, Transfer>, msg: Message) -> (
    Map<u32, Transfer>,
    FileStep,
) {
    match msg {
        Message::FileStart { id, name, size } => (
            open,
            FileStep::Create { id, name: sanitized(name), size },
        ),
        Message::FileChunk { id, data } => if open.contains_key(id) {
            let t = open[id];
            let received = t.received.wrapping_add(data.len() as u64);
            (open.insert(id, Transfer { received, ..t }), FileStep::Write { id })
        } else {
            (open, FileStep::Nothing)
        },
        Message::FileEnd { id } => if open.contains_key(id) {
            let t = open[id];
            (
                open.remove(id),
                FileStep::Close { id, name: t.name, received: t.received, total: t.total },
            )
        } else {
            (open, FileStep::Nothing)
        },
        _ => (open, FileStep::Nothing),
    }
}

/// Follows the files that are being received.
pub struct FileReceiver {
    open: HashMap<u32, OpenFile>,
}

impl View for FileReceiver {
    type V = Map<u32, Transfer>;

    closed spec fn view(&self) -> Map<u32, Transfer> {
        self.open@.map_values(|f: OpenFile| f@)
    }
}

impl FileReceiver {
    pub fn new() -> (r: Self)
        ensures
            r@ == Map::<u32, Transfer>::empty(),
    {
        let r = FileReceiver { open: HashMap::new() };
        assert(r@ =~= Map::empty());
        r
    }

    /// Takes in a control message; one that is not about a file is ignored.
    pub fn handle(&mut self, msg: &ControlMsg) -> (r: FileAction)
        ensures
            (final(self)@, r@) == file_step(old(self)@, msg@),
    {
        let ghost before = self@;
        match msg {
            ControlMsg::FileStart { id, name, size } => FileAction::Create {
                id: *id,
                name: sanitize(name.as_str()),
                size: *size,
            },
            ControlMsg::FileChunk { id, data } => match self.open.remove(id) {
                Some(f) => {
                    let received: u64 = f.received.wrapping_add(data.len() as u64);
                    self.open.insert(*id, OpenFile { received, ..f });
                    assert(self@ =~= file_step(before, msg@).0);
                    FileAction::Write { id: *id }
                },
                None => {
                    assert(self@ =~= before);
                    FileAction::Nothing
                },
            },
            ControlMsg::FileEnd { id } => match self.open.remove(id) {
                Some(f) => {
                    assert(self@ =~= before.remove(*id));
                    FileAction::Close {
                        id: *id,
                        name: f.name,
                        received: f.received,
                        total: f.total,
                    }
                },
                None => {
                    assert(self@ =~= before);
                    FileAction::Nothing
                },
            },
            _ => FileAction::Nothing,
        }
    }

    /// A file has been created.
    pub fn opened(&mut self, id: u32, name: String, size: u64)
        ensures
            final(self)@ == old(self)@.insert(
                id,
                Transfer { name: name@, received: 0, total: size },
            ),
    {
        self.open.insert(id, OpenFile { name, received: 0, total: size });
        assert(self@ =~= old(self)@.insert(
            id,
            Transfer { name: name@, received: 0, total: size },
        ));
    }
}

/// What came of reading from a file.
pub enum ReadOutcome<'a> {
    /// Some bytes; none at the end of the file.
    Data(&'a [u8]),
    Failed,
}

/// The next message about a file that is being sent, and whether that was the last.
pub open spec fn send_step(id: u32, done: bool, read: Option<Seq<u8>>) -> (bool, Option<Message>) {
    if done {
        (true, None)
    } else {
        match read {
            Some(data) => if data.len() > 0 {
                (false, Some(Message::FileChunk { id, data }))
            } else {
                (true, Some(Message::FileEnd { id }))
            },
            None => (true, Some(Message::FileEnd { id })),
        }
    }
}

/// A file that is being sent, piece by piece.
pub struct FileSend {
    id: u32,
    done: bool,
}

impl FileSend {
    pub closed spec fn id(&self) -> u32 {
        self.id
    }

    /// The last message is out.
    pub closed spec fn done(&self) -> bool {
        self.done
    }

    /// Starts to send a file; the message says its name, or `file` if it has none,
    /// and its size.
    pub fn start(id: u32, name: Option<String>, size: u64) -> (r: (FileSend, ControlMsg))
        ensures
            r.0.id() == id,
            !r.0.done(),
            r.1@ == (Message::FileStart {
                id,
                name: match name {
                    Some(n) => n@,
                    None => "file"@,
                },
                size,
            }),
    {
        let name = match name {
            Some(n) => n,
            None => "file".to_owned(),
        };
        (FileSend { id, done: false }, ControlMsg::FileStart { id, name, size })
    }

    /// The message for what was read next. At the end of the file, or where reading
    /// fails, that is the last one.
    pub fn on_read(&mut self, read: ReadOutcome<'_>) -> (r: Option<ControlMsg>)
        ensures
            final(self).id() == old(self).id(),
            ({
                let data = match read {
                    ReadOutcome::Data(d) => Some(d@),
                    ReadOutcome::Failed => None,
                };
                let (done, msg) = send_step(old(self).id(), old(self).done(), data);
                &&& final(self).done() == done
                &&& r is Some <==> msg is Some
                &&& r matches Some(m) ==> Some(m@) == msg
            }),
    {
        if self.done {
            return None;
        }
        if let ReadOutcome::Data(d) = read {
            if d.len() > 0 {
                let data = copy_range(d, 0, d.len());
                assert(data@ =~= d@);
                return Some(ControlMsg::FileChunk { id: self.id, data });
            }
        }
        self.done = true;
        Some(ControlMsg::FileEnd { id: self.id })
    }
}

/// Numbers for files that are sent.
pub struct FileIds {
    next: u32,
}

impl View for FileIds {
    type V = u32;

    /// The next number.
    closed spec fn view(&self) -> u32 {
        self.next
    }
}

impl FileIds {
    /// The first number is 1.
    pub fn new() -> (r: Self)
        ensures
            r@ == 1,
    {
        FileIds { next: 1 }
    }

    /// A number for a file. After the largest comes 0.
    pub fn next_file_id(&mut self) -> (id: u32)
        ensures
            id == old(self)@,
            final(self)@ == old(self)@.wrapping_add(1),
    {
        let id: u32 = self.next;
        self.next = id.wrapping_add(1);
        id
    }
}

/// The text that is to be sent after a look at the clipboard: what is on it, while
/// sharing is on, unless it is empty or was the last one to pass.
pub open spec fn clipboard_change(
    enabled: bool,
    text: Option<Seq<char>>,
    last: Seq<char>,
) -> Option<Seq<char>> {
    match text {
        Some(t) => if enabled && t.len() > 0 && t != last {
            Some(t)
        } else {
            None
        },
        None => None,
    }
}

/// The last text to pass, after a look at the clipboard.
pub open spec fn after_look(enabled: bool, text: Option<Seq<char>>, last: Seq<char>) -> Seq<char> {
    match clipboard_change(enabled, text, last) {
        Some(t) => t,
        None => last,
    }
}

/// The text that is to be put on the clipboard for one from the peer: that text,
/// unless it was the last one to pass.
pub open spec fn remote_change(text: Seq<char>, last: Seq<char>) -> Option<Seq<char>> {
    if text == last {
        None
    } else {
        Some(text)
    }
}

/// The last text to pass, after one from the peer.
pub open spec fn after_remote(text: Seq<char>, last: Seq<char>) -> Seq<char> {
    text
}

/// Looks at the clipboard: gives the message for a text that is new, and remembers
/// it.
pub fn clipboard_changed(enabled: bool, text: Option<String>, last: &mut String) -> (r: Option<
    ControlMsg,
>)
    ensures
        ({
            let seen = match text {
                Some(t) => Some(t@),
                None => None,
            };
            &&& final(last)@ == after_look(enabled, seen, old(last)@)
            &&& match clipboard_change(enabled, seen, old(last)@) {
                Some(t) => r matches Some(m) && m@ == (Message::Clipboard { text: t }),
                None => r is None,
            }
        }),
{
    match text {
        Some(t) => {
            if !enabled || t.as_str().unicode_len() == 0 || t == *last {
                return None;
            }
            *last = t.clone();
            Some(ControlMsg::Clipboard { text: t })
        },
        None => None,
    }
}

/// Takes in a text from the peer's clipboard: gives the text to be put on the
/// clipboard, and remembers it.
pub fn apply_remote_clipboard(text: String, last: &mut String) -> (r: Option<String>)
    ensures
        final(last)@ == after_remote(text@, old(last)@),
        match remote_change(text@, old(last)@) {
            Some(t) => r matches Some(s) && s@ == t,
            None => r is None,
        },
{
    if *last == text {
        return None;
    }
    *last = text.clone();
    Some(text)
}

/// A sanitized name names a file within a directory: it is not empty, stands for no
/// directory, has no separator, and no white space at either end.
pub proof fn law_sanitized_is_a_name(name: Seq<char>)
    ensures
        sanitized(name).len() > 0,
        !only_dots(sanitized(name)),
        forall|i: int| 0 <= i < sanitized(name).len() ==> !is_separator(#[trigger] sanitized(name)[i]),
        !white_space(sanitized(name)[0]),
        !white_space(sanitized(name).last()),
{
    let segment = last_segment(name);
    lemma_last_segment(name);
    lemma_trimmed_part(segment);
    law_trimmed_ends(segment);
    reveal_strlit("file");
    assert("file"@.len() == 4);
    let (i, j) = choose|i: int, j: int|
        0 <= i <= j <= segment.len() && trimmed(segment) == #[trigger] segment.subrange(i, j);
    assert forall|k: int| 0 <= k < sanitized(name).len() implies !is_separator(
        #[trigger] sanitized(name)[k],
    ) by {
        if trimmed(segment).len() > 0 && !only_dots(trimmed(segment)) {
            assert(sanitized(name)[k] == segment[i + k]);
        }
    }
}

proof fn lemma_last_segment(s: Seq<char>)
    ensures
        forall|i: int|
            0 <= i < last_segment(s).len() ==> !is_separator(#[trigger] last_segment(s)[i]),
    decreases s.len(),
{
    if s.len() > 0 && !is_separator(s.last()) {
        let front = last_segment(s.drop_last());
        lemma_last_segment(s.drop_last());
        assert forall|i: int| 0 <= i < last_segment(s).len() implies !is_separator(
            #[trigger] last_segment(s)[i],
        ) by {
            if i < front.len() {
                assert(last_segment(s)[i] == front[i]);
            }
        }
    }
}

proof fn lemma_whole_segment(s: Seq<char>)
    requires
        forall|i: int| 0 <= i < s.len() ==> !is_separator(#[trigger] s[i]),
    ensures
        last_segment(s) == s,
    decreases s.len(),
{
    if s.len() > 0 {
        lemma_whole_segment(s.drop_last());
        assert(s.drop_last().push(s.last()) =~= s);
    }
}

/// A sanitized name stays as it is when it is sanitized again.
pub proof fn law_sanitize_twice(name: Seq<char>)
    ensures
        sanitized(sanitized(name)) == sanitized(name),
{
    law_sanitized_is_a_name(name);
    lemma_whole_segment(sanitized(name));
    law_trim_twice(last_segment(name));
    reveal_strlit("file");
}

/// Every name that is tried for a file is one within the same directory.
pub proof fn law_candidate_is_a_name(name: Seq<char>, n: nat)
    requires
        forall|i: int| 0 <= i < name.len() ==> !is_separator(#[trigger] name[i]),
    ensures
        forall|i: int|
            0 <= i < candidate(name, n).len() ==> !is_separator(#[trigger] candidate(name, n)[i]),
        n > 0 ==> !only_dots(candidate(name, n)),
{
    lemma_decimal_digits(n);
    lemma_last_dot(name);
    let c = candidate(name, n);
    if n > 0 {
        let a = stem(name);
        let b = a + seq![' ', '('] + decimal(n) + seq![')'];
        assert forall|i: int| 0 <= i < c.len() implies !is_separator(#[trigger] c[i]) by {
            if i < a.len() {
                assert(c[i] == a[i]);
            } else if i >= b.len() {
                assert(c[i] == dotted_extension(name)[i - b.len()]);
            } else if a.len() + 2 <= i < b.len() - 1 {
                assert(c[i] == decimal(n)[i - a.len() - 2]);
            }
        }
        assert(c.len() >= a.len() + 4);
    }
}

/// Different names are tried for a file, each of them once.
pub proof fn law_candidates_distinct(name: Seq<char>, m: nat, n: nat)
    requires
        candidate(name, m) == candidate(name, n),
    ensures
        m == n,
{
    lemma_last_dot(name);
    let a = stem(name);
    let e = dotted_extension(name);
    if m > 0 && n > 0 {
        let x = candidate(name, m);
        let y = candidate(name, n);
        assert(decimal(m) =~= x.subrange(a.len() as int + 2, x.len() - e.len() - 1));
        assert(decimal(n) =~= y.subrange(a.len() as int + 2, y.len() - e.len() - 1));
        law_decimal_distinct(m, n);
    } else if m != n {
        let k = if m > 0 {
            m
        } else {
            n
        };
        lemma_decimal_digits(k);
        assert(candidate(name, k).len() > name.len());
    }
}

proof fn lemma_last_dot(name: Seq<char>)
    ensures
        -1 <= last_dot(name) < name.len(),
        only_dots(name) ==> name.len() <= 2,
        !only_dots(name) ==> stem(name).len() + dotted_extension(name).len() == name.len(),
    decreases name.len(),
{
    if name.len() > 0 && name.last() != '.' {
        lemma_last_dot(name.drop_last());
    }
}

proof fn lemma_decimal_digits(n: nat)
    ensures
        decimal(n).len() > 0,
        forall|i: int| 0 <= i < decimal(n).len() ==> !is_separator(#[trigger] decimal(n)[i]),
    decreases n,
{
    if n >= 10 {
        lemma_decimal_digits(n / 10);
    }
}

/// What a message makes of the files that are open when every file can be created.
pub open spec fn receive_step(open: Map<u32, Transfer>, msg: Message) -> (
    Map<u32, Transfer>,
    FileStep,
) {
    let (after, step) = file_step(open, msg);
    match step {
        FileStep::Create { id, name, size } => (
            after.insert(id, Transfer { name, received: 0, total: size }),
            step,
        ),
        _ => (after, step),
    }
}

/// What messages make of the files that are open, and what is done for each.
pub open spec fn receive_steps(open: Map<u32, Transfer>, msgs: Seq<Message>) -> (
    Map<u32, Transfer>,
    Seq<FileStep>,
)
    decreases msgs.len(),
{
    if msgs.len() == 0 {
        (open, Seq::empty())
    } else {
        let (before, steps) = receive_steps(open, msgs.drop_last());
        let (after, step) = receive_step(before, msgs.last());
        (after, steps.push(step))
    }
}

/// The bytes that are written to the file `id`.
pub open spec fn written(id: u32, msgs: Seq<Message>, steps: Seq<FileStep>) -> Seq<u8>
    decreases msgs.len(),
{
    if msgs.len() == 0 {
        Seq::empty()
    } else {
        let before = written(id, msgs.drop_last(), steps.drop_last());
        match (msgs.last(), steps.last()) {
            (Message::FileChunk { id: _, data }, FileStep::Write { id: to }) => if to == id {
                before + data
            } else {
                before
            },
            _ => before,
        }
    }
}

/// The messages that the sender makes of the pieces that it reads from a file.
pub open spec fn pieces_sent(id: u32, pieces: Seq<Seq<u8>>) -> Seq<Message>
    decreases pieces.len(),
{
    if pieces.len() == 0 {
        Seq::empty()
    } else {
        let before = pieces_sent(id, pieces.drop_last());
        match send_step(id, false, Some(pieces.last())).1 {
            Some(msg) => before.push(msg),
            None => before,
        }
    }
}

/// A chunk message for each piece of a file.
pub open spec fn chunks_of(id: u32, pieces: Seq<Seq<u8>>) -> Seq<Message> {
    pieces.map_values(|data: Seq<u8>| Message::FileChunk { id, data })
}

/// All messages about a file, from its name to its end.
pub open spec fn file_sent(
    id: u32,
    name: Seq<char>,
    size: u64,
    pieces: Seq<Seq<u8>>,
) -> Seq<Message> {
    seq![Message::FileStart { id, name, size }] + chunks_of(id, pieces) + seq![
        Message::FileEnd { id },
    ]
}

/// The sender makes a chunk message of each piece that it reads, and the end message
/// once there is nothing more to read or reading fails.
pub proof fn law_sender_makes_chunks(id: u32, pieces: Seq<Seq<u8>>)
    requires
        forall|k: int| 0 <= k < pieces.len() ==> (#[trigger] pieces[k]).len() > 0,
    ensures
        pieces_sent(id, pieces) == chunks_of(id, pieces),
        send_step(id, false, Some(Seq::empty())) == (true, Some(Message::FileEnd { id })),
        send_step(id, false, None) == (true, Some(Message::FileEnd { id })),
    decreases pieces.len(),
{
    if pieces.len() > 0 {
        let front = pieces.drop_last();
        assert forall|k: int| 0 <= k < front.len() implies (#[trigger] front[k]).len() > 0 by {
            assert(front[k] == pieces[k]);
        }
        assert(pieces[pieces.len() - 1].len() > 0);
        law_sender_makes_chunks(id, front);
    }
    assert(pieces_sent(id, pieces) =~= chunks_of(id, pieces));
}

proof fn lemma_pieces(
    open: Map<u32, Transfer>,
    id: u32,
    name: Seq<char>,
    size: u64,
    pieces: Seq<Seq<u8>>,
)
    requires
        joined(pieces).len() <= u64::MAX,
    ensures
        ({
            let msgs = seq![Message::FileStart { id, name, size }] + chunks_of(id, pieces);
            let (after, steps) = receive_steps(open, msgs);
            &&& msgs.len() == pieces.len() + 1
            &&& steps.len() == msgs.len()
            &&& steps[0] == (FileStep::Create { id, name: sanitized(name), size })
            &&& after == open.insert(
                id,
                Transfer {
                    name: sanitized(name),
                    received: joined(pieces).len() as u64,
                    total: size,
                },
            )
            &&& written(id, msgs, steps) == joined(pieces)
        }),
    decreases pieces.len(),
{
    let start = seq![Message::FileStart { id, name, size }];
    let msgs = start + chunks_of(id, pieces);
    if pieces.len() == 0 {
        assert(msgs =~= start);
        assert(start.drop_last() =~= Seq::<Message>::empty());
        reveal_with_fuel(receive_steps, 2);
        reveal_with_fuel(written, 2);
    } else {
        let front = pieces.drop_last();
        let data = pieces.last();
        lemma_pieces(open, id, name, size, front);
        let before = start + chunks_of(id, front);
        assert(msgs.drop_last() =~= before);
        assert(msgs.last() == (Message::FileChunk { id, data }));
        let (after, steps) = receive_steps(open, msgs);
        assert(steps.drop_last() =~= receive_steps(open, before).1);
        assert(after =~= open.insert(
            id,
            Transfer {
                name: sanitized(name),
                received: joined(pieces).len() as u64,
                total: size,
            },
        ));
    }
}

proof fn lemma_file_alone(
    open: Map<u32, Transfer>,
    id: u32,
    name: Seq<char>,
    size: u64,
    pieces: Seq<Seq<u8>>,
)
    requires
        joined(pieces).len() <= u64::MAX,
    ensures
        ({
            let msgs = file_sent(id, name, size, pieces);
            let (after, steps) = receive_steps(open, msgs);
            &&& steps.len() == msgs.len()
            &&& steps[0] == (FileStep::Create { id, name: sanitized(name), size })
            &&& written(id, msgs, steps) == joined(pieces)
            &&& steps.last() == (FileStep::Close {
                id,
                name: sanitized(name),
                received: joined(pieces).len() as u64,
                total: size,
            })
            &&& after == open.remove(id)
        }),
{
    lemma_pieces(open, id, name, size, pieces);
    let msgs = file_sent(id, name, size, pieces);
    let before = seq![Message::FileStart { id, name, size }] + chunks_of(id, pieces);
    assert(msgs.drop_last() =~= before);
    assert(msgs.last() == (Message::FileEnd { id }));
    let (after, steps) = receive_steps(open, msgs);
    assert(steps.drop_last() =~= receive_steps(open, before).1);
    assert(after =~= open.remove(id));
}

/// The file that a message is about.
pub open spec fn file_of(msg: Message) -> Option<u32> {
    match msg {
        Message::FileStart { id, .. } => Some(id),
        Message::FileChunk { id, .. } => Some(id),
        Message::FileEnd { id } => Some(id),
        _ => None,
    }
}

/// Files that are received at the same time do not meddle with each other: a
/// message about one leaves every other as it is.
pub proof fn law_files_independent(open: Map<u32, Transfer>, msg: Message, id: u32)
    requires
        file_of(msg) != Some(id),
    ensures
        receive_step(open, msg).0.contains_key(id) == open.contains_key(id),
        open.contains_key(id) ==> receive_step(open, msg).0[id] == open[id],
        receive_step(open, msg).1 != (FileStep::Write { id }),
        file_of(msg) is None ==> receive_step(open, msg) == (open, FileStep::Nothing),
{
}

/// The messages about the file `id`, in order.
pub open spec fn about(msgs: Seq<Message>, id: u32) -> Seq<Message>
    decreases msgs.len(),
{
    if msgs.len() == 0 {
        Seq::empty()
    } else if file_of(msgs.last()) == Some(id) {
        about(msgs.drop_last(), id).push(msgs.last())
    } else {
        about(msgs.drop_last(), id)
    }
}

/// What is done for the messages about the file `id`, in order.
pub open spec fn done_for(msgs: Seq<Message>, steps: Seq<FileStep>, id: u32) -> Seq<FileStep>
    decreases msgs.len(),
{
    if msgs.len() == 0 {
        Seq::empty()
    } else if file_of(msgs.last()) == Some(id) {
        done_for(msgs.drop_last(), steps.drop_last(), id).push(steps.last())
    } else {
        done_for(msgs.drop_last(), steps.drop_last(), id)
    }
}

/// Messages about other things make no difference to a file.
proof fn lemma_others_apart(open: Map<u32, Transfer>, msgs: Seq<Message>, id: u32)
    ensures
        ({
            let (after, steps) = receive_steps(open, msgs);
            let (alone, own_steps) = receive_steps(open, about(msgs, id));
            &&& steps.len() == msgs.len()
            &&& own_steps.len() == about(msgs, id).len()
            &&& after.contains_key(id) == alone.contains_key(id)
            &&& after.contains_key(id) ==> after[id] == alone[id]
            &&& done_for(msgs, steps, id) == own_steps
            &&& written(id, msgs, steps) == written(id, about(msgs, id), own_steps)
        }),
    decreases msgs.len(),
{
    if msgs.len() > 0 {
        let front = msgs.drop_last();
        let msg = msgs.last();
        lemma_others_apart(open, front, id);
        let (before, steps) = receive_steps(open, front);
        let (alone, own_steps) = receive_steps(open, about(front, id));
        let (after, step) = receive_step(before, msg);
        assert(receive_steps(open, msgs).1.drop_last() =~= steps);
        if file_of(msg) == Some(id) {
            let own = about(front, id).push(msg);
            assert(own.drop_last() =~= about(front, id));
            assert(receive_step(alone, msg).1 == step);
            assert(receive_steps(open, own).1.drop_last() =~= own_steps);
        } else {
            law_files_independent(before, msg, id);
        }
    }
}

/// A file that is sent is received, also while other files are: let the messages about
/// it come between any others. However it is cut into pieces, empty ones among them, the
/// bytes that are written to it are those of the pieces, in order; the count of them is
/// right; and the file is closed at the end.
pub proof fn law_file_arrives(
    open: Map<u32, Transfer>,
    msgs: Seq<Message>,
    id: u32,
    name: Seq<char>,
    size: u64,
    pieces: Seq<Seq<u8>>,
)
    requires
        about(msgs, id) == file_sent(id, name, size, pieces),
        joined(pieces).len() <= u64::MAX,
    ensures
        ({
            let (after, steps) = receive_steps(open, msgs);
            let done = done_for(msgs, steps, id);
            &&& steps.len() == msgs.len()
            &&& done.len() == about(msgs, id).len()
            &&& done[0] == (FileStep::Create { id, name: sanitized(name), size })
            &&& written(id, msgs, steps) == joined(pieces)
            &&& done.last() == (FileStep::Close {
                id,
                name: sanitized(name),
                received: joined(pieces).len() as u64,
                total: size,
            })
            &&& !after.contains_key(id)
        }),
{
    lemma_file_alone(open, id, name, size, pieces);
    lemma_others_apart(open, msgs, id);
}

/// The number that is given out `k` calls after `first`.
pub open spec fn id_after(first: u32, k: nat) -> u32
    decreases k,
{
    if k == 0 {
        first
    } else {
        id_after(first, (k - 1) as nat).wrapping_add(1)
    }
}

/// No number is given out twice within 2^32 calls.
pub proof fn law_ids_distinct(first: u32, i: nat, j: nat)
    requires
        i < j < i + 0x1_0000_0000,
    ensures
        id_after(first, i) != id_after(first, j),
{
    lemma_id_after(first, i);
    lemma_id_after(first, j);
}

proof fn lemma_id_after(first: u32, k: nat)
    ensures
        id_after(first, k) == (first + k) % 0x1_0000_0000,
    decreases k,
{
    if k > 0 {
        lemma_id_after(first, (k - 1) as nat);
    }
}

/// A text does not come back. Once it has been sent, and once it has been taken in
/// from the peer, a look at a clipboard with that text on it sends nothing; and a
/// side that gets its own text back does not set its clipboard again.
pub proof fn law_no_echo(enabled: bool, text: Seq<char>, sender_last: Seq<char>, peer_last: Seq<char>)
    requires
        clipboard_change(true, Some(text), sender_last) == Some(text),
    ensures
        clipboard_change(enabled, Some(text), after_look(true, Some(text), sender_last)) is None,
        clipboard_change(enabled, Some(text), after_remote(text, peer_last)) is None,
        remote_change(text, after_look(true, Some(text), sender_last)) is None,
{
}

/// A piece of a file, sealed, leaves most of a control frame free: there is room for
/// 900,000 bytes that serialising may add to its data.
pub proof fn law_piece_fits()
    ensures
        NONCE_LEN + 900_000 + FILE_CHUNK + TAG_LEN <= CONTROL_MAX,
{
}

/// Parts of files go to the files, and clipboard texts to the clipboard, but only while it
/// is shared; nothing else goes to either.
pub proof fn law_routes(msg: &ControlMsg, clipboard: bool, r: SyncRoute)
    requires
        call_ensures(route_sync, (msg, clipboard), r),
    ensures
        r == SyncRoute::File <==> msg is FileStart || msg is FileChunk || msg is FileEnd,
        r == SyncRoute::Clipboard <==> msg is Clipboard && clipboard,
{
}

/// What follows the last separator is kept whole.
proof fn lemma_segment_behind(dir: Seq<char>, rest: Seq<char>)
    requires
        dir.len() > 0 ==> dir.last() == '/' || dir.last() == '\\',
        forall|i: int| 0 <= i < rest.len() ==> rest[i] != '/' && #[trigger] rest[i] != '\\',
    ensures
        last_segment(dir + rest) == rest,
    decreases rest.len(),
{
    let s = dir + rest;
    if rest.len() == 0 {
        assert(s =~= dir);
        assert(rest =~= Seq::<char>::empty());
    } else {
        let front = rest.drop_last();
        assert forall|i: int| 0 <= i < front.len() implies front[i] != '/' && #[trigger] front[i]
            != '\\' by {
            assert(front[i] == rest[i]);
        }
        lemma_segment_behind(dir, front);
        assert(s.drop_last() =~= dir + front);
        assert(s.last() == rest[rest.len() - 1]);
        assert(front.push(rest.last()) =~= rest);
    }
}

/// White space parts no directories.
proof fn lemma_white_space_apart(c: char)
    requires
        white_space(c),
    ensures
        c != '/',
        c != '\\',
        c != '.',
{
}

/// The name under which a file is received is the last part of the name that it was sent
/// with, whatever directories stand before it and white space around it. Where that is
/// blank or stands for a directory, the name is `file`.
pub proof fn law_sanitized(
    dir: Seq<char>,
    before: Seq<char>,
    base: Seq<char>,
    after: Seq<char>,
)
    requires
        dir.len() > 0 ==> dir.last() == '/' || dir.last() == '\\',
        forall|i: int| 0 <= i < before.len() ==> white_space(#[trigger] before[i]),
        forall|i: int| 0 <= i < after.len() ==> white_space(#[trigger] after[i]),
        forall|i: int| 0 <= i < base.len() ==> base[i] != '/' && #[trigger] base[i] != '\\',
        base.len() > 0 ==> !white_space(base[0]) && !white_space(base.last()),
    ensures
        base.len() == 0 || base == seq!['.'] || base == seq!['.', '.'] ==> sanitized(
            dir + before + base + after,
        ) == seq!['f', 'i', 'l', 'e'],
        base.len() > 0 && base != seq!['.'] && base != seq!['.', '.'] ==> sanitized(
            dir + before + base + after,
        ) == base,
{
    let rest = before + base + after;
    assert(dir + before + base + after =~= dir + rest);
    assert forall|i: int| 0 <= i < rest.len() implies rest[i] != '/' && #[trigger] rest[i]
        != '\\' by {
        if i < before.len() {
            assert(rest[i] == before[i]);
            lemma_white_space_apart(before[i]);
        } else if i < before.len() + base.len() {
            assert(rest[i] == base[i - before.len()]);
        } else {
            assert(rest[i] == after[i - before.len() - base.len()]);
            lemma_white_space_apart(after[i - before.len() - base.len()]);
        }
    }
    lemma_segment_behind(dir, rest);
    law_trimmed(before, base, after);
    reveal_strlit("file");
    assert("file"@ =~= seq!['f', 'i', 'l', 'e']);
}

/// Every name has such parts: directories, a last part, and white space around that.
pub proof fn law_name_parts(name: Seq<char>) -> (r: (Seq<char>, Seq<char>, Seq<char>, Seq<char>))
    ensures
        name == r.0 + r.1 + r.2 + r.3,
        r.0.len() > 0 ==> r.0.last() == '/' || r.0.last() == '\\',
        forall|i: int| 0 <= i < r.1.len() ==> white_space(#[trigger] r.1[i]),
        forall|i: int| 0 <= i < r.3.len() ==> white_space(#[trigger] r.3[i]),
        forall|i: int| 0 <= i < r.2.len() ==> r.2[i] != '/' && #[trigger] r.2[i] != '\\',
        r.2.len() > 0 ==> !white_space(r.2[0]) && !white_space(r.2.last()),
{
    let segment = last_segment(name);
    let dir = lemma_directories(name);
    lemma_last_segment(name);
    let (before, base, after) = lemma_trim_parts(segment);
    assert(name =~= dir + before + base + after);
    assert forall|i: int| 0 <= i < base.len() implies base[i] != '/' && #[trigger] base[i]
        != '\\' by {
        assert(base[i] == segment[before.len() + i]);
    }
    (dir, before, base, after)
}

proof fn lemma_directories(name: Seq<char>) -> (dir: Seq<char>)
    ensures
        name == dir + last_segment(name),
        dir.len() > 0 ==> dir.last() == '/' || dir.last() == '\\',
    decreases name.len(),
{
    if name.len() == 0 || is_separator(name.last()) {
        assert(name =~= name + last_segment(name));
        name
    } else {
        let dir = lemma_directories(name.drop_last());
        assert(name =~= name.drop_last().push(name.last()));
        assert(name =~= dir + last_segment(name));
        dir
    }
}

/// The same of a call: a file is received under the last part of the name, or as `file`.
pub proof fn law_sanitize(
    name: &str,
    r: String,
    dir: Seq<char>,
    before: Seq<char>,
    base: Seq<char>,
    after: Seq<char>,
)
    requires
        call_ensures(sanitize, (name,), r),
        name@ == dir + before + base + after,
        dir.len() > 0 ==> dir.last() == '/' || dir.last() == '\\',
        forall|i: int| 0 <= i < before.len() ==> white_space(#[trigger] before[i]),
        forall|i: int| 0 <= i < after.len() ==> white_space(#[trigger] after[i]),
        forall|i: int| 0 <= i < base.len() ==> base[i] != '/' && #[trigger] base[i] != '\\',
        base.len() > 0 ==> !white_space(base[0]) && !white_space(base.last()),
    ensures
        base.len() == 0 || base == seq!['.'] || base == seq!['.', '.'] ==> r@ == seq![
            'f',
            'i',
            'l',
            'e',
        ],
        base.len() > 0 && base != seq!['.'] && base != seq!['.', '.'] ==> r@ == base,
{
    law_sanitized(dir, before, base, after);
}

/// Where the last dot stands.
proof fn lemma_dot_at(name: Seq<char>, at: int)
    requires
        -1 <= at < name.len(),
        at >= 0 ==> name[at] == '.',
        forall|i: int| at < i < name.len() ==> #[trigger] name[i] != '.',
    ensures
        last_dot(name) == at,
    decreases name.len(),
{
    if name.len() > 0 {
        let front = name.drop_last();
        if at < name.len() - 1 {
            assert(name[name.len() - 1] != '.');
            assert forall|i: int| at < i < front.len() implies #[trigger] front[i] != '.' by {
                assert(front[i] == name[i]);
            }
            lemma_dot_at(front, at);
        }
    }
}

/// The names that are tried for a file with an extension: the number stands in brackets
/// behind the stem, with a space before it, and the extension stays at the end.
pub proof fn law_candidate_with_extension(
    name: &str,
    n: u32,
    r: String,
    before_dot: Seq<char>,
    behind_dot: Seq<char>,
)
    requires
        call_ensures(candidate_name, (name, n), r),
        name@ == before_dot + seq!['.'] + behind_dot,
        before_dot.len() > 0,
        forall|i: int| 0 <= i < behind_dot.len() ==> #[trigger] behind_dot[i] != '.',
        name@ != seq!['.', '.'],
    ensures
        n == 0 ==> r@ == name@,
        n > 0 ==> r@ == before_dot + seq![' ', '('] + decimal(n as nat) + seq![')', '.']
            + behind_dot,
{
    let s = name@;
    let at = before_dot.len() as int;
    assert forall|i: int| at < i < s.len() implies #[trigger] s[i] != '.' by {
        assert(s[i] == behind_dot[i - at - 1]);
    }
    lemma_dot_at(s, at);
    assert(s.len() >= 2);
    assert(s != seq!['.']) by {
        assert(seq!['.'].len() == 1);
    }
    assert(s.take(at) =~= before_dot);
    assert(s.skip(at) =~= seq!['.'] + behind_dot);
    if n > 0 {
        assert(r@ =~= before_dot + seq![' ', '('] + decimal(n as nat) + seq![')', '.']
            + behind_dot);
    }
}

/// The names that are tried for a file without an extension, also where a dot begins the
/// name: the number stands in brackets at the end, with a space before it.
pub proof fn law_candidate_without_extension(name: &str, n: u32, r: String)
    requires
        call_ensures(candidate_name, (name, n), r),
        forall|i: int| 1 <= i < name@.len() ==> #[trigger] name@[i] != '.',
        name@ != seq!['.'],
    ensures
        n == 0 ==> r@ == name@,
        n > 0 ==> r@ == name@ + seq![' ', '('] + decimal(n as nat) + seq![')'],
{
    let s = name@;
    let at = if s.len() > 0 && s[0] == '.' {
        0int
    } else {
        -1
    };
    lemma_dot_at(s, at);
    if s == seq!['.', '.'] {
        assert(s[1] == '.');
    }
    if n > 0 {
        assert(r@ =~= s + seq![' ', '('] + decimal(n as nat) + seq![')']);
    }
}

/// No file is written over: the name that is given is one for which there was no file, it
/// is the first of those that are tried, and there was a file for each of the names before
/// it. Ten thousand names are tried, the name itself first; none is given only if there was
/// a file for each.
pub proof fn law_first_free<F: Fn(&str) -> bool>(name: &str, exists_file: F, r: Option<String>)
    requires
        call_ensures(unique_path::<F>, (name, exists_file), r),
    ensures
        r matches Some(s) ==> exists|n: nat|
            {
                &&& n < 10_000
                &&& s@ == #[trigger] candidate(name@, n)
                &&& answered(exists_file, s@, false)
                &&& forall|j: nat|
                    j < n ==> answered(exists_file, #[trigger] candidate(name@, j), true)
            },
        r is None ==> forall|j: nat|
            j < 10_000 ==> answered(exists_file, #[trigger] candidate(name@, j), true),
{
    if let Some(s) = r {
        let n = choose|n: nat| #[trigger] picked(exists_file, name@, n, s@);
        assert(s@ == candidate(name@, n));
    }
}

/// An answer about a name is one that was given when just that name was asked about.
pub proof fn law_answered<F: Fn(&str) -> bool>(exists_file: F, name: Seq<char>, answer: bool)
    ensures
        answered(exists_file, name, answer) <==> exists|asked: &str|
            asked@ == name && #[trigger] exists_file.ensures((asked,), answer),
{
}

/// What is done for a message about a file. A start asks for a file under the cleaned name
/// and the size that were sent. A chunk is written if its file is open, and counted there
/// and nowhere else, in 64 bits; the end closes the file with its name, the bytes that
/// came and those that were announced. A chunk or an end of a file that is not open does
/// nothing, nor does any other message.
pub proof fn law_file_message(
    fresh: FileReceiver,
    receiver: &mut FileReceiver,
    msg: &ControlMsg,
    r: FileAction,
)
    requires
        call_ensures(FileReceiver::new, (), fresh),
        call_ensures(FileReceiver::handle, (receiver, msg), r),
    ensures
        fresh@ == Map::<u32, Transfer>::empty(),
        match *msg {
            ControlMsg::FileStart { id, name, size } => {
                &&& final(receiver)@ == old(receiver)@
                &&& r matches FileAction::Create { id: to, name: under, size: bytes }
                &&& to == id
                &&& under@ == sanitized(name@)
                &&& bytes == size
            },
            ControlMsg::FileChunk { id, data } => if old(receiver)@.contains_key(id) {
                let t = old(receiver)@[id];
                let u = final(receiver)@[id];
                &&& r matches FileAction::Write { id: to }
                &&& to == id
                &&& final(receiver)@.contains_key(id)
                &&& u.name == t.name
                &&& u.total == t.total
                &&& u.received == (t.received + data@.len()) % 0x1_0000_0000_0000_0000
                &&& final(receiver)@.remove(id) == old(receiver)@.remove(id)
            } else {
                r is Nothing && final(receiver)@ == old(receiver)@
            },
            ControlMsg::FileEnd { id } => if old(receiver)@.contains_key(id) {
                let t = old(receiver)@[id];
                &&& r matches FileAction::Close { id: to, name, received, total }
                &&& to == id
                &&& name@ == t.name
                &&& received == t.received
                &&& total == t.total
                &&& !final(receiver)@.contains_key(id)
                &&& final(receiver)@.remove(id) == old(receiver)@.remove(id)
            } else {
                r is Nothing && final(receiver)@ == old(receiver)@
            },
            _ => r is Nothing && final(receiver)@ == old(receiver)@,
        },
{
    match *msg {
        ControlMsg::FileChunk { id, data } => {
            assert(data@.len() == data.len());
            assert(final(receiver)@.remove(id) =~= old(receiver)@.remove(id));
        },
        ControlMsg::FileEnd { id } => {
            assert(final(receiver)@.remove(id) =~= old(receiver)@.remove(id));
        },
        _ => {},
    }
}

/// A file that has been created is open, with nothing received of what was announced; the
/// others stay as they are.
pub proof fn law_file_opened(receiver: &mut FileReceiver, id: u32, name: String, size: u64)
    requires
        call_ensures(FileReceiver::opened, (receiver, id, name, size), ()),
    ensures
        final(receiver)@.contains_key(id),
        final(receiver)@[id].name == name@,
        final(receiver)@[id].received == 0,
        final(receiver)@[id].total == size,
        final(receiver)@.remove(id) == old(receiver)@.remove(id),
{
    assert(final(receiver)@.remove(id) =~= old(receiver)@.remove(id));
}

/// A file is announced with its number, its name, or `file` if it has none, and its size.
/// Then each piece that is read is sent as it is under that number. When there is nothing
/// more to read, or reading fails, the end is sent, once, and nothing after it.
pub proof fn law_file_pieces(
    id: u32,
    name: Option<String>,
    size: u64,
    started: (FileSend, ControlMsg),
    send: &mut FileSend,
    read: ReadOutcome<'_>,
    r: Option<ControlMsg>,
)
    requires
        call_ensures(FileSend::start, (id, name, size), started),
        call_ensures(FileSend::on_read, (send, read), r),
    ensures
        started.0.id() == id,
        !started.0.done(),
        started.1 matches ControlMsg::FileStart { id: n, name: under, size: bytes } && n == id
            && bytes == size && under@ == (match name {
            Some(t) => t@,
            None => seq!['f', 'i', 'l', 'e'],
        }),
        final(send).id() == old(send).id(),
        old(send).done() ==> r is None && final(send).done(),
        !old(send).done() ==> match read {
            ReadOutcome::Data(d) => if d@.len() > 0 {
                &&& r matches Some(ControlMsg::FileChunk { id: n, data })
                &&& n == old(send).id()
                &&& data@ == d@
                &&& !final(send).done()
            } else {
                r matches Some(ControlMsg::FileEnd { id: n }) && n == old(send).id()
                    && final(send).done()
            },
            ReadOutcome::Failed => r matches Some(ControlMsg::FileEnd { id: n }) && n == old(
                send,
            ).id() && final(send).done(),
        },
{
    reveal_strlit("file");
    assert("file"@ =~= seq!['f', 'i', 'l', 'e']);
    if let Some(m) = r {
        assert(m@ is FileChunk ==> m is FileChunk);
        assert(m@ is FileEnd ==> m is FileEnd);
    }
}

/// Files are numbered one after the other from 1 on; after the largest number comes 0.
pub proof fn law_file_numbers(fresh: FileIds, ids: &mut FileIds, id: u32)
    requires
        call_ensures(FileIds::new, (), fresh),
        call_ensures(FileIds::next_file_id, (ids,), id),
    ensures
        fresh@ == 1,
        id == old(ids)@,
        final(ids)@ == (id + 1) % 0x1_0000_0000,
{
}

/// Every new text is shared: while sharing is on, a text that is not empty and is not the
/// last one that passed is sent, just as it is, and is the last one from then on. Nothing
/// else is sent, and otherwise the last one stays.
pub proof fn law_new_text_sent(
    enabled: bool,
    text: Option<String>,
    last: &mut String,
    r: Option<ControlMsg>,
)
    requires
        call_ensures(clipboard_changed, (enabled, text, last), r),
    ensures
        enabled && text is Some && text->0@.len() > 0 && text->0@ != old(last)@ ==> {
            &&& r matches Some(ControlMsg::Clipboard { text: t })
            &&& t@ == text->0@
            &&& final(last)@ == text->0@
        },
        !enabled || text is None || text->0@.len() == 0 || text->0@ == old(last)@ ==> r is None
            && final(last)@ == old(last)@,
{
    if let Some(m) = r {
        assert(m@ is Clipboard ==> m is Clipboard);
    }
}

/// A text from the peer is put on the clipboard, just as it is, unless it is the last one
/// that passed; and it is the last one from then on.
pub proof fn law_remote_text_taken(text: String, last: &mut String, r: Option<String>)
    requires
        call_ensures(apply_remote_clipboard, (text, last), r),
    ensures
        final(last)@ == text@,
        text@ != old(last)@ ==> r is Some && r->0@ == text@,
        text@ == old(last)@ ==> r is None,
{
}

/// Both clipboards come to hold one text, and it does not come back. A new text is sent; a
/// peer that has not just had it puts it on its clipboard; the next look at either
/// clipboard sends nothing; and if it were sent back, it would not be set again.
pub proof fn law_clipboards_agree(
    text: String,
    here: &mut String,
    sent: Option<ControlMsg>,
    arrived: String,
    there: &mut String,
    set: Option<String>,
    peer: &mut String,
    back: Option<ControlMsg>,
    own: &mut String,
    again: Option<ControlMsg>,
    returned: &mut String,
    reset: Option<String>,
)
    requires
        text@.len() > 0,
        text@ != old(here)@,
        call_ensures(clipboard_changed, (true, Some(text), here), sent),
        sent matches Some(ControlMsg::Clipboard { text: t }) ==> arrived@ == t@,
        old(there)@ != text@,
        call_ensures(apply_remote_clipboard, (arrived, there), set),
        old(peer)@ == final(there)@,
        call_ensures(clipboard_changed, (true, set, peer), back),
        old(own)@ == final(here)@,
        call_ensures(clipboard_changed, (true, Some(text), own), again),
        old(returned)@ == final(here)@,
        call_ensures(apply_remote_clipboard, (arrived, returned), reset),
    ensures
        sent is Some,
        set matches Some(t) && t@ == text@,
        back is None,
        again is None,
        reset is None,
{
    law_new_text_sent(true, Some(text), here, sent);
}

/// A piece of a file has at most 48 times 1024 bytes.
pub proof fn law_piece_size()
    ensures
        FILE_CHUNK == 48 * 1024,
{
}

} // verus!
