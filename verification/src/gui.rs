//! What the control window knows and decides: hosting, connection attempts and
//! sessions.

use vstd::prelude::*;
use vstd::string::*;

use crate::proto::CONTROL_PORT;
use crate::text::{decimal, law_blank, law_trimmed, numbered, trim, trimmed, white_space};

verus! {

/// Frame rates that can be set, in frames per second.
pub const FPS_MIN: u32 = 5;

pub const FPS_MAX: u32 = 60;

/// Bit rates that can be set, in million bits per second.
pub const BITRATE_MIN: u32 = 1;

pub const BITRATE_MAX: u32 = 50;

#[derive(Debug, Clone, Copy, PartialEq, Eq, Structural)]
pub enum Tab {
    Host,
    Connect,
}

/// A viewer session, shown in a window of its own.
#[derive(Debug, PartialEq)]
pub struct Session {
    pub id: u64,
    pub label: String,
}

/// A session as its number and its label.
pub ghost struct SessionView {
    pub id: u64,
    pub label: Seq<char>,
}

impl View for Session {
    type V = SessionView;

    open spec fn view(&self) -> SessionView {
        SessionView { id: self.id, label: self.label@ }
    }
}

/// What has come of a connection attempt.
#[derive(Debug, PartialEq)]
pub enum ConnectOutcome {
    Connected,
    Failed { error: String },
    /// Nothing yet.
    Waiting,
    /// The attempt ended without a word.
    Lost,
}

/// What has come of a connection attempt, the error as its characters.
pub ghost enum Outcome {
    Connected,
    Failed { error: Seq<char> },
    Waiting,
    Lost,
}

impl View for ConnectOutcome {
    type V = Outcome;

    open spec fn view(&self) -> Outcome {
        match *self {
            ConnectOutcome::Connected => Outcome::Connected,
            ConnectOutcome::Failed { error } => Outcome::Failed { error: error@ },
            ConnectOutcome::Waiting => Outcome::Waiting,
            ConnectOutcome::Lost => Outcome::Lost,
        }
    }
}

/// With what to host.
#[derive(Debug, PartialEq)]
pub struct HostRequest {
    pub bind: String,
    pub port: u16,
    pub fps: u32,
    pub bitrate: u32,
    pub password: String,
    pub clipboard: bool,
}

/// To what to connect.
#[derive(Debug, PartialEq)]
pub struct ConnectRequest {
    pub host: String,
    pub port: u16,
    pub password: String,
}

/// What is to be stopped when the program ends.
#[derive(Debug, PartialEq)]
pub struct ExitPlan {
    pub stop_host: bool,
    pub sessions: Vec<u64>,
}

/// The state of the control window.
#[derive(Debug, PartialEq)]
pub struct App {
    pub tab: Tab,
    pub fps: u32,
    pub bitrate: u32,
    pub host_password: String,
    pub host_clipboard: bool,
    pub local_ip: String,
    pub hosting: bool,
    pub host_ip: String,
    pub view_password: String,
    pub connect_error: Option<String>,
    /// The labels of the connection attempts that are under way.
    pub pending: Vec<String>,
    pub sessions: Vec<Session>,
    pub next_session: u64,
}

/// The state of the control window, its texts as characters.
pub ghost struct AppView {
    pub tab: Tab,
    pub fps: u32,
    pub bitrate: u32,
    pub host_password: Seq<char>,
    pub host_clipboard: bool,
    pub local_ip: Seq<char>,
    pub hosting: bool,
    pub host_ip: Seq<char>,
    pub view_password: Seq<char>,
    pub connect_error: Option<Seq<char>>,
    pub pending: Seq<Seq<char>>,
    pub sessions: Seq<SessionView>,
    pub next_session: u64,
}

/// The characters of texts.
pub open spec fn texts(v: Seq<String>) -> Seq<Seq<char>> {
    Seq::new(v.len(), |i: int| v[i]@)
}

/// Sessions as their numbers and labels.
pub open spec fn session_views(v: Seq<Session>) -> Seq<SessionView> {
    Seq::new(v.len(), |i: int| v[i]@)
}

/// Outcomes with their errors as characters.
pub open spec fn outcome_views(v: Seq<ConnectOutcome>) -> Seq<Outcome> {
    Seq::new(v.len(), |i: int| v[i]@)
}

/// The characters of a text, if there is one.
pub open spec fn text_of(s: Option<String>) -> Option<Seq<char>> {
    match s {
        Some(t) => Some(t@),
        None => None,
    }
}

impl View for App {
    type V = AppView;

    open spec fn view(&self) -> AppView {
        AppView {
            tab: self.tab,
            fps: self.fps,
            bitrate: self.bitrate,
            host_password: self.host_password@,
            host_clipboard: self.host_clipboard,
            local_ip: self.local_ip@,
            hosting: self.hosting,
            host_ip: self.host_ip@,
            view_password: self.view_password@,
            connect_error: text_of(self.connect_error),
            pending: texts(self.pending@),
            sessions: session_views(self.sessions@),
            next_session: self.next_session,
        }
    }
}

/// The state at the start, with the address of this machine.
pub open spec fn initial(local_ip: Seq<char>) -> AppView {
    AppView {
        tab: Tab::Connect,
        fps: 30,
        bitrate: 8,
        host_password: Seq::empty(),
        host_clipboard: false,
        local_ip,
        hosting: false,
        host_ip: Seq::empty(),
        view_password: Seq::empty(),
        connect_error: None,
        pending: Seq::empty(),
        sessions: Seq::empty(),
        next_session: 0,
    }
}

/// A connection attempt with that label failed with that error.
pub open spec fn failure(label: Seq<char>, error: Seq<char>) -> Seq<char> {
    "Connect to "@ + label + " failed: "@ + error
}

/// A connection attempt with that label ended without a word.
pub open spec fn loss(label: Seq<char>) -> Seq<char> {
    "Connect to "@ + label + " failed"@
}

/// The labels of the attempts that have no outcome yet, each outcome that of the
/// attempt in its place.
pub open spec fn still_pending(labels: Seq<Seq<char>>, outcomes: Seq<Outcome>) -> Seq<Seq<char>>
    decreases outcomes.len(),
{
    if outcomes.len() == 0 {
        Seq::empty()
    } else {
        let front = still_pending(labels, outcomes.drop_last());
        if outcomes.last() is Waiting {
            front.push(labels[outcomes.len() - 1])
        } else {
            front
        }
    }
}

/// The sessions that come of the attempts that connected, numbered from `first`.
pub open spec fn new_sessions(
    labels: Seq<Seq<char>>,
    outcomes: Seq<Outcome>,
    first: u64,
) -> Seq<SessionView>
    decreases outcomes.len(),
{
    if outcomes.len() == 0 {
        Seq::empty()
    } else {
        let front = new_sessions(labels, outcomes.drop_last(), first);
        if outcomes.last() is Connected {
            front.push(
                SessionView {
                    id: (first + front.len()) as u64,
                    label: labels[outcomes.len() - 1],
                },
            )
        } else {
            front
        }
    }
}

/// The error that is shown after the outcomes: that of the last attempt that ended,
/// and none if that one connected.
pub open spec fn error_after(
    before: Option<Seq<char>>,
    labels: Seq<Seq<char>>,
    outcomes: Seq<Outcome>,
) -> Option<Seq<char>>
    decreases outcomes.len(),
{
    if outcomes.len() == 0 {
        before
    } else {
        let label = labels[outcomes.len() - 1];
        match outcomes.last() {
            Outcome::Connected => None,
            Outcome::Failed { error } => Some(failure(label, error)),
            Outcome::Waiting => error_after(before, labels, outcomes.drop_last()),
            Outcome::Lost => Some(loss(label)),
        }
    }
}

/// What the outcomes of all attempts make of the state.
pub open spec fn settled(s: AppView, outcomes: Seq<Outcome>) -> AppView {
    let gained = new_sessions(s.pending, outcomes, s.next_session);
    AppView {
        pending: still_pending(s.pending, outcomes),
        sessions: s.sessions + gained,
        next_session: (s.next_session + gained.len()) as u64,
        connect_error: error_after(s.connect_error, s.pending, outcomes),
        ..s
    }
}

/// The state without the sessions that have one of the numbers.
pub open spec fn without(sessions: Seq<SessionView>, ids: Seq<u64>) -> Seq<SessionView>
    decreases sessions.len(),
{
    if sessions.len() == 0 {
        Seq::empty()
    } else {
        let front = without(sessions.drop_last(), ids);
        if ids.contains(sessions.last().id) {
            front
        } else {
            front.push(sessions.last())
        }
    }
}

/// The numbers of the sessions that have one of the numbers.
pub open spec fn among(sessions: Seq<SessionView>, ids: Seq<u64>) -> Seq<u64>
    decreases sessions.len(),
{
    if sessions.len() == 0 {
        Seq::empty()
    } else {
        let front = among(sessions.drop_last(), ids);
        if ids.contains(sessions.last().id) {
            front.push(sessions.last().id)
        } else {
            front
        }
    }
}

/// `v`, held between the two bounds.
pub open spec fn held(v: u32, low: u32, high: u32) -> u32 {
    if v < low {
        low
    } else if v > high {
        high
    } else {
        v
    }
}

fn hold(v: u32, low: u32, high: u32) -> (r: u32)
    ensures
        r == held(v, low, high),
{
    if v < low {
        low
    } else if v > high {
        high
    } else {
        v
    }
}

fn contains_id(ids: &Vec<u64>, id: u64) -> (r: bool)
    ensures
        r == ids@.contains(id),
{
    let mut i: usize = 0;
    while i < ids.len()
        invariant
            i <= ids@.len(),
            forall|j: int| 0 <= j < i ==> ids@[j] != id,
        decreases ids@.len() - i,
    {
        if ids[i] == id {
            return true;
        }
        i = i + 1;
    }
    false
}

impl App {
    /// The state at the start, with the address of this machine.
    pub fn new(local_ip: String) -> (r: Self)
        ensures
            r@ == initial(local_ip@),
    {
        let r = App {
            tab: Tab::Connect,
            fps: 30,
            bitrate: 8,
            host_password: String::new(),
            host_clipboard: false,
            local_ip,
            hosting: false,
            host_ip: String::new(),
            view_password: String::new(),
            connect_error: None,
            pending: Vec::new(),
            sessions: Vec::new(),
            next_session: 0,
        };
        assert(r@.pending =~= Seq::empty());
        assert(r@.sessions =~= Seq::empty());
        r
    }

    pub fn select_tab(&mut self, tab: Tab)
        ensures
            final(self)@ == (AppView { tab, ..old(self)@ }),
    {
        self.tab = tab;
    }

    /// Sets frame rate and bit rate, each held between its bounds.
    pub fn set_rates(&mut self, fps: u32, bitrate: u32)
        ensures
            final(self)@ == (AppView {
                fps: held(fps, FPS_MIN, FPS_MAX),
                bitrate: held(bitrate, BITRATE_MIN, BITRATE_MAX),
                ..old(self)@
            }),
    {
        self.fps = hold(fps, FPS_MIN, FPS_MAX);
        self.bitrate = hold(bitrate, BITRATE_MIN, BITRATE_MAX);
    }

    /// Starts to host, on all interfaces.
    pub fn start_hosting(&mut self) -> (r: HostRequest)
        ensures
            final(self)@ == (AppView { hosting: true, ..old(self)@ }),
            r.bind@ == "0.0.0.0"@,
            r.port == CONTROL_PORT,
            r.fps == old(self)@.fps,
            r.bitrate == old(self)@.bitrate,
            r.password@ == old(self)@.host_password,
            r.clipboard == old(self)@.host_clipboard,
    {
        self.hosting = true;
        HostRequest {
            bind: "0.0.0.0".to_owned(),
            port: CONTROL_PORT,
            fps: self.fps,
            bitrate: self.bitrate,
            password: self.host_password.clone(),
            clipboard: self.host_clipboard,
        }
    }

    pub fn stop_hosting(&mut self)
        ensures
            final(self)@ == (AppView { hosting: false, ..old(self)@ }),
    {
        self.hosting = false;
    }

    /// The line that says what the host does: what it says itself while it runs.
    pub fn host_line(&self, status: &str) -> (r: String)
        ensures
            r@ == "● "@ + (if self@.hosting {
                status@
            } else {
                "Idle"@
            }),
    {
        let mut r = "● ".to_owned();
        if self.hosting {
            r.append(status);
        } else {
            r.append("Idle");
        }
        r
    }

    /// There is an address to connect to.
    pub fn can_connect(&self) -> (r: bool)
        ensures
            r == (trimmed(self@.host_ip).len() > 0),
    {
        trim(self.host_ip.as_str()).unicode_len() > 0
    }

    /// Starts a connection attempt to the address that was entered.
    pub fn start_connect(&mut self) -> (r: ConnectRequest)
        ensures
            final(self)@ == (AppView {
                connect_error: None,
                pending: old(self)@.pending.push(trimmed(old(self)@.host_ip)),
                ..old(self)@
            }),
            r.host@ == trimmed(old(self)@.host_ip),
            r.port == CONTROL_PORT,
            r.password@ == old(self)@.view_password,
    {
        let ghost before = self@;
        self.connect_error = None;
        let label = trim(self.host_ip.as_str()).to_owned();
        let host = label.clone();
        self.pending.push(label);
        assert(self@.pending =~= before.pending.push(trimmed(before.host_ip)));
        ConnectRequest { host, port: CONTROL_PORT, password: self.view_password.clone() }
    }

    /// Takes in what has come of the connection attempts, each outcome that of the
    /// attempt in its place. Those that connected become sessions; gives the numbers
    /// of these, in order.
    pub fn poll_pending(&mut self, outcomes: &Vec<ConnectOutcome>) -> (opened: Vec<u64>)
        requires
            outcomes@.len() == old(self)@.pending.len(),
            old(self)@.next_session + outcomes@.len() <= u64::MAX,
        ensures
            final(self)@ == settled(old(self)@, outcome_views(outcomes@)),
            opened@ == new_sessions(
                old(self)@.pending,
                outcome_views(outcomes@),
                old(self)@.next_session,
            ).map_values(|s: SessionView| s.id),
    {
        let ghost before = self@;
        let ghost labels = before.pending;
        let ghost first = before.next_session;
        let ghost views = outcome_views(outcomes@);
        let mut attempts: Vec<String> = Vec::new();
        std::mem::swap(&mut attempts, &mut self.pending);
        let mut opened: Vec<u64> = Vec::new();
        let mut i: usize = 0;
        proof {
            assert(views.take(0) =~= Seq::<Outcome>::empty());
            assert(texts(self.pending@) =~= Seq::<Seq<char>>::empty());
            assert(self@.sessions =~= before.sessions + new_sessions(labels, views.take(0), first));
            assert(texts(attempts@) =~= labels.skip(0));
            assert(opened@ =~= new_sessions(labels, views.take(0), first).map_values(
                |s: SessionView| s.id,
            ));
        }
        while i < outcomes.len()
            invariant
                i <= outcomes@.len(),
                views == outcome_views(outcomes@),
                outcomes@.len() == labels.len(),
                before.next_session == first,
                before.pending == labels,
                first + outcomes@.len() <= u64::MAX,
                attempts@.len() == outcomes@.len() - i,
                texts(attempts@) == labels.skip(i as int),
                new_sessions(labels, views.take(i as int), first).len() <= i,
                self@ == settled(before, views.take(i as int)),
                opened@ == new_sessions(labels, views.take(i as int), first).map_values(
                    |s: SessionView| s.id,
                ),
            decreases outcomes@.len() - i,
        {
            let ghost current = self@;
            let ghost gained = new_sessions(labels, views.take(i as int), first);
            let ghost left = texts(attempts@);
            let label = attempts.remove(0);
            proof {
                assert(left[0] == label@);
                assert(label@ == labels[i as int]);
                assert(texts(attempts@) =~= left.drop_first());
                assert(left.drop_first() =~= labels.skip(i + 1));
                assert(views.take(i + 1).drop_last() =~= views.take(i as int));
                assert(views.take(i + 1).last() == outcomes@[i as int]@);
            }
            match &outcomes[i] {
                ConnectOutcome::Connected => {
                    let id: u64 = self.next_session;
                    self.next_session = id + 1;
                    opened.push(id);
                    self.sessions.push(Session { id, label });
                    self.connect_error = None;
                    proof {
                        let now = new_sessions(labels, views.take(i + 1), first);
                        let session = SessionView { id, label: label@ };
                        assert(now == gained.push(session));
                        assert(self@.sessions =~= current.sessions.push(session));
                        assert(self@.sessions =~= before.sessions + now);
                        assert(opened@ =~= now.map_values(|s: SessionView| s.id));
                    }
                },
                ConnectOutcome::Failed { error } => {
                    let mut text = "Connect to ".to_owned();
                    text.append(label.as_str());
                    text.append(" failed: ");
                    text.append(error.as_str());
                    self.connect_error = Some(text);
                },
                ConnectOutcome::Waiting => {
                    self.pending.push(label);
                    assert(self@.pending =~= current.pending.push(label@));
                },
                ConnectOutcome::Lost => {
                    let mut text = "Connect to ".to_owned();
                    text.append(label.as_str());
                    text.append(" failed");
                    self.connect_error = Some(text);
                },
            }
            i = i + 1;
        }
        assert(views.take(views.len() as int) =~= views);
        opened
    }

    /// The line about connection attempts, if some are under way.
    pub fn pending_line(&self) -> (r: Option<String>)
        ensures
            match r {
                Some(t) => self@.pending.len() > 0 && t@ == "Connecting… ("@ + decimal(
                    self@.pending.len(),
                ) + ")"@,
                None => self@.pending.len() == 0,
            },
    {
        if self.pending.len() == 0 {
            None
        } else {
            Some(numbered("Connecting… (", self.pending.len() as u64, ")"))
        }
    }

    /// The line about sessions, if there are some.
    pub fn sessions_line(&self) -> (r: Option<String>)
        ensures
            match r {
                Some(t) => self@.sessions.len() > 0 && t@ == "Active sessions ("@ + decimal(
                    self@.sessions.len(),
                ) + ")"@,
                None => self@.sessions.len() == 0,
            },
    {
        if self.sessions.len() == 0 {
            None
        } else {
            Some(numbered("Active sessions (", self.sessions.len() as u64, ")"))
        }
    }

    /// Closes the sessions with these numbers; the others stay, in their order.
    /// Gives the numbers of those that are to be stopped.
    pub fn close_sessions(&mut self, ids: &Vec<u64>) -> (stopped: Vec<u64>)
        ensures
            final(self)@ == (AppView {
                sessions: without(old(self)@.sessions, ids@),
                ..old(self)@
            }),
            stopped@ == among(old(self)@.sessions, ids@),
    {
        let ghost before = self@;
        let mut sessions: Vec<Session> = Vec::new();
        std::mem::swap(&mut sessions, &mut self.sessions);
        let ghost views = session_views(sessions@);
        assert(views == before.sessions);
        let mut stay: Vec<Session> = Vec::new();
        let mut stopped: Vec<u64> = Vec::new();
        let ghost n = views.len() as int;
        assert(views.skip(0) =~= views);
        assert(views.take(0) =~= Seq::<SessionView>::empty());
        assert(session_views(stay@) =~= Seq::<SessionView>::empty());
        while sessions.len() > 0
            invariant
                n == views.len(),
                sessions@.len() <= n,
                session_views(sessions@) == views.skip(n - sessions@.len()),
                session_views(stay@) == without(views.take(n - sessions@.len()), ids@),
                stopped@ == among(views.take(n - sessions@.len()), ids@),
            decreases sessions@.len(),
        {
            let ghost k = n - sessions@.len();
            let ghost left = session_views(sessions@);
            let ghost kept = session_views(stay@);
            let s = sessions.remove(0);
            proof {
                assert(left[0] == s@);
                assert(views[k] == s@);
                assert(session_views(sessions@) =~= left.drop_first());
                assert(left.drop_first() =~= views.skip(k + 1));
                assert(views.take(k + 1).drop_last() =~= views.take(k));
            }
            if contains_id(ids, s.id) {
                stopped.push(s.id);
            } else {
                stay.push(s);
                assert(session_views(stay@) =~= kept.push(s@));
            }
        }
        assert(views.take(n) =~= views);
        self.sessions = stay;
        stopped
    }

    /// Something is live that the window has to keep up with.
    pub fn needs_repaint(&self) -> (r: bool)
        ensures
            r == (self@.sessions.len() > 0 || self@.pending.len() > 0),
    {
        self.sessions.len() > 0 || self.pending.len() > 0
    }

    /// What is to be stopped when the program ends: the host, if it runs, and every
    /// session.
    pub fn on_exit(&self) -> (r: ExitPlan)
        ensures
            r.stop_host == self@.hosting,
            r.sessions@ == self@.sessions.map_values(|s: SessionView| s.id),
    {
        let mut sessions: Vec<u64> = Vec::new();
        let mut i: usize = 0;
        while i < self.sessions.len()
            invariant
                i <= self.sessions@.len(),
                sessions@.len() == i,
                forall|j: int| 0 <= j < i ==> sessions@[j] == self.sessions@[j].id,
            decreases self.sessions@.len() - i,
        {
            sessions.push(self.sessions[i].id);
            i = i + 1;
        }
        assert(sessions@ =~= self@.sessions.map_values(|s: SessionView| s.id));
        ExitPlan { stop_host: self.hosting, sessions }
    }
}

/// The title of a session's window.
pub fn session_title(label: &str) -> (r: String)
    ensures
        r@ == label@ + " — Rust P2P Viewer"@,
{
    let mut r = label.to_owned();
    r.append(" — Rust P2P Viewer");
    r
}

/// What holds of the state at any time: no two sessions have one number, and the
/// next number is new.
pub open spec fn sessions_ok(s: AppView) -> bool {
    &&& forall|i: int, j: int|
        0 <= i < j < s.sessions.len() ==> (#[trigger] s.sessions[i]).id < (
        #[trigger] s.sessions[j]).id
    &&& forall|i: int|
        0 <= i < s.sessions.len() ==> (#[trigger] s.sessions[i]).id < s.next_session
}

/// No two sessions ever have one number: not at the start, not when attempts
/// connect, and not when sessions are closed.
pub proof fn law_session_numbers(
    local_ip: Seq<char>,
    s: AppView,
    outcomes: Seq<Outcome>,
    ids: Seq<u64>,
)
    requires
        sessions_ok(s),
        s.next_session + outcomes.len() <= u64::MAX,
    ensures
        sessions_ok(initial(local_ip)),
        sessions_ok(settled(s, outcomes)),
        sessions_ok(AppView { sessions: without(s.sessions, ids), ..s }),
{
    lemma_new_sessions(s.pending, outcomes, s.next_session);
    lemma_without(s.sessions, ids, s.next_session);
}

proof fn lemma_new_sessions(labels: Seq<Seq<char>>, outcomes: Seq<Outcome>, first: u64)
    requires
        first + outcomes.len() <= u64::MAX,
    ensures
        new_sessions(labels, outcomes, first).len() <= outcomes.len(),
        forall|i: int|
            0 <= i < new_sessions(labels, outcomes, first).len() ==> (#[trigger] new_sessions(
                labels,
                outcomes,
                first,
            )[i]).id == first + i,
    decreases outcomes.len(),
{
    if outcomes.len() > 0 {
        lemma_new_sessions(labels, outcomes.drop_last(), first);
    }
}

proof fn lemma_without(sessions: Seq<SessionView>, ids: Seq<u64>, next: u64)
    requires
        forall|i: int, j: int|
            0 <= i < j < sessions.len() ==> (#[trigger] sessions[i]).id < (#[trigger] sessions[j]).id,
        forall|i: int| 0 <= i < sessions.len() ==> (#[trigger] sessions[i]).id < next,
    ensures
        forall|i: int, j: int|
            0 <= i < j < without(sessions, ids).len() ==> (#[trigger] without(sessions, ids)[i]).id
                < (#[trigger] without(sessions, ids)[j]).id,
        forall|i: int|
            0 <= i < without(sessions, ids).len() ==> (#[trigger] without(sessions, ids)[i]).id
                < next,
    decreases sessions.len(),
{
    if sessions.len() > 0 {
        let front = sessions.drop_last();
        let last = sessions[sessions.len() - 1];
        assert(last.id < next);
        assert forall|i: int| 0 <= i < front.len() implies (#[trigger] front[i]).id < last.id by {
            assert(sessions[i].id < last.id);
        }
        lemma_without(front, ids, last.id);
        let w = without(front, ids);
        let r = without(sessions, ids);
        assert forall|i: int| 0 <= i < r.len() implies (#[trigger] r[i]).id < next by {
            if i < w.len() {
                assert(r[i] == w[i]);
            }
        }
        assert forall|i: int, j: int| 0 <= i < j < r.len() implies (#[trigger] r[i]).id < (
        #[trigger] r[j]).id by {
            assert(r[i] == w[i]);
            if j < w.len() {
                assert(r[j] == w[j]);
            }
        }
    }
}

/// How many of the attempts ended with an error.
pub open spec fn failures(outcomes: Seq<Outcome>) -> nat
    decreases outcomes.len(),
{
    if outcomes.len() == 0 {
        0
    } else {
        let front = failures(outcomes.drop_last());
        if outcomes.last() is Failed || outcomes.last() is Lost {
            front + 1
        } else {
            front
        }
    }
}

/// No attempt is lost or counted twice: each stays, becomes a session, or ends with
/// an error.
pub proof fn law_attempts_counted(s: AppView, outcomes: Seq<Outcome>)
    ensures
        settled(s, outcomes).pending.len() + settled(s, outcomes).sessions.len() + failures(
            outcomes,
        ) == outcomes.len() + s.sessions.len(),
    decreases outcomes.len(),
{
    if outcomes.len() > 0 {
        law_attempts_counted(s, outcomes.drop_last());
    }
}

/// A session that is asked to close is gone and is stopped; the others stay.
pub proof fn law_closed_are_gone(sessions: Seq<SessionView>, ids: Seq<u64>)
    ensures
        without(sessions, ids).len() + among(sessions, ids).len() == sessions.len(),
        forall|i: int|
            0 <= i < without(sessions, ids).len() ==> !ids.contains(
                (#[trigger] without(sessions, ids)[i]).id,
            ),
        forall|i: int|
            0 <= i < among(sessions, ids).len() ==> ids.contains(
                #[trigger] among(sessions, ids)[i],
            ),
    decreases sessions.len(),
{
    if sessions.len() > 0 {
        law_closed_are_gone(sessions.drop_last(), ids);
    }
}

/// A bit rate that can be set is one that the encoder takes.
pub proof fn law_rates_encodable(bitrate: u32)
    ensures
        held(bitrate, BITRATE_MIN, BITRATE_MAX) * 1_000_000 <= u32::MAX,
        held(bitrate, BITRATE_MIN, BITRATE_MAX) > 0,
{
}

/// The state is what the window holds, field by field.
pub proof fn law_state(app: App, i: int)
    ensures
        app@.tab == app.tab,
        app@.fps == app.fps,
        app@.bitrate == app.bitrate,
        app@.host_password == app.host_password@,
        app@.host_clipboard == app.host_clipboard,
        app@.local_ip == app.local_ip@,
        app@.hosting == app.hosting,
        app@.host_ip == app.host_ip@,
        app@.view_password == app.view_password@,
        match app.connect_error {
            Some(t) => app@.connect_error == Some(t@),
            None => app@.connect_error is None,
        },
        app@.pending.len() == app.pending@.len(),
        0 <= i < app.pending@.len() ==> app@.pending[i] == app.pending@[i]@,
        app@.sessions.len() == app.sessions@.len(),
        0 <= i < app.sessions@.len() ==> app@.sessions[i].id == app.sessions@[i].id
            && app@.sessions[i].label == app.sessions@[i].label@,
        app@.next_session == app.next_session,
{
}

/// At the start the window shows the form to connect, with nothing entered; 30 frames and
/// 8 million bits per second are set, the clipboard is not shared, and nothing runs.
pub proof fn law_start(local_ip: String, r: App)
    requires
        call_ensures(App::new, (local_ip,), r),
    ensures
        r.tab == Tab::Connect,
        r.fps == 30,
        r.bitrate == 8,
        r.host_password@.len() == 0,
        !r.host_clipboard,
        r.local_ip@ == local_ip@,
        !r.hosting,
        r.host_ip@.len() == 0,
        r.view_password@.len() == 0,
        r.connect_error is None,
        r.pending@.len() == 0,
        r.sessions@.len() == 0,
        r.next_session == 0,
{
    law_state(r, 0);
    assert(r@.connect_error is None);
}

/// The tab that was chosen is shown, and nothing else changes.
pub proof fn law_tab_chosen(app: &mut App, tab: Tab)
    requires
        call_ensures(App::select_tab, (app, tab), ()),
    ensures
        final(app).tab == tab,
        final(app)@ == (AppView { tab, ..old(app)@ }),
{
}

/// The frame rate is held from 5 to 60 and the bit rate from 1 to 50; within that they are
/// set as they are given. Nothing else changes.
pub proof fn law_rates_set(app: &mut App, fps: u32, bitrate: u32)
    requires
        call_ensures(App::set_rates, (app, fps, bitrate), ()),
    ensures
        final(app).fps == (if fps < 5 {
            5
        } else if fps > 60 {
            60
        } else {
            fps
        }),
        final(app).bitrate == (if bitrate < 1 {
            1
        } else if bitrate > 50 {
            50
        } else {
            bitrate
        }),
        final(app)@ == (AppView {
            fps: final(app).fps,
            bitrate: final(app).bitrate,
            ..old(app)@
        }),
{
}

/// Hosting starts on all interfaces and port 7272 with just what is set in the window;
/// while it runs, and only then, its own status is shown; and it stops again. Nothing else
/// changes.
pub proof fn law_hosting(
    app: &mut App,
    r: HostRequest,
    running: &mut App,
    shown: &App,
    status: &str,
    line: String,
)
    requires
        call_ensures(App::start_hosting, (app,), r),
        call_ensures(App::stop_hosting, (running,), ()),
        call_ensures(App::host_line, (shown, status), line),
    ensures
        r.bind@ == seq!['0', '.', '0', '.', '0', '.', '0'],
        r.port == 7272,
        r.fps == old(app).fps,
        r.bitrate == old(app).bitrate,
        r.password@ == old(app).host_password@,
        r.clipboard == old(app).host_clipboard,
        final(app).hosting,
        final(app)@ == (AppView { hosting: true, ..old(app)@ }),
        !final(running).hosting,
        final(running)@ == (AppView { hosting: false, ..old(running)@ }),
        shown.hosting ==> line@ == "● "@ + status@,
        !shown.hosting ==> line@ == "● "@ + seq!['I', 'd', 'l', 'e'],
{
    reveal_strlit("0.0.0.0");
    assert("0.0.0.0"@ =~= seq!['0', '.', '0', '.', '0', '.', '0']);
    reveal_strlit("Idle");
    assert("Idle"@ =~= seq!['I', 'd', 'l', 'e']);
}

/// One can connect exactly if something that is not white space was entered.
pub proof fn law_can_connect(app: &App, r: bool)
    requires
        call_ensures(App::can_connect, (app,), r),
    ensures
        r <==> exists|i: int| 0 <= i < app.host_ip@.len() && !white_space(#[trigger] app.host_ip@[i]),
{
    law_blank(app.host_ip@);
}

/// A connection attempt goes to the address that was entered, without the white space
/// around it, on port 7272 and with the password that was entered. It is pending under
/// that address, behind the others, and an error that was shown is gone.
pub proof fn law_connect(
    app: &mut App,
    r: ConnectRequest,
    before: Seq<char>,
    address: Seq<char>,
    after: Seq<char>,
)
    requires
        call_ensures(App::start_connect, (app,), r),
        old(app).host_ip@ == before + address + after,
        forall|i: int| 0 <= i < before.len() ==> white_space(#[trigger] before[i]),
        forall|i: int| 0 <= i < after.len() ==> white_space(#[trigger] after[i]),
        address.len() > 0 ==> !white_space(address[0]) && !white_space(address.last()),
    ensures
        r.host@ == address,
        r.port == 7272,
        r.password@ == old(app).view_password@,
        final(app).connect_error is None,
        final(app)@ == (AppView {
            connect_error: None,
            pending: old(app)@.pending.push(address),
            ..old(app)@
        }),
{
    law_trimmed(before, address, after);
    law_state(*final(app), 0);
}

/// An attempt that is still waiting stays, in its place behind those before it. One that
/// connected becomes a session with its label and the next number, and clears the error.
/// One that failed shows its label and why, one that was lost its label. Without
/// attempts nothing happens.
pub proof fn law_outcome(
    labels: Seq<Seq<char>>,
    outcomes: Seq<Outcome>,
    outcome: Outcome,
    first: u64,
    before: Option<Seq<char>>,
)
    requires
        outcomes.len() < labels.len(),
        first + labels.len() <= u64::MAX,
    ensures
        still_pending(labels, Seq::<Outcome>::empty()) == Seq::<Seq<char>>::empty(),
        new_sessions(labels, Seq::<Outcome>::empty(), first) == Seq::<SessionView>::empty(),
        error_after(before, labels, Seq::<Outcome>::empty()) == before,
        ({
            let all = outcomes.push(outcome);
            let label = labels[outcomes.len() as int];
            let waiting = still_pending(labels, outcomes);
            let sessions = new_sessions(labels, outcomes, first);
            let error = error_after(before, labels, outcomes);
            match outcome {
                Outcome::Waiting => {
                    &&& still_pending(labels, all) == waiting.push(label)
                    &&& new_sessions(labels, all, first) == sessions
                    &&& error_after(before, labels, all) == error
                },
                Outcome::Connected => {
                    &&& still_pending(labels, all) == waiting
                    &&& new_sessions(labels, all, first).len() == sessions.len() + 1
                    &&& new_sessions(labels, all, first).drop_last() == sessions
                    &&& new_sessions(labels, all, first).last().id == first + sessions.len()
                    &&& new_sessions(labels, all, first).last().label == label
                    &&& error_after(before, labels, all) is None
                },
                Outcome::Failed { error: why } => {
                    &&& still_pending(labels, all) == waiting
                    &&& new_sessions(labels, all, first) == sessions
                    &&& error_after(before, labels, all) == Some(
                        "Connect to "@ + label + " failed: "@ + why,
                    )
                },
                Outcome::Lost => {
                    &&& still_pending(labels, all) == waiting
                    &&& new_sessions(labels, all, first) == sessions
                    &&& error_after(before, labels, all) == Some(
                        "Connect to "@ + label + " failed"@,
                    )
                },
            }
        }),
{
    let all = outcomes.push(outcome);
    assert(all.drop_last() =~= outcomes);
    assert(all.last() == outcome);
    lemma_new_sessions(labels, outcomes, first);
    if outcome is Connected {
        assert(new_sessions(labels, all, first).drop_last() =~= new_sessions(
            labels,
            outcomes,
            first,
        ));
    }
}

/// What the outcomes give is what there is afterwards: the attempts that still wait, the
/// sessions before and behind them the new ones, whose numbers come back in order, and
/// the error. Nothing else changes.
pub proof fn law_polled(app: &mut App, outcomes: &Vec<ConnectOutcome>, opened: Vec<u64>)
    requires
        outcomes@.len() == old(app)@.pending.len(),
        old(app)@.next_session + outcomes@.len() <= u64::MAX,
        call_ensures(App::poll_pending, (app, outcomes), opened),
    ensures
        ({
            let views = outcomes@.map_values(|o: ConnectOutcome| o@);
            let gained = new_sessions(old(app)@.pending, views, old(app)@.next_session);
            &&& final(app)@.pending == still_pending(old(app)@.pending, views)
            &&& final(app)@.sessions == old(app)@.sessions + gained
            &&& final(app)@.next_session == old(app)@.next_session + gained.len()
            &&& final(app)@.connect_error == error_after(
                old(app)@.connect_error,
                old(app)@.pending,
                views,
            )
            &&& opened@.len() == gained.len()
            &&& forall|i: int|
                0 <= i < opened@.len() ==> #[trigger] opened@[i] == old(app)@.next_session + i
            &&& final(app)@ == (AppView {
                pending: final(app)@.pending,
                sessions: final(app)@.sessions,
                next_session: final(app)@.next_session,
                connect_error: final(app)@.connect_error,
                ..old(app)@
            })
        }),
{
    let views = outcomes@.map_values(|o: ConnectOutcome| o@);
    assert(outcome_views(outcomes@) =~= views);
    lemma_new_sessions(old(app)@.pending, views, old(app)@.next_session);
}

/// What an outcome says is what it holds.
pub proof fn law_outcome_says(outcome: ConnectOutcome)
    ensures
        match outcome {
            ConnectOutcome::Connected => outcome@ == Outcome::Connected,
            ConnectOutcome::Failed { error } => outcome@ == (Outcome::Failed { error: error@ }),
            ConnectOutcome::Waiting => outcome@ == Outcome::Waiting,
            ConnectOutcome::Lost => outcome@ == Outcome::Lost,
        },
{
}

/// A session stays exactly if its number is not among those to be closed, in its place
/// behind those before it, and is stopped otherwise.
pub proof fn law_session_closed(sessions: Seq<SessionView>, session: SessionView, ids: Seq<u64>)
    ensures
        without(Seq::<SessionView>::empty(), ids) == Seq::<SessionView>::empty(),
        among(Seq::<SessionView>::empty(), ids) == Seq::<u64>::empty(),
        (exists|k: int| 0 <= k < ids.len() && #[trigger] ids[k] == session.id) ==> {
            &&& without(sessions.push(session), ids) == without(sessions, ids)
            &&& among(sessions.push(session), ids) == among(sessions, ids).push(session.id)
        },
        (forall|k: int| 0 <= k < ids.len() ==> #[trigger] ids[k] != session.id) ==> {
            &&& without(sessions.push(session), ids) == without(sessions, ids).push(session)
            &&& among(sessions.push(session), ids) == among(sessions, ids)
        },
{
    assert(sessions.push(session).drop_last() =~= sessions);
    assert(sessions.push(session).last() == session);
}

/// Sessions are closed as it is asked, and nothing else changes.
pub proof fn law_sessions_closed(app: &mut App, ids: &Vec<u64>, stopped: Vec<u64>)
    requires
        call_ensures(App::close_sessions, (app, ids), stopped),
    ensures
        final(app)@.sessions == without(old(app)@.sessions, ids@),
        stopped@ == among(old(app)@.sessions, ids@),
        final(app)@ == (AppView { sessions: final(app)@.sessions, ..old(app)@ }),
{
}

/// What the window says of attempts and sessions: how many there are, if there are some;
/// and it is kept up to date while there are.
pub proof fn law_lines(
    app: &App,
    pending: Option<String>,
    sessions: Option<String>,
    repaint: bool,
    label: &str,
    title: String,
)
    requires
        call_ensures(App::pending_line, (app,), pending),
        call_ensures(App::sessions_line, (app,), sessions),
        call_ensures(App::needs_repaint, (app,), repaint),
        call_ensures(session_title, (label,), title),
    ensures
        app.pending@.len() == 0 ==> pending is None,
        app.pending@.len() > 0 ==> pending is Some && pending->0@ == "Connecting… ("@ + decimal(
            app.pending@.len(),
        ) + seq![')'],
        app.sessions@.len() == 0 ==> sessions is None,
        app.sessions@.len() > 0 ==> sessions is Some && sessions->0@ == "Active sessions ("@
            + decimal(app.sessions@.len()) + seq![')'],
        repaint <==> app.pending@.len() > 0 || app.sessions@.len() > 0,
        title@ == label@ + " — Rust P2P Viewer"@,
{
    law_state(*app, 0);
    reveal_strlit(")");
    assert(")"@ =~= seq![')']);
}

/// When the program ends, the host is stopped if it runs, and so is every session.
pub proof fn law_exit(app: &App, r: ExitPlan)
    requires
        call_ensures(App::on_exit, (app,), r),
    ensures
        r.stop_host == app.hosting,
        r.sessions@.len() == app.sessions@.len(),
        forall|i: int|
            0 <= i < app.sessions@.len() ==> #[trigger] r.sessions@[i] == app.sessions@[i].id,
{
    law_state(*app, 0);
}

} // verus!
