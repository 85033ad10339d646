//! A session: what a peer does with what happens to its file and on its
//! connection.
//!
//! A connection is a state machine. An [`Event`] is something that happened, an
//! [`Action`] is what to do next; some actions are answered by another event.
use vstd::prelude::*;
use vstd::arithmetic::power2::{lemma_pow2_pos, lemma_pow2_unfold, pow2};
use vstd::std_specs::hash::DefaultHasherAdditionalSpecFns;
use std::collections::hash_map::DefaultHasher;
use std::hash::{Hash, Hasher};
use crate::convergence::{law_edit_reaches_peer, law_reply_brings_peer_up_to_date, synced};
use crate::crdt::{
    changed_to, consistent, encodes_clocks, gathered, peer_clocks, CrdtEngine, EngineView,
    RemoteUpdateError,
};
use crate::history::{go_together, is_update, uncut};
use crate::protocol::{
    decode_message, encode_sync_step1, encode_sync_step2, encode_update, frame,
    law_frame_round_trip, message_of, SyncMessage, SYNC_STEP1, SYNC_STEP2, SYNC_UPDATE,
};
use crate::replica::{fills_gap, merged_text};
use crate::text::byte_len;

verus! {

/// Delay before the first attempt to reconnect, in milliseconds.
pub const RECONNECT_BASE_MS: u64 = 1_000;

/// The longest delay before an attempt to reconnect, in milliseconds.
pub const RECONNECT_MAX_MS: u64 = 30_000;

/// A path of the file system.
#[verifier::external_type_specification]
#[verifier::external_body]
pub struct ExPathBuf(std::path::PathBuf);

/// What a session is about.
#[derive(Debug)]
pub struct SessionConfig {
    pub ws_url: String,
    pub file_path: std::path::PathBuf,
    pub debounce_ms: u64,
    pub poll_interval_ms: u64,
}

/// The delay before the next attempt to reconnect.
#[derive(Debug)]
pub struct Backoff {
    pub delay_ms: u64,
}

/// The delay before the attempt with the number `n`, counted from zero: it
/// doubles from one attempt to the next until it has reached the longest one.
pub open spec fn backoff_delay(n: nat) -> nat
    decreases n,
{
    if n == 0 {
        RECONNECT_BASE_MS as nat
    } else {
        longer_delay(backoff_delay((n - 1) as nat))
    }
}

/// The delay that follows `delay`.
pub open spec fn longer_delay(delay: nat) -> nat {
    if 2 * delay <= RECONNECT_MAX_MS {
        2 * delay
    } else {
        RECONNECT_MAX_MS as nat
    }
}

/// The first delay is a second, and each is twice the one before it, but none is
/// longer than half a minute.
pub proof fn law_delays_double(n: nat)
    ensures
        backoff_delay(0) == 1_000,
        2 * backoff_delay(n) <= 30_000 ==> backoff_delay(n + 1) == 2 * backoff_delay(n),
        2 * backoff_delay(n) > 30_000 ==> backoff_delay(n + 1) == 30_000,
{
}

/// A delay is followed by twice the delay, up to half a minute.
pub proof fn law_next_delay(delay: nat)
    ensures
        delay <= 15_000 ==> longer_delay(delay) == delay + delay,
        delay > 15_000 ==> longer_delay(delay) == 30_000,
{
}

/// The delays are the base delay times the powers of two, up to the longest one.
pub proof fn law_backoff_doubles_up_to_limit(n: nat)
    ensures
        backoff_delay(n) == if RECONNECT_BASE_MS * pow2(n) <= RECONNECT_MAX_MS {
            RECONNECT_BASE_MS * pow2(n)
        } else {
            RECONNECT_MAX_MS as int
        },
        RECONNECT_BASE_MS <= backoff_delay(n) <= RECONNECT_MAX_MS,
    decreases n,
{
    if n > 0 {
        law_backoff_doubles_up_to_limit((n - 1) as nat);
        lemma_pow2_unfold(n);
        lemma_pow2_pos((n - 1) as nat);
    } else {
        vstd::arithmetic::power2::lemma2_to64();
    }
}

impl Backoff {
    /// The delay stays within its limit.
    pub open spec fn inv(&self) -> bool {
        self.delay_ms <= RECONNECT_MAX_MS
    }

    /// The delay for a first failure.
    pub fn new() -> (backoff: Backoff)
        ensures
            backoff.inv(),
            backoff.delay_ms == backoff_delay(0),
    {
        Backoff { delay_ms: RECONNECT_BASE_MS }
    }

    /// Returns the delay to wait now, and makes the next one longer.
    pub fn next_delay(&mut self) -> (delay_ms: u64)
        requires
            old(self).inv(),
        ensures
            final(self).inv(),
            delay_ms == old(self).delay_ms,
            final(self).delay_ms == longer_delay(old(self).delay_ms as nat),
            forall|n: nat|
                delay_ms == #[trigger] backoff_delay(n) ==> final(self).delay_ms == backoff_delay(
                    n + 1,
                ),
    {
        let delay_ms: u64 = self.delay_ms;
        let doubled: u64 = delay_ms * 2;
        self.delay_ms = if doubled <= RECONNECT_MAX_MS {
            doubled
        } else {
            RECONNECT_MAX_MS
        };
        delay_ms
    }
}

/// What `str` feeds to a hasher: the writes that [`hash_text`] makes.
pub uninterp spec fn str_writes(text: Seq<char>) -> Seq<Seq<u8>>;

/// `<str as Hash>::hash` with a `DefaultHasher`: the writes depend on the text
/// alone. Which they are is not stated.
#[verifier::external_body]
fn hash_text(s: &str, state: &mut DefaultHasher)
    ensures
        final(state)@ == old(state)@ + str_writes(s@),
{
    s.hash(state)
}

/// The hash of a text.
pub open spec fn content_hash(text: Seq<char>) -> u64 {
    DefaultHasher::spec_finish(str_writes(text))
}

/// Computes [`content_hash`].
pub fn hash_str(s: &str) -> (hash: u64)
    ensures
        hash == content_hash(s@),
{
    let mut h = DefaultHasher::new();
    hash_text(s, &mut h);
    assert(h@ =~= str_writes(s@));
    h.finish()
}

/// The state of a connection, beside that of the document.
#[derive(Debug)]
pub struct Connection {
    /// A change of the file was noticed and will be looked at after a while.
    pub debounce_pending: bool,
    /// Hash of the file's content when it was last read or written.
    pub last_poll_hash: u64,
}

/// Something that happened.
#[derive(Debug)]
pub enum Event {
    /// The user wants to stop.
    Interrupted,
    /// The file watcher noticed a change of the file.
    FileChanged,
    /// It is time to look at the file in case the watcher missed a change.
    PollTick,
    /// The file was read for a poll; `None` if that failed.
    Polled(Option<String>),
    /// The file had been left alone for long enough. `suppressed` tells whether
    /// it was this peer that wrote it.
    DebounceElapsed { suppressed: bool },
    /// The file was read for an edit; `None` if that failed.
    FileRead(Option<String>),
    /// The relay sent a binary message.
    Binary(Vec<u8>),
    /// The relay sent a ping.
    Ping(Vec<u8>),
    /// The relay closed the connection.
    Closed,
    /// The connection failed.
    SocketError(String),
    /// The relay sent something else.
    OtherMessage,
}

/// Why a connection ends.
#[derive(Debug)]
pub enum Failure {
    /// The relay closed it.
    Closed,
    /// It failed.
    Socket(String),
    /// An update of a peer was not taken.
    Update(RemoteUpdateError),
}

/// What to do next.
#[derive(Debug)]
pub enum Action {
    /// Wait for the next event.
    Wait,
    /// End the session.
    Stop,
    /// Look at the file after the debounce interval, counted from now.
    ArmDebounce,
    /// Read the file, for [`Event::Polled`].
    ReadForPoll,
    /// Stop the debounce timer.
    DisarmDebounce,
    /// Stop the debounce timer and read the file, for [`Event::FileRead`].
    DisarmAndRead,
    /// Send a binary message.
    Send(Vec<u8>),
    /// Send a pong.
    Pong(Vec<u8>),
    /// Replace the content of the file.
    WriteFile(String),
    /// End the connection.
    Fail(Failure),
}

impl Failure {
    /// What to tell the user.
    pub fn message(&self) -> (text: String)
        ensures
            text@ == (match self {
                Failure::Closed => "WebSocket connection closed"@,
                Failure::Socket(error) => "WebSocket error: "@ + error@,
                Failure::Update(_) => "failed to apply remote update"@,
            }),
    {
        match self {
            Failure::Closed => "WebSocket connection closed".to_owned(),
            Failure::Socket(error) => {
                let mut text = "WebSocket error: ".to_owned();
                text.append(error.as_str());
                text
            },
            Failure::Update(_) => "failed to apply remote update".to_owned(),
        }
    }
}

/// Whether `bytes` ask a peer for what a document with the state vector
/// `clocks` lacks.
pub open spec fn is_request(bytes: Seq<u8>, clocks: Map<u64, u32>) -> bool {
    exists|sv: Seq<u8>|
        encodes_clocks(sv, clocks) && bytes == #[trigger] frame(SYNC_STEP1, sv)
}

/// Whether `bytes` reply to the state vector `peer_sv` with what `engine` has
/// and the peer lacks.
pub open spec fn is_reply(bytes: Seq<u8>, peer_sv: Seq<u8>, engine: EngineView) -> bool {
    exists|update: Seq<u8>|
        bytes == #[trigger] frame(SYNC_STEP2, update) && fills_gap(
            update,
            peer_clocks(peer_sv),
            engine.state.updates,
        )
}

/// Whether `bytes` broadcast the edits that turned `before` into `after`, whose
/// text is `content`.
pub open spec fn is_broadcast(
    bytes: Seq<u8>,
    before: EngineView,
    content: Seq<char>,
    after: EngineView,
) -> bool {
    exists|update: Seq<u8>|
        bytes == #[trigger] frame(SYNC_UPDATE, update) && changed_to(
            before,
            content,
            Some(update),
            after,
        )
}

/// Starts a connection. Returns its state and the message to send first: the
/// request for what this peer lacks.
pub fn connect(crdt: &CrdtEngine) -> (start: (Connection, Vec<u8>))
    ensures
        start.0 == (Connection {
            debounce_pending: false,
            last_poll_hash: content_hash(crdt.known()),
        }),
        is_request(start.1@, crdt.state().clocks),
{
    let sv = crdt.state_vector_bytes();
    let request = encode_sync_step1(&sv);
    assert(request@ == frame(SYNC_STEP1, sv@));
    let last_poll_hash: u64 = hash_str(crdt.current_text());
    (Connection { debounce_pending: false, last_poll_hash }, request)
}

/// Whether taking the update `data` of a peer led from the engine `before` to
/// `after`, from the hash `old_hash` to `new_hash`, and to `action`.
pub open spec fn update_taken(
    data: Seq<u8>,
    before: EngineView,
    old_hash: u64,
    after: EngineView,
    new_hash: u64,
    action: Action,
) -> bool {
    match action {
        Action::WriteFile(text) => {
            &&& is_update(data)
            &&& gathered(before, data, after)
            &&& after.known != before.known
            &&& text@ == after.known
            &&& new_hash == content_hash(text@)
        },
        Action::Wait => {
            &&& is_update(data)
            &&& gathered(before, data, after)
            &&& after.known == before.known
            &&& new_hash == old_hash
        },
        Action::Fail(Failure::Update(_)) => !is_update(data) && after == before && new_hash
            == old_hash,
        _ => false,
    }
}

/// Whether handling the message `data` led from the engine `before` to `after`,
/// from the hash `old_hash` to `new_hash`, and to `action`: a request is
/// replied to, an update is taken, and anything else is ignored.
pub open spec fn message_handled(
    data: Seq<u8>,
    before: EngineView,
    old_hash: u64,
    after: EngineView,
    new_hash: u64,
    action: Action,
) -> bool {
    match message_of(data) {
        Some((sync_type, payload)) => if sync_type == SYNC_STEP1 {
            &&& after == before
            &&& new_hash == old_hash
            &&& action matches Action::Send(bytes)
            &&& is_reply(bytes@, payload, before)
        } else {
            update_taken(payload, before, old_hash, after, new_hash, action)
        },
        None => after == before && new_hash == old_hash && action == Action::Wait,
    }
}

/// Handles a binary message of the relay.
pub fn handle_incoming(data: &[u8], crdt: &mut CrdtEngine, last_poll_hash: &mut u64) -> (action:
    Action)
    requires
        old(crdt).inv(),
    ensures
        final(crdt).inv(),
        message_handled(
            data@,
            old(crdt)@,
            *old(last_poll_hash),
            final(crdt)@,
            *final(last_poll_hash),
            action,
        ),
{
    match decode_message(data) {
        Some(SyncMessage::SyncStep1(peer_sv)) => {
            let update = crdt.encode_state_as_update(&peer_sv);
            let reply = encode_sync_step2(&update);
            assert(reply@ == frame(SYNC_STEP2, update@));
            Action::Send(reply)
        },
        Some(SyncMessage::SyncStep2(update)) => take_update(&update, crdt, last_poll_hash),
        Some(SyncMessage::Update(update)) => take_update(&update, crdt, last_poll_hash),
        None => Action::Wait,
    }
}

/// Takes an update of a peer.
fn take_update(data: &[u8], crdt: &mut CrdtEngine, last_poll_hash: &mut u64) -> (action: Action)
    requires
        old(crdt).inv(),
    ensures
        final(crdt).inv(),
        update_taken(
            data@,
            old(crdt)@,
            *old(last_poll_hash),
            final(crdt)@,
            *final(last_poll_hash),
            action,
        ),
{
    match crdt.apply_remote_update(data) {
        Ok(Some(text)) => {
            *last_poll_hash = hash_str(text.as_str());
            Action::WriteFile(text)
        },
        Ok(None) => Action::Wait,
        Err(e) => Action::Fail(Failure::Update(e)),
    }
}

/// Whether reading `content` for an edit led from the engine `before` to
/// `after`, from the hash `old_hash` to `new_hash`, and to `action`: the edit
/// is made and broadcast, unless the content is the one that was known.
pub open spec fn content_taken(
    content: Seq<char>,
    before: EngineView,
    after: EngineView,
    new_hash: u64,
    action: Action,
) -> bool {
    &&& new_hash == content_hash(content)
    &&& after.known == content
    &&& if content == before.known {
        after == before && action == Action::Wait
    } else {
        &&& action matches Action::Send(bytes)
        &&& is_broadcast(bytes@, before, content, after)
        &&& after.in_step()
        &&& before.mirrors() ==> after.mirrors()
    }
}

/// Takes the content of the file after an edit.
pub fn take_content(content: &str, crdt: &mut CrdtEngine, last_poll_hash: &mut u64) -> (action:
    Action)
    requires
        old(crdt).inv(),
        old(crdt).accepts(content@),
    ensures
        final(crdt).inv(),
        content_taken(content@, old(crdt)@, final(crdt)@, *final(last_poll_hash), action),
{
    *last_poll_hash = hash_str(content);
    match crdt.apply_local_edit(content) {
        Some(update) => {
            let message = encode_update(&update);
            assert(message@ == frame(SYNC_UPDATE, update@));
            Action::Send(message)
        },
        None => Action::Wait,
    }
}

/// Whether `event` can be handled with `engine`: an edit must be acceptable.
pub open spec fn can_handle(engine: EngineView, event: Event) -> bool {
    match event {
        Event::FileRead(Some(content)) => engine.accepts(content@),
        _ => true,
    }
}

/// Whether `event` led from the connection `before` and the engine `engine` to
/// `after` and `new_engine`, and to `action`.
pub open spec fn is_step(
    before: Connection,
    engine: EngineView,
    event: Event,
    after: Connection,
    new_engine: EngineView,
    action: Action,
) -> bool {
    let unchanged = after == before && new_engine == engine;
    match event {
        Event::Interrupted => unchanged && action == Action::Stop,
        Event::FileChanged => {
            &&& after == (Connection { debounce_pending: true, ..before })
            &&& new_engine == engine
            &&& action == Action::ArmDebounce
        },
        Event::PollTick => unchanged && action == (if before.debounce_pending {
            Action::Wait
        } else {
            Action::ReadForPoll
        }),
        Event::Polled(Some(content)) if content_hash(content@) != before.last_poll_hash => {
            &&& after == (Connection {
                debounce_pending: true,
                last_poll_hash: content_hash(content@),
            })
            &&& new_engine == engine
            &&& action == Action::ArmDebounce
        },
        Event::Polled(_) => unchanged && action == Action::Wait,
        Event::DebounceElapsed { suppressed } => {
            &&& after == (Connection { debounce_pending: false, ..before })
            &&& new_engine == engine
            &&& action == (if suppressed {
                Action::DisarmDebounce
            } else {
                Action::DisarmAndRead
            })
        },
        Event::FileRead(Some(content)) => {
            &&& after.debounce_pending == before.debounce_pending
            &&& content_taken(content@, engine, new_engine, after.last_poll_hash, action)
        },
        Event::FileRead(None) => unchanged && action == Action::Wait,
        Event::Binary(data) => {
            &&& after.debounce_pending == before.debounce_pending
            &&& message_handled(
                data@,
                engine,
                before.last_poll_hash,
                new_engine,
                after.last_poll_hash,
                action,
            )
        },
        Event::Ping(payload) => {
            &&& unchanged
            &&& action matches Action::Pong(bytes)
            &&& bytes@ == payload@
        },
        Event::Closed => unchanged && action == Action::Fail(Failure::Closed),
        Event::SocketError(error) => {
            &&& unchanged
            &&& action matches Action::Fail(Failure::Socket(text))
            &&& text@ == error@
        },
        Event::OtherMessage => unchanged && action == Action::Wait,
    }
}

impl Connection {
    /// Handles an event.
    pub fn step(&mut self, crdt: &mut CrdtEngine, event: Event) -> (action: Action)
        requires
            old(crdt).inv(),
            can_handle(old(crdt)@, event),
        ensures
            final(crdt).inv(),
            is_step(*old(self), old(crdt)@, event, *final(self), final(crdt)@, action),
    {
        match event {
            Event::Interrupted => Action::Stop,
            Event::FileChanged => {
                self.debounce_pending = true;
                Action::ArmDebounce
            },
            Event::PollTick => if self.debounce_pending {
                Action::Wait
            } else {
                Action::ReadForPoll
            },
            Event::Polled(Some(content)) => {
                let hash: u64 = hash_str(content.as_str());
                if hash != self.last_poll_hash {
                    self.last_poll_hash = hash;
                    self.debounce_pending = true;
                    Action::ArmDebounce
                } else {
                    Action::Wait
                }
            },
            Event::Polled(None) => Action::Wait,
            Event::DebounceElapsed { suppressed } => {
                self.debounce_pending = false;
                if suppressed {
                    Action::DisarmDebounce
                } else {
                    Action::DisarmAndRead
                }
            },
            Event::FileRead(Some(content)) => take_content(
                content.as_str(),
                crdt,
                &mut self.last_poll_hash,
            ),
            Event::FileRead(None) => Action::Wait,
            Event::Binary(data) => handle_incoming(&data, crdt, &mut self.last_poll_hash),
            Event::Ping(payload) => Action::Pong(payload),
            Event::Closed => Action::Fail(Failure::Closed),
            Event::SocketError(error) => Action::Fail(Failure::Socket(error)),
            Event::OtherMessage => Action::Wait,
        }
    }
}

/// The file that an update of a peer was written to is not taken for an edit:
/// neither a poll nor an edit that finds that text in it leads to anything.
pub proof fn law_remote_update_does_not_echo(
    conn: Connection,
    engine: EngineView,
    data: Vec<u8>,
    next: Connection,
    next_engine: EngineView,
    written: String,
    found: String,
    later: Connection,
    later_engine: EngineView,
    action: Action,
)
    requires
        is_step(conn, engine, Event::Binary(data), next, next_engine, Action::WriteFile(written)),
        found@ == written@,
        is_step(next, next_engine, Event::Polled(Some(found)), later, later_engine, action)
            || is_step(next, next_engine, Event::FileRead(Some(found)), later, later_engine, action),
    ensures
        action == Action::Wait,
        later == next,
        later_engine == next_engine,
{
}

/// After an edit was broadcast, a poll that finds the same content in the file
/// leads to nothing.
pub proof fn law_poll_ignores_content_already_taken(
    conn: Connection,
    engine: EngineView,
    taken: String,
    next: Connection,
    next_engine: EngineView,
    action: Action,
    found: String,
    later: Connection,
    later_engine: EngineView,
    later_action: Action,
)
    requires
        is_step(conn, engine, Event::FileRead(Some(taken)), next, next_engine, action),
        found@ == taken@,
        is_step(next, next_engine, Event::Polled(Some(found)), later, later_engine, later_action),
    ensures
        later_action == Action::Wait,
        later == next,
        later_engine == next_engine,
{
}

/// While a change waits to be looked at, a poll leaves the file alone.
pub proof fn law_poll_waits_for_debounce(
    conn: Connection,
    engine: EngineView,
    next: Connection,
    next_engine: EngineView,
    action: Action,
)
    requires
        conn.debounce_pending,
        is_step(conn, engine, Event::PollTick, next, next_engine, action),
    ensures
        action == Action::Wait,
        next == conn,
        next_engine == engine,
{
}

/// Only an update of a peer has the file written, and what is written is the
/// shared text.
pub proof fn law_file_gets_the_shared_text(
    conn: Connection,
    engine: EngineView,
    event: Event,
    next: Connection,
    next_engine: EngineView,
    written: String,
)
    requires
        is_step(conn, engine, event, next, next_engine, Action::WriteFile(written)),
    ensures
        event is Binary,
        written@ == next_engine.state.text,
        written@ == next_engine.known,
{
}

/// A request of a peer is replied to, whatever the engine holds and whatever the
/// peer's state vector is: with what the engine has and the peer lacks. Neither the
/// engine nor the connection changes.
pub proof fn law_request_is_replied_to(
    conn: Connection,
    engine: EngineView,
    data: Vec<u8>,
    peer_sv: Seq<u8>,
    next: Connection,
    next_engine: EngineView,
    action: Action,
)
    requires
        message_of(data@) == Some((SYNC_STEP1, peer_sv)),
        is_step(conn, engine, Event::Binary(data), next, next_engine, action),
    ensures
        action is Send,
        message_of(action->Send_0@) matches Some((sync_type, update)) && sync_type == SYNC_STEP2
            && fills_gap(update, peer_clocks(peer_sv), engine.state.updates),
        next == conn,
        next_engine == engine,
{
    let reply = action->Send_0;
    let update = choose|update: Seq<u8>|
        reply@ == #[trigger] frame(SYNC_STEP2, update) && fills_gap(
            update,
            peer_clocks(peer_sv),
            engine.state.updates,
        );
    lemma_message_of_frame(reply, SYNC_STEP2, update);
}

/// What is in a message.
proof fn lemma_message_of_frame(message: Vec<u8>, sync_type: u64, payload: Seq<u8>)
    requires
        sync_type <= SYNC_UPDATE,
        message@ == frame(sync_type, payload),
    ensures
        message_of(message@) == Some((sync_type, payload)),
{
    assert(message.len() <= usize::MAX);
    assert(payload.len() <= message@.len());
    law_frame_round_trip(sync_type, payload, Seq::empty());
}

/// The message that a connection starts with is a request for what is beyond this
/// peer's own state vector.
pub proof fn law_first_message_is_a_request(message: Vec<u8>, clocks: Map<u64, u32>)
    requires
        is_request(message@, clocks),
    ensures
        message_of(message@) matches Some((sync_type, sv)) && sync_type == SYNC_STEP1
            && peer_clocks(sv) == clocks,
{
    let sv = choose|sv: Seq<u8>|
        encodes_clocks(sv, clocks) && message@ == #[trigger] frame(SYNC_STEP1, sv);
    lemma_message_of_frame(message, SYNC_STEP1, sv);
}

/// A poll that finds a text with the hash that was kept last, such as the one known at
/// the start of a connection, leads to nothing; one that finds a text with another
/// hash has it looked at, and keeps that hash.
pub proof fn law_poll_notices_another_hash(
    conn: Connection,
    engine: EngineView,
    found: String,
    next: Connection,
    next_engine: EngineView,
    action: Action,
)
    requires
        is_step(conn, engine, Event::Polled(Some(found)), next, next_engine, action),
    ensures
        next_engine == engine,
        next.last_poll_hash == DefaultHasher::spec_finish(str_writes(found@)),
        conn.last_poll_hash == DefaultHasher::spec_finish(str_writes(found@)) ==> action
            == Action::Wait && next == conn,
        conn.last_poll_hash != DefaultHasher::spec_finish(str_writes(found@)) ==> action
            == Action::ArmDebounce && next.debounce_pending,
{
}

/// An update of a peer, sent as a reply or by itself, is taken. If the shared text
/// is then another one, the file gets that text, longer or shorter, and the text
/// is not taken for an edit when the file is polled; if it is the same, nothing is
/// written. Bytes that are no update change nothing and end the connection.
pub proof fn law_peer_update_is_written_to_file(
    conn: Connection,
    engine: EngineView,
    data: Vec<u8>,
    sync_type: u64,
    update: Seq<u8>,
    next: Connection,
    next_engine: EngineView,
    action: Action,
)
    requires
        message_of(data@) == Some((sync_type, update)),
        sync_type == SYNC_STEP2 || sync_type == SYNC_UPDATE,
        is_step(conn, engine, Event::Binary(data), next, next_engine, action),
    ensures
        is_update(update) ==> {
            &&& gathered(engine, update, next_engine)
            &&& next_engine.known == next_engine.state.text
        },
        is_update(update) && next_engine.known != engine.known ==> {
            &&& action is WriteFile
            &&& action->WriteFile_0@ == next_engine.known
            &&& next.last_poll_hash == content_hash(next_engine.known)
        },
        is_update(update) && next_engine.known == engine.known ==> {
            &&& action == Action::Wait
            &&& next == conn
        },
        !is_update(update) ==> {
            &&& action is Fail
            &&& action->Fail_0 is Update
            &&& next == conn
            &&& next_engine == engine
        },
        next.debounce_pending == conn.debounce_pending,
{
}

/// A message that is no sync message is ignored.
pub proof fn law_other_messages_are_ignored(
    conn: Connection,
    engine: EngineView,
    data: Vec<u8>,
    next: Connection,
    next_engine: EngineView,
    action: Action,
)
    requires
        message_of(data@) is None,
        is_step(conn, engine, Event::Binary(data), next, next_engine, action),
    ensures
        action == Action::Wait,
        next == conn,
        next_engine == engine,
{
}

/// A file whose content is not the one that was known is broadcast, whatever the
/// content is: as an update that is now one of the engine's, and whose text, where
/// the engine's snapshot was the shared text, is the content.
pub proof fn law_edit_is_broadcast(
    conn: Connection,
    engine: EngineView,
    content: String,
    next: Connection,
    next_engine: EngineView,
    action: Action,
)
    requires
        content@ != engine.known,
        is_step(conn, engine, Event::FileRead(Some(content)), next, next_engine, action),
    ensures
        action is Send,
        message_of(action->Send_0@) matches Some((sync_type, update)) && sync_type == SYNC_UPDATE
            && is_update(update) && next_engine.state.updates == engine.state.updates.insert(
            update,
        ),
        next_engine.known == content@,
        next_engine.waiting == engine.waiting,
        engine.mirrors() ==> next_engine.state.text == content@,
        next.last_poll_hash == content_hash(content@),
        next.debounce_pending == conn.debounce_pending,
{
    let message = action->Send_0;
    let update = choose|update: Seq<u8>|
        message@ == #[trigger] frame(SYNC_UPDATE, update) && changed_to(
            engine,
            content@,
            Some(update),
            next_engine,
        );
    lemma_message_of_frame(message, SYNC_UPDATE, update);
}

/// A file whose content is the one that was known leads to nothing.
pub proof fn law_known_content_is_not_broadcast(
    conn: Connection,
    engine: EngineView,
    content: String,
    next: Connection,
    next_engine: EngineView,
    action: Action,
)
    requires
        content@ == engine.known,
        is_step(conn, engine, Event::FileRead(Some(content)), next, next_engine, action),
    ensures
        action == Action::Wait,
        next_engine == engine,
        next.last_poll_hash == content_hash(content@),
        next.debounce_pending == conn.debounce_pending,
{
}

/// A change of the file that the watcher noticed is broadcast: the debounce timer
/// starts, and when it has run out the file is read and its content sent, unless
/// the file was written here.
pub proof fn law_noticed_change_is_broadcast(
    conns: Seq<Connection>,
    engines: Seq<EngineView>,
    actions: Seq<Action>,
    content: String,
)
    requires
        conns.len() == 4,
        engines.len() == 4,
        actions.len() == 3,
        content@ != engines[0].known,
        is_step(conns[0], engines[0], Event::FileChanged, conns[1], engines[1], actions[0]),
        is_step(
            conns[1],
            engines[1],
            Event::DebounceElapsed { suppressed: false },
            conns[2],
            engines[2],
            actions[1],
        ),
        is_step(
            conns[2],
            engines[2],
            Event::FileRead(Some(content)),
            conns[3],
            engines[3],
            actions[2],
        ),
    ensures
        actions[0] == Action::ArmDebounce,
        conns[1].debounce_pending,
        actions[1] == Action::DisarmAndRead,
        !conns[2].debounce_pending,
        actions[2] is Send,
        engines[3].known == content@,
        !conns[3].debounce_pending,
{
    law_edit_is_broadcast(conns[2], engines[2], content, conns[3], engines[3], actions[2]);
}

/// A change of the file that the watcher missed is broadcast: a poll reads the
/// file, finds a content with another hash than that of the one read or written
/// last, and the debounce timer starts as if the change had been noticed.
pub proof fn law_missed_change_is_broadcast(
    conns: Seq<Connection>,
    engines: Seq<EngineView>,
    actions: Seq<Action>,
    content: String,
)
    requires
        conns.len() == 5,
        engines.len() == 5,
        actions.len() == 4,
        !conns[0].debounce_pending,
        content_hash(content@) != conns[0].last_poll_hash,
        content@ != engines[0].known,
        is_step(conns[0], engines[0], Event::PollTick, conns[1], engines[1], actions[0]),
        is_step(
            conns[1],
            engines[1],
            Event::Polled(Some(content)),
            conns[2],
            engines[2],
            actions[1],
        ),
        is_step(
            conns[2],
            engines[2],
            Event::DebounceElapsed { suppressed: false },
            conns[3],
            engines[3],
            actions[2],
        ),
        is_step(
            conns[3],
            engines[3],
            Event::FileRead(Some(content)),
            conns[4],
            engines[4],
            actions[3],
        ),
    ensures
        actions[0] == Action::ReadForPoll,
        actions[1] == Action::ArmDebounce,
        conns[2].debounce_pending,
        conns[2].last_poll_hash == content_hash(content@),
        actions[2] == Action::DisarmAndRead,
        actions[3] is Send,
        engines[4].known == content@,
        !conns[4].debounce_pending,
{
    law_edit_is_broadcast(conns[3], engines[3], content, conns[4], engines[4], actions[3]);
}

/// A file that was written here is not read when the debounce timer has run out,
/// and one that cannot be read leads to nothing.
pub proof fn law_own_write_is_not_read(
    conn: Connection,
    engine: EngineView,
    event: Event,
    next: Connection,
    next_engine: EngineView,
    action: Action,
)
    requires
        event == (Event::DebounceElapsed { suppressed: true }) || event == Event::Polled(None)
            || event == Event::FileRead(None),
        is_step(conn, engine, event, next, next_engine, action),
    ensures
        next_engine == engine,
        next.last_poll_hash == conn.last_poll_hash,
        event is DebounceElapsed ==> action == Action::DisarmDebounce && !next.debounce_pending,
        !(event is DebounceElapsed) ==> action == Action::Wait && next == conn,
{
}

/// The session ends when the user wants it to, and then only. The connection ends
/// when the relay closes it, when it fails and when a peer sends an update that is
/// none, and then only.
pub proof fn law_when_a_session_ends(
    conn: Connection,
    engine: EngineView,
    event: Event,
    next: Connection,
    next_engine: EngineView,
    action: Action,
)
    requires
        is_step(conn, engine, event, next, next_engine, action),
    ensures
        action is Stop <==> event is Interrupted,
        action is Fail <==> {
            ||| event is Closed
            ||| event is SocketError
            ||| event is Binary && (message_of(event->Binary_0@) matches Some((sync_type, update))
                && sync_type != SYNC_STEP1 && !is_update(update))
        },
        action is Stop || action is Fail ==> next == conn && next_engine == engine,
        event is Closed ==> action == Action::Fail(Failure::Closed),
        event is SocketError ==> action->Fail_0 is Socket && action->Fail_0->Socket_0@
            == event->SocketError_0@,
{
}

/// Each kind of action has its cause: a message is sent only in reply to a request
/// or for an edit, a pong only for a ping, with the same payload, and the file is
/// read only when a poll is due or the debounce timer has run out.
pub proof fn law_every_action_has_its_cause(
    conn: Connection,
    engine: EngineView,
    event: Event,
    next: Connection,
    next_engine: EngineView,
    action: Action,
)
    requires
        is_step(conn, engine, event, next, next_engine, action),
    ensures
        action is Send <==> {
            ||| event is Binary && (message_of(event->Binary_0@) matches Some((sync_type, _))
                && sync_type == SYNC_STEP1)
            ||| event matches Event::FileRead(Some(content)) && content@ != engine.known
        },
        action is Pong <==> event is Ping,
        action is Pong ==> action->Pong_0@ == event->Ping_0@,
        action is ReadForPoll <==> event is PollTick && !conn.debounce_pending,
        action is DisarmAndRead <==> event == (Event::DebounceElapsed { suppressed: false }),
        action is DisarmDebounce <==> event == (Event::DebounceElapsed { suppressed: true }),
        action is ArmDebounce <==> {
            ||| event is FileChanged
            ||| event matches Event::Polled(Some(content)) && content_hash(content@)
                != conn.last_poll_hash
        },
        event is Ping || event is OtherMessage || event is PollTick ==> next == conn && next_engine
            == engine,
        event is OtherMessage ==> action == Action::Wait,
{
}

/// A change waits to be looked at from when the debounce timer starts until it has
/// run out, and at no other time.
pub proof fn law_pending_while_debounced(
    conn: Connection,
    engine: EngineView,
    event: Event,
    next: Connection,
    next_engine: EngineView,
    action: Action,
)
    requires
        is_step(conn, engine, event, next, next_engine, action),
    ensures
        next.debounce_pending == (action is ArmDebounce || (conn.debounce_pending
            && !(event is DebounceElapsed))),
{
}

/// The hash that is kept is that of the text that the file had when it was last read
/// or written, and changes at no other time.
pub proof fn law_kept_hash_is_that_of_the_file(
    conn: Connection,
    engine: EngineView,
    event: Event,
    next: Connection,
    next_engine: EngineView,
    action: Action,
)
    requires
        is_step(conn, engine, event, next, next_engine, action),
    ensures
        next.last_poll_hash == (match (event, action) {
            (Event::Polled(Some(content)), _) => DefaultHasher::spec_finish(str_writes(content@)),
            (Event::FileRead(Some(content)), _) => DefaultHasher::spec_finish(
                str_writes(content@),
            ),
            (_, Action::WriteFile(text)) => DefaultHasher::spec_finish(str_writes(text@)),
            _ => conn.last_poll_hash,
        }),
{
}

/// Every event can be handled, but for a content of the file that cannot be taken: one
/// that is not known already, and that the counters have no room for or that the
/// snapshot is out of step for.
pub proof fn law_which_events_can_be_handled(engine: EngineView, event: Event)
    ensures
        can_handle(engine, event) <==> (event matches Event::FileRead(Some(content)) ==> {
            &&& engine.in_step()
            &&& content@ == engine.known || engine.state.has_room(byte_len(content@))
        }),
{
}

/// The shared text changes only by an edit of the file or an update of a peer, and
/// what the engine holds never gets less.
pub proof fn law_nothing_held_is_lost(
    conn: Connection,
    engine: EngineView,
    event: Event,
    next: Connection,
    next_engine: EngineView,
    action: Action,
)
    requires
        is_step(conn, engine, event, next, next_engine, action),
    ensures
        !(event is FileRead) && !(event is Binary) ==> next_engine == engine,
        engine.state.updates.subset_of(next_engine.state.updates),
        engine.state.updates.union(engine.waiting).subset_of(
            next_engine.state.updates.union(next_engine.waiting),
        ),
{
    if let Event::FileRead(Some(content)) = event {
        if content@ != engine.known {
            law_edit_is_broadcast(conn, engine, content, next, next_engine, action);
        }
    }
}

/// Texts that a hasher tells apart are told apart.
pub proof fn law_changed_content_has_another_hash(text1: Seq<char>, text2: Seq<char>)
    requires
        DefaultHasher::spec_finish(str_writes(text1)) != DefaultHasher::spec_finish(
            str_writes(text2),
        ),
    ensures
        content_hash(text1) != content_hash(text2),
{
}

/// A peer's request is replied to; a peer that takes the reply then has all that
/// the replying peer had, which stays as it was, and its file gets the merged text
/// unless it had that text already. What the two hold must go together.
pub proof fn law_request_brings_peer_up_to_date(
    request: Seq<u8>,
    asker: EngineView,
    asker_hash: u64,
    replier: EngineView,
    replier_hash: u64,
    replier_after: EngineView,
    replier_hash_after: u64,
    reply: Action,
    asker_after: EngineView,
    asker_hash_after: u64,
    action: Action,
)
    requires
        consistent(asker.state),
        asker.waiting == Set::<Seq<u8>>::empty(),
        consistent(replier.state),
        request.len() <= usize::MAX,
        asker.state.has_space(byte_len(replier.state.text)),
        is_request(request, asker.state.clocks),
        message_handled(
            request,
            replier,
            replier_hash,
            replier_after,
            replier_hash_after,
            reply,
        ),
        reply matches Action::Send(message) ==> message_handled(
            message@,
            asker,
            asker_hash,
            asker_after,
            asker_hash_after,
            action,
        ),
        uncut(asker.state.updates.union(replier.state.updates)),
        go_together(asker.state.updates.union(replier.state.updates)),
    ensures
        reply is Send,
        replier_after == replier,
        replier_hash_after == replier_hash,
        action is WriteFile || action is Wait,
        asker_after.known != asker.known ==> action is WriteFile && action->WriteFile_0@
            == asker_after.known && asker_hash_after == content_hash(asker_after.known),
        asker_after.known == asker.known ==> action == Action::Wait && asker_hash_after
            == asker_hash,
        asker_after.mirrors(),
        asker_after.known == merged_text(asker.state.updates.union(replier.state.updates)),
        synced(
            asker_after.state.updates,
            asker.state.updates.union(replier.state.updates),
        ),
        asker.state.updates.subset_of(replier.state.updates) ==> asker_after.known
            == replier.state.text,
{
    let sv = choose|sv: Seq<u8>|
        encodes_clocks(sv, asker.state.clocks) && request == #[trigger] frame(
            SYNC_STEP1,
            sv,
        );
    law_frame_round_trip(SYNC_STEP1, sv, Seq::empty());
    assert(request + Seq::<u8>::empty() =~= request);
    assert(message_of(request) == Some((SYNC_STEP1, sv)));
    let message = reply->Send_0;
    let diff = choose|diff: Seq<u8>|
        message@ == #[trigger] frame(SYNC_STEP2, diff) && fills_gap(
            diff,
            peer_clocks(sv),
            replier.state.updates,
        );
    lemma_message_of_frame(message, SYNC_STEP2, diff);
    assert(is_update(diff)) by {
        assert(crate::replica::counts(
            asker.state.clocks,
            crate::history::held_ids(asker.state.updates),
        ));
    }
    law_reply_brings_peer_up_to_date(replier.state, asker, diff, asker_after);
    if asker.state.updates.subset_of(replier.state.updates) {
        assert(asker.state.updates.union(replier.state.updates) =~= replier.state.updates);
    }
}

/// An edit is broadcast. A peer that receives the broadcast, and was in sync before
/// it, has the same text as the peer that made the edit, is in sync with it again,
/// and its file gets that text unless it had it already.
pub proof fn law_broadcast_reaches_peer(
    content: Seq<char>,
    editor: EngineView,
    editor_after: EngineView,
    editor_hash: u64,
    sent: Action,
    peer: EngineView,
    peer_hash: u64,
    peer_after: EngineView,
    peer_hash_after: u64,
    action: Action,
)
    requires
        consistent(editor.state),
        consistent(peer.state),
        peer.waiting == Set::<Seq<u8>>::empty(),
        synced(editor.state.updates, peer.state.updates),
        editor.mirrors(),
        content != editor.known,
        content_taken(content, editor, editor_after, editor_hash, sent),
        sent matches Action::Send(message) ==> message_handled(
            message@,
            peer,
            peer_hash,
            peer_after,
            peer_hash_after,
            action,
        ),
    ensures
        sent is Send,
        editor_after.known == content,
        editor_after.state.text == content,
        action is WriteFile || action is Wait,
        peer.known != content ==> action is WriteFile && action->WriteFile_0@ == content
            && peer_hash_after == content_hash(content),
        peer.known == content ==> action == Action::Wait && peer_hash_after == peer_hash,
        peer_after.mirrors(),
        peer_after.known == content,
        synced(editor_after.state.updates, peer_after.state.updates),
{
    let message = sent->Send_0;
    let update = choose|update: Seq<u8>|
        message@ == #[trigger] frame(SYNC_UPDATE, update) && changed_to(
            editor,
            content,
            Some(update),
            editor_after,
        );
    lemma_message_of_frame(message, SYNC_UPDATE, update);
    law_edit_reaches_peer(
        editor.state,
        peer,
        update,
        editor_after.state,
        peer_after,
    );
}

} // verus!
