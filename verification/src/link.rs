use vstd::prelude::*;

verus! {

/// Milliseconds without a word from the server after which the client gives
/// the connection up.
pub const CONNECTION_TIMEOUT_MS: u64 = 15000;

/// Milliseconds of silence after which a connected client sends a keep-alive.
pub const KEEPALIVE_INTERVAL_MS: u64 = 2000;

/// Milliseconds between connection attempts while not connected.
pub const HANDSHAKE_INTERVAL_MS: u64 = 200;

/// What a `Connected` packet did to the client's side of the connection.
#[derive(Clone, Copy, Debug, PartialEq, Eq, Structural)]
pub enum ConnectedOutcome {
    /// Not for this client's connection; nothing changed.
    Ignored,
    /// A repeat for the current session: the server is alive.
    Seen,
    /// The connection is up; `fresh` says that it is another connection than
    /// the last (another session or generation), so its channels start afresh.
    Established { fresh: bool },
}

/// What the client's timers ask for.
#[derive(Clone, Copy, Debug, PartialEq, Eq, Structural)]
pub enum TimerAction {
    Idle,
    /// The server fell silent: the connection is down, and a plain connection
    /// attempt follows.
    TimedOut,
    KeepAlive { session: u64 },
    /// Another connection attempt, replacing `replace` when set, followed by
    /// the answer to `challenge` when one was answered.
    Handshake { replace: Option<u64>, challenge: Option<u64> },
}

/// The client's side of the connection handshake: whether it is connected,
/// the session and generation the server gave it last, the session a new
/// connection should replace, and the challenge it answered.
#[derive(Clone, Copy, Debug, PartialEq, Eq, Structural)]
pub struct ClientLink {
    pub connected: bool,
    pub session: Option<u64>,
    pub generation: Option<u32>,
    pub replace_session: Option<u64>,
    pub challenge: Option<u64>,
}

impl ClientLink {
    /// A connected link knows its session and generation.
    pub open spec fn wf(self) -> bool {
        self.connected ==> self.session is Some && self.generation is Some
    }

    /// Packets of session `incoming` belong to the current connection.
    pub open spec fn spec_is_current(self, incoming: u64) -> bool {
        self.connected && self.session == Some(incoming)
    }

    pub open spec fn spec_on_challenge(self, token: u64) -> (Self, Option<u64>) {
        if self.connected {
            (self, None)
        } else {
            (ClientLink { challenge: Some(token), ..self }, Some(token))
        }
    }

    pub open spec fn spec_on_connected(self, session: u64, generation: u32) -> (Self, ConnectedOutcome) {
        if !self.connected && self.replace_session != Some(session) {
            let fresh = (self.session is Some && self.session != Some(session)) || self.generation != Some(generation);
            (
                ClientLink {
                    connected: true,
                    session: Some(session),
                    generation: Some(generation),
                    replace_session: None,
                    challenge: None,
                },
                ConnectedOutcome::Established { fresh },
            )
        } else if self.session == Some(session) {
            (self, ConnectedOutcome::Seen)
        } else {
            (self, ConnectedOutcome::Ignored)
        }
    }

    pub open spec fn spec_on_disconnect(self, session: u64) -> (Self, bool) {
        if self.spec_is_current(session) {
            (
                ClientLink {
                    connected: false,
                    session: None,
                    generation: None,
                    replace_session: self.session,
                    challenge: None,
                },
                true,
            )
        } else {
            (self, false)
        }
    }

    pub open spec fn spec_on_timer(self, since_seen_ms: u64, since_sent_ms: u64) -> (Self, TimerAction) {
        if self.connected && since_seen_ms >= CONNECTION_TIMEOUT_MS {
            (ClientLink { connected: false, replace_session: None, challenge: None, ..self }, TimerAction::TimedOut)
        } else if self.connected && since_sent_ms >= KEEPALIVE_INTERVAL_MS {
            (self, TimerAction::KeepAlive { session: self.session->0 })
        } else if !self.connected && since_sent_ms >= HANDSHAKE_INTERVAL_MS {
            (self, TimerAction::Handshake { replace: self.replace_session, challenge: self.challenge })
        } else {
            (self, TimerAction::Idle)
        }
    }

    /// Not connected, with nothing known of any connection.
    pub fn new() -> (l: Self)
        ensures
            l.wf(),
            !l.connected,
            l.session is None,
            l.generation is None,
            l.replace_session is None,
            l.challenge is None,
    {
        ClientLink { connected: false, session: None, generation: None, replace_session: None, challenge: None }
    }

    /// Whether packets of session `incoming` belong to the current connection.
    pub fn is_current(&self, incoming: u64) -> (r: bool)
        ensures
            r == self.spec_is_current(incoming),
    {
        self.connected && match self.session {
            Some(s) => s == incoming,
            None => false,
        }
    }

    /// A challenge from the server: while not connected it is answered (the
    /// token is returned and kept for resending); once connected it is ignored.
    pub fn on_challenge(&mut self, token: u64) -> (reply: Option<u64>)
        requires
            old(self).wf(),
        ensures
            final(self).wf(),
            (*final(self), reply) == old(self).spec_on_challenge(token),
    {
        if self.connected {
            None
        } else {
            self.challenge = Some(token);
            Some(token)
        }
    }

    /// The server accepted the client into `session` of `generation`. Taken
    /// while not connected, unless it is the session the client is leaving;
    /// a repeat of the current session only shows that the server is alive.
    pub fn on_connected(&mut self, session: u64, generation: u32) -> (outcome: ConnectedOutcome)
        requires
            old(self).wf(),
        ensures
            final(self).wf(),
            (*final(self), outcome) == old(self).spec_on_connected(session, generation),
    {
        let leaving = match self.replace_session {
            Some(s) => s == session,
            None => false,
        };
        if !self.connected && !leaving {
            let session_changed = match self.session {
                Some(s) => s != session,
                None => false,
            };
            let generation_changed = match self.generation {
                Some(g) => g != generation,
                None => true,
            };
            self.connected = true;
            self.session = Some(session);
            self.generation = Some(generation);
            self.replace_session = None;
            self.challenge = None;
            ConnectedOutcome::Established { fresh: session_changed || generation_changed }
        } else {
            let same = match self.session {
                Some(s) => s == session,
                None => false,
            };
            if same {
                ConnectedOutcome::Seen
            } else {
                ConnectedOutcome::Ignored
            }
        }
    }

    /// The server closed `session`. When it is the current one the link goes
    /// down, forgets the session and generation, and remembers the session so
    /// that the next attempt replaces it; returns whether that happened.
    pub fn on_disconnect(&mut self, session: u64) -> (down: bool)
        requires
            old(self).wf(),
        ensures
            final(self).wf(),
            (*final(self), down) == old(self).spec_on_disconnect(session),
    {
        if self.is_current(session) {
            self.replace_session = self.session;
            self.connected = false;
            self.session = None;
            self.generation = None;
            self.challenge = None;
            true
        } else {
            false
        }
    }

    /// What is due after `since_seen_ms` milliseconds without a word from the
    /// server and `since_sent_ms` milliseconds since the client last sent:
    /// giving the connection up, a keep-alive, another connection attempt, or
    /// nothing, in that order of precedence.
    pub fn on_timer(&mut self, since_seen_ms: u64, since_sent_ms: u64) -> (action: TimerAction)
        requires
            old(self).wf(),
        ensures
            final(self).wf(),
            (*final(self), action) == old(self).spec_on_timer(since_seen_ms, since_sent_ms),
    {
        if self.connected && since_seen_ms >= CONNECTION_TIMEOUT_MS {
            self.connected = false;
            self.replace_session = None;
            self.challenge = None;
            TimerAction::TimedOut
        } else if self.connected && since_sent_ms >= KEEPALIVE_INTERVAL_MS {
            match self.session {
                Some(session) => TimerAction::KeepAlive { session },
                None => TimerAction::Idle,
            }
        } else if !self.connected && since_sent_ms >= HANDSHAKE_INTERVAL_MS {
            TimerAction::Handshake { replace: self.replace_session, challenge: self.challenge }
        } else {
            TimerAction::Idle
        }
    }
}

/// How the server answers a handshake packet.
#[derive(Clone, Copy, Debug, PartialEq, Eq, Structural)]
pub enum ServerReply {
    /// Send the address its session and generation again.
    Connected,
    /// Send a (new) challenge.
    Challenge,
    /// Accept the address as a new client, then send it its session.
    Admit,
}

/// The server's answer to `Connect { replace }` from an address connected in
/// session `current` (None when not connected): the connection is dropped first
/// exactly when the client asks to replace that very session (`true`), and the
/// address, connected or not after that, is sent its session or a challenge.
pub fn connect_reply(current: Option<u64>, replace: Option<u64>) -> (r: (bool, ServerReply))
    ensures
        r.0 == (current is Some && replace == current),
        r.1 == if current is Some && !r.0 {
            ServerReply::Connected
        } else {
            ServerReply::Challenge
        },
{
    match current {
        Some(session) => {
            let restart = match replace {
                Some(old) => old == session,
                None => false,
            };
            if restart {
                (true, ServerReply::Challenge)
            } else {
                (false, ServerReply::Connected)
            }
        },
        None => (false, ServerReply::Challenge),
    }
}

/// The server's answer to a challenge response: a connected address is sent its
/// session again, a valid token is admitted, anything else gets a new challenge.
pub fn challenge_response_reply(connected: bool, token_valid: bool) -> (r: ServerReply)
    ensures
        r == if connected {
            ServerReply::Connected
        } else if token_valid {
            ServerReply::Admit
        } else {
            ServerReply::Challenge
        },
{
    if connected {
        ServerReply::Connected
    } else if token_valid {
        ServerReply::Admit
    } else {
        ServerReply::Challenge
    }
}

/// Only the server's `Connected` brings a link up: a challenge, a disconnect and
/// the timers never do.
pub proof fn lemma_only_connected_brings_up(l: ClientLink, token: u64, session: u64, seen: u64, sent: u64)
    requires
        l.wf(),
        !l.connected,
    ensures
        !l.spec_on_challenge(token).0.connected,
        !l.spec_on_disconnect(session).0.connected,
        !l.spec_on_timer(seen, sent).0.connected,
{
}

/// Once established, the link takes the session and generation it was given,
/// and packets of that session are current.
pub proof fn lemma_established_is_current(l: ClientLink, session: u64, generation: u32)
    requires
        l.wf(),
        l.spec_on_connected(session, generation).1 is Established,
    ensures
        l.spec_on_connected(session, generation).0.spec_is_current(session),
        l.spec_on_connected(session, generation).0.generation == Some(generation),
{
}

/// After the server closes the current session, a late `Connected` for that
/// same session does not bring the link back up.
pub proof fn lemma_closed_session_stays_closed(l: ClientLink, session: u64, generation: u32)
    requires
        l.wf(),
        l.spec_is_current(session),
    ensures
        l.spec_on_disconnect(session).1,
        l.spec_on_disconnect(session).0.spec_on_connected(session, generation).1 == ConnectedOutcome::Ignored,
        !l.spec_on_disconnect(session).0.spec_on_connected(session, generation).0.connected,
{
}

/// A link that timed out and is accepted again into the same session and
/// generation carries on with the same connection (not fresh); into another
/// session or generation, it starts afresh.
pub proof fn lemma_timeout_then_same_session_resumes(
    l: ClientLink,
    seen: u64,
    sent: u64,
    session: u64,
    generation: u32,
)
    requires
        l.wf(),
        l.connected,
        seen >= CONNECTION_TIMEOUT_MS,
    ensures
        ({
            let (down, action) = l.spec_on_timer(seen, sent);
            &&& action == TimerAction::TimedOut
            &&& down.spec_on_connected(session, generation).1 == ConnectedOutcome::Established {
                fresh: l.session != Some(session) || l.generation != Some(generation),
            }
        }),
{
}

/// While not connected, the client retries the handshake every
/// `HANDSHAKE_INTERVAL_MS`, however long the server has been silent: a timer
/// with at least that long since the last send asks for a connection attempt
/// replacing `replace_session` and repeating the answered challenge, and a
/// shorter one asks for nothing. Neither changes the link.
pub proof fn lemma_unconnected_timer(l: ClientLink, since_seen_ms: u64, since_sent_ms: u64)
    requires
        l.wf(),
        !l.connected,
    ensures
        l.spec_on_timer(since_seen_ms, since_sent_ms).0 == l,
        since_sent_ms >= HANDSHAKE_INTERVAL_MS ==> l.spec_on_timer(since_seen_ms, since_sent_ms).1
            == (TimerAction::Handshake { replace: l.replace_session, challenge: l.challenge }),
        since_sent_ms < HANDSHAKE_INTERVAL_MS ==> l.spec_on_timer(since_seen_ms, since_sent_ms).1 == TimerAction::Idle,
{
}

/// A connected client gives the connection up once the server has been silent
/// for `CONNECTION_TIMEOUT_MS`, whatever it sent: it goes down keeping its
/// session and generation, with nothing to replace and no challenge. Before
/// that it sends a keep-alive for its session after `KEEPALIVE_INTERVAL_MS`
/// without sending, and otherwise does nothing; the link stays as it was.
pub proof fn lemma_connected_timer(l: ClientLink, since_seen_ms: u64, since_sent_ms: u64)
    requires
        l.wf(),
        l.connected,
    ensures
        since_seen_ms >= CONNECTION_TIMEOUT_MS ==> ({
            let (after, action) = l.spec_on_timer(since_seen_ms, since_sent_ms);
            &&& action == TimerAction::TimedOut
            &&& !after.connected
            &&& after.session == l.session
            &&& after.generation == l.generation
            &&& after.replace_session is None
            &&& after.challenge is None
        }),
        since_seen_ms < CONNECTION_TIMEOUT_MS ==> l.spec_on_timer(since_seen_ms, since_sent_ms).0 == l,
        since_seen_ms < CONNECTION_TIMEOUT_MS && since_sent_ms >= KEEPALIVE_INTERVAL_MS ==> l.spec_on_timer(
            since_seen_ms,
            since_sent_ms,
        ).1 == (TimerAction::KeepAlive { session: l.session->0 }),
        since_seen_ms < CONNECTION_TIMEOUT_MS && since_sent_ms < KEEPALIVE_INTERVAL_MS ==> l.spec_on_timer(
            since_seen_ms,
            since_sent_ms,
        ).1 == TimerAction::Idle,
{
}

/// After a timeout the client keeps trying to reconnect: every later timer with
/// at least `HANDSHAKE_INTERVAL_MS` since the last send, however long the server
/// has stayed silent, asks for a plain connection attempt (nothing to replace,
/// no challenge), until a `Connected` brings the link up.
pub proof fn lemma_timed_out_link_retries(l: ClientLink, seen: u64, sent: u64, seen2: u64, sent2: u64)
    requires
        l.wf(),
        l.connected,
        seen >= CONNECTION_TIMEOUT_MS,
        sent2 >= HANDSHAKE_INTERVAL_MS,
    ensures
        ({
            let (down, action) = l.spec_on_timer(seen, sent);
            &&& action == TimerAction::TimedOut
            &&& down.wf()
            &&& down.spec_on_timer(seen2, sent2).1 == (TimerAction::Handshake { replace: None, challenge: None })
            &&& down.spec_on_timer(seen2, sent2).0 == down
        }),
{
}

/// After the server closes the current session, the client's connection
/// attempts ask to replace that session.
pub proof fn lemma_disconnected_link_retries(l: ClientLink, session: u64, seen: u64, sent: u64)
    requires
        l.wf(),
        l.spec_is_current(session),
        sent >= HANDSHAKE_INTERVAL_MS,
    ensures
        l.spec_on_disconnect(session).0.spec_on_timer(seen, sent).1 == (TimerAction::Handshake {
            replace: Some(session),
            challenge: None,
        }),
{
}

/// A challenge is answered only while not connected: the link then remembers the
/// token (and nothing else changes) and the reply echoes it; a connected link
/// ignores it.
pub proof fn lemma_challenge_answer(l: ClientLink, token: u64)
    requires
        l.wf(),
    ensures
        !l.connected ==> l.spec_on_challenge(token) == (ClientLink { challenge: Some(token), ..l }, Some(token)),
        l.connected ==> l.spec_on_challenge(token) == (l, None::<u64>),
        l.spec_on_challenge(token).0.spec_on_timer(0, HANDSHAKE_INTERVAL_MS).1 == if l.connected {
            TimerAction::Idle
        } else {
            (TimerAction::Handshake { replace: l.replace_session, challenge: Some(token) })
        },
{
}

/// A `Connected` brings an unconnected link up in the session and generation it
/// carries, unless it is for the session the link asked to replace; the
/// connection is fresh exactly when it differs from the last one in session or
/// generation. Any other `Connected` leaves the link alone, and is `Seen` exactly
/// when it is for the link's session.
pub proof fn lemma_connected_packet(l: ClientLink, session: u64, generation: u32)
    requires
        l.wf(),
    ensures
        ({
            let (after, outcome) = l.spec_on_connected(session, generation);
            &&& after.wf()
            &&& if !l.connected && l.replace_session != Some(session) {
                &&& after.connected
                &&& after.session == Some(session)
                &&& after.generation == Some(generation)
                &&& after.replace_session is None
                &&& after.challenge is None
                &&& outcome == (ConnectedOutcome::Established {
                    fresh: (l.session is Some && l.session != Some(session)) || l.generation != Some(generation),
                })
            } else {
                &&& after == l
                &&& outcome == if l.session == Some(session) {
                    ConnectedOutcome::Seen
                } else {
                    ConnectedOutcome::Ignored
                }
            }
        }),
{
}

/// A disconnect for the current session takes the link down, forgetting the
/// session and generation and remembering the session as the one to replace;
/// for any other session it changes nothing.
pub proof fn lemma_disconnect_packet(l: ClientLink, session: u64)
    requires
        l.wf(),
    ensures
        ({
            let (after, down) = l.spec_on_disconnect(session);
            &&& down == (l.connected && l.session == Some(session))
            &&& down ==> after == (ClientLink {
                connected: false,
                session: None,
                generation: None,
                replace_session: Some(session),
                challenge: None,
            })
            &&& !down ==> after == l
        }),
{
}

} // verus!
