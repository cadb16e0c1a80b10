//! UDP proxying for the `stream` block.
//!
//! UDP has no connections, so a session has to be invented: the first datagram from an
//! address starts one, later datagrams from the same address join it, and it ends on a
//! timer or on a count of replies.

use vstd::prelude::*;

use crate::config::ListenAddr;

verus! {

/// The largest datagram we will accept. A UDP payload cannot exceed this, so a buffer
/// of this size can never truncate one.
pub const MAX_DATAGRAM: usize = 65535;

/// A UDP socket listens on a network address, never on a path.
pub fn bind<'a>(addr: &'a ListenAddr) -> (r: Result<&'a Vec<u8>, &'a Vec<u8>>)
    ensures
        match addr {
            ListenAddr::Tcp(a) => r == Ok::<&Vec<u8>, &Vec<u8>>(a),
            ListenAddr::Unix(p) => r == Err::<&Vec<u8>, &Vec<u8>>(p),
        },
{
    match addr {
        ListenAddr::Tcp(a) => Ok(a),
        ListenAddr::Unix(p) => Err(p),
    }
}

/// A session.
#[derive(Debug, Clone, Copy, PartialEq, Eq, Structural)]
pub struct Session {
    pub responses: u64,
    pub sent_any: bool,
}

/// What happened in a session.
#[derive(Debug, Clone, Copy, PartialEq, Eq, Structural)]
pub enum SessionEvent {
    /// The peer's address could not be found, or it could not be connected to.
    Unreachable,
    /// A datagram of the client was passed on, or could not be.
    FromClient { passed: bool },
    /// The client's datagrams ended.
    ClientGone,
    /// A reply arrived, and was passed to the client or could not be.
    FromPeer { passed: bool },
    /// The peer does not listen.
    PeerFailed,
    /// Nothing happened for the whole of `proxy_timeout`.
    Idle,
}

/// What follows in a session: whether it goes on, and what is noted of the peer's
/// health.
#[derive(Debug, Clone, Copy, PartialEq, Eq, Structural)]
pub struct SessionStep {
    pub goes_on: bool,
    /// `Some(true)` for a success, `Some(false)` for a failure.
    pub health: Option<bool>,
}

/// What follows in a session. `wanted` is `proxy_responses`: once so many replies came,
/// the exchange is complete. Silence after something was passed on is the peer failing
/// to answer, unless no answer was expected.
pub open spec fn session_next(s: Session, e: SessionEvent, wanted: Option<u64>) -> (
    Session,
    SessionStep,
) {
    match e {
        SessionEvent::Unreachable => (s, SessionStep { goes_on: false, health: Some(false) }),
        SessionEvent::FromClient { passed } => if passed {
            (Session { sent_any: true, ..s }, SessionStep { goes_on: true, health: None })
        } else {
            (s, SessionStep { goes_on: false, health: Some(false) })
        },
        SessionEvent::ClientGone => (s, SessionStep { goes_on: false, health: None }),
        SessionEvent::FromPeer { passed } => if passed {
            let more = Session { responses: (s.responses + 1) as u64, ..s };
            (
                more,
                SessionStep {
                    goes_on: match wanted {
                        Some(n) => more.responses < n,
                        None => true,
                    },
                    health: Some(true),
                },
            )
        } else {
            (s, SessionStep { goes_on: false, health: None })
        },
        SessionEvent::PeerFailed => (s, SessionStep { goes_on: false, health: Some(false) }),
        SessionEvent::Idle => (
            s,
            SessionStep {
                goes_on: false,
                health: if s.sent_any && s.responses == 0 && wanted != Some(0u64) {
                    Some(false)
                } else {
                    None
                },
            },
        ),
    }
}

impl Session {
    pub fn new() -> (r: Session)
        ensures
            r == (Session { responses: 0, sent_any: false }),
    {
        Session { responses: 0, sent_any: false }
    }

    /// Takes note of what happened and says what follows.
    pub fn next(&mut self, e: SessionEvent, wanted: Option<u64>) -> (r: SessionStep)
        requires
            old(self).responses < u64::MAX,
        ensures
            (*final(self), r) == session_next(*old(self), e, wanted),
    {
        match e {
            SessionEvent::Unreachable => SessionStep { goes_on: false, health: Some(false) },
            SessionEvent::FromClient { passed } => {
                if passed {
                    self.sent_any = true;
                    SessionStep { goes_on: true, health: None }
                } else {
                    SessionStep { goes_on: false, health: Some(false) }
                }
            },
            SessionEvent::ClientGone => SessionStep { goes_on: false, health: None },
            SessionEvent::FromPeer { passed } => {
                if passed {
                    self.responses = self.responses + 1;
                    let goes_on: bool = match wanted {
                        Some(n) => self.responses < n,
                        None => true,
                    };
                    SessionStep { goes_on, health: Some(true) }
                } else {
                    SessionStep { goes_on: false, health: None }
                }
            },
            SessionEvent::PeerFailed => SessionStep { goes_on: false, health: Some(false) },
            SessionEvent::Idle => {
                let unanswered: bool = self.sent_any && self.responses == 0 && match wanted {
                    Some(n) => n != 0,
                    None => true,
                };
                SessionStep {
                    goes_on: false,
                    health: if unanswered {
                        Some(false)
                    } else {
                        None
                    },
                }
            },
        }
    }
}

/// A session that expects `n` replies ends with the `n`th.
pub proof fn law_enough_replies_end_a_session(s: Session, n: u64)
    requires
        s.responses < u64::MAX,
        s.responses + 1 >= n,
    ensures
        !session_next(s, SessionEvent::FromPeer { passed: true }, Some(n)).1.goes_on,
{
}

/// A peer from which no answer was expected is not blamed for its silence.
pub proof fn law_expected_silence_is_no_failure(s: Session)
    ensures
        session_next(s, SessionEvent::Idle, Some(0)).1.health is None,
{
}

} // verus!
