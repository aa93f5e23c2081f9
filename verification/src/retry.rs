//! The retry decisions of HTTP requests and of WebSocket reconnection.

use vstd::prelude::*;

verus! {

/// Attempts of a request that is retried after failures, with a pause between
/// two attempts.
pub struct Retry<E> {
    made: usize,
    max: usize,
    last_error: Option<E>,
}

impl<E> Retry<E> {
    /// The attempts made so far.
    pub closed spec fn made(&self) -> nat {
        self.made as nat
    }

    /// The number of attempts allowed.
    pub closed spec fn max(&self) -> nat {
        self.max as nat
    }

    /// The error of the last failed attempt.
    pub closed spec fn last_error(&self) -> Option<E> {
        self.last_error
    }

    /// No attempt made yet, `max_attempts` allowed.
    pub fn new(max_attempts: usize) -> (r: Self)
        ensures
            r.made() == 0,
            r.max() == max_attempts,
            r.last_error() is None,
    {
        Retry { made: 0, max: max_attempts, last_error: None }
    }

    /// Starts the next attempt if one is left.
    pub fn begin(&mut self) -> (r: bool)
        ensures
            r == (old(self).made() < old(self).max()),
            final(self).made() == if r {
                old(self).made() + 1
            } else {
                old(self).made()
            },
            final(self).max() == old(self).max(),
            final(self).last_error() == old(self).last_error(),
            old(self).made() <= old(self).max() ==> final(self).made() <= final(self).max(),
    {
        if self.made < self.max {
            self.made = self.made + 1;
            true
        } else {
            false
        }
    }

    /// Records the failure of the attempt under way; the result says whether to
    /// pause before the next one, which is so exactly when another attempt is
    /// left.
    pub fn fail(&mut self, e: E) -> (r: bool)
        ensures
            final(self).made() == old(self).made(),
            final(self).max() == old(self).max(),
            final(self).last_error() == Some(e),
            r == (old(self).made() < old(self).max()),
    {
        self.last_error = Some(e);
        self.made < self.max
    }

    /// Gives up: the error of the last failed attempt, if any attempt was made.
    pub fn give_up(self) -> (r: Option<E>)
        ensures
            r == self.last_error(),
    {
        self.last_error
    }
}

/// How a connection attempt ended before the session began.
pub enum Connect {
    /// The handshake succeeded: the session is under way.
    Connected,
    /// The attempt failed.
    Failed,
    /// The connection ended before the handshake response came.
    EndedEarly,
}

/// What to do after a connection attempt.
#[derive(Debug, PartialEq, Eq)]
pub enum ConnectStep {
    /// Serve the session; `notify_open` and `watch_close` say whether to send
    /// the open signal and to arm the close signal now (the first time only).
    Serve { notify_open: bool, watch_close: bool },
    /// Pause, then try again if an attempt is left.
    RetryAfterPause,
    /// Stop reconnecting.
    Stop,
}

/// How a session ended.
pub enum SessionEnd {
    /// The peer closed the connection normally.
    Closed,
    /// The connection was lost.
    Lost,
}

/// What to do after a session.
#[derive(Debug, PartialEq, Eq)]
pub enum SessionStep {
    /// Stop reconnecting.
    Stop,
    /// Reconnect, pausing first when `pause` holds.
    Reconnect { pause: bool },
}

/// The reconnection of a WebSocket route: up to `max` attempts, the open signal
/// sent on the first successful connection, the close signal armed once.
pub struct Reconnect {
    made: usize,
    max: usize,
    open_sent: bool,
    close_armed: bool,
}

impl Reconnect {
    /// The attempts made so far.
    pub closed spec fn made(&self) -> nat {
        self.made as nat
    }

    /// The number of attempts allowed.
    pub closed spec fn max(&self) -> nat {
        self.max as nat
    }

    /// Whether the open signal was sent.
    pub closed spec fn open_sent(&self) -> bool {
        self.open_sent
    }

    /// Whether the close signal is armed.
    pub closed spec fn close_armed(&self) -> bool {
        self.close_armed
    }

    /// No attempt made yet.
    pub fn new(max_attempts: usize) -> (r: Self)
        ensures
            r.made() == 0,
            r.max() == max_attempts,
            !r.open_sent(),
            !r.close_armed(),
    {
        Reconnect { made: 0, max: max_attempts, open_sent: false, close_armed: false }
    }

    /// Starts the next attempt if one is left.
    pub fn begin(&mut self) -> (r: bool)
        ensures
            r == (old(self).made() < old(self).max()),
            final(self).made() == if r {
                old(self).made() + 1
            } else {
                old(self).made()
            },
            final(self).max() == old(self).max(),
            final(self).open_sent() == old(self).open_sent(),
            final(self).close_armed() == old(self).close_armed(),
            old(self).made() <= old(self).max() ==> final(self).made() <= final(self).max(),
    {
        if self.made < self.max {
            self.made = self.made + 1;
            true
        } else {
            false
        }
    }

    /// Decides what follows a connection attempt.
    pub fn on_connect(&mut self, outcome: Connect) -> (r: ConnectStep)
        ensures
            final(self).made() == old(self).made(),
            final(self).max() == old(self).max(),
            match outcome {
                Connect::Connected => r == ConnectStep::Serve {
                    notify_open: !old(self).open_sent(),
                    watch_close: !old(self).close_armed(),
                } && final(self).open_sent() && final(self).close_armed(),
                Connect::Failed => r == ConnectStep::RetryAfterPause && final(self).open_sent()
                    == old(self).open_sent() && final(self).close_armed() == old(self).close_armed(),
                Connect::EndedEarly => r == ConnectStep::Stop && final(self).open_sent() == old(
                    self,
                ).open_sent() && final(self).close_armed() == old(self).close_armed(),
            },
    {
        match outcome {
            Connect::Connected => {
                let notify_open = !self.open_sent;
                let watch_close = !self.close_armed;
                self.open_sent = true;
                self.close_armed = true;
                ConnectStep::Serve { notify_open, watch_close }
            },
            Connect::Failed => ConnectStep::RetryAfterPause,
            Connect::EndedEarly => ConnectStep::Stop,
        }
    }

    /// Decides what follows the end of a session: a normal close stops; a lost
    /// connection reconnects, pausing first unless no attempt is left.
    pub fn on_session_end(&self, end: SessionEnd) -> (r: SessionStep)
        ensures
            match end {
                SessionEnd::Closed => r == SessionStep::Stop,
                SessionEnd::Lost => r == SessionStep::Reconnect { pause: self.made() < self.max() },
            },
    {
        match end {
            SessionEnd::Closed => SessionStep::Stop,
            SessionEnd::Lost => SessionStep::Reconnect { pause: self.made < self.max },
        }
    }
}

/// The number of open signals that a run of connection outcomes sends, as
/// [`Reconnect::on_connect`] decides them, from a state where the signal was
/// sent already or not.
pub open spec fn open_signals(outcomes: Seq<Connect>, open_sent: bool) -> nat
    decreases outcomes.len(),
{
    if outcomes.len() == 0 {
        0
    } else {
        match outcomes[0] {
            Connect::Connected => (if open_sent {
                0nat
            } else {
                1nat
            }) + open_signals(outcomes.drop_first(), true),
            _ => open_signals(outcomes.drop_first(), open_sent),
        }
    }
}

/// The open signal goes out at most once, however the connection attempts
/// end, and never again once it was sent.
pub proof fn lemma_open_signal_once(outcomes: Seq<Connect>)
    ensures
        open_signals(outcomes, false) <= 1,
        open_signals(outcomes, true) == 0,
    decreases outcomes.len(),
{
    if outcomes.len() > 0 {
        lemma_open_signal_once(outcomes.drop_first());
    }
}

} // verus!
