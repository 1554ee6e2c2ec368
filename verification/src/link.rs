//! How the connection to one peer is kept up.
//!
//! The shell runs one loop for each peer: it performs the step it is told,
//! reports how that ended, and is told the next one. Delays are milliseconds.

use vstd::prelude::*;

verus! {

/// The delay after a first failure.
pub const BACKOFF_INITIAL: u64 = 1_000;

/// The longest delay.
pub const BACKOFF_MAX: u64 = 60_000;

/// How long an unknown incoming peer gets to present its code.
pub const ENROLL_TIMEOUT: u64 = 10_000;

/// How many times to try binding a forwarded port before giving up.
pub const BIND_ATTEMPTS: u32 = 5;

/// The delay between bind attempts.
pub const BIND_RETRY_DELAY: u64 = 200;

/// What the loop of a peer does next.
#[derive(Copy, Clone, PartialEq, Eq, Debug)]
pub enum LinkStep {
    /// Serve the peer's connection until it ends
    Serve,
    /// Wait for the peer to connect
    Await,
    /// Wait `delay`, or until the peer connects
    Retry { delay: u64 },
    /// Dial the peer
    Dial,
    /// End: the peer is gone
    Exit,
}

/// How a step ended.
#[derive(Copy, Clone, PartialEq, Eq, Debug)]
pub enum LinkEvent {
    /// The connection ended
    Ended,
    /// The loop was woken: the peer connected, or is gone
    Woken,
    /// The delay is over
    Elapsed,
    /// Dialing reached the peer
    Dialed,
    /// Dialing failed
    DialFailed,
}

/// The loop of one peer.
#[derive(Copy, Clone, PartialEq, Eq, Debug)]
pub struct Link {
    /// Whether we dial the peer; one that we do not dial phones home
    pub dial: bool,
    /// The delay before the next dial
    pub backoff: u64,
}

/// The delay after one more failure. The first dial of a peer that was never
/// reached is immediate; from the first failure on the delay doubles up to its
/// limit.
pub open spec fn grown(backoff: u64) -> u64 {
    if backoff == 0 {
        BACKOFF_INITIAL
    } else if backoff * 2 >= BACKOFF_MAX {
        BACKOFF_MAX
    } else {
        (backoff * 2) as u64
    }
}

/// The step at the top of the loop.
pub open spec fn top_step(l: Link, removed: bool, connected: bool) -> LinkStep {
    if removed {
        LinkStep::Exit
    } else if connected {
        LinkStep::Serve
    } else {
        idle_step(l, removed)
    }
}

/// The step of a peer without a connection to serve.
pub open spec fn idle_step(l: Link, removed: bool) -> LinkStep {
    if removed {
        LinkStep::Exit
    } else if l.dial {
        LinkStep::Retry { delay: l.backoff }
    } else {
        LinkStep::Await
    }
}

/// The loop after an event.
pub open spec fn after_event(l: Link, e: LinkEvent) -> Link {
    match e {
        LinkEvent::Woken => if l.dial {
            Link { backoff: BACKOFF_INITIAL, ..l }
        } else {
            l
        },
        LinkEvent::Dialed => Link { backoff: BACKOFF_INITIAL, ..l },
        LinkEvent::DialFailed => Link { backoff: grown(l.backoff), ..l },
        _ => l,
    }
}

/// The step after an event.
pub open spec fn next_step(l: Link, e: LinkEvent, removed: bool, connected: bool) -> LinkStep {
    match e {
        LinkEvent::Ended => idle_step(l, removed),
        LinkEvent::Elapsed => if removed {
            LinkStep::Exit
        } else {
            LinkStep::Dial
        },
        LinkEvent::DialFailed => idle_step(after_event(l, e), removed),
        _ => top_step(after_event(l, e), removed, connected),
    }
}

/// The delay after one more failure.
fn grow(backoff: u64) -> (r: u64)
    ensures
        r == grown(backoff),
{
    if backoff == 0 {
        BACKOFF_INITIAL
    } else if backoff >= BACKOFF_MAX / 2 {
        BACKOFF_MAX
    } else {
        backoff * 2
    }
}

impl Link {
    /// The loop of a peer that was just recorded. One without a connection is
    /// dialed at once; a delay only applies once an attempt has failed.
    pub fn start(dial: bool, connected: bool) -> (r: (Link, LinkStep))
        ensures
            r.0 == (Link { dial, backoff: if connected { BACKOFF_INITIAL } else { 0 } }),
            r.1 == top_step(r.0, false, connected),
    {
        let link = Link { dial, backoff: if connected { BACKOFF_INITIAL } else { 0 } };
        let step = link.top(false, connected);
        (link, step)
    }

    fn idle(&self, removed: bool) -> (r: LinkStep)
        ensures
            r == idle_step(*self, removed),
    {
        if removed {
            LinkStep::Exit
        } else if self.dial {
            LinkStep::Retry { delay: self.backoff }
        } else {
            LinkStep::Await
        }
    }

    fn top(&self, removed: bool, connected: bool) -> (r: LinkStep)
        ensures
            r == top_step(*self, removed, connected),
    {
        if removed {
            LinkStep::Exit
        } else if connected {
            LinkStep::Serve
        } else {
            self.idle(removed)
        }
    }

    /// The step after `event`. `removed` says whether the peer is gone by now,
    /// `connected` whether it has a connection.
    pub fn on_event(&mut self, event: LinkEvent, removed: bool, connected: bool) -> (r: LinkStep)
        ensures
            *final(self) == after_event(*old(self), event),
            r == next_step(*old(self), event, removed, connected),
    {
        match event {
            LinkEvent::Ended => self.idle(removed),
            LinkEvent::Woken => {
                if self.dial {
                    self.backoff = BACKOFF_INITIAL;
                }
                self.top(removed, connected)
            },
            LinkEvent::Elapsed => {
                if removed {
                    LinkStep::Exit
                } else {
                    LinkStep::Dial
                }
            },
            LinkEvent::Dialed => {
                self.backoff = BACKOFF_INITIAL;
                self.top(removed, connected)
            },
            LinkEvent::DialFailed => {
                self.backoff = grow(self.backoff);
                self.idle(removed)
            },
        }
    }
}

/// Whether to try a bind again after `failed` attempts, and after what delay. A
/// bind can fail for a moment only, and no announcement need follow to bring
/// the port up later.
pub fn bind_retry(failed: u32) -> (r: Option<u64>)
    ensures
        r == if failed < BIND_ATTEMPTS {
            Some(BIND_RETRY_DELAY)
        } else {
            None
        },
{
    if failed < BIND_ATTEMPTS {
        Some(BIND_RETRY_DELAY)
    } else {
        None
    }
}

// --------------------------------------------------------------------- laws

/// The delay after `n` failures in a row of a peer that was never reached.
pub open spec fn backoff_after(n: nat) -> u64
    decreases n,
{
    if n == 0 {
        0
    } else {
        grown(backoff_after((n - 1) as nat))
    }
}

/// Two to the power of `n`.
pub open spec fn twice(n: nat) -> nat
    decreases n,
{
    if n == 0 {
        1
    } else {
        2 * twice((n - 1) as nat)
    }
}

/// Backoff is exponential: the first dial is immediate, the first failure
/// delays by a second, and each further one doubles that, up to a minute.
pub proof fn law_backoff_is_exponential(n: nat)
    ensures
        backoff_after(0) == 0,
        n > 0 && BACKOFF_INITIAL * twice((n - 1) as nat) < BACKOFF_MAX ==> backoff_after(n) == BACKOFF_INITIAL * twice(
            (n - 1) as nat,
        ),
        n > 0 && BACKOFF_INITIAL * twice((n - 1) as nat) >= BACKOFF_MAX ==> backoff_after(n) == BACKOFF_MAX,
    decreases n,
{
    if n > 1 {
        law_backoff_is_exponential((n - 1) as nat);
        assert(twice((n - 1) as nat) == 2 * twice((n - 2) as nat));
        lemma_twice_positive((n - 2) as nat);
    } else if n == 1 {
        assert(backoff_after(0) == 0);
        assert(twice(0) == 1);
    }
}

proof fn lemma_twice_positive(n: nat)
    ensures
        twice(n) >= 1,
    decreases n,
{
    if n > 0 {
        lemma_twice_positive((n - 1) as nat);
    }
}

/// A delay never exceeds the limit, and one that follows a failure is never
/// shorter than the first.
pub proof fn law_backoff_is_bounded(l: Link, e: LinkEvent)
    requires
        l.backoff <= BACKOFF_MAX,
    ensures
        after_event(l, e).backoff <= BACKOFF_MAX,
        e is DialFailed && (l.backoff == 0 || l.backoff >= BACKOFF_INITIAL) ==> after_event(l, e).backoff >= BACKOFF_INITIAL,
{
}

/// Once a peer is gone its loop ends, whatever happened; a peer we do not dial
/// is never dialed.
pub proof fn law_removed_peer_is_left_alone(l: Link, e: LinkEvent, connected: bool)
    ensures
        next_step(l, e, true, connected) == LinkStep::Exit,
        !l.dial && !(e is Elapsed) ==> !(next_step(l, e, false, connected) is Retry) && !(next_step(l, e, false, connected) is Dial),
{
}

/// A peer that we dial is dialed again and again until it is reached: when its
/// connection ends or a dial fails, the next step waits the current delay, and
/// after that comes a dial.
pub proof fn law_dialing_goes_on(l: Link, connected: bool)
    requires
        l.dial,
    ensures
        next_step(l, LinkEvent::Ended, false, connected) == (LinkStep::Retry { delay: l.backoff }),
        next_step(l, LinkEvent::Elapsed, false, connected) == LinkStep::Dial,
        next_step(l, LinkEvent::DialFailed, false, connected) == (LinkStep::Retry { delay: grown(l.backoff) }),
        after_event(l, LinkEvent::Dialed).backoff == BACKOFF_INITIAL,
        next_step(l, LinkEvent::Dialed, false, true) == LinkStep::Serve,
{
}

/// A loop never dials a peer that it does not dial, serves a connection as soon
/// as there is one, and waits where there is none: for the peer to come, or, if
/// it is dialed, for the time until the next dial. The first dial of a peer that
/// was never reached is immediate.
pub proof fn law_loop_serves_or_waits(l: Link, removed: bool, connected: bool)
    ensures
        !removed && connected ==> next_step(l, LinkEvent::Woken, removed, connected) is Serve,
        !removed && connected ==> next_step(l, LinkEvent::Dialed, removed, connected) is Serve,
        !removed && !connected && !l.dial ==> next_step(l, LinkEvent::Woken, removed, connected) is Await,
        !removed && !l.dial ==> next_step(l, LinkEvent::Ended, removed, connected) is Await,
        !removed && l.dial ==> next_step(l, LinkEvent::Ended, removed, connected) == (LinkStep::Retry { delay: l.backoff }),
        !removed && !connected && l.dial ==> next_step(l, LinkEvent::Woken, removed, connected) == (LinkStep::Retry {
            delay: 1_000,
        }),
        !removed && connected ==> top_step(l, removed, connected) is Serve,
        !removed && !connected && l.dial ==> top_step(l, removed, connected) == (LinkStep::Retry { delay: l.backoff }),
        !removed && !connected && !l.dial ==> top_step(l, removed, connected) is Await,
        removed ==> top_step(l, removed, connected) is Exit,
        after_event(l, LinkEvent::Ended) == l && after_event(l, LinkEvent::Elapsed) == l,
        after_event(l, LinkEvent::DialFailed).dial == l.dial && after_event(l, LinkEvent::Dialed).dial == l.dial,
{
}

/// The delays are those that were promised: one second after a first failure,
/// twice as long after each further one, and never more than a minute.
pub proof fn law_delays_are_as_promised(l: Link)
    ensures
        l.backoff == 0 ==> after_event(l, LinkEvent::DialFailed).backoff == 1_000,
        0 < l.backoff < 30_000 ==> after_event(l, LinkEvent::DialFailed).backoff == 2 * l.backoff,
        l.backoff >= 30_000 ==> after_event(l, LinkEvent::DialFailed).backoff == 60_000,
        after_event(l, LinkEvent::Dialed).backoff == 1_000,
{
}

/// A port is tried five times, a fifth of a second apart; an unknown peer gets
/// ten seconds to present its code.
pub proof fn law_patience_is_as_promised()
    ensures
        BIND_ATTEMPTS == 5,
        BIND_RETRY_DELAY == 200,
        ENROLL_TIMEOUT == 10_000,
{
}

}
