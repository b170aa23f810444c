//! Watching an account: what to do when an event arrives and when the
//! connection is lost.

use crate::decimal;
use crate::text;
use vstd::arithmetic::power2::{lemma2_to64, pow2};
use vstd::prelude::*;
use vstd::string::*;

verus! {

/// The longest wait before a new connection, in seconds.
pub const MAX_BACKOFF: u64 = 60;

/// A watch in progress.
#[derive(Debug)]
pub struct Watch {
    /// Whether to stop at the first change of state.
    once: bool,
    /// How long to wait before the next connection, in seconds.
    backoff: u64,
    /// Whether the present connection has brought a change of state.
    healthy: bool,
}

/// What happens on a connection.
#[derive(Debug)]
pub enum Signal<'a> {
    /// An event arrived.
    Event {
        /// What kind of event it is.
        kind: &'a str,
        /// What it says.
        data: &'a str,
    },
    /// The connection ended because it was asked to.
    Stopped,
    /// The connection could not be made, or was lost.
    Failed(&'a str),
}

/// What to do about it.
#[derive(Debug)]
pub enum Response<'a> {
    /// Nothing.
    Ignore,
    /// Print what the event says, and stop if so told.
    Print {
        /// What the event says.
        data: &'a str,
        /// Whether to end the connection.
        stop: bool,
    },
    /// The watch is over.
    Finish,
    /// Print the notice, wait, and connect anew.
    Reconnect {
        /// The notice.
        notice: String,
        /// How long to wait, in seconds.
        delay: u64,
    },
}

/// Twice a wait, but no more than [`MAX_BACKOFF`].
pub open spec fn doubled(delay: int) -> int {
    if 2 * delay <= MAX_BACKOFF {
        2 * delay
    } else {
        MAX_BACKOFF as int
    }
}

/// The wait after `failures` connections in a row have failed without a change
/// of state.
pub open spec fn wait_after(failures: nat) -> int
    decreases failures,
{
    if failures == 0 {
        1
    } else {
        doubled(wait_after((failures - 1) as nat))
    }
}

/// What is said of a lost connection.
pub open spec fn notice_text(error: Seq<char>, delay: nat) -> Seq<char> {
    "watch: "@ + error + "; reconnecting in "@ + decimal::numeral(delay) + "s"@
}

/// How long a connection may be silent, in seconds. The server pings every
/// `ping` seconds; twice that and some slack without a byte means that the
/// connection is dead.
pub fn idle_seconds(ping: u32) -> (r: u64)
    ensures
        r == 2 * ping + 30,
{
    ping as u64 * 2 + 30
}

impl Watch {
    /// Whether the watch stops at the first change of state.
    pub closed spec fn stops(self) -> bool {
        self.once
    }

    /// How long the next wait is, in seconds, unless the present connection
    /// brings a change of state.
    pub closed spec fn wait(self) -> int {
        self.backoff as int
    }

    /// Whether the present connection has brought a change of state.
    pub closed spec fn alive(self) -> bool {
        self.healthy
    }

    /// Every wait is from 1 to [`MAX_BACKOFF`] seconds.
    pub open spec fn wf(self) -> bool {
        1 <= self.wait() <= MAX_BACKOFF
    }

    /// A watch that has not yet connected.
    pub fn new(once: bool) -> (r: Self)
        ensures
            r.wf(),
            r.stops() == once,
            r.wait() == 1,
            !r.alive(),
    {
        Watch { once, backoff: 1, healthy: false }
    }

    /// What to do about what happened. A change of state is printed, and ends the
    /// watch if it stops at the first; other events are ignored. After a lost
    /// connection comes a wait, twice as long every time, but from the start
    /// again if the connection had brought a change of state.
    pub fn watch<'a>(&mut self, signal: Signal<'a>) -> (r: Response<'a>)
        requires
            old(self).wf(),
        ensures
            final(self).wf(),
            final(self).stops() == old(self).stops(),
            match signal {
                Signal::Event { kind, data } => if kind@ == "state"@ {
                    &&& r == (Response::Print { data, stop: old(self).stops() })
                    &&& final(self).alive()
                    &&& final(self).wait() == old(self).wait()
                } else {
                    &&& r == Response::Ignore
                    &&& *final(self) == *old(self)
                },
                Signal::Stopped => {
                    &&& r == Response::Finish
                    &&& *final(self) == *old(self)
                },
                Signal::Failed(error) => {
                    let wait = if old(self).alive() {
                        1
                    } else {
                        old(self).wait()
                    };
                    &&& r matches Response::Reconnect { notice, delay }
                    &&& delay == wait
                    &&& notice@ == notice_text(error@, wait as nat)
                    &&& final(self).wait() == doubled(wait)
                    &&& !final(self).alive()
                },
            },
    {
        match signal {
            Signal::Event { kind, data } => {
                if text::same_str(kind, "state") {
                    self.healthy = true;
                    Response::Print { data, stop: self.once }
                } else {
                    Response::Ignore
                }
            },
            Signal::Stopped => Response::Finish,
            Signal::Failed(error) => {
                let delay: u64 = if self.healthy {
                    1
                } else {
                    self.backoff
                };
                self.healthy = false;
                self.backoff = if delay * 2 <= MAX_BACKOFF {
                    delay * 2
                } else {
                    MAX_BACKOFF
                };
                let mut notice = text::concat3("watch: ", error, "; reconnecting in ");
                let seconds = text::from_chars(decimal::write_number(delay).as_slice());
                notice.append(seconds.as_str());
                notice.append("s");
                Response::Reconnect { notice, delay }
            },
        }
    }
}

/// Law: the waits grow exponentially up to the longest: after `failures` failed
/// connections in a row the wait is 2 to that power, or [`MAX_BACKOFF`] if that
/// is less.
pub proof fn law_exponential_backoff(failures: nat)
    ensures
        wait_after(failures) == if pow2(failures) <= MAX_BACKOFF {
            pow2(failures) as int
        } else {
            MAX_BACKOFF as int
        },
    decreases failures,
{
    lemma2_to64();
    if failures > 0 {
        let before = (failures - 1) as nat;
        law_exponential_backoff(before);
        vstd::arithmetic::power2::lemma_pow2_unfold(failures);
    }
}

/// Law: no wait is shorter than the one before it or longer than the longest.
pub proof fn law_backoff_bounded(failures: nat)
    ensures
        1 <= wait_after(failures) <= wait_after(failures + 1) <= MAX_BACKOFF,
    decreases failures,
{
    if failures > 0 {
        law_backoff_bounded((failures - 1) as nat);
    }
}

/// Law: a wait is doubled, up to a minute.
pub proof fn law_doubled(delay: int)
    ensures
        delay <= 30 ==> doubled(delay) == delay + delay,
        delay > 30 ==> doubled(delay) == 60,
{
}

/// Law: a lost connection is reported with what went wrong and how long the wait is.
pub proof fn law_notice(error: Seq<char>, delay: nat)
    ensures
        notice_text(error, delay) == "watch: "@ + error + "; reconnecting in "@
            + decimal::numeral(delay) + "s"@,
{
}

/// Law: every wait is from a second to a minute.
pub proof fn law_wait_range(watch: Watch)
    ensures
        watch.wf() <==> 1 <= watch.wait() <= 60,
{
}

} // verus!
