//! The timeline UI's side of the link to a renderer: when to greet it, when
//! to stop waiting for its parameter list and fall back to the built-in one,
//! and when it has gone quiet.
//!
//! Times are milliseconds on a monotonic clock that the caller reads; the
//! link only decides, and the caller sends what it is told to.
use vstd::prelude::*;

use crate::graph::ParamPath;
use crate::text::string_eq;

verus! {

/// How often the UI greets the renderer.
pub const HELLO_INTERVAL_MS: u64 = 2000;

/// How long the UI waits for a parameter list before using the built-in one.
pub const DESCRIBE_TIMEOUT_MS: u64 = 1500;

/// What the UI sends to keep the link up.
#[derive(Clone, Copy, Debug, PartialEq, Eq, Structural)]
pub enum Greeting {
    /// Introduce the UI; the renderer answers with its structure and
    /// parameters.
    Hello,
    /// Check that a renderer that has described itself is still there.
    Ping,
}

/// The state of the link.
#[derive(Clone, Copy, Debug, PartialEq, Eq, Structural)]
pub struct Link {
    /// A parameter list has been installed (received, or the fallback).
    pub described: bool,
    /// Nothing has been heard for a while.
    pub quiet: bool,
    /// When the UI started.
    pub started: u64,
    /// When the UI last greeted the renderer.
    pub last_hello: u64,
    /// When the UI last heard from the renderer, if ever.
    pub last_heard: Option<u64>,
}

/// What a tick asks of the caller.
#[derive(Clone, Copy, Debug, PartialEq, Eq, Structural)]
pub struct Tick {
    /// Install the built-in parameter list: the renderer did not describe
    /// itself in time.
    pub fall_back: bool,
    /// Send this greeting.
    pub greet: Option<Greeting>,
    /// The renderer has just gone quiet: forget what was sent to it.
    pub went_quiet: bool,
}

/// Milliseconds from `then` to `now`; none if the clock reads earlier.
pub open spec fn elapsed(now: u64, then: u64) -> int {
    if now >= then {
        now - then
    } else {
        0
    }
}

fn elapsed_exec(now: u64, then: u64) -> (r: u64)
    ensures
        r == elapsed(now, then),
{
    if now >= then {
        now - then
    } else {
        0
    }
}

/// A link that has just started at `now`.
pub open spec fn started_at(now: u64) -> Link {
    Link { described: false, quiet: false, started: now, last_hello: now, last_heard: None }
}

/// A message arrives at `now`: the renderer is heard, and if it had gone
/// quiet the UI greets it again at once.
pub open spec fn heard_spec(l: Link, now: u64) -> (Link, bool) {
    if l.quiet {
        (Link { last_heard: Some(now), quiet: false, last_hello: now, ..l }, true)
    } else {
        (Link { last_heard: Some(now), ..l }, false)
    }
}

/// A tick at `now`. `installed` tells whether a parameter list was installed
/// during this tick, `has_params` whether one is installed at all, and
/// `can_send` whether the UI has a socket to send on.
///
/// Without a parameter list after the describe timeout, the UI falls back to
/// the built-in one. Every hello interval it greets: a ping when described
/// and not quiet, else a hello. After three hello intervals without hearing
/// anything, the link goes quiet.
pub open spec fn tick_spec(l: Link, now: u64, installed: bool, has_params: bool, can_send: bool) -> (
    Link,
    Tick,
) {
    let fall_back = !installed && !l.described && !has_params && elapsed(now, l.started)
        > DESCRIBE_TIMEOUT_MS;
    let described = l.described || fall_back;
    let greets = can_send && elapsed(now, l.last_hello) >= HELLO_INTERVAL_MS;
    let greet = if greets {
        Some(
            if described && !l.quiet {
                Greeting::Ping
            } else {
                Greeting::Hello
            },
        )
    } else {
        None
    };
    let silent = match l.last_heard {
        Some(t) => elapsed(now, t) > 3 * HELLO_INTERVAL_MS,
        None => false,
    };
    let went_quiet = silent && !l.quiet;
    (
        Link {
            described,
            quiet: l.quiet || went_quiet,
            last_hello: if greets {
                now
            } else {
                l.last_hello
            },
            ..l
        },
        Tick { fall_back, greet, went_quiet },
    )
}

impl Link {
    /// A link starting at `now`: nothing described or heard yet.
    pub fn new(now: u64) -> (l: Link)
        ensures
            l == started_at(now),
    {
        Link { described: false, quiet: false, started: now, last_hello: now, last_heard: None }
    }

    /// A message arrived at `now`. Returns whether to send a hello: the
    /// renderer had gone quiet and is back.
    pub fn heard(&mut self, now: u64) -> (greet: bool)
        ensures
            (*final(self), greet) == heard_spec(*old(self), now),
    {
        self.last_heard = Some(now);
        if self.quiet {
            self.quiet = false;
            self.last_hello = now;
            true
        } else {
            false
        }
    }

    /// A parameter list arrived in full. Returns whether one had arrived
    /// before.
    pub fn mark_described(&mut self) -> (was: bool)
        ensures
            was == old(self).described,
            *final(self) == (Link { described: true, ..*old(self) }),
    {
        let was = self.described;
        self.described = true;
        was
    }

    /// What to do at `now`; see [`tick_spec`].
    pub fn tick(&mut self, now: u64, installed: bool, has_params: bool, can_send: bool) -> (t: Tick)
        ensures
            (*final(self), t) == tick_spec(*old(self), now, installed, has_params, can_send),
    {
        let fall_back = !installed && !self.described && !has_params && elapsed_exec(now, self.started)
            > DESCRIBE_TIMEOUT_MS;
        if fall_back {
            self.described = true;
        }
        let greets = can_send && elapsed_exec(now, self.last_hello) >= HELLO_INTERVAL_MS;
        let greet = if greets {
            let g = if self.described && !self.quiet {
                Greeting::Ping
            } else {
                Greeting::Hello
            };
            self.last_hello = now;
            Some(g)
        } else {
            None
        };
        let silent = match self.last_heard {
            Some(t) => elapsed_exec(now, t) > 3 * HELLO_INTERVAL_MS,
            None => false,
        };
        let went_quiet = silent && !self.quiet;
        if went_quiet {
            self.quiet = true;
        }
        Tick { fall_back, greet, went_quiet }
    }
}

/// The UI falls back to the built-in parameter list at most once: after it
/// has, no later tick falls back again.
pub proof fn law_fall_back_once(
    l: Link,
    now: u64,
    installed: bool,
    has_params: bool,
    can_send: bool,
    later: u64,
    installed2: bool,
    has_params2: bool,
    can_send2: bool,
)
    requires
        tick_spec(l, now, installed, has_params, can_send).1.fall_back,
    ensures
        !tick_spec(tick_spec(l, now, installed, has_params, can_send).0, later, installed2, has_params2, can_send2).1.fall_back,
{
}

/// After greeting at `now`, the UI does not greet again before a hello
/// interval has passed.
pub proof fn law_greet_once_per_interval(
    l: Link,
    now: u64,
    installed: bool,
    has_params: bool,
    can_send: bool,
    later: u64,
    installed2: bool,
    has_params2: bool,
    can_send2: bool,
)
    requires
        tick_spec(l, now, installed, has_params, can_send).1.greet is Some,
        later < now + HELLO_INTERVAL_MS,
    ensures
        tick_spec(tick_spec(l, now, installed, has_params, can_send).0, later, installed2, has_params2, can_send2).1.greet
            is None,
{
}

/// A link that has gone quiet stays quiet until the renderer is heard, and
/// then the UI says hello at once.
pub proof fn law_quiet_until_heard(l: Link, now: u64, installed: bool, has_params: bool, can_send: bool)
    requires
        l.quiet,
    ensures
        tick_spec(l, now, installed, has_params, can_send).0.quiet,
        heard_spec(l, now).1,
        !heard_spec(l, now).0.quiet,
{
}

/// Some path of `values` is one of `described`.
pub open spec fn shares_path(values: Seq<ParamPath>, described: Seq<ParamPath>) -> bool {
    exists|i: int, j: int|
        0 <= i < values.len() && 0 <= j < described.len() && #[trigger] values[i].node@ == #[trigger] described[j].node@
            && values[i].param@ == described[j].param@
}

/// Whether a timeline that holds values for `values` fits a renderer that
/// describes `described`: some path of the one is a path of the other. A
/// default timeline that does not fit is replaced by one cue holding the
/// renderer's defaults.
pub fn timeline_fits(values: &Vec<ParamPath>, described: &Vec<ParamPath>) -> (r: bool)
    ensures
        r == shares_path(values@, described@),
{
    let mut i: usize = 0;
    while i < values.len()
        invariant
            i <= values@.len(),
            forall|a: int, b: int|
                0 <= a < i && 0 <= b < described@.len() ==> !(#[trigger] values@[a].node@ == #[trigger] described@[b].node@
                    && values@[a].param@ == described@[b].param@),
        decreases values@.len() - i,
    {
        let mut j: usize = 0;
        while j < described.len()
            invariant
                i < values@.len(),
                j <= described@.len(),
                forall|a: int, b: int|
                    0 <= a < i && 0 <= b < described@.len() ==> !(#[trigger] values@[a].node@ == #[trigger] described@[b].node@
                        && values@[a].param@ == described@[b].param@),
                forall|b: int| 0 <= b < j ==> !(values@[i as int].node@ == #[trigger] described@[b].node@
                    && values@[i as int].param@ == described@[b].param@),
            decreases described@.len() - j,
        {
            if values[i].node.same(&described[j].node) && string_eq(&values[i].param, &described[j].param) {
                return true;
            }
            j = j + 1;
        }
        i = i + 1;
    }
    false
}

} // verus!
