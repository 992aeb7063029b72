//! Decisions of the renderer supervisor.
//!
//! A project's renderer is built if its binary is missing, spawned, probed
//! until it answers on its port, and watched until it exits. The supervisor
//! that owns the processes reports what it observed as a [`ProcEvent`]; the
//! functions here decide the next [`ProcState`] and what to do about the
//! process handles.
use vstd::prelude::*;

use crate::text::{append_decimal, append_str, chars_of, decimal, string_of};

verus! {

/// Seconds a freshly spawned renderer gets to answer.
pub const START_TIMEOUT_SECS: u64 = 90;

/// Where a project's renderer is in its life.
#[derive(Clone, Debug)]
pub enum ProcState {
    Stopped,
    /// `cargo build` is running because the binary did not exist.
    Building,
    /// The renderer process is up but has not answered on its port yet.
    Starting,
    Running,
    Failed(String),
}

/// What a [`ProcState`] says, as plain values.
pub enum StateModel {
    Stopped,
    Building,
    Starting,
    Running,
    Failed(Seq<char>),
}

impl View for ProcState {
    type V = StateModel;

    open spec fn view(&self) -> StateModel {
        match self {
            ProcState::Stopped => StateModel::Stopped,
            ProcState::Building => StateModel::Building,
            ProcState::Starting => StateModel::Starting,
            ProcState::Running => StateModel::Running,
            ProcState::Failed(m) => StateModel::Failed(m@),
        }
    }
}

impl ProcState {
    /// Is the renderer up and answering?
    pub fn is_running(&self) -> (b: bool)
        ensures
            b == (self@ is Running),
    {
        match self {
            ProcState::Running => true,
            _ => false,
        }
    }

    /// Is the renderer on its way up (building or starting)?
    pub fn is_busy(&self) -> (b: bool)
        ensures
            b == (self@ is Building || self@ is Starting),
    {
        match self {
            ProcState::Building | ProcState::Starting => true,
            _ => false,
        }
    }
}

/// What the supervisor observed about a process since the last poll.
#[derive(Clone, Debug)]
pub enum ProcEvent {
    /// Nothing to report: the build or renderer is still running, or no
    /// probe socket could be opened.
    Nothing,
    /// The build process finished; `status` is its exit status as text.
    BuildFinished { success: bool, status: String },
    /// Waiting on the build process failed with this error.
    BuildWaitFailed(String),
    /// The renderer process exited; `status` is its exit status as text.
    Exited { success: bool, status: String },
    /// The renderer answered a ping.
    Answered,
    /// The renderer did not answer a ping; `timed_out` once the start
    /// timeout has passed.
    Unanswered { timed_out: bool },
}

/// What the supervisor does with the process handles.
#[derive(Clone, Copy, Debug, PartialEq, Eq, Structural)]
pub enum ProcAction {
    /// Keep everything as it is.
    Keep,
    /// Forget the finished build and spawn the renderer.
    SpawnRenderer,
    /// Forget the finished build.
    ForgetBuild,
    /// Forget the probe socket: the renderer answered.
    ForgetProbe,
    /// Forget the exited renderer process.
    ForgetChild,
}

/// What an event is about, as plain values.
pub enum EventModel {
    Nothing,
    BuildFinished { success: bool, status: Seq<char> },
    BuildWaitFailed(Seq<char>),
    Exited { success: bool, status: Seq<char> },
    Answered,
    Unanswered { timed_out: bool },
}

impl View for ProcEvent {
    type V = EventModel;

    open spec fn view(&self) -> EventModel {
        match self {
            ProcEvent::Nothing => EventModel::Nothing,
            ProcEvent::BuildFinished { success, status } => EventModel::BuildFinished {
                success: *success,
                status: status@,
            },
            ProcEvent::BuildWaitFailed(e) => EventModel::BuildWaitFailed(e@),
            ProcEvent::Exited { success, status } => EventModel::Exited { success: *success, status: status@ },
            ProcEvent::Answered => EventModel::Answered,
            ProcEvent::Unanswered { timed_out } => EventModel::Unanswered { timed_out: *timed_out },
        }
    }
}

/// The next state and the action for a process in state `s` after event `e`.
/// `log` is the path of the project's log file, `port` its renderer's port.
/// Events that do not concern a state leave it unchanged; a stopped or failed
/// process stays as it is.
pub open spec fn step_spec(s: StateModel, e: EventModel, log: Seq<char>, port: u16) -> (StateModel, ProcAction) {
    match (s, e) {
        (StateModel::Building, EventModel::BuildFinished { success, status }) => if success {
            (StateModel::Starting, ProcAction::SpawnRenderer)
        } else {
            (StateModel::Failed("cargo build failed ("@ + status + "); see "@ + log), ProcAction::ForgetBuild)
        },
        (StateModel::Building, EventModel::BuildWaitFailed(err)) => (
            StateModel::Failed("build: "@ + err),
            ProcAction::Keep,
        ),
        (StateModel::Starting, EventModel::Exited { status, .. }) => (
            StateModel::Failed("renderer exited while starting ("@ + status + "); see "@ + log),
            ProcAction::Keep,
        ),
        (StateModel::Starting, EventModel::Answered) => (StateModel::Running, ProcAction::ForgetProbe),
        (StateModel::Starting, EventModel::Unanswered { timed_out }) => if timed_out {
            (
                StateModel::Failed(
                    "no answer on port "@ + decimal(port as nat) + " after "@ + decimal(
                        START_TIMEOUT_SECS as nat,
                    ) + "s"@,
                ),
                ProcAction::Keep,
            )
        } else {
            (StateModel::Starting, ProcAction::Keep)
        },
        (StateModel::Running, EventModel::Exited { success, status }) => if success {
            (StateModel::Stopped, ProcAction::ForgetChild)
        } else {
            (StateModel::Failed("renderer exited ("@ + status + "); see "@ + log), ProcAction::ForgetChild)
        },
        (s, _) => (s, ProcAction::Keep),
    }
}

/// Decide the next state of a managed process. When the action is
/// [`ProcAction::SpawnRenderer`], the state given is the one a successful
/// spawn leads to; the supervisor reports a failed spawn through
/// [`spawn_failed`].
pub fn poll_step(state: ProcState, event: &ProcEvent, log: &str, port: u16) -> (r: (ProcState, ProcAction))
    ensures
        (r.0@, r.1) == step_spec(state@, event@, log@, port),
{
    match (state, event) {
        (ProcState::Building, ProcEvent::BuildFinished { success, status }) => {
            if *success {
                (ProcState::Starting, ProcAction::SpawnRenderer)
            } else {
                let mut m = chars_of("cargo build failed (");
                append_str(&mut m, status.as_str());
                append_str(&mut m, "); see ");
                append_str(&mut m, log);
                (ProcState::Failed(string_of(&m)), ProcAction::ForgetBuild)
            }
        },
        (ProcState::Building, ProcEvent::BuildWaitFailed(err)) => {
            let mut m = chars_of("build: ");
            append_str(&mut m, err.as_str());
            (ProcState::Failed(string_of(&m)), ProcAction::Keep)
        },
        (ProcState::Starting, ProcEvent::Exited { status, .. }) => {
            let mut m = chars_of("renderer exited while starting (");
            append_str(&mut m, status.as_str());
            append_str(&mut m, "); see ");
            append_str(&mut m, log);
            (ProcState::Failed(string_of(&m)), ProcAction::Keep)
        },
        (ProcState::Starting, ProcEvent::Answered) => (ProcState::Running, ProcAction::ForgetProbe),
        (ProcState::Starting, ProcEvent::Unanswered { timed_out }) => {
            if *timed_out {
                let mut m = chars_of("no answer on port ");
                append_decimal(&mut m, port as u64);
                append_str(&mut m, " after ");
                append_decimal(&mut m, START_TIMEOUT_SECS);
                append_str(&mut m, "s");
                (ProcState::Failed(string_of(&m)), ProcAction::Keep)
            } else {
                (ProcState::Starting, ProcAction::Keep)
            }
        },
        (ProcState::Running, ProcEvent::Exited { success, status }) => {
            if *success {
                (ProcState::Stopped, ProcAction::ForgetChild)
            } else {
                let mut m = chars_of("renderer exited (");
                append_str(&mut m, status.as_str());
                append_str(&mut m, "); see ");
                append_str(&mut m, log);
                (ProcState::Failed(string_of(&m)), ProcAction::ForgetChild)
            }
        },
        (s, _) => (s, ProcAction::Keep),
    }
}

/// The state after the renderer could not be spawned: `bin` is the binary's
/// path, `err` the error.
pub fn spawn_failed(bin: &str, err: &str) -> (s: ProcState)
    ensures
        s@ == StateModel::Failed("cannot start "@ + bin@ + ": "@ + err@),
{
    let mut m = chars_of("cannot start ");
    append_str(&mut m, bin);
    append_str(&mut m, ": ");
    append_str(&mut m, err);
    ProcState::Failed(string_of(&m))
}

/// The state after `cargo` could not be run for a build.
pub fn build_failed(err: &str) -> (s: ProcState)
    ensures
        s@ == StateModel::Failed("cannot run cargo: "@ + err@),
{
    let mut m = chars_of("cannot run cargo: ");
    append_str(&mut m, err);
    ProcState::Failed(string_of(&m))
}

/// How a launch begins: spawn the renderer when its binary exists, else
/// build it first.
pub open spec fn launch_spec(binary_exists: bool) -> (StateModel, ProcAction) {
    if binary_exists {
        (StateModel::Starting, ProcAction::SpawnRenderer)
    } else {
        (StateModel::Building, ProcAction::Keep)
    }
}

/// The state a launch starts in (a build or a spawn that works); the
/// supervisor spawns `cargo build` when this is [`ProcState::Building`].
pub fn launch_state(binary_exists: bool) -> (r: (ProcState, ProcAction))
    ensures
        (r.0@, r.1) == launch_spec(binary_exists),
{
    if binary_exists {
        (ProcState::Starting, ProcAction::SpawnRenderer)
    } else {
        (ProcState::Building, ProcAction::Keep)
    }
}

/// A process is only ever starting because its renderer was spawned: a
/// launch starts it exactly when the binary exists, and then spawns the
/// renderer; without the binary it is building and nothing is spawned yet;
/// and a step that moves a process into starting from another state spawns
/// the renderer too.
pub proof fn law_starting_means_spawned(
    binary_exists: bool,
    s: StateModel,
    e: EventModel,
    log: Seq<char>,
    port: u16,
)
    ensures
        launch_spec(binary_exists).0 is Starting <==> binary_exists,
        launch_spec(binary_exists).0 is Starting || launch_spec(binary_exists).0 is Building,
        launch_spec(binary_exists).0 is Starting ==> launch_spec(binary_exists).1 == ProcAction::SpawnRenderer,
        launch_spec(binary_exists).0 is Building ==> launch_spec(binary_exists).1 == ProcAction::Keep,
        !(s is Starting) && step_spec(s, e, log, port).0 is Starting ==> step_spec(s, e, log, port).1
            == ProcAction::SpawnRenderer,
{
}

/// A stopped or failed process stays as it is, whatever is observed.
pub proof fn law_settled_states_stay(s: StateModel, e: EventModel, log: Seq<char>, port: u16)
    requires
        s is Stopped || s is Failed,
    ensures
        step_spec(s, e, log, port) == (s, ProcAction::Keep),
{
}

/// A process becomes running only from starting, when the renderer answers;
/// its probe is then dropped.
pub proof fn law_running_needs_an_answer(s: StateModel, e: EventModel, log: Seq<char>, port: u16)
    requires
        !(s is Running),
        step_spec(s, e, log, port).0 is Running,
    ensures
        s is Starting,
        e is Answered,
        step_spec(s, e, log, port).1 == ProcAction::ForgetProbe,
{
}

} // verus!
