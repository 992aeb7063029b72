//! The project browser: what the list shows for each project (its status, a
//! line of details, which controls are enabled, a note under the card), and
//! which screen the window shows as renderers come and go.
use vstd::prelude::*;

use crate::projects::Project;
use crate::supervisor::{ProcState, StateModel};
use crate::text::{append_chars, append_decimal, append_str, chars_of,
    chars_of_string, decimal, file_name, file_name_exec, string_of};

verus! {

/// How a status is coloured.
#[derive(Clone, Copy, Debug, PartialEq, Eq, Structural)]
pub enum Tone {
    Muted,
    Warning,
    Success,
    Danger,
}

/// One project's card in the project list.
#[derive(Clone, Debug)]
pub struct ProjectCard {
    /// Where the renderer is in its life, in words.
    pub status: String,
    pub tone: Tone,
    /// Graph, show file and port, separated by ` · `.
    pub details: String,
    /// The renderer is running: the card stands out, and its main button
    /// opens the timeline instead of launching.
    pub running: bool,
    /// The main button (launch, or open) can be pressed.
    pub can_launch: bool,
    pub can_restart: bool,
    pub can_stop: bool,
    /// Why the renderer failed, or that the timeline opens once the renderer
    /// answers.
    pub note: Option<String>,
}

/// The status words for a state.
pub open spec fn status_text(state: StateModel, port: u16) -> Seq<char> {
    match state {
        StateModel::Stopped => "stopped"@,
        StateModel::Building => "building…"@,
        StateModel::Starting => "starting…"@,
        StateModel::Running => "running · port "@ + decimal(port as nat),
        StateModel::Failed(_) => "failed"@,
    }
}

/// The colour of a state.
pub open spec fn status_tone(state: StateModel) -> Tone {
    match state {
        StateModel::Stopped => Tone::Muted,
        StateModel::Building => Tone::Warning,
        StateModel::Starting => Tone::Warning,
        StateModel::Running => Tone::Success,
        StateModel::Failed(_) => Tone::Danger,
    }
}

/// What the details line says of a project's graph.
pub open spec fn graph_text(p: Project) -> Seq<char> {
    match p.graph {
        Some(g) => "graph `"@ + g.name@ + "` · "@ + decimal(g.nodes as nat) + " nodes → "@ + g.output@,
        None => "no assets/graphs/main.json"@,
    }
}

/// What the details line says of a project's show file: its file name (as
/// `Path::file_name` gives it; nothing when there is none).
pub open spec fn show_text(p: Project) -> Seq<char> {
    match p.show_file {
        Some(f) => "show: "@ + match file_name(f@) {
            Some(n) => n,
            None => Seq::empty(),
        },
        None => "no show file yet (Save creates one)"@,
    }
}

/// The details line of a project: its graph, its show file and its port.
pub open spec fn details_text(p: Project) -> Seq<char> {
    graph_text(p) + " · "@ + show_text(p) + " · "@ + "port "@ + decimal(p.port as nat)
}

/// The note under a card.
pub open spec fn note_text(state: StateModel, pending: bool) -> Option<Seq<char>> {
    match state {
        StateModel::Failed(why) => Some(why),
        _ => if pending {
            Some("opening the timeline as soon as the renderer answers…"@)
        } else {
            None
        },
    }
}

fn status_exec(state: &ProcState, port: u16) -> (r: String)
    ensures
        r@ == status_text(state@, port),
{
    match state {
        ProcState::Stopped => "stopped".to_string(),
        ProcState::Building => "building…".to_string(),
        ProcState::Starting => "starting…".to_string(),
        ProcState::Running => {
            let mut v = chars_of("running · port ");
            append_decimal(&mut v, port as u64);
            string_of(&v)
        },
        ProcState::Failed(_) => "failed".to_string(),
    }
}

fn details_exec(p: &Project) -> (r: String)
    ensures
        r@ == details_text(*p),
{
    let mut v: Vec<char> = Vec::new();
    match &p.graph {
        Some(g) => {
            append_str(&mut v, "graph `");
            append_chars(&mut v, &chars_of_string(&g.name));
            append_str(&mut v, "` · ");
            append_decimal(&mut v, g.nodes as u64);
            append_str(&mut v, " nodes → ");
            append_chars(&mut v, &chars_of_string(&g.output));
        },
        None => append_str(&mut v, "no assets/graphs/main.json"),
    }
    assert(v@ == graph_text(*p));
    append_str(&mut v, " · ");
    match &p.show_file {
        Some(f) => {
            append_str(&mut v, "show: ");
            match file_name_exec(&chars_of_string(f)) {
                Some(n) => append_chars(&mut v, &n),
                None => {},
            }
        },
        None => append_str(&mut v, "no show file yet (Save creates one)"),
    }
    append_str(&mut v, " · ");
    append_str(&mut v, "port ");
    append_decimal(&mut v, p.port as u64);
    assert(v@ =~= graph_text(*p) + " · "@ + show_text(*p) + " · "@ + "port "@ + decimal(p.port as nat));
    string_of(&v)
}

/// The card for `project` in state `state`. `supervised` tells whether a
/// supervisor could be started at all; `pending` whether the timeline opens
/// as soon as this project's renderer answers.
pub fn project_card(project: &Project, state: &ProcState, supervised: bool, pending: bool) -> (c: ProjectCard)
    ensures
        c.status@ == status_text(state@, project.port),
        c.tone == status_tone(state@),
        c.details@ == details_text(*project),
        c.running == (state@ is Running),
        c.can_launch == (supervised && !(state@ is Building || state@ is Starting)),
        c.can_restart == (supervised && !(state@ is Stopped)),
        c.can_stop == !(state@ is Stopped || state@ is Failed),
        match c.note {
            Some(n) => note_text(state@, pending) == Some(n@),
            None => note_text(state@, pending) is None,
        },
{
    let tone = match state {
        ProcState::Stopped => Tone::Muted,
        ProcState::Building => Tone::Warning,
        ProcState::Starting => Tone::Warning,
        ProcState::Running => Tone::Success,
        ProcState::Failed(_) => Tone::Danger,
    };
    let note = match state {
        ProcState::Failed(why) => Some(why.clone()),
        _ => if pending {
            Some("opening the timeline as soon as the renderer answers…".to_string())
        } else {
            None
        },
    };
    let stopped = match state {
        ProcState::Stopped => true,
        _ => false,
    };
    let failed = match state {
        ProcState::Failed(_) => true,
        _ => false,
    };
    ProjectCard {
        status: status_exec(state, project.port),
        tone,
        details: details_exec(project),
        running: state.is_running(),
        can_launch: supervised && !state.is_busy(),
        can_restart: supervised && !stopped,
        can_stop: !(stopped || failed),
        note,
    }
}


/// What the window shows.
#[derive(Clone, Debug)]
pub enum Screen {
    /// The project list.
    Projects,
    /// A show's timeline: the project's, when opened from the list; `None`
    /// when the command line named the show.
    Show { project: Option<String> },
}

/// What a [`Screen`] says, as plain values.
pub enum ScreenModel {
    Projects,
    Show(Option<Seq<char>>),
}

impl View for Screen {
    type V = ScreenModel;

    open spec fn view(&self) -> ScreenModel {
        match self {
            Screen::Projects => ScreenModel::Projects,
            Screen::Show { project } => ScreenModel::Show(
                match project {
                    Some(p) => Some(p@),
                    None => None,
                },
            ),
        }
    }
}

/// Where the window is, and which project's timeline opens as soon as its
/// renderer answers.
#[derive(Clone, Debug)]
pub struct Navigator {
    pub screen: Screen,
    pub pending_open: Option<String>,
}

/// What a [`Navigator`] says, as plain values.
pub struct NavigatorModel {
    pub screen: ScreenModel,
    pub pending_open: Option<Seq<char>>,
}

impl View for Navigator {
    type V = NavigatorModel;

    open spec fn view(&self) -> NavigatorModel {
        NavigatorModel {
            screen: self.screen@,
            pending_open: match self.pending_open {
                Some(p) => Some(p@),
                None => None,
            },
        }
    }
}

/// The supervisor reports project `name` in `state`. If it is running and
/// its timeline is waiting to open, it opens (and stops waiting); if it is
/// neither running nor on its way up while its timeline is on screen, the
/// window goes back to the list, which says why.
pub open spec fn state_changed_spec(n: NavigatorModel, name: Seq<char>, state: StateModel) -> (NavigatorModel, bool) {
    let open = state is Running && n.pending_open == Some(name);
    let down = !(state is Running) && !(state is Building) && !(state is Starting);
    (
        NavigatorModel {
            screen: if down && n.screen == ScreenModel::Show(Some(name)) {
                ScreenModel::Projects
            } else {
                n.screen
            },
            pending_open: if open {
                None
            } else {
                n.pending_open
            },
        },
        open,
    )
}

/// A timeline opens only once per launch: after it has opened, further
/// reports that the renderer runs do not open it again.
pub proof fn law_opens_once(n: NavigatorModel, name: Seq<char>, later: StateModel)
    requires
        state_changed_spec(n, name, StateModel::Running).1,
    ensures
        !state_changed_spec(state_changed_spec(n, name, StateModel::Running).0, name, later).1,
{
}

fn same_text(a: &Option<String>, b: &str) -> (r: bool)
    ensures
        r == (match a {
            Some(t) => t@ == b@,
            None => false,
        }),
{
    match a {
        Some(t) => crate::text::chars_eq(&chars_of_string(t), &chars_of(b)),
        None => false,
    }
}

impl Navigator {
    /// The list, or a show named on the command line.
    pub fn new(show_given: bool) -> (n: Navigator)
        ensures
            n@ == (NavigatorModel {
                screen: if show_given {
                    ScreenModel::Show(None)
                } else {
                    ScreenModel::Projects
                },
                pending_open: None,
            }),
    {
        Navigator {
            screen: if show_given {
                Screen::Show { project: None }
            } else {
                Screen::Projects
            },
            pending_open: None,
        }
    }

    /// The supervisor reports project `name` in `state`; returns whether to
    /// open its timeline now.
    pub fn state_changed(&mut self, name: &str, state: &ProcState) -> (open: bool)
        ensures
            (final(self)@, open) == state_changed_spec(old(self)@, name@, state@),
    {
        let open = state.is_running() && same_text(&self.pending_open, name);
        if open {
            self.pending_open = None;
        }
        let showing = match &self.screen {
            Screen::Show { project } => same_text(project, name),
            Screen::Projects => false,
        };
        if !state.is_running() && !state.is_busy() && showing {
            self.screen = Screen::Projects;
        }
        open
    }

    /// Project `name` was launched: its timeline opens once it answers.
    pub fn launched(&mut self, name: &str)
        ensures
            final(self)@ == (NavigatorModel { pending_open: Some(name@), ..old(self)@ }),
    {
        self.pending_open = Some(name.to_string());
    }

    /// Project `name` was stopped: its timeline no longer waits to open, and
    /// if it is on screen the window goes back to the list.
    pub fn stopped(&mut self, name: &str)
        ensures
            final(self)@ == (NavigatorModel {
                screen: if old(self)@.screen == ScreenModel::Show(Some(name@)) {
                    ScreenModel::Projects
                } else {
                    old(self)@.screen
                },
                pending_open: if old(self)@.pending_open == Some(name@) {
                    None
                } else {
                    old(self)@.pending_open
                },
            }),
    {
        if same_text(&self.pending_open, name) {
            self.pending_open = None;
        }
        let showing = match &self.screen {
            Screen::Show { project } => same_text(project, name),
            Screen::Projects => false,
        };
        if showing {
            self.screen = Screen::Projects;
        }
    }

    /// A show's timeline is now on screen.
    pub fn opened(&mut self, project: Option<String>)
        ensures
            final(self)@ == (NavigatorModel {
                screen: ScreenModel::Show(
                    match project {
                        Some(p) => Some(p@),
                        None => None,
                    },
                ),
                ..old(self)@
            }),
    {
        self.screen = Screen::Show { project };
    }

    /// The timeline asked to go back to the list.
    pub fn back(&mut self)
        ensures
            final(self)@ == (NavigatorModel { screen: ScreenModel::Projects, ..old(self)@ }),
    {
        self.screen = Screen::Projects;
    }
}

} // verus!
