use zygote_core::projects::{GraphInfo, Project};
use zygote_core::shell::{project_card, Tone};
use zygote_core::supervisor::ProcState;

fn project(graph: bool, show: Option<&str>) -> Project {
    Project {
        name: "scope".to_string(),
        package: "zygote-scope".to_string(),
        description: String::new(),
        dir: "/w/projects/scope".to_string(),
        graph: graph.then(|| GraphInfo { name: "main".to_string(), nodes: 3, output: "crt".to_string() }),
        show_file: show.map(|s| s.to_string()),
        port: 9472,
    }
}

#[test]
fn running_card_opens_and_can_be_stopped() {
    let c = project_card(&project(true, Some("/w/projects/scope/live.show.json")), &ProcState::Running, true, false);
    assert_eq!(c.status, "running · port 9472");
    assert_eq!(c.tone, Tone::Success);
    assert_eq!(c.details, "graph `main` · 3 nodes → crt · show: live.show.json · port 9472");
    assert!(c.running && c.can_launch && c.can_restart && c.can_stop);
    assert_eq!(c.note, None);
}

#[test]
fn stopped_card_without_files() {
    let c = project_card(&project(false, None), &ProcState::Stopped, true, false);
    assert_eq!(c.status, "stopped");
    assert_eq!(c.tone, Tone::Muted);
    assert_eq!(
        c.details,
        "no assets/graphs/main.json · no show file yet (Save creates one) · port 9472"
    );
    assert!(!c.running && c.can_launch && !c.can_restart && !c.can_stop);
}

#[test]
fn busy_and_failed_cards() {
    let c = project_card(&project(true, None), &ProcState::Building, true, true);
    assert_eq!(c.status, "building…");
    assert_eq!(c.tone, Tone::Warning);
    assert!(!c.can_launch && c.can_restart && c.can_stop);
    assert_eq!(c.note.as_deref(), Some("opening the timeline as soon as the renderer answers…"));

    let c = project_card(&project(true, None), &ProcState::Starting, false, false);
    assert_eq!(c.status, "starting…");
    assert!(!c.can_launch && !c.can_restart && c.can_stop);

    let c = project_card(&project(true, None), &ProcState::Failed("build failed".to_string()), true, true);
    assert_eq!(c.status, "failed");
    assert_eq!(c.tone, Tone::Danger);
    assert!(c.can_launch && c.can_restart && !c.can_stop);
    assert_eq!(c.note.as_deref(), Some("build failed"));
}

use zygote_core::shell::{Navigator, Screen};

fn showing(n: &Navigator) -> Option<Option<&str>> {
    match &n.screen {
        Screen::Projects => None,
        Screen::Show { project } => Some(project.as_deref()),
    }
}

#[test]
fn launched_project_opens_once_it_runs() {
    let mut n = Navigator::new(false);
    assert_eq!(showing(&n), None);
    n.launched("scope");
    assert!(!n.state_changed("scope", &ProcState::Building));
    assert!(!n.state_changed("other", &ProcState::Running));
    assert!(n.state_changed("scope", &ProcState::Running));
    assert_eq!(n.pending_open, None);
    n.opened(Some("scope".to_string()));
    assert_eq!(showing(&n), Some(Some("scope")));
    assert!(!n.state_changed("scope", &ProcState::Running));
}

#[test]
fn a_dying_renderer_returns_to_the_list() {
    let mut n = Navigator::new(false);
    n.opened(Some("scope".to_string()));
    assert!(!n.state_changed("other", &ProcState::Stopped));
    assert_eq!(showing(&n), Some(Some("scope")));
    assert!(!n.state_changed("scope", &ProcState::Starting));
    assert_eq!(showing(&n), Some(Some("scope")));
    assert!(!n.state_changed("scope", &ProcState::Failed("exited".to_string())));
    assert_eq!(showing(&n), None);
}

#[test]
fn stopping_cancels_the_pending_open_and_leaves_the_show() {
    let mut n = Navigator::new(true);
    assert_eq!(showing(&n), Some(None));
    n.launched("scope");
    n.stopped("scope");
    assert_eq!(n.pending_open, None);
    assert_eq!(showing(&n), Some(None));
    n.opened(Some("scope".to_string()));
    n.stopped("scope");
    assert_eq!(showing(&n), None);
    n.opened(None);
    n.back();
    assert_eq!(showing(&n), None);
}

#[test]
fn show_names_follow_path_file_name() {
    for (path, shown) in [
        ("/w/a.show.json", "a.show.json"),
        ("/w/a.show.json/", "a.show.json"),
        ("/w/a.show.json/.", "a.show.json"),
        ("w//b", "b"),
        ("/w/..", ""),
        ("/", ""),
        ("./", ""),
    ] {
        let expected = std::path::Path::new(path)
            .file_name()
            .map(|n| n.to_string_lossy().into_owned())
            .unwrap_or_default();
        assert_eq!(expected, shown, "{path}");
        let c = project_card(&project(false, Some(path)), &ProcState::Stopped, true, false);
        assert_eq!(
            c.details,
            format!("no assets/graphs/main.json · show: {shown} · port 9472"),
            "{path}"
        );
    }
}
