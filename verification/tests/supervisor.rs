use zygote_core::supervisor::{build_failed, launch_state, poll_step, spawn_failed, ProcAction, ProcEvent, ProcState};

fn failed(s: &ProcState) -> &str {
    match s {
        ProcState::Failed(m) => m,
        other => panic!("not failed: {other:?}"),
    }
}

#[test]
fn build_then_start_then_run() {
    let (s, a) = launch_state(false);
    assert!(matches!(s, ProcState::Building));
    assert_eq!(a, ProcAction::Keep);
    assert!(s.is_busy() && !s.is_running());
    let (s, a) = poll_step(s, &ProcEvent::Nothing, "log", 9000);
    assert!(matches!(s, ProcState::Building));
    assert_eq!(a, ProcAction::Keep);
    let (s, a) = poll_step(s, &ProcEvent::BuildFinished { success: true, status: "exit status: 0".into() }, "log", 9000);
    assert!(matches!(s, ProcState::Starting));
    assert_eq!(a, ProcAction::SpawnRenderer);
    let (s, a) = poll_step(s, &ProcEvent::Unanswered { timed_out: false }, "log", 9000);
    assert!(matches!(s, ProcState::Starting));
    assert_eq!(a, ProcAction::Keep);
    let (s, a) = poll_step(s, &ProcEvent::Answered, "log", 9000);
    assert!(s.is_running() && !s.is_busy());
    assert_eq!(a, ProcAction::ForgetProbe);
    let (s, a) = poll_step(s, &ProcEvent::Exited { success: true, status: "exit status: 0".into() }, "log", 9000);
    assert!(matches!(s, ProcState::Stopped));
    assert_eq!(a, ProcAction::ForgetChild);
}

#[test]
fn failures_are_explained() {
    let (s, a) = poll_step(ProcState::Building, &ProcEvent::BuildFinished { success: false, status: "exit status: 101".into() }, "/w/target/zygote/x.log", 1);
    assert_eq!(failed(&s), "cargo build failed (exit status: 101); see /w/target/zygote/x.log");
    assert_eq!(a, ProcAction::ForgetBuild);
    let (s, _) = poll_step(ProcState::Building, &ProcEvent::BuildWaitFailed("oops".into()), "l", 1);
    assert_eq!(failed(&s), "build: oops");
    let (s, _) = poll_step(ProcState::Starting, &ProcEvent::Exited { success: false, status: "signal: 9".into() }, "l", 1);
    assert_eq!(failed(&s), "renderer exited while starting (signal: 9); see l");
    let (s, _) = poll_step(ProcState::Starting, &ProcEvent::Unanswered { timed_out: true }, "l", 9123);
    assert_eq!(failed(&s), "no answer on port 9123 after 90s");
    let (s, a) = poll_step(ProcState::Running, &ProcEvent::Exited { success: false, status: "exit status: 3".into() }, "l", 1);
    assert_eq!(failed(&s), "renderer exited (exit status: 3); see l");
    assert_eq!(a, ProcAction::ForgetChild);
    assert_eq!(failed(&spawn_failed("/bin/x", "not found")), "cannot start /bin/x: not found");
    assert_eq!(failed(&build_failed("no cargo")), "cannot run cargo: no cargo");
}

#[test]
fn settled_states_ignore_events() {
    let (s, a) = poll_step(ProcState::Stopped, &ProcEvent::Answered, "l", 1);
    assert!(matches!(s, ProcState::Stopped));
    assert_eq!(a, ProcAction::Keep);
    let (s, a) = poll_step(ProcState::Failed("x".into()), &ProcEvent::Exited { success: true, status: String::new() }, "l", 1);
    assert_eq!(failed(&s), "x");
    assert_eq!(a, ProcAction::Keep);
    let (s, _) = launch_state(true);
    assert!(matches!(s, ProcState::Starting));
}
