use zygote_core::keys::{reserved_key, KeyAction, KeyMap, KeyPress, Keyboard};

fn trig(t: &str) -> KeyAction {
    KeyAction::Trigger { trigger: t.to_owned() }
}

fn is_trigger(a: Option<&KeyAction>, t: &str) -> bool {
    matches!(a, Some(KeyAction::Trigger { trigger }) if trigger == t)
}

#[test]
fn transport_keys_are_reserved() {
    for k in ["space", "escape", "home", "[", "]", "enter", "l", "e", "t", "shift-t"] {
        assert!(reserved_key(k), "{k}");
    }
    for k in ["a", "shift-l", "T", "spacebar", ""] {
        assert!(!reserved_key(k), "{k}");
    }
}

#[test]
fn binding_moves_an_action_between_keys() {
    let mut keys = KeyMap::new();
    assert!(keys.bind("a", trig("kick")));
    assert!(is_trigger(keys.action_for("a"), "kick"));
    assert_eq!(keys.key_for_action(&trig("kick")), Some("a"));

    assert!(keys.bind("b", trig("kick")));
    assert!(keys.action_for("a").is_none());
    assert!(is_trigger(keys.action_for("b"), "kick"));
    assert_eq!(keys.key_for_action(&trig("kick")), Some("b"));

    assert!(keys.bind("b", KeyAction::Cue { id: 3 }));
    assert!(matches!(keys.action_for("b"), Some(KeyAction::Cue { id: 3 })));
    assert_eq!(keys.key_for_action(&trig("kick")), None);
}

#[test]
fn reserved_key_is_refused_and_changes_nothing() {
    let mut keys = KeyMap::new();
    assert!(keys.bind("x", KeyAction::Cue { id: 1 }));
    assert!(!keys.bind("space", KeyAction::Cue { id: 1 }));
    assert!(keys.action_for("space").is_none());
    assert_eq!(keys.key_for_action(&KeyAction::Cue { id: 1 }), Some("x"));
}

#[test]
fn unbind_removes_every_key_of_an_action() {
    let mut keys = KeyMap::new();
    keys.bind("a", trig("kick"));
    keys.bind("c", KeyAction::Cue { id: 2 });
    keys.unbind(&trig("kick"));
    assert!(keys.action_for("a").is_none());
    assert_eq!(keys.key_for_action(&KeyAction::Cue { id: 2 }), Some("c"));
}

#[test]
fn learning_then_pressing_binds_the_key() {
    let mut kb = Keyboard::new();
    kb.learn(Some(trig("snare")));
    assert!(matches!(kb.key_down("space", false), KeyPress::Refused));
    assert!(kb.learning().is_some());
    assert!(matches!(kb.key_down("s", false), KeyPress::Bound));
    assert!(kb.learning().is_none());
    assert_eq!(kb.keys().key_for_action(&trig("snare")), Some("s"));
}

#[test]
fn held_trigger_key_fires_once_and_releases_its_trigger() {
    let mut kb = Keyboard::new();
    kb.learn(Some(trig("snare")));
    kb.key_down("s", false);
    match kb.key_down("s", false) {
        KeyPress::Fire(KeyAction::Trigger { trigger }) => assert_eq!(trigger, "snare"),
        other => panic!("expected a trigger, got {other:?}"),
    }
    assert!(matches!(kb.key_down("s", false), KeyPress::Ignored));
    assert_eq!(kb.key_up("s"), Some("snare".to_owned()));
    assert_eq!(kb.key_up("s"), None);
    assert!(matches!(kb.key_down("s", true), KeyPress::Ignored));
}

#[test]
fn cue_key_fires_and_releases_nothing() {
    let mut kb = Keyboard::new();
    kb.learn(Some(KeyAction::Cue { id: 7 }));
    kb.key_down("7", false);
    assert!(matches!(kb.key_down("7", false), KeyPress::Fire(KeyAction::Cue { id: 7 })));
    assert_eq!(kb.key_up("7"), None);
    assert!(matches!(kb.key_down("q", false), KeyPress::Ignored));
}
