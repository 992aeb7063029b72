use zygote_core::graph::ParamPath;
use zygote_core::modulate::{assign, drop_source, Assignment};
use zygote_core::modulate::{next_free_id, LfoShape};
use zygote_core::timeline::{cue_label, next_cue_id, Transition};

#[test]
fn cues_stay_sorted_and_ids_unique() {
    // Two cues added to a new timeline get different ids.
    let (b, next) = next_cue_id(1, &vec![]);
    let (a, next) = next_cue_id(next, &vec![b]);
    assert_ne!(a, b);
    assert_eq!((b, a, next), (1, 2, 3));
}

#[test]
fn cue_ids_skip_past_ids_in_use() {
    // A file written before the counter existed: ids above the counter.
    assert_eq!(next_cue_id(1, &vec![4, 9, 2]), (10, 11));
    assert_eq!(next_cue_id(20, &vec![4, 9, 2]), (20, 21));
    assert_eq!(next_cue_id(0, &vec![]), (1, 2));
}

#[test]
fn cue_labels_name_the_id() {
    assert_eq!(cue_label(1), "Cue 1");
    assert_eq!(cue_label(42), "Cue 42");
}

#[test]
fn transitions_toggle() {
    assert_eq!(Transition::Cut.toggled(), Transition::Interpolate);
    assert_eq!(Transition::Interpolate.toggled(), Transition::Cut);
    assert_eq!(Transition::default(), Transition::Interpolate);
    assert_eq!(Transition::Cut.toggled().toggled(), Transition::Cut);
}

#[test]
fn next_source_id_is_the_first_free_number() {
    let ids: Vec<String> = vec!["lfo1".into(), "lfo2".into(), "env1".into(), "lfo4".into()];
    assert_eq!(next_free_id("lfo", &ids), "lfo3");
    assert_eq!(next_free_id("env", &ids), "env2");
    assert_eq!(next_free_id("audio", &ids), "audio1");
    assert_eq!(next_free_id("lfo", &vec![]), "lfo1");
}

#[test]
fn lfo_shapes_have_menu_labels() {
    let labels: Vec<&str> = LfoShape::all().iter().map(|s| s.label()).collect();
    assert_eq!(labels, vec!["sine", "tri", "saw", "square"]);
}

#[test]
fn one_assignment_per_parameter_and_none_for_a_removed_source() {
    let mut list: Vec<Assignment<i32>> = Vec::new();
    assign(&mut list, &ParamPath::new("warp", "amount"), Some("lfo1"), 1);
    assign(&mut list, &ParamPath::new("feedback", "zoom"), Some("lfo2"), 2);
    assign(&mut list, &ParamPath::new("warp", "amount"), Some("lfo2"), 3);
    let seen: Vec<(String, String, i32)> =
        list.iter().map(|a| (a.target.to_text(), a.source.clone(), a.depth)).collect();
    assert_eq!(
        seen,
        vec![
            ("feedback.zoom".to_owned(), "lfo2".to_owned(), 2),
            ("warp.amount".to_owned(), "lfo2".to_owned(), 3)
        ]
    );
    assign(&mut list, &ParamPath::new("feedback", "zoom"), None, 0);
    assert_eq!(list.len(), 1);
    assign(&mut list, &ParamPath::new("feedback", "zoom"), Some("lfo1"), 4);
    drop_source(&mut list, "lfo2");
    assert_eq!(list.len(), 1);
    assert_eq!(list[0].source, "lfo1");
    assert_eq!(list[0].target.to_text(), "feedback.zoom");
}
