use krevetka::watch::{CyclePlan, WatchState};

#[test]
fn nothing_changed_publishes_nothing() {
    let state = WatchState::new();
    let plan = state.plan_cycle(100, 100, None);
    assert_eq!(plan, CyclePlan { map_changed: false, lang_changed: false });
    assert!(!plan.publishes());
}

#[test]
fn manifest_size_change_is_published_and_promoted() {
    let mut state = WatchState::new();
    let plan = state.plan_cycle(120, 100, None);
    assert!(plan.map_changed && plan.publishes());
    assert!(state.complete_cycle(plan, None, true));
}

#[test]
fn failed_publish_keeps_the_state() {
    let mut state = WatchState::new();
    let plan = state.plan_cycle(120, 100, Some("+a = 1\n"));
    assert!(plan.lang_changed);
    assert!(!state.complete_cycle(plan, Some("+a = 1\n".to_string()), false));
    assert_eq!(state.last_lang_diff, "");
    assert!(state.plan_cycle(100, 100, Some("+a = 1\n")).lang_changed);
}

#[test]
fn published_lang_diff_is_remembered() {
    let mut state = WatchState::new();
    let plan = state.plan_cycle(100, 100, Some("~b = 2\n"));
    assert_eq!(plan, CyclePlan { map_changed: false, lang_changed: true });
    assert!(!state.complete_cycle(plan, Some("~b = 2\n".to_string()), true));
    assert_eq!(state.last_lang_diff, "~b = 2\n");
    assert!(!state.plan_cycle(100, 100, Some("~b = 2\n")).publishes());
}
