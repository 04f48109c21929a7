use scan_control::channel_state::{unit_of_name, ChannelFollowUp, ChannelState, PREFERRED_CHANNEL};

#[test]
fn vec_eq() {
    let a = vec!["a", "b", "c"];
    let b = vec!["a", "c", "c"];
    println!("{:?}", a == b);
    assert!(a != b);
}

fn names(list: &[&str]) -> Vec<String> {
    list.iter().map(|s| s.to_string()).collect()
}

#[test]
fn channel_state_starts_empty() {
    let state = ChannelState::new();
    assert!(state.options().is_empty());
    assert_eq!(state.selection, None);
    let state = ChannelState::default();
    assert_eq!(state.selection, None);
}

#[test]
fn modify_opts_prefers_the_preferred_channel() {
    let mut state = ChannelState::new();
    state.modify_opts(vec![0, PREFERRED_CHANNEL, 5]);
    assert_eq!(state.selection, Some(30));
    assert_eq!(state.options(), &[0, 30, 5]);
}

#[test]
fn modify_opts_falls_back_to_first_option() {
    let mut state = ChannelState::new();
    state.selection = Some(30);
    state.modify_opts(vec![3, 4]);
    assert_eq!(state.selection, Some(3));
}

#[test]
fn modify_opts_keeps_an_offered_selection() {
    let mut state = ChannelState::new();
    state.selection = Some(4);
    state.modify_opts(vec![30, 4]);
    assert_eq!(state.selection, Some(4));
}

#[test]
fn modify_opts_clears_when_nothing_is_offered() {
    let mut state = ChannelState::new();
    state.selection = Some(7);
    state.modify_opts(vec![]);
    assert_eq!(state.selection, None);
}

#[test]
fn channel_names_and_units() {
    let mut state = ChannelState::new();
    state.write_names(names(&["Current (A)", "Z (m)", "Bias"]));
    state.modify_opts(vec![2, 1]);
    assert_eq!(state.channel_opts_names(), names(&["Bias", "Z (m)"]));
    assert_eq!(state.selection, Some(2));
    assert_eq!(state.selected_as_string(), Some("Bias".to_string()));
    assert_eq!(state.unit(), None);
    state.set_selection_by_name("Z (m)");
    assert_eq!(state.selection, Some(1));
    assert_eq!(state.unit(), Some("m".to_string()));
    state.set_selection_by_name("Current (A)");
    assert_eq!(state.selected_as_string(), Some("Current (A)".to_string()));
    assert_eq!(state.unit(), Some("A".to_string()));
}

#[test]
fn set_selection_by_name_takes_the_first_match() {
    let mut state = ChannelState::new();
    state.write_names(names(&["X", "Y", "X"]));
    state.set_selection_by_name("X");
    assert_eq!(state.selection, Some(0));
}

#[test]
fn unit_of_names_splits_at_brackets() {
    assert_eq!(unit_of_name("X (V) extra"), Some("V".to_string()));
    assert_eq!(unit_of_name("a)b"), Some("b".to_string()));
    assert_eq!(unit_of_name("plain"), None);
    assert_eq!(unit_of_name("ends("), Some("".to_string()));
}

#[test]
fn the_view_follows_the_controller_choice() {
    let mut state = ChannelState::new();
    state.write_names(names(&["Current (A)", "Z (m)"]));
    state.modify_opts(vec![0, 1]);
    let (shown, next_step) = state.follow_controller(None);
    assert_eq!(shown, Some("Current (A)".to_string()));
    assert_eq!(next_step, ChannelFollowUp::RequestFrame);
    let (shown, next_step) = state.follow_controller(shown);
    assert_eq!(shown, Some("Current (A)".to_string()));
    assert_eq!(next_step, ChannelFollowUp::Nothing);
    state.modify_opts(vec![]);
    let (shown, next_step) = state.follow_controller(shown);
    assert_eq!(shown, None);
    assert_eq!(next_step, ChannelFollowUp::ClearImage);
}

#[test]
fn the_controller_follows_the_view_choice() {
    let mut state = ChannelState::new();
    state.write_names(names(&["Current (A)", "Z (m)"]));
    state.modify_opts(vec![0, 1]);
    assert_eq!(state.follow_view(&Some("Z (m)".to_string())), ChannelFollowUp::RequestFrame);
    assert_eq!(state.selection, Some(1));
    assert_eq!(state.follow_view(&Some("Z (m)".to_string())), ChannelFollowUp::Nothing);
    assert_eq!(state.follow_view(&None), ChannelFollowUp::ClearImage);
    assert_eq!(state.selection, None);
}

#[test]
fn set_selection_chooses_the_channel() {
    let mut state = ChannelState::new();
    state.write_names(vec!["Current (A)".to_string(), "Z (m)".to_string()]);
    state.set_selection(Some(1));
    assert_eq!(state.selection, Some(1));
    assert_eq!(state.selected_as_string(), Some("Z (m)".to_string()));
    state.set_selection(None);
    assert_eq!(state.selected_as_string(), None);
}
