use server_tools::controls::{docker_on_key, initial_view, is_hidden_interface, network_on_key,
    poll_interval_ms, system_on_key, visible_interfaces, KeyInput, Step, ViewState};

#[test]
fn quit_keys() {
    let s = initial_view();
    assert_eq!(network_on_key(s, KeyInput::Char('q'), 3), Step::Quit);
    assert_eq!(network_on_key(s, KeyInput::Esc, 3), Step::Quit);
    assert_eq!(docker_on_key(s, KeyInput::Esc, 0), Step::Quit);
    assert!(system_on_key(KeyInput::Char('q')));
    assert!(!system_on_key(KeyInput::Down));
}

#[test]
fn help_toggles_only_in_network_view() {
    let s = initial_view();
    assert_eq!(s, ViewState { selected: Some(0), show_help: true });
    assert_eq!(network_on_key(s, KeyInput::Char('?'), 3), Step::Continue(ViewState { selected: Some(0), show_help: false }));
    assert_eq!(network_on_key(s, KeyInput::F(1), 3), Step::Continue(ViewState { selected: Some(0), show_help: false }));
    assert_eq!(docker_on_key(s, KeyInput::Char('?'), 3), Step::Continue(s));
}

#[test]
fn selection_moves_within_the_table() {
    let s = ViewState { selected: Some(1), show_help: true };
    assert_eq!(network_on_key(s, KeyInput::Down, 3), Step::Continue(ViewState { selected: Some(2), show_help: true }));
    let last = ViewState { selected: Some(2), show_help: true };
    assert_eq!(network_on_key(last, KeyInput::Down, 3), Step::Continue(last));
    assert_eq!(docker_on_key(s, KeyInput::Up, 3), Step::Continue(ViewState { selected: Some(0), show_help: true }));
    let top = ViewState { selected: Some(0), show_help: true };
    assert_eq!(docker_on_key(top, KeyInput::Up, 3), Step::Continue(top));
    let none = ViewState { selected: None, show_help: false };
    assert_eq!(docker_on_key(none, KeyInput::Down, 0), Step::Continue(ViewState { selected: Some(0), show_help: false }));
    assert_eq!(docker_on_key(none, KeyInput::Char('x'), 2), Step::Continue(none));
}

#[test]
fn poll_interval_has_a_floor() {
    assert_eq!(poll_interval_ms(1000, 200), 1000);
    assert_eq!(poll_interval_ms(50, 200), 200);
    assert_eq!(poll_interval_ms(300, 300), 300);
}

#[test]
fn hidden_interfaces_match_exactly() {
    let hide = vec!["lo".to_string(), "docker0".to_string()];
    assert!(is_hidden_interface(&hide, "lo"));
    assert!(is_hidden_interface(&hide, "docker0"));
    assert!(!is_hidden_interface(&hide, "lo0"));
    assert!(!is_hidden_interface(&hide, "docker"));
    assert!(!is_hidden_interface(&Vec::new(), "eth0"));
}

#[test]
fn network_rows_are_the_unhidden_interfaces_by_name() {
    let names: Vec<String> = ["wlan0", "lo", "eth0", "docker0", "eth1"].iter().map(|s| s.to_string()).collect();
    let hide = vec!["lo".to_string(), "eth".to_string()];
    assert_eq!(
        visible_interfaces(&names, &hide),
        vec!["docker0".to_string(), "eth0".to_string(), "eth1".to_string(), "wlan0".to_string()]
    );
    assert_eq!(visible_interfaces(&Vec::new(), &hide), Vec::<String>::new());
    let dup = vec!["b".to_string(), "a".to_string(), "b".to_string()];
    assert_eq!(visible_interfaces(&dup, &Vec::new()), vec!["a".to_string(), "b".to_string(), "b".to_string()]);
}
