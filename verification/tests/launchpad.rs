use autonomi::launchpad::{
    Action, AppData, AppState, Binding, Control, Dispatch, Effect, Event, InputMode, Scene,
};

fn state() -> AppState {
    AppState::new(AppData { discord_username: "someone".to_string(), allocated_disk_space: 5 })
}

fn bindings() -> Vec<Binding> {
    vec![
        Binding { scene: Scene::Home, keys: vec![113], action: Action::Quit },
        Binding { scene: Scene::Home, keys: vec![103, 103], action: Action::SwitchScene(Scene::Help) },
        Binding { scene: Scene::Help, keys: vec![27], action: Action::SwitchScene(Scene::Home) },
        Binding { scene: Scene::Home, keys: vec![113], action: Action::Suspend },
    ]
}

#[test]
fn the_application_starts_at_home_in_navigation_mode() {
    let s = state();
    assert_eq!(s.scene, Scene::Home);
    assert_eq!(s.input_mode, InputMode::Navigation);
    assert!(!s.should_quit && !s.should_suspend);
    assert!(s.last_tick_key_events.is_empty());
    assert_eq!(s.control(), Control::Continue);
}

#[test]
fn terminal_events_become_their_actions() {
    let mut s = state();
    let b = bindings();
    assert_eq!(s.on_event(Event::Quit, &b), Dispatch::Send(Action::Quit));
    assert_eq!(s.on_event(Event::Tick, &b), Dispatch::Send(Action::Tick));
    assert_eq!(s.on_event(Event::Render, &b), Dispatch::Send(Action::Render));
    assert_eq!(s.on_event(Event::Resize(80, 24), &b), Dispatch::Send(Action::Resize(80, 24)));
    assert_eq!(s.on_event(Event::Other, &b), Dispatch::Nothing);
    assert_eq!(s, state());
}

#[test]
fn a_key_bound_alone_sends_its_first_binding() {
    let mut s = state();
    assert_eq!(s.on_event(Event::Key(113), &bindings()), Dispatch::Send(Action::Quit));
    assert!(s.last_tick_key_events.is_empty());
}

#[test]
fn keys_pressed_in_a_row_are_looked_up_together() {
    let mut s = state();
    let b = bindings();
    assert_eq!(s.on_event(Event::Key(103), &b), Dispatch::Nothing);
    assert_eq!(s.last_tick_key_events, vec![103]);
    assert_eq!(s.on_event(Event::Key(103), &b), Dispatch::Send(Action::SwitchScene(Scene::Help)));
    assert_eq!(s.last_tick_key_events, vec![103, 103]);
    // A tick forgets the keys.
    assert_eq!(s.on_action(&Action::Tick), Effect::Nothing);
    assert!(s.last_tick_key_events.is_empty());
    assert_eq!(s.on_event(Event::Key(103), &b), Dispatch::Nothing);
}

#[test]
fn bindings_are_those_of_the_scene() {
    let mut s = state();
    let b = bindings();
    assert_eq!(s.on_event(Event::Key(27), &b), Dispatch::Nothing);
    s.on_action(&Action::SwitchScene(Scene::Help));
    s.on_action(&Action::Tick);
    assert_eq!(s.on_event(Event::Key(27), &b), Dispatch::Send(Action::SwitchScene(Scene::Home)));
    // A scene without bindings keeps no keys.
    s.on_action(&Action::SwitchScene(Scene::BetaProgramme));
    assert_eq!(s.on_event(Event::Key(113), &b), Dispatch::Nothing);
    assert!(s.last_tick_key_events.is_empty());
}

#[test]
fn in_entry_mode_keys_go_to_the_components() {
    let mut s = state();
    assert_eq!(s.on_action(&Action::SwitchInputMode(InputMode::Entry)), Effect::Nothing);
    assert_eq!(s.on_event(Event::Key(113), &bindings()), Dispatch::Forward);
    assert!(s.last_tick_key_events.is_empty());
}

#[test]
fn actions_change_the_state_and_name_their_effect() {
    let mut s = state();
    assert_eq!(s.on_action(&Action::Resize(100, 40)), Effect::Resize(100, 40));
    assert_eq!(s.on_action(&Action::Render), Effect::Draw);
    assert_eq!(s.on_action(&Action::Noop), Effect::Nothing);
    assert_eq!(s.on_action(&Action::Error("draw failed".to_string())), Effect::Nothing);
    assert_eq!(s, state());
    assert_eq!(s.on_action(&Action::StoreDiscordUserName("other".to_string())), Effect::Save);
    assert_eq!(s.app_data.discord_username, "other");
    assert_eq!(s.on_action(&Action::StoreAllocatedDiskSpace(50)), Effect::Save);
    assert_eq!(s.app_data.allocated_disk_space, 50);
}

#[test]
fn suspending_comes_before_quitting() {
    let mut s = state();
    s.on_action(&Action::Quit);
    assert_eq!(s.control(), Control::Stop);
    s.on_action(&Action::Suspend);
    assert_eq!(s.control(), Control::Suspend);
    s.on_action(&Action::Resume);
    assert_eq!(s.control(), Control::Stop);
}
