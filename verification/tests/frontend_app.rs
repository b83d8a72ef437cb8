use keith_shareit::backend::BackendEvent;
use keith_shareit::frontend::app::{ActivePane, App, KeyInput, TermEvent, UiEffect};
use std::path::PathBuf;

fn app() -> App {
    App::new(PathBuf::from("/music"))
}

fn key(a: &mut App, k: KeyInput) -> UiEffect {
    a.handle_key_event(k)
}

#[test]
fn app_new_starts_on_tree_without_prompt() {
    let a = app();
    assert!(!a.should_exit);
    assert!(a.logs.is_empty());
    assert_eq!(a.active_pane, ActivePane::Tree);
    assert!(!a.show_popup);
    assert_eq!(a.input_value, "");
    assert_eq!(a.src_path, PathBuf::from("/music"));
    assert!(a.log_state.tail);
}

#[test]
fn app_q_exits() {
    let mut a = app();
    assert_eq!(key(&mut a, KeyInput::Char('q')), UiEffect::Nothing);
    assert!(a.should_exit);
}

#[test]
fn app_tree_keys_become_tree_effects() {
    let mut a = app();
    assert_eq!(key(&mut a, KeyInput::Enter), UiEffect::SyncSelected);
    assert_eq!(key(&mut a, KeyInput::Char(' ')), UiEffect::ToggleSelected);
    assert_eq!(key(&mut a, KeyInput::Down), UiEffect::TreeDown);
    assert_eq!(key(&mut a, KeyInput::Up), UiEffect::TreeUp);
    assert_eq!(key(&mut a, KeyInput::Left), UiEffect::TreeLeft);
    assert_eq!(key(&mut a, KeyInput::Right), UiEffect::TreeRight);
    assert_eq!(key(&mut a, KeyInput::Char('c')), UiEffect::CopyToClipboard);
    assert_eq!(key(&mut a, KeyInput::Char('x')), UiEffect::Nothing);
    assert_eq!(key(&mut a, KeyInput::Esc), UiEffect::Nothing);
}

#[test]
fn app_tab_switches_pane_and_arrows_scroll_logs() {
    let mut a = app();
    assert_eq!(key(&mut a, KeyInput::Tab), UiEffect::Nothing);
    assert_eq!(a.active_pane, ActivePane::Logs);
    assert_eq!(key(&mut a, KeyInput::Up), UiEffect::Nothing);
    assert!(!a.log_state.tail);
    assert_eq!(key(&mut a, KeyInput::Down), UiEffect::Nothing);
    assert!(a.log_state.tail);
    assert_eq!(key(&mut a, KeyInput::BackTab), UiEffect::Nothing);
    assert_eq!(a.active_pane, ActivePane::Tree);
}

#[test]
fn app_prompt_edits_and_sends_ticket() {
    let mut a = app();
    assert_eq!(a.apply_backend_event(BackendEvent::TicketRequest), UiEffect::OpenTicketPrompt);
    assert!(a.show_popup);
    for c in "abc".chars() {
        assert_eq!(key(&mut a, KeyInput::Char(c)), UiEffect::Nothing);
    }
    assert_eq!(key(&mut a, KeyInput::Backspace), UiEffect::Nothing);
    assert_eq!(a.input_value, "ab");
    assert_eq!(key(&mut a, KeyInput::Char('q')), UiEffect::Nothing);
    assert!(!a.should_exit);
    assert_eq!(key(&mut a, KeyInput::Enter), UiEffect::SendTicket("abq".to_string()));
    assert!(!a.show_popup);
    assert_eq!(a.input_value, "");
}

#[test]
fn app_backspace_on_empty_prompt_keeps_it_empty() {
    let mut a = app();
    a.show_popup = true;
    assert_eq!(key(&mut a, KeyInput::Backspace), UiEffect::Nothing);
    assert_eq!(a.input_value, "");
}

#[test]
fn app_escape_discards_ticket() {
    let mut a = app();
    a.show_popup = true;
    key(&mut a, KeyInput::Char('z'));
    assert_eq!(key(&mut a, KeyInput::Esc), UiEffect::CloseTicketPrompt);
    assert!(!a.show_popup);
    assert_eq!(a.input_value, "");
}

#[test]
fn app_law_pasted_ticket_is_sent() {
    let mut a = app();
    a.apply_backend_event(BackendEvent::TicketRequest);
    assert_eq!(a.handle_event(TermEvent::Paste("endpointabc123".to_string())), UiEffect::Nothing);
    let e = a.handle_event(TermEvent::Key { code: KeyInput::Enter, pressed: true });
    assert_eq!(e, UiEffect::SendTicket("endpointabc123".to_string()));
}

#[test]
fn app_paste_ignored_without_prompt_and_released_keys_ignored() {
    let mut a = app();
    a.handle_event(TermEvent::Paste("zzz".to_string()));
    assert_eq!(a.input_value, "");
    let e = a.handle_event(TermEvent::Key { code: KeyInput::Char('q'), pressed: false });
    assert_eq!(e, UiEffect::Nothing);
    assert!(!a.should_exit);
    assert_eq!(a.handle_event(TermEvent::Other), UiEffect::Nothing);
}

#[test]
fn app_law_tab_twice_returns() {
    let mut a = app();
    key(&mut a, KeyInput::Tab);
    key(&mut a, KeyInput::Tab);
    assert_eq!(a.active_pane, ActivePane::Tree);
}

#[test]
fn app_status_updates_become_log_lines() {
    let mut a = app();
    a.apply_backend_event(BackendEvent::StatusUpdate("hello".to_string()));
    a.apply_backend_event(BackendEvent::ConnectionSecured);
    a.apply_backend_event(BackendEvent::_DownloadComplete);
    assert_eq!(a.logs, vec!["hello".to_string()]);
    a.push_log("more".to_string());
    assert_eq!(a.logs.len(), 2);
    a.exit();
    assert!(a.should_exit);
}
