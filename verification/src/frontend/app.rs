//! The state machine of the terminal user interface: what a key, a paste or
//! a backend event does to the interface and which effect the program around
//! it must carry out (sending a command, moving in the file tree, ...).

use std::path::PathBuf;
use vstd::prelude::*;

use crate::backend::BackendEvent;
use crate::frontend::log::LogState;
use crate::text::{pop_char, push_char};

verus! {

/// Which pane the arrow keys act on.
#[derive(Debug, Clone, Copy, PartialEq, Eq, Structural)]
pub enum ActivePane {
    Tree,
    Logs,
}

/// The keys the interface tells apart.
#[derive(Debug, Clone, Copy, PartialEq, Eq, Structural)]
pub enum KeyInput {
    Char(char),
    Backspace,
    Enter,
    Esc,
    Up,
    Down,
    Left,
    Right,
    Tab,
    BackTab,
    Other,
}

/// A terminal event: a key (pressed, or released/repeated), pasted text, or
/// anything else.
#[derive(Debug)]
pub enum TermEvent {
    Key { code: KeyInput, pressed: bool },
    Paste(String),
    Other,
}

/// What the program around the interface must do after an event.
#[derive(Debug, PartialEq, Eq)]
pub enum UiEffect {
    /// Nothing.
    Nothing,
    /// Send the ticket to the backend and stop accepting bracketed pastes.
    SendTicket(String),
    /// Stop accepting bracketed pastes (the ticket prompt was dismissed).
    CloseTicketPrompt,
    /// Start accepting bracketed pastes (the ticket prompt was opened).
    OpenTicketPrompt,
    /// Ask the backend to share the path selected in the tree.
    SyncSelected,
    /// Open or close the selected tree node.
    ToggleSelected,
    TreeDown,
    TreeUp,
    TreeLeft,
    TreeRight,
    /// Put text on the clipboard.
    CopyToClipboard,
}

/// The mathematical form of an effect.
pub enum Effect {
    Nothing,
    SendTicket(Seq<char>),
    CloseTicketPrompt,
    OpenTicketPrompt,
    SyncSelected,
    ToggleSelected,
    TreeDown,
    TreeUp,
    TreeLeft,
    TreeRight,
    CopyToClipboard,
}

impl View for UiEffect {
    type V = Effect;

    open spec fn view(&self) -> Effect {
        match self {
            UiEffect::Nothing => Effect::Nothing,
            UiEffect::SendTicket(t) => Effect::SendTicket(t@),
            UiEffect::CloseTicketPrompt => Effect::CloseTicketPrompt,
            UiEffect::OpenTicketPrompt => Effect::OpenTicketPrompt,
            UiEffect::SyncSelected => Effect::SyncSelected,
            UiEffect::ToggleSelected => Effect::ToggleSelected,
            UiEffect::TreeDown => Effect::TreeDown,
            UiEffect::TreeUp => Effect::TreeUp,
            UiEffect::TreeLeft => Effect::TreeLeft,
            UiEffect::TreeRight => Effect::TreeRight,
            UiEffect::CopyToClipboard => Effect::CopyToClipboard,
        }
    }
}

/// The state of the interface (the file tree's selection lives with the
/// widget that draws it).
pub struct App {
    pub should_exit: bool,
    pub logs: Vec<String>,
    pub log_state: LogState,
    pub src_path: PathBuf,
    pub active_pane: ActivePane,
    pub show_popup: bool,
    pub input_value: String,
}

/// The mathematical form of the interface state.
pub struct AppView {
    pub should_exit: bool,
    pub logs: Seq<Seq<char>>,
    pub log_state: LogState,
    pub active_pane: ActivePane,
    pub show_popup: bool,
    pub input: Seq<char>,
}

impl View for App {
    type V = AppView;

    open spec fn view(&self) -> AppView {
        AppView {
            should_exit: self.should_exit,
            logs: self.logs@.map_values(|s: String| s@),
            log_state: self.log_state,
            active_pane: self.active_pane,
            show_popup: self.show_popup,
            input: self.input_value@,
        }
    }
}

/// The other pane.
pub open spec fn other_pane(p: ActivePane) -> ActivePane {
    match p {
        ActivePane::Tree => ActivePane::Logs,
        ActivePane::Logs => ActivePane::Tree,
    }
}

/// What a key does. While the ticket prompt is open, keys edit the ticket:
/// characters are appended, backspace removes the last one, enter sends the
/// ticket and closes the prompt, escape discards it. Otherwise `q` quits,
/// enter shares the selected path, space toggles the selected node, the
/// arrows move in the tree (up and down scroll the log when it is the active
/// pane), tab switches panes and `c` copies to the clipboard.
pub open spec fn key_step(s: AppView, key: KeyInput) -> (AppView, Effect) {
    if s.show_popup {
        match key {
            KeyInput::Char(c) => (AppView { input: s.input.push(c), ..s }, Effect::Nothing),
            KeyInput::Backspace => (
                AppView {
                    input: if s.input.len() > 0 {
                        s.input.drop_last()
                    } else {
                        s.input
                    },
                    ..s
                },
                Effect::Nothing,
            ),
            KeyInput::Enter => (
                AppView { input: Seq::empty(), show_popup: false, ..s },
                Effect::SendTicket(s.input),
            ),
            KeyInput::Esc => (
                AppView { input: Seq::empty(), show_popup: false, ..s },
                Effect::CloseTicketPrompt,
            ),
            _ => (s, Effect::Nothing),
        }
    } else {
        match key {
            KeyInput::Char(c) => if c == 'q' {
                (AppView { should_exit: true, ..s }, Effect::Nothing)
            } else if c == ' ' {
                (s, Effect::ToggleSelected)
            } else if c == 'c' {
                (s, Effect::CopyToClipboard)
            } else {
                (s, Effect::Nothing)
            },
            KeyInput::Enter => (s, Effect::SyncSelected),
            KeyInput::Down => match s.active_pane {
                ActivePane::Tree => (s, Effect::TreeDown),
                ActivePane::Logs => (
                    AppView { log_state: s.log_state.scrolled_down(), ..s },
                    Effect::Nothing,
                ),
            },
            KeyInput::Up => match s.active_pane {
                ActivePane::Tree => (s, Effect::TreeUp),
                ActivePane::Logs => (
                    AppView { log_state: s.log_state.scrolled_up(), ..s },
                    Effect::Nothing,
                ),
            },
            KeyInput::Left => (s, Effect::TreeLeft),
            KeyInput::Right => (s, Effect::TreeRight),
            KeyInput::Tab | KeyInput::BackTab => (
                AppView { active_pane: other_pane(s.active_pane), ..s },
                Effect::Nothing,
            ),
            _ => (s, Effect::Nothing),
        }
    }
}

/// What pasted text does: while the ticket prompt is open it is appended to
/// the ticket; otherwise nothing changes.
pub open spec fn paste_step(s: AppView, text: Seq<char>) -> AppView {
    AppView {
        input: if s.show_popup {
            s.input + text
        } else {
            s.input
        },
        ..s
    }
}

/// What a ticket request from the backend does: the prompt opens.
pub open spec fn ticket_request_step(s: AppView) -> AppView {
    AppView { show_popup: true, ..s }
}

/// Law: switching panes twice comes back to the same state.
pub proof fn tab_twice_returns(s: AppView)
    requires
        !s.show_popup,
    ensures
        key_step(key_step(s, KeyInput::Tab).0, KeyInput::Tab) == (s, Effect::Nothing),
{
}

/// Law: in the ticket prompt, typing a character and then backspace leaves
/// the state as it was.
pub proof fn type_then_backspace_returns(s: AppView, c: char)
    requires
        s.show_popup,
    ensures
        key_step(key_step(s, KeyInput::Char(c)).0, KeyInput::Backspace).0 == s,
{
    assert(s.input.push(c).drop_last() =~= s.input);
}

/// Law: the backend receives exactly the ticket the user pasted: after a
/// ticket request opens an empty prompt, pasting `t` and pressing enter
/// sends `t` and closes the prompt.
pub proof fn pasted_ticket_is_sent(s: AppView, t: Seq<char>)
    requires
        s.input.len() == 0,
    ensures
        key_step(paste_step(ticket_request_step(s), t), KeyInput::Enter) == (
            AppView { show_popup: false, ..s },
            Effect::SendTicket(t),
        ),
{
    assert(s.input + t =~= t);
    assert(s.input =~= Seq::<char>::empty());
}

/// Law: the backend receives exactly the ticket the user typed: with the
/// prompt open and empty, typing the characters of `t` one by one and
/// pressing enter sends `t`.
pub proof fn typed_ticket_is_sent(s: AppView, t: Seq<char>)
    requires
        s.show_popup,
        s.input.len() == 0,
    ensures
        key_step(type_all(s, t), KeyInput::Enter) == (
            AppView { show_popup: false, ..s },
            Effect::SendTicket(t),
        ),
{
    lemma_type_all(s, t);
    assert(s.input + t =~= t);
    assert(s.input =~= Seq::<char>::empty());
}

/// The state after typing the characters of `t` one by one.
pub open spec fn type_all(s: AppView, t: Seq<char>) -> AppView
    decreases t.len(),
{
    if t.len() == 0 {
        s
    } else {
        key_step(type_all(s, t.drop_last()), KeyInput::Char(t.last())).0
    }
}

proof fn lemma_type_all(s: AppView, t: Seq<char>)
    requires
        s.show_popup,
    ensures
        type_all(s, t) == (AppView { input: s.input + t, ..s }),
    decreases t.len(),
{
    if t.len() == 0 {
        assert(s.input + t =~= s.input);
    } else {
        lemma_type_all(s, t.drop_last());
        assert((s.input + t.drop_last()).push(t.last()) =~= s.input + t);
    }
}

impl App {
    /// A new interface browsing `src_path`: tree pane active, no messages,
    /// following the log, no ticket prompt.
    pub fn new(src_path: PathBuf) -> (app: App)
        ensures
            app@ == (AppView {
                should_exit: false,
                logs: Seq::empty(),
                log_state: LogState {
                    vertical_scroll: 0,
                    tail: true,
                    content_height: 0,
                    viewport_height: 0,
                },
                active_pane: ActivePane::Tree,
                show_popup: false,
                input: Seq::empty(),
            }),
            app.src_path == src_path,
    {
        let app = App {
            should_exit: false,
            logs: Vec::new(),
            log_state: LogState::default(),
            src_path,
            active_pane: ActivePane::Tree,
            show_popup: false,
            input_value: String::new(),
        };
        assert(app@.logs =~= Seq::<Seq<char>>::empty());
        app
    }

    /// Marks the interface as finished.
    pub fn exit(&mut self)
        ensures
            final(self)@ == (AppView { should_exit: true, ..old(self)@ }),
            final(self).src_path == old(self).src_path,
    {
        self.should_exit = true;
    }

    /// Handles one key (see `key_step`).
    pub fn handle_key_event(&mut self, key: KeyInput) -> (effect: UiEffect)
        ensures
            (final(self)@, effect@) == key_step(old(self)@, key),
            final(self).src_path == old(self).src_path,
    {
        if self.show_popup {
            match key {
                KeyInput::Char(c) => {
                    push_char(&mut self.input_value, c);
                    UiEffect::Nothing
                },
                KeyInput::Backspace => {
                    let _ = pop_char(&mut self.input_value);
                    UiEffect::Nothing
                },
                KeyInput::Enter => {
                    let ticket = self.input_value.clone();
                    self.input_value = String::new();
                    self.show_popup = false;
                    UiEffect::SendTicket(ticket)
                },
                KeyInput::Esc => {
                    self.input_value = String::new();
                    self.show_popup = false;
                    UiEffect::CloseTicketPrompt
                },
                _ => UiEffect::Nothing,
            }
        } else {
            match key {
                KeyInput::Char(c) => {
                    if c == 'q' {
                        self.exit();
                        UiEffect::Nothing
                    } else if c == ' ' {
                        UiEffect::ToggleSelected
                    } else if c == 'c' {
                        UiEffect::CopyToClipboard
                    } else {
                        UiEffect::Nothing
                    }
                },
                KeyInput::Enter => UiEffect::SyncSelected,
                KeyInput::Down => match self.active_pane {
                    ActivePane::Tree => UiEffect::TreeDown,
                    ActivePane::Logs => {
                        self.log_state.scroll_down();
                        UiEffect::Nothing
                    },
                },
                KeyInput::Up => match self.active_pane {
                    ActivePane::Tree => UiEffect::TreeUp,
                    ActivePane::Logs => {
                        self.log_state.scroll_up();
                        UiEffect::Nothing
                    },
                },
                KeyInput::Left => UiEffect::TreeLeft,
                KeyInput::Right => UiEffect::TreeRight,
                KeyInput::Tab | KeyInput::BackTab => {
                    self.active_pane = match self.active_pane {
                        ActivePane::Tree => ActivePane::Logs,
                        ActivePane::Logs => ActivePane::Tree,
                    };
                    UiEffect::Nothing
                },
                _ => UiEffect::Nothing,
            }
        }
    }

    /// Handles one terminal event: a pressed key as `handle_key_event` does,
    /// pasted text is appended to the ticket while the prompt is open, and
    /// anything else changes nothing.
    pub fn handle_event(&mut self, event: TermEvent) -> (effect: UiEffect)
        ensures
            final(self).src_path == old(self).src_path,
            match event {
                TermEvent::Key { code, pressed } => if pressed {
                    (final(self)@, effect@) == key_step(old(self)@, code)
                } else {
                    final(self)@ == old(self)@ && effect@ == Effect::Nothing
                },
                TermEvent::Paste(text) => effect@ == Effect::Nothing && final(self)@ == paste_step(
                    old(self)@,
                    text@,
                ),
                TermEvent::Other => final(self)@ == old(self)@ && effect@ == Effect::Nothing,
            },
    {
        match event {
            TermEvent::Key { code, pressed } => {
                if pressed {
                    self.handle_key_event(code)
                } else {
                    UiEffect::Nothing
                }
            },
            TermEvent::Paste(text) => {
                if self.show_popup {
                    self.input_value.append(text.as_str());
                }
                UiEffect::Nothing
            },
            TermEvent::Other => UiEffect::Nothing,
        }
    }

    /// Takes in one event from the backend: a status update becomes a log
    /// line, a ticket request opens the ticket prompt, and the other events
    /// change nothing.
    pub fn apply_backend_event(&mut self, event: BackendEvent) -> (effect: UiEffect)
        ensures
            final(self).src_path == old(self).src_path,
            match event {
                BackendEvent::StatusUpdate(msg) => effect@ == Effect::Nothing && final(self)@ == (
                AppView { logs: old(self)@.logs.push(msg@), ..old(self)@ }),
                BackendEvent::TicketRequest => effect@ == Effect::OpenTicketPrompt && final(self)@
                    == ticket_request_step(old(self)@),
                _ => effect@ == Effect::Nothing && final(self)@ == old(self)@,
            },
    {
        match event {
            BackendEvent::StatusUpdate(msg) => {
                self.push_log(msg);
                UiEffect::Nothing
            },
            BackendEvent::TicketRequest => {
                self.show_popup = true;
                UiEffect::OpenTicketPrompt
            },
            _ => UiEffect::Nothing,
        }
    }

    /// Appends a line to the log.
    pub fn push_log(&mut self, msg: String)
        ensures
            final(self)@ == (AppView { logs: old(self)@.logs.push(msg@), ..old(self)@ }),
            final(self).src_path == old(self).src_path,
    {
        let ghost before = self.logs@;
        self.logs.push(msg);
        assert(self.logs@.map_values(|s: String| s@) =~= before.map_values(|s: String| s@).push(
            msg@,
        ));
    }
}

} // verus!
