//! The main window, the tray and the terminal tabs: what each event leads to,
//! and what is asked before something is closed.

use vstd::prelude::*;
use crate::text;

verus! {

/// What the tray icon asks for.
#[derive(Debug, Clone, Copy)]
pub enum TrayMsg {
    Show,
    Quit,
}

/// What happens to the main window.
#[derive(Debug, Clone, Copy)]
pub enum WindowEvent {
    /// The window is about to close: its close button, or `Close` below.
    CloseRequested,
    /// The tray icon was used.
    Tray(TrayMsg),
    /// Quitting was chosen from the menu.
    QuitChosen,
    /// The question whether to quit was answered with yes.
    QuitConfirmed,
    /// The question whether to quit was answered with no.
    QuitCancelled,
}

/// What to do about it.
#[derive(Debug, Clone, Copy, PartialEq, Eq, Structural)]
pub enum WindowAction {
    /// Nothing.
    Stay,
    /// Let the window close, which ends the program.
    Proceed,
    /// Hide the window; the tray brings it back.
    Hide,
    /// Show the window.
    Show,
    /// Ask whether to quit.
    AskQuit,
    /// Close the window.
    Close,
}

/// The state of the main window.
#[derive(Debug, Clone, Copy)]
pub struct MainWindow {
    /// Whether quitting was confirmed.
    pub quitting: bool,
    /// Whether there is a tray icon.
    pub has_tray: bool,
    /// Whether the window is hidden to the tray.
    pub hidden: bool,
}

/// What to do about an event.
pub open spec fn action_for(w: MainWindow, event: WindowEvent) -> WindowAction {
    match event {
        WindowEvent::CloseRequested => if w.quitting {
            WindowAction::Proceed
        } else if w.has_tray {
            WindowAction::Hide
        } else {
            WindowAction::AskQuit
        },
        WindowEvent::Tray(TrayMsg::Show) => WindowAction::Show,
        WindowEvent::Tray(TrayMsg::Quit) => WindowAction::AskQuit,
        WindowEvent::QuitChosen => WindowAction::AskQuit,
        WindowEvent::QuitConfirmed => WindowAction::Close,
        WindowEvent::QuitCancelled => WindowAction::Stay,
    }
}

/// The window after an event.
pub open spec fn window_after(w: MainWindow, event: WindowEvent) -> MainWindow {
    MainWindow {
        quitting: w.quitting || event is QuitConfirmed,
        has_tray: w.has_tray,
        hidden: match action_for(w, event) {
            WindowAction::Hide => true,
            WindowAction::Show => false,
            _ => w.hidden,
        },
    }
}

/// The window as it opens.
pub open spec fn opening(has_tray: bool) -> MainWindow {
    MainWindow { quitting: false, has_tray, hidden: false }
}

/// The window after a sequence of events.
pub open spec fn window_after_all(w: MainWindow, events: Seq<WindowEvent>) -> MainWindow
    decreases events.len(),
{
    if events.len() == 0 {
        w
    } else {
        window_after(window_after_all(w, events.drop_last()), events.last())
    }
}

impl MainWindow {
    /// The window as it opens.
    pub fn new(has_tray: bool) -> (r: Self)
        ensures
            r == opening(has_tray),
    {
        MainWindow { quitting: false, has_tray, hidden: false }
    }

    /// Takes an event and says what to do about it. Without a tray the close
    /// button does not hide the window, since nothing could bring it back.
    pub fn handle(&mut self, event: WindowEvent) -> (r: WindowAction)
        ensures
            r == action_for(*old(self), event),
            *final(self) == window_after(*old(self), event),
    {
        match event {
            WindowEvent::CloseRequested => {
                if self.quitting {
                    WindowAction::Proceed
                } else if self.has_tray {
                    self.hidden = true;
                    WindowAction::Hide
                } else {
                    WindowAction::AskQuit
                }
            },
            WindowEvent::Tray(TrayMsg::Show) => {
                self.hidden = false;
                WindowAction::Show
            },
            WindowEvent::Tray(TrayMsg::Quit) => WindowAction::AskQuit,
            WindowEvent::QuitChosen => WindowAction::AskQuit,
            WindowEvent::QuitConfirmed => {
                self.quitting = true;
                WindowAction::Close
            },
            WindowEvent::QuitCancelled => WindowAction::Stay,
        }
    }
}

/// How many of the tabs are connected.
pub open spec fn connected_count(tabs: Seq<bool>) -> nat
    decreases tabs.len(),
{
    if tabs.len() == 0 {
        0
    } else {
        connected_count(tabs.drop_last()) + (if tabs.last() {
            1nat
        } else {
            0nat
        })
    }
}

/// The question asked before quitting with so many connections open.
pub open spec fn quit_question(active: nat) -> Seq<char> {
    if active > 0 {
        text::digits(active) + " connection(s) still open. Quit anyway?"@
    } else {
        "Quit Simple SSH Manager?"@
    }
}

/// How many of the tabs are connected; each tab is given by whether it is.
pub fn active_connections(tabs: &Vec<bool>) -> (r: usize)
    ensures
        r == connected_count(tabs@),
{
    let mut n: usize = 0;
    let mut i: usize = 0;
    while i < tabs.len()
        invariant
            i <= tabs.len(),
            n <= i,
            n == connected_count(tabs@.take(i as int)),
        decreases tabs.len() - i,
    {
        assert(tabs@.take(i + 1).drop_last() == tabs@.take(i as int));
        if tabs[i] {
            n = n + 1;
        }
        i = i + 1;
    }
    assert(tabs@.take(i as int) == tabs@);
    n
}

/// The question asked before quitting, given for each tab whether it is
/// connected.
pub fn quit_message(tabs: &Vec<bool>) -> (r: String)
    ensures
        r@ == quit_question(connected_count(tabs@)),
{
    let active = active_connections(tabs);
    if active > 0 {
        let mut r = text::decimal(active as u64);
        r.append(" connection(s) still open. Quit anyway?");
        r
    } else {
        "Quit Simple SSH Manager?".to_owned()
    }
}

/// A terminal tab: whether its SSH session is running.
#[derive(Debug, Clone, Copy, PartialEq, Eq, Structural)]
pub struct Tab {
    pub connected: bool,
}

/// What to do when a tab is to be closed.
#[derive(Debug, Clone, Copy, PartialEq, Eq, Structural)]
pub enum CloseTab {
    /// Ask first: the session is still running.
    Ask,
    /// Remove the tab.
    Remove,
}

impl Tab {
    /// A tab whose session has not started yet.
    pub fn new() -> (r: Self)
        ensures
            !r.connected,
    {
        Tab { connected: false }
    }

    /// The session's process was started, or could not be.
    pub fn spawned(&mut self, ok: bool)
        ensures
            final(self).connected == (ok || old(self).connected),
    {
        if ok {
            self.connected = true;
        }
    }

    /// The session's process has ended.
    pub fn exited(&mut self)
        ensures
            !final(self).connected,
    {
        self.connected = false;
    }

    /// What to do when the tab is to be closed; a question needs a window to
    /// be asked in.
    pub fn close(&self, has_window: bool) -> (r: CloseTab)
        ensures
            r == CloseTab::Ask <==> self.connected && has_window,
    {
        if self.connected && has_window {
            CloseTab::Ask
        } else {
            CloseTab::Remove
        }
    }
}

/// The question asked before a tab with a running session is closed.
pub fn close_tab_prompt(name: &str) -> (r: String)
    ensures
        r@ == "\""@ + name@ + "\" is still connected. Close this tab?"@,
{
    let mut r = "\"".to_owned();
    r.append(name);
    r.append("\" is still connected. Close this tab?");
    r
}

/// The key value of `C` with Shift held.
pub const KEY_C: u32 = 0x43;

/// The key value of `V` with Shift held.
pub const KEY_V: u32 = 0x56;

/// What a shortcut in a terminal does.
#[derive(Debug, Clone, Copy, PartialEq, Eq, Structural)]
pub enum Clipboard {
    Copy,
    Paste,
}

/// The shortcut that a key press in a terminal is, if any: with Control and
/// Shift held, `C` copies and `V` pastes.
pub fn terminal_shortcut(control: bool, shift: bool, key: u32) -> (r: Option<Clipboard>)
    ensures
        r == Some(Clipboard::Copy) <==> control && shift && key == KEY_C,
        r == Some(Clipboard::Paste) <==> control && shift && key == KEY_V,
{
    if !control || !shift {
        return None;
    }
    if key == KEY_C {
        Some(Clipboard::Copy)
    } else if key == KEY_V {
        Some(Clipboard::Paste)
    } else {
        None
    }
}

/// The program never ends unasked: as long as quitting was not confirmed, no
/// event makes the window close.
pub proof fn law_no_exit_without_confirmation(
    has_tray: bool,
    events: Seq<WindowEvent>,
    next: WindowEvent,
)
    requires
        forall|i: int| 0 <= i < events.len() ==> !((#[trigger] events[i]) is QuitConfirmed),
    ensures
        !window_after_all(opening(has_tray), events).quitting,
        action_for(window_after_all(opening(has_tray), events), next) != WindowAction::Proceed,
        action_for(window_after_all(opening(has_tray), events), next) == WindowAction::Close
            ==> next is QuitConfirmed,
    decreases events.len(),
{
    if events.len() > 0 {
        assert(!(events[events.len() - 1] is QuitConfirmed));
        let before = events.drop_last();
        assert forall|i: int| 0 <= i < before.len() implies !(
        (#[trigger] before[i]) is QuitConfirmed) by {
            assert(!(events[i] is QuitConfirmed));
        }
        law_no_exit_without_confirmation(has_tray, before, next);
    }
}

/// The window is hidden only where there is a tray to bring it back from.
pub proof fn law_hidden_only_with_tray(has_tray: bool, events: Seq<WindowEvent>)
    ensures
        window_after_all(opening(has_tray), events).has_tray == has_tray,
        window_after_all(opening(has_tray), events).hidden ==> has_tray,
    decreases events.len(),
{
    if events.len() > 0 {
        law_hidden_only_with_tray(has_tray, events.drop_last());
    }
}

/// Hiding the window can be undone: the tray shows it again, and nothing else
/// has changed.
pub proof fn law_show_undoes_hide(w: MainWindow)
    requires
        !w.hidden,
        action_for(w, WindowEvent::CloseRequested) == WindowAction::Hide,
    ensures
        window_after(
            window_after(w, WindowEvent::CloseRequested),
            WindowEvent::Tray(TrayMsg::Show),
        ) == w,
{
}

/// Once quitting was confirmed, closing the window ends the program, whatever
/// came in between.
pub proof fn law_confirmed_quit_proceeds(w: MainWindow, events: Seq<WindowEvent>)
    requires
        w.quitting,
    ensures
        action_for(window_after_all(w, events), WindowEvent::CloseRequested)
            == WindowAction::Proceed,
    decreases events.len(),
{
    if events.len() > 0 {
        law_confirmed_quit_proceeds(w, events.drop_last());
        let before = window_after_all(w, events.drop_last());
        assert(action_for(before, WindowEvent::CloseRequested) == WindowAction::Proceed);
        assert(before.quitting);
    }
}

/// What each event leads to, and from what each action comes: the window
/// closes for good only once quitting was confirmed; the close button hides it
/// where there is a tray; and quitting is asked about where it was chosen, or
/// where the close button has no tray to hide to.
pub proof fn law_what_events_lead_to(w: MainWindow, event: WindowEvent)
    ensures
        ({
            let action = action_for(w, event);
            let closing = event == WindowEvent::CloseRequested;
            &&& action == WindowAction::Proceed <==> closing && w.quitting
            &&& action == WindowAction::Hide <==> closing && !w.quitting && w.has_tray
            &&& action == WindowAction::AskQuit <==> (closing && !w.quitting && !w.has_tray)
                || event == WindowEvent::QuitChosen || event == WindowEvent::Tray(TrayMsg::Quit)
            &&& action == WindowAction::Show <==> event == WindowEvent::Tray(TrayMsg::Show)
            &&& action == WindowAction::Close <==> event == WindowEvent::QuitConfirmed
            &&& action == WindowAction::Stay <==> event == WindowEvent::QuitCancelled
        }),
{
}

/// What each event leaves behind: only a confirmation makes the window quit,
/// which is never taken back; the tray stays; the close button hides the window
/// where there is a tray and it does not quit, the tray shows it, and nothing
/// else hides or shows it.
pub proof fn law_what_events_change(w: MainWindow, event: WindowEvent)
    ensures
        ({
            let after = window_after(w, event);
            let hides = event == WindowEvent::CloseRequested && !w.quitting && w.has_tray;
            let shows = event == WindowEvent::Tray(TrayMsg::Show);
            &&& after.quitting <==> w.quitting || event == WindowEvent::QuitConfirmed
            &&& after.has_tray == w.has_tray
            &&& hides ==> after.hidden
            &&& shows ==> !after.hidden
            &&& !hides && !shows ==> after.hidden == w.hidden
        }),
{
}

/// The window opens visible, and quitting is not confirmed.
pub proof fn law_window_opens_visible(has_tray: bool)
    ensures
        !opening(has_tray).quitting,
        !opening(has_tray).hidden,
        opening(has_tray).has_tray == has_tray,
{
}

/// The connections counted are the tabs that are connected: as many as are left
/// when the others are taken out.
pub proof fn law_connected_tabs_are_counted(tabs: Seq<bool>)
    ensures
        connected_count(tabs) == tabs.filter(|connected: bool| connected).len(),
    decreases tabs.len(),
{
    reveal(Seq::filter);
    if tabs.len() > 0 {
        law_connected_tabs_are_counted(tabs.drop_last());
    }
}

/// Before quitting with connections open, the question begins with their number
/// in decimal, whatever it is, and goes on with the warning.
pub proof fn law_quit_question_tells_the_number(active: nat)
    requires
        active > 0,
    ensures
        ({
            let number = text::digits(active);
            let asked = quit_question(active);
            &&& number.len() <= asked.len()
            &&& asked.take(number.len() as int) == number
            &&& asked.skip(number.len() as int) == " connection(s) still open. Quit anyway?"@
        }),
{
    let number = text::digits(active);
    let asked = quit_question(active);
    assert(asked.take(number.len() as int) == number);
    assert(asked.skip(number.len() as int) == " connection(s) still open. Quit anyway?"@);
}

/// Without a connection, the question carries no warning.
pub proof fn law_quit_question_without_connections()
    ensures
        quit_question(0) == "Quit Simple SSH Manager?"@,
{
}

/// The shortcut keys are those of the capital letters.
pub proof fn law_shortcut_keys()
    ensures
        KEY_C == 'C' as u32,
        KEY_V == 'V' as u32,
{
}

} // verus!
