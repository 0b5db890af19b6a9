use simple_ssh_manager::command::ssh_command;
use simple_ssh_manager::layout::{
    centre_position, centre_position_fits, row_margin, row_margin_fits, window_size, Rect,
};
use simple_ssh_manager::lockout::{lock_remaining, Lockout};
use simple_ssh_manager::login::{
    attempt_reply, attempt_step, check_new_password, counts, lock_display, login_button, login_heading,
    password_problem_status, problem_status, read_error_status, tick_display, AttemptReply,
    AttemptStep, LoginProblem, PasswordProblem,
};
use simple_ssh_manager::servers::{
    apply_edit, delete_prompt, delete_server, edit_form, edit_title, Server,
};
use simple_ssh_manager::sidebar::{groups_in_order, sidebar_rows, SidebarRow};
use simple_ssh_manager::store::LoadError;
use simple_ssh_manager::windows::{
    active_connections, close_tab_prompt, quit_message, terminal_shortcut, Clipboard, CloseTab,
    MainWindow, Tab, TrayMsg, WindowAction, WindowEvent, KEY_C, KEY_V,
};

fn server(name: &str, group: &str) -> Server {
    Server {
        name: name.into(),
        host: "host".into(),
        user: "user".into(),
        group: group.into(),
        password: String::new(),
        keyfile: String::new(),
    }
}

fn header(label: &str, depth: usize) -> SidebarRow {
    SidebarRow::Header { label: label.into(), depth }
}

fn entry(index: usize, name: &str, depth: usize) -> SidebarRow {
    SidebarRow::Entry { index, name: name.into(), depth }
}

#[test]
fn sidebar_groups_servers_under_their_headers() {
    let list = vec![
        server("a", "prod/db"),
        server("b", ""),
        server("c", "prod / web"),
        server("d", " prod/db"),
        server("e", "prod"),
    ];
    assert_eq!(groups_in_order(&list), vec!["prod/db", "Ungrouped", "prod/web", "prod"]);
    assert_eq!(
        sidebar_rows(&list),
        vec![
            header("prod", 0),
            header("db", 1),
            entry(0, "a", 2),
            entry(3, "d", 2),
            header("Ungrouped", 0),
            entry(1, "b", 1),
            header("web", 1),
            entry(2, "c", 2),
            entry(4, "e", 1),
        ]
    );
}

#[test]
fn rows_stand_in_list_order_within_groups_by_first_appearance() {
    let list = vec![
        server("z", "web"),
        server("y", "db"),
        server("x", "web"),
        server("w", ""),
        server("v", "db"),
        server("u", "web"),
    ];
    let order: Vec<usize> = sidebar_rows(&list)
        .iter()
        .filter_map(|row| match row {
            SidebarRow::Entry { index, .. } => Some(*index),
            _ => None,
        })
        .collect();
    assert_eq!(order, vec![0, 2, 5, 1, 4, 3]);
}

#[test]
fn sidebar_of_no_servers_is_empty() {
    assert!(sidebar_rows(&Vec::new()).is_empty());
}

#[test]
fn same_subgroup_name_under_two_parents() {
    let list = vec![server("a", "x/db"), server("b", "y/db")];
    assert_eq!(
        sidebar_rows(&list),
        vec![
            header("x", 0),
            header("db", 1),
            entry(0, "a", 2),
            header("y", 0),
            header("db", 1),
            entry(1, "b", 2),
        ]
    );
}

/// The group a reader of the outline finds each server under.
fn read_groups(rows: &[SidebarRow]) -> Vec<(usize, String)> {
    let mut inside: Vec<String> = Vec::new();
    let mut found = Vec::new();
    for row in rows {
        match row {
            SidebarRow::Header { label, depth } => {
                inside.truncate(*depth);
                inside.push(label.clone());
            }
            SidebarRow::Entry { index, depth, .. } => {
                found.push((*index, inside[..(*depth).min(inside.len())].join("/")));
            }
        }
    }
    found
}

#[test]
fn groups_that_stand_together_read_as_a_tree() {
    let list = vec![
        server("a", "prod/db"),
        server("b", "prod/web/eu"),
        server("c", "prod"),
        server("d", "test"),
        server("e", "test/db"),
        server("f", "prod/db"),
    ];
    let expected: Vec<(usize, String)> =
        [(0, "prod/db"), (5, "prod/db"), (1, "prod/web/eu"), (2, "prod"), (3, "test"), (4, "test/db")]
            .iter()
            .map(|(i, g)| (*i, g.to_string()))
            .collect();
    assert_eq!(read_groups(&sidebar_rows(&list)), expected);
}

#[test]
fn every_server_is_listed_once() {
    let list = vec![
        server("a", "x/y"),
        server("b", "z"),
        server("c", "x/w"),
        server("d", ""),
        server("e", "x/y"),
    ];
    let mut seen: Vec<usize> = sidebar_rows(&list)
        .iter()
        .filter_map(|r| match r {
            SidebarRow::Entry { index, .. } => Some(*index),
            SidebarRow::Header { .. } => None,
        })
        .collect();
    seen.sort();
    assert_eq!(seen, vec![0, 1, 2, 3, 4]);
}

#[test]
fn add_edit_and_delete_servers() {
    let mut list = Vec::new();
    assert!(apply_edit(&mut list, None, server("a", "")));
    assert!(apply_edit(&mut list, None, server("b", "")));
    assert!(apply_edit(&mut list, Some(0), server("c", "")));
    assert_eq!(list, vec![server("c", ""), server("b", "")]);
    // The server being edited is gone: the form adds a new one.
    assert!(apply_edit(&mut list, Some(9), server("d", "")));
    assert_eq!(list.len(), 3);
    assert!(delete_server(&mut list, 1));
    assert_eq!(list, vec![server("c", ""), server("d", "")]);
    assert!(!delete_server(&mut list, 2));
    assert_eq!(list.len(), 2);
}

#[test]
fn deleting_the_added_server_restores_the_list() {
    let before = vec![server("a", ""), server("b", "x")];
    let mut list = before.clone();
    apply_edit(&mut list, None, server("c", ""));
    delete_server(&mut list, 2);
    assert_eq!(list, before);
}

#[test]
fn editing_back_restores_the_list() {
    let before = vec![server("a", ""), server("b", "x")];
    let mut list = before.clone();
    apply_edit(&mut list, Some(1), server("z", "y"));
    assert_ne!(list, before);
    apply_edit(&mut list, Some(1), server("b", "x"));
    assert_eq!(list, before);
}

#[test]
fn incomplete_forms_change_nothing() {
    let mut list = vec![server("a", "")];
    assert!(!apply_edit(&mut list, Some(0), server("", "")));
    let no_host = Server { host: String::new(), ..server("b", "") };
    assert!(!apply_edit(&mut list, None, no_host));
    assert_eq!(list, vec![server("a", "")]);
}

#[test]
fn edit_form_and_prompts() {
    let list = vec![server("a", "g")];
    assert_eq!(edit_form(&list, Some(0)), server("a", "g"));
    assert_eq!(edit_form(&list, Some(1)), Server::default());
    assert_eq!(edit_form(&list, None), Server::default());
    assert_eq!(edit_title(Some(0)), "Edit Server");
    assert_eq!(edit_title(None), "Add Server");
    assert_eq!(delete_prompt(&list, 0), "Delete \"a\"?");
    assert_eq!(delete_prompt(&list, 5), "Delete \"\"?");
}

#[test]
fn command_with_agent_or_default_keys() {
    let c = ssh_command(&server("n", ""));
    assert_eq!(c.argv, vec!["ssh", "user@host"]);
    assert!(c.env.is_empty());
}

#[test]
fn command_with_key_file() {
    let s = Server { keyfile: " /k/id ".into(), ..server("n", "") };
    assert_eq!(ssh_command(&s).argv, vec!["ssh", "-i", "/k/id", "user@host"]);
    let blank = Server { keyfile: "  ".into(), ..server("n", "") };
    assert_eq!(ssh_command(&blank).argv, vec!["ssh", "user@host"]);
}

#[test]
fn command_with_password() {
    let s = Server { password: " pw".into(), ..server("n", "") };
    let c = ssh_command(&s);
    assert_eq!(c.argv, vec!["sshpass", "-e", "ssh", "user@host"]);
    assert_eq!(c.env, vec!["SSHPASS= pw"]);
    let other = Server { password: "other".into(), ..server("n", "") };
    assert_eq!(ssh_command(&other).argv, c.argv);
}

#[test]
fn command_with_password_and_key_file() {
    let s = Server { password: "pw".into(), keyfile: "k".into(), ..server("n", "") };
    let c = ssh_command(&s);
    assert_eq!(c.argv, vec!["sshpass", "-e", "ssh", "-i", "k", "user@host"]);
    assert_eq!(c.env, vec!["SSHPASS=pw"]);
}

#[test]
fn first_step_of_an_attempt() {
    assert_eq!(attempt_step(1, false, "pw"), AttemptStep::Locked);
    assert_eq!(attempt_step(1, true, ""), AttemptStep::Locked);
    assert_eq!(attempt_step(0, false, ""), AttemptStep::EmptyPassword);
    assert_eq!(attempt_step(0, true, ""), AttemptStep::EmptyPassword);
    assert_eq!(attempt_step(0, true, "pw"), AttemptStep::CreateStore);
    assert_eq!(attempt_step(0, false, "pw"), AttemptStep::OpenStore);
}

#[test]
fn third_wrong_password_locks_entry() {
    let mut l = Lockout::default();
    for _ in 0..2 {
        let r = attempt_reply(Err(LoadError::WrongPassword), &mut l, 100);
        assert!(matches!(r, AttemptReply::WrongPassword));
        assert_eq!(attempt_step(lock_remaining(&l, 100), false, "pw"), AttemptStep::OpenStore);
    }
    let r = attempt_reply(Err(LoadError::WrongPassword), &mut l, 100);
    assert!(matches!(r, AttemptReply::LockedFor(60)));
    assert_eq!(attempt_step(lock_remaining(&l, 159), false, "pw"), AttemptStep::Locked);
    assert_eq!(attempt_step(lock_remaining(&l, 160), false, "pw"), AttemptStep::OpenStore);
}

#[test]
fn login_clears_and_other_errors_do_not_count() {
    let start = Lockout { fails: 2, locked_until: 7, cycle: 1 };
    let mut l = start;
    let r = attempt_reply(Err(LoadError::Corrupt), &mut l, 100);
    assert!(matches!(r, AttemptReply::Corrupt));
    assert_eq!(l, start);
    let e = std::io::Error::new(std::io::ErrorKind::NotFound, "gone");
    match attempt_reply(Err(LoadError::Io(e)), &mut l, 100) {
        AttemptReply::ReadError(e) => assert_eq!(e.to_string(), "gone"),
        other => panic!("unexpected {other:?}"),
    }
    assert_eq!(l, start);
    match attempt_reply(Ok(vec![server("a", "")]), &mut l, 100) {
        AttemptReply::Unlocked(list) => assert_eq!(list, vec![server("a", "")]),
        other => panic!("unexpected {other:?}"),
    }
    assert_eq!(l, Lockout::default());
}

#[test]
fn attempts_that_count() {
    assert!(counts(&Ok(Vec::new())));
    assert!(counts(&Err(LoadError::WrongPassword)));
    assert!(!counts(&Err(LoadError::Corrupt)));
    let e = std::io::Error::new(std::io::ErrorKind::NotFound, "gone");
    assert!(!counts(&Err(LoadError::Io(e))));
}

#[test]
fn lockout_counts_wrong_passwords_since_the_last_login() {
    let mut l = Lockout::default();
    let wrong = || Err(LoadError::WrongPassword);
    attempt_reply(wrong(), &mut l, 1);
    attempt_reply(wrong(), &mut l, 2);
    attempt_reply(Ok(Vec::new()), &mut l, 3);
    attempt_reply(wrong(), &mut l, 4);
    attempt_reply(Err(LoadError::Corrupt), &mut l, 5);
    attempt_reply(wrong(), &mut l, 6);
    assert_eq!(l, Lockout { fails: 2, locked_until: 0, cycle: 0 });
    assert!(matches!(attempt_reply(wrong(), &mut l, 7), AttemptReply::LockedFor(60)));
    assert_eq!(l, Lockout { fails: 0, locked_until: 67, cycle: 1 });
}

#[test]
fn lock_shows_a_countdown_and_is_cleared() {
    let d = lock_display(61);
    assert!(d.locked);
    assert_eq!(d.status.unwrap(), "Locked. Try again in 61s.");
    assert!(!lock_display(0).locked);
    assert!(lock_display(0).status.is_none());
    assert_eq!(tick_display(9, "").status.unwrap(), "Locked. Try again in 9s.");
    assert_eq!(tick_display(0, "Locked. Try again in 1s.").status.unwrap(), "");
    assert!(tick_display(0, "Wrong password.").status.is_none());
    assert!(tick_display(0, "Lock").status.is_none());
    assert!(!tick_display(0, "Locked").locked);
}

#[test]
fn login_texts() {
    assert_eq!(problem_status(LoginProblem::EmptyPassword), "Password cannot be empty.");
    assert_eq!(problem_status(LoginProblem::WrongPassword), "Wrong password.");
    assert_eq!(problem_status(LoginProblem::Corrupt), "Store is corrupt or unreadable.");
    assert_eq!(read_error_status("denied"), "Read error: denied");
    assert_eq!(login_heading(true), "Set a master password to encrypt your servers.");
    assert_eq!(login_heading(false), "Enter master password.");
    assert_eq!(login_button(true), "Create");
    assert_eq!(login_button(false), "Unlock");
}

#[test]
fn new_master_password() {
    assert_eq!(check_new_password("", ""), Err(PasswordProblem::Empty));
    assert_eq!(check_new_password("", "x"), Err(PasswordProblem::Empty));
    assert_eq!(check_new_password("x", "y"), Err(PasswordProblem::Mismatch));
    assert_eq!(check_new_password("x", "x"), Ok(()));
    assert_eq!(password_problem_status(PasswordProblem::Empty), "Password cannot be empty.");
    assert_eq!(password_problem_status(PasswordProblem::Mismatch), "Passwords do not match.");
}

#[test]
fn close_button_hides_to_the_tray() {
    let mut w = MainWindow::new(true);
    assert_eq!(w.handle(WindowEvent::CloseRequested), WindowAction::Hide);
    assert!(w.hidden);
    assert_eq!(w.handle(WindowEvent::Tray(TrayMsg::Show)), WindowAction::Show);
    assert!(!w.hidden);
    assert_eq!(w.handle(WindowEvent::Tray(TrayMsg::Quit)), WindowAction::AskQuit);
    assert_eq!(w.handle(WindowEvent::QuitCancelled), WindowAction::Stay);
    assert_eq!(w.handle(WindowEvent::QuitChosen), WindowAction::AskQuit);
    assert_eq!(w.handle(WindowEvent::QuitConfirmed), WindowAction::Close);
    assert_eq!(w.handle(WindowEvent::CloseRequested), WindowAction::Proceed);
}

#[test]
fn close_button_asks_without_a_tray() {
    let mut w = MainWindow::new(false);
    assert_eq!(w.handle(WindowEvent::CloseRequested), WindowAction::AskQuit);
    assert!(!w.hidden);
    assert_eq!(w.handle(WindowEvent::QuitConfirmed), WindowAction::Close);
    assert_eq!(w.handle(WindowEvent::CloseRequested), WindowAction::Proceed);
}

#[test]
fn quitting_warns_of_open_connections() {
    assert_eq!(active_connections(&vec![true, false, true]), 2);
    assert_eq!(
        quit_message(&vec![true, false, true]),
        "2 connection(s) still open. Quit anyway?"
    );
    assert_eq!(quit_message(&vec![false]), "Quit Simple SSH Manager?");
    assert_eq!(quit_message(&Vec::new()), "Quit Simple SSH Manager?");
}

#[test]
fn closing_a_tab_asks_while_connected() {
    let mut t = Tab::new();
    assert_eq!(t.close(true), CloseTab::Remove);
    t.spawned(false);
    assert_eq!(t.close(true), CloseTab::Remove);
    t.spawned(true);
    assert_eq!(t.close(true), CloseTab::Ask);
    assert_eq!(t.close(false), CloseTab::Remove);
    t.exited();
    assert_eq!(t.close(true), CloseTab::Remove);
    assert_eq!(close_tab_prompt("web"), "\"web\" is still connected. Close this tab?");
}

#[test]
fn copy_and_paste_shortcuts() {
    assert_eq!(terminal_shortcut(true, true, KEY_C), Some(Clipboard::Copy));
    assert_eq!(terminal_shortcut(true, true, KEY_V), Some(Clipboard::Paste));
    assert_eq!(terminal_shortcut(true, true, 'X' as u32), None);
    assert_eq!(terminal_shortcut(true, false, KEY_C), None);
    assert_eq!(terminal_shortcut(false, true, KEY_V), None);
}

#[test]
fn windows_are_centred() {
    let m = Some(Rect { x: 1920, y: 0, width: 1920, height: 1080 });
    assert_eq!(centre_position(m, 900, 600), (2430, 240));
    assert_eq!(centre_position(None, 900, 601), (510, 239));
    // A window larger than the monitor sticks out on both sides.
    assert_eq!(centre_position(None, 1923, 1080), (-1, 0));
    assert!(centre_position_fits(m, 900, 600));
    let far = Some(Rect { x: i32::MAX, y: 0, width: 100, height: 100 });
    assert!(!centre_position_fits(far, 1, 1));
    assert!(!centre_position_fits(None, i32::MIN, 1));
}

#[test]
fn size_of_a_window_not_shown_yet() {
    assert_eq!(window_size((900, 600), (360, 200)), (900, 600));
    assert_eq!(window_size((0, 0), (360, 200)), (360, 200));
    assert_eq!(window_size((900, 1), (360, -1)), (360, 1));
}

#[test]
fn rows_are_indented_by_depth() {
    assert_eq!(row_margin(0), 6);
    assert_eq!(row_margin(1), 20);
    assert_eq!(row_margin(2), 34);
    assert!(row_margin_fits(153391688));
    assert!(!row_margin_fits(153391689));
}
