use photors::tui::{Action, App, Command, Key, PlannedMove, Screen, Work};

fn s(x: &str) -> String {
    x.to_string()
}

fn modal(title: &str, body: &str) -> Screen {
    Screen::Modal { title: s(title), body: s(body) }
}

fn type_text(app: &mut App, text: &str) {
    for ch in text.chars() {
        assert_eq!(app.handle_key(Key::Char(ch)), Command::Nothing);
    }
}

fn dedup_app() -> App {
    let mut app = App::new();
    app.show_dedup_results(vec![vec![s("a"), s("b"), s("c")], vec![s("d"), s("e")]]);
    app
}

#[test]
fn starts_on_home() {
    let app = App::new();
    assert_eq!(app.screen, Screen::Home);
    assert_eq!(app.selected_action, Action::Scan);
    assert!(app.recursive);
    assert!(!app.copy_mode);
    assert!(!app.should_quit);
    assert_eq!(app.focused_field, 0);
    assert!(app.src_input.is_empty() && app.dest_input.is_empty());
}

#[test]
fn arrows_cycle_the_action() {
    let mut app = App::new();
    app.handle_key(Key::Right);
    assert_eq!(app.selected_action, Action::Dedup);
    app.handle_key(Key::Right);
    assert_eq!(app.selected_action, Action::Organize);
    app.handle_key(Key::Right);
    assert_eq!(app.selected_action, Action::Scan);
    app.handle_key(Key::Left);
    assert_eq!(app.selected_action, Action::Organize);
    app.handle_key(Key::Left);
    assert_eq!(app.selected_action, Action::Dedup);
}

#[test]
fn typing_goes_to_the_focused_field() {
    let mut app = App::new();
    type_text(&mut app, "/img");
    app.handle_key(Key::Tab);
    assert_eq!(app.focused_field, 0);
    app.handle_key(Key::Left);
    app.handle_key(Key::Tab);
    assert_eq!(app.focused_field, 1);
    type_text(&mut app, "/out\u{e9}");
    app.handle_key(Key::Backspace);
    assert_eq!(app.src_input, "/img");
    assert_eq!(app.dest_input, "/out");
    app.handle_key(Key::Tab);
    assert_eq!(app.focused_field, 0);
    app.handle_key(Key::Backspace);
    assert_eq!(app.src_input, "/im");
    // `r` and `c` are toggles, not text.
    app.handle_key(Key::Char('r'));
    app.handle_key(Key::Char('c'));
    assert!(!app.recursive);
    assert!(app.copy_mode);
    assert_eq!(app.src_input, "/im");
}

#[test]
fn backspace_on_empty_field() {
    let mut app = App::new();
    app.handle_key(Key::Backspace);
    assert!(app.src_input.is_empty());
}

#[test]
fn enter_runs_and_q_quits() {
    let mut app = App::new();
    assert_eq!(app.handle_key(Key::Enter), Command::RunAction);
    assert_eq!(app.handle_key(Key::Other), Command::Nothing);
    assert!(!app.should_quit);
    app.handle_key(Key::Char('q'));
    assert!(app.should_quit);
}

#[test]
fn scrolling_moves_the_window() {
    let mut app = App::new();
    app.show_scan_results((0..30).map(|i| format!("f{i}.jpg")).collect());
    assert_eq!(app.screen, Screen::ScanResults);
    for _ in 0..25 {
        app.handle_key(Key::Down);
    }
    assert_eq!((app.scan_cursor, app.scan_offset), (25, 6));
    for _ in 0..10 {
        app.handle_key(Key::Down);
    }
    assert_eq!((app.scan_cursor, app.scan_offset), (29, 10));
    app.handle_key(Key::Up);
    assert_eq!((app.scan_cursor, app.scan_offset), (28, 10));
    for _ in 0..40 {
        app.handle_key(Key::Up);
    }
    assert_eq!((app.scan_cursor, app.scan_offset), (0, 0));
    app.handle_key(Key::Esc);
    assert_eq!(app.screen, Screen::Home);
}

#[test]
fn scroll_with_a_given_window() {
    let mut app = App::new();
    app.show_scan_results(vec![s("a"), s("b"), s("c"), s("d")]);
    app.scroll_down(2);
    app.scroll_down(2);
    assert_eq!((app.scan_cursor, app.scan_offset), (2, 1));
    app.scroll_up(2);
    app.scroll_up(2);
    assert_eq!((app.scan_cursor, app.scan_offset), (0, 0));
}

#[test]
fn scrolling_an_empty_list() {
    let mut app = App::new();
    app.show_scan_results(Vec::new());
    app.handle_key(Key::Down);
    app.handle_key(Key::Up);
    assert_eq!((app.scan_cursor, app.scan_offset), (0, 0));
}

#[test]
fn dedup_results_mark_every_duplicate() {
    let app = dedup_app();
    assert_eq!(app.screen, Screen::DedupResults);
    assert_eq!(app.dedup_decisions, vec![true, true, true]);
    assert_eq!(app.dedup_flat_len(), 5);
    assert_eq!(app.total_dup_count(), 3);
}

#[test]
fn no_duplicates_shows_a_message() {
    let mut app = App::new();
    app.show_dedup_results(Vec::new());
    assert_eq!(app.screen, modal("Dedup", "No duplicates found."));
    app.handle_key(Key::Char('x'));
    assert_eq!(app.screen, Screen::Home);
}

#[test]
fn toggle_only_affects_duplicates() {
    let mut app = dedup_app();
    // Row 0 is the first path of a group: nothing to toggle.
    app.handle_key(Key::Char(' '));
    assert_eq!(app.dedup_decisions, vec![true, true, true]);
    app.handle_key(Key::Down);
    app.handle_key(Key::Char(' '));
    assert_eq!(app.dedup_decisions, vec![false, true, true]);
    app.handle_key(Key::Char(' '));
    assert_eq!(app.dedup_decisions, vec![true, true, true]);
    // Row 4 is "e", the only duplicate of the second group.
    app.dedup_cursor = 4;
    app.dedup_toggle();
    assert_eq!(app.dedup_decisions, vec![true, true, false]);
    // Past the last row nothing changes.
    app.dedup_cursor = 9;
    app.dedup_toggle();
    assert_eq!(app.dedup_decisions, vec![true, true, false]);
}

#[test]
fn enter_applies_the_decisions() {
    let mut app = dedup_app();
    app.dedup_decisions = vec![false, true, false];
    assert_eq!(app.deletion_groups(), vec![vec![s("a"), s("c")]]);
    assert_eq!(
        app.handle_key(Key::Enter),
        Command::ApplyDeletions(vec![vec![s("a"), s("c")]])
    );
    app.dedup_decisions = vec![true, true, true];
    assert_eq!(
        app.deletion_groups(),
        vec![vec![s("a"), s("b"), s("c")], vec![s("d"), s("e")]]
    );
    app.dedup_decisions = vec![false, false, false];
    assert!(app.deletion_groups().is_empty());
    app.show_deletions_done(3);
    assert_eq!(app.screen, modal("Dedup done", "Deleted 3 duplicate files."));
}

#[test]
fn organize_preview_and_confirm() {
    let mut app = App::new();
    app.show_organize_preview(vec![PlannedMove { src: s("in/a.jpg"), dest: s("out/unknown/a.jpg") }]);
    assert_eq!(app.screen, Screen::OrganizePreview);
    assert!(!app.organize_done);
    assert_eq!(app.handle_key(Key::Enter), Command::RunOrganize);
    app.show_organize_done(4, 1);
    assert!(app.organize_done);
    assert_eq!(app.screen, modal("Organize done", "4 files moved.\n1 errors."));
    app.screen = Screen::OrganizePreview;
    assert_eq!(app.handle_key(Key::Enter), Command::Nothing);
    app.copy_mode = true;
    app.show_organize_done(2, 0);
    assert_eq!(app.screen, modal("Organize done", "2 files copied.\n0 errors."));
    app.screen = Screen::OrganizePreview;
    app.handle_key(Key::Char('q'));
    assert_eq!(app.screen, Screen::Home);
}

#[test]
fn messages_about_the_folders() {
    let mut app = App::new();
    type_text(&mut app, "  /no/path ");
    app.show_not_a_directory();
    assert_eq!(app.screen, modal("Error", "Not a directory:\n/no/path"));
    app.show_missing_destination();
    assert_eq!(app.screen, modal("Error", "Please enter a destination directory."));
    app.show_working();
    assert_eq!(app.screen, Screen::Working { message: s("Scanning /no/path\u{2026}") });
    app.selected_action = Action::Dedup;
    app.show_working();
    assert_eq!(
        app.screen,
        Screen::Working { message: s("Scanning & hashing /no/path\u{2026}") }
    );
    // No key does anything while work runs.
    assert_eq!(app.handle_key(Key::Char('q')), Command::Nothing);
    assert!(!app.should_quit);
    assert_eq!(app.src_path_text(), "/no/path");
    assert_eq!(app.dest_path_text(), "");
}

#[test]
fn running_an_action() {
    let mut app = App::new();
    app.src_input = s("  /photos ");
    assert_eq!(app.run_action(false), Work::Nothing);
    assert_eq!(app.screen, modal("Error", "Not a directory:\n/photos"));
    assert_eq!(app.run_action(true), Work::Scan { src: s("/photos"), recursive: true });
    assert_eq!(app.screen, Screen::Working { message: s("Scanning /photos\u{2026}") });
    app.selected_action = Action::Dedup;
    app.recursive = false;
    assert_eq!(app.run_action(true), Work::Dedup { src: s("/photos"), recursive: false });
    app.selected_action = Action::Organize;
    app.dest_input = s("   ");
    assert_eq!(app.run_action(true), Work::Nothing);
    assert_eq!(app.screen, modal("Error", "Please enter a destination directory."));
    app.dest_input = s(" /sorted");
    assert_eq!(
        app.run_action(true),
        Work::Organize { src: s("/photos"), dest: s("/sorted"), recursive: false }
    );
    assert_eq!(app.screen, Screen::Working { message: s("Scanning /photos\u{2026}") });
}

#[test]
fn tab_twice_gives_the_focus_back() {
    let mut app = App::new();
    app.selected_action = Action::Organize;
    app.handle_key(Key::Tab);
    assert_eq!(app.focused_field, 1);
    app.handle_key(Key::Tab);
    assert_eq!(app.focused_field, 0);
}
