use photors::tui::{Action, App, PlannedMove};
use photors::view::{toggle_label, Tone};

fn s(x: &str) -> String {
    x.to_string()
}

#[test]
fn scan_list_window() {
    let mut app = App::new();
    app.show_scan_results(vec![s("a.jpg"), s("b.jpg"), s("c.jpg"), s("d.jpg"), s("e.jpg")]);
    app.scan_cursor = 2;
    app.scan_offset = 1;
    let v = app.scan_view(3);
    assert_eq!(v.title, " Scan results \u{2014} 5 files (\u{2191}/\u{2193} scroll, Esc/q back) ");
    let texts: Vec<&str> = v.rows.iter().map(|r| r.text.as_str()).collect();
    assert_eq!(texts, vec!["b.jpg", "c.jpg", "d.jpg"]);
    let tones: Vec<Tone> = v.rows.iter().map(|r| r.tone).collect();
    assert_eq!(tones, vec![Tone::Plain, Tone::Cursor, Tone::Plain]);
    assert_eq!(app.scan_view(10).rows.len(), 4);
    app.scan_offset = 7;
    assert!(app.scan_view(3).rows.is_empty());
}

#[test]
fn dedup_list_rows() {
    let mut app = App::new();
    app.show_dedup_results(vec![vec![s("a"), s("b"), s("c")], vec![s("d"), s("e")]]);
    app.dedup_decisions = vec![true, false, true];
    app.dedup_cursor = 3;
    let v = app.dedup_view(20);
    assert_eq!(v.title, " Dedup \u{2014} 2 groups, 3 duplicates, 2 marked for deletion ");
    let rows: Vec<(&str, Tone)> = v.rows.iter().map(|r| (r.text.as_str(), r.tone)).collect();
    assert_eq!(
        rows,
        vec![
            ("    KEEP  a", Tone::GroupHead),
            ("[x]   dup b", Tone::MarkedDelete),
            ("[ ]   dup c", Tone::KeptDup),
            ("    KEEP  d", Tone::Cursor),
            ("[x]   dup e", Tone::MarkedDelete),
        ]
    );
    // A duplicate without a decision shows as marked.
    app.dedup_decisions = vec![false];
    let v = app.dedup_view(20);
    assert_eq!(v.rows[4].text, "[x]   dup e");
    assert_eq!(v.title, " Dedup \u{2014} 2 groups, 3 duplicates, 0 marked for deletion ");
}

#[test]
fn organize_list_rows() {
    let mut app = App::new();
    app.show_organize_preview(vec![
        PlannedMove { src: s("in/IMG.JPG"), dest: s("out/unknown/IMG.jpg") },
        PlannedMove { src: s(".."), dest: s("out/unknown/x") },
    ]);
    let v = app.organize_view(20);
    assert_eq!(v.title, " Organize preview \u{2014} 2 moves  (Enter to confirm) ");
    assert_eq!(v.rows[0].text, "IMG.JPG  \u{2192}  out/unknown/IMG.jpg");
    assert_eq!(v.rows[0].tone, Tone::Cursor);
    assert_eq!(v.rows[1].text, "?  \u{2192}  out/unknown/x");
    app.organize_done = true;
    assert_eq!(
        app.organize_view(20).title,
        " Organize preview \u{2014} 2 moves \u{2713} done  (Enter to confirm) "
    );
    assert_eq!(app.organize_help(), "Done!   q: back to home");
}

#[test]
fn home_screen_fields() {
    let mut app = App::new();
    let h = app.home_view();
    assert_eq!(h.selected, 0);
    assert_eq!(h.dest_label, " Destination directory (only for Organize) ");
    assert!(h.src_focused && !h.dest_focused && !h.cursor_in_dest);
    app.selected_action = Action::Organize;
    app.focused_field = 1;
    app.dest_input = s("caf\u{e9}");
    let h = app.home_view();
    assert_eq!(h.selected, 2);
    assert_eq!(h.dest_label, " Destination directory ");
    assert!(!h.src_focused && h.dest_focused && h.cursor_in_dest);
    assert_eq!(h.cursor_offset, 5);
}

#[test]
fn toggle_labels() {
    assert_eq!(toggle_label("r", "ecursive"), "[r]ecursive");
    assert_eq!(toggle_label("c", "opy (don't move)"), "[c]opy (don't move)");
}
