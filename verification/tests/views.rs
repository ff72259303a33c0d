use vigil::list_view::{
    first_cursor, list_action, list_row, progress_label, truncate, ListAction, ListKey,
};
use vigil::parser::{Marker, Phase, Step, SubTask};
use vigil::watch_view::{
    bar_tint, collect_display_lines, subtask_style, first_line_parts, footer_text, marker_style,
    progress_summary, scroll_after_key, truncate_path, view_state, visible_range, word_wrap,
    DisplayLine, FirstLine, Tint, WatchKey,
};

#[test]
fn wrap_breaks_at_spaces() {
    assert_eq!(word_wrap("aaa bbb ccc", 7), vec!["aaa bbb", "ccc"]);
    assert_eq!(word_wrap("aaa bbb ccc", 100), vec!["aaa bbb ccc"]);
}

#[test]
fn wrap_long_word_gets_own_line() {
    assert_eq!(word_wrap("a verylongword b", 5), vec!["a", "verylongword", "b"]);
}

#[test]
fn wrap_degenerate_inputs() {
    assert_eq!(word_wrap("", 10), vec![""]);
    assert_eq!(word_wrap("abc def", 0), vec!["abc def"]);
    assert_eq!(word_wrap("   ", 10), Vec::<String>::new());
}

#[test]
fn wrap_keeps_double_spaces_within_a_line() {
    assert_eq!(word_wrap("a  b", 10), vec!["a  b"]);
    assert_eq!(word_wrap("ab  cd", 3), vec!["ab ", "cd"]);
    assert_eq!(word_wrap("ab  cd", 2), vec!["ab", "cd"]);
}

#[test]
fn wrap_counts_characters_not_bytes() {
    assert_eq!(word_wrap("ééé ééé", 7), vec!["ééé ééé"]);
}

fn step(marker: Marker, name: Option<&str>, desc: &str) -> Step {
    Step {
        marker,
        bold_name: name.map(|s| s.to_string()),
        description: desc.to_string(),
        subtasks: Vec::new(),
    }
}

#[test]
fn display_lines_for_phases() {
    let phases = vec![
        Phase { name: String::new(), steps: vec![step(Marker::Done, Some("A"), "x")] },
        Phase {
            name: "Two".to_string(),
            steps: vec![step(Marker::Todo, None, "one two three"), step(Marker::Todo, Some("N"), "")],
        },
    ];
    let rows = collect_display_lines(&phases, 11);
    assert_eq!(rows.len(), 5);
    match &rows[0] {
        DisplayLine::StepFirst { phase, step, text } => {
            assert_eq!((*phase, *step), (0, 0));
            assert_eq!(text, "A \u{2014} x");
        }
        other => panic!("unexpected {other:?}"),
    }
    match &rows[1] {
        DisplayLine::Phase(n) => assert_eq!(n, "Two"),
        other => panic!("unexpected {other:?}"),
    }
    match &rows[2] {
        DisplayLine::StepFirst { phase, step, text } => {
            assert_eq!((*phase, *step), (1, 0));
            assert_eq!(text, "one two");
        }
        other => panic!("unexpected {other:?}"),
    }
    match &rows[3] {
        DisplayLine::StepCont(t) => assert_eq!(t, "three"),
        other => panic!("unexpected {other:?}"),
    }
    match &rows[4] {
        DisplayLine::StepFirst { phase, step, text } => {
            assert_eq!((*phase, *step), (1, 1));
            assert_eq!(text, "N");
        }
        other => panic!("unexpected {other:?}"),
    }
}

#[test]
fn first_line_split_at_name() {
    match first_line_parts("Name \u{2014} desc", Some("Name")) {
        FirstLine::Split { bold, plain } => {
            assert_eq!(bold, "Name");
            assert_eq!(plain, " \u{2014} desc");
        }
        other => panic!("unexpected {other:?}"),
    }
    match first_line_parts("Nam", Some("Name")) {
        FirstLine::Bold(s) => assert_eq!(s, "Nam"),
        other => panic!("unexpected {other:?}"),
    }
    match first_line_parts("plain", None) {
        FirstLine::Plain(s) => assert_eq!(s, "plain"),
        other => panic!("unexpected {other:?}"),
    }
}

#[test]
fn marker_styles_match_the_table() {
    assert_eq!(marker_style(Marker::Todo).symbol, '\u{25cb}');
    assert_eq!(marker_style(Marker::InProgress).symbol, '\u{25d0}');
    assert_eq!(marker_style(Marker::Done).symbol, '\u{2713}');
    assert_eq!(marker_style(Marker::Failed).symbol, '\u{2717}');
    assert!(marker_style(Marker::Failed).bold);
    assert_eq!(marker_style(Marker::Skipped).symbol, '\u{2013}');
    assert_eq!(marker_style(Marker::Done).tint, Tint::Green);
}

#[test]
fn bar_tints() {
    assert_eq!(bar_tint(7, 7), Tint::Green);
    assert_eq!(bar_tint(3, 7), Tint::Yellow);
    assert_eq!(bar_tint(0, 7), Tint::White);
    assert_eq!(bar_tint(0, 0), Tint::White);
}

#[test]
fn scrolling_keys_and_clamp() {
    assert_eq!(scroll_after_key(0, WatchKey::Up), Some(0));
    assert_eq!(scroll_after_key(3, WatchKey::Down), Some(4));
    assert_eq!(scroll_after_key(3, WatchKey::Quit), None);
    let v = view_state(100, 15, 30);
    assert_eq!((v.scroll, v.visible, v.total), (20, 10, 30));
    assert_eq!(visible_range(&v), (20, 30));
    let v = view_state(4, 3, 30);
    assert_eq!((v.scroll, v.visible), (4, 0));
    let v = view_state(4, 40, 10);
    assert_eq!(v.scroll, 0);
    assert_eq!(visible_range(&v), (0, 10));
}

#[test]
fn truncate_path_keeps_the_end() {
    assert_eq!(truncate_path("abcdef", 10), "abcdef");
    assert_eq!(truncate_path("abcdef", 4), "\u{2026}def");
    assert_eq!(truncate_path("abcdef", 0), "\u{2026}");
}

#[test]
fn footer_texts() {
    assert_eq!(footer_text("p.todo.md", 3, 10, true, 80), "p.todo.md  \u{2022}  q back to list");
    assert_eq!(
        footer_text("p.todo.md", 30, 10, false, 80),
        "p.todo.md  \u{2191}\u{2193} scroll  \u{2022}  q quit"
    );
    assert_eq!(footer_text("p.todo.md", 3, 10, false, 8), "\u{2026} q quit");
}

#[test]
fn summary_text() {
    assert_eq!(progress_summary(3, 7), " 3/7 steps complete");
    assert_eq!(progress_summary(0, 4294967295), " 0/4294967295 steps complete");
}

#[test]
fn truncate_titles() {
    assert_eq!(truncate("hello", 5), "hello");
    assert_eq!(truncate("hello world", 5), "hell\u{2026}");
    assert_eq!(truncate("héllo", 4), "hé\u{2026}");
    assert_eq!(truncate("abc", 0), "\u{2026}");
}

#[test]
fn list_rows() {
    assert_eq!(progress_label(3, 7), " 3/7");
    assert_eq!(progress_label(0, 0), "");
    let r = list_row("A long plan title", 3, 7, 16);
    assert_eq!(r.progress, " 3/7");
    assert_eq!(r.title, "A long \u{2026}");
    let r = list_row("Short", 0, 0, 80);
    assert_eq!(r.title, "Short");
    assert_eq!(r.progress, "");
}

#[test]
fn list_navigation_wraps() {
    assert_eq!(list_action(0, 3, ListKey::Up), ListAction::Move(2));
    assert_eq!(list_action(2, 3, ListKey::Down), ListAction::Move(0));
    assert_eq!(list_action(1, 3, ListKey::Down), ListAction::Move(2));
    assert_eq!(list_action(1, 3, ListKey::Open), ListAction::Open(1));
    assert_eq!(list_action(1, 3, ListKey::Quit), ListAction::Quit);
    assert_eq!(list_action(1, 3, ListKey::Other), ListAction::Stay);
    assert_eq!(first_cursor(7, 3), 2);
    assert_eq!(first_cursor(1, 3), 1);
}

#[test]
fn subtask_rows_follow_their_step() {
    let mut s = step(Marker::InProgress, Some("Parser"), "in progress");
    s.subtasks.push(SubTask {
        marker: Marker::Todo,
        bold_name: None,
        description: "Verify: unit tests pass".to_string(),
    });
    s.subtasks.push(SubTask {
        marker: Marker::Done,
        bold_name: None,
        description: "Verify: file roundtrips correctly".to_string(),
    });
    let phases = vec![Phase { name: "P".to_string(), steps: vec![s, step(Marker::Todo, None, "x")] }];
    let rows = collect_display_lines(&phases, 80);
    assert_eq!(rows.len(), 5);
    match &rows[2] {
        DisplayLine::SubFirst { phase, step, sub, text } => {
            assert_eq!((*phase, *step, *sub), (0, 0, 0));
            assert_eq!(text, "Verify: unit tests pass");
        }
        other => panic!("unexpected {other:?}"),
    }
    match &rows[3] {
        DisplayLine::SubFirst { sub, .. } => assert_eq!(*sub, 1),
        other => panic!("unexpected {other:?}"),
    }
    match &rows[4] {
        DisplayLine::StepFirst { step, .. } => assert_eq!(*step, 1),
        other => panic!("unexpected {other:?}"),
    }
    // sub-tasks wrap two columns narrower than steps: 14 - 4 - 2 = 8
    let rows = collect_display_lines(&phases, 14);
    let conts = rows.iter().filter(|r| matches!(r, DisplayLine::SubCont(_))).count();
    assert!(conts >= 2);
}

#[test]
fn subtask_styles() {
    assert_eq!(subtask_style(Marker::Todo).symbol, '\u{b7}');
    assert_eq!(subtask_style(Marker::Done).symbol, '\u{2713}');
    assert_eq!(subtask_style(Marker::Failed), marker_style(Marker::Failed));
}
