use std::path::PathBuf;
use vigil::list_view::{list_action, list_row_ok, truncate, ListAction, ListKey};
use vigil::parser::{parse_step_text, parse_todo, Marker, Phase, Step};
use vigil::term::progress_bar_string as bar_of_cells;
use vigil::watch_view::{
    collect_display_lines, footer_ok, scroll_after_key, truncate_path, word_wrap, DisplayLine, WatchKey,
};

#[test]
fn wrapping_keeps_every_non_space_character() {
    let text = "a  bb ccc dddddddd e";
    for width in 1..12 {
        let lines = word_wrap(text, width);
        let joined: String = lines.concat().chars().filter(|c| *c != ' ').collect();
        let expected: String = text.chars().filter(|c| *c != ' ').collect();
        assert_eq!(joined, expected);
        for l in &lines {
            assert!(!l.is_empty());
            assert!(l.chars().count() <= width || !l.contains(' '));
        }
    }
}

#[test]
fn counted_progress_matches_phases() {
    let content = "## A\n- [x] a\n- [ ] b\n## B\n- [x] c\n";
    let f = parse_todo(PathBuf::from("c.todo.md"), Some("c.todo.md"), content, None);
    let steps: usize = f.phases.iter().map(|p: &Phase| p.steps.len()).sum();
    let done = f
        .phases
        .iter()
        .flat_map(|p| p.steps.iter())
        .filter(|s: &&Step| s.marker == Marker::Done)
        .count();
    assert_eq!(f.total as usize, steps);
    assert_eq!(f.done as usize, done);
}

#[test]
fn written_progress_line_is_read_back() {
    for (d, t) in [(0u32, 0u32), (3, 7), (4294967295, 12), (10, 4294967295)] {
        let content = format!("- [x] a\n## Progress: {d}/{t}\n");
        let f = parse_todo(PathBuf::from("p.todo.md"), None, &content, None);
        assert_eq!((f.done, f.total), (d, t));
    }
}

#[test]
fn bar_is_always_forty_cells() {
    for cells in 0..50usize {
        let s = bar_of_cells(cells);
        assert_eq!(s.chars().count(), 40);
        assert_eq!(s.chars().filter(|&c| c == '\u{2588}').count(), cells.min(38));
    }
}

#[test]
fn truncations_fit_their_width() {
    let s = "a plan with a long title";
    for max in 1..30 {
        assert!(truncate(s, max).chars().count() <= max);
        assert!(truncate_path(s, max).chars().count() <= max);
    }
}

#[test]
fn cut_checks_find_split_characters() {
    // room for the title is 7 - 4 = 3 bytes; the cut at byte 2 splits the é
    assert!(!list_row_ok("héllo", 0, 0, 7));
    assert!(list_row_ok("hello", 0, 0, 7));
    assert!(list_row_ok("hé", 0, 0, 7));
    // the footer "aé  •  q quit" is 16 bytes; keeping the last 14 cuts inside the é
    assert!(!footer_ok("aé", 0, 0, false, 15));
    assert!(footer_ok("aé", 0, 0, false, 14));
    assert!(footer_ok("aé", 0, 0, false, 16));
}

#[test]
fn up_and_down_undo_each_other() {
    for len in 1..6usize {
        for c in 0..len {
            let up = match list_action(c, len, ListKey::Up) {
                ListAction::Move(u) => u,
                other => panic!("unexpected {other:?}"),
            };
            assert_eq!(list_action(up, len, ListKey::Down), ListAction::Move(c));
        }
    }
}

#[test]
fn wrapped_lines_join_back_to_the_text() {
    let text = "the quick brown fox jumps over a lazy dog";
    for width in 1..45 {
        assert_eq!(word_wrap(text, width).join(" "), text);
    }
}

#[test]
fn wrapping_is_greedy() {
    let text = "aa b cccc dd eeeeeee f gg";
    for width in 1..30 {
        let lines = word_wrap(text, width);
        for pair in lines.windows(2) {
            let next_word = pair[1].split(' ').next().unwrap();
            assert!(pair[0].chars().count() + 1 + next_word.chars().count() > width);
            assert!(!pair[1].starts_with(' '));
        }
    }
}

#[test]
fn counts_follow_the_step_lines_and_the_last_progress_line() {
    let content = "- [x] a\n- [X] b\n- [ ] c\n  - [x] sub\n";
    let f = parse_todo(PathBuf::from("a.todo.md"), None, content, None);
    assert_eq!((f.done, f.total), (2, 3));

    let content = "## Progress: 1/2\n- [x] a\n## Progress: 5/9\n## Progress: x/3\n";
    let f = parse_todo(PathBuf::from("b.todo.md"), None, content, None);
    assert_eq!((f.done, f.total), (5, 9));
}

#[test]
fn phases_follow_the_headings() {
    let content = "- [ ] early\n## One\n- [x] a\n## Progress: 1/1\n##  Two  \n- [ ] b\n- [ ] c\n";
    let f = parse_todo(PathBuf::from("c.todo.md"), None, content, None);
    let names: Vec<&str> = f.phases.iter().map(|p| p.name.as_str()).collect();
    assert_eq!(names, vec!["", "One", "Two"]);
    let counts: Vec<usize> = f.phases.iter().map(|p| p.steps.len()).collect();
    assert_eq!(counts, vec![1, 1, 2]);

    let f = parse_todo(PathBuf::from("d.todo.md"), None, "## One\n- [ ] a\n", None);
    assert_eq!(f.phases.len(), 1);
    assert_eq!(f.phases[0].name, "One");
}

#[test]
fn step_description_is_part_of_its_text() {
    for text in ["**Build** \u{2014}  compile it ", "plain words", "**Odd** - x", "  spaced  "] {
        let s = parse_step_text(Marker::Todo, text);
        assert_eq!(s.description, s.description.trim());
        assert!(text.contains(s.description.as_str()));
        if let Some(n) = &s.bold_name {
            assert!(text.starts_with(&format!("**{n}**")));
            assert!(!n.contains("**"));
        }
    }
}

#[test]
fn narrow_terminal_gives_one_row_per_item() {
    let content = "## P\n- [ ] a long step that would wrap\n  - [ ] a long sub-task too\n- [x] b\n";
    let f = parse_todo(PathBuf::from("e.todo.md"), None, content, None);
    for cols in 0..5u16 {
        let rows = collect_display_lines(&f.phases, cols);
        assert_eq!(rows.len(), 4);
        assert!(rows
            .iter()
            .all(|r| !matches!(r, DisplayLine::StepCont(_) | DisplayLine::SubCont(_))));
    }
}

#[test]
fn scrolling_down_then_up_comes_back() {
    for scroll in [0usize, 1, 7, usize::MAX - 1] {
        let down = scroll_after_key(scroll, WatchKey::Down).unwrap();
        assert_eq!(scroll_after_key(down, WatchKey::Up), Some(scroll));
    }
    assert_eq!(scroll_after_key(usize::MAX, WatchKey::Down), Some(usize::MAX));
    assert_eq!(scroll_after_key(0, WatchKey::Up), Some(0));
    assert_eq!(scroll_after_key(3, WatchKey::Quit), None);
}
