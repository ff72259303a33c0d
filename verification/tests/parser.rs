use std::path::PathBuf;
use vigil::parser::{
    fallback_title, is_todo_file_name, parse_step_text, parse_todo, step_count, Marker, TodoFile,
};

fn parse_str(content: &str, stem: &str) -> TodoFile {
    let name = format!("{stem}.todo.md");
    let path = PathBuf::from(format!("/tmp/vigil_test_{stem}/{name}"));
    assert!(step_count(content) <= u32::MAX as usize);
    parse_todo(path, Some(&name), content, None)
}

#[test]
fn parse_title() {
    let f = parse_str("# Plan: My Plan\n", "t1");
    assert_eq!(f.title, "My Plan");
}

#[test]
fn parse_title_fallback() {
    let f = parse_str("no heading\n", "my-plan");
    assert_eq!(f.title, "my-plan");
}

#[test]
fn parse_progress_header() {
    let content = "# Plan: X\n## Progress: 3/7\n- [ ] **A** — a\n";
    let f = parse_str(content, "t3");
    assert_eq!(f.done, 3);
    assert_eq!(f.total, 7);
}

#[test]
fn parse_progress_counted() {
    let content = "# Plan: X\n## Phase\n- [x] a\n- [ ] b\n- [~] c\n";
    let f = parse_str(content, "t4");
    assert_eq!(f.done, 1);
    assert_eq!(f.total, 3);
}

#[test]
fn marker_done_only_x() {
    let content = "## P\n- [x] a\n- [ ] b\n- [~] c\n- [!] d\n- [-] e\n";
    let f = parse_str(content, "t5");
    assert_eq!(f.done, 1);
    assert_eq!(f.total, 5);
}

#[test]
fn step_bold_name() {
    let content = "## P\n- [x] **Step Name** \u{2014} the desc\n";
    let f = parse_str(content, "t6");
    let s = &f.phases[0].steps[0];
    assert_eq!(s.bold_name.as_deref(), Some("Step Name"));
    assert_eq!(s.description, "the desc");
}

#[test]
fn step_no_bold() {
    let content = "## P\n- [ ] plain text\n";
    let f = parse_str(content, "t7");
    let s = &f.phases[0].steps[0];
    assert!(s.bold_name.is_none());
    assert_eq!(s.description, "plain text");
}

#[test]
fn step_multiple_dashes() {
    let content = "## P\n- [x] **Name** \u{2014} part one \u{2014} part two\n";
    let f = parse_str(content, "t8");
    let s = &f.phases[0].steps[0];
    assert_eq!(s.bold_name.as_deref(), Some("Name"));
    assert_eq!(s.description, "part one \u{2014} part two");
}

#[test]
fn phase_grouping() {
    let content = "## Alpha\n- [ ] a1\n## Beta\n- [x] b1\n- [ ] b2\n";
    let f = parse_str(content, "t9");
    assert_eq!(f.phases.len(), 2);
    assert_eq!(f.phases[0].name, "Alpha");
    assert_eq!(f.phases[0].steps.len(), 1);
    assert_eq!(f.phases[1].name, "Beta");
    assert_eq!(f.phases[1].steps.len(), 2);
}

#[test]
fn empty_file() {
    let f = parse_str("", "t10");
    assert_eq!(f.done, 0);
    assert_eq!(f.total, 0);
    assert!(f.phases.is_empty());
}

#[test]
fn unknown_marker_uppercase() {
    let content = "## P\n- [X] a\n";
    let f = parse_str(content, "t11");
    assert_eq!(f.phases[0].steps[0].marker, Marker::Done);
}

#[test]
fn all_markers_map() {
    let content = "- [ ] a\n- [~] b\n- [x] c\n- [!] d\n- [-] e\n- [?] f\n";
    let f = parse_str(content, "markers");
    let m: Vec<Marker> = f.phases[0].steps.iter().map(|s| s.marker).collect();
    assert_eq!(
        m,
        vec![
            Marker::Todo,
            Marker::InProgress,
            Marker::Done,
            Marker::Failed,
            Marker::Skipped,
            Marker::Todo
        ]
    );
}

#[test]
fn steps_before_any_phase_get_unnamed_phase() {
    let f = parse_str("- [x] early\n## Later\n- [ ] late\n", "unnamed");
    assert_eq!(f.phases.len(), 2);
    assert_eq!(f.phases[0].name, "");
    assert_eq!(f.phases[0].steps[0].description, "early");
    assert_eq!(f.phases[1].name, "Later");
}

#[test]
fn indented_subtasks_are_not_steps() {
    let f = parse_str("## P\n- [~] **Deploy** — push\n  - [x] Verify: ok\n", "sub");
    assert_eq!(f.total, 1);
    assert_eq!(f.phases[0].steps.len(), 1);
}

#[test]
fn subtasks_go_under_their_step() {
    let content = "## P\n- [~] **Deploy** \u{2014} push\n  - [x] Verify: staging ok\n    - [ ] **Deep** — more\n- [ ] next\n";
    let f = parse_str(content, "subs");
    assert_eq!((f.done, f.total), (0, 2));
    let deploy = &f.phases[0].steps[0];
    assert_eq!(deploy.subtasks.len(), 2);
    assert_eq!(deploy.subtasks[0].marker, Marker::Done);
    assert_eq!(deploy.subtasks[0].description, "Verify: staging ok");
    assert!(deploy.subtasks[0].bold_name.is_none());
    assert_eq!(deploy.subtasks[1].marker, Marker::Todo);
    assert_eq!(deploy.subtasks[1].bold_name.as_deref(), Some("Deep"));
    assert_eq!(deploy.subtasks[1].description, "more");
    assert!(f.phases[0].steps[1].subtasks.is_empty());
}

#[test]
fn subtasks_without_a_step_are_dropped() {
    let f = parse_str("  - [x] orphan\n## P\n  - [x] orphan too\n- [ ] s\n", "orphan");
    assert_eq!(f.total, 1);
    assert_eq!(f.phases.len(), 1);
    assert!(f.phases[0].steps[0].subtasks.is_empty());
}

#[test]
fn tab_indented_items_are_not_subtasks() {
    let f = parse_str("- [ ] s\n\t- [x] t\n", "tab");
    assert!(f.phases[0].steps[0].subtasks.is_empty());
}

#[test]
fn crlf_lines_and_last_title_wins() {
    let f = parse_str("# Plan: One\r\n# Plan:  Two  \r\n", "crlf");
    assert_eq!(f.title, "Two");
}

#[test]
fn malformed_progress_header_is_ignored() {
    let f = parse_str("## Progress: a/7\n- [x] a\n", "bad");
    assert_eq!((f.done, f.total), (1, 1));
    let f = parse_str("## Progress: +2 / 9\n", "plus");
    assert_eq!((f.done, f.total), (2, 9));
    let f = parse_str("## Progress: 1/4294967296\n", "big");
    assert_eq!((f.done, f.total), (0, 0));
}

#[test]
fn progress_header_is_not_a_phase() {
    let f = parse_str("## Progress: 1/2\n## Real\n", "ph");
    assert_eq!(f.phases.len(), 1);
    assert_eq!(f.phases[0].name, "Real");
}

#[test]
fn step_text_starts_two_bytes_after_bracket() {
    // the marker is two bytes wide, so the text starts right after it
    let f = parse_str("- [é] rest\n", "wide");
    assert_eq!(f.phases[0].steps[0].description, "] rest");
    assert_eq!(f.phases[0].steps[0].marker, Marker::Todo);
    // a three-byte marker: byte two is inside it, so the text is empty
    let f = parse_str("- [✓] rest\n", "wider");
    assert_eq!(f.phases[0].steps[0].description, "");
}

#[test]
fn parse_step_text_forms() {
    let s = parse_step_text(Marker::Done, "**A** - hyphen desc");
    assert_eq!(s.bold_name.as_deref(), Some("A"));
    assert_eq!(s.description, "hyphen desc");
    let s = parse_step_text(Marker::Todo, "**Unclosed name");
    assert!(s.bold_name.is_none());
    assert_eq!(s.description, "**Unclosed name");
    let s = parse_step_text(Marker::Todo, "plain - not split");
    assert_eq!(s.description, "plain - not split");
    let s = parse_step_text(Marker::Todo, "**N**");
    assert_eq!(s.bold_name.as_deref(), Some("N"));
    assert_eq!(s.description, "");
}

#[test]
fn fallback_title_from_file_names() {
    assert_eq!(fallback_title(Some("my-plan.todo.md")), "my-plan");
    assert_eq!(fallback_title(Some("a.todo.todo.md")), "a");
    assert_eq!(fallback_title(Some(".hidden")), ".hidden");
    assert_eq!(fallback_title(Some("noext")), "noext");
    assert_eq!(fallback_title(None), "");
}

#[test]
fn todo_file_names() {
    assert!(is_todo_file_name("x.todo.md"));
    assert!(!is_todo_file_name("x.md"));
    assert!(!is_todo_file_name("x.todo.md.bak"));
}

#[test]
fn step_count_counts_step_lines() {
    assert_eq!(step_count("- [x] a\n  - [ ] sub\n- [ ] b\n## P\n"), 2);
    assert_eq!(step_count(""), 0);
}

#[test]
fn path_and_modified_are_kept() {
    let p = PathBuf::from("/a/b.todo.md");
    let f = parse_todo(p.clone(), Some("b.todo.md"), "", Some(-5));
    assert_eq!(f.path, p);
    assert_eq!(f.modified, Some(-5));
    assert_eq!(f.title, "b");
}
