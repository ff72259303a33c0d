use std::path::PathBuf;
use vigil::directory::{order_todo_files, sort_todo_files};
use vigil::parser::TodoFile;

fn file(title: &str, modified: Option<i128>) -> TodoFile {
    TodoFile {
        path: PathBuf::from(format!("{title}.todo.md")),
        title: title.to_string(),
        done: 0,
        total: 0,
        phases: Vec::new(),
        modified,
    }
}

#[test]
fn parse_directory_sorted() {
    let files = vec![file("Zebra", Some(10)), file("Apple", Some(10))];
    let files = sort_todo_files(files);
    assert_eq!(files.len(), 2);
    assert_eq!(files[0].title, "Apple");
    assert_eq!(files[1].title, "Zebra");
}

#[test]
fn newest_first_then_title() {
    let files = vec![
        file("b", None),
        file("a", Some(1)),
        file("c", Some(5)),
        file("d", Some(1)),
    ];
    let titles: Vec<String> = sort_todo_files(files).into_iter().map(|f| f.title).collect();
    assert_eq!(titles, vec!["c", "a", "d", "b"]);
}

#[test]
fn titles_compare_without_case() {
    // with case, "Banana" < "apple"; folded, "apple" < "banana"
    let files = vec![file("Banana", None), file("apple", None)];
    let titles: Vec<String> = sort_todo_files(files).into_iter().map(|f| f.title).collect();
    assert_eq!(titles, vec!["apple", "Banana"]);
}

#[test]
fn equal_keys_keep_input_order() {
    let mut a = file("Same", None);
    a.done = 1;
    let mut b = file("same", None);
    b.done = 2;
    let out = sort_todo_files(vec![a, b]);
    assert_eq!(out[0].done, 1);
    assert_eq!(out[1].done, 2);
}

#[test]
fn order_by_given_keys() {
    let files = vec![file("x", None), file("y", None), file("z", None)];
    let keys = vec!["3".to_string(), "1".to_string(), "2".to_string()];
    let titles: Vec<String> = order_todo_files(files, keys).into_iter().map(|f| f.title).collect();
    assert_eq!(titles, vec!["y", "z", "x"]);
}
