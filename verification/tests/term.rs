use vigil::term::{hrule, progress_bar_string as bar_of_cells};

/// The bar for `done` of `total` steps: the cells are `38 * done / total`
/// rounded in `f32`, as the program computes them.
fn progress_bar_string(done: u32, total: u32) -> String {
    let cells = if total == 0 {
        0
    } else {
        ((done as f32 / total as f32) * 38.0).round() as usize
    };
    bar_of_cells(cells)
}

#[test]
fn progress_bar_full() {
    let s = progress_bar_string(7, 7);
    assert!(s.starts_with('['));
    assert!(s.ends_with(']'));
    // 38 filled blocks
    let inner = &s[1..s.len() - 1];
    let blocks: Vec<&str> = inner.split('\u{2591}').collect();
    assert_eq!(blocks.len(), 1, "should have no empty blocks");
    // count filled chars
    let filled_count = inner.chars().filter(|&c| c == '\u{2588}').count();
    assert_eq!(filled_count, 38);
}

#[test]
fn progress_bar_half() {
    let s = progress_bar_string(4, 8);
    let inner = &s[1..s.len() - 1];
    let filled = inner.chars().filter(|&c| c == '\u{2588}').count();
    let empty = inner.chars().filter(|&c| c == '\u{2591}').count();
    assert_eq!(filled, 19);
    assert_eq!(empty, 19);
}

#[test]
fn progress_bar_zero() {
    let s = progress_bar_string(0, 5);
    let inner = &s[1..s.len() - 1];
    let filled = inner.chars().filter(|&c| c == '\u{2588}').count();
    assert_eq!(filled, 0);
    let empty = inner.chars().filter(|&c| c == '\u{2591}').count();
    assert_eq!(empty, 38);
}

#[test]
fn progress_bar_zero_total() {
    let s = progress_bar_string(0, 0);
    let inner = &s[1..s.len() - 1];
    let filled = inner.chars().filter(|&c| c == '\u{2588}').count();
    assert_eq!(filled, 0);
}

#[test]
fn bar_uses_single_precision_rounding() {
    // 27 / 76 * 38 is 13.5 exactly, but 13.499999 in f32
    let s = progress_bar_string(27, 76);
    assert_eq!(s.chars().filter(|&c| c == '\u{2588}').count(), 13);
}

#[test]
fn bar_cells_are_capped() {
    assert_eq!(bar_of_cells(100), bar_of_cells(38));
    assert_eq!(progress_bar_string(9, 7).chars().filter(|&c| c == '\u{2588}').count(), 38);
    assert_eq!(bar_of_cells(usize::MAX).chars().count(), 40);
}

#[test]
fn progress_bar_exact_text() {
    let s = progress_bar_string(1, 2);
    let expected = format!("[{}{}]", "\u{2588}".repeat(19), "\u{2591}".repeat(19));
    assert_eq!(s, expected);
    assert_eq!(s.chars().count(), 40);
}

#[test]
fn hrule_is_cols_wide() {
    assert_eq!(hrule(5), "\u{2500}".repeat(5));
    assert_eq!(hrule(0), "");
}
