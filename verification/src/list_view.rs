//! The list of plans in a directory: rows fitted to the terminal and
//! moving the selection.
use vstd::prelude::*;
use vstd::slice::slice_subrange;
use crate::text::{
    byte_len, char_index_at_byte, char_index_of_byte, chars_of, decimal, lemma_chars_le_bytes,
    push_decimal, str_byte_len, string_of,
};
use crate::watch_view::sat_sub;

verus! {

/// Whether the cut that `truncate` makes falls on a character boundary.
pub open spec fn title_cut_ok(s: Seq<char>, max: nat) -> bool {
    byte_len(s) > max ==> char_index_of_byte(s, sat_sub(max, 1)) is Some
}

/// `s` if it takes at most `max` bytes; otherwise its first `max - 1` bytes
/// (none for a `max` of zero) and `…`.
pub open spec fn truncated(s: Seq<char>, max: nat) -> Seq<char> {
    if byte_len(s) <= max {
        s
    } else {
        s.take(char_index_of_byte(s, sat_sub(max, 1)).unwrap() as int) + seq!['\u{2026}']
    }
}

/// Shortens a title to `max` bytes, marking the cut with `…`.
pub fn truncate(s: &str, max: usize) -> (r: String)
    requires
        title_cut_ok(s@, max as nat),
    ensures
        r@ == truncated(s@, max as nat),
{
    let bytes = str_byte_len(s);
    let chars = chars_of(s);
    if bytes <= max {
        string_of(chars.as_slice())
    } else {
        match char_index_at_byte(chars.as_slice(), max.saturating_sub(1)) {
            Some(k) => {
                let mut r = string_of(slice_subrange(chars.as_slice(), 0, k));
                r.push('\u{2026}');
                assert(r@ =~= s@.take(k as int) + seq!['\u{2026}']);
                r
            },
            None => {
                assert(false);
                String::new()
            },
        }
    }
}

/// With room for at least one character, a fitted title takes at most `max`
/// characters, and a cut one keeps the start of the title.
pub proof fn lemma_truncated_fits(s: Seq<char>, max: nat)
    requires
        max >= 1,
        title_cut_ok(s, max),
    ensures
        truncated(s, max).len() <= max,
        byte_len(s) > max ==> truncated(s, max).len() > 0 && truncated(s, max).last() == '\u{2026}'
            && truncated(s, max).drop_last() == s.take(truncated(s, max).len() - 1),
{
    lemma_chars_le_bytes(s);
    if byte_len(s) > max {
        let k = char_index_of_byte(s, sat_sub(max, 1)).unwrap();
        assert(k <= s.len() && byte_len(s.take(k as int)) == max - 1);
        lemma_chars_le_bytes(s.take(k as int));
        let r = truncated(s, max);
        assert(r.drop_last() =~= s.take(k as int));
    }
}

/// `" done/total"`, or nothing for a plan without steps.
pub open spec fn progress_label_of(done: u32, total: u32) -> Seq<char> {
    if total > 0 {
        seq![' '] + decimal(done as nat) + seq!['/'] + decimal(total as nat)
    } else {
        seq![]
    }
}

/// A plan with steps shows a label, whatever number of them is done: a
/// space, then `done/total`, which the progress reader reads back as the
/// pair `(done, total)`. A plan without steps shows none.
pub proof fn lemma_progress_label_reads_back(done: u32, total: u32)
    ensures
        (progress_label_of(done, total).len() == 0) <==> (total == 0),
        total > 0 ==> progress_label_of(done, total)[0] == ' ' && crate::parser::progress_pair(
            crate::text::trim(progress_label_of(done, total)),
        ) == Some((done, total)),
{
    if total > 0 {
        crate::parser::lemma_progress_pair_read_back(done, total);
    }
}

pub fn progress_label(done: u32, total: u32) -> (r: String)
    ensures
        r@ == progress_label_of(done, total),
{
    let mut r = String::new();
    if total > 0 {
        r.push(' ');
        push_decimal(&mut r, done);
        r.push('/');
        push_decimal(&mut r, total);
    }
    r
}

/// The bytes left for the title in a row: the columns less the marker
/// (two), the progress label and a margin of two.
pub open spec fn title_room(cols: u16, label_bytes: nat) -> nat {
    sat_sub(cols as nat, 2 + label_bytes + 2)
}

/// One row of the list: the plan's title, fitted, and its progress label.
#[derive(Debug)]
pub struct ListRow {
    pub title: String,
    pub progress: String,
}

pub fn list_row(title: &str, done: u32, total: u32, cols: u16) -> (r: ListRow)
    requires
        title_cut_ok(title@, title_room(cols, byte_len(progress_label_of(done, total)))),
    ensures
        r.progress@ == progress_label_of(done, total),
        r.title@ == truncated(title@, title_room(cols, byte_len(progress_label_of(done, total)))),
{
    let progress = progress_label(done, total);
    let n = str_byte_len(progress.as_str());
    let c = cols as usize;
    let room = if n >= c {
        0
    } else {
        (c - n).saturating_sub(4)
    };
    assert(room == title_room(cols, n as nat));
    ListRow { title: truncate(title, room), progress }
}

/// Whether `list_row` cuts the title on a character boundary, as it must.
pub fn list_row_ok(title: &str, done: u32, total: u32, cols: u16) -> (b: bool)
    ensures
        b == title_cut_ok(title@, title_room(cols, byte_len(progress_label_of(done, total)))),
{
    let progress = progress_label(done, total);
    let n = str_byte_len(progress.as_str());
    let c = cols as usize;
    let room = if n >= c {
        0
    } else {
        (c - n).saturating_sub(4)
    };
    let bytes = str_byte_len(title);
    if bytes <= room {
        true
    } else {
        let chars = chars_of(title);
        char_index_at_byte(chars.as_slice(), room.saturating_sub(1)).is_some()
    }
}

// ---------------------------------------------------------------------------
// Selection
// ---------------------------------------------------------------------------

/// The keys the list reacts to.
#[derive(Debug, Clone, Copy, PartialEq, Eq, Structural)]
pub enum ListKey {
    Up,
    Down,
    Open,
    Quit,
    Other,
}

/// What the list does after a key.
#[derive(Debug, Clone, Copy, PartialEq, Eq, Structural)]
pub enum ListAction {
    Move(usize),
    Open(usize),
    Quit,
    Stay,
}

/// The entry above `cursor`, from the first wrapping round to the last.
pub open spec fn cursor_up(cursor: nat, len: nat) -> nat {
    ((cursor + len - 1) as nat) % len
}

/// The entry below `cursor`, from the last wrapping round to the first.
pub open spec fn cursor_down(cursor: nat, len: nat) -> nat {
    (cursor + 1) % len
}

proof fn lemma_cursor_steps(c: nat, len: nat)
    requires
        c < len,
    ensures
        cursor_up(c, len) == if c == 0 {
            (len - 1) as nat
        } else {
            (c - 1) as nat
        },
        cursor_down(c, len) == if c + 1 == len {
            0
        } else {
            c + 1
        },
{
    let up = ((c + len - 1) as nat);
    if c == 0 {
        assert(up % len == (len - 1) as nat) by (nonlinear_arith)
            requires
                up == len - 1,
                len > 0,
        ;
    } else {
        assert(up % len == (c - 1) as nat) by (nonlinear_arith)
            requires
                up == len + (c - 1),
                1 <= c < len,
        ;
    }
    if c + 1 == len {
        assert((c + 1) % len == 0) by (nonlinear_arith)
            requires
                c + 1 == len,
        ;
    } else {
        assert((c + 1) % len == c + 1) by (nonlinear_arith)
            requires
                c + 1 < len,
        ;
    }
}

/// Moving up and then down, or down and then up, returns to the same entry.
pub proof fn lemma_cursor_round_trip(c: nat, len: nat)
    requires
        c < len,
    ensures
        cursor_down(cursor_up(c, len), len) == c,
        cursor_up(cursor_down(c, len), len) == c,
        cursor_up(c, len) < len,
        cursor_down(c, len) < len,
{
    lemma_cursor_steps(c, len);
    lemma_cursor_steps(cursor_up(c, len), len);
    lemma_cursor_steps(cursor_down(c, len), len);
}

/// The selection after a key: up and down move with wrap-around, Enter opens
/// the selected plan, `q` leaves.
pub fn list_action(cursor: usize, len: usize, key: ListKey) -> (a: ListAction)
    requires
        cursor < len,
    ensures
        a == match key {
            ListKey::Up => ListAction::Move(cursor_up(cursor as nat, len as nat) as usize),
            ListKey::Down => ListAction::Move(cursor_down(cursor as nat, len as nat) as usize),
            ListKey::Open => ListAction::Open(cursor),
            ListKey::Quit => ListAction::Quit,
            ListKey::Other => ListAction::Stay,
        },
{
    proof {
        lemma_cursor_steps(cursor as nat, len as nat);
    }
    match key {
        ListKey::Up => ListAction::Move(
            if cursor == 0 {
                len - 1
            } else {
                cursor - 1
            },
        ),
        ListKey::Down => ListAction::Move(
            if cursor + 1 == len {
                0
            } else {
                cursor + 1
            },
        ),
        ListKey::Open => ListAction::Open(cursor),
        ListKey::Quit => ListAction::Quit,
        ListKey::Other => ListAction::Stay,
    }
}

/// The selection when the list opens: the remembered one, kept inside the
/// list.
pub fn first_cursor(initial: usize, len: usize) -> (c: usize)
    requires
        len > 0,
    ensures
        c == if initial < len {
            initial
        } else {
            (len - 1) as usize
        },
{
    if initial < len {
        initial
    } else {
        len - 1
    }
}

} // verus!
