//! Laying out one plan for the watch view: rows of phases and wrapped steps,
//! the symbols and colours of markers, scrolling, and the footer.
use vstd::prelude::*;
use vstd::slice::slice_subrange;
use crate::parser::{
    em_dash_sep, opt_string, phase_views, Marker, Phase, PhaseModel, Step, StepModel, SubTaskModel,
};
use crate::text::{
    byte_len, find_from, occurs_at, char_index_at_byte, char_index_of_byte, chars_of, find, find_char,
    lemma_find_in_range, push_chars, str_byte_len, string_of, string_views,
};

verus! {

// ---------------------------------------------------------------------------
// Word wrapping
// ---------------------------------------------------------------------------

/// `str::split(' ')`: the pieces between single spaces, empty ones included.
pub open spec fn split_spaces(s: Seq<char>) -> Seq<Seq<char>>
    decreases s.len(),
{
    match find(s, seq![' ']) {
        Some(i) => {
            proof {
                lemma_find_in_range(s, seq![' '], 0);
            }
            seq![s.take(i as int)] + split_spaces(s.skip(i as int + 1))
        },
        None => seq![s],
    }
}

/// The finished lines and the line being filled after laying out `words`:
/// a word starts an empty line, joins the current one behind a space if the
/// line then still fits `width`, and otherwise starts a new line.
pub open spec fn wrap_fold(words: Seq<Seq<char>>, width: nat) -> (Seq<Seq<char>>, Seq<char>)
    decreases words.len(),
{
    if words.len() == 0 {
        (seq![], seq![])
    } else {
        let (done, cur) = wrap_fold(words.drop_last(), width);
        let w = words.last();
        if cur.len() == 0 {
            (done, w)
        } else if cur.len() + 1 + w.len() <= width {
            (done, cur + seq![' '] + w)
        } else {
            (done.push(cur), w)
        }
    }
}

/// The lines that `text` wraps into at `width` characters. An empty text
/// or a zero width gives the text itself as the only line.
pub open spec fn wrapped(text: Seq<char>, width: nat) -> Seq<Seq<char>> {
    if text.len() == 0 || width == 0 {
        seq![text]
    } else {
        let (done, cur) = wrap_fold(split_spaces(text), width);
        if cur.len() > 0 {
            done.push(cur)
        } else {
            done
        }
    }
}

proof fn lemma_split_step(s: Seq<char>, pos: int, i: int)
    requires
        0 <= pos <= s.len(),
        0 <= i,
        find(s.skip(pos), seq![' ']) == Some(i as nat),
    ensures
        pos + i < s.len(),
        split_spaces(s.skip(pos)) == seq![s.subrange(pos, pos + i)] + split_spaces(
            s.skip(pos + i + 1),
        ),
{
    lemma_find_in_range(s.skip(pos), seq![' '], 0);
    assert(find_from(s.skip(pos), seq![' '], 0) == Some(i as nat));
    assert(i + 1 <= s.len() - pos);
    assert(s.skip(pos).take(i) =~= s.subrange(pos, pos + i));
    assert(s.skip(pos).skip(i + 1) =~= s.skip(pos + i + 1));
}

/// The characters of `s` other than spaces.
pub open spec fn non_spaces(s: Seq<char>) -> Seq<char>
    decreases s.len(),
{
    if s.len() == 0 {
        seq![]
    } else {
        non_spaces(s.drop_last()) + if s.last() == ' ' {
            seq![]
        } else {
            seq![s.last()]
        }
    }
}

/// The lines laid end to end.
pub open spec fn concat_lines(ls: Seq<Seq<char>>) -> Seq<char>
    decreases ls.len(),
{
    if ls.len() == 0 {
        seq![]
    } else {
        concat_lines(ls.drop_last()) + ls.last()
    }
}

pub open spec fn has_no_space(w: Seq<char>) -> bool {
    forall|i: int| 0 <= i < w.len() ==> w[i] != ' '
}

/// A line fits the width, or is a single word too long to break.
pub open spec fn fits_or_single_word(l: Seq<char>, width: nat) -> bool {
    l.len() <= width || has_no_space(l)
}

proof fn lemma_non_spaces_concat(a: Seq<char>, b: Seq<char>)
    ensures
        non_spaces(a + b) == non_spaces(a) + non_spaces(b),
    decreases b.len(),
{
    if b.len() == 0 {
        assert(a + b =~= a);
        assert(non_spaces(a) + non_spaces(b) =~= non_spaces(a));
    } else {
        lemma_non_spaces_concat(a, b.drop_last());
        assert((a + b).drop_last() =~= a + b.drop_last());
        assert((a + b).last() == b.last());
    }
}

proof fn lemma_non_spaces_one_space()
    ensures
        non_spaces(seq![' ']) == Seq::<char>::empty(),
{
    let sp = seq![' '];
    assert(sp.drop_last() =~= Seq::<char>::empty());
    assert(non_spaces(Seq::<char>::empty()) == Seq::<char>::empty());
    assert(non_spaces(sp) == non_spaces(sp.drop_last()) + Seq::<char>::empty());
    assert(non_spaces(sp) =~= Seq::<char>::empty());
}

proof fn lemma_concat_lines_front(a: Seq<char>, rest: Seq<Seq<char>>)
    ensures
        concat_lines(seq![a] + rest) == a + concat_lines(rest),
    decreases rest.len(),
{
    if rest.len() == 0 {
        assert(seq![a] + rest =~= seq![a]);
        let one = seq![a];
        assert(one.drop_last() =~= Seq::<Seq<char>>::empty());
        assert(concat_lines(Seq::<Seq<char>>::empty()) == Seq::<char>::empty());
        assert(concat_lines(one) == concat_lines(one.drop_last()) + one.last());
        assert(one.last() == a);
        assert(a + concat_lines(rest) =~= a);
        assert(concat_lines(one) =~= a);
    } else {
        lemma_concat_lines_front(a, rest.drop_last());
        assert((seq![a] + rest).drop_last() =~= seq![a] + rest.drop_last());
        assert(a + concat_lines(rest) =~= a + concat_lines(rest.drop_last()) + rest.last());
    }
}

/// Splitting at spaces loses only the spaces.
proof fn lemma_split_keeps_non_spaces(s: Seq<char>)
    ensures
        non_spaces(concat_lines(split_spaces(s))) == non_spaces(s),
        forall|i: int| 0 <= i < split_spaces(s).len() ==> has_no_space(#[trigger] split_spaces(s)[i]),
    decreases s.len(),
{
    let sp = seq![' '];
    crate::text::lemma_find_first(s, sp, 0);
    match find(s, sp) {
        Some(i) => {
            lemma_find_in_range(s, sp, 0);
            let a = s.take(i as int);
            let rest = s.skip(i as int + 1);
            lemma_split_keeps_non_spaces(rest);
            lemma_concat_lines_front(a, split_spaces(rest));
            assert(s =~= a + sp + rest);
            lemma_non_spaces_concat(a + sp, rest);
            lemma_non_spaces_concat(a, sp);
            lemma_non_spaces_concat(a, concat_lines(split_spaces(rest)));
            assert(non_spaces(sp) =~= Seq::<char>::empty()) by {
                lemma_non_spaces_one_space();
            }
            assert(has_no_space(a)) by {
                assert forall|m: int| 0 <= m < a.len() implies a[m] != ' ' by {
                    if a[m] == ' ' {
                        assert(s.subrange(m, m + 1) =~= sp);
                        assert(occurs_at(s, sp, m));
                    }
                }
            }
            assert forall|k: int| 0 <= k < split_spaces(s).len() implies has_no_space(
                #[trigger] split_spaces(s)[k],
            ) by {
                if k > 0 {
                    assert(split_spaces(s)[k] == split_spaces(rest)[k - 1]);
                }
            }
        },
        None => {
            assert(split_spaces(s) == seq![s]);
            lemma_concat_lines_front(s, seq![]);
            assert(s + concat_lines(Seq::<Seq<char>>::empty()) =~= s);
            assert(has_no_space(s)) by {
                assert forall|m: int| 0 <= m < s.len() implies s[m] != ' ' by {
                    if s[m] == ' ' {
                        assert(s.subrange(m, m + 1) =~= sp);
                        assert(occurs_at(s, sp, m));
                    }
                }
            }
        },
    }
}

proof fn lemma_fold_laws(words: Seq<Seq<char>>, width: nat)
    requires
        forall|i: int| 0 <= i < words.len() ==> has_no_space(#[trigger] words[i]),
    ensures
        ({
            let (done, cur) = wrap_fold(words, width);
            &&& non_spaces(concat_lines(done) + cur) == non_spaces(concat_lines(words))
            &&& forall|i: int| 0 <= i < done.len() ==> (#[trigger] done[i]).len() > 0
            &&& forall|i: int| 0 <= i < done.len() ==> fits_or_single_word(#[trigger] done[i], width)
            &&& fits_or_single_word(cur, width)
            &&& forall|i: int| 0 <= i < done.len() ==> (#[trigger] done[i])[0] != ' '
            &&& cur.len() > 0 ==> cur[0] != ' '
        }),
    decreases words.len(),
{
    if words.len() > 0 {
        let ws = words.drop_last();
        assert forall|i: int| 0 <= i < ws.len() implies has_no_space(#[trigger] ws[i]) by {
            assert(ws[i] == words[i]);
        }
        lemma_fold_laws(ws, width);
        let (done, cur) = wrap_fold(ws, width);
        let w = words.last();
        assert(has_no_space(w)) by {
            assert(w == words[words.len() - 1]);
        }
        lemma_non_spaces_concat(concat_lines(ws), w);
        lemma_non_spaces_concat(concat_lines(done), cur);
        if cur.len() == 0 {
            assert(concat_lines(done) + cur =~= concat_lines(done));
            lemma_non_spaces_concat(concat_lines(done), w);
        } else if cur.len() + 1 + w.len() <= width {
            let line = cur + seq![' '] + w;
            assert(concat_lines(done) + line =~= (concat_lines(done) + cur) + seq![' '] + w);
            lemma_non_spaces_concat((concat_lines(done) + cur) + seq![' '], w);
            lemma_non_spaces_concat(concat_lines(done) + cur, seq![' ']);
            lemma_non_spaces_one_space();
        } else {
            let d2 = done.push(cur);
            assert(d2.drop_last() =~= done);
            assert(concat_lines(d2) == concat_lines(done) + cur);
            lemma_non_spaces_concat(concat_lines(d2), w);
            assert forall|i: int| 0 <= i < d2.len() implies (#[trigger] d2[i]).len() > 0
                && fits_or_single_word(d2[i], width) && d2[i][0] != ' ' by {
                if i < done.len() {
                    assert(d2[i] == done[i]);
                }
            }
        }
    }
}

/// The lines of `wrapped` hold the characters of the text other than spaces,
/// all of them and in their order.
pub proof fn lemma_wrap_keeps_words(text: Seq<char>, width: nat)
    ensures
        non_spaces(concat_lines(wrapped(text, width))) == non_spaces(text),
{
    if text.len() == 0 || width == 0 {
        lemma_concat_lines_front(text, seq![]);
        assert(text + concat_lines(Seq::<Seq<char>>::empty()) =~= text);
        assert(seq![text] + Seq::<Seq<char>>::empty() =~= seq![text]);
    } else {
        let ws = split_spaces(text);
        lemma_split_keeps_non_spaces(text);
        lemma_fold_laws(ws, width);
        let (done, cur) = wrap_fold(ws, width);
        if cur.len() > 0 {
            assert(done.push(cur).drop_last() =~= done);
        } else {
            assert(concat_lines(done) + cur =~= concat_lines(done));
        }
    }
}

/// Every line of a wrapped non-empty text is non-empty, does not start with
/// a space, and fits the width, unless it is one word longer than the width.
pub proof fn lemma_wrap_lines_fit(text: Seq<char>, width: nat)
    requires
        text.len() > 0,
        width > 0,
    ensures
        forall|i: int|
            0 <= i < wrapped(text, width).len() ==> (#[trigger] wrapped(text, width)[i]).len() > 0
                && fits_or_single_word(wrapped(text, width)[i], width) && wrapped(text, width)[i][0]
                != ' ',
{
    let ws = split_spaces(text);
    lemma_split_keeps_non_spaces(text);
    lemma_fold_laws(ws, width);
    let (done, cur) = wrap_fold(ws, width);
    let r = wrapped(text, width);
    assert forall|i: int| 0 <= i < r.len() implies (#[trigger] r[i]).len() > 0
        && fits_or_single_word(r[i], width) && r[i][0] != ' ' by {
        if i < done.len() {
            assert(r[i] == done[i]);
        }
    }
}

/// Lines joined by single spaces.
pub open spec fn join_lines(ls: Seq<Seq<char>>) -> Seq<char>
    decreases ls.len(),
{
    if ls.len() == 0 {
        seq![]
    } else if ls.len() == 1 {
        ls[0]
    } else {
        join_lines(ls.drop_last()) + seq![' '] + ls.last()
    }
}

/// Text that neither starts nor ends with a space and has no two spaces in
/// a row.
pub open spec fn single_spaced(s: Seq<char>) -> bool {
    &&& s.len() > 0
    &&& s[0] != ' '
    &&& s.last() != ' '
    &&& forall|i: int| 0 <= i < s.len() - 1 ==> !(#[trigger] s[i] == ' ' && s[i + 1] == ' ')
}

proof fn lemma_join_front(a: Seq<char>, r: Seq<Seq<char>>)
    ensures
        join_lines(seq![a] + r) == if r.len() == 0 {
            a
        } else {
            a + seq![' '] + join_lines(r)
        },
    decreases r.len(),
{
    let s = seq![a] + r;
    if r.len() == 1 {
        assert(s.drop_last() =~= seq![a]);
        assert(join_lines(seq![a]) == a);
        assert(s.last() == r[0]);
        assert(join_lines(r) == r[0]);
        assert(join_lines(s) == join_lines(s.drop_last()) + seq![' '] + s.last());
    } else if r.len() > 1 {
        lemma_join_front(a, r.drop_last());
        assert(s.drop_last() =~= seq![a] + r.drop_last());
        assert(s.last() == r.last());
        assert(join_lines(s) == join_lines(s.drop_last()) + seq![' '] + s.last());
        assert(join_lines(r) == join_lines(r.drop_last()) + seq![' '] + r.last());
        assert(a + seq![' '] + join_lines(r) =~= a + seq![' '] + join_lines(r.drop_last()) + seq![
            ' ',
        ] + r.last());
    } else {
        assert(s =~= seq![a]);
        assert(join_lines(seq![a]) == a);
    }
}

proof fn lemma_split_nonempty(s: Seq<char>)
    ensures
        split_spaces(s).len() > 0,
    decreases s.len(),
{
    if let Some(i) = find(s, seq![' ']) {
        lemma_find_in_range(s, seq![' '], 0);
        lemma_split_nonempty(s.skip(i as int + 1));
    }
}

/// Joining the pieces of a text split at spaces gives the text back.
proof fn lemma_join_split(s: Seq<char>)
    ensures
        join_lines(split_spaces(s)) == s,
    decreases s.len(),
{
    match find(s, seq![' ']) {
        Some(i) => {
            lemma_find_in_range(s, seq![' '], 0);
            let a = s.take(i as int);
            let rest = s.skip(i as int + 1);
            lemma_join_split(rest);
            lemma_split_nonempty(rest);
            lemma_join_front(a, split_spaces(rest));
            assert(s.subrange(i as int, i as int + 1) =~= seq![' ']);
            assert(s =~= a + seq![' '] + rest);
        },
        None => {
            assert(split_spaces(s) == seq![s]);
        },
    }
}

/// A single-spaced text splits into non-empty words.
proof fn lemma_single_spaced_words(s: Seq<char>)
    requires
        single_spaced(s),
    ensures
        forall|i: int| 0 <= i < split_spaces(s).len() ==> (#[trigger] split_spaces(s)[i]).len() > 0,
    decreases s.len(),
{
    let sp = seq![' '];
    match find(s, sp) {
        Some(i) => {
            lemma_find_in_range(s, sp, 0);
            assert(s.subrange(i as int, i as int + 1)[0] == s[i as int]);
            let rest = s.skip(i as int + 1);
            assert(i > 0);
            assert(i < s.len() - 1);
            assert(rest[0] == s[i as int + 1]);
            assert(s[i as int] == ' ');
            assert(rest.last() == s.last());
            assert forall|j: int| 0 <= j < rest.len() - 1 implies !(#[trigger] rest[j] == ' '
                && rest[j + 1] == ' ') by {
                assert(rest[j] == s[i as int + 1 + j]);
                assert(rest[j + 1] == s[i as int + 1 + j + 1]);
            }
            lemma_single_spaced_words(rest);
            assert forall|k: int| 0 <= k < split_spaces(s).len() implies (#[trigger] split_spaces(
                s,
            )[k]).len() > 0 by {
                if k > 0 {
                    assert(split_spaces(s)[k] == split_spaces(rest)[k - 1]);
                }
            }
        },
        None => {
            assert(split_spaces(s) == seq![s]);
        },
    }
}

pub open spec fn joined_so_far(done: Seq<Seq<char>>, cur: Seq<char>) -> Seq<char> {
    if done.len() == 0 {
        cur
    } else {
        join_lines(done) + seq![' '] + cur
    }
}

proof fn lemma_fold_join(words: Seq<Seq<char>>, width: nat)
    requires
        words.len() > 0,
        forall|i: int| 0 <= i < words.len() ==> (#[trigger] words[i]).len() > 0,
    ensures
        wrap_fold(words, width).1.len() > 0,
        joined_so_far(wrap_fold(words, width).0, wrap_fold(words, width).1) == join_lines(words),
    decreases words.len(),
{
    let w = words.last();
    assert(w == words[words.len() - 1]);
    if words.len() == 1 {
        assert(words.drop_last() =~= Seq::<Seq<char>>::empty());
    } else {
        let ws = words.drop_last();
        assert forall|i: int| 0 <= i < ws.len() implies (#[trigger] ws[i]).len() > 0 by {
            assert(ws[i] == words[i]);
        }
        lemma_fold_join(ws, width);
        let (done, cur) = wrap_fold(ws, width);
        if cur.len() + 1 + w.len() <= width {
            let c2 = cur + seq![' '] + w;
            if done.len() == 0 {
                assert(joined_so_far(done, c2) == c2);
            } else {
                assert(joined_so_far(done, c2) =~= joined_so_far(done, cur) + seq![' '] + w);
            }
        } else {
            let d2 = done.push(cur);
            assert(d2.drop_last() =~= done);
            if done.len() == 0 {
                assert(join_lines(d2) == cur);
            } else {
                assert(join_lines(d2) == join_lines(done) + seq![' '] + cur);
            }
        }
    }
}

/// Wrapping a single-spaced text only turns some of its spaces into line
/// breaks: joining the lines with single spaces gives the text back.
pub proof fn lemma_wrap_join(text: Seq<char>, width: nat)
    requires
        single_spaced(text),
        width > 0,
    ensures
        join_lines(wrapped(text, width)) == text,
{
    let ws = split_spaces(text);
    lemma_split_nonempty(text);
    lemma_single_spaced_words(text);
    lemma_fold_join(ws, width);
    lemma_join_split(text);
    let (done, cur) = wrap_fold(ws, width);
    let d2 = done.push(cur);
    assert(d2.drop_last() =~= done);
    if done.len() == 0 {
        assert(join_lines(d2) == cur);
    }
}

/// The first space-separated word of a line.
pub open spec fn first_word(l: Seq<char>) -> Seq<char> {
    split_spaces(l)[0]
}

/// No line could also have taken the first word of the line after it.
pub open spec fn greedy_lines(lines: Seq<Seq<char>>, width: nat) -> bool {
    forall|i: int, j: int|
        0 <= i && j == i + 1 && j < lines.len() ==> (#[trigger] lines[i]).len() + 1 + first_word(
            #[trigger] lines[j],
        ).len() > width
}

/// `find` of a space gives the first space, or none when there is none.
proof fn lemma_find_space(s: Seq<char>)
    ensures
        match find(s, seq![' ']) {
            Some(k) => k < s.len() && s[k as int] == ' ' && forall|m: int|
                0 <= m < k ==> s[m] != ' ',
            None => has_no_space(s),
        },
{
    let sp = seq![' '];
    lemma_find_in_range(s, sp, 0);
    crate::text::lemma_find_first(s, sp, 0);
    match find(s, sp) {
        Some(k) => {
            assert(s.subrange(k as int, k as int + 1)[0] == s[k as int]);
            assert forall|m: int| 0 <= m < k implies s[m] != ' ' by {
                if s[m] == ' ' {
                    assert(s.subrange(m, m + 1) =~= sp);
                    assert(occurs_at(s, sp, m));
                }
            }
        },
        None => {
            assert forall|m: int| 0 <= m < s.len() implies s[m] != ' ' by {
                if s[m] == ' ' {
                    assert(s.subrange(m, m + 1) =~= sp);
                    assert(occurs_at(s, sp, m));
                }
            }
        },
    }
}

/// The first word of a text that has a space at `k` and none before it.
proof fn lemma_first_word_at(s: Seq<char>, k: int)
    requires
        0 <= k < s.len(),
        s[k] == ' ',
        forall|m: int| 0 <= m < k ==> s[m] != ' ',
    ensures
        first_word(s) == s.take(k),
{
    lemma_find_space(s);
    match find(s, seq![' ']) {
        Some(k2) => {
            assert(k2 == k);
            assert(split_spaces(s)[0] == s.take(k2 as int));
        },
        None => {
            assert(s[k] != ' ');
        },
    }
}

/// A word without spaces is its own first word.
proof fn lemma_first_word_of_word(w: Seq<char>)
    requires
        has_no_space(w),
    ensures
        first_word(w) == w,
{
    lemma_find_space(w);
    match find(w, seq![' ']) {
        Some(k) => {
            assert(w[k as int] != ' ');
        },
        None => {
            assert(split_spaces(w) == seq![w]);
        },
    }
}

/// Adding a word to a non-empty line keeps its first word.
proof fn lemma_first_word_extend(cur: Seq<char>, w: Seq<char>)
    requires
        cur.len() > 0,
    ensures
        first_word(cur + seq![' '] + w) == first_word(cur),
{
    let s = cur + seq![' '] + w;
    lemma_find_space(cur);
    match find(cur, seq![' ']) {
        Some(k) => {
            lemma_first_word_at(cur, k as int);
            lemma_first_word_at(s, k as int);
            assert(s.take(k as int) =~= cur.take(k as int));
        },
        None => {
            assert(s[cur.len() as int] == ' ');
            lemma_first_word_at(s, cur.len() as int);
            assert(s.take(cur.len() as int) =~= cur);
            lemma_first_word_of_word(cur);
        },
    }
}

proof fn lemma_fold_greedy(words: Seq<Seq<char>>, width: nat)
    requires
        forall|i: int| 0 <= i < words.len() ==> has_no_space(#[trigger] words[i]),
    ensures
        greedy_lines(wrap_fold(words, width).0, width),
        wrap_fold(words, width).0.len() > 0 ==> wrap_fold(words, width).0.last().len() + 1
            + first_word(wrap_fold(words, width).1).len() > width,
    decreases words.len(),
{
    if words.len() > 0 {
        let ws = words.drop_last();
        assert forall|i: int| 0 <= i < ws.len() implies has_no_space(#[trigger] ws[i]) by {
            assert(ws[i] == words[i]);
        }
        lemma_fold_greedy(ws, width);
        let (done, cur) = wrap_fold(ws, width);
        let w = words.last();
        assert(has_no_space(w)) by {
            assert(w == words[words.len() - 1]);
        }
        lemma_first_word_of_word(w);
        if cur.len() == 0 {
            lemma_first_word_of_word(cur);
        } else if cur.len() + 1 + w.len() <= width {
            lemma_first_word_extend(cur, w);
        } else {
            let d2 = done.push(cur);
            assert forall|i: int, j: int|
                0 <= i && j == i + 1 && j < d2.len() implies (#[trigger] d2[i]).len() + 1
                + first_word(#[trigger] d2[j]).len() > width by {
                assert(d2[i] == done[i]);
                if j < done.len() {
                    assert(d2[j] == done[j]);
                    assert(done[i].len() + 1 + first_word(done[j]).len() > width);
                } else {
                    assert(d2[j] == cur);
                    assert(done[i] == done.last());
                }
            }
        }
    }
}

/// Wrapping is greedy: no line could also have taken the first word of the
/// line after it without going over the width.
pub proof fn lemma_wrap_greedy(text: Seq<char>, width: nat)
    requires
        text.len() > 0,
        width > 0,
    ensures
        greedy_lines(wrapped(text, width), width),
{
    let ws = split_spaces(text);
    lemma_split_keeps_non_spaces(text);
    lemma_fold_greedy(ws, width);
    let (done, cur) = wrap_fold(ws, width);
    let r = wrapped(text, width);
    if cur.len() > 0 {
        assert forall|i: int, j: int|
            0 <= i && j == i + 1 && j < r.len() implies (#[trigger] r[i]).len() + 1 + first_word(
            #[trigger] r[j],
        ).len() > width by {
            assert(r[i] == done[i]);
            if j < done.len() {
                assert(r[j] == done[j]);
                assert(done[i].len() + 1 + first_word(done[j]).len() > width);
            } else {
                assert(r[j] == cur);
                assert(done[i] == done.last());
            }
        }
    }
}

fn wrap_chars(text: &[char], width: usize) -> (r: Vec<String>)
    ensures
        string_views(r@) == wrapped(text@, width as nat),
{
    if text.len() == 0 || width == 0 {
        let mut v = Vec::new();
        v.push(string_of(text));
        assert(string_views(v@) =~= seq![text@]);
        return v;
    }
    let ghost ws = split_spaces(text@);
    let mut lines: Vec<String> = Vec::new();
    let mut current = String::new();
    let mut cur_len: usize = 0;
    let mut pos: usize = 0;
    let ghost mut k: int = 0;
    assert(text@.skip(0) =~= text@);
    assert(ws.take(0) =~= Seq::<Seq<char>>::empty());
    assert(string_views(lines@) =~= Seq::<Seq<char>>::empty());
    loop
        invariant_except_break
            pos <= text@.len(),
            0 <= k <= ws.len(),
            ws == split_spaces(text@),
            split_spaces(text@.skip(pos as int)) == ws.skip(k),
            (string_views(lines@), current@) == wrap_fold(ws.take(k), width as nat),
            cur_len == current@.len(),
        ensures
            (string_views(lines@), current@) == wrap_fold(ws, width as nat),
            cur_len == current@.len(),
        decreases text@.len() - pos,
    {
        let rest = slice_subrange(text, pos, text.len());
        assert(rest@ =~= text@.skip(pos as int));
        let found = find_char(rest, ' ');
        let end = match found {
            Some(i) => i,
            None => rest.len(),
        };
        let word = slice_subrange(rest, 0, end);
        proof {
            match found {
                Some(i) => {
                    lemma_split_step(text@, pos as int, i as int);
                    assert(word@ =~= text@.subrange(pos as int, pos + i));
                },
                None => {
                    assert(word@ =~= rest@);
                    assert(split_spaces(text@.skip(pos as int)) == seq![rest@]);
                },
            }
            assert(ws.skip(k).len() > 0);
            assert(ws[k] == word@) by {
                assert(ws.skip(k)[0] == ws[k]);
            }
            assert(ws.take(k + 1).drop_last() =~= ws.take(k));
        }
        let ghost old_lines = string_views(lines@);
        if cur_len == 0 {
            push_chars(&mut current, word);
            cur_len = end;
        } else if cur_len < width && end <= width - cur_len - 1 {
            current.push(' ');
            push_chars(&mut current, word);
            cur_len = cur_len + 1 + end;
        } else {
            let mut next = String::new();
            std::mem::swap(&mut next, &mut current);
            lines.push(next);
            push_chars(&mut current, word);
            cur_len = end;
            assert(string_views(lines@) =~= old_lines.push(next@));
        }
        proof {
            assert(current@.len() == cur_len);
        }
        match found {
            Some(i) => {
                pos = pos + i + 1;
                proof {
                    assert(ws.skip(k + 1) =~= ws.skip(k).drop_first());
                    k = k + 1;
                }
            },
            None => {
                proof {
                    assert(ws.skip(k).len() == 1);
                    assert(ws.take(k + 1) =~= ws);
                }
                break ;
            },
        }
    }
    let ghost folded = wrap_fold(ws, width as nat);
    assert(string_views(lines@) == folded.0 && current@ == folded.1);
    assert(wrapped(text@, width as nat) == if folded.1.len() > 0 {
        folded.0.push(folded.1)
    } else {
        folded.0
    });
    if cur_len > 0 {
        let ghost old_lines = string_views(lines@);
        lines.push(current);
        assert(string_views(lines@) =~= old_lines.push(folded.1));
    }
    lines
}

/// Wraps `text` into lines of at most `width` characters, breaking at
/// spaces; a word longer than the width gets a line of its own.
pub fn word_wrap(text: &str, width: usize) -> (r: Vec<String>)
    ensures
        string_views(r@) == wrapped(text@, width as nat),
{
    let chars = chars_of(text);
    wrap_chars(chars.as_slice(), width)
}

// ---------------------------------------------------------------------------
// Display rows
// ---------------------------------------------------------------------------

/// One terminal row of a plan: a phase heading, the first line of a step
/// (with the phase and step it belongs to) or of a sub-task (with its index
/// under the step), or a continuation line of either.
#[derive(Debug)]
pub enum DisplayLine {
    Phase(String),
    StepFirst { phase: usize, step: usize, text: String },
    StepCont(String),
    SubFirst { phase: usize, step: usize, sub: usize, text: String },
    SubCont(String),
}

pub enum DisplayModel {
    Phase(Seq<char>),
    StepFirst { phase: nat, step: nat, text: Seq<char> },
    StepCont(Seq<char>),
    SubFirst { phase: nat, step: nat, sub: nat, text: Seq<char> },
    SubCont(Seq<char>),
}

impl View for DisplayLine {
    type V = DisplayModel;

    open spec fn view(&self) -> DisplayModel {
        match self {
            DisplayLine::Phase(n) => DisplayModel::Phase(n@),
            DisplayLine::StepFirst { phase, step, text } => DisplayModel::StepFirst {
                phase: *phase as nat,
                step: *step as nat,
                text: text@,
            },
            DisplayLine::StepCont(t) => DisplayModel::StepCont(t@),
            DisplayLine::SubFirst { phase, step, sub, text } => DisplayModel::SubFirst {
                phase: *phase as nat,
                step: *step as nat,
                sub: *sub as nat,
                text: text@,
            },
            DisplayLine::SubCont(t) => DisplayModel::SubCont(t@),
        }
    }
}

pub open spec fn display_views(v: Seq<DisplayLine>) -> Seq<DisplayModel> {
    v.map_values(|d: DisplayLine| d@)
}

/// The text shown for a step or sub-task: `name — description`, or
/// whichever of the two it has.
pub open spec fn item_text(name: Option<Seq<char>>, description: Seq<char>) -> Seq<char> {
    match name {
        Some(n) => if description.len() == 0 {
            n
        } else {
            n + em_dash_sep() + description
        },
        None => description,
    }
}

pub open spec fn step_text(s: StepModel) -> Seq<char> {
    item_text(s.bold_name, s.description)
}

pub open spec fn subtask_text(t: SubTaskModel) -> Seq<char> {
    item_text(t.bold_name, t.description)
}

/// Sub-tasks are indented two columns more than steps.
pub open spec fn subtask_width(width: nat) -> nat {
    sat_sub(width, 2)
}

pub open spec fn cont_rows(ls: Seq<Seq<char>>) -> Seq<DisplayModel> {
    ls.map_values(|l: Seq<char>| DisplayModel::StepCont(l))
}

pub open spec fn sub_cont_rows(ls: Seq<Seq<char>>) -> Seq<DisplayModel> {
    ls.map_values(|l: Seq<char>| DisplayModel::SubCont(l))
}

/// The rows of a step's wrapped lines: the first, then the others.
pub open spec fn step_line_rows(pi: nat, si: nat, ls: Seq<Seq<char>>) -> Seq<DisplayModel> {
    if ls.len() == 0 {
        seq![]
    } else {
        seq![DisplayModel::StepFirst { phase: pi, step: si, text: ls[0] }] + cont_rows(
            ls.drop_first(),
        )
    }
}

/// The rows of a sub-task's wrapped lines: the first, then the others.
pub open spec fn sub_line_rows(pi: nat, si: nat, k: nat, ls: Seq<Seq<char>>) -> Seq<DisplayModel> {
    if ls.len() == 0 {
        seq![]
    } else {
        seq![DisplayModel::SubFirst { phase: pi, step: si, sub: k, text: ls[0] }] + sub_cont_rows(
            ls.drop_first(),
        )
    }
}

pub open spec fn subtask_rows(pi: nat, si: nat, k: nat, t: SubTaskModel, width: nat) -> Seq<
    DisplayModel,
> {
    sub_line_rows(pi, si, k, wrapped(subtask_text(t), subtask_width(width)))
}

pub open spec fn subtasks_rows(pi: nat, si: nat, subs: Seq<SubTaskModel>, width: nat) -> Seq<
    DisplayModel,
>
    decreases subs.len(),
{
    if subs.len() == 0 {
        seq![]
    } else {
        subtasks_rows(pi, si, subs.drop_last(), width) + subtask_rows(
            pi,
            si,
            (subs.len() - 1) as nat,
            subs.last(),
            width,
        )
    }
}

/// The rows of one step: its wrapped text, then its sub-tasks.
pub open spec fn step_rows(pi: nat, si: nat, s: StepModel, width: nat) -> Seq<DisplayModel> {
    step_line_rows(pi, si, wrapped(step_text(s), width)) + subtasks_rows(
        pi,
        si,
        s.subtasks,
        width,
    )
}

pub open spec fn steps_rows(pi: nat, steps: Seq<StepModel>, width: nat) -> Seq<DisplayModel>
    decreases steps.len(),
{
    if steps.len() == 0 {
        seq![]
    } else {
        steps_rows(pi, steps.drop_last(), width) + step_rows(
            pi,
            (steps.len() - 1) as nat,
            steps.last(),
            width,
        )
    }
}

/// The rows of a phase: its name, unless empty, then its steps.
pub open spec fn phase_rows(pi: nat, p: PhaseModel, width: nat) -> Seq<DisplayModel> {
    (if p.name.len() == 0 {
        seq![]
    } else {
        seq![DisplayModel::Phase(p.name)]
    }) + steps_rows(pi, p.steps, width)
}

pub open spec fn phases_rows(ps: Seq<PhaseModel>, width: nat) -> Seq<DisplayModel>
    decreases ps.len(),
{
    if ps.len() == 0 {
        seq![]
    } else {
        phases_rows(ps.drop_last(), width) + phase_rows(
            (ps.len() - 1) as nat,
            ps.last(),
            width,
        )
    }
}

/// Step text is indented by four columns.
pub open spec fn content_width(cols: u16) -> nat {
    if cols >= 4 {
        (cols - 4) as nat
    } else {
        0
    }
}

/// A row fits its width (that of steps, or two less for sub-tasks), unless
/// it is a single word too long to break.
pub open spec fn row_fits(r: DisplayModel, width: nat) -> bool {
    match r {
        DisplayModel::Phase(_) => true,
        DisplayModel::StepFirst { text, .. } => fits_or_single_word(text, width),
        DisplayModel::StepCont(t) => fits_or_single_word(t, width),
        DisplayModel::SubFirst { text, .. } => fits_or_single_word(text, subtask_width(width)),
        DisplayModel::SubCont(t) => fits_or_single_word(t, subtask_width(width)),
    }
}

pub open spec fn rows_fit(rows: Seq<DisplayModel>, width: nat) -> bool {
    forall|i: int| 0 <= i < rows.len() ==> row_fits(#[trigger] rows[i], width)
}

proof fn lemma_rows_fit_concat(a: Seq<DisplayModel>, b: Seq<DisplayModel>, width: nat)
    requires
        rows_fit(a, width),
        rows_fit(b, width),
    ensures
        rows_fit(a + b, width),
{
    assert forall|i: int| 0 <= i < (a + b).len() implies row_fits(#[trigger] (a + b)[i], width) by {
        if i < a.len() {
            assert((a + b)[i] == a[i]);
        } else {
            assert((a + b)[i] == b[i - a.len()]);
        }
    }
}

proof fn lemma_wrapped_fit(text: Seq<char>, w: nat)
    requires
        w > 0,
    ensures
        forall|i: int|
            0 <= i < wrapped(text, w).len() ==> fits_or_single_word(
                #[trigger] wrapped(text, w)[i],
                w,
            ),
{
    if text.len() > 0 {
        lemma_wrap_lines_fit(text, w);
    } else {
        assert(wrapped(text, w) == seq![text]);
    }
}

proof fn lemma_step_rows_fit(pi: nat, si: nat, s: StepModel, width: nat)
    requires
        width > 2,
    ensures
        rows_fit(step_rows(pi, si, s, width), width),
{
    let ls = wrapped(step_text(s), width);
    lemma_wrapped_fit(step_text(s), width);
    let own = step_line_rows(pi, si, ls);
    assert(rows_fit(own, width)) by {
        if ls.len() > 0 {
            assert forall|i: int| 0 <= i < own.len() implies row_fits(#[trigger] own[i], width) by {
                if i > 0 {
                    assert(own[i] == DisplayModel::StepCont(ls[i]));
                }
            }
        }
    }
    lemma_subtasks_rows_fit(pi, si, s.subtasks, width);
    lemma_rows_fit_concat(own, subtasks_rows(pi, si, s.subtasks, width), width);
}

proof fn lemma_subtasks_rows_fit(pi: nat, si: nat, subs: Seq<SubTaskModel>, width: nat)
    requires
        width > 2,
    ensures
        rows_fit(subtasks_rows(pi, si, subs, width), width),
    decreases subs.len(),
{
    if subs.len() > 0 {
        lemma_subtasks_rows_fit(pi, si, subs.drop_last(), width);
        let k = (subs.len() - 1) as nat;
        let w = subtask_width(width);
        let ls = wrapped(subtask_text(subs.last()), w);
        lemma_wrapped_fit(subtask_text(subs.last()), w);
        let own = subtask_rows(pi, si, k, subs.last(), width);
        assert(rows_fit(own, width)) by {
            if ls.len() > 0 {
                assert forall|i: int| 0 <= i < own.len() implies row_fits(#[trigger] own[i], width) by {
                    if i > 0 {
                        assert(own[i] == DisplayModel::SubCont(ls[i]));
                    }
                }
            }
        }
        lemma_rows_fit_concat(subtasks_rows(pi, si, subs.drop_last(), width), own, width);
    }
}

proof fn lemma_steps_rows_fit(pi: nat, steps: Seq<StepModel>, width: nat)
    requires
        width > 2,
    ensures
        rows_fit(steps_rows(pi, steps, width), width),
    decreases steps.len(),
{
    if steps.len() > 0 {
        lemma_steps_rows_fit(pi, steps.drop_last(), width);
        lemma_step_rows_fit(pi, (steps.len() - 1) as nat, steps.last(), width);
        lemma_rows_fit_concat(
            steps_rows(pi, steps.drop_last(), width),
            step_rows(pi, (steps.len() - 1) as nat, steps.last(), width),
            width,
        );
    }
}

/// Every row of a plan takes one terminal line: step and sub-task text is
/// wrapped to its width, and only a single word longer than the width
/// exceeds it. (Widths too small to leave sub-tasks a column are left out.)
pub proof fn lemma_rows_fit(ps: Seq<PhaseModel>, width: nat)
    requires
        width > 2,
    ensures
        rows_fit(phases_rows(ps, width), width),
    decreases ps.len(),
{
    if ps.len() > 0 {
        lemma_rows_fit(ps.drop_last(), width);
        let p = ps.last();
        let header = if p.name.len() == 0 {
            Seq::<DisplayModel>::empty()
        } else {
            seq![DisplayModel::Phase(p.name)]
        };
        assert(rows_fit(header, width));
        lemma_steps_rows_fit((ps.len() - 1) as nat, p.steps, width);
        lemma_rows_fit_concat(header, steps_rows((ps.len() - 1) as nat, p.steps, width), width);
        lemma_rows_fit_concat(
            phases_rows(ps.drop_last(), width),
            phase_rows((ps.len() - 1) as nat, p, width),
            width,
        );
    }
}

/// The rows a list of steps takes when nothing wraps: one per step and
/// one per sub-task.
pub open spec fn unwrapped_step_rows(steps: Seq<StepModel>) -> nat
    decreases steps.len(),
{
    if steps.len() == 0 {
        0
    } else {
        unwrapped_step_rows(steps.drop_last()) + 1 + steps.last().subtasks.len()
    }
}

/// The rows a plan takes when nothing wraps: one per named phase, step and
/// sub-task.
pub open spec fn unwrapped_rows(ps: Seq<PhaseModel>) -> nat
    decreases ps.len(),
{
    if ps.len() == 0 {
        0
    } else {
        unwrapped_rows(ps.drop_last()) + (if ps.last().name.len() == 0 {
            0nat
        } else {
            1nat
        }) + unwrapped_step_rows(ps.last().steps)
    }
}

/// A row that continues a wrapped step or sub-task.
pub open spec fn is_cont_row(r: DisplayModel) -> bool {
    r is StepCont || r is SubCont
}

pub open spec fn no_cont_rows(rows: Seq<DisplayModel>) -> bool {
    forall|i: int| 0 <= i < rows.len() ==> !is_cont_row(#[trigger] rows[i])
}

proof fn lemma_no_cont_concat(a: Seq<DisplayModel>, b: Seq<DisplayModel>)
    requires
        no_cont_rows(a),
        no_cont_rows(b),
    ensures
        no_cont_rows(a + b),
{
    assert forall|i: int| 0 <= i < (a + b).len() implies !is_cont_row(#[trigger] (a + b)[i]) by {
        if i < a.len() {
            assert((a + b)[i] == a[i]);
        } else {
            assert((a + b)[i] == b[i - a.len()]);
        }
    }
}

/// The sub-task rows of a step when nothing wraps: one first row per sub-task.
pub open spec fn unwrapped_subtask_rows(pi: nat, si: nat, subs: Seq<SubTaskModel>) -> Seq<
    DisplayModel,
> {
    Seq::new(
        subs.len(),
        |k: int| DisplayModel::SubFirst { phase: pi, step: si, sub: k as nat, text: subtask_text(subs[k]) },
    )
}

proof fn lemma_zero_width_subtasks(pi: nat, si: nat, subs: Seq<SubTaskModel>)
    ensures
        subtasks_rows(pi, si, subs, 0) == unwrapped_subtask_rows(pi, si, subs),
    decreases subs.len(),
{
    if subs.len() > 0 {
        lemma_zero_width_subtasks(pi, si, subs.drop_last());
        let k = (subs.len() - 1) as nat;
        assert(subtask_width(0) == 0);
        let ls = wrapped(subtask_text(subs.last()), 0);
        assert(ls == seq![subtask_text(subs.last())]);
        assert(cont_rows(ls.drop_first()) =~= Seq::<DisplayModel>::empty());
        assert(sub_cont_rows(ls.drop_first()) =~= Seq::<DisplayModel>::empty());
        assert(subtask_rows(pi, si, k, subs.last(), 0) =~= seq![
            DisplayModel::SubFirst { phase: pi, step: si, sub: k, text: subtask_text(subs.last()) },
        ]);
        assert(subtasks_rows(pi, si, subs, 0) =~= unwrapped_subtask_rows(pi, si, subs));
    } else {
        assert(subtasks_rows(pi, si, subs, 0) =~= unwrapped_subtask_rows(pi, si, subs));
    }
}

/// With no room to wrap, a step takes one row with its whole text, followed
/// by one row for each of its sub-tasks with the sub-task's whole text.
pub proof fn lemma_zero_width_step(pi: nat, si: nat, s: StepModel)
    ensures
        step_rows(pi, si, s, 0) == seq![DisplayModel::StepFirst { phase: pi, step: si, text: step_text(s) }]
            + unwrapped_subtask_rows(pi, si, s.subtasks),
{
    lemma_zero_width_subtasks(pi, si, s.subtasks);
    let ls = wrapped(step_text(s), 0);
    assert(ls == seq![step_text(s)]);
    assert(cont_rows(ls.drop_first()) =~= Seq::<DisplayModel>::empty());
    assert(step_line_rows(pi, si, ls) =~= seq![
        DisplayModel::StepFirst { phase: pi, step: si, text: step_text(s) },
    ]);
}

proof fn lemma_zero_width_steps(pi: nat, steps: Seq<StepModel>)
    ensures
        steps_rows(pi, steps, 0).len() == unwrapped_step_rows(steps),
        no_cont_rows(steps_rows(pi, steps, 0)),
    decreases steps.len(),
{
    if steps.len() > 0 {
        lemma_zero_width_steps(pi, steps.drop_last());
        let si = (steps.len() - 1) as nat;
        let s = steps.last();
        lemma_zero_width_step(pi, si, s);
        let rs = step_rows(pi, si, s, 0);
        assert forall|i: int| 0 <= i < rs.len() implies !is_cont_row(#[trigger] rs[i]) by {
            if i > 0 {
                assert(rs[i] == unwrapped_subtask_rows(pi, si, s.subtasks)[i - 1]);
            }
        }
        lemma_no_cont_concat(steps_rows(pi, steps.drop_last(), 0), rs);
    } else {
        assert(no_cont_rows(steps_rows(pi, steps, 0)));
    }
}

/// With no room to wrap (a terminal at most four columns wide), each named
/// phase, step and sub-task takes exactly one row, and no row continues a
/// wrapped line.
pub proof fn lemma_zero_width_rows(ps: Seq<PhaseModel>)
    ensures
        phases_rows(ps, 0).len() == unwrapped_rows(ps),
        no_cont_rows(phases_rows(ps, 0)),
    decreases ps.len(),
{
    if ps.len() > 0 {
        let pi = (ps.len() - 1) as nat;
        lemma_zero_width_rows(ps.drop_last());
        lemma_zero_width_steps(pi, ps.last().steps);
        let head: Seq<DisplayModel> = if ps.last().name.len() == 0 {
            seq![]
        } else {
            seq![DisplayModel::Phase(ps.last().name)]
        };
        assert(no_cont_rows(head));
        lemma_no_cont_concat(head, steps_rows(pi, ps.last().steps, 0));
        lemma_no_cont_concat(phases_rows(ps.drop_last(), 0), phase_rows(pi, ps.last(), 0));
    } else {
        assert(no_cont_rows(phases_rows(ps, 0)));
    }
}

fn item_text_chars(name: &Option<String>, description: &String) -> (v: Vec<char>)
    ensures
        v@ == item_text(opt_string(*name), description@),
{
    let mut desc = chars_of(description.as_str());
    match name {
        Some(n) => {
            let mut v = chars_of(n.as_str());
            if desc.len() > 0 {
                let ghost nv = v@;
                v.push(' ');
                v.push('\u{2014}');
                v.push(' ');
                v.append(&mut desc);
                assert(v@ =~= nv + em_dash_sep() + description@);
            }
            v
        },
        None => desc,
    }
}

/// The rows of wrapped lines, for a step (`sub` is `None`) or a sub-task.
pub open spec fn line_rows(pi: nat, si: nat, sub: Option<usize>, ls: Seq<Seq<char>>) -> Seq<
    DisplayModel,
> {
    match sub {
        None => step_line_rows(pi, si, ls),
        Some(k) => sub_line_rows(pi, si, k as nat, ls),
    }
}

fn first_row(pi: usize, si: usize, sub: Option<usize>, text: String) -> (d: DisplayLine)
    ensures
        d@ == match sub {
            None => DisplayModel::StepFirst { phase: pi as nat, step: si as nat, text: text@ },
            Some(k) => DisplayModel::SubFirst {
                phase: pi as nat,
                step: si as nat,
                sub: k as nat,
                text: text@,
            },
        },
{
    match sub {
        None => DisplayLine::StepFirst { phase: pi, step: si, text },
        Some(k) => DisplayLine::SubFirst { phase: pi, step: si, sub: k, text },
    }
}

fn cont_row(sub: Option<usize>, text: String) -> (d: DisplayLine)
    ensures
        d@ == match sub {
            None => DisplayModel::StepCont(text@),
            Some(_) => DisplayModel::SubCont(text@),
        },
{
    match sub {
        None => DisplayLine::StepCont(text),
        Some(_) => DisplayLine::SubCont(text),
    }
}

fn push_rows(
    out: &mut Vec<DisplayLine>,
    pi: usize,
    si: usize,
    sub: Option<usize>,
    lines: &Vec<String>,
)
    ensures
        display_views(final(out)@) == display_views(old(out)@) + line_rows(
            pi as nat,
            si as nat,
            sub,
            string_views(lines@),
        ),
{
    let ghost ls = string_views(lines@);
    if lines.len() == 0 {
        assert(display_views(out@) =~= display_views(out@) + line_rows(
            pi as nat,
            si as nat,
            sub,
            ls,
        ));
        return;
    }
    let ghost start = display_views(out@);
    let ghost conts = match sub {
        None => cont_rows(ls.drop_first()),
        Some(_) => sub_cont_rows(ls.drop_first()),
    };
    let head = first_row(pi, si, sub, lines[0].clone());
    let ghost first = head@;
    out.push(head);
    assert(display_views(out@) =~= start + seq![first]);
    let mut l: usize = 1;
    while l < lines.len()
        invariant
            1 <= l <= lines@.len(),
            ls == string_views(lines@),
            conts == match sub {
                None => cont_rows(ls.drop_first()),
                Some(_) => sub_cont_rows(ls.drop_first()),
            },
            first == match sub {
                None => DisplayModel::StepFirst { phase: pi as nat, step: si as nat, text: ls[0] },
                Some(k) => DisplayModel::SubFirst {
                    phase: pi as nat,
                    step: si as nat,
                    sub: k as nat,
                    text: ls[0],
                },
            },
            display_views(out@) == start + seq![first] + conts.take(l - 1),
        decreases lines.len() - l,
    {
        let ghost before = display_views(out@);
        let row = cont_row(sub, lines[l].clone());
        assert(row@ == conts[l - 1]);
        out.push(row);
        assert(conts.take(l as int) =~= conts.take(l - 1).push(conts[l - 1]));
        assert(display_views(out@) =~= before.push(row@));
        l = l + 1;
    }
    assert(conts.take(l - 1) =~= conts);
    assert(line_rows(pi as nat, si as nat, sub, ls) =~= seq![first] + conts);
}

/// Appends the rows of one step and its sub-tasks.
fn push_step(out: &mut Vec<DisplayLine>, pi: usize, si: usize, step: &Step, width: usize)
    ensures
        display_views(final(out)@) == display_views(old(out)@) + step_rows(
            pi as nat,
            si as nat,
            step@,
            width as nat,
        ),
{
    let ghost start = display_views(out@);
    let ghost sv = step@;
    let text = item_text_chars(&step.bold_name, &step.description);
    let lines = wrap_chars(text.as_slice(), width);
    push_rows(out, pi, si, None, &lines);
    let ghost own = step_line_rows(pi as nat, si as nat, wrapped(step_text(sv), width as nat));
    let sub_w = width.saturating_sub(2);
    let mut k: usize = 0;
    assert(sv.subtasks.take(0) =~= Seq::<SubTaskModel>::empty());
    assert(display_views(out@) =~= start + own + subtasks_rows(
        pi as nat,
        si as nat,
        sv.subtasks.take(0),
        width as nat,
    ));
    while k < step.subtasks.len()
        invariant
            k <= step.subtasks@.len(),
            sv == step@,
            sub_w == subtask_width(width as nat),
            display_views(out@) == start + own + subtasks_rows(
                pi as nat,
                si as nat,
                sv.subtasks.take(k as int),
                width as nat,
            ),
        decreases step.subtasks.len() - k,
    {
        let t = &step.subtasks[k];
        assert(sv.subtasks[k as int] == t@);
        let text = item_text_chars(&t.bold_name, &t.description);
        let lines = wrap_chars(text.as_slice(), sub_w);
        push_rows(out, pi, si, Some(k), &lines);
        assert(sv.subtasks.take(k + 1).drop_last() =~= sv.subtasks.take(k as int));
        assert(display_views(out@) =~= start + own + subtasks_rows(
            pi as nat,
            si as nat,
            sv.subtasks.take(k + 1),
            width as nat,
        ));
        k = k + 1;
    }
    assert(sv.subtasks.take(k as int) =~= sv.subtasks);
}

/// The rows that `phases` take in a terminal `cols` columns wide.
pub fn collect_display_lines(phases: &Vec<Phase>, cols: u16) -> (r: Vec<DisplayLine>)
    ensures
        display_views(r@) == phases_rows(phase_views(phases@), content_width(cols)),
{
    let width = (cols as usize).saturating_sub(4);
    let ghost ps = phase_views(phases@);
    let mut out: Vec<DisplayLine> = Vec::new();
    let mut i: usize = 0;
    assert(ps.take(0) =~= Seq::<PhaseModel>::empty());
    assert(display_views(out@) =~= Seq::<DisplayModel>::empty());
    while i < phases.len()
        invariant
            i <= phases@.len(),
            width == content_width(cols),
            ps == phase_views(phases@),
            display_views(out@) == phases_rows(ps.take(i as int), width as nat),
        decreases phases.len() - i,
    {
        let phase = &phases[i];
        let ghost pm = phase@;
        assert(ps[i as int] == pm);
        let ghost base = display_views(out@);
        let ghost header = if pm.name.len() == 0 {
            Seq::<DisplayModel>::empty()
        } else {
            seq![DisplayModel::Phase(pm.name)]
        };
        if !phase.name.as_str().is_empty() {
            out.push(DisplayLine::Phase(phase.name.clone()));
        }
        assert(display_views(out@) =~= base + header);
        let mut j: usize = 0;
        assert(pm.steps.take(0) =~= Seq::<StepModel>::empty());
        while j < phase.steps.len()
            invariant
                j <= phase.steps@.len(),
                pm == phase@,
                width == content_width(cols),
                display_views(out@) == base + header + steps_rows(
                    i as nat,
                    pm.steps.take(j as int),
                    width as nat,
                ),
            decreases phase.steps.len() - j,
        {
            let step = &phase.steps[j];
            assert(pm.steps[j as int] == step@);
            push_step(&mut out, i, j, step, width);
            assert(pm.steps.take(j + 1).drop_last() =~= pm.steps.take(j as int));
            assert(display_views(out@) =~= base + header + steps_rows(
                i as nat,
                pm.steps.take(j + 1),
                width as nat,
            ));
            j = j + 1;
        }
        assert(pm.steps.take(j as int) =~= pm.steps);
        assert(ps.take(i + 1).drop_last() =~= ps.take(i as int));
        assert(display_views(out@) =~= phases_rows(ps.take(i + 1), width as nat));
        i = i + 1;
    }
    assert(ps.take(i as int) =~= ps);
    out
}

// ---------------------------------------------------------------------------
// Styles
// ---------------------------------------------------------------------------

/// The colours the views use.
#[derive(Debug, Clone, Copy, PartialEq, Eq, Structural)]
pub enum Tint {
    Cyan,
    Green,
    Yellow,
    White,
    Blue,
    DarkGrey,
    Red,
}

/// How a step's marker is drawn.
#[derive(Debug, Clone, Copy, PartialEq, Eq, Structural)]
pub struct MarkerStyle {
    pub symbol: char,
    pub tint: Tint,
    pub bold: bool,
}

/// The symbol, colour and weight of each marker.
pub open spec fn marker_style_of(m: Marker) -> MarkerStyle {
    match m {
        Marker::Todo => MarkerStyle { symbol: '\u{25cb}', tint: Tint::DarkGrey, bold: false },
        Marker::InProgress => MarkerStyle { symbol: '\u{25d0}', tint: Tint::Yellow, bold: false },
        Marker::Done => MarkerStyle { symbol: '\u{2713}', tint: Tint::Green, bold: false },
        Marker::Failed => MarkerStyle { symbol: '\u{2717}', tint: Tint::Red, bold: true },
        Marker::Skipped => MarkerStyle { symbol: '\u{2013}', tint: Tint::DarkGrey, bold: false },
    }
}

pub fn marker_style(m: Marker) -> (s: MarkerStyle)
    ensures
        s == marker_style_of(m),
{
    match m {
        Marker::Todo => MarkerStyle { symbol: '\u{25cb}', tint: Tint::DarkGrey, bold: false },
        Marker::InProgress => MarkerStyle { symbol: '\u{25d0}', tint: Tint::Yellow, bold: false },
        Marker::Done => MarkerStyle { symbol: '\u{2713}', tint: Tint::Green, bold: false },
        Marker::Failed => MarkerStyle { symbol: '\u{2717}', tint: Tint::Red, bold: true },
        Marker::Skipped => MarkerStyle { symbol: '\u{2013}', tint: Tint::DarkGrey, bold: false },
    }
}

/// How a sub-task's marker is drawn: as a step's, except that a pending
/// sub-task shows a middle dot.
pub open spec fn subtask_style_of(m: Marker) -> MarkerStyle {
    match m {
        Marker::Todo => MarkerStyle { symbol: '\u{b7}', tint: Tint::DarkGrey, bold: false },
        _ => marker_style_of(m),
    }
}

pub fn subtask_style(m: Marker) -> (s: MarkerStyle)
    ensures
        s == subtask_style_of(m),
{
    match m {
        Marker::Todo => MarkerStyle { symbol: '\u{b7}', tint: Tint::DarkGrey, bold: false },
        _ => marker_style(m),
    }
}

/// The colour of the progress bar: green when every step is done, yellow
/// when some are, white otherwise.
pub fn bar_tint(done: u32, total: u32) -> (t: Tint)
    ensures
        t == if total > 0 && done == total {
            Tint::Green
        } else if done > 0 {
            Tint::Yellow
        } else {
            Tint::White
        },
{
    if total > 0 && done == total {
        Tint::Green
    } else if done > 0 {
        Tint::Yellow
    } else {
        Tint::White
    }
}

/// The first row of a step, split into the part drawn in bold (the step's
/// name) and the rest.
#[derive(Debug)]
pub enum FirstLine {
    Plain(String),
    Bold(String),
    Split { bold: String, plain: String },
}

pub enum FirstLineModel {
    Plain(Seq<char>),
    Bold(Seq<char>),
    Split { bold: Seq<char>, plain: Seq<char> },
}

impl View for FirstLine {
    type V = FirstLineModel;

    open spec fn view(&self) -> FirstLineModel {
        match self {
            FirstLine::Plain(s) => FirstLineModel::Plain(s@),
            FirstLine::Bold(s) => FirstLineModel::Bold(s@),
            FirstLine::Split { bold, plain } => FirstLineModel::Split {
                bold: bold@,
                plain: plain@,
            },
        }
    }
}

/// Without a name the line is plain; a line no longer than the name is all
/// bold; otherwise its first name-length characters are bold.
pub open spec fn first_line_model(line: Seq<char>, name: Option<Seq<char>>) -> FirstLineModel {
    match name {
        None => FirstLineModel::Plain(line),
        Some(n) => if line.len() <= n.len() {
            FirstLineModel::Bold(line)
        } else {
            FirstLineModel::Split { bold: line.take(n.len() as int), plain: line.skip(n.len() as int) }
        },
    }
}

pub fn first_line_parts(line: &str, bold_name: Option<&str>) -> (r: FirstLine)
    ensures
        r@ == first_line_model(line@, crate::parser::opt_chars(bold_name)),
{
    let chars = chars_of(line);
    match bold_name {
        None => FirstLine::Plain(string_of(chars.as_slice())),
        Some(name) => {
            let name_chars = chars_of(name).len();
            if chars.len() <= name_chars {
                FirstLine::Bold(string_of(chars.as_slice()))
            } else {
                let bold = slice_subrange(chars.as_slice(), 0, name_chars);
                let plain = slice_subrange(chars.as_slice(), name_chars, chars.len());
                FirstLine::Split { bold: string_of(bold), plain: string_of(plain) }
            }
        },
    }
}

// ---------------------------------------------------------------------------
// Scrolling
// ---------------------------------------------------------------------------

/// The keys the watch view reacts to.
#[derive(Debug, Clone, Copy, PartialEq, Eq, Structural)]
pub enum WatchKey {
    Quit,
    Up,
    Down,
    Other,
}

/// The scroll offset after a key, or `None` when the key leaves the view:
/// up and down move by one row, stopping at the ends of `usize`.
pub open spec fn scroll_after(scroll: usize, key: WatchKey) -> Option<usize> {
    match key {
        WatchKey::Quit => None,
        WatchKey::Up => Some(if scroll > 0 {
            (scroll - 1) as usize
        } else {
            0
        }),
        WatchKey::Down => Some(if scroll < usize::MAX {
            (scroll + 1) as usize
        } else {
            usize::MAX
        }),
        WatchKey::Other => Some(scroll),
    }
}

/// Down then up, or up then down away from the top, comes back to the same
/// scroll offset (short of the largest `usize`).
pub proof fn lemma_scroll_round_trip(scroll: usize)
    ensures
        scroll < usize::MAX ==> scroll_after(scroll_after(scroll, WatchKey::Down).unwrap(), WatchKey::Up)
            == Some(scroll),
        scroll > 0 ==> scroll_after(scroll_after(scroll, WatchKey::Up).unwrap(), WatchKey::Down)
            == Some(scroll),
{
}

/// The scroll offset after a key, or `None` when the key leaves the view.
pub fn scroll_after_key(scroll: usize, key: WatchKey) -> (r: Option<usize>)
    ensures
        r == scroll_after(scroll, key),
{
    match key {
        WatchKey::Quit => None,
        WatchKey::Up => Some(scroll.saturating_sub(1)),
        WatchKey::Down => Some(scroll.saturating_add(1)),
        WatchKey::Other => Some(scroll),
    }
}

/// Which rows of the plan are on screen.
#[derive(Debug, Clone, Copy)]
pub struct ViewState {
    pub scroll: usize,
    pub visible: usize,
    pub total: usize,
}

impl ViewState {
    /// The offset never passes the point where the last row is at the bottom.
    pub open spec fn wf(&self) -> bool {
        self.scroll <= if self.total >= self.visible {
            self.total - self.visible
        } else {
            0
        }
    }
}

/// Five rows go to the title, bar, rules and footer; the rest show the plan,
/// from `scroll` on, where `scroll` is pulled back so that the view is not
/// scrolled past its last row.
pub fn view_state(scroll: usize, rows: u16, total: usize) -> (v: ViewState)
    ensures
        v.visible == if rows >= 5 {
            (rows - 5) as usize
        } else {
            0
        },
        v.total == total,
        v.scroll == if scroll <= (if total >= v.visible {
            (total - v.visible) as usize
        } else {
            0
        }) {
            scroll
        } else {
            (if total >= v.visible {
                (total - v.visible) as usize
            } else {
                0
            })
        },
        v.wf(),
{
    let visible = (rows as usize).saturating_sub(5);
    let limit = total.saturating_sub(visible);
    let scroll = if scroll <= limit {
        scroll
    } else {
        limit
    };
    ViewState { scroll, visible, total }
}

/// The range of rows on screen: from the offset, `visible` rows, cut at the
/// end of the plan.
pub fn visible_range(v: &ViewState) -> (r: (usize, usize))
    requires
        v.scroll <= v.total,
    ensures
        r.0 == v.scroll,
        r.1 == if v.scroll + v.visible <= v.total {
            v.scroll + v.visible
        } else {
            v.total as int
        },
        r.0 <= r.1 <= v.total,
        r.1 - r.0 <= v.visible,
{
    let end = if v.visible <= v.total - v.scroll {
        v.scroll + v.visible
    } else {
        v.total
    };
    (v.scroll, end)
}

/// Whether the watched plan is read again: its modification time changed
/// (including appearing or disappearing).
pub fn should_reload(last: Option<i128>, current: Option<i128>) -> (b: bool)
    ensures
        b == (last != current),
{
    match (last, current) {
        (Some(a), Some(b)) => a != b,
        (None, None) => false,
        _ => true,
    }
}

/// The plan after reading it again: the new one, or the old one where the
/// file could not be read.
pub fn after_reload(old: crate::parser::TodoFile, reread: Option<crate::parser::TodoFile>) -> (f:
    crate::parser::TodoFile)
    ensures
        f == match reread {
            Some(n) => n,
            None => old,
        },
{
    match reread {
        Some(n) => n,
        None => old,
    }
}

// ---------------------------------------------------------------------------
// Header and footer text
// ---------------------------------------------------------------------------

pub open spec fn sat_sub(a: nat, b: nat) -> nat {
    if a >= b {
        (a - b) as nat
    } else {
        0
    }
}

/// Whether the cut that `truncate_path` makes falls on a character boundary.
pub open spec fn path_cut_ok(s: Seq<char>, max: nat) -> bool {
    byte_len(s) > max ==> char_index_of_byte(s, (byte_len(s) - sat_sub(max, 1)) as nat) is Some
}

/// `s` if it takes at most `max` bytes; otherwise `…` followed by the last
/// `max - 1` bytes of `s` (no bytes for a `max` of zero).
pub open spec fn truncated_path(s: Seq<char>, max: nat) -> Seq<char> {
    if byte_len(s) <= max {
        s
    } else {
        let k = char_index_of_byte(s, (byte_len(s) - sat_sub(max, 1)) as nat).unwrap();
        seq!['\u{2026}'] + s.skip(k as int)
    }
}

/// With room for at least one character, a fitted footer takes at most
/// `max` characters, and a cut one keeps the end of the text.
pub proof fn lemma_truncated_path_fits(s: Seq<char>, max: nat)
    requires
        max >= 1,
        path_cut_ok(s, max),
    ensures
        truncated_path(s, max).len() <= max,
        byte_len(s) > max ==> truncated_path(s, max)[0] == '\u{2026}' && truncated_path(
            s,
            max,
        ).drop_first() == s.skip(s.len() - (truncated_path(s, max).len() - 1)),
{
    crate::text::lemma_chars_le_bytes(s);
    if byte_len(s) > max {
        let k = char_index_of_byte(s, (byte_len(s) - sat_sub(max, 1)) as nat).unwrap();
        assert(k <= s.len() && byte_len(s.take(k as int)) == byte_len(s) - (max - 1));
        assert(s =~= s.take(k as int) + s.skip(k as int));
        crate::text::lemma_byte_len_concat(s.take(k as int), s.skip(k as int));
        crate::text::lemma_chars_le_bytes(s.skip(k as int));
        let r = truncated_path(s, max);
        assert(r.drop_first() =~= s.skip(k as int));
    }
}

fn truncate_path_chars(s: &[char], bytes: usize, max: usize) -> (r: String)
    requires
        bytes == byte_len(s@),
        path_cut_ok(s@, max as nat),
    ensures
        r@ == truncated_path(s@, max as nat),
{
    if bytes <= max {
        string_of(s)
    } else {
        let start = bytes - max.saturating_sub(1);
        match char_index_at_byte(s, start) {
            Some(k) => {
                let mut r = String::new();
                r.push('\u{2026}');
                let tail = slice_subrange(s, k, s.len());
                crate::text::push_chars(&mut r, tail);
                assert(r@ =~= seq!['\u{2026}'] + s@.skip(k as int));
                r
            },
            None => {
                assert(false);
                String::new()
            },
        }
    }
}

/// Keeps the end of a long footer: `…` and the last `max - 1` bytes.
pub fn truncate_path(s: &str, max: usize) -> (r: String)
    requires
        path_cut_ok(s@, max as nat),
    ensures
        r@ == truncated_path(s@, max as nat),
{
    let bytes = str_byte_len(s);
    let chars = chars_of(s);
    truncate_path_chars(chars.as_slice(), bytes, max)
}

pub open spec fn scroll_hint() -> Seq<char> {
    seq![' ', ' ', '\u{2191}', '\u{2193}', ' ', 's', 'c', 'r', 'o', 'l', 'l']
}

pub open spec fn footer_separator() -> Seq<char> {
    seq![' ', ' ', '\u{2022}', ' ', ' ']
}

pub open spec fn back_action() -> Seq<char> {
    seq!['q', ' ', 'b', 'a', 'c', 'k', ' ', 't', 'o', ' ', 'l', 'i', 's', 't']
}

pub open spec fn quit_action() -> Seq<char> {
    seq!['q', ' ', 'q', 'u', 'i', 't']
}

/// The footer before it is fitted to the width: the path, a scroll hint when
/// the plan does not fit, and what `q` does.
pub open spec fn footer_model(path: Seq<char>, scrolls: bool, has_list: bool) -> Seq<char> {
    path + (if scrolls {
        scroll_hint()
    } else {
        seq![]
    }) + footer_separator() + if has_list {
        back_action()
    } else {
        quit_action()
    }
}

fn push_literal(out: &mut String, v: Vec<char>)
    ensures
        final(out)@ == old(out)@ + v@,
{
    crate::text::push_chars(out, v.as_slice());
}

fn build_footer(path: &str, scrolls: bool, has_list: bool) -> (s: String)
    ensures
        s@ == footer_model(path@, scrolls, has_list),
{
    let mut footer = String::from_str(path);
    if scrolls {
        push_literal(
            &mut footer,
            vec![' ', ' ', '\u{2191}', '\u{2193}', ' ', 's', 'c', 'r', 'o', 'l', 'l'],
        );
    }
    push_literal(&mut footer, vec![' ', ' ', '\u{2022}', ' ', ' ']);
    if has_list {
        push_literal(
            &mut footer,
            vec!['q', ' ', 'b', 'a', 'c', 'k', ' ', 't', 'o', ' ', 'l', 'i', 's', 't'],
        );
    } else {
        push_literal(&mut footer, vec!['q', ' ', 'q', 'u', 'i', 't']);
    }
    assert(footer@ =~= footer_model(path@, scrolls, has_list));
    footer
}

/// The footer of the watch view, fitted to `cols` columns.
pub fn footer_text(path: &str, total: usize, visible: usize, has_list: bool, cols: u16) -> (r:
    String)
    requires
        path_cut_ok(footer_model(path@, total > visible, has_list), cols as nat),
    ensures
        r@ == truncated_path(footer_model(path@, total > visible, has_list), cols as nat),
{
    let footer = build_footer(path, total > visible, has_list);
    truncate_path(footer.as_str(), cols as usize)
}

/// Whether `footer_text` cuts the footer on a character boundary, as it
/// must.
pub fn footer_ok(path: &str, total: usize, visible: usize, has_list: bool, cols: u16) -> (b: bool)
    ensures
        b == path_cut_ok(footer_model(path@, total > visible, has_list), cols as nat),
{
    let footer = build_footer(path, total > visible, has_list);
    let bytes = str_byte_len(footer.as_str());
    let max = cols as usize;
    if bytes <= max {
        true
    } else {
        let chars = chars_of(footer.as_str());
        char_index_at_byte(chars.as_slice(), bytes - max.saturating_sub(1)).is_some()
    }
}

pub open spec fn steps_complete() -> Seq<char> {
    seq![' ', 's', 't', 'e', 'p', 's', ' ', 'c', 'o', 'm', 'p', 'l', 'e', 't', 'e']
}

/// `" d/t steps complete"`, shown after the progress bar.
pub fn progress_summary(done: u32, total: u32) -> (r: String)
    ensures
        r@ == seq![' '] + crate::text::decimal(done as nat) + seq!['/'] + crate::text::decimal(
            total as nat,
        ) + steps_complete(),
{
    let mut r = String::new();
    r.push(' ');
    crate::text::push_decimal(&mut r, done);
    r.push('/');
    crate::text::push_decimal(&mut r, total);
    let tail = vec![' ', 's', 't', 'e', 'p', 's', ' ', 'c', 'o', 'm', 'p', 'l', 'e', 't', 'e'];
    crate::text::push_chars(&mut r, tail.as_slice());
    assert(tail@ =~= steps_complete());
    r
}

} // verus!
