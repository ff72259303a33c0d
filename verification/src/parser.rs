//! The `.todo.md` plan format: markers, steps, phases and whole files.
//!
//! A plan is read line by line. `# Plan:` names it, `## Progress: d/t`
//! overrides the counted progress, `## ` opens a phase and `- [m] text` is a
//! step with marker `m`. Steps before the first phase go into an unnamed one.
use std::path::PathBuf;
use vstd::prelude::*;
use vstd::slice::slice_subrange;
use crate::text::{
    char_index_at_byte, char_index_of_byte, chars_of, decimal, ends_with, find, find_chars,
    find_from, is_digit, is_ws, lemma_decimal_digits, lemma_parse_decimal, lines, next_line,
    occurs_at, parse_u32, parse_u32_chars, split_once, split_once_chars, starts_with,
    starts_with_chars, string_of, trim, trim_chars, trim_start,
};

verus! {

/// std's `PathBuf`, carried through as an opaque value.
#[verifier::external_type_specification]
#[verifier::external_body]
pub struct ExPathBuf(PathBuf);

/// std's `PathBuf::clone`, called by the derived `Clone` of `TodoFile`;
/// nothing is stated of the copy it returns.
pub assume_specification[ <PathBuf as Clone>::clone ](p: &PathBuf) -> PathBuf;

/// The state of a step, written between the brackets of `- [ ]`.
#[derive(Debug, Clone, Copy, PartialEq, Eq, Structural)]
pub enum Marker {
    Todo,
    InProgress,
    Done,
    Failed,
    Skipped,
}

/// One step of a plan: `- [x] **Name** — description`, with the sub-tasks
/// indented under it.
#[derive(Debug, Clone)]
pub struct Step {
    pub marker: Marker,
    pub bold_name: Option<String>,
    pub description: String,
    pub subtasks: Vec<SubTask>,
}

/// A sub-task: a list item indented under a step, `  - [x] text`. It takes
/// the same markers and the same name and description as a step.
#[derive(Debug, Clone)]
pub struct SubTask {
    pub marker: Marker,
    pub bold_name: Option<String>,
    pub description: String,
}

/// A `## ` section of a plan with its steps.
#[derive(Debug, Clone)]
pub struct Phase {
    pub name: String,
    pub steps: Vec<Step>,
}

/// A parsed plan file.
#[derive(Debug, Clone)]
pub struct TodoFile {
    pub path: PathBuf,
    pub title: String,
    pub done: u32,
    pub total: u32,
    pub phases: Vec<Phase>,
    /// Last modification time in nanoseconds since the Unix epoch
    /// (negative before it), if the file system reported one.
    pub modified: Option<i128>,
}

/// What a `Step` says, with its strings as character sequences.
pub struct StepModel {
    pub marker: Marker,
    pub bold_name: Option<Seq<char>>,
    pub description: Seq<char>,
    pub subtasks: Seq<SubTaskModel>,
}

/// What a `SubTask` says, or the marker, name and description of any
/// list item.
pub struct SubTaskModel {
    pub marker: Marker,
    pub bold_name: Option<Seq<char>>,
    pub description: Seq<char>,
}

/// What a `Phase` says.
pub struct PhaseModel {
    pub name: Seq<char>,
    pub steps: Seq<StepModel>,
}

/// What a `TodoFile` says, apart from its path.
pub struct TodoModel {
    pub title: Seq<char>,
    pub done: u32,
    pub total: u32,
    pub phases: Seq<PhaseModel>,
    pub modified: Option<i128>,
}

/// The characters of an optional string.
pub open spec fn opt_chars(o: Option<&str>) -> Option<Seq<char>> {
    match o {
        Some(s) => Some(s@),
        None => None,
    }
}

pub open spec fn opt_string(o: Option<String>) -> Option<Seq<char>> {
    match o {
        Some(s) => Some(s@),
        None => None,
    }
}

impl View for Step {
    type V = StepModel;

    open spec fn view(&self) -> StepModel {
        StepModel {
            marker: self.marker,
            bold_name: opt_string(self.bold_name),
            description: self.description@,
            subtasks: self.subtasks@.map_values(|t: SubTask| t@),
        }
    }
}

impl View for SubTask {
    type V = SubTaskModel;

    open spec fn view(&self) -> SubTaskModel {
        SubTaskModel {
            marker: self.marker,
            bold_name: opt_string(self.bold_name),
            description: self.description@,
        }
    }
}

impl View for Phase {
    type V = PhaseModel;

    open spec fn view(&self) -> PhaseModel {
        PhaseModel { name: self.name@, steps: self.steps@.map_values(|s: Step| s@) }
    }
}

/// The models of a list of phases.
pub open spec fn phase_views(ps: Seq<Phase>) -> Seq<PhaseModel> {
    ps.map_values(|p: Phase| p@)
}

impl View for TodoFile {
    type V = TodoModel;

    open spec fn view(&self) -> TodoModel {
        TodoModel {
            title: self.title@,
            done: self.done,
            total: self.total,
            phases: self.phases@.map_values(|p: Phase| p@),
            modified: self.modified,
        }
    }
}

// ---------------------------------------------------------------------------
// The format, as spec functions
// ---------------------------------------------------------------------------

pub open spec fn plan_tag() -> Seq<char> {
    seq!['#', ' ', 'P', 'l', 'a', 'n', ':']
}

pub open spec fn progress_tag() -> Seq<char> {
    seq!['#', '#', ' ', 'P', 'r', 'o', 'g', 'r', 'e', 's', 's', ':']
}

pub open spec fn phase_tag() -> Seq<char> {
    seq!['#', '#', ' ']
}

pub open spec fn step_tag() -> Seq<char> {
    seq!['-', ' ', '[']
}

pub open spec fn bold_mark() -> Seq<char> {
    seq!['*', '*']
}

/// `" — "`, the separator between a step's name and its description.
pub open spec fn em_dash_sep() -> Seq<char> {
    seq![' ', '\u{2014}', ' ']
}

pub open spec fn hyphen_sep() -> Seq<char> {
    seq![' ', '-', ' ']
}

pub open spec fn todo_suffix() -> Seq<char> {
    seq!['.', 't', 'o', 'd', 'o']
}

pub open spec fn todo_file_suffix() -> Seq<char> {
    seq!['.', 't', 'o', 'd', 'o', '.', 'm', 'd']
}

/// The marker that a character between the brackets stands for.
pub open spec fn marker_for(c: char) -> Marker {
    if c == 'x' || c == 'X' {
        Marker::Done
    } else if c == '~' {
        Marker::InProgress
    } else if c == '!' {
        Marker::Failed
    } else if c == '-' {
        Marker::Skipped
    } else {
        Marker::Todo
    }
}

/// The description that follows a bold name: the part after the first
/// `" — "`, else after the first `" - "`, else all of it.
pub open spec fn description_after_name(rest: Seq<char>) -> Seq<char> {
    match split_once(rest, em_dash_sep()) {
        Some((_, d)) => d,
        None => match split_once(rest, hyphen_sep()) {
            Some((_, d)) => d,
            None => rest,
        },
    }
}

/// The description of a step without a bold name: the part after the first
/// `" — "`, else all of it.
pub open spec fn plain_description(text: Seq<char>) -> Seq<char> {
    match split_once(text, em_dash_sep()) {
        Some((_, d)) => d,
        None => text,
    }
}

/// A list item's text, after the marker: `**Name** — description` or plain
/// text.
pub open spec fn item_model(marker: Marker, text: Seq<char>) -> SubTaskModel {
    if starts_with(text, bold_mark()) && find(text.skip(2), bold_mark()) is Some {
        let after = text.skip(2);
        let close = find(after, bold_mark()).unwrap();
        SubTaskModel {
            marker,
            bold_name: Some(after.take(close as int)),
            description: trim(description_after_name(after.skip(close + 2int))),
        }
    } else {
        SubTaskModel { marker, bold_name: None, description: trim(plain_description(text)) }
    }
}

/// A step without sub-tasks yet.
pub open spec fn step_of_item(i: SubTaskModel) -> StepModel {
    StepModel {
        marker: i.marker,
        bold_name: i.bold_name,
        description: i.description,
        subtasks: seq![],
    }
}

/// A step's text, after the marker.
pub open spec fn step_model(marker: Marker, text: Seq<char>) -> StepModel {
    step_of_item(item_model(marker, text))
}

/// A list item after its `- [`: the marker is its first character, the text
/// starts two bytes further on (empty where that is no character boundary).
pub open spec fn item_line_model(rest: Seq<char>) -> SubTaskModel {
    let c = if rest.len() > 0 {
        rest[0]
    } else {
        ' '
    };
    let text = match char_index_of_byte(rest, 2) {
        Some(k) => rest.skip(k as int),
        None => seq![],
    };
    item_model(marker_for(c), trim(text))
}

pub open spec fn step_line_model(rest: Seq<char>) -> StepModel {
    step_of_item(item_line_model(rest))
}

/// The number of spaces that start `s`.
pub open spec fn leading_spaces(s: Seq<char>) -> nat
    decreases s.len(),
{
    if s.len() > 0 && s[0] == ' ' {
        1 + leading_spaces(s.drop_first())
    } else {
        0
    }
}

/// A sub-task line is a list item indented by one or more spaces; this is
/// what follows its `- [`.
pub open spec fn subtask_rest(line: Seq<char>) -> Option<Seq<char>> {
    let k = leading_spaces(line);
    if k > 0 && starts_with(line.skip(k as int), step_tag()) {
        Some(line.skip(k + 3int))
    } else {
        None
    }
}

/// `d/t` of a `## Progress:` line, both parts trimmed `u32` numbers.
pub open spec fn progress_pair(rest: Seq<char>) -> Option<(u32, u32)> {
    match split_once(rest, seq!['/']) {
        Some((a, b)) => match (parse_u32(trim(a)), parse_u32(trim(b))) {
            (Some(d), Some(t)) => Some((d, t)),
            _ => None,
        },
        None => None,
    }
}

/// What the lines read so far have said.
pub struct ParseState {
    pub title: Option<Seq<char>>,
    pub header: Option<(u32, u32)>,
    pub phases: Seq<PhaseModel>,
    pub done: nat,
    pub total: nat,
}

pub open spec fn initial_state() -> ParseState {
    ParseState { title: None, header: None, phases: seq![], done: 0, total: 0 }
}

/// Adds a step to the last phase, or to a new unnamed phase if there is none.
pub open spec fn add_step(phases: Seq<PhaseModel>, step: StepModel) -> Seq<PhaseModel> {
    if phases.len() > 0 {
        phases.update(
            phases.len() - 1,
            PhaseModel { name: phases.last().name, steps: phases.last().steps.push(step) },
        )
    } else {
        seq![PhaseModel { name: seq![], steps: seq![step] }]
    }
}

/// Adds a sub-task to the last step of the last phase; with no step yet it
/// has nothing to go under and is dropped.
pub open spec fn add_subtask(phases: Seq<PhaseModel>, sub: SubTaskModel) -> Seq<PhaseModel> {
    if phases.len() > 0 && phases.last().steps.len() > 0 {
        let p = phases.last();
        let s = p.steps.last();
        phases.update(
            phases.len() - 1,
            PhaseModel {
                name: p.name,
                steps: p.steps.update(
                    p.steps.len() - 1,
                    StepModel { subtasks: s.subtasks.push(sub), ..s },
                ),
            },
        )
    } else {
        phases
    }
}

/// A sub-task lands under the step read last, the last step of the last
/// phase: that step gains it at the end of its sub-tasks and keeps its
/// marker, name and description, and every other phase and step is
/// unchanged. With no step in the last phase (or no phase) nothing changes.
pub proof fn lemma_subtask_placement(phases: Seq<PhaseModel>, sub: SubTaskModel)
    ensures
        ({
            let r = add_subtask(phases, sub);
            if phases.len() > 0 && phases.last().steps.len() > 0 {
                let p = phases.last();
                let q = r.last();
                let s = p.steps.last();
                let t = q.steps.last();
                &&& r.len() == phases.len()
                &&& forall|i: int| 0 <= i < phases.len() - 1 ==> #[trigger] r[i] == phases[i]
                &&& q.name == p.name
                &&& q.steps.len() == p.steps.len()
                &&& forall|j: int| 0 <= j < p.steps.len() - 1 ==> #[trigger] q.steps[j] == p.steps[j]
                &&& t.marker == s.marker
                &&& t.bold_name == s.bold_name
                &&& t.description == s.description
                &&& t.subtasks == s.subtasks.push(sub)
            } else {
                r == phases
            }
        }),
{
}

pub open spec fn apply_line(st: ParseState, line: Seq<char>) -> ParseState {
    if starts_with(line, plan_tag()) {
        ParseState { title: Some(trim(line.skip(7))), ..st }
    } else if starts_with(line, progress_tag()) {
        match progress_pair(trim(line.skip(12))) {
            Some(p) => ParseState { header: Some(p), ..st },
            None => st,
        }
    } else if starts_with(line, phase_tag()) {
        ParseState {
            phases: st.phases.push(PhaseModel { name: trim(line.skip(3)), steps: seq![] }),
            ..st
        }
    } else if starts_with(line, step_tag()) {
        let step = step_line_model(line.skip(3));
        ParseState {
            phases: add_step(st.phases, step),
            done: if step.marker == Marker::Done {
                st.done + 1
            } else {
                st.done
            },
            total: st.total + 1,
            ..st
        }
    } else {
        match subtask_rest(line) {
            Some(rest) => ParseState {
                phases: add_subtask(st.phases, item_line_model(rest)),
                ..st
            },
            None => st,
        }
    }
}

pub open spec fn parse_lines(ls: Seq<Seq<char>>) -> ParseState
    decreases ls.len(),
{
    if ls.len() == 0 {
        initial_state()
    } else {
        apply_line(parse_lines(ls.drop_last()), ls.last())
    }
}

/// Everything the lines of `content` say, in order.
pub open spec fn parse_text(content: Seq<char>) -> ParseState {
    parse_lines(lines(content))
}

/// The index of the last occurrence of `c`.
pub open spec fn rfind_char(s: Seq<char>, c: char) -> Option<nat>
    decreases s.len(),
{
    if s.len() == 0 {
        None
    } else if s.last() == c {
        Some((s.len() - 1) as nat)
    } else {
        rfind_char(s.drop_last(), c)
    }
}

/// `Path::file_stem` of a file name: the part before the last `.`, unless
/// there is none or the name starts with its only `.`.
pub open spec fn file_stem(name: Seq<char>) -> Seq<char> {
    match rfind_char(name, '.') {
        Some(k) => if k == 0 {
            name
        } else {
            name.take(k as int)
        },
        None => name,
    }
}

/// `str::trim_end_matches` with a non-empty pattern.
pub open spec fn trim_end_matches(s: Seq<char>, p: Seq<char>) -> Seq<char>
    decreases s.len(),
{
    if p.len() > 0 && ends_with(s, p) {
        trim_end_matches(s.take(s.len() - p.len()), p)
    } else {
        s
    }
}

/// The title of a plan without a `# Plan:` line: the file's stem without
/// trailing `.todo`s, or empty where there is no file name.
pub open spec fn fallback_title_of(name: Option<Seq<char>>) -> Seq<char> {
    match name {
        Some(n) => trim_end_matches(file_stem(n), todo_suffix()),
        None => seq![],
    }
}

proof fn lemma_rfind_last(s: Seq<char>, c: char, k: int)
    requires
        0 <= k < s.len(),
        s[k] == c,
        forall|m: int| k < m < s.len() ==> s[m] != c,
    ensures
        rfind_char(s, c) == Some(k as nat),
    decreases s.len(),
{
    if s.last() != c {
        assert(k != s.len() - 1);
        let t = s.drop_last();
        assert forall|m: int| k < m < t.len() implies t[m] != c by {
            assert(t[m] == s[m]);
        }
        lemma_rfind_last(t, c, k);
    }
}

proof fn lemma_rfind_none(s: Seq<char>, c: char)
    requires
        forall|m: int| 0 <= m < s.len() ==> s[m] != c,
    ensures
        rfind_char(s, c) is None,
    decreases s.len(),
{
    if s.len() > 0 {
        let t = s.drop_last();
        assert(s.last() == s[s.len() - 1]);
        assert forall|m: int| 0 <= m < t.len() implies t[m] != c by {
            assert(t[m] == s[m]);
        }
        lemma_rfind_none(t, c);
    }
}

/// A file's stem is what comes before its last `.`; a name without a `.`,
/// or whose only `.` starts it, is its own stem.
pub proof fn lemma_file_stem_last_dot(name: Seq<char>, k: int)
    ensures
        0 < k < name.len() && name[k] == '.' && (forall|m: int| k < m < name.len() ==> name[m]
            != '.') ==> file_stem(name) == name.take(k),
        (forall|m: int| 0 < m < name.len() ==> name[m] != '.') ==> file_stem(name) == name,
{
    if 0 < k < name.len() && name[k] == '.' && (forall|m: int| k < m < name.len() ==> name[m]
        != '.') {
        lemma_rfind_last(name, '.', k);
    }
    if forall|m: int| 0 < m < name.len() ==> name[m] != '.' {
        if name.len() > 0 && name[0] == '.' {
            lemma_rfind_last(name, '.', 0);
        } else {
            lemma_rfind_none(name, '.');
        }
    }
}

/// A plan file named `t.todo.md` without a `# Plan:` line is titled `t`,
/// whatever dots `t` holds, unless `t` itself ends in `.todo`.
pub proof fn lemma_fallback_title_of_plan_file(t: Seq<char>)
    requires
        !ends_with(t, todo_suffix()),
    ensures
        fallback_title_of(Some(t + todo_file_suffix())) == t,
{
    let n = t + todo_file_suffix();
    let k: int = t.len() + 5int;
    assert(n[k] == '.');
    assert forall|m: int| k < m < n.len() implies n[m] != '.' by {
        assert(n[m] == todo_file_suffix()[m - t.len()]);
    }
    lemma_file_stem_last_dot(n, k);
    let st = n.take(k);
    assert(st =~= t + todo_suffix());
    assert(ends_with(st, todo_suffix())) by {
        assert(st.skip(st.len() - 5) =~= todo_suffix());
    }
    assert(st.take(st.len() - 5) =~= t);
    assert(file_stem(n) == st);
    assert(trim_end_matches(t, todo_suffix()) == t);
    assert(trim_end_matches(st, todo_suffix()) == trim_end_matches(st.take(st.len() - 5), todo_suffix()));
}

/// The whole of a parsed plan file.
pub open spec fn todo_model(
    content: Seq<char>,
    file_name: Option<Seq<char>>,
    modified: Option<i128>,
) -> TodoModel {
    let st = parse_text(content);
    TodoModel {
        title: match st.title {
            Some(t) => t,
            None => fallback_title_of(file_name),
        },
        done: match st.header {
            Some(p) => p.0,
            None => st.done as u32,
        },
        total: match st.header {
            Some(p) => p.1,
            None => st.total as u32,
        },
        phases: st.phases,
        modified,
    }
}

// ---------------------------------------------------------------------------
// Reading a plan
// ---------------------------------------------------------------------------

struct Tags {
    plan: Vec<char>,
    progress: Vec<char>,
    phase: Vec<char>,
    step: Vec<char>,
    bold: Vec<char>,
    em_dash: Vec<char>,
    hyphen: Vec<char>,
    slash: Vec<char>,
}

impl Tags {
    spec fn wf(&self) -> bool {
        &&& self.plan@ == plan_tag()
        &&& self.progress@ == progress_tag()
        &&& self.phase@ == phase_tag()
        &&& self.step@ == step_tag()
        &&& self.bold@ == bold_mark()
        &&& self.em_dash@ == em_dash_sep()
        &&& self.hyphen@ == hyphen_sep()
        &&& self.slash@ == seq!['/']
    }

    fn new() -> (t: Tags)
        ensures
            t.wf(),
    {
        let t = Tags {
            plan: vec!['#', ' ', 'P', 'l', 'a', 'n', ':'],
            progress: vec!['#', '#', ' ', 'P', 'r', 'o', 'g', 'r', 'e', 's', 's', ':'],
            phase: vec!['#', '#', ' '],
            step: vec!['-', ' ', '['],
            bold: vec!['*', '*'],
            em_dash: vec![' ', '\u{2014}', ' '],
            hyphen: vec![' ', '-', ' '],
            slash: vec!['/'],
        };
        assert(t.plan@ =~= plan_tag());
        assert(t.progress@ =~= progress_tag());
        assert(t.phase@ =~= phase_tag());
        assert(t.step@ =~= step_tag());
        assert(t.bold@ =~= bold_mark());
        assert(t.em_dash@ =~= em_dash_sep());
        assert(t.hyphen@ =~= hyphen_sep());
        assert(t.slash@ =~= seq!['/']);
        t
    }
}

fn marker_of(c: char) -> (m: Marker)
    ensures
        m == marker_for(c),
{
    if c == 'x' || c == 'X' {
        Marker::Done
    } else if c == '~' {
        Marker::InProgress
    } else if c == '!' {
        Marker::Failed
    } else if c == '-' {
        Marker::Skipped
    } else {
        Marker::Todo
    }
}

fn item_from_chars(marker: Marker, text: &[char], tags: &Tags) -> (s: SubTask)
    requires
        tags.wf(),
    ensures
        s@ == item_model(marker, text@),
{
    if starts_with_chars(text, tags.bold.as_slice()) {
        let after = slice_subrange(text, 2, text.len());
        assert(after@ =~= text@.skip(2));
        if let Some(close) = find_chars(after, tags.bold.as_slice()) {
            proof {
                crate::text::lemma_find_in_range(after@, bold_mark(), 0);
            }
            let name = slice_subrange(after, 0, close);
            let rest = slice_subrange(after, close + 2, after.len());
            assert(rest@ =~= after@.skip(close + 2));
            let desc = match split_once_chars(rest, tags.em_dash.as_slice()) {
                Some((_, d)) => d,
                None => match split_once_chars(rest, tags.hyphen.as_slice()) {
                    Some((_, d)) => d,
                    None => rest,
                },
            };
            return SubTask {
                marker,
                bold_name: Some(string_of(name)),
                description: string_of(trim_chars(desc)),
            };
        }
    }
    let desc = match split_once_chars(text, tags.em_dash.as_slice()) {
        Some((_, d)) => d,
        None => text,
    };
    SubTask { marker, bold_name: None, description: string_of(trim_chars(desc)) }
}

fn step_of(item: SubTask) -> (s: Step)
    ensures
        s@ == step_of_item(item@),
{
    let s = Step {
        marker: item.marker,
        bold_name: item.bold_name,
        description: item.description,
        subtasks: Vec::new(),
    };
    assert(s.subtasks@.map_values(|t: SubTask| t@) =~= Seq::<SubTaskModel>::empty());
    s
}

/// Reads a list item after its `- [`.
fn item_after_bracket(rest: &[char], tags: &Tags) -> (s: SubTask)
    requires
        tags.wf(),
    ensures
        s@ == item_line_model(rest@),
{
    let c = if rest.len() > 0 {
        rest[0]
    } else {
        ' '
    };
    let text = match char_index_at_byte(rest, 2) {
        Some(k) => slice_subrange(rest, k, rest.len()),
        None => slice_subrange(rest, 0, 0),
    };
    assert(text@ =~= match char_index_of_byte(rest@, 2) {
        Some(k) => rest@.skip(k as int),
        None => seq![],
    });
    item_from_chars(marker_of(c), trim_chars(text), tags)
}

/// The part of a sub-task line after its `- [`, if it is one.
fn subtask_after_bracket<'a>(line: &'a [char], tags: &Tags) -> (r: Option<&'a [char]>)
    requires
        tags.wf(),
    ensures
        match r {
            Some(rest) => subtask_rest(line@) == Some(rest@),
            None => subtask_rest(line@) is None,
        },
{
    let mut k: usize = 0;
    assert(line@.skip(0) =~= line@);
    while k < line.len() && line[k] == ' '
        invariant
            k <= line@.len(),
            leading_spaces(line@) == k + leading_spaces(line@.skip(k as int)),
        decreases line.len() - k,
    {
        assert(line@.skip(k as int).drop_first() =~= line@.skip(k + 1));
        k = k + 1;
    }
    assert(leading_spaces(line@.skip(k as int)) == 0);
    if k == 0 {
        return None;
    }
    let after = slice_subrange(line, k, line.len());
    assert(after@ =~= line@.skip(k as int));
    if starts_with_chars(after, tags.step.as_slice()) {
        let rest = slice_subrange(line, k + 3, line.len());
        assert(rest@ =~= line@.skip(k + 3));
        Some(rest)
    } else {
        None
    }
}

/// Splits a step's text into its bold name and description.
pub fn parse_step_text(marker: Marker, text: &str) -> (s: Step)
    ensures
        s@ == step_model(marker, text@),
{
    let tags = Tags::new();
    let chars = chars_of(text);
    step_of(item_from_chars(marker, chars.as_slice(), &tags))
}

/// The reading state of a plan: what `ParseState` describes.
struct Scan<'a> {
    title: Option<&'a [char]>,
    header: Option<(u32, u32)>,
    finished: Vec<Phase>,
    cur_open: bool,
    cur_name: String,
    cur_steps: Vec<Step>,
    done: u32,
    total: u32,
}

impl<'a> Scan<'a> {
    spec fn phases_model(&self) -> Seq<PhaseModel> {
        self.finished@.map_values(|p: Phase| p@) + if self.cur_open {
            seq![
                PhaseModel {
                    name: self.cur_name@,
                    steps: self.cur_steps@.map_values(|s: Step| s@),
                },
            ]
        } else {
            seq![]
        }
    }

    spec fn model(&self) -> ParseState {
        ParseState {
            title: match self.title {
                Some(t) => Some(t@),
                None => None,
            },
            header: self.header,
            phases: self.phases_model(),
            done: self.done as nat,
            total: self.total as nat,
        }
    }

    spec fn inv(&self) -> bool {
        &&& !self.cur_open ==> self.finished@.len() == 0
        &&& self.done <= self.total
    }

    fn new() -> (s: Scan<'a>)
        ensures
            s.inv(),
            s.model() == initial_state(),
    {
        let s = Scan {
            title: None,
            header: None,
            finished: Vec::new(),
            cur_open: false,
            cur_name: String::new(),
            cur_steps: Vec::new(),
            done: 0,
            total: 0,
        };
        assert(s.phases_model() =~= Seq::<PhaseModel>::empty());
        s
    }

    fn open_phase(&mut self, name: String)
        requires
            old(self).inv(),
        ensures
            final(self).inv(),
            final(self).model() == (ParseState {
                phases: old(self).model().phases.push(PhaseModel { name: name@, steps: seq![] }),
                ..old(self).model()
            }),
    {
        let ghost before = self.phases_model();
        if self.cur_open {
            let mut cur_name = String::new();
            std::mem::swap(&mut cur_name, &mut self.cur_name);
            let mut cur_steps: Vec<Step> = Vec::new();
            std::mem::swap(&mut cur_steps, &mut self.cur_steps);
            let p = Phase { name: cur_name, steps: cur_steps };
            self.finished.push(p);
        }
        self.cur_name = name;
        self.cur_steps = Vec::new();
        self.cur_open = true;
        assert(self.cur_steps@.map_values(|s: Step| s@) =~= Seq::<StepModel>::empty());
        assert(self.phases_model() =~= before.push(PhaseModel { name: name@, steps: seq![] }));
    }

    fn add_step(&mut self, step: Step)
        requires
            old(self).inv(),
            old(self).total < u32::MAX,
        ensures
            final(self).inv(),
            final(self).model() == (ParseState {
                phases: add_step(old(self).model().phases, step@),
                done: if step@.marker == Marker::Done {
                    old(self).model().done + 1
                } else {
                    old(self).model().done
                },
                total: old(self).model().total + 1,
                ..old(self).model()
            }),
    {
        let ghost before = self.phases_model();
        let ghost sv = step@;
        let is_done = match step.marker {
            Marker::Done => true,
            _ => false,
        };
        if is_done {
            self.done = self.done + 1;
        }
        self.total = self.total + 1;
        if self.cur_open {
            let ghost old_steps = self.cur_steps@;
            self.cur_steps.push(step);
            assert(self.cur_steps@.map_values(|s: Step| s@) =~= old_steps.map_values(
                |s: Step| s@,
            ).push(sv));
            assert(self.phases_model() =~= add_step(before, sv));
        } else {
            self.cur_open = true;
            self.cur_name = String::new();
            let mut steps = Vec::new();
            steps.push(step);
            self.cur_steps = steps;
            assert(self.cur_steps@.map_values(|s: Step| s@) =~= seq![sv]);
            assert(self.finished@.map_values(|p: Phase| p@) =~= Seq::<PhaseModel>::empty());
            assert(self.phases_model() =~= add_step(before, sv));
        }
    }

    fn add_subtask(&mut self, sub: SubTask)
        requires
            old(self).inv(),
        ensures
            final(self).inv(),
            final(self).model() == (ParseState {
                phases: add_subtask(old(self).model().phases, sub@),
                ..old(self).model()
            }),
    {
        let ghost before = self.phases_model();
        let ghost subv = sub@;
        if self.cur_open && self.cur_steps.len() > 0 {
            let ghost old_steps = self.cur_steps@;
            let mut last = self.cur_steps.pop().unwrap();
            let ghost lv = last@;
            let ghost old_subs = last.subtasks@;
            last.subtasks.push(sub);
            assert(last.subtasks@.map_values(|t: SubTask| t@) =~= old_subs.map_values(
                |t: SubTask| t@,
            ).push(subv));
            assert(last@ == StepModel { subtasks: lv.subtasks.push(subv), ..lv });
            self.cur_steps.push(last);
            assert(self.cur_steps@.map_values(|s: Step| s@) =~= old_steps.map_values(
                |s: Step| s@,
            ).update(old_steps.len() - 1, last@));
            assert(self.phases_model() =~= add_subtask(before, subv));
        } else {
            assert(self.phases_model() =~= add_subtask(before, subv));
        }
    }

    fn apply(&mut self, line: &'a [char], tags: &Tags)
        requires
            old(self).inv(),
            tags.wf(),
            apply_line(old(self).model(), line@).total <= u32::MAX,
        ensures
            final(self).inv(),
            final(self).model() == apply_line(old(self).model(), line@),
    {
        if starts_with_chars(line, tags.plan.as_slice()) {
            let rest = slice_subrange(line, 7, line.len());
            assert(rest@ =~= line@.skip(7));
            self.title = Some(trim_chars(rest));
        } else if starts_with_chars(line, tags.progress.as_slice()) {
            let rest = slice_subrange(line, 12, line.len());
            assert(rest@ =~= line@.skip(12));
            let rest = trim_chars(rest);
            if let Some((a, b)) = split_once_chars(rest, tags.slash.as_slice()) {
                let d = parse_u32_chars(trim_chars(a));
                let t = parse_u32_chars(trim_chars(b));
                if let (Some(d), Some(t)) = (d, t) {
                    self.header = Some((d, t));
                }
            }
        } else if starts_with_chars(line, tags.phase.as_slice()) {
            let rest = slice_subrange(line, 3, line.len());
            assert(rest@ =~= line@.skip(3));
            let name = string_of(trim_chars(rest));
            self.open_phase(name);
        } else if starts_with_chars(line, tags.step.as_slice()) {
            let rest = slice_subrange(line, 3, line.len());
            assert(rest@ =~= line@.skip(3));
            let step = step_of(item_after_bracket(rest, tags));
            self.add_step(step);
        } else if let Some(rest) = subtask_after_bracket(line, tags) {
            let sub = item_after_bracket(rest, tags);
            self.add_subtask(sub);
        }
    }

    fn finish(self) -> (phases: Vec<Phase>)
        requires
            self.inv(),
        ensures
            phases@.map_values(|p: Phase| p@) == self.model().phases,
    {
        let ghost m = self.phases_model();
        let mut finished = self.finished;
        if self.cur_open {
            finished.push(Phase { name: self.cur_name, steps: self.cur_steps });
        }
        assert(finished@.map_values(|p: Phase| p@) =~= m);
        finished
    }
}

/// Every line adds at most one step, so counts only grow along the lines.
proof fn lemma_total_grows(ls: Seq<Seq<char>>, i: int)
    requires
        0 <= i <= ls.len(),
    ensures
        parse_lines(ls.take(i)).total <= parse_lines(ls).total,
    decreases ls.len() - i,
{
    if i < ls.len() {
        lemma_total_grows(ls, i + 1);
        assert(ls.take(i + 1).drop_last() =~= ls.take(i));
    } else {
        assert(ls.take(i) =~= ls);
    }
}

/// The number of step lines (`- [`) in `content`, saturating at `usize::MAX`.
pub fn step_count(content: &str) -> (n: usize)
    ensures
        n == if parse_text(content@).total <= usize::MAX {
            parse_text(content@).total
        } else {
            usize::MAX as nat
        },
{
    let chars = chars_of(content);
    let s = chars.as_slice();
    let step = vec!['-', ' ', '['];
    let ghost ls = lines(s@);
    let mut pos: usize = 0;
    let mut count: usize = 0;
    let ghost mut k: int = 0;
    assert(s@.skip(0) =~= s@);
    assert(ls.take(0) =~= Seq::<Seq<char>>::empty());
    while pos < s.len()
        invariant
            pos <= s@.len(),
            step@ == step_tag(),
            ls == lines(s@),
            0 <= k <= ls.len(),
            lines(s@.skip(pos as int)) == ls.skip(k),
            count == if parse_lines(ls.take(k)).total <= usize::MAX {
                parse_lines(ls.take(k)).total
            } else {
                usize::MAX as nat
            },
        decreases s.len() - pos,
    {
        let (line, next) = next_line(s, pos);
        proof {
            assert(ls.skip(k).len() > 0);
            assert(ls[k] == line@) by {
                assert(ls.skip(k)[0] == ls[k]);
            }
            assert(ls.take(k + 1).drop_last() =~= ls.take(k));
            assert(ls.skip(k + 1) =~= ls.skip(k).drop_first());
        }
        if starts_with_chars(line, step.as_slice()) {
            count = count.saturating_add(1);
        }
        pos = next;
        proof {
            k = k + 1;
        }
    }
    proof {
        assert(s@.skip(s@.len() as int) =~= Seq::<char>::empty());
        assert(ls.take(k) =~= ls);
    }
    count
}

/// Reads a plan from its text. `file_name` gives the title where the text
/// has no `# Plan:` line.
pub fn parse_todo(
    path: PathBuf,
    file_name: Option<&str>,
    content: &str,
    modified: Option<i128>,
) -> (f: TodoFile)
    requires
        parse_text(content@).total <= u32::MAX,
    ensures
        f.path == path,
        f@ == todo_model(content@, opt_chars(file_name), modified),
{
    let tags = Tags::new();
    let chars = chars_of(content);
    let s = chars.as_slice();
    let ghost ls = lines(s@);
    let mut scan = Scan::new();
    let mut pos: usize = 0;
    let ghost mut k: int = 0;
    assert(s@.skip(0) =~= s@);
    assert(ls.take(0) =~= Seq::<Seq<char>>::empty());
    while pos < s.len()
        invariant
            pos <= s@.len(),
            tags.wf(),
            ls == lines(s@),
            parse_lines(ls).total <= u32::MAX,
            0 <= k <= ls.len(),
            lines(s@.skip(pos as int)) == ls.skip(k),
            scan.inv(),
            scan.model() == parse_lines(ls.take(k)),
        decreases s.len() - pos,
    {
        let (line, next) = next_line(s, pos);
        proof {
            assert(ls.skip(k).len() > 0);
            assert(ls[k] == line@) by {
                assert(ls.skip(k)[0] == ls[k]);
            }
            assert(ls.take(k + 1).drop_last() =~= ls.take(k));
            assert(ls.skip(k + 1) =~= ls.skip(k).drop_first());
            lemma_total_grows(ls, k + 1);
        }
        scan.apply(line, &tags);
        pos = next;
        proof {
            k = k + 1;
        }
    }
    proof {
        assert(s@.skip(s@.len() as int) =~= Seq::<char>::empty());
        assert(ls.take(k) =~= ls);
    }
    let title = match scan.title {
        Some(t) => string_of(t),
        None => fallback_title(file_name),
    };
    let (done, total) = match scan.header {
        Some(p) => p,
        None => (scan.done, scan.total),
    };
    let phases = scan.finish();
    TodoFile { path, title, done, total, phases, modified }
}

/// A list item has the marker given; it has a name exactly when its text
/// starts with `**` and another `**` follows; the name is what stands
/// between the two and holds no `**` itself; and the description is
/// trimmed.
pub proof fn lemma_item_parts(marker: Marker, text: Seq<char>)
    ensures
        item_model(marker, text).marker == marker,
        item_model(marker, text).bold_name is Some <==> (starts_with(text, bold_mark()) && find(
            text.skip(2),
            bold_mark(),
        ) is Some),
        item_model(marker, text).bold_name matches Some(n) ==> starts_with(
            text,
            bold_mark() + n + bold_mark(),
        ) && find(n, bold_mark()) is None,
        trim(item_model(marker, text).description) == item_model(marker, text).description,
{
    let it = item_model(marker, text);
    if starts_with(text, bold_mark()) && find(text.skip(2), bold_mark()) is Some {
        let after = text.skip(2);
        let close = find(after, bold_mark()).unwrap();
        crate::text::lemma_find_in_range(after, bold_mark(), 0);
        crate::text::lemma_find_first(after, bold_mark(), 0);
        let n = after.take(close as int);
        let p = bold_mark() + n + bold_mark();
        assert(text.take(p.len() as int) =~= p) by {
            assert(text.take(2) =~= bold_mark());
            assert(after.subrange(close as int, close + 2int) =~= bold_mark());
        }
        if find(n, bold_mark()) is Some {
            let m = find(n, bold_mark()).unwrap();
            crate::text::lemma_find_in_range(n, bold_mark(), 0);
            assert(after.subrange(m as int, m + 2int) =~= n.subrange(m as int, m + 2int));
            assert(occurs_at(after, bold_mark(), m as int));
        }
        crate::text::lemma_trim_idempotent(description_after_name(after.skip(close + 2int)));
    } else {
        crate::text::lemma_trim_idempotent(plain_description(text));
    }
}

/// What follows a step's name is a suffix of the text after the name.
proof fn lemma_after_name_suffix(rest: Seq<char>) -> (k: int)
    ensures
        0 <= k <= rest.len(),
        description_after_name(rest) == rest.skip(k),
{
    crate::text::lemma_find_in_range(rest, em_dash_sep(), 0);
    crate::text::lemma_find_in_range(rest, hyphen_sep(), 0);
    match find(rest, em_dash_sep()) {
        Some(i) => (i + 3) as int,
        None => match find(rest, hyphen_sep()) {
            Some(i) => (i + 3) as int,
            None => {
                assert(rest.skip(0) =~= rest);
                0
            },
        },
    }
}

/// The description of a plain step is a suffix of its text.
proof fn lemma_plain_suffix(text: Seq<char>) -> (k: int)
    ensures
        0 <= k <= text.len(),
        plain_description(text) == text.skip(k),
{
    crate::text::lemma_find_in_range(text, em_dash_sep(), 0);
    match find(text, em_dash_sep()) {
        Some(i) => (i + 3) as int,
        None => {
            assert(text.skip(0) =~= text);
            0
        },
    }
}

/// A step's description is a contiguous piece of its text.
pub proof fn lemma_description_in_text(marker: Marker, text: Seq<char>)
    ensures
        exists|a: int, b: int|
            0 <= a <= b <= text.len() && text.subrange(a, b) == item_model(marker, text).description,
{
    if starts_with(text, bold_mark()) && find(text.skip(2), bold_mark()) is Some {
        let after = text.skip(2);
        let close = find(after, bold_mark()).unwrap();
        crate::text::lemma_find_in_range(after, bold_mark(), 0);
        let rest = after.skip(close + 2int);
        let k = lemma_after_name_suffix(rest);
        let d = description_after_name(rest);
        let (a, b) = crate::text::lemma_trim_piece(d);
        let off = 2 + close + 2 + k;
        assert(d =~= text.skip(off));
        assert(text.subrange(off + a, off + b) =~= d.subrange(a, b));
    } else {
        let k = lemma_plain_suffix(text);
        let d = plain_description(text);
        let (a, b) = crate::text::lemma_trim_piece(d);
        assert(text.subrange(k + a, k + b) =~= d.subrange(a, b));
    }
}

/// `p` occurs in `s` at `i` and nowhere before.
pub open spec fn first_occurrence(s: Seq<char>, p: Seq<char>, i: int) -> bool {
    occurs_at(s, p, i) && forall|m: int| 0 <= m < i ==> !occurs_at(s, p, m)
}

/// `p` occurs nowhere in `s`.
pub open spec fn never_occurs(s: Seq<char>, p: Seq<char>) -> bool {
    forall|m: int| !occurs_at(s, p, m)
}

proof fn lemma_find_first_occurrence(s: Seq<char>, p: Seq<char>, i: int)
    requires
        first_occurrence(s, p, i),
    ensures
        find(s, p) == Some(i as nat),
{
    lemma_find_at(s, p, 0, i as nat);
}

proof fn lemma_find_never(s: Seq<char>, p: Seq<char>)
    requires
        never_occurs(s, p),
    ensures
        find(s, p) is None,
{
    crate::text::lemma_find_in_range(s, p, 0);
    if let Some(k) = find(s, p) {
        assert(occurs_at(s, p, k as int));
    }
}

/// How a step's text splits into name and description. With a bold name
/// `n`, the text is `**n**` then a rest; the description is the trimmed
/// text after the first `" — "` of the rest, else (with no `" — "` at all)
/// after its first `" - "`, else the whole rest trimmed. Without a bold name
/// it is the trimmed text after the first `" — "`, else the whole text
/// trimmed.
pub proof fn lemma_description_split(marker: Marker, text: Seq<char>, i: int)
    ensures
        item_model(marker, text).bold_name matches Some(n) ==> {
            let rest = text.skip(n.len() + 4int);
            let d = item_model(marker, text).description;
            &&& text == bold_mark() + n + bold_mark() + rest
            &&& first_occurrence(rest, em_dash_sep(), i) ==> d == trim(rest.skip(i + 3))
            &&& never_occurs(rest, em_dash_sep()) && first_occurrence(rest, hyphen_sep(), i) ==> d
                == trim(rest.skip(i + 3))
            &&& never_occurs(rest, em_dash_sep()) && never_occurs(rest, hyphen_sep()) ==> d == trim(
                rest,
            )
        },
        item_model(marker, text).bold_name is None ==> {
            let d = item_model(marker, text).description;
            &&& first_occurrence(text, em_dash_sep(), i) ==> d == trim(text.skip(i + 3))
            &&& never_occurs(text, em_dash_sep()) ==> d == trim(text)
        },
{
    lemma_item_parts(marker, text);
    if starts_with(text, bold_mark()) && find(text.skip(2), bold_mark()) is Some {
        let after = text.skip(2);
        let close = find(after, bold_mark()).unwrap();
        crate::text::lemma_find_in_range(after, bold_mark(), 0);
        let n = after.take(close as int);
        assert(n.len() == close);
        let rest = text.skip(n.len() + 4int);
        assert(after.skip(close + 2int) =~= rest);
        let p = bold_mark() + n + bold_mark();
        assert(text.take(p.len() as int) == p);
        assert(text =~= p + rest);
        if first_occurrence(rest, em_dash_sep(), i) {
            lemma_find_first_occurrence(rest, em_dash_sep(), i);
        }
        if never_occurs(rest, em_dash_sep()) {
            lemma_find_never(rest, em_dash_sep());
            if first_occurrence(rest, hyphen_sep(), i) {
                lemma_find_first_occurrence(rest, hyphen_sep(), i);
            }
            if never_occurs(rest, hyphen_sep()) {
                lemma_find_never(rest, hyphen_sep());
            }
        }
    } else {
        if first_occurrence(text, em_dash_sep(), i) {
            lemma_find_first_occurrence(text, em_dash_sep(), i);
        }
        if never_occurs(text, em_dash_sep()) {
            lemma_find_never(text, em_dash_sep());
        }
    }
}

// ---------------------------------------------------------------------------
// Reading back a progress line
// ---------------------------------------------------------------------------

/// The progress line of a plan with `d` of `t` steps done, as the format
/// writes it: `## Progress: d/t`.
pub open spec fn progress_line(d: u32, t: u32) -> Seq<char> {
    progress_tag() + seq![' '] + decimal(d as nat) + seq!['/'] + decimal(t as nat)
}

proof fn lemma_trim_digits(s: Seq<char>)
    requires
        s.len() > 0,
        !is_ws(s[0]),
        !is_ws(s.last()),
    ensures
        trim(s) == s,
{
}

proof fn lemma_find_at(s: Seq<char>, p: Seq<char>, j: nat, k: nat)
    requires
        j <= k,
        occurs_at(s, p, k as int),
        forall|m: int| j <= m < k ==> !occurs_at(s, p, m),
    ensures
        find_from(s, p, j) == Some(k),
    decreases k - j,
{
    if j < k {
        assert(!occurs_at(s, p, j as int));
        lemma_find_at(s, p, j + 1, k);
    }
}

/// `d/t` written in decimal, after a space, is read back as the pair
/// `(d, t)` by the progress reader.
pub proof fn lemma_progress_pair_read_back(d: u32, t: u32)
    ensures
        progress_pair(trim(seq![' '] + decimal(d as nat) + seq!['/'] + decimal(t as nat)))
            == Some((d, t)),
{
    let dd = decimal(d as nat);
    let tt = decimal(t as nat);
    lemma_decimal_digits(d as nat);
    lemma_decimal_digits(t as nat);
    lemma_parse_decimal(d);
    lemma_parse_decimal(t);
    let x = dd + seq!['/'] + tt;
    assert(seq![' '] + dd + seq!['/'] + tt =~= seq![' '] + x);
    assert(is_digit(dd[0]));
    assert(is_digit(tt.last())) by {
        assert(is_digit(tt[tt.len() - 1]));
    }
    assert(x[0] == dd[0]);
    assert(x.last() == tt.last());
    assert(trim_start(seq![' '] + x) == trim_start(x)) by {
        assert((seq![' '] + x).drop_first() =~= x);
    }
    lemma_trim_digits(x);
    assert(trim(seq![' '] + x) == x);
    let slash = seq!['/'];
    assert(occurs_at(x, slash, dd.len() as int)) by {
        assert(x.subrange(dd.len() as int, dd.len() + 1int) =~= slash);
    }
    assert forall|m: int| 0 <= m < dd.len() implies !occurs_at(x, slash, m) by {
        assert(x.subrange(m, m + 1)[0] == dd[m]);
        assert(is_digit(dd[m]));
    }
    lemma_find_at(x, slash, 0, dd.len());
    assert(x.take(dd.len() as int) =~= dd);
    assert(x.skip(dd.len() + 1int) =~= tt);
    assert(is_digit(dd.last())) by {
        assert(is_digit(dd[dd.len() - 1]));
    }
    assert(is_digit(tt[0]));
    lemma_trim_digits(dd);
    lemma_trim_digits(tt);
}

/// A progress line written as the format shows it is read back as the
/// plan's progress, whatever came before it.
pub proof fn lemma_progress_line_read_back(st: ParseState, d: u32, t: u32)
    ensures
        apply_line(st, progress_line(d, t)) == (ParseState { header: Some((d, t)), ..st }),
{
    let dd = decimal(d as nat);
    let tt = decimal(t as nat);
    lemma_decimal_digits(d as nat);
    lemma_decimal_digits(t as nat);
    lemma_parse_decimal(d);
    lemma_parse_decimal(t);
    let line = progress_line(d, t);
    let x = dd + seq!['/'] + tt;
    assert(line[1] == '#');
    assert(!starts_with(line, plan_tag())) by {
        assert(line.take(7)[1] != plan_tag()[1]);
    }
    assert(line.take(12) =~= progress_tag());
    assert(line.skip(12) =~= seq![' '] + x);
    assert(is_digit(dd[0]));
    assert(is_digit(tt.last())) by {
        assert(is_digit(tt[tt.len() - 1]));
    }
    assert(x[0] == dd[0]);
    assert(x.last() == tt.last());
    assert(trim_start(seq![' '] + x) == trim_start(x)) by {
        assert((seq![' '] + x).drop_first() =~= x);
    }
    lemma_trim_digits(x);
    assert(trim(line.skip(12)) == x);
    let slash = seq!['/'];
    assert(occurs_at(x, slash, dd.len() as int)) by {
        assert(x.subrange(dd.len() as int, dd.len() + 1int) =~= slash);
    }
    assert forall|m: int| 0 <= m < dd.len() implies !occurs_at(x, slash, m) by {
        assert(x.subrange(m, m + 1)[0] == dd[m]);
        assert(is_digit(dd[m]));
    }
    lemma_find_at(x, slash, 0, dd.len());
    assert(x.take(dd.len() as int) =~= dd);
    assert(x.skip(dd.len() + 1int) =~= tt);
    assert(is_digit(dd.last())) by {
        assert(is_digit(dd[dd.len() - 1]));
    }
    assert(is_digit(tt[0]));
    lemma_trim_digits(dd);
    lemma_trim_digits(tt);
}

// ---------------------------------------------------------------------------
// Counting
// ---------------------------------------------------------------------------

/// The number of steps marked done.
pub open spec fn count_done(steps: Seq<StepModel>) -> nat
    decreases steps.len(),
{
    if steps.len() == 0 {
        0
    } else {
        count_done(steps.drop_last()) + if steps.last().marker == Marker::Done {
            1nat
        } else {
            0nat
        }
    }
}

/// The number of steps of all phases.
pub open spec fn steps_in(ps: Seq<PhaseModel>) -> nat
    decreases ps.len(),
{
    if ps.len() == 0 {
        0
    } else {
        steps_in(ps.drop_last()) + ps.last().steps.len()
    }
}

/// The number of steps of all phases that are marked done.
pub open spec fn done_in(ps: Seq<PhaseModel>) -> nat
    decreases ps.len(),
{
    if ps.len() == 0 {
        0
    } else {
        done_in(ps.drop_last()) + count_done(ps.last().steps)
    }
}

proof fn lemma_counts_lines(ls: Seq<Seq<char>>)
    ensures
        parse_lines(ls).total == steps_in(parse_lines(ls).phases),
        parse_lines(ls).done == done_in(parse_lines(ls).phases),
    decreases ls.len(),
{
    if ls.len() > 0 {
        lemma_counts_lines(ls.drop_last());
        let st = parse_lines(ls.drop_last());
        let line = ls.last();
        let ps = st.phases;
        assert(parse_lines(ls) == apply_line(st, line));
        if starts_with(line, plan_tag()) || starts_with(line, progress_tag()) {
        } else if starts_with(line, phase_tag()) {
            let np = PhaseModel { name: trim(line.skip(3)), steps: seq![] };
            let ps2 = ps.push(np);
            assert(ps2.drop_last() =~= ps);
            assert(count_done(np.steps) == 0);
            assert(steps_in(ps2) == steps_in(ps) + 0);
            assert(done_in(ps2) == done_in(ps) + 0);
        } else if starts_with(line, step_tag()) {
            let step = step_line_model(line.skip(3));
            let ps2 = add_step(ps, step);
            if ps.len() > 0 {
                let last = ps.last();
                let steps2 = last.steps.push(step);
                assert(ps2.drop_last() =~= ps.drop_last());
                assert(ps2.last() == PhaseModel { name: last.name, steps: steps2 });
                assert(steps2.drop_last() =~= last.steps);
                assert(steps_in(ps2) == steps_in(ps2.drop_last()) + steps2.len());
                assert(steps_in(ps) == steps_in(ps.drop_last()) + last.steps.len());
                assert(done_in(ps2) == done_in(ps2.drop_last()) + count_done(steps2));
                assert(done_in(ps) == done_in(ps.drop_last()) + count_done(last.steps));
            } else {
                let one = seq![step];
                assert(ps2.drop_last() =~= Seq::<PhaseModel>::empty());
                assert(one.drop_last() =~= Seq::<StepModel>::empty());
                assert(count_done(one) == count_done(one.drop_last()) + (if step.marker
                    == Marker::Done {
                    1nat
                } else {
                    0nat
                }));
                assert(steps_in(ps2) == steps_in(ps2.drop_last()) + 1);
                assert(done_in(ps2) == done_in(ps2.drop_last()) + count_done(one));
            }
        } else if let Some(rest) = subtask_rest(line) {
            lemma_add_subtask_counts(ps, item_line_model(rest));
        }
    }
}

/// Adding a sub-task leaves the number of steps and of steps done as they
/// were.
proof fn lemma_add_subtask_counts(ps: Seq<PhaseModel>, sub: SubTaskModel)
    ensures
        steps_in(add_subtask(ps, sub)) == steps_in(ps),
        done_in(add_subtask(ps, sub)) == done_in(ps),
{
    if ps.len() > 0 && ps.last().steps.len() > 0 {
        let p = ps.last();
        let s = p.steps.last();
        let steps2 = p.steps.update(p.steps.len() - 1, StepModel { subtasks: s.subtasks.push(sub), ..s });
        let ps2 = add_subtask(ps, sub);
        assert(ps2.drop_last() =~= ps.drop_last());
        assert(ps2.last().steps == steps2);
        assert(steps2.drop_last() =~= p.steps.drop_last());
        assert(count_done(steps2) == count_done(steps2.drop_last()) + (if steps2.last().marker
            == Marker::Done {
            1nat
        } else {
            0nat
        }));
    }
}

/// A sub-task line goes under the last step of the plan, and counts neither
/// as a step nor towards the steps done; nothing else changes.
pub proof fn lemma_subtask_line(st: ParseState, line: Seq<char>)
    requires
        subtask_rest(line) is Some,
    ensures
        apply_line(st, line) == (ParseState {
            phases: add_subtask(st.phases, item_line_model(subtask_rest(line).unwrap())),
            ..st
        }),
        steps_in(apply_line(st, line).phases) == steps_in(st.phases),
        done_in(apply_line(st, line).phases) == done_in(st.phases),
{
    lemma_indented_line_not_tagged(line);
    lemma_add_subtask_counts(st.phases, item_line_model(subtask_rest(line).unwrap()));
}

/// An indented line is no title, progress, phase or step line.
proof fn lemma_indented_line_not_tagged(line: Seq<char>)
    requires
        line.len() > 0,
        is_ws(line[0]),
    ensures
        !starts_with(line, plan_tag()),
        !starts_with(line, progress_tag()),
        !starts_with(line, phase_tag()),
        !starts_with(line, step_tag()),
{
    assert(!starts_with(line, plan_tag())) by {
        if starts_with(line, plan_tag()) {
            assert(line.take(7)[0] == line[0]);
        }
    }
    assert(!starts_with(line, progress_tag())) by {
        if starts_with(line, progress_tag()) {
            assert(line.take(12)[0] == line[0]);
        }
    }
    assert(!starts_with(line, phase_tag())) by {
        if starts_with(line, phase_tag()) {
            assert(line.take(3)[0] == line[0]);
        }
    }
    assert(!starts_with(line, step_tag())) by {
        if starts_with(line, step_tag()) {
            assert(line.take(3)[0] == line[0]);
        }
    }
}

/// Where a plan has no `## Progress:` line, its done and total are the
/// numbers of its top-level steps marked done and of all its top-level
/// steps, as listed in its phases.
pub proof fn lemma_counted_progress(
    content: Seq<char>,
    file_name: Option<Seq<char>>,
    modified: Option<i128>,
)
    requires
        parse_text(content).header is None,
        parse_text(content).total <= u32::MAX,
    ensures
        todo_model(content, file_name, modified).total == steps_in(
            todo_model(content, file_name, modified).phases,
        ),
        todo_model(content, file_name, modified).done == done_in(
            todo_model(content, file_name, modified).phases,
        ),
{
    lemma_counts_lines(lines(content));
    lemma_done_le_total(lines(content));
}

/// The number of step lines: lines that start with `- [`.
pub open spec fn step_line_count(ls: Seq<Seq<char>>) -> nat
    decreases ls.len(),
{
    if ls.len() == 0 {
        0
    } else {
        step_line_count(ls.drop_last()) + if starts_with(ls.last(), step_tag()) {
            1nat
        } else {
            0nat
        }
    }
}

/// A step line marked done: `x` or `X` right after its `- [`.
pub open spec fn is_done_line(l: Seq<char>) -> bool {
    starts_with(l, step_tag()) && l.len() > 3 && (l[3] == 'x' || l[3] == 'X')
}

/// The number of step lines marked done.
pub open spec fn done_line_count(ls: Seq<Seq<char>>) -> nat
    decreases ls.len(),
{
    if ls.len() == 0 {
        0
    } else {
        done_line_count(ls.drop_last()) + if is_done_line(ls.last()) {
            1nat
        } else {
            0nat
        }
    }
}

/// The progress given by the last `## Progress:` line whose two numbers
/// read as `u32`s.
pub open spec fn last_progress(ls: Seq<Seq<char>>) -> Option<(u32, u32)>
    decreases ls.len(),
{
    if ls.len() == 0 {
        None
    } else {
        let l = ls.last();
        if starts_with(l, progress_tag()) && progress_pair(trim(l.skip(12))) is Some {
            progress_pair(trim(l.skip(12)))
        } else {
            last_progress(ls.drop_last())
        }
    }
}

proof fn lemma_tags_exclusive(l: Seq<char>)
    ensures
        starts_with(l, progress_tag()) ==> !starts_with(l, plan_tag()),
        starts_with(l, step_tag()) ==> !starts_with(l, plan_tag()) && !starts_with(
            l,
            progress_tag(),
        ) && !starts_with(l, phase_tag()),
{
    if starts_with(l, progress_tag()) && starts_with(l, plan_tag()) {
        assert(l.take(12)[1] == l.take(7)[1]);
    }
    if starts_with(l, step_tag()) {
        if starts_with(l, plan_tag()) {
            assert(l.take(3)[0] == l.take(7)[0]);
        }
        if starts_with(l, progress_tag()) {
            assert(l.take(3)[0] == l.take(12)[0]);
        }
        if starts_with(l, phase_tag()) {
            assert(l.take(3)[0] == l.take(3)[0]);
        }
    }
}

/// Read line by line: the total counts the lines that start with `- [`,
/// done counts those of them with `x` or `X` between the brackets, and the
/// progress line that counts is the last one whose numbers read.
pub proof fn lemma_counts_by_lines(ls: Seq<Seq<char>>)
    ensures
        parse_lines(ls).total == step_line_count(ls),
        parse_lines(ls).done == done_line_count(ls),
        parse_lines(ls).header == last_progress(ls),
    decreases ls.len(),
{
    if ls.len() > 0 {
        lemma_counts_by_lines(ls.drop_last());
        let l = ls.last();
        lemma_tags_exclusive(l);
        if starts_with(l, step_tag()) {
            let rest = l.skip(3);
            if l.len() > 3 {
                assert(rest[0] == l[3]);
            }
        }
    }
}

/// A line that opens a phase: `## ` other than a progress line.
pub open spec fn is_heading_line(l: Seq<char>) -> bool {
    starts_with(l, phase_tag()) && !starts_with(l, progress_tag())
}

/// The names of the phase headings, trimmed, in order.
pub open spec fn heading_names(ls: Seq<Seq<char>>) -> Seq<Seq<char>>
    decreases ls.len(),
{
    if ls.len() == 0 {
        seq![]
    } else if is_heading_line(ls.last()) {
        heading_names(ls.drop_last()).push(trim(ls.last().skip(3)))
    } else {
        heading_names(ls.drop_last())
    }
}

/// Some step line comes before every phase heading.
pub open spec fn step_before_heading(ls: Seq<Seq<char>>) -> bool
    decreases ls.len(),
{
    if ls.len() == 0 {
        false
    } else {
        step_before_heading(ls.drop_last()) || (starts_with(ls.last(), step_tag())
            && heading_names(ls.drop_last()).len() == 0)
    }
}

pub open spec fn phase_names(ps: Seq<PhaseModel>) -> Seq<Seq<char>> {
    ps.map_values(|p: PhaseModel| p.name)
}

/// A step as its own line gives it, without the sub-tasks under it.
pub open spec fn bare_step(s: StepModel) -> StepModel {
    StepModel { subtasks: seq![], ..s }
}

/// The steps of all phases, in order, without their sub-tasks.
pub open spec fn bare_steps(ps: Seq<PhaseModel>) -> Seq<StepModel>
    decreases ps.len(),
{
    if ps.len() == 0 {
        seq![]
    } else {
        bare_steps(ps.drop_last()) + ps.last().steps.map_values(|s: StepModel| bare_step(s))
    }
}

/// The steps that the step lines give, in order.
pub open spec fn step_line_steps(ls: Seq<Seq<char>>) -> Seq<StepModel>
    decreases ls.len(),
{
    if ls.len() == 0 {
        seq![]
    } else if starts_with(ls.last(), step_tag()) {
        step_line_steps(ls.drop_last()).push(step_line_model(ls.last().skip(3)))
    } else {
        step_line_steps(ls.drop_last())
    }
}

/// The number of the phase that each step line's step lands in, in order:
/// the phases opened so far, counting the unnamed one, less one.
pub open spec fn step_line_phases(ls: Seq<Seq<char>>) -> Seq<int>
    decreases ls.len(),
{
    if ls.len() == 0 {
        seq![]
    } else if starts_with(ls.last(), step_tag()) {
        step_line_phases(ls.drop_last()).push(
            (if step_before_heading(ls) {
                1int
            } else {
                0int
            }) + heading_names(ls).len() - 1,
        )
    } else {
        step_line_phases(ls.drop_last())
    }
}

/// The number of the phase of each step, in order across the phases.
pub open spec fn step_phase_numbers(ps: Seq<PhaseModel>) -> Seq<int>
    decreases ps.len(),
{
    if ps.len() == 0 {
        seq![]
    } else {
        step_phase_numbers(ps.drop_last()) + Seq::new(ps.last().steps.len(), |k: int| ps.len() - 1)
    }
}

proof fn lemma_heading_not_plan(l: Seq<char>)
    ensures
        starts_with(l, phase_tag()) ==> !starts_with(l, plan_tag()),
{
    if starts_with(l, phase_tag()) && starts_with(l, plan_tag()) {
        assert(l.take(3)[1] == l.take(7)[1]);
    }
}

/// Read line by line, the plan has one phase per heading, named by it and in
/// the order of the headings, after one unnamed phase exactly when a step
/// comes before every heading; its steps, taken in order across the phases,
/// are those of the step lines in order; and each lies in the last phase
/// opened above its line.
pub proof fn lemma_phase_structure(ls: Seq<Seq<char>>)
    ensures
        phase_names(parse_lines(ls).phases) == (if step_before_heading(ls) {
            seq![Seq::<char>::empty()]
        } else {
            Seq::<Seq<char>>::empty()
        }) + heading_names(ls),
        bare_steps(parse_lines(ls).phases) == step_line_steps(ls),
        step_phase_numbers(parse_lines(ls).phases) == step_line_phases(ls),
    decreases ls.len(),
{
    if ls.len() > 0 {
        let prev = ls.drop_last();
        lemma_phase_structure(prev);
        let st = parse_lines(prev);
        let ps = st.phases;
        let l = ls.last();
        lemma_tags_exclusive(l);
        lemma_heading_not_plan(l);
        let lead: Seq<Seq<char>> = if step_before_heading(prev) {
            seq![Seq::<char>::empty()]
        } else {
            Seq::<Seq<char>>::empty()
        };
        let ps2 = parse_lines(ls).phases;
        if starts_with(l, plan_tag()) || starts_with(l, progress_tag()) {
            assert(ps2 == ps);
        } else if starts_with(l, phase_tag()) {
            let np = PhaseModel { name: trim(l.skip(3)), steps: seq![] };
            assert(ps2 == ps.push(np));
            assert(ps2.drop_last() =~= ps);
            assert(phase_names(ps2) =~= phase_names(ps).push(np.name));
            assert(lead + heading_names(ls) =~= (lead + heading_names(prev)).push(np.name));
            assert(np.steps.map_values(|s: StepModel| bare_step(s)) =~= Seq::<StepModel>::empty());
            assert(bare_steps(ps2) =~= bare_steps(ps));
            assert(Seq::new(np.steps.len(), |k: int| ps2.len() - 1) =~= Seq::<int>::empty());
            assert(step_phase_numbers(ps2) =~= step_phase_numbers(ps));
        } else if starts_with(l, step_tag()) {
            let step = step_line_model(l.skip(3));
            assert(bare_step(step) == step);
            assert(ps2 == add_step(ps, step));
            if ps.len() > 0 {
                let last = ps.last();
                let steps2 = last.steps.push(step);
                assert(ps2.drop_last() =~= ps.drop_last());
                assert(ps2.last() == PhaseModel { name: last.name, steps: steps2 });
                assert(phase_names(ps2) =~= phase_names(ps));
                assert(heading_names(prev).len() > 0 || step_before_heading(prev)) by {
                    assert(phase_names(ps).len() > 0);
                }
                assert(steps2.map_values(|s: StepModel| bare_step(s)) =~= last.steps.map_values(
                    |s: StepModel| bare_step(s),
                ).push(step));
                assert(bare_steps(ps2) =~= bare_steps(ps).push(step));
                assert(heading_names(ls) == heading_names(prev));
                assert(phase_names(ps).len() == ps.len());
                assert(step_before_heading(ls) == step_before_heading(prev));
                assert(Seq::new(steps2.len(), |k: int| ps2.len() - 1) =~= Seq::new(
                    last.steps.len(),
                    |k: int| ps.len() - 1,
                ).push(ps.len() - 1));
                assert(step_phase_numbers(ps2) =~= step_phase_numbers(ps).push(ps.len() - 1));
            } else {
                assert(phase_names(ps).len() == 0);
                assert(!step_before_heading(prev));
                assert(heading_names(prev).len() == 0);
                let np = PhaseModel { name: seq![], steps: seq![step] };
                assert(ps2 == seq![np]);
                assert(ps2.drop_last() =~= ps);
                assert(phase_names(ps2) =~= seq![Seq::<char>::empty()]);
                assert(bare_steps(ps) == Seq::<StepModel>::empty());
                assert(np.steps.map_values(|s: StepModel| bare_step(s)) =~= seq![step]);
                assert(bare_steps(ps2) =~= seq![step]);
                assert(step_line_steps(prev).len() == 0);
                assert(step_line_steps(ls) =~= seq![step]);
                assert(heading_names(ls) == heading_names(prev));
                assert(step_phase_numbers(ps) == Seq::<int>::empty());
                assert(Seq::new(np.steps.len(), |k: int| ps2.len() - 1) =~= seq![0int]);
                assert(step_phase_numbers(ps2) =~= seq![0int]);
                assert(step_line_phases(prev).len() == 0);
                assert(step_line_phases(ls) =~= seq![0int]);
            }
        } else {
            match subtask_rest(l) {
                Some(rest) => {
                    let sub = item_line_model(rest);
                    assert(ps2 == add_subtask(ps, sub));
                    if ps.len() > 0 && ps.last().steps.len() > 0 {
                        let p = ps.last();
                        let s = p.steps.last();
                        let steps2 = p.steps.update(
                            p.steps.len() - 1,
                            StepModel { subtasks: s.subtasks.push(sub), ..s },
                        );
                        assert(ps2.drop_last() =~= ps.drop_last());
                        assert(ps2.last() == PhaseModel { name: p.name, steps: steps2 });
                        assert(phase_names(ps2) =~= phase_names(ps));
                        assert(steps2.map_values(|t: StepModel| bare_step(t)) =~= p.steps.map_values(
                            |t: StepModel| bare_step(t),
                        ));
                        assert(bare_steps(ps2) =~= bare_steps(ps));
                        assert(Seq::new(steps2.len(), |k: int| ps2.len() - 1) =~= Seq::new(
                            p.steps.len(),
                            |k: int| ps.len() - 1,
                        ));
                        assert(step_phase_numbers(ps2) =~= step_phase_numbers(ps));
                    } else {
                        assert(ps2 == ps);
                    }
                },
                None => {
                    assert(ps2 == ps);
                },
            }
        }
    }
}

proof fn lemma_done_le_total(ls: Seq<Seq<char>>)
    ensures
        parse_lines(ls).done <= parse_lines(ls).total,
    decreases ls.len(),
{
    if ls.len() > 0 {
        lemma_done_le_total(ls.drop_last());
    }
}

// ---------------------------------------------------------------------------
// Titles from file names
// ---------------------------------------------------------------------------

fn file_stem_chars(name: &[char]) -> (r: &[char])
    ensures
        r@ == file_stem(name@),
{
    let mut i: usize = name.len();
    assert(name@.take(name@.len() as int) =~= name@);
    while i > 0 && name[i - 1] != '.'
        invariant
            i <= name@.len(),
            rfind_char(name@, '.') == rfind_char(name@.take(i as int), '.'),
        decreases i,
    {
        assert(name@.take(i as int).drop_last() =~= name@.take(i - 1));
        i = i - 1;
    }
    proof {
        if i == 0 {
            assert(rfind_char(name@.take(0), '.') is None);
        } else {
            assert(name@.take(i as int).last() == '.');
        }
    }
    if i <= 1 {
        name
    } else {
        slice_subrange(name, 0, i - 1)
    }
}

/// The title of a plan that has no `# Plan:` line, from its file name.
pub fn fallback_title(file_name: Option<&str>) -> (t: String)
    ensures
        t@ == fallback_title_of(opt_chars(file_name)),
{
    match file_name {
        None => String::new(),
        Some(name) => {
            let chars = chars_of(name);
            let suffix = vec!['.', 't', 'o', 'd', 'o'];
            let mut s = file_stem_chars(chars.as_slice());
            while s.len() >= 5 && ends_with_chars(s, suffix.as_slice())
                invariant
                    suffix@ == todo_suffix(),
                    trim_end_matches(s@, todo_suffix()) == trim_end_matches(
                        file_stem(name@),
                        todo_suffix(),
                    ),
                decreases s.len(),
            {
                s = slice_subrange(s, 0, s.len() - 5);
            }
            string_of(s)
        },
    }
}

fn ends_with_chars(s: &[char], p: &[char]) -> (b: bool)
    ensures
        b == ends_with(s@, p@),
{
    if p.len() > s.len() {
        return false;
    }
    let tail = slice_subrange(s, s.len() - p.len(), s.len());
    assert(tail@ =~= s@.skip(s@.len() - p@.len()));
    let mut i: usize = 0;
    while i < p.len()
        invariant
            tail@.len() == p@.len(),
            p@.len() <= s@.len(),
            tail@ == s@.skip(s@.len() - p@.len()),
            i <= p@.len(),
            forall|j: int| 0 <= j < i ==> tail@[j] == p@[j],
        decreases p.len() - i,
    {
        if tail[i] != p[i] {
            assert(tail@[i as int] != p@[i as int]);
            return false;
        }
        i = i + 1;
    }
    assert(tail@ =~= p@);
    true
}

/// Whether a directory entry's name marks it as a plan file.
pub fn is_todo_file_name(name: &str) -> (b: bool)
    ensures
        b == ends_with(name@, todo_file_suffix()),
{
    let chars = chars_of(name);
    let suffix = vec!['.', 't', 'o', 'd', 'o', '.', 'm', 'd'];
    ends_with_chars(chars.as_slice(), suffix.as_slice())
}

} // verus!
