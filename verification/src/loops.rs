//! The decisions of the two interactive loops: answering a question line by
//! line, and paging through the day files.

use crate::question::QuestionType;
use vstd::prelude::*;

verus! {

// ---------------------------------------------------------------------------
// Answering a question
// ---------------------------------------------------------------------------

/// What the line editor gave back.
pub enum InputEvent {
    /// A line was typed.
    Line(String),
    /// Ctrl-C.
    Interrupted,
    /// Ctrl-D.
    Eof,
    /// The editor failed.
    Failed,
}

/// What to do after an input event.
pub struct InputAction {
    /// Write an empty line before the entry (it is not the file's first).
    pub write_gap: bool,
    /// Write the information and question lines of the entry.
    pub write_question: bool,
    /// Write this line as an answer line.
    pub answer: Option<String>,
    /// Stop asking for lines.
    pub stop: bool,
}

/// The next step of answering a question: an empty line or the end of
/// input stops; the first line written puts the question above it (after
/// an empty line when the file is not new); a short question takes one
/// line only. Returns whether the question has been written, and the
/// action.
pub fn input_step(
    wrote_question: bool,
    question_type: QuestionType,
    write_question_gap: bool,
    event: InputEvent,
) -> (r: (bool, InputAction))
    ensures
        match event {
            InputEvent::Line(line) => if line@.len() == 0 {
                r.0 == wrote_question && !r.1.write_gap && !r.1.write_question && r.1.answer is None
                    && r.1.stop
            } else {
                &&& r.0
                &&& r.1.write_question == !wrote_question
                &&& r.1.write_gap == (!wrote_question && write_question_gap)
                &&& r.1.answer matches Some(a) && a@ == line@
                &&& r.1.stop == (question_type == QuestionType::Short)
            },
            _ => r.0 == wrote_question && !r.1.write_gap && !r.1.write_question && r.1.answer is None
                && r.1.stop,
        },
{
    match event {
        InputEvent::Line(line) => {
            if line.as_str().is_empty() {
                return (
                    wrote_question,
                    InputAction { write_gap: false, write_question: false, answer: None, stop: true },
                );
            }
            let mut write_gap = false;
            let mut write_question = false;
            if !wrote_question {
                if write_question_gap {
                    write_gap = true;
                }
                write_question = true;
            }
            let stop = question_type == QuestionType::Short;
            (true, InputAction { write_gap, write_question, answer: Some(line), stop })
        },
        _ => (
            wrote_question,
            InputAction { write_gap: false, write_question: false, answer: None, stop: true },
        ),
    }
}

// ---------------------------------------------------------------------------
// Paging through the day files
// ---------------------------------------------------------------------------

/// A key of the pager.
#[derive(PartialEq, Eq, Structural, Debug, Clone, Copy)]
pub enum PagerKey {
    /// `l` or Right: the next day.
    NextFile,
    /// `h` or Left: the previous day.
    PreviousFile,
    /// `j`, Down, Enter or Backspace: one line down.
    Down,
    /// `k` or Up: one line up.
    Up,
    /// `G`: the bottom.
    Bottom,
    /// `g`: the top.
    Top,
    /// `q` or Esc.
    Quit,
    /// Any other key.
    Other,
}

/// Which day file is shown and from which of its terminal lines.
#[derive(PartialEq, Eq, Structural, Debug, Clone, Copy)]
pub struct PagerState {
    pub file_index: usize,
    pub height_index: usize,
}

/// What the pager does after a key.
#[derive(PartialEq, Eq, Structural, Debug, Clone, Copy)]
pub enum PagerAction {
    /// Nothing changes.
    Stay,
    /// Draw the same file from the new line.
    Redraw,
    /// Read, format and draw the new file from its top.
    Load,
    /// Leave the pager.
    Quit,
}

/// The file after `i` of `n`, the first after the last.
pub open spec fn next_file(i: int, n: int) -> int {
    (i + 1) % n
}

/// The file before `i` of `n`, the last before the first.
pub open spec fn previous_file(i: int, n: int) -> int {
    if i == 0 {
        n - 1
    } else {
        i - 1
    }
}

/// The state and action after `key`, with `file_count` day files, the
/// shown file's `content_len` terminal lines and a terminal `term_height`
/// lines high.
pub open spec fn pager_next(
    s: PagerState,
    key: PagerKey,
    file_count: int,
    content_len: int,
    term_height: int,
) -> (PagerState, PagerAction) {
    match key {
        PagerKey::NextFile => (
            PagerState {
                file_index: next_file(s.file_index as int, file_count) as usize,
                height_index: 0,
            },
            PagerAction::Load,
        ),
        PagerKey::PreviousFile => (
            PagerState {
                file_index: previous_file(s.file_index as int, file_count) as usize,
                height_index: 0,
            },
            PagerAction::Load,
        ),
        PagerKey::Down => if content_len - s.height_index >= term_height {
            (PagerState { height_index: (s.height_index + 1) as usize, ..s }, PagerAction::Redraw)
        } else {
            (s, PagerAction::Stay)
        },
        PagerKey::Up => if s.height_index != 0 {
            (PagerState { height_index: (s.height_index - 1) as usize, ..s }, PagerAction::Redraw)
        } else {
            (s, PagerAction::Stay)
        },
        PagerKey::Bottom => if content_len > term_height && s.height_index != content_len + 1
            - term_height {
            (
                PagerState { height_index: (content_len + 1 - term_height) as usize, ..s },
                PagerAction::Redraw,
            )
        } else {
            (s, PagerAction::Stay)
        },
        PagerKey::Top => if s.height_index != 0 {
            (PagerState { height_index: 0, ..s }, PagerAction::Redraw)
        } else {
            (s, PagerAction::Stay)
        },
        PagerKey::Quit => (s, PagerAction::Quit),
        PagerKey::Other => (s, PagerAction::Stay),
    }
}

/// The pager's answer to a key.
pub fn pager_step(
    state: PagerState,
    key: PagerKey,
    file_count: usize,
    content_len: usize,
    term_height: u16,
) -> (r: (PagerState, PagerAction))
    requires
        file_count >= 1,
        state.file_index < file_count,
        key == PagerKey::Down ==> state.height_index <= content_len,
        content_len < usize::MAX,
    ensures
        r == pager_next(state, key, file_count as int, content_len as int, term_height as int),
{
    let mut file_index = state.file_index;
    let mut height_index = state.height_index;
    let mut height_changed = false;
    let mut file_changed = false;
    match key {
        PagerKey::NextFile => {
            file_index += 1;
            file_changed = true;
        },
        PagerKey::PreviousFile => {
            if file_index == 0 {
                file_index = file_count - 1;
            } else {
                file_index -= 1;
            }
            file_changed = true;
        },
        PagerKey::Down => {
            if content_len - height_index >= term_height as usize {
                height_index += 1;
                height_changed = true;
            }
        },
        PagerKey::Up => {
            if height_index != 0 {
                height_index -= 1;
                height_changed = true;
            }
        },
        PagerKey::Bottom => {
            if content_len > term_height as usize {
                let desired_height = content_len + 1 - term_height as usize;
                if height_index != desired_height {
                    height_index = desired_height;
                    height_changed = true;
                }
            }
        },
        PagerKey::Top => {
            if height_index != 0 {
                height_index = 0;
                height_changed = true;
            }
        },
        PagerKey::Quit => {
            return (state, PagerAction::Quit);
        },
        PagerKey::Other => {},
    }
    if file_changed {
        proof {
            lemma_index_mod(file_index as int, file_count as int);
        }
        file_index %= file_count;
        height_index = 0;
        return (PagerState { file_index, height_index }, PagerAction::Load);
    }
    if height_changed {
        return (PagerState { file_index, height_index }, PagerAction::Redraw);
    }
    (PagerState { file_index, height_index }, PagerAction::Stay)
}

/// The index of the file the pager opens on among files with stems
/// `stems`.
pub fn pager_start(stems: &Vec<String>, day_to_show: &str) -> (i: usize)
    requires
        stems@.len() >= 1,
    ensures
        i < stems@.len(),
        (exists|k: int| 0 <= k < stems@.len() && stems@[k]@ == day_to_show@) ==> stems@[i as int]@
            == day_to_show@ && forall|j: int| 0 <= j < i ==> stems@[j]@ != day_to_show@,
        !(exists|k: int| 0 <= k < stems@.len() && stems@[k]@ == day_to_show@) ==> i == stems@.len()
            - 1,
{
    let day = crate::text::to_chars(day_to_show);
    let mut k: usize = 0;
    while k < stems.len()
        invariant
            0 <= k <= stems@.len(),
            day@ == day_to_show@,
            forall|j: int| 0 <= j < k ==> stems@[j]@ != day_to_show@,
        decreases stems.len() - k,
    {
        let s = crate::text::to_chars(stems[k].as_str());
        if crate::text::chars_eq(s.as_slice(), day.as_slice()) {
            return k;
        }
        k += 1;
    }
    stems.len() - 1
}

// ---------------------------------------------------------------------------
// Laws of the pager
// ---------------------------------------------------------------------------

/// An index below `n`, or `n` itself, taken modulo `n`.
proof fn lemma_index_mod(i: int, n: int)
    requires
        0 <= i <= n,
        n >= 1,
    ensures
        i < n ==> i % n == i,
        i == n ==> i % n == 0,
{
    if i < n {
        vstd::arithmetic::div_mod::lemma_small_mod(i as nat, n as nat);
    } else {
        vstd::arithmetic::div_mod::lemma_mod_self_0(n);
    }
}

/// Going to the next day and back returns to the same day.
pub proof fn lemma_next_then_previous(i: int, n: int)
    requires
        0 <= i < n,
    ensures
        previous_file(next_file(i, n), n) == i,
        0 <= next_file(i, n) < n,
{
    lemma_index_mod(i + 1, n);
}

/// Going to the previous day and on returns to the same day.
pub proof fn lemma_previous_then_next(i: int, n: int)
    requires
        0 <= i < n,
    ensures
        next_file(previous_file(i, n), n) == i,
        0 <= previous_file(i, n) < n,
{
    lemma_index_mod(previous_file(i, n) + 1, n);
}

/// The pager keeps showing one of the day files, and on a terminal at
/// least one line high it never scrolls past the end of the shown file.
pub proof fn lemma_pager_keeps_bounds(
    s: PagerState,
    key: PagerKey,
    file_count: int,
    content_len: int,
    term_height: int,
)
    requires
        file_count >= 1,
        s.file_index < file_count,
        s.height_index <= content_len,
        term_height >= 1,
    ensures
        pager_next(s, key, file_count, content_len, term_height).0.file_index < file_count,
        pager_next(s, key, file_count, content_len, term_height).1 != PagerAction::Load
            ==> pager_next(s, key, file_count, content_len, term_height).0.height_index
            <= content_len,
{
    lemma_index_mod(s.file_index + 1, file_count);
}

} // verus!
