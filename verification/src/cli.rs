//! What the command-line flags decide.

use crate::question::Question;
use vstd::prelude::*;

verus! {

/// The question line of a day's description.
pub const DESCRIPTION_QUESTION_STR: &'static str = "l: Add a description about the day:";

/// The question line of a note.
pub const NOTE_QUESTION_STR: &'static str = "l: Add a note during the day:";

/// The question line of a rating.
pub const RATING_QUESTION_STR: &'static str = "s: Add a rating for your day out of ten:";

/// The value that `--description` takes when it is given without one.
pub const DEFAULT_DESCRIPTION: &'static str = "No description provided";

/// The value that `--note` takes when it is given without one.
pub const DEFAULT_NOTE: &'static str = "No note provided";

/// The value that `--analytics` takes when it is given without one.
pub const DEFAULT_ANALYTICS: usize = 30;

/// Whether to install the questions file of the current directory: only
/// when `--install-questions` says so.
pub fn install_questions(flag: Option<bool>) -> (b: bool)
    ensures
        b == (flag == Some(true)),
{
    let mut install: bool = false;
    match flag {
        Some(s) => {
            install = s;
        },
        None => {},
    }
    install
}

/// How many past entries to analyse, when `--analytics` is given.
pub fn show_analytics(analytics: Option<usize>) -> (r: Option<usize>)
    ensures
        r == analytics,
{
    match analytics {
        Some(s) => Some(s),
        None => None,
    }
}

/// How many days back the entry to update lies: `--update`, or today.
pub fn parse_days_before(update: Option<i64>) -> (d: i64)
    ensures
        d == match update {
            Some(s) => s,
            None => 0,
        },
{
    let mut days_before_today: i64 = 0;
    match update {
        Some(s) => {
            days_before_today = s;
        },
        None => {},
    }
    days_before_today
}

/// Whether to open the pager on the journal entries: only when `--entries`
/// is true.
pub fn show_entries(entries: Option<bool>) -> (b: bool)
    ensures
        b == (entries == Some(true)),
{
    let mut show: bool = false;
    if let Some(e) = entries {
        if e {
            show = true;
        }
    }
    show
}

/// What the prompt flags decide.
pub struct ArgsOutcome {
    /// The prompt question of the last prompt flag given; the question
    /// written when `answer` is some.
    pub question: Option<Question>,
    /// The answer to write under `question`, when a flag carried one.
    pub answer: Option<String>,
    /// Whether questions are to be asked less often (`--sometimes`).
    pub lower_chance: bool,
}

/// The meaning of the prompt flags. `rating` is `Some(None)` when
/// `--rating` is given without a value and `Some(Some(text))` when it is
/// given the number whose text is `text`.
pub open spec fn args_outcome_spec(
    description: Option<Seq<char>>,
    note: Option<Seq<char>>,
    rating: Option<Option<Seq<char>>>,
    sometimes: Option<bool>,
) -> (Option<Seq<char>>, Option<Seq<char>>, bool) {
    if description is Some && description->0 != DEFAULT_DESCRIPTION@ {
        (Some(DESCRIPTION_QUESTION_STR@), description, false)
    } else if note is Some && note->0 != DEFAULT_NOTE@ {
        (Some(NOTE_QUESTION_STR@), note, false)
    } else if rating matches Some(Some(_)) {
        (Some(RATING_QUESTION_STR@), rating->0, false)
    } else {
        (
            if rating is Some {
                Some(RATING_QUESTION_STR@)
            } else if note is Some {
                Some(NOTE_QUESTION_STR@)
            } else if description is Some {
                Some(DESCRIPTION_QUESTION_STR@)
            } else {
                None
            },
            None,
            sometimes == Some(true),
        )
    }
}

/// The text of an optional string.
pub open spec fn opt_view(o: Option<String>) -> Option<Seq<char>> {
    match o {
        Some(s) => Some(s@),
        None => None,
    }
}

/// The text of an optional question.
pub open spec fn opt_question_view(o: Option<Question>) -> Option<Seq<char>> {
    match o {
        Some(q) => Some(q@),
        None => None,
    }
}

/// The text of an optional rating value.
pub open spec fn rating_view(o: Option<Option<String>>) -> Option<Option<Seq<char>>> {
    match o {
        Some(Some(s)) => Some(Some(s@)),
        Some(None) => Some(None),
        None => None,
    }
}

/// What the prompt flags ask for: a description, a note or a rating given
/// with a value is written under its prompt question (the first of them in
/// that order); a flag given without a value only selects its prompt
/// question to be asked; `--sometimes` lowers the chance of a question
/// when nothing was written.
pub fn parse_args(
    description: Option<String>,
    note: Option<String>,
    rating: Option<Option<String>>,
    sometimes: Option<bool>,
) -> (r: ArgsOutcome)
    ensures
        (opt_question_view(r.question), opt_view(r.answer), r.lower_chance) == args_outcome_spec(
            opt_view(description),
            opt_view(note),
            rating_view(rating),
            sometimes,
        ),
{
    let mut question: Option<Question> = None;
    match description {
        Some(a) => {
            question = Some(Question::from_str_text(DESCRIPTION_QUESTION_STR));
            let a_chars = crate::text::to_chars(a.as_str());
            let default_chars = crate::text::to_chars(DEFAULT_DESCRIPTION);
            if !crate::text::chars_eq(a_chars.as_slice(), default_chars.as_slice()) {
                return ArgsOutcome { question, answer: Some(a), lower_chance: false };
            }
        },
        None => {},
    }
    match note {
        Some(a) => {
            question = Some(Question::from_str_text(NOTE_QUESTION_STR));
            let a_chars = crate::text::to_chars(a.as_str());
            let default_chars = crate::text::to_chars(DEFAULT_NOTE);
            if !crate::text::chars_eq(a_chars.as_slice(), default_chars.as_slice()) {
                return ArgsOutcome { question, answer: Some(a), lower_chance: false };
            }
        },
        None => {},
    }
    match rating {
        Some(a) => {
            question = Some(Question::from_str_text(RATING_QUESTION_STR));
            if let Some(text) = a {
                return ArgsOutcome { question, answer: Some(text), lower_chance: false };
            }
        },
        None => {},
    }
    let mut lower_chance = false;
    if let Some(s) = sometimes {
        if s {
            lower_chance = true;
        }
    }
    ArgsOutcome { question, answer: None, lower_chance }
}

} // verus!
