use jrl::cli::{
    install_questions, parse_args, parse_days_before, show_analytics, show_entries,
    DEFAULT_DESCRIPTION, DEFAULT_NOTE, DESCRIPTION_QUESTION_STR, NOTE_QUESTION_STR,
    RATING_QUESTION_STR,
};
use jrl::entries_information::{longest_description_index, most_common_words, read_entry};
use jrl::loops::{input_step, pager_start, pager_step, InputEvent, PagerAction, PagerKey, PagerState};
use jrl::question::QuestionType;

#[test]
fn flags_with_defaults() {
    assert!(install_questions(Some(true)));
    assert!(!install_questions(Some(false)));
    assert!(!install_questions(None));
    assert_eq!(show_analytics(Some(30)), Some(30));
    assert_eq!(show_analytics(None), None);
    assert!(show_entries(Some(true)));
    assert!(!show_entries(Some(false)));
    assert!(!show_entries(None));
    assert_eq!(parse_days_before(Some(3)), 3);
    assert_eq!(parse_days_before(Some(-2)), -2);
    assert_eq!(parse_days_before(None), 0);
}

#[test]
fn description_with_text_is_written() {
    let r = parse_args(Some("Calm day".to_string()), Some("x".to_string()), None, Some(true));
    assert_eq!(r.question.unwrap().question, DESCRIPTION_QUESTION_STR);
    assert_eq!(r.answer.unwrap(), "Calm day");
    assert!(!r.lower_chance);
}

#[test]
fn description_flag_alone_asks_the_prompt() {
    let r = parse_args(Some(DEFAULT_DESCRIPTION.to_string()), None, None, None);
    assert_eq!(r.question.unwrap().question, DESCRIPTION_QUESTION_STR);
    assert!(r.answer.is_none());
    assert!(!r.lower_chance);
}

#[test]
fn note_after_default_description() {
    let r = parse_args(Some(DEFAULT_DESCRIPTION.to_string()), Some("Milk".to_string()), None, None);
    assert_eq!(r.question.unwrap().question, NOTE_QUESTION_STR);
    assert_eq!(r.answer.unwrap(), "Milk");
}

#[test]
fn note_flag_alone() {
    let r = parse_args(None, Some(DEFAULT_NOTE.to_string()), None, Some(false));
    assert_eq!(r.question.unwrap().question, NOTE_QUESTION_STR);
    assert!(r.answer.is_none());
    assert!(!r.lower_chance);
}

#[test]
fn rating_given_and_not() {
    let r = parse_args(None, None, Some(Some("8".to_string())), None);
    assert_eq!(r.question.unwrap().question, RATING_QUESTION_STR);
    assert_eq!(r.answer.unwrap(), "8");
    let r = parse_args(None, None, Some(None), Some(true));
    assert_eq!(r.question.unwrap().question, RATING_QUESTION_STR);
    assert!(r.answer.is_none());
    assert!(r.lower_chance);
}

#[test]
fn sometimes_lowers_the_chance() {
    let r = parse_args(None, None, None, Some(true));
    assert!(r.question.is_none());
    assert!(r.answer.is_none());
    assert!(r.lower_chance);
    assert!(!parse_args(None, None, None, None).lower_chance);
}

#[test]
fn first_line_writes_the_question() {
    let (wrote, action) =
        input_step(false, QuestionType::Long, true, InputEvent::Line("hello".to_string()));
    assert!(wrote);
    assert!(action.write_gap);
    assert!(action.write_question);
    assert_eq!(action.answer.unwrap(), "hello");
    assert!(!action.stop);
}

#[test]
fn later_lines_only_answer() {
    let (wrote, action) =
        input_step(true, QuestionType::Long, true, InputEvent::Line("more".to_string()));
    assert!(wrote);
    assert!(!action.write_gap);
    assert!(!action.write_question);
    assert_eq!(action.answer.unwrap(), "more");
}

#[test]
fn new_file_has_no_gap() {
    let (_, action) =
        input_step(false, QuestionType::Long, false, InputEvent::Line("x".to_string()));
    assert!(!action.write_gap);
    assert!(action.write_question);
}

#[test]
fn short_question_takes_one_line() {
    let (_, action) = input_step(false, QuestionType::Short, false, InputEvent::Line("7".to_string()));
    assert!(action.stop);
}

#[test]
fn empty_line_or_end_stops() {
    let (wrote, action) = input_step(true, QuestionType::Long, true, InputEvent::Line(String::new()));
    assert!(wrote);
    assert!(action.stop && action.answer.is_none() && !action.write_question);
    for event in [InputEvent::Interrupted, InputEvent::Eof, InputEvent::Failed] {
        let (wrote, action) = input_step(false, QuestionType::Long, true, event);
        assert!(!wrote);
        assert!(action.stop && action.answer.is_none());
    }
}

fn st(f: usize, h: usize) -> PagerState {
    PagerState { file_index: f, height_index: h }
}

#[test]
fn next_and_previous_files_wrap() {
    assert_eq!(pager_step(st(2, 5), PagerKey::NextFile, 3, 10, 4), (st(0, 0), PagerAction::Load));
    assert_eq!(pager_step(st(0, 5), PagerKey::PreviousFile, 3, 10, 4), (st(2, 0), PagerAction::Load));
    let (s, _) = pager_step(st(1, 0), PagerKey::NextFile, 3, 10, 4);
    let (back, _) = pager_step(s, PagerKey::PreviousFile, 3, 10, 4);
    assert_eq!(back.file_index, 1);
}

#[test]
fn scrolling() {
    assert_eq!(pager_step(st(0, 0), PagerKey::Down, 1, 10, 4), (st(0, 1), PagerAction::Redraw));
    assert_eq!(pager_step(st(0, 7), PagerKey::Down, 1, 10, 4), (st(0, 7), PagerAction::Stay));
    assert_eq!(pager_step(st(0, 3), PagerKey::Up, 1, 10, 4), (st(0, 2), PagerAction::Redraw));
    assert_eq!(pager_step(st(0, 0), PagerKey::Up, 1, 10, 4), (st(0, 0), PagerAction::Stay));
    assert_eq!(pager_step(st(0, 0), PagerKey::Bottom, 1, 10, 4), (st(0, 7), PagerAction::Redraw));
    assert_eq!(pager_step(st(0, 7), PagerKey::Bottom, 1, 10, 4), (st(0, 7), PagerAction::Stay));
    assert_eq!(pager_step(st(0, 0), PagerKey::Bottom, 1, 3, 4), (st(0, 0), PagerAction::Stay));
    assert_eq!(pager_step(st(0, 7), PagerKey::Top, 1, 10, 4), (st(0, 0), PagerAction::Redraw));
    assert_eq!(pager_step(st(0, 0), PagerKey::Top, 1, 10, 4), (st(0, 0), PagerAction::Stay));
    assert_eq!(pager_step(st(0, 2), PagerKey::Quit, 1, 10, 4), (st(0, 2), PagerAction::Quit));
    assert_eq!(pager_step(st(0, 2), PagerKey::Other, 1, 10, 4), (st(0, 2), PagerAction::Stay));
}

#[test]
fn pager_opens_on_the_asked_day() {
    let stems = vec!["2026-01-01".to_string(), "2026-01-02".to_string(), "2026-01-03".to_string()];
    assert_eq!(pager_start(&stems, "2026-01-02"), 1);
    assert_eq!(pager_start(&stems, "1999-01-01"), 2);
}

#[test]
fn analytics_facts_of_a_day() {
    let day = "i: 09:00\ns: Add a rating for your day out of ten:\na: 8\n\n\
i: 10:00\nl: Add a description about the day:\na: Good day\na: Sunny\n\n\
i: 11:00\nl: What's new?\na: Good Coffee";
    let facts = read_entry(day);
    assert_eq!(facts.ratings, vec!["8".to_string()]);
    assert_eq!(facts.description, "\n    [10:00] Good day\n    Sunny");
    assert_eq!(
        facts.words,
        vec!["a", "8", "a", "good", "day", "a", "sunny", "a", "good", "coffee"]
    );
}

#[test]
fn most_common_word_of_each_length() {
    let words: Vec<String> =
        ["a", "8", "a", "good", "day", "milk", "good", "b", "b", "a", "caf\u{e9}"]
            .iter()
            .map(|w| w.to_string())
            .collect();
    let best = most_common_words(&words);
    assert_eq!(best.len(), 21);
    assert_eq!(best[1], ("a".to_string(), 3));
    assert_eq!(best[3], ("day".to_string(), 1));
    assert_eq!(best[4], ("good".to_string(), 2));
    assert_eq!(best[5], ("caf\u{e9}".to_string(), 1));
    assert_eq!(best[2], (String::new(), 0));
    assert_eq!(best[0], (String::new(), 0));
}

#[test]
fn ties_go_to_the_first_word() {
    let words: Vec<String> = ["z", "y", "y", "z"].iter().map(|w| w.to_string()).collect();
    assert_eq!(most_common_words(&words)[1], ("y".to_string(), 2));
}

#[test]
fn no_word_of_a_length_is_more_common() {
    let text = "the cat and the dog saw a cat and a bird in the big old tree by the sea";
    let words: Vec<String> = text.split(' ').map(|w| w.to_string()).collect();
    let best = most_common_words(&words);
    for (len, (word, count)) in best.iter().enumerate() {
        let same_len: Vec<&String> = words.iter().filter(|w| w.len() == len).collect();
        let most = same_len
            .iter()
            .map(|w| words.iter().filter(|x| x == w).count())
            .max()
            .unwrap_or(0);
        assert_eq!(*count, most, "length {}", len);
        if *count > 0 {
            assert_eq!(word.len(), len);
            assert_eq!(words.iter().filter(|x| *x == word).count(), *count);
        }
    }
    assert_eq!(best[3], ("the".to_string(), 4));
    assert_eq!(best[1], ("a".to_string(), 2));
    assert_eq!(best[4], ("bird".to_string(), 1));
}

#[test]
fn first_longest_description() {
    let ds: Vec<String> = ["ab", "", "abcd", "wxyz", "é"].iter().map(|d| d.to_string()).collect();
    assert_eq!(longest_description_index(&ds), Some(2));
    let ds: Vec<String> = ["", ""].iter().map(|d| d.to_string()).collect();
    assert_eq!(longest_description_index(&ds), None);
    assert_eq!(longest_description_index(&Vec::new()), None);
    let ds: Vec<String> = ["a", "é"].iter().map(|d| d.to_string()).collect();
    assert_eq!(longest_description_index(&ds), Some(1));
}
