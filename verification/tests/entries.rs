use jrl::file_parsing::{
    format_answer, format_question, generate_jumbled_questions_file_name,
    jumbled_questions_file_name, jumble_questions, question_header, render_question_list,
    select_questions, take_last_question,
};
use jrl::utility::{
    day_file_order, get_day_file_name, is_journal_stem, recent_entries_start, update_announcement,
};
use jrl::pager::{get_next_chunk, LineCursor};
use jrl::question::{ChunkParser, Informative, Question};

#[test]
fn question_line_of_an_entry() {
    assert_eq!(format_question(&Question::from("l: What did you learn?")), "l: What did you learn?\n");
    assert_eq!(format_question(&Question::from("s: Hours of sleep?")), "s: Hours of sleep?\n");
    assert_eq!(format_question(&Question::from("untagged")), ": \n");
}

#[test]
fn answer_lines_of_an_entry() {
    assert_eq!(format_answer("fine"), "a: fine\n");
    assert_eq!(format_answer("one\ntwo"), "a: one\na: two\n");
    assert_eq!(format_answer("end\n"), "a: end\na: \n");
    assert_eq!(format_answer(""), "a: \n");
}

#[test]
fn written_entry_reads_back() {
    let question = Question::from("l: What's a nice thing from today?");
    let text = format!("i: 21:05\n{}{}", format_question(&question), format_answer("Tea\nA walk"));
    let mut lines = LineCursor::new(&text);
    let chunk = get_next_chunk(&mut lines).unwrap();
    assert_eq!(chunk.get_informative().unwrap().get_text().unwrap(), "21:05");
    assert_eq!(chunk.get_question().unwrap(), question);
    let answers: Vec<String> =
        chunk.get_answer().unwrap().iter().map(|a| a.get_text().unwrap()).collect();
    assert_eq!(answers, vec!["Tea".to_string(), "A walk".to_string()]);
    assert_eq!(lines.next, 4);
}

#[test]
fn questions_of_a_questions_file() {
    let text = "s: Number of coffees?\nnot a question\n\nl: What's upsetting?\n";
    let qs: Vec<String> = select_questions(text).into_iter().map(|q| q.question).collect();
    assert_eq!(qs, vec!["s: Number of coffees?".to_string(), "l: What's upsetting?".to_string()]);
    assert!(select_questions("").is_empty());
}

#[test]
fn jumbled_questions_are_the_same_questions() {
    let text = "s: A\ns: B\nl: C\nl: D\ns: E\nnoise\n";
    let mut jumbled: Vec<String> = jumble_questions(text).into_iter().map(|q| q.question).collect();
    jumbled.sort();
    assert_eq!(jumbled, vec!["l: C", "l: D", "s: A", "s: B", "s: E"]);
}

#[test]
fn question_list_text() {
    let qs = vec![Question::from("s: A"), Question::from("l: B")];
    assert_eq!(render_question_list(&qs), "s: A\nl: B\n");
    assert_eq!(render_question_list(&Vec::new()), "");
}

#[test]
fn take_the_last_question() {
    let (rest, last) = take_last_question("s: A\nl: B\ns: C\n");
    assert_eq!(rest, "s: A\nl: B");
    assert_eq!(last.unwrap().question, "s: C");
}

#[test]
fn take_the_only_question() {
    let (rest, last) = take_last_question("s: A");
    assert_eq!(rest, "");
    assert_eq!(last.unwrap().question, "s: A");
}

#[test]
fn leading_empty_lines_are_dropped_when_taking() {
    let (rest, last) = take_last_question("\n\ns: A\n\nl: B\nl: C");
    assert_eq!(rest, "s: A\n\nl: B");
    assert_eq!(last.unwrap().question, "l: C");
}

#[test]
fn no_question_left() {
    let (rest, last) = take_last_question("");
    assert_eq!(rest, "");
    assert!(last.is_none());
}

#[test]
fn jumbled_file_name() {
    let day = "2026-02-18.txt";
    let hash = xxhash_rust::xxh3::xxh3_128(day.as_bytes());
    let expected = format!("/tmp/jrl-{}-{}", &format!("{:032x}", hash)[..15], day);
    assert_eq!(jumbled_questions_file_name(day), expected);
    assert!(jumbled_questions_file_name(day).starts_with("/tmp/jrl-"));
    assert_eq!(jumbled_questions_file_name(day).len(), "/tmp/jrl-".len() + 15 + 1 + day.len());
    assert_ne!(jumbled_questions_file_name(day), jumbled_questions_file_name("2026-02-19.txt"));
}

#[test]
fn journal_stems() {
    assert!(is_journal_stem("2026-02-18"));
    assert!(!is_journal_stem("2026-2-18"));
    assert!(!is_journal_stem("questions"));
    assert!(!is_journal_stem("2026-02-18-1"));
    assert!(is_journal_stem("abcd-ef-gh"));
    assert!(!is_journal_stem("ééé-02-18"));
    assert!(is_journal_stem("éé-02-18"));
}

#[test]
fn written_day_reads_back_entry_by_entry() {
    let first = Question::from("s: Hours of sleep?");
    let second = Question::from("l: What's a nice thing from today?");
    let text = format!(
        "i: 08:00\n{}{}\ni: 21:05\n{}{}",
        format_question(&first),
        format_answer("7"),
        format_question(&second),
        format_answer("Tea\nA walk")
    );
    let mut lines = LineCursor::new(&text);
    let chunk = get_next_chunk(&mut lines).unwrap();
    assert_eq!(chunk.get_informative().unwrap().get_text().unwrap(), "08:00");
    assert_eq!(chunk.get_question().unwrap(), first);
    assert_eq!(chunk.get_answer().unwrap(), vec![Question::from("a: 7")]);
    let chunk = get_next_chunk(&mut lines).unwrap();
    assert_eq!(chunk.get_informative().unwrap().get_text().unwrap(), "21:05");
    assert_eq!(chunk.get_question().unwrap(), second);
    assert_eq!(
        chunk.get_answer().unwrap(),
        vec![Question::from("a: Tea"), Question::from("a: A walk")]
    );
    assert!(matches!(get_next_chunk(&mut lines), Err(jrl::pager::ChunkError::UnexpectedFileEnd)));
}

#[test]
fn todays_jumbled_file_name() {
    let today = get_day_file_name(0).unwrap();
    assert_eq!(generate_jumbled_questions_file_name().unwrap(), jumbled_questions_file_name(&today));
}

#[test]
fn day_file_names_are_journal_stems() {
    for days in [0i64, 1, 30, 365, -3] {
        let name = get_day_file_name(days).unwrap();
        assert_eq!(name.len(), 14);
        assert!(name.ends_with(".txt"));
        assert!(is_journal_stem(&name[..10]));
    }
    assert!(get_day_file_name(i64::MAX).is_none());
    assert_ne!(get_day_file_name(0), get_day_file_name(1));
}

#[test]
fn entry_header_lines() {
    let header = question_header(&Question::from("s: Hours of sleep?"));
    assert!(header.starts_with("i: "));
    assert_eq!(&header[5..6], ":");
    assert!(header[3..5].chars().all(|c| c.is_ascii_digit()));
    assert!(header[6..8].chars().all(|c| c.is_ascii_digit()));
    assert_eq!(&header[8..], "\ns: Hours of sleep?\n");
}

#[test]
fn update_announcement_names_the_day() {
    let text = update_announcement(1).unwrap();
    assert!(text.starts_with("Update entry for "));
    assert!(text.ends_with(':'));
    assert_eq!(text.len(), "Update entry for ".len() + "18 Feb 2026".len() + 1);
    assert!(update_announcement(i64::MIN).is_none());
}

#[test]
fn each_question_is_taken_once() {
    let text = "s: Number of coffees?\nl: What's a nice thing from today?\nnoise\ns: Hours of sleep?\n";
    let jumbled = jumble_questions(text);
    let mut file = render_question_list(&jumbled);
    let mut taken: Vec<String> = Vec::new();
    loop {
        let (rest, last) = take_last_question(&file);
        match last {
            Some(q) => taken.push(q.question),
            None => break,
        }
        file = rest;
    }
    let expected: Vec<String> = jumbled.iter().rev().map(|q| q.question.clone()).collect();
    assert_eq!(taken, expected);
    taken.sort();
    assert_eq!(
        taken,
        vec!["l: What's a nice thing from today?", "s: Hours of sleep?", "s: Number of coffees?"]
    );
}

#[test]
fn written_day_shows_without_invalid_chunks() {
    let text = format!(
        "i: 08:00\n{}{}\ni: 21:05\n{}{}",
        format_question(&Question::from("s: Hours of sleep?")),
        format_answer("7"),
        format_question(&Question::from("l: What's a nice thing from today?")),
        format_answer("Tea\nA walk")
    );
    let shown = jrl::pager::parse_date_file(&text).unwrap();
    assert!(!shown.contains("invalid"));
    assert_eq!(
        shown,
        "daily questions: \nWhat's a nice thing from today?\n    [21:05] Tea\n  A walk\n\n\
Hours of sleep?\n    [08:00] 7\n\n"
    );
}

#[test]
fn days_beyond_every_date_give_no_name() {
    assert!(get_day_file_name(200_000_000).is_none());
    assert!(get_day_file_name(-200_000_000).is_none());
    assert!(update_announcement(200_000_000).is_none());
    assert!(update_announcement(0).is_some());
    assert!(generate_jumbled_questions_file_name().is_some());
}

#[test]
fn announcement_and_file_name_name_the_same_day() {
    for days in [0i64, 1, 40, -2] {
        let name = get_day_file_name(days).unwrap();
        let text = update_announcement(days).unwrap();
        let months = ["Jan", "Feb", "Mar", "Apr", "May", "Jun", "Jul", "Aug", "Sep", "Oct", "Nov", "Dec"];
        let month: usize = name[5..7].parse().unwrap();
        let expected = format!("Update entry for {} {} {}:", &name[8..10], months[month - 1], &name[0..4]);
        assert_eq!(text, expected);
    }
}

#[test]
fn file_is_empty_after_a_round() {
    let jumbled = jumble_questions("s: A\nl: B\ns: C\n");
    let mut file = render_question_list(&jumbled);
    for _ in 0..3 {
        let (rest, last) = take_last_question(&file);
        assert!(last.is_some());
        file = rest;
    }
    assert_eq!(file, "");
}

#[test]
fn empty_answer_reads_back() {
    let question = Question::from("s: Ate meat?");
    let text = format!("i: 12:00\n{}{}", format_question(&question), format_answer(""));
    let mut lines = LineCursor::new(&text);
    let chunk = get_next_chunk(&mut lines).unwrap();
    assert_eq!(chunk.get_question().unwrap(), question);
    let answers: Vec<String> =
        chunk.get_answer().unwrap().iter().map(|a| a.get_text().unwrap()).collect();
    assert_eq!(answers, vec![String::new()]);
    assert!(matches!(get_next_chunk(&mut lines), Err(jrl::pager::ChunkError::UnexpectedFileEnd)));
}

#[test]
fn trailing_whitespace_of_the_last_answer_line_is_dropped() {
    let question = Question::from("l: Notes?");
    let text = format!("i: 12:00\n{}{}", format_question(&question), format_answer("one \ntwo  "));
    let mut lines = LineCursor::new(&text);
    let chunk = get_next_chunk(&mut lines).unwrap();
    let answers: Vec<String> =
        chunk.get_answer().unwrap().iter().map(|a| a.get_text().unwrap()).collect();
    assert_eq!(answers, vec!["one ".to_string(), "two".to_string()]);
}

#[test]
fn day_files_in_name_order() {
    let names: Vec<String> = ["2026-02-18.txt", "2025-12-31.txt", "2026-02-01.txt", "2026-02-18"]
        .iter()
        .map(|n| n.to_string())
        .collect();
    assert_eq!(day_file_order(&names), vec![1, 2, 3, 0]);
    assert_eq!(day_file_order(&Vec::new()), Vec::<usize>::new());
}

#[test]
fn last_entries_start() {
    assert_eq!(recent_entries_start(10, 3), 7);
    assert_eq!(recent_entries_start(10, 30), 0);
    assert_eq!(recent_entries_start(0, 30), 0);
    assert_eq!(recent_entries_start(5, 5), 0);
}
