use jrl::pager::{
    display_header, format_content, get_next_chunk, get_quote_from_str, parse_date_file, quote_phrases,
    visible_lines, wraps_cleanly, ChunkError, LineCursor, QuoteError,
};

const DAY: &str = "i: 09:00
s: Add a rating for your day out of ten:
a: 8

i: 10:00
l: Add a description about the day:
a: Good day
a: Sunny

i: 11:00
l: Add a note during the day:
a: Remember milk

i: 12:00
l: What's a nice thing from today?
a: Coffee
a: Friends

i: 13:00
s: Hours of sleep?
a: 7

i: 14:00
s: Hours of sleep?
a: 8

i: 15:00
s: Cups of tea?
a: 2

bad line
";

#[test]
fn chunks_one_after_another() {
    let mut lines = LineCursor::new("i: 1\nl: Q\na: A\n\n\ni: 2\nl: R\n\ni: 3\ns: S\na: B");
    let first = get_next_chunk(&mut lines).unwrap();
    assert_eq!(first.question_chunk, "i: 1\nl: Q\na: A");
    assert_eq!(lines.next, 4);
    assert_eq!(get_next_chunk(&mut lines).unwrap_err(), ChunkError::EmptyChunk);
    assert_eq!(lines.next, 5);
    assert_eq!(get_next_chunk(&mut lines).unwrap_err(), ChunkError::MalformedChunk);
    assert_eq!(lines.next, 8);
    let last = get_next_chunk(&mut lines).unwrap();
    assert_eq!(last.question_chunk, "i: 3\ns: S\na: B");
    assert_eq!(lines.next, 11);
    assert_eq!(get_next_chunk(&mut lines).unwrap_err(), ChunkError::UnexpectedFileEnd);
    assert_eq!(lines.next, 11);
}

#[test]
fn chunk_is_trimmed() {
    let mut lines = LineCursor::new("   i: 1\nl: Q\na: A   \n");
    let c = get_next_chunk(&mut lines).unwrap();
    assert_eq!(c.question_chunk, "i: 1\nl: Q\na: A");
}

#[test]
fn whitespace_only_block_before_empty_line_is_empty_chunk() {
    let mut lines = LineCursor::new("   \n\ni: 1\nl: Q\na: A");
    assert_eq!(get_next_chunk(&mut lines).unwrap_err(), ChunkError::EmptyChunk);
    assert!(get_next_chunk(&mut lines).is_ok());
}

#[test]
fn whitespace_only_last_block_is_malformed() {
    let mut lines = LineCursor::new("i: 1\nl: Q\na: A\n\n   ");
    assert!(get_next_chunk(&mut lines).is_ok());
    assert_eq!(get_next_chunk(&mut lines).unwrap_err(), ChunkError::MalformedChunk);
}

#[test]
fn empty_file_has_no_chunk() {
    let mut lines = LineCursor::new("");
    assert_eq!(get_next_chunk(&mut lines).unwrap_err(), ChunkError::UnexpectedFileEnd);
}

#[test]
fn day_file_as_the_pager_shows_it() {
    let expected = "rating: [09:00] 8\n\n\
description: \n    [10:00] Good day\n  Sunny\n\n\
notes: \n    [11:00] Remember milk\n\n\
daily questions: \nWhat's a nice thing from today?\n    [12:00] Coffee\n  Friends\n\n\
Cups of tea?\n    [15:00] 2\n\n\
Hours of sleep?\n    [13:00] 7 -> [14:00] 8\n\n\
Encountered 1 invalid chunk(s) in file!";
    assert_eq!(parse_date_file(DAY).unwrap(), expected);
}

#[test]
fn empty_day_file_shows_nothing() {
    assert_eq!(parse_date_file("").unwrap(), "");
}

#[test]
fn long_questions_sorted_and_grouped() {
    let day = "i: 1\nl: b?\na: x\n\ni: 2\nl: a?\na: y\n\ni: 3\nl: b?\na: z\na: w";
    let expected = "daily questions: \na?\n    [2] y\n\nb?\n    [1] x\n    [3] z\n  w\n\n";
    assert_eq!(parse_date_file(day).unwrap(), expected);
}

#[test]
fn many_ratings_joined_by_arrows() {
    let day = "i: 1\ns: Add a rating for your day out of ten:\na: 5\n\ni: 2\ns: Add a rating for your day out of ten:\na: 7";
    assert_eq!(parse_date_file(day).unwrap(), "rating: [1] 5->[2] 7\n\n");
}

#[test]
fn invalid_chunks_are_counted() {
    let day = "\nx\n\ny\nz\n\ni: 1\ns: S\na: 3";
    assert_eq!(
        parse_date_file(day).unwrap(),
        "S\n    [1] 3\n\nEncountered 3 invalid chunk(s) in file!"
    );
}

#[test]
fn phrases_for_quotes() {
    let phrases = quote_phrases(DAY);
    assert_eq!(phrases, vec!["Good day", "Sunny", "Remember milk", "Coffee", "Friends"]);
}

#[test]
fn phrases_are_cut_and_trimmed() {
    let day = "i: 1\nl: Q\na: One. Two!  Three?\tFour";
    assert_eq!(quote_phrases(day), vec!["One", "Two", "Three", "Four"]);
}

#[test]
fn quote_is_one_of_the_phrases() {
    let phrases = quote_phrases(DAY);
    for _ in 0..20 {
        let quote = get_quote_from_str(DAY).ok().unwrap();
        assert!(phrases.contains(&quote));
    }
}

#[test]
fn no_phrase_no_quote() {
    let day = "i: 1\ns: Hours of sleep?\na: 8";
    assert!(matches!(get_quote_from_str(day), Err(QuoteError::EmptyQuote)));
    assert!(matches!(get_quote_from_str(""), Err(QuoteError::EmptyQuote)));
}

#[test]
fn wrap_two_words() {
    assert_eq!(format_content("hello world", 6), vec!["hello ", "world ", ""]);
    assert_eq!(format_content("hello world", 20), vec!["hello world ", ""]);
}

#[test]
fn wrap_cuts_long_words() {
    assert_eq!(format_content("abcdef", 3), vec!["", "abc ", ""]);
}

#[test]
fn wrap_each_line_ends_a_terminal_line() {
    assert_eq!(format_content("a\nb", 10), vec!["a ", "b ", ""]);
    assert_eq!(format_content("", 10), vec![""]);
}

#[test]
fn wrap_counts_bytes() {
    // "é" takes two bytes: "éé" is four bytes wide.
    assert_eq!(format_content("éé x", 5), vec!["éé ", "x ", ""]);
    assert!(wraps_cleanly("éé x", 5));
    assert!(!wraps_cleanly("é", 1));
    assert!(wraps_cleanly("ab", 1));
}

#[test]
fn visible_window() {
    let lines: Vec<String> = (0..10).map(|i| i.to_string()).collect();
    assert_eq!(visible_lines(&lines, 0, 5), vec!["0", "1", "2"]);
    assert_eq!(visible_lines(&lines, 8, 5), vec!["8", "9"]);
    assert_eq!(visible_lines(&lines, 12, 5), Vec::<String>::new());
    assert_eq!(visible_lines(&lines, 3, 2), Vec::<String>::new());
    assert_eq!(visible_lines(&lines, 1, 1), Vec::<String>::new());
    assert_eq!(visible_lines(&lines, 2, 0), Vec::<String>::new());
    assert_eq!(visible_lines(&lines, 12, 0), Vec::<String>::new());
    assert_eq!(visible_lines(&lines, 1, 4), vec!["1", "2"]);
}

#[test]
fn wrapped_lines_fit_the_width() {
    let text = "one two three four five six seven eight nine ten\nabcdefghijklmnop qr\n\nlast";
    for width in 3u16..20 {
        for line in format_content(text, width) {
            assert!(line.len() <= width as usize + 1, "{:?} at width {}", line, width);
        }
    }
}

#[test]
fn header_with_weekday() {
    assert_eq!(display_header("2026-02-18"), Some("2026-02-18 Wed".to_string()));
    assert_eq!(display_header("2024-02-29"), Some("2024-02-29 Thu".to_string()));
    assert_eq!(display_header("2023-02-29"), None);
    assert_eq!(display_header("questions"), None);
}

#[test]
fn quote_at_each_index() {
    let day = "i: 1\nl: What's new?\na: Rain. Sun!\na: wind";
    assert_eq!(jrl::pager::quote_at(day, 0), "Rain");
    assert_eq!(jrl::pager::quote_at(day, 1), "Sun");
    assert_eq!(jrl::pager::quote_at(day, 2), "wind");
}

#[test]
fn chunks_about_different_questions_commute() {
    let blocks = [
        "i: 08:00\ns: Hours of sleep?\na: 7",
        "i: 09:00\ns: Cups of tea?\na: 2\na: 3",
        "i: 10:00\nl: What's new?\na: Rain",
        "i: 11:00\nl: Add a description about the day:\na: Calm",
        "i: 12:00\ns: Add a rating for your day out of ten:\na: 8",
    ];
    for a in blocks.iter() {
        for b in blocks.iter() {
            if a != b {
                let ab = parse_date_file(&format!("{}\n\n{}", a, b)).unwrap();
                let ba = parse_date_file(&format!("{}\n\n{}", b, a)).unwrap();
                assert_eq!(ab, ba);
            }
        }
    }
}
