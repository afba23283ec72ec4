use jrl::cli::{DESCRIPTION_QUESTION_STR, NOTE_QUESTION_STR, RATING_QUESTION_STR};
use jrl::question::{ChunkParser, Informative, PromptQuestionType, Question, QuestionChunk, QuestionType};

fn q(s: &str) -> Question {
    Question::from(s.to_string())
}

#[test]
fn type_of_each_tag() {
    assert_eq!(q("l: How was it?").get_type().unwrap(), QuestionType::Long);
    assert_eq!(q("s: Hours of sleep?").get_type().unwrap(), QuestionType::Short);
    assert_eq!(q("a: fine").get_type().unwrap(), QuestionType::Answer);
    assert_eq!(q("i: 09:30").get_type().unwrap(), QuestionType::Info);
}

#[test]
fn type_of_untagged_lines_is_empty() {
    assert_eq!(q("x: what").get_type().unwrap(), QuestionType::Empty);
    assert_eq!(q("l:no space").get_type().unwrap(), QuestionType::Empty);
    assert_eq!(q("").get_type().unwrap(), QuestionType::Empty);
    assert_eq!(q("l:").get_type().unwrap(), QuestionType::Empty);
    assert_eq!(q("é: x").get_type().unwrap(), QuestionType::Empty);
    assert_eq!(q("plain text").get_type().unwrap(), QuestionType::Empty);
}

#[test]
fn is_question_follows_the_tag() {
    assert!(q("l: Long question").is_question().unwrap());
    assert!(q("a: an answer").is_question().unwrap());
    assert!(!q("Long question").is_question().unwrap());
}

#[test]
fn type_as_str_is_the_tag() {
    assert_eq!(q("l: hi").get_type_as_str().unwrap(), "l");
    assert_eq!(q("z: hi").get_type_as_str().unwrap(), "z");
    assert_eq!(q("é: hi").get_type_as_str().unwrap(), "");
    assert_eq!(q("hi").get_type_as_str().unwrap(), "");
}

#[test]
fn text_after_the_tag() {
    assert_eq!(q("l: How are you?").get_text().unwrap(), "How are you?");
    assert_eq!(q("a: ").get_text().unwrap(), "");
    assert_eq!(q("z: untagged").get_text().unwrap(), "");
    assert_eq!(q("s: Café?").get_text().unwrap(), "Café?");
}

#[test]
fn prompt_types() {
    assert_eq!(q(DESCRIPTION_QUESTION_STR).get_prompt_type().unwrap(), PromptQuestionType::Description);
    assert_eq!(q(NOTE_QUESTION_STR).get_prompt_type().unwrap(), PromptQuestionType::Note);
    assert_eq!(q(RATING_QUESTION_STR).get_prompt_type().unwrap(), PromptQuestionType::Rating);
    assert_eq!(q("l: Add a note").get_prompt_type().unwrap(), PromptQuestionType::Regular);
}

#[test]
fn question_from_and_to_string() {
    let question = Question::from("s: Cups of tea?".to_string());
    assert_eq!(question.question, "s: Cups of tea?");
    assert_eq!(question.to_string(), "s: Cups of tea?");
    assert_eq!(Question::from("l: x").question, "l: x");
    assert_eq!(Question::from_str_text("a: y").question, "a: y");
}

#[test]
fn chunk_parts() {
    let chunk = QuestionChunk::from("i: 10:00\nl: What happened?\na: Rain\na: Wind".to_string());
    assert_eq!(chunk.get_informative().unwrap().question, "i: 10:00");
    assert_eq!(chunk.get_question().unwrap().question, "l: What happened?");
    let answers: Vec<String> = chunk.get_answer().unwrap().into_iter().map(|a| a.question).collect();
    assert_eq!(answers, vec!["a: Rain".to_string(), "a: Wind".to_string()]);
    assert_eq!(chunk.get_type().unwrap(), QuestionType::Long);
    assert_eq!(chunk.get_type_as_str().unwrap(), "l");
    assert!(chunk.is_question().unwrap());
    assert_eq!(chunk.get_prompt_type().unwrap(), PromptQuestionType::Regular);
    assert_eq!(chunk.get_text().unwrap(), "i: 10:00\nl: What happened?\na: Rain\na: Wind");
}

#[test]
fn chunk_with_windows_line_ends() {
    let chunk = QuestionChunk::from("i: 10:00\r\ns: Q?\r\na: 5");
    assert_eq!(chunk.get_question().unwrap().question, "s: Q?");
    assert_eq!(chunk.get_answer().unwrap()[0].question, "a: 5");
}

#[test]
fn short_chunk_is_invalid_data() {
    let chunk = QuestionChunk::from("i: 10:00\nl: Only a question".to_string());
    assert_eq!(chunk.get_informative().unwrap_err().kind(), std::io::ErrorKind::InvalidData);
    assert_eq!(chunk.get_question().unwrap_err().kind(), std::io::ErrorKind::InvalidData);
    assert_eq!(chunk.get_answer().unwrap_err().kind(), std::io::ErrorKind::InvalidData);
    assert!(chunk.get_type().is_err());
    assert!(chunk.is_question().is_err());
    assert!(chunk.get_type_as_str().is_err());
    assert!(chunk.get_prompt_type().is_err());
    assert!(chunk.get_text().is_ok());
}
