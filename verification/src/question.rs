//! Questions and question chunks of a day file.
//!
//! A question line reads `t: text`, where the tag `t` is `l` (long
//! question), `s` (short question), `a` (answer) or `i` (information, such
//! as the time an entry was written). A chunk is a block of at least three
//! lines: an information line, a question line, and one or more answers.

use crate::cli::{DESCRIPTION_QUESTION_STR, NOTE_QUESTION_STR, RATING_QUESTION_STR};
use crate::text::{chars_eq, copy_range, from_chars, lines, lines_chars, to_chars, views};
use vstd::prelude::*;

verus! {

const QUESTION_TYPE_ERROR: &'static str = "question chunk does not fit the format";

/// The error that `std::io` reports; the chunk accessors return one of kind
/// `InvalidData` when a chunk has fewer than three lines.
#[verifier::external_type_specification]
#[verifier::external_body]
pub struct ExIoError(std::io::Error);

/// An `InvalidData` error carrying `msg` (`std::io::Error::new`). Nothing is
/// stated of the value: callers only pass it on.
#[verifier::external_body]
fn invalid_data(msg: &str) -> std::io::Error {
    std::io::Error::new(std::io::ErrorKind::InvalidData, msg)
}

/// The kind of a line, read from its tag.
#[derive(PartialEq, Eq, Structural, Debug, Clone, Copy)]
pub enum QuestionType {
    Short,
    Long,
    Answer,
    Info,
    Empty,
}

/// The three prompts that the command line can ask, or any other question.
#[derive(PartialEq, Eq, Structural, Debug, Clone, Copy)]
pub enum PromptQuestionType {
    Regular,
    Description,
    Note,
    Rating,
}

/// One line of a day file or of the questions file.
#[derive(PartialEq, Default, Clone, Debug)]
pub struct Question {
    pub question: String,
}

/// A block of lines of a day file.
#[derive(Debug)]
pub struct QuestionChunk {
    pub question_chunk: String,
}

impl View for Question {
    type V = Seq<char>;

    open spec fn view(&self) -> Seq<char> {
        self.question@
    }
}

impl View for QuestionChunk {
    type V = Seq<char>;

    open spec fn view(&self) -> Seq<char> {
        self.question_chunk@
    }
}

// ---------------------------------------------------------------------------
// What a line means
// ---------------------------------------------------------------------------

/// Whether the line starts with a one-character tag followed by `": "`.
pub open spec fn has_tag(s: Seq<char>) -> bool {
    s.len() >= 3 && s[1] == ':' && s[2] == ' '
}

/// The kind of a line: given by its tag, `Empty` for a line without one.
pub open spec fn kind_of(s: Seq<char>) -> QuestionType {
    if has_tag(s) {
        if s[0] == 'l' {
            QuestionType::Long
        } else if s[0] == 's' {
            QuestionType::Short
        } else if s[0] == 'a' {
            QuestionType::Answer
        } else if s[0] == 'i' {
            QuestionType::Info
        } else {
            QuestionType::Empty
        }
    } else {
        QuestionType::Empty
    }
}

/// The tag of a line as a string: its first character when that character
/// is a single byte and `": "` follows it, the empty string otherwise.
pub open spec fn tag_of(s: Seq<char>) -> Seq<char> {
    if has_tag(s) && (s[0] as u32) < 0x80 {
        s.take(1)
    } else {
        Seq::empty()
    }
}

/// The text of a line after its tag; empty for a line without a known tag.
pub open spec fn text_of(s: Seq<char>) -> Seq<char> {
    if kind_of(s) != QuestionType::Empty {
        s.skip(3)
    } else {
        Seq::empty()
    }
}

/// Which prompt a question line is.
pub open spec fn prompt_of(s: Seq<char>) -> PromptQuestionType {
    if s == DESCRIPTION_QUESTION_STR@ {
        PromptQuestionType::Description
    } else if s == NOTE_QUESTION_STR@ {
        PromptQuestionType::Note
    } else if s == RATING_QUESTION_STR@ {
        PromptQuestionType::Rating
    } else {
        PromptQuestionType::Regular
    }
}

/// Whether a chunk holds the three lines that its accessors need.
pub open spec fn chunk_is_complete(c: Seq<char>) -> bool {
    lines(c).len() >= 3
}

// ---------------------------------------------------------------------------
// Executable counterparts on character buffers
// ---------------------------------------------------------------------------

/// The kind of the line `s`.
pub fn kind_of_chars(s: &[char]) -> (t: QuestionType)
    ensures
        t == kind_of(s@),
{
    if s.len() >= 3 && s[1] == ':' && s[2] == ' ' {
        match s[0] {
            'l' => QuestionType::Long,
            's' => QuestionType::Short,
            'a' => QuestionType::Answer,
            'i' => QuestionType::Info,
            _ => QuestionType::Empty,
        }
    } else {
        QuestionType::Empty
    }
}

/// The text of the line `s` after its tag.
pub fn text_of_chars(s: &[char]) -> (t: Vec<char>)
    ensures
        t@ == text_of(s@),
{
    if kind_of_chars(s) != QuestionType::Empty {
        let t = copy_range(s, 3, s.len());
        proof {
            assert(t@ =~= s@.skip(3));
        }
        t
    } else {
        Vec::new()
    }
}

/// Which prompt the line `s` is.
pub fn prompt_of_chars(s: &[char]) -> (p: PromptQuestionType)
    ensures
        p == prompt_of(s@),
{
    let d = to_chars(DESCRIPTION_QUESTION_STR);
    let n = to_chars(NOTE_QUESTION_STR);
    let r = to_chars(RATING_QUESTION_STR);
    if chars_eq(s, d.as_slice()) {
        PromptQuestionType::Description
    } else if chars_eq(s, n.as_slice()) {
        PromptQuestionType::Note
    } else if chars_eq(s, r.as_slice()) {
        PromptQuestionType::Rating
    } else {
        PromptQuestionType::Regular
    }
}

// ---------------------------------------------------------------------------
// Conversions
// ---------------------------------------------------------------------------

impl From<String> for Question {
    fn from(s: String) -> (q: Self) {
        Question { question: s }
    }
}

impl vstd::std_specs::convert::FromSpecImpl<String> for Question {
    open spec fn obeys_from_spec() -> bool {
        true
    }

    open spec fn from_spec(s: String) -> Self {
        Question { question: s }
    }
}

impl From<&str> for Question {
    fn from(s: &str) -> (q: Self) {
        Question { question: s.to_owned() }
    }
}

impl vstd::std_specs::convert::FromSpecImpl<&str> for Question {
    open spec fn obeys_from_spec() -> bool {
        false
    }

    open spec fn from_spec(s: &str) -> Self {
        Question { question: arbitrary() }
    }
}

impl From<String> for QuestionChunk {
    fn from(s: String) -> (c: Self) {
        QuestionChunk { question_chunk: s }
    }
}

impl vstd::std_specs::convert::FromSpecImpl<String> for QuestionChunk {
    open spec fn obeys_from_spec() -> bool {
        true
    }

    open spec fn from_spec(s: String) -> Self {
        QuestionChunk { question_chunk: s }
    }
}

impl From<&str> for QuestionChunk {
    fn from(s: &str) -> (c: Self) {
        QuestionChunk { question_chunk: s.to_owned() }
    }
}

impl vstd::std_specs::convert::FromSpecImpl<&str> for QuestionChunk {
    open spec fn obeys_from_spec() -> bool {
        false
    }

    open spec fn from_spec(s: &str) -> Self {
        QuestionChunk { question_chunk: arbitrary() }
    }
}

impl Question {
    /// A question holding a copy of `s`.
    pub fn from_str_text(s: &str) -> (q: Question)
        ensures
            q@ == s@,
    {
        Question { question: s.to_owned() }
    }

    /// The line as it is written (the text that `Display` gives).
    pub fn to_string(&self) -> (s: String)
        ensures
            s@ == self@,
    {
        self.question.clone()
    }
}

impl QuestionChunk {
    /// A chunk holding a copy of `s`.
    pub fn from_str_text(s: &str) -> (c: QuestionChunk)
        ensures
            c@ == s@,
    {
        QuestionChunk { question_chunk: s.to_owned() }
    }
}

// ---------------------------------------------------------------------------
// The accessors
// ---------------------------------------------------------------------------

/// What a line or a chunk tells about itself.
pub trait Informative {
    fn is_question(&self) -> std::io::Result<bool>;

    fn get_type(&self) -> std::io::Result<QuestionType>;

    fn get_type_as_str(&self) -> std::io::Result<String>;

    fn get_prompt_type(&self) -> std::io::Result<PromptQuestionType>;

    fn get_text(&self) -> std::io::Result<String>;
}

/// The parts of a chunk.
pub trait ChunkParser {
    fn get_informative(&self) -> std::io::Result<Question>;

    fn get_question(&self) -> std::io::Result<Question>;

    fn get_answer(&self) -> std::io::Result<Vec<Question>>;
}

impl Informative for Question {
    fn is_question(&self) -> (r: std::io::Result<bool>)
        ensures
            r matches Ok(b) && b == (kind_of(self@) != QuestionType::Empty),
    {
        let question_type = self.get_type()?;
        if question_type != QuestionType::Empty {
            return Ok(true);
        }
        Ok(false)
    }

    fn get_type(&self) -> (r: std::io::Result<QuestionType>)
        ensures
            r matches Ok(t) && t == kind_of(self@),
    {
        let cs = to_chars(self.question.as_str());
        Ok(kind_of_chars(cs.as_slice()))
    }

    fn get_type_as_str(&self) -> (r: std::io::Result<String>)
        ensures
            r matches Ok(s) && s@ == tag_of(self@),
    {
        let cs = to_chars(self.question.as_str());
        if cs.len() >= 3 && cs[1] == ':' && cs[2] == ' ' && (cs[0] as u32) < 0x80 {
            let t = copy_range(cs.as_slice(), 0, 1);
            Ok(from_chars(t.as_slice()))
        } else {
            Ok(String::new())
        }
    }

    fn get_prompt_type(&self) -> (r: std::io::Result<PromptQuestionType>)
        ensures
            r matches Ok(p) && p == prompt_of(self@),
    {
        let cs = to_chars(self.question.as_str());
        Ok(prompt_of_chars(cs.as_slice()))
    }

    fn get_text(&self) -> (r: std::io::Result<String>)
        ensures
            r matches Ok(s) && s@ == text_of(self@),
    {
        let cs = to_chars(self.question.as_str());
        let t = text_of_chars(cs.as_slice());
        Ok(from_chars(t.as_slice()))
    }
}

impl ChunkParser for QuestionChunk {
    fn get_informative(&self) -> (r: std::io::Result<Question>)
        ensures
            r is Ok <==> chunk_is_complete(self@),
            r matches Ok(q) ==> q@ == lines(self@)[0],
    {
        let cs = to_chars(self.question_chunk.as_str());
        let question_lines = lines_chars(cs.as_slice());
        if question_lines.len() >= 3 {
            return Ok(Question { question: from_chars(question_lines[0].as_slice()) });
        }
        Err(invalid_data(QUESTION_TYPE_ERROR))
    }

    fn get_question(&self) -> (r: std::io::Result<Question>)
        ensures
            r is Ok <==> chunk_is_complete(self@),
            r matches Ok(q) ==> q@ == lines(self@)[1],
    {
        let cs = to_chars(self.question_chunk.as_str());
        let question_lines = lines_chars(cs.as_slice());
        if question_lines.len() >= 3 {
            return Ok(Question { question: from_chars(question_lines[1].as_slice()) });
        }
        Err(invalid_data(QUESTION_TYPE_ERROR))
    }

    fn get_answer(&self) -> (r: std::io::Result<Vec<Question>>)
        ensures
            r is Ok <==> chunk_is_complete(self@),
            r matches Ok(v) ==> v@.map_values(|q: Question| q@) == lines(self@).skip(2),
    {
        let cs = to_chars(self.question_chunk.as_str());
        let all_lines = lines_chars(cs.as_slice());
        if all_lines.len() <= 2 {
            return Err(invalid_data(QUESTION_TYPE_ERROR));
        }
        let mut answers: Vec<Question> = Vec::new();
        let mut i: usize = 2;
        while i < all_lines.len()
            invariant
                2 <= i <= all_lines@.len(),
                views(all_lines@) == lines(self@),
                answers@.map_values(|q: Question| q@) == lines(self@).subrange(2, i as int),
            decreases all_lines.len() - i,
        {
            let q = Question { question: from_chars(all_lines[i].as_slice()) };
            proof {
                assert(views(all_lines@)[i as int] == all_lines@[i as int]@);
            }
            let ghost before = answers@;
            let ghost qv = q@;
            answers.push(q);
            proof {
                assert(answers@.map_values(|q: Question| q@) =~= before.map_values(
                    |q: Question| q@,
                ).push(qv));
                assert(lines(self@).subrange(2, i + 1) =~= lines(self@).subrange(2, i as int).push(
                    lines(self@)[i as int],
                ));
                assert(answers@.map_values(|q: Question| q@) =~= lines(self@).subrange(
                    2,
                    i + 1,
                ));
            }
            i += 1;
        }
        proof {
            assert(lines(self@).subrange(2, all_lines@.len() as int) =~= lines(self@).skip(2));
        }
        Ok(answers)
    }
}

impl Informative for QuestionChunk {
    fn is_question(&self) -> (r: std::io::Result<bool>)
        ensures
            r is Ok <==> chunk_is_complete(self@),
            r matches Ok(b) ==> b == (kind_of(lines(self@)[1]) != QuestionType::Empty),
    {
        self.get_question()?.is_question()
    }

    fn get_type(&self) -> (r: std::io::Result<QuestionType>)
        ensures
            r is Ok <==> chunk_is_complete(self@),
            r matches Ok(t) ==> t == kind_of(lines(self@)[1]),
    {
        self.get_question()?.get_type()
    }

    fn get_type_as_str(&self) -> (r: std::io::Result<String>)
        ensures
            r is Ok <==> chunk_is_complete(self@),
            r matches Ok(s) ==> s@ == tag_of(lines(self@)[1]),
    {
        self.get_question()?.get_type_as_str()
    }

    fn get_prompt_type(&self) -> (r: std::io::Result<PromptQuestionType>)
        ensures
            r is Ok <==> chunk_is_complete(self@),
            r matches Ok(p) ==> p == prompt_of(lines(self@)[1]),
    {
        self.get_question()?.get_prompt_type()
    }

    fn get_text(&self) -> (r: std::io::Result<String>)
        ensures
            r matches Ok(s) && s@ == self@,
    {
        Ok(self.question_chunk.clone())
    }
}

} // verus!
