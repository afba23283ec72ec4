//! Reading a day file chunk by chunk, and what the pager shows of it.
//!
//! A day file is a sequence of chunks separated by empty lines. Each chunk
//! is an information line (`i: HH:MM`), a question line and its answer
//! lines.

use crate::question::{
    chunk_is_complete, kind_of, prompt_of, text_of, ChunkParser, Informative, PromptQuestionType,
    Question, QuestionChunk, QuestionType,
};
use crate::text::{
    chars_eq, copy_range, decimal, extend_chars, extend_str, from_chars, join_chars, join_terminated,
    join_with, lines, lines_chars, push_decimal, split_on, to_chars, trim, trim_chars, views,
};
use vstd::prelude::*;

verus! {

broadcast use vstd::string::group_string_axioms;

/// Why no chunk could be read.
#[derive(Debug, PartialEq, Eq, Structural, Clone, Copy)]
pub enum ChunkError {
    /// An empty line came before any text.
    EmptyChunk,
    /// The block has fewer than three lines.
    MalformedChunk,
    /// No line is left.
    UnexpectedFileEnd,
}

/// Why no quote could be taken.
#[derive(Debug, PartialEq, Eq, Structural, Clone, Copy)]
pub enum QuoteError {
    /// The file holds no phrase to quote.
    EmptyQuote,
}

/// The lines of a text and the position of the next line to read.
pub struct LineCursor {
    pub lines: Vec<Vec<char>>,
    pub next: usize,
}

impl LineCursor {
    /// A cursor at the first line of `content`.
    pub fn new(content: &str) -> (c: LineCursor)
        ensures
            views(c.lines@) == lines(content@),
            c.next == 0,
    {
        let cs = to_chars(content);
        LineCursor { lines: lines_chars(cs.as_slice()), next: 0 }
    }

    /// The lines, as character sequences.
    pub open spec fn line_views(&self) -> Seq<Seq<char>> {
        views(self.lines@)
    }
}

// ---------------------------------------------------------------------------
// Chunks
// ---------------------------------------------------------------------------

/// The index of the first empty line at or after `from`; `ls.len()` if
/// there is none.
pub open spec fn first_empty_from(ls: Seq<Seq<char>>, from: int) -> int
    decreases ls.len() - from,
{
    if from >= ls.len() {
        ls.len() as int
    } else if ls[from].len() == 0 {
        from
    } else {
        first_empty_from(ls, from + 1)
    }
}

/// What reading a chunk at line `pos` gives, and the line after it: the
/// non-empty lines up to the next empty line, each ended by `'\n'` and the
/// whole trimmed. An empty line before any text other than whitespace gives
/// `EmptyChunk`; a block of fewer than three lines gives `MalformedChunk`.
pub open spec fn next_chunk(ls: Seq<Seq<char>>, pos: int) -> (Result<Seq<char>, ChunkError>, int) {
    if pos < 0 || pos >= ls.len() {
        (Err(ChunkError::UnexpectedFileEnd), pos)
    } else {
        let e = first_empty_from(ls, pos);
        let text = trim(join_terminated(ls.subrange(pos, e)));
        if e < ls.len() && text.len() == 0 {
            (Err(ChunkError::EmptyChunk), e + 1)
        } else if chunk_is_complete(text) {
            (Ok(text), if e < ls.len() { e + 1 } else { e })
        } else {
            (Err(ChunkError::MalformedChunk), if e < ls.len() { e + 1 } else { e })
        }
    }
}

/// The results of reading chunk after chunk from line `pos` to the end.
pub open spec fn chunks_from(ls: Seq<Seq<char>>, pos: int) -> Seq<Result<Seq<char>, ChunkError>>
    decreases ls.len() - pos,
    via chunks_from_decreases
{
    if pos < 0 || pos >= ls.len() {
        Seq::empty()
    } else {
        seq![next_chunk(ls, pos).0] + chunks_from(ls, next_chunk(ls, pos).1)
    }
}

#[via_fn]
proof fn chunks_from_decreases(ls: Seq<Seq<char>>, pos: int) {
    if 0 <= pos < ls.len() {
        lemma_first_empty_bounds(ls, pos);
    }
}

/// `first_empty_from` lies between `from` and the end, and the lines before
/// it are not empty.
pub proof fn lemma_first_empty_bounds(ls: Seq<Seq<char>>, from: int)
    requires
        0 <= from <= ls.len(),
    ensures
        from <= first_empty_from(ls, from) <= ls.len(),
        first_empty_from(ls, from) < ls.len() ==> ls[first_empty_from(ls, from)].len() == 0,
        forall|j: int| from <= j < first_empty_from(ls, from) ==> ls[j].len() > 0,
    decreases ls.len() - from,
{
    if from < ls.len() && ls[from].len() > 0 {
        lemma_first_empty_bounds(ls, from + 1);
    }
}

/// `first_empty_from` is the first empty line at or after `from`.
proof fn lemma_first_empty_is(ls: Seq<Seq<char>>, from: int, i: int)
    requires
        0 <= from <= i <= ls.len(),
        forall|j: int| from <= j < i ==> ls[j].len() > 0,
        i == ls.len() || ls[i].len() == 0,
    ensures
        first_empty_from(ls, from) == i,
    decreases i - from,
{
    if from < i {
        lemma_first_empty_is(ls, from + 1, i);
    }
}

/// The chunk text of a chunk result, as the executable result shows it.
pub open spec fn chunk_result_view(r: Result<QuestionChunk, ChunkError>) -> Result<
    Seq<char>,
    ChunkError,
> {
    match r {
        Ok(c) => Ok(c@),
        Err(e) => Err(e),
    }
}

/// Reads the next chunk: the lines up to the next empty line, trimmed.
pub fn get_next_chunk(lines: &mut LineCursor) -> (r: Result<QuestionChunk, ChunkError>)
    ensures
        final(lines).lines@ == old(lines).lines@,
        (chunk_result_view(r), final(lines).next as int) == next_chunk(
            old(lines).line_views(),
            old(lines).next as int,
        ),
{
    let ghost ls = lines.line_views();
    let ghost pos = lines.next as int;
    let mut this_chunk_str: Vec<char> = Vec::new();
    let n = lines.lines.len();
    if lines.next >= n {
        return Err(ChunkError::UnexpectedFileEnd);
    }
    proof {
        assert(ls.subrange(pos, pos) =~= Seq::<Seq<char>>::empty());
    }
    while lines.next < n
        invariant
            n == lines.lines@.len(),
            lines.lines@ == old(lines).lines@,
            ls == lines.line_views(),
            pos == old(lines).next,
            pos <= lines.next <= n,
            lines.next == pos || lines.next < n,
            forall|j: int| pos <= j < lines.next ==> ls[j].len() > 0,
            this_chunk_str@ == join_terminated(ls.subrange(pos, lines.next as int)),
        decreases n - lines.next,
    {
        let i = lines.next;
        lines.next = i + 1;
        proof {
            assert(ls[i as int] == lines.lines@[i as int]@);
            assert(ls.subrange(pos, i + 1).drop_last() =~= ls.subrange(pos, i as int));
        }
        let line_len = lines.lines[i].len();
        if line_len != 0 {
            extend_chars(&mut this_chunk_str, lines.lines[i].as_slice());
            this_chunk_str.push('\n');
            proof {
                assert(ls.subrange(pos, i + 1).last() == ls[i as int]);
                assert(this_chunk_str@ =~= join_terminated(ls.subrange(pos, i + 1)));
            }
        } else {
            let trimmed = trim_chars(this_chunk_str.as_slice());
            if trimmed.len() == 0 {
                proof {
                    lemma_first_empty_is(ls, pos, i as int);
                }
                return Err(ChunkError::EmptyChunk);
            }
        }
        if lines.next >= n || line_len == 0 {
            proof {
                if line_len == 0 {
                    lemma_first_empty_is(ls, pos, i as int);
                } else {
                    lemma_first_empty_is(ls, pos, n as int);
                    assert(ls.subrange(pos, i + 1) == ls.subrange(pos, n as int));
                }
            }
            let trimmed = trim_chars(this_chunk_str.as_slice());
            let this_chunk = QuestionChunk { question_chunk: from_chars(trimmed.as_slice()) };
            let ghost e = if line_len == 0 { i as int } else { n as int };
            proof {
                assert(first_empty_from(ls, pos) == e);
                assert(this_chunk@ == trim(join_terminated(ls.subrange(pos, e))));
                assert(lines.next == if e < ls.len() { e + 1 } else { e });
            }
            match this_chunk.get_type() {
                Ok(_) => return Ok(this_chunk),
                _ => return Err(ChunkError::MalformedChunk),
            }
        }
    }
    Err(ChunkError::UnexpectedFileEnd)
}

// ---------------------------------------------------------------------------
// The summary of a day file
// ---------------------------------------------------------------------------

/// `[info] text`.
pub open spec fn bracketed(info: Seq<char>, t: Seq<char>) -> Seq<char> {
    "["@ + info + "] "@ + t
}

/// The text of the information line of a chunk.
pub open spec fn chunk_info(c: Seq<char>) -> Seq<char> {
    text_of(lines(c)[0])
}

/// The question line of a chunk.
pub open spec fn chunk_question(c: Seq<char>) -> Seq<char> {
    lines(c)[1]
}

/// The texts of the answer lines of a chunk.
pub open spec fn chunk_answers(c: Seq<char>) -> Seq<Seq<char>> {
    lines(c).skip(2).map_values(|a: Seq<char>| text_of(a))
}

/// Answers as the pager lists them under a heading: the first indented by
/// four spaces after the information, the others by two spaces.
pub open spec fn indented_answers(info: Seq<char>, ts: Seq<Seq<char>>) -> Seq<Seq<char>> {
    Seq::new(
        ts.len(),
        |i: int|
            if i == 0 {
                "    "@ + bracketed(info, ts[0])
            } else {
                "  "@ + ts[i]
            },
    )
}

/// What the pager gathers from the chunks of a day file.
pub struct DaySummary {
    pub ratings: Seq<Seq<char>>,
    pub descriptions: Seq<Seq<char>>,
    pub notes: Seq<Seq<char>>,
    /// Long questions: (question text, all answers of the chunk).
    pub long_entries: Seq<(Seq<char>, Seq<char>)>,
    /// Other questions: (question text, one answer).
    pub short_entries: Seq<(Seq<char>, Seq<char>)>,
    /// Chunks that were empty or malformed.
    pub invalid: nat,
}

/// The summary of no chunk.
pub open spec fn empty_summary() -> DaySummary {
    DaySummary {
        ratings: Seq::empty(),
        descriptions: Seq::empty(),
        notes: Seq::empty(),
        long_entries: Seq::empty(),
        short_entries: Seq::empty(),
        invalid: 0,
    }
}

/// The summary after one more chunk result.
pub open spec fn add_chunk(s: DaySummary, r: Result<Seq<char>, ChunkError>) -> DaySummary {
    match r {
        Ok(c) => {
            let q = chunk_question(c);
            let info = chunk_info(c);
            let ts = chunk_answers(c);
            let p = prompt_of(q);
            if p == PromptQuestionType::Rating {
                DaySummary {
                    ratings: s.ratings + ts.map_values(|t: Seq<char>| bracketed(info, t)),
                    ..s
                }
            } else if p == PromptQuestionType::Description {
                DaySummary { descriptions: s.descriptions + indented_answers(info, ts), ..s }
            } else if p == PromptQuestionType::Note {
                DaySummary { notes: s.notes + indented_answers(info, ts), ..s }
            } else if kind_of(q) == QuestionType::Long {
                DaySummary {
                    long_entries: s.long_entries.push(
                        (text_of(q), join_with(indented_answers(info, ts), "\n"@)),
                    ),
                    ..s
                }
            } else {
                DaySummary {
                    short_entries: s.short_entries + ts.map_values(
                        |t: Seq<char>| (text_of(q), bracketed(info, t)),
                    ),
                    ..s
                }
            }
        },
        Err(ChunkError::UnexpectedFileEnd) => s,
        Err(_) => DaySummary { invalid: s.invalid + 1, ..s },
    }
}

/// The summary of a sequence of chunk results.
pub open spec fn summarize(rs: Seq<Result<Seq<char>, ChunkError>>) -> DaySummary
    decreases rs.len(),
{
    if rs.len() == 0 {
        empty_summary()
    } else {
        add_chunk(summarize(rs.drop_last()), rs.last())
    }
}

/// Chunks that were all read count no invalid chunk.
pub proof fn lemma_summarize_read_chunks(rs: Seq<Result<Seq<char>, ChunkError>>)
    requires
        forall|i: int| 0 <= i < rs.len() ==> (#[trigger] rs[i]) is Ok,
    ensures
        summarize(rs).invalid == 0,
    decreases rs.len(),
{
    if rs.len() > 0 {
        let init = rs.drop_last();
        assert forall|i: int| 0 <= i < init.len() implies (#[trigger] init[i]) is Ok by {
            assert(init[i] == rs[i]);
        }
        lemma_summarize_read_chunks(init);
        assert(rs[rs.len() - 1] is Ok);
    }
}

// ---------------------------------------------------------------------------
// Entries grouped by question, in the order of the question texts
// ---------------------------------------------------------------------------

/// `a` comes before `b` (`String`'s order: by character codes, a prefix
/// first).
pub open spec fn key_less(a: Seq<char>, b: Seq<char>) -> bool
    decreases a.len(),
{
    if a.len() == 0 {
        b.len() > 0
    } else if b.len() == 0 {
        false
    } else if (a[0] as u32) < (b[0] as u32) {
        true
    } else if a[0] == b[0] {
        key_less(a.drop_first(), b.drop_first())
    } else {
        false
    }
}

/// Groups of values under their keys.
pub type Groups = Seq<(Seq<char>, Seq<Seq<char>>)>;

/// The number of groups whose key comes before `k`, counted from the front.
pub open spec fn insert_pos(gs: Groups, k: Seq<char>) -> int
    decreases gs.len(),
{
    if gs.len() > 0 && key_less(gs[0].0, k) {
        1 + insert_pos(gs.drop_first(), k)
    } else {
        0
    }
}

/// `v` added under `k`: at the end of the group of `k` if there is one,
/// else as a new group at its place in key order.
pub open spec fn group_insert(gs: Groups, k: Seq<char>, v: Seq<char>) -> Groups {
    let j = insert_pos(gs, k);
    if 0 <= j < gs.len() && gs[j].0 == k {
        gs.update(j, (k, gs[j].1.push(v)))
    } else {
        gs.insert(j, (k, seq![v]))
    }
}

/// The entries grouped by key, as a `BTreeMap<String, Vec<String>>` filled
/// with them holds them.
pub open spec fn group_entries(es: Seq<(Seq<char>, Seq<char>)>) -> Groups
    decreases es.len(),
{
    if es.len() == 0 {
        Seq::empty()
    } else {
        group_insert(group_entries(es.drop_last()), es.last().0, es.last().1)
    }
}

// ---------------------------------------------------------------------------
// The text the pager shows
// ---------------------------------------------------------------------------

/// A titled section: nothing for no item.
pub open spec fn titled(title: Seq<char>, items: Seq<Seq<char>>, sep: Seq<char>) -> Seq<char> {
    if items.len() == 0 {
        Seq::empty()
    } else {
        title + join_with(items, sep) + "\n\n"@
    }
}

/// Each group: its key, `after_key`, its values joined by `sep`, a blank line.
pub open spec fn render_groups(gs: Groups, after_key: Seq<char>, sep: Seq<char>) -> Seq<char>
    decreases gs.len(),
{
    if gs.len() == 0 {
        Seq::empty()
    } else {
        render_groups(gs.drop_last(), after_key, sep) + gs.last().0 + after_key + join_with(
            gs.last().1,
            sep,
        ) + "\n\n"@
    }
}

/// The text of a summary.
pub open spec fn render_summary(s: DaySummary) -> Seq<char> {
    titled("rating: "@, s.ratings, "->"@) + titled("description: \n"@, s.descriptions, "\n"@)
        + titled("notes: \n"@, s.notes, "\n"@) + (if s.long_entries.len() == 0 {
        Seq::empty()
    } else {
        "daily questions: \n"@ + render_groups(group_entries(s.long_entries), "\n"@, "\n"@)
    }) + render_groups(group_entries(s.short_entries), "\n    "@, " -> "@) + (if s.invalid == 0 {
        Seq::empty()
    } else {
        "Encountered "@ + decimal(s.invalid) + " invalid chunk(s) in file!"@
    })
}

/// What the pager shows of a day file with content `content`.
pub open spec fn day_file_view(content: Seq<char>) -> Seq<char> {
    render_summary(summarize(chunks_from(lines(content), 0)))
}

// ---------------------------------------------------------------------------
// Lemmas
// ---------------------------------------------------------------------------

/// Reading at a line inside the text moves forward and finds something
/// other than the end; reading past the end finds the end and stays.
pub proof fn lemma_next_chunk_advances(ls: Seq<Seq<char>>, pos: int)
    ensures
        0 <= pos < ls.len() ==> pos < next_chunk(ls, pos).1 <= ls.len() && next_chunk(ls, pos).0
            != Err::<Seq<char>, ChunkError>(ChunkError::UnexpectedFileEnd),
        !(0 <= pos < ls.len()) ==> next_chunk(ls, pos) == (
            Err::<Seq<char>, ChunkError>(ChunkError::UnexpectedFileEnd),
            pos,
        ),
{
    if 0 <= pos < ls.len() {
        lemma_first_empty_bounds(ls, pos);
    }
}

/// A block that reads back as one chunk: at least three lines, none empty,
/// none holding a line end or ending with `'\r'`, starting with text other
/// than whitespace, and with text other than whitespace on its last line.
pub open spec fn readable_block(b: Seq<Seq<char>>) -> bool {
    &&& b.len() >= 3
    &&& forall|i: int| 0 <= i < b.len() ==> #[trigger] b[i].len() > 0
    &&& forall|i: int| 0 <= i < b.len() ==> !crate::text::has_char(#[trigger] b[i], '\n')
    &&& forall|i: int| 0 <= i < b.len() ==> crate::text::strip_cr(#[trigger] b[i]) == b[i]
    &&& !crate::text::is_whitespace(b[0][0])
    &&& crate::text::trim_end(b.last()).len() > 0
}

/// The lines of a block as its chunk holds them: the last line without its
/// trailing whitespace, which trimming the chunk drops.
pub open spec fn trimmed_block(b: Seq<Seq<char>>) -> Seq<Seq<char>> {
    b.update(b.len() - 1, crate::text::trim_end(b.last()))
}

/// A readable block, its lines ended and trimmed, is its trimmed lines
/// joined, and the lines of that text are the trimmed block.
proof fn lemma_trim_block(b: Seq<Seq<char>>)
    requires
        readable_block(b),
    ensures
        trim(join_terminated(b)) == join_with(trimmed_block(b), seq!['\n']),
        lines(join_with(trimmed_block(b), seq!['\n'])) == trimmed_block(b),
        chunk_is_complete(join_with(trimmed_block(b), seq!['\n'])),
        trimmed_block(b).len() == b.len(),
        forall|i: int| 0 <= i < b.len() - 1 ==> #[trigger] trimmed_block(b)[i] == b[i],
{
    let tb = trimmed_block(b);
    let last = b.last();
    let tl = crate::text::trim_end(last);
    let jw = join_with(b, seq!['\n']);
    let jtb = join_with(tb, seq!['\n']);
    crate::text::lemma_join_terminated_is_join(b);
    crate::text::lemma_join_with_first(b, seq!['\n']);
    let x = join_terminated(b);
    assert(x == jw + seq!['\n']);
    assert(x[0] == jw[0]);
    assert(crate::text::trim_start(x) == x);
    assert(crate::text::is_whitespace(x.last()));
    assert(x.drop_last() =~= jw);
    assert(crate::text::trim_end(x) == crate::text::trim_end(jw));
    let pre = join_with(b.drop_last(), seq!['\n']) + seq!['\n'];
    assert(jw == pre + last);
    crate::text::lemma_trim_end_concat(pre, last);
    assert(tb.drop_last() =~= b.drop_last());
    assert(tb.last() == tl);
    assert(jtb == join_with(tb.drop_last(), seq!['\n']) + seq!['\n'] + tb.last());
    assert(crate::text::trim_end(jw) == jtb);
    crate::text::lemma_trim_end_prefix(last);
    assert forall|i: int| 0 <= i < tb.len() implies !crate::text::has_char(#[trigger] tb[i], '\n') by {
        if i < b.len() - 1 {
            assert(tb[i] == b[i]);
        } else {
            assert(tb[i] == tl);
            if crate::text::has_char(tl, '\n') {
                let k = choose|k: int| 0 <= k < tl.len() && tl[k] == '\n';
                assert(last[k] == tl[k]);
                assert(crate::text::has_char(b[b.len() - 1], '\n'));
            }
        }
    }
    assert forall|i: int| 0 <= i < tb.len() implies crate::text::strip_cr(#[trigger] tb[i]) == tb[i] by {
        if i < b.len() - 1 {
            assert(tb[i] == b[i]);
        } else {
            assert(tb[i] == tl);
        }
    }
    crate::text::lemma_lines_of_terminated(tb);
}

/// A readable block at line `pos`, followed by an empty line or the end,
/// reads back as one chunk holding its lines, and reading goes on after
/// the empty line.
pub proof fn lemma_block_at(ls: Seq<Seq<char>>, pos: int, b: Seq<Seq<char>>)
    requires
        readable_block(b),
        0 <= pos,
        pos + b.len() <= ls.len(),
        ls.subrange(pos, pos + b.len()) == b,
        pos + b.len() == ls.len() || ls[pos + b.len()].len() == 0,
    ensures
        next_chunk(ls, pos) == (
            Ok::<Seq<char>, ChunkError>(join_with(trimmed_block(b), seq!['\n'])),
            if pos + b.len() < ls.len() {
                pos + b.len() + 1
            } else {
                pos + b.len()
            },
        ),
{
    assert forall|j: int| pos <= j < pos + b.len() implies ls[j].len() > 0 by {
        assert(ls[j] == b[j - pos]);
    }
    lemma_first_empty_is(ls, pos, pos + b.len());
    lemma_trim_block(b);
}

/// A readable block reads back as one chunk whose lines are the block's
/// lines, the last without its trailing whitespace.
pub proof fn lemma_block_reads_back(ls: Seq<Seq<char>>)
    requires
        readable_block(ls),
    ensures
        next_chunk(ls, 0) == (
            Ok::<Seq<char>, ChunkError>(join_with(trimmed_block(ls), seq!['\n'])),
            ls.len() as int,
        ),
        lines(join_with(trimmed_block(ls), seq!['\n'])) == trimmed_block(ls),
        trimmed_block(ls).len() == ls.len(),
        forall|i: int| 0 <= i < ls.len() - 1 ==> #[trigger] trimmed_block(ls)[i] == ls[i],
{
    assert(ls.subrange(0, ls.len() as int) =~= ls);
    lemma_block_at(ls, 0, ls);
    lemma_trim_block(ls);
}

/// Blocks one after the other, an empty line between two.
pub open spec fn blocks_file(bs: Seq<Seq<Seq<char>>>) -> Seq<Seq<char>>
    decreases bs.len(),
{
    if bs.len() == 0 {
        Seq::empty()
    } else if bs.len() == 1 {
        bs[0]
    } else {
        bs[0] + seq![Seq::<char>::empty()] + blocks_file(bs.drop_first())
    }
}

/// The chunk results of readable blocks: each trimmed block, joined.
pub open spec fn block_chunks(bs: Seq<Seq<Seq<char>>>) -> Seq<Result<Seq<char>, ChunkError>> {
    bs.map_values(
        |b: Seq<Seq<char>>| Ok::<Seq<char>, ChunkError>(join_with(trimmed_block(b), seq!['\n'])),
    )
}

/// Readable blocks after any lines read back block by block from the
/// line where they start.
proof fn lemma_blocks_from(pre: Seq<Seq<char>>, bs: Seq<Seq<Seq<char>>>)
    requires
        forall|i: int| 0 <= i < bs.len() ==> readable_block(#[trigger] bs[i]),
    ensures
        chunks_from(pre + blocks_file(bs), pre.len() as int) == block_chunks(bs),
    decreases bs.len(),
{
    let ls = pre + blocks_file(bs);
    let pos = pre.len() as int;
    if bs.len() == 0 {
        assert(ls =~= pre);
        assert(block_chunks(bs) =~= Seq::<Result<Seq<char>, ChunkError>>::empty());
    } else {
        let b = bs[0];
        assert(readable_block(b));
        if bs.len() == 1 {
            assert(ls =~= pre + b);
            assert(ls.subrange(pos, pos + b.len()) =~= b);
            lemma_block_at(ls, pos, b);
            assert(chunks_from(ls, pos + b.len()) =~= Seq::<Result<Seq<char>, ChunkError>>::empty());
            assert(block_chunks(bs) =~= seq![
                Ok::<Seq<char>, ChunkError>(join_with(trimmed_block(b), seq!['\n'])),
            ]);
        } else {
            let rest = bs.drop_first();
            let pre2 = pre + b + seq![Seq::<char>::empty()];
            assert(ls =~= pre2 + blocks_file(rest));
            assert(ls.subrange(pos, pos + b.len()) =~= b);
            assert(ls[pos + b.len()] == Seq::<char>::empty());
            lemma_block_at(ls, pos, b);
            assert forall|i: int| 0 <= i < rest.len() implies readable_block(#[trigger] rest[i]) by {
                assert(rest[i] == bs[i + 1]);
            }
            lemma_blocks_from(pre2, rest);
            assert(pre2.len() == pos + b.len() + 1);
            assert(block_chunks(bs) =~= seq![
                Ok::<Seq<char>, ChunkError>(join_with(trimmed_block(b), seq!['\n'])),
            ] + block_chunks(rest));
        }
    }
}

/// Readable blocks separated by single empty lines read back chunk by
/// chunk, each chunk holding one block.
pub proof fn lemma_blocks_read_back(bs: Seq<Seq<Seq<char>>>)
    requires
        forall|i: int| 0 <= i < bs.len() ==> readable_block(#[trigger] bs[i]),
    ensures
        chunks_from(blocks_file(bs), 0) == block_chunks(bs),
{
    lemma_blocks_from(Seq::empty(), bs);
    assert(Seq::<Seq<char>>::empty() + blocks_file(bs) =~= blocks_file(bs));
}

/// Inserting always leaves a group.
proof fn lemma_group_insert_nonempty(gs: Groups, k: Seq<char>, v: Seq<char>)
    ensures
        group_insert(gs, k, v).len() >= 1,
{
}

/// There are groups exactly when there are entries.
pub proof fn lemma_group_entries_empty(es: Seq<(Seq<char>, Seq<char>)>)
    ensures
        (group_entries(es).len() == 0) == (es.len() == 0),
{
    if es.len() > 0 {
        lemma_group_insert_nonempty(group_entries(es.drop_last()), es.last().0, es.last().1);
    }
}

/// `insert_pos` is a position in the groups.
proof fn lemma_insert_pos_bounds(gs: Groups, k: Seq<char>)
    ensures
        0 <= insert_pos(gs, k) <= gs.len(),
    decreases gs.len(),
{
    if gs.len() > 0 && key_less(gs[0].0, k) {
        lemma_insert_pos_bounds(gs.drop_first(), k);
    }
}

// ---------------------------------------------------------------------------
// The order of question texts, and what grouping keeps
// ---------------------------------------------------------------------------

/// No text comes before itself.
pub proof fn lemma_key_less_irreflexive(a: Seq<char>)
    ensures
        !key_less(a, a),
    decreases a.len(),
{
    if a.len() > 0 {
        lemma_key_less_irreflexive(a.drop_first());
    }
}

/// Of two different texts, one comes before the other, and not both.
pub proof fn lemma_key_less_total(a: Seq<char>, b: Seq<char>)
    ensures
        a != b ==> key_less(a, b) || key_less(b, a),
        !(key_less(a, b) && key_less(b, a)),
    decreases a.len(),
{
    if a.len() > 0 && b.len() > 0 {
        lemma_key_less_total(a.drop_first(), b.drop_first());
        if a[0] != b[0] {
            vstd::utf8::char_u32_cast(a[0], a[0] as u32);
            vstd::utf8::char_u32_cast(b[0], b[0] as u32);
            assert((a[0] as u32) != (b[0] as u32));
        }
        if a != b && a[0] == b[0] {
            assert(a.drop_first() != b.drop_first()) by {
                if a.drop_first() == b.drop_first() {
                    assert(a =~= seq![a[0]] + a.drop_first());
                    assert(b =~= seq![b[0]] + b.drop_first());
                }
            }
        }
    } else if a.len() == 0 && b.len() == 0 {
        assert(a =~= b);
    }
}

/// The order of texts is transitive.
pub proof fn lemma_key_less_transitive(a: Seq<char>, b: Seq<char>, c: Seq<char>)
    requires
        key_less(a, b),
        key_less(b, c),
    ensures
        key_less(a, c),
    decreases a.len(),
{
    if a.len() > 0 && b.len() > 0 && c.len() > 0 {
        if a[0] == b[0] && b[0] == c[0] {
            lemma_key_less_transitive(a.drop_first(), b.drop_first(), c.drop_first());
        }
    }
}

/// Groups in strictly increasing key order.
pub open spec fn groups_sorted(gs: Groups) -> bool {
    forall|i: int, j: int| 0 <= i < j < gs.len() ==> key_less(#[trigger] gs[i].0, #[trigger] gs[j].0)
}

/// The values of the entries with key `k`, in entry order.
pub open spec fn values_for(es: Seq<(Seq<char>, Seq<char>)>, k: Seq<char>) -> Seq<Seq<char>>
    decreases es.len(),
{
    if es.len() == 0 {
        Seq::empty()
    } else if es.last().0 == k {
        values_for(es.drop_last(), k).push(es.last().1)
    } else {
        values_for(es.drop_last(), k)
    }
}

/// The groups before `insert_pos` have keys before `k`; the one at it does
/// not.
proof fn lemma_insert_pos_splits(gs: Groups, k: Seq<char>)
    ensures
        0 <= insert_pos(gs, k) <= gs.len(),
        forall|i: int| 0 <= i < insert_pos(gs, k) ==> key_less(#[trigger] gs[i].0, k),
        insert_pos(gs, k) < gs.len() ==> !key_less(gs[insert_pos(gs, k)].0, k),
    decreases gs.len(),
{
    if gs.len() > 0 && key_less(gs[0].0, k) {
        lemma_insert_pos_splits(gs.drop_first(), k);
        assert forall|i: int| 0 <= i < insert_pos(gs, k) implies key_less(#[trigger] gs[i].0, k) by {
            if i > 0 {
                assert(gs[i] == gs.drop_first()[i - 1]);
            }
        }
    }
}

/// Whether some group has key `key`.
pub open spec fn has_key(gs: Groups, key: Seq<char>) -> bool {
    exists|i: int| 0 <= i < gs.len() && gs[i].0 == key
}

/// Whether some entry has key `key`.
pub open spec fn has_entry_key(es: Seq<(Seq<char>, Seq<char>)>, key: Seq<char>) -> bool {
    exists|i: int| 0 <= i < es.len() && es[i].0 == key
}

/// The values of the group with key `key`; none when there is no such
/// group.
pub open spec fn group_of(gs: Groups, key: Seq<char>) -> Seq<Seq<char>> {
    if has_key(gs, key) {
        gs[choose|i: int| 0 <= i < gs.len() && gs[i].0 == key].1
    } else {
        Seq::empty()
    }
}

/// In sorted groups a key names one group.
pub proof fn lemma_sorted_keys_unique(gs: Groups, a: int, b: int)
    requires
        groups_sorted(gs),
        0 <= a < gs.len(),
        0 <= b < gs.len(),
        gs[a].0 == gs[b].0,
    ensures
        a == b,
{
    if a != b {
        lemma_key_less_irreflexive(gs[a].0);
    }
}

/// The group of a key found at index `i`.
pub proof fn lemma_group_of_at(gs: Groups, i: int)
    requires
        groups_sorted(gs),
        0 <= i < gs.len(),
    ensures
        group_of(gs, gs[i].0) == gs[i].1,
{
    let c = choose|c: int| 0 <= c < gs.len() && gs[c].0 == gs[i].0;
    lemma_sorted_keys_unique(gs, c, i);
}

/// Adding a value keeps the groups sorted, adds its key, and appends the
/// value to the group of its key alone.
proof fn lemma_group_insert_keeps(gs: Groups, k: Seq<char>, v: Seq<char>)
    requires
        groups_sorted(gs),
    ensures
        groups_sorted(group_insert(gs, k, v)),
        forall|key: Seq<char>| #[trigger]
            has_key(group_insert(gs, k, v), key) <==> (key == k || has_key(gs, key)),
        forall|key: Seq<char>| #[trigger]
            group_of(group_insert(gs, k, v), key) == if key == k {
                group_of(gs, k).push(v)
            } else {
                group_of(gs, key)
            },
{
    lemma_insert_pos_splits(gs, k);
    let j = insert_pos(gs, k);
    let r = group_insert(gs, k, v);
    if 0 <= j < gs.len() && gs[j].0 == k {
        assert(r == gs.update(j, (k, gs[j].1.push(v))));
        assert forall|a: int, b: int| 0 <= a < b < r.len() implies key_less(
            #[trigger] r[a].0,
            #[trigger] r[b].0,
        ) by {
            assert(r[a].0 == gs[a].0);
            assert(r[b].0 == gs[b].0);
        }
        assert forall|key: Seq<char>| #[trigger]
            has_key(r, key) <==> (key == k || has_key(gs, key)) by {
            if has_key(r, key) {
                let i = choose|i: int| 0 <= i < r.len() && r[i].0 == key;
                assert(gs[i].0 == key);
            }
            if key == k {
                assert(r[j].0 == key);
            }
            if has_key(gs, key) {
                let i = choose|i: int| 0 <= i < gs.len() && gs[i].0 == key;
                assert(r[i].0 == key);
            }
        }
        assert forall|key: Seq<char>| #[trigger]
            group_of(r, key) == if key == k {
                group_of(gs, k).push(v)
            } else {
                group_of(gs, key)
            } by {
            if has_key(gs, key) {
                let i = choose|i: int| 0 <= i < gs.len() && gs[i].0 == key;
                lemma_group_of_at(gs, i);
                assert(r[i].0 == key);
                lemma_group_of_at(r, i);
            }
        }
    } else {
        assert(r == gs.insert(j, (k, seq![v])));
        assert(!has_key(gs, k)) by {
            if has_key(gs, k) {
                let a = choose|a: int| 0 <= a < gs.len() && gs[a].0 == k;
                if a < j {
                    lemma_key_less_irreflexive(k);
                } else if a > j {
                    lemma_key_less_total(gs[j].0, k);
                    lemma_key_less_transitive(k, gs[j].0, gs[a].0);
                    lemma_key_less_irreflexive(k);
                }
            }
        }
        if j < gs.len() {
            lemma_key_less_total(gs[j].0, k);
        }
        assert forall|a: int, b: int| 0 <= a < b < r.len() implies key_less(
            #[trigger] r[a].0,
            #[trigger] r[b].0,
        ) by {
            if a < j && b < j {
            } else if a < j && b == j {
            } else if a < j && b > j {
                assert(r[b] == gs[b - 1]);
                if b - 1 > j {
                    lemma_key_less_transitive(k, gs[j].0, gs[b - 1].0);
                }
                lemma_key_less_transitive(r[a].0, k, r[b].0);
            } else if a == j {
                assert(r[b] == gs[b - 1]);
                if b - 1 > j {
                    lemma_key_less_transitive(k, gs[j].0, gs[b - 1].0);
                }
            } else {
                assert(r[a] == gs[a - 1]);
                assert(r[b] == gs[b - 1]);
            }
        }
        assert forall|key: Seq<char>| #[trigger]
            has_key(r, key) <==> (key == k || has_key(gs, key)) by {
            if has_key(r, key) {
                let i = choose|i: int| 0 <= i < r.len() && r[i].0 == key;
                if i < j {
                    assert(gs[i].0 == key);
                } else if i > j {
                    assert(gs[i - 1].0 == key);
                }
            }
            if key == k {
                assert(r[j].0 == key);
            }
            if has_key(gs, key) {
                let i = choose|i: int| 0 <= i < gs.len() && gs[i].0 == key;
                if i < j {
                    assert(r[i].0 == key);
                } else {
                    assert(r[i + 1].0 == key);
                }
            }
        }
        assert forall|key: Seq<char>| #[trigger]
            group_of(r, key) == if key == k {
                group_of(gs, k).push(v)
            } else {
                group_of(gs, key)
            } by {
            if key == k {
                assert(r[j].0 == k);
                lemma_group_of_at(r, j);
                assert(seq![v] =~= Seq::<Seq<char>>::empty().push(v));
            } else if has_key(gs, key) {
                let i = choose|i: int| 0 <= i < gs.len() && gs[i].0 == key;
                lemma_group_of_at(gs, i);
                if i < j {
                    assert(r[i].0 == key);
                    lemma_group_of_at(r, i);
                } else {
                    assert(r[i + 1].0 == key);
                    lemma_group_of_at(r, i + 1);
                }
            } else {
                assert(!has_key(r, key));
            }
        }
    }
}

/// Grouping entries as a `BTreeMap<String, Vec<String>>` does: the groups
/// are in strictly increasing order of their keys, there is a group for
/// each key of an entry and for no other, and the group of a key holds the
/// values of the entries with that key, in entry order.
pub proof fn lemma_group_entries_is_sorted_map(es: Seq<(Seq<char>, Seq<char>)>)
    ensures
        groups_sorted(group_entries(es)),
        forall|k: Seq<char>| #[trigger] has_key(group_entries(es), k) <==> has_entry_key(es, k),
        forall|k: Seq<char>| #[trigger] group_of(group_entries(es), k) == values_for(es, k),
    decreases es.len(),
{
    if es.len() > 0 {
        let init = es.drop_last();
        let k = es.last().0;
        let v = es.last().1;
        let gs = group_entries(init);
        lemma_group_entries_is_sorted_map(init);
        lemma_group_insert_keeps(gs, k, v);
        let r = group_entries(es);
        assert(r == group_insert(gs, k, v));
        assert forall|key: Seq<char>| #[trigger] has_key(r, key) <==> has_entry_key(es, key) by {
            if has_entry_key(init, key) {
                let i = choose|i: int| 0 <= i < init.len() && init[i].0 == key;
                assert(es[i].0 == key);
            }
            if has_entry_key(es, key) {
                let i = choose|i: int| 0 <= i < es.len() && es[i].0 == key;
                if i < init.len() {
                    assert(init[i].0 == key);
                }
            }
            if key == k {
                assert(es[es.len() - 1].0 == key);
            }
        }
        assert forall|key: Seq<char>| #[trigger] group_of(r, key) == values_for(es, key) by {
            assert(group_of(gs, key) == values_for(init, key));
        }
    }
}

/// A key that no entry has has no values.
proof fn lemma_values_for_absent(es: Seq<(Seq<char>, Seq<char>)>, k: Seq<char>)
    requires
        !(exists|i: int| 0 <= i < es.len() && es[i].0 == k),
    ensures
        values_for(es, k) == Seq::<Seq<char>>::empty(),
    decreases es.len(),
{
    if es.len() > 0 {
        assert(!(exists|i: int| 0 <= i < es.drop_last().len() && es.drop_last()[i].0 == k)) by {
            if exists|i: int| 0 <= i < es.drop_last().len() && es.drop_last()[i].0 == k {
                let i = choose|i: int| 0 <= i < es.drop_last().len() && es.drop_last()[i].0 == k;
                assert(es[i].0 == k);
            }
        }
        assert(es[es.len() - 1].0 != k);
        lemma_values_for_absent(es.drop_last(), k);
    }
}

/// Sorted groups with the same keys and the same group under each key are
/// the same groups.
proof fn lemma_sorted_groups_equal(g1: Groups, g2: Groups)
    requires
        groups_sorted(g1),
        groups_sorted(g2),
        forall|k: Seq<char>| #[trigger] has_key(g1, k) == has_key(g2, k),
        forall|k: Seq<char>| #[trigger] group_of(g1, k) == group_of(g2, k),
    ensures
        g1 == g2,
    decreases g1.len(),
{
    if g1.len() == 0 {
        if g2.len() > 0 {
            assert(has_key(g2, g2[0].0));
            assert(has_key(g1, g2[0].0));
        }
        assert(g1 =~= g2);
    } else {
        let k1 = g1[0].0;
        assert(has_key(g1, k1));
        assert(has_key(g2, k1));
        let k2 = g2[0].0;
        assert(has_key(g2, k2));
        assert(has_key(g1, k2));
        let j = choose|j: int| 0 <= j < g2.len() && g2[j].0 == k1;
        let i = choose|i: int| 0 <= i < g1.len() && g1[i].0 == k2;
        if j > 0 {
            assert(key_less(g2[0].0, g2[j].0));
            if i == 0 {
                lemma_key_less_irreflexive(k1);
            } else {
                assert(key_less(g1[0].0, g1[i].0));
                lemma_key_less_transitive(k1, k2, k1);
                lemma_key_less_irreflexive(k1);
            }
        }
        assert(k1 == k2);
        lemma_group_of_at(g1, 0);
        lemma_group_of_at(g2, 0);
        assert(g1[0] == g2[0]);
        let t1 = g1.drop_first();
        let t2 = g2.drop_first();
        assert forall|a: int, b: int| 0 <= a < b < t1.len() implies key_less(
            #[trigger] t1[a].0,
            #[trigger] t1[b].0,
        ) by {
            assert(t1[a] == g1[a + 1] && t1[b] == g1[b + 1]);
        }
        assert forall|a: int, b: int| 0 <= a < b < t2.len() implies key_less(
            #[trigger] t2[a].0,
            #[trigger] t2[b].0,
        ) by {
            assert(t2[a] == g2[a + 1] && t2[b] == g2[b + 1]);
        }
        // A tail lacks the first key, and holds every other key of its groups.
        assert forall|k: Seq<char>| #[trigger] has_key(t1, k) <==> (k != k1 && has_key(g1, k)) by {
            if has_key(t1, k) {
                let a = choose|a: int| 0 <= a < t1.len() && t1[a].0 == k;
                assert(g1[a + 1].0 == k);
                assert(key_less(g1[0].0, g1[a + 1].0));
                if k == k1 {
                    lemma_key_less_irreflexive(k1);
                }
            }
            if k != k1 && has_key(g1, k) {
                let a = choose|a: int| 0 <= a < g1.len() && g1[a].0 == k;
                assert(a > 0);
                assert(t1[a - 1].0 == k);
            }
        }
        assert forall|k: Seq<char>| #[trigger] has_key(t2, k) <==> (k != k1 && has_key(g2, k)) by {
            if has_key(t2, k) {
                let a = choose|a: int| 0 <= a < t2.len() && t2[a].0 == k;
                assert(g2[a + 1].0 == k);
                assert(key_less(g2[0].0, g2[a + 1].0));
                if k == k1 {
                    lemma_key_less_irreflexive(k1);
                }
            }
            if k != k1 && has_key(g2, k) {
                let a = choose|a: int| 0 <= a < g2.len() && g2[a].0 == k;
                assert(a > 0);
                assert(t2[a - 1].0 == k);
            }
        }
        assert forall|k: Seq<char>| #[trigger] has_key(t1, k) == has_key(t2, k) by {
            assert(has_key(g1, k) == has_key(g2, k));
        }
        assert forall|k: Seq<char>| #[trigger] group_of(t1, k) == group_of(t2, k) by {
            if has_key(t1, k) {
                let a = choose|a: int| 0 <= a < t1.len() && t1[a].0 == k;
                let b = choose|b: int| 0 <= b < t2.len() && t2[b].0 == k;
                assert(g1[a + 1] == t1[a]);
                assert(g2[b + 1] == t2[b]);
                lemma_group_of_at(g1, a + 1);
                lemma_group_of_at(g2, b + 1);
                lemma_group_of_at(t1, a);
                lemma_group_of_at(t2, b);
                assert(group_of(g1, k) == group_of(g2, k));
            } else {
                assert(!has_key(t2, k));
            }
        }
        lemma_sorted_groups_equal(t1, t2);
        assert(g1 =~= seq![g1[0]] + t1);
        assert(g2 =~= seq![g2[0]] + t2);
    }
}

/// The values of a key over entries one after the other.
proof fn lemma_values_for_concat(xs: Seq<(Seq<char>, Seq<char>)>, ys: Seq<(Seq<char>, Seq<char>)>, k: Seq<char>)
    ensures
        values_for(xs + ys, k) == values_for(xs, k) + values_for(ys, k),
    decreases ys.len(),
{
    if ys.len() == 0 {
        assert(xs + ys =~= xs);
        assert(values_for(xs, k) + values_for(ys, k) =~= values_for(xs, k));
    } else {
        lemma_values_for_concat(xs, ys.drop_last(), k);
        assert((xs + ys).drop_last() =~= xs + ys.drop_last());
        assert((xs + ys).last() == ys.last());
        if ys.last().0 == k {
            assert(values_for(xs + ys, k) =~= values_for(xs, k) + values_for(ys, k));
        } else {
            assert(values_for(xs + ys, k) =~= values_for(xs, k) + values_for(ys, k));
        }
    }
}

/// Entries with no key in common group the same in either order.
pub proof fn lemma_group_entries_swap(xs: Seq<(Seq<char>, Seq<char>)>, ys: Seq<(Seq<char>, Seq<char>)>)
    requires
        forall|i: int, j: int| 0 <= i < xs.len() && 0 <= j < ys.len() ==> #[trigger] xs[i].0 != #[trigger] ys[j].0,
    ensures
        group_entries(xs + ys) == group_entries(ys + xs),
{
    lemma_group_entries_is_sorted_map(xs + ys);
    lemma_group_entries_is_sorted_map(ys + xs);
    let g1 = group_entries(xs + ys);
    let g2 = group_entries(ys + xs);
    assert forall|k: Seq<char>| #[trigger] has_key(g1, k) == has_key(g2, k) by {
        assert(has_key(g1, k) == has_entry_key(xs + ys, k));
        assert(has_key(g2, k) == has_entry_key(ys + xs, k));
        if has_entry_key(xs + ys, k) {
            let i = choose|i: int| 0 <= i < (xs + ys).len() && (xs + ys)[i].0 == k;
            if i < xs.len() {
                assert((ys + xs)[ys.len() + i] == xs[i]);
            } else {
                assert((ys + xs)[i - xs.len()] == ys[i - xs.len()]);
            }
        }
        if has_entry_key(ys + xs, k) {
            let i = choose|i: int| 0 <= i < (ys + xs).len() && (ys + xs)[i].0 == k;
            if i < ys.len() {
                assert((xs + ys)[xs.len() + i] == ys[i]);
            } else {
                assert((xs + ys)[i - ys.len()] == xs[i - ys.len()]);
            }
        }
    }
    assert forall|k: Seq<char>| #[trigger] group_of(g1, k) == group_of(g2, k) by {
        lemma_values_for_concat(xs, ys, k);
        lemma_values_for_concat(ys, xs, k);
        if exists|i: int| 0 <= i < xs.len() && xs[i].0 == k {
            let i = choose|i: int| 0 <= i < xs.len() && xs[i].0 == k;
            assert(!(exists|j: int| 0 <= j < ys.len() && ys[j].0 == k)) by {
                if exists|j: int| 0 <= j < ys.len() && ys[j].0 == k {
                    let j = choose|j: int| 0 <= j < ys.len() && ys[j].0 == k;
                    assert(xs[i].0 != ys[j].0);
                }
            }
            lemma_values_for_absent(ys, k);
        } else {
            lemma_values_for_absent(xs, k);
        }
        assert(values_for(xs, k) + values_for(ys, k) =~= values_for(ys, k) + values_for(xs, k));
    }
    lemma_sorted_groups_equal(g1, g2);
}

/// What one chunk adds to the empty summary.
pub open spec fn chunk_part(c: Seq<char>) -> DaySummary {
    add_chunk(empty_summary(), Ok(c))
}

/// A chunk appends to each list of a summary what it adds to the empty
/// summary, and counts nothing invalid.
proof fn lemma_add_chunk_appends(s: DaySummary, c: Seq<char>)
    ensures
        add_chunk(s, Ok(c)).ratings == s.ratings + chunk_part(c).ratings,
        add_chunk(s, Ok(c)).descriptions == s.descriptions + chunk_part(c).descriptions,
        add_chunk(s, Ok(c)).notes == s.notes + chunk_part(c).notes,
        add_chunk(s, Ok(c)).long_entries == s.long_entries + chunk_part(c).long_entries,
        add_chunk(s, Ok(c)).short_entries == s.short_entries + chunk_part(c).short_entries,
        add_chunk(s, Ok(c)).invalid == s.invalid,
        chunk_part(c).invalid == 0,
        forall|i: int|
            0 <= i < chunk_part(c).long_entries.len() ==> (#[trigger] chunk_part(c).long_entries[i]).0
                == text_of(chunk_question(c)),
        forall|i: int|
            0 <= i < chunk_part(c).short_entries.len() ==> (#[trigger] chunk_part(c).short_entries[i]).0
                == text_of(chunk_question(c)),
        prompt_of(chunk_question(c)) != PromptQuestionType::Rating ==> chunk_part(c).ratings.len() == 0,
        prompt_of(chunk_question(c)) != PromptQuestionType::Description ==> chunk_part(c).descriptions.len()
            == 0,
        prompt_of(chunk_question(c)) != PromptQuestionType::Note ==> chunk_part(c).notes.len() == 0,
{
    let e = empty_summary();
    assert(s.ratings + e.ratings =~= s.ratings);
    assert(s.descriptions + e.descriptions =~= s.descriptions);
    assert(s.notes + e.notes =~= s.notes);
    assert(s.long_entries + e.long_entries =~= s.long_entries);
    assert(s.short_entries + e.short_entries =~= s.short_entries);
    assert(e.ratings + chunk_part(c).ratings =~= chunk_part(c).ratings);
    assert(e.descriptions + chunk_part(c).descriptions =~= chunk_part(c).descriptions);
    assert(e.notes + chunk_part(c).notes =~= chunk_part(c).notes);
    assert(e.short_entries + chunk_part(c).short_entries =~= chunk_part(c).short_entries);
    let q = chunk_question(c);
    if prompt_of(q) == PromptQuestionType::Rating || prompt_of(q) == PromptQuestionType::Description
        || prompt_of(q) == PromptQuestionType::Note {
    } else if kind_of(q) == QuestionType::Long {
        assert(s.long_entries.push(chunk_part(c).long_entries[0]) =~= s.long_entries + chunk_part(
            c,
        ).long_entries);
    }
}

/// Two chunks about questions with different texts give the same summary
/// text in either order.
proof fn lemma_chunks_commute_in_summary(x: Seq<char>, y: Seq<char>)
    requires
        text_of(chunk_question(x)) != text_of(chunk_question(y)),
    ensures
        render_summary(summarize(seq![Ok::<Seq<char>, ChunkError>(x), Ok(y)])) == render_summary(
            summarize(seq![Ok::<Seq<char>, ChunkError>(y), Ok(x)]),
        ),
{
    let rx = Ok::<Seq<char>, ChunkError>(x);
    let ry = Ok::<Seq<char>, ChunkError>(y);
    assert(seq![rx, ry].drop_last() =~= seq![rx]);
    assert(seq![ry, rx].drop_last() =~= seq![ry]);
    assert(seq![rx].drop_last() =~= Seq::<Result<Seq<char>, ChunkError>>::empty());
    assert(seq![ry].drop_last() =~= Seq::<Result<Seq<char>, ChunkError>>::empty());
    let ex = chunk_part(x);
    let ey = chunk_part(y);
    assert(summarize(Seq::<Result<Seq<char>, ChunkError>>::empty()) == empty_summary());
    assert(seq![rx].last() == rx);
    assert(seq![ry].last() == ry);
    assert(seq![rx, ry].last() == ry);
    assert(seq![ry, rx].last() == rx);
    assert(summarize(seq![rx]) == ex);
    assert(summarize(seq![ry]) == ey);
    let s1 = add_chunk(ex, ry);
    let s2 = add_chunk(ey, rx);
    assert(summarize(seq![rx, ry]) == s1);
    assert(summarize(seq![ry, rx]) == s2);
    lemma_add_chunk_appends(ex, y);
    lemma_add_chunk_appends(ey, x);
    lemma_add_chunk_appends(empty_summary(), x);
    lemma_add_chunk_appends(empty_summary(), y);
    let qx = chunk_question(x);
    let qy = chunk_question(y);
    // At most one of the two is each of the three prompts.
    assert(!(prompt_of(qx) == PromptQuestionType::Rating && prompt_of(qy) == PromptQuestionType::Rating));
    assert(!(prompt_of(qx) == PromptQuestionType::Description && prompt_of(qy)
        == PromptQuestionType::Description));
    assert(!(prompt_of(qx) == PromptQuestionType::Note && prompt_of(qy) == PromptQuestionType::Note));
    assert(s1.ratings =~= s2.ratings);
    assert(s1.descriptions =~= s2.descriptions);
    assert(s1.notes =~= s2.notes);
    lemma_group_entries_swap(ex.long_entries, ey.long_entries);
    lemma_group_entries_swap(ex.short_entries, ey.short_entries);
    assert(s1.long_entries.len() == s2.long_entries.len());
}

/// Chunks about different questions commute: a day file of two blocks that
/// read back as chunks, separated by an empty line, shows the same in the
/// pager whichever block comes first, when the texts of their questions
/// differ.
pub proof fn lemma_chunks_about_different_questions_commute(a: Seq<Seq<char>>, b: Seq<Seq<char>>)
    requires
        readable_block(a),
        readable_block(b),
        text_of(a[1]) != text_of(b[1]),
    ensures
        day_file_view(join_with(blocks_file(seq![a, b]), seq!['\n'])) == day_file_view(
            join_with(blocks_file(seq![b, a]), seq!['\n']),
        ),
{
    lemma_two_blocks_read_back(a, b);
    lemma_two_blocks_read_back(b, a);
    lemma_block_reads_back(a);
    lemma_block_reads_back(b);
    lemma_chunks_commute_in_summary(
        join_with(trimmed_block(a), seq!['\n']),
        join_with(trimmed_block(b), seq!['\n']),
    );
}

/// A block that reads back as a chunk, written alone, reads back as that
/// one chunk.
pub proof fn lemma_one_block_reads_back(a: Seq<Seq<char>>)
    requires
        readable_block(a),
    ensures
        chunks_from(lines(join_with(a, seq!['\n'])), 0) == seq![
            Ok::<Seq<char>, ChunkError>(join_with(trimmed_block(a), seq!['\n'])),
        ],
{
    let bs = seq![a];
    assert(blocks_file(bs) == a);
    crate::text::lemma_lines_of_terminated(a);
    assert forall|i: int| 0 <= i < bs.len() implies readable_block(#[trigger] bs[i]) by {}
    lemma_blocks_read_back(bs);
    assert(block_chunks(bs) =~= seq![
        Ok::<Seq<char>, ChunkError>(join_with(trimmed_block(a), seq!['\n'])),
    ]);
}

/// Two blocks that read back as chunks, separated by an empty line, read
/// back as their two chunks.
pub proof fn lemma_two_blocks_read_back(a: Seq<Seq<char>>, b: Seq<Seq<char>>)
    requires
        readable_block(a),
        readable_block(b),
    ensures
        chunks_from(lines(join_with(blocks_file(seq![a, b]), seq!['\n'])), 0) == seq![
            Ok::<Seq<char>, ChunkError>(join_with(trimmed_block(a), seq!['\n'])),
            Ok::<Seq<char>, ChunkError>(join_with(trimmed_block(b), seq!['\n'])),
        ],
{
    let bs = seq![a, b];
    let bf = blocks_file(bs);
    assert(bs.drop_first() =~= seq![b]);
    assert(blocks_file(seq![b]) == b);
    assert(bs[0] == a);
    assert(bf == a + seq![Seq::<char>::empty()] + b);
    assert forall|i: int| 0 <= i < bf.len() implies !crate::text::has_char(#[trigger] bf[i], '\n')
        && crate::text::strip_cr(bf[i]) == bf[i] by {
        if i < a.len() {
            assert(bf[i] == a[i]);
        } else if i == a.len() {
            assert(bf[i] == Seq::<char>::empty());
        } else {
            assert(bf[i] == b[i - a.len() - 1]);
        }
    }
    assert(bf.last() == b.last());
    crate::text::lemma_lines_of_terminated(bf);
    assert forall|i: int| 0 <= i < bs.len() implies readable_block(#[trigger] bs[i]) by {}
    lemma_blocks_read_back(bs);
    assert(block_chunks(bs) =~= seq![
        Ok::<Seq<char>, ChunkError>(join_with(trimmed_block(a), seq!['\n'])),
        Ok::<Seq<char>, ChunkError>(join_with(trimmed_block(b), seq!['\n'])),
    ]);
}

// ---------------------------------------------------------------------------
// Executable
// ---------------------------------------------------------------------------

/// The character sequences of executable groups.
pub open spec fn group_views(gs: Seq<(Vec<char>, Vec<Vec<char>>)>) -> Groups {
    gs.map_values(|g: (Vec<char>, Vec<Vec<char>>)| (g.0@, views(g.1@)))
}

/// Whether `a` comes before `b`.
pub fn key_less_chars(a: &[char], b: &[char]) -> (r: bool)
    ensures
        r == key_less(a@, b@),
{
    let mut i: usize = 0;
    proof {
        assert(a@.skip(0) =~= a@);
        assert(b@.skip(0) =~= b@);
    }
    while i < a.len() && i < b.len()
        invariant
            0 <= i <= a@.len(),
            i <= b@.len(),
            key_less(a@, b@) == key_less(a@.skip(i as int), b@.skip(i as int)),
        decreases a.len() - i,
    {
        proof {
            assert(a@.skip(i as int).drop_first() =~= a@.skip(i + 1));
            assert(b@.skip(i as int).drop_first() =~= b@.skip(i + 1));
        }
        if (a[i] as u32) < (b[i] as u32) {
            return true;
        }
        if a[i] != b[i] {
            return false;
        }
        i += 1;
    }
    i == a.len() && i < b.len()
}

/// Adds `v` under `k` (`BTreeMap::entry(k).or_default().push(v)`).
pub fn group_insert_chars(gs: &mut Vec<(Vec<char>, Vec<Vec<char>>)>, k: Vec<char>, v: Vec<char>)
    ensures
        group_views(final(gs)@) == group_insert(group_views(old(gs)@), k@, v@),
{
    let ghost g0 = group_views(gs@);
    let mut j: usize = 0;
    proof {
        assert(g0.skip(0) =~= g0);
    }
    while j < gs.len() && key_less_chars(gs[j].0.as_slice(), k.as_slice())
        invariant
            gs@ == old(gs)@,
            g0 == group_views(gs@),
            0 <= j <= gs@.len(),
            insert_pos(g0, k@) == j + insert_pos(g0.skip(j as int), k@),
        decreases gs.len() - j,
    {
        proof {
            assert(g0.skip(j as int).drop_first() =~= g0.skip(j + 1));
        }
        j += 1;
    }
    proof {
        assert(insert_pos(g0, k@) == j);
    }
    if j < gs.len() && chars_eq(gs[j].0.as_slice(), k.as_slice()) {
        let (key, mut vals) = gs.remove(j);
        let ghost vv = v@;
        let ghost vals0 = views(vals@);
        vals.push(v);
        proof {
            assert(views(vals@) =~= vals0.push(vv));
        }
        gs.insert(j, (key, vals));
        proof {
            assert(group_views(gs@) =~= g0.update(j as int, (k@, g0[j as int].1.push(vv))));
        }
    } else {
        let ghost kv = k@;
        let ghost vv = v@;
        let mut vals: Vec<Vec<char>> = Vec::new();
        vals.push(v);
        proof {
            assert(views(vals@) =~= seq![vv]);
        }
        gs.insert(j, (k, vals));
        proof {
            assert(group_views(gs@) =~= g0.insert(j as int, (kv, seq![vv])));
        }
    }
}

/// `[info] text`.
fn bracketed_chars(info: &[char], t: &[char]) -> (r: Vec<char>)
    ensures
        r@ == bracketed(info@, t@),
{
    let mut r: Vec<char> = Vec::new();
    extend_str(&mut r, "[");
    extend_chars(&mut r, info);
    extend_str(&mut r, "] ");
    extend_chars(&mut r, t);
    r
}

/// The text of a line.
fn line_text(q: &Question) -> (r: std::io::Result<Vec<char>>)
    ensures
        r matches Ok(t) && t@ == text_of(q@),
{
    let t = q.get_text()?;
    Ok(to_chars(t.as_str()))
}

/// What the pager has gathered so far.
struct DayNotes {
    ratings: Vec<Vec<char>>,
    descriptions: Vec<Vec<char>>,
    notes: Vec<Vec<char>>,
    long_questions: Vec<(Vec<char>, Vec<Vec<char>>)>,
    short_questions: Vec<(Vec<char>, Vec<Vec<char>>)>,
    invalid_chunks_number: usize,
}

impl DayNotes {
    /// The notes hold the summary `s`, with the entries grouped.
    spec fn holds(&self, s: DaySummary) -> bool {
        &&& views(self.ratings@) == s.ratings
        &&& views(self.descriptions@) == s.descriptions
        &&& views(self.notes@) == s.notes
        &&& group_views(self.long_questions@) == group_entries(s.long_entries)
        &&& group_views(self.short_questions@) == group_entries(s.short_entries)
        &&& self.invalid_chunks_number == s.invalid
    }

    /// Appends the answers, indented as under a heading, to `out`.
    fn push_indented(
        out: &mut Vec<Vec<char>>,
        info: &[char],
        answers: &Vec<Question>,
        Ghost(ts): Ghost<Seq<Seq<char>>>,
    ) -> (r: std::io::Result<()>)
        requires
            answers@.len() == ts.len(),
            forall|i: int| 0 <= i < ts.len() ==> text_of(#[trigger] answers@[i]@) == ts[i],
        ensures
            r is Ok,
            views(final(out)@) == views(old(out)@) + indented_answers(info@, ts),
    {
        let ghost o0 = views(out@);
        let n = answers.len();
        for i in 0..n
            invariant
                n == answers@.len() == ts.len(),
                forall|i: int| 0 <= i < ts.len() ==> text_of(#[trigger] answers@[i]@) == ts[i],
                views(out@) == o0 + indented_answers(info@, ts).take(i as int),
        {
            let t = line_text(&answers[i])?;
            let mut line: Vec<char> = Vec::new();
            if i == 0 {
                extend_str(&mut line, "    ");
                let b = bracketed_chars(info, t.as_slice());
                extend_chars(&mut line, b.as_slice());
            } else {
                extend_str(&mut line, "  ");
                extend_chars(&mut line, t.as_slice());
            }
            let ghost before = views(out@);
            let ghost lv = line@;
            out.push(line);
            proof {
                assert(views(out@) =~= before.push(lv));
                assert(indented_answers(info@, ts).take(i + 1) =~= indented_answers(
                    info@,
                    ts,
                ).take(i as int).push(lv));
            }
        }
        proof {
            assert(indented_answers(info@, ts).take(n as int) =~= indented_answers(info@, ts));
        }
        Ok(())
    }

    /// Adds a chunk read from the day file.
    fn record_chunk(&mut self, this_chunk: &QuestionChunk, Ghost(s): Ghost<DaySummary>) -> (r:
        std::io::Result<()>)
        requires
            old(self).holds(s),
            chunk_is_complete(this_chunk@),
        ensures
            r is Ok,
            final(self).holds(add_chunk(s, Ok(this_chunk@))),
            final(self).invalid_chunks_number == old(self).invalid_chunks_number,
    {
        let ghost c = this_chunk@;
        let ghost ts = chunk_answers(c);
        let chunk_type = match this_chunk.get_type() {
            Ok(t) => t,
            Err(_) => QuestionType::Empty,
        };
        let answers = this_chunk.get_answer()?;
        let info = line_text(&this_chunk.get_informative()?)?;
        let prompt_type = this_chunk.get_prompt_type()?;
        proof {
            assert forall|i: int| 0 <= i < ts.len() implies text_of(#[trigger] answers@[i]@)
                == ts[i] by {
                assert(answers@.map_values(|q: Question| q@)[i] == answers@[i]@);
            }
        }
        if prompt_type == PromptQuestionType::Rating {
            let ghost r0 = views(self.ratings@);
            let ghost f = |t: Seq<char>| bracketed(info@, t);
            for i in 0..answers.len()
                invariant
                    answers@.len() == ts.len(),
                    forall|i: int| 0 <= i < ts.len() ==> text_of(#[trigger] answers@[i]@)
                        == ts[i],
                    views(self.ratings@) == r0 + ts.take(i as int).map_values(f),
                    self.descriptions@ == old(self).descriptions@,
                    self.notes@ == old(self).notes@,
                    self.long_questions@ == old(self).long_questions@,
                    self.short_questions@ == old(self).short_questions@,
                    self.invalid_chunks_number == old(self).invalid_chunks_number,
                    f == (|t: Seq<char>| bracketed(info@, t)),
            {
                let t = line_text(&answers[i])?;
                let b = bracketed_chars(info.as_slice(), t.as_slice());
                let ghost before = views(self.ratings@);
                let ghost bv = b@;
                self.ratings.push(b);
                proof {
                    assert(views(self.ratings@) =~= before.push(bv));
                    assert(ts.take(i + 1).map_values(f) =~= ts.take(i as int).map_values(f).push(
                        bv,
                    ));
                }
            }
            proof {
                assert(ts.take(ts.len() as int) =~= ts);
                assert(info@ == chunk_info(c));
                assert(ts.map_values(f) =~= ts.map_values(
                    |t: Seq<char>| bracketed(chunk_info(c), t),
                ));
                assert(self.holds(add_chunk(s, Ok(c))));
            }
        } else if prompt_type == PromptQuestionType::Description {
            Self::push_indented(&mut self.descriptions, info.as_slice(), &answers, Ghost(ts))?;
            proof {
                assert(self.holds(add_chunk(s, Ok(c))));
            }
        } else if prompt_type == PromptQuestionType::Note {
            Self::push_indented(&mut self.notes, info.as_slice(), &answers, Ghost(ts))?;
            proof {
                assert(self.holds(add_chunk(s, Ok(c))));
            }
        } else if chunk_type == QuestionType::Long {
            let question_text = line_text(&this_chunk.get_question()?)?;
            let mut indented: Vec<Vec<char>> = Vec::new();
            Self::push_indented(&mut indented, info.as_slice(), &answers, Ghost(ts))?;
            proof {
                assert(views(indented@) =~= indented_answers(info@, ts));
            }
            let nl = to_chars("\n");
            let answer = join_chars(&indented, nl.as_slice());
            let ghost es = s.long_entries;
            let ghost e = (question_text@, answer@);
            group_insert_chars(&mut self.long_questions, question_text, answer);
            proof {
                assert(es.push(e).drop_last() =~= es);
                assert(self.holds(add_chunk(s, Ok(c))));
            }
        } else {
            let ghost es = s.short_entries;
            let ghost q = chunk_question(c);
            let ghost f = |t: Seq<char>| (text_of(q), bracketed(info@, t));
            for i in 0..answers.len()
                invariant
                    answers@.len() == ts.len(),
                    forall|i: int| 0 <= i < ts.len() ==> text_of(#[trigger] answers@[i]@)
                        == ts[i],
                    group_views(self.short_questions@) == group_entries(
                        es + ts.take(i as int).map_values(f),
                    ),
                    f == (|t: Seq<char>| (text_of(q), bracketed(info@, t))),
                    q == lines(this_chunk@)[1],
                    self.ratings@ == old(self).ratings@,
                    self.descriptions@ == old(self).descriptions@,
                    self.notes@ == old(self).notes@,
                    self.long_questions@ == old(self).long_questions@,
                    self.invalid_chunks_number == old(self).invalid_chunks_number,
                    chunk_is_complete(this_chunk@),
            {
                let question_text = line_text(&this_chunk.get_question()?)?;
                let t = line_text(&answers[i])?;
                let b = bracketed_chars(info.as_slice(), t.as_slice());
                let ghost e = (question_text@, b@);
                group_insert_chars(&mut self.short_questions, question_text, b);
                proof {
                    let prev = es + ts.take(i as int).map_values(f);
                    assert(es + ts.take(i + 1).map_values(f) =~= prev.push(e));
                    assert(prev.push(e).drop_last() =~= prev);
                }
            }
            proof {
                assert(ts.take(ts.len() as int) =~= ts);
                assert(info@ == chunk_info(c));
                assert(ts.map_values(f) =~= ts.map_values(
                    |t: Seq<char>| (text_of(chunk_question(c)), bracketed(chunk_info(c), t)),
                ));
                assert(self.holds(add_chunk(s, Ok(c))));
            }
        }
        Ok(())
    }
}

/// Appends each group: its key, `after_key`, its values joined by `sep`,
/// and a blank line.
fn push_groups(
    out: &mut Vec<char>,
    groups: &Vec<(Vec<char>, Vec<Vec<char>>)>,
    after_key: &str,
    sep: &str,
)
    ensures
        final(out)@ == old(out)@ + render_groups(group_views(groups@), after_key@, sep@),
{
    let ghost o0 = out@;
    let ghost gs = group_views(groups@);
    let sep_chars = to_chars(sep);
    for i in 0..groups.len()
        invariant
            gs == group_views(groups@),
            sep_chars@ == sep@,
            out@ == o0 + render_groups(gs.take(i as int), after_key@, sep@),
    {
        proof {
            assert(gs.take(i + 1).drop_last() =~= gs.take(i as int));
        }
        extend_chars(out, groups[i].0.as_slice());
        extend_str(out, after_key);
        let joined = join_chars(&groups[i].1, sep_chars.as_slice());
        extend_chars(out, joined.as_slice());
        extend_str(out, "\n\n");
        proof {
            assert(out@ =~= o0 + render_groups(gs.take(i + 1), after_key@, sep@));
        }
    }
    proof {
        assert(gs.take(gs.len() as int) =~= gs);
    }
}

/// Appends a titled section; nothing for no item.
fn push_titled(out: &mut Vec<char>, title: &str, items: &Vec<Vec<char>>, sep: &str)
    ensures
        final(out)@ == old(out)@ + titled(title@, views(items@), sep@),
{
    if items.len() != 0 {
        extend_str(out, title);
        let sep_chars = to_chars(sep);
        let joined = join_chars(items, sep_chars.as_slice());
        extend_chars(out, joined.as_slice());
        extend_str(out, "\n\n");
    } else {
        proof {
            assert(out@ =~= old(out)@ + titled(title@, views(items@), sep@));
        }
    }
}

/// The text the pager shows of a day file: ratings, description, notes,
/// the long questions and the other questions, each with their answers,
/// and a count of the chunks that could not be read.
pub fn parse_date_file(content: &str) -> (r: std::io::Result<String>)
    ensures
        r matches Ok(s) && s@ == day_file_view(content@),
{
    let mut day = DayNotes {
        ratings: Vec::new(),
        descriptions: Vec::new(),
        notes: Vec::new(),
        long_questions: Vec::new(),
        short_questions: Vec::new(),
        invalid_chunks_number: 0,
    };
    let mut lines = LineCursor::new(content);
    let ghost ls = lines.line_views();
    let ghost all = chunks_from(ls, 0);
    let ghost mut done: Seq<Result<Seq<char>, ChunkError>> = Seq::empty();
    proof {
        assert(views(day.ratings@) =~= Seq::<Seq<char>>::empty());
        assert(views(day.descriptions@) =~= Seq::<Seq<char>>::empty());
        assert(views(day.notes@) =~= Seq::<Seq<char>>::empty());
        assert(group_views(day.long_questions@) =~= group_entries(Seq::empty()));
        assert(group_views(day.short_questions@) =~= group_entries(Seq::empty()));
        assert(day.holds(summarize(done)));
        assert(all =~= done + chunks_from(ls, 0));
    }
    loop
        invariant
            ls == lines.line_views(),
            lines.next <= ls.len(),
            all == chunks_from(ls, 0),
            all == done + chunks_from(ls, lines.next as int),
            day.holds(summarize(done)),
            day.invalid_chunks_number <= lines.next,
        ensures
            day.holds(summarize(all)),
        decreases ls.len() - lines.next,
    {
        let ghost p = lines.next as int;
        proof {
            lemma_next_chunk_advances(ls, p);
        }
        match get_next_chunk(&mut lines) {
            Ok(this_chunk) => {
                proof {
                    assert(lines.line_views() == ls);
                }
                day.record_chunk(&this_chunk, Ghost(summarize(done)))?;
                proof {
                    let r = Ok::<Seq<char>, ChunkError>(this_chunk@);
                    assert(done.push(r).drop_last() =~= done);
                    assert(chunks_from(ls, p) =~= seq![r] + chunks_from(ls, lines.next as int));
                    done = done.push(r);
                    assert(all =~= done + chunks_from(ls, lines.next as int));
                }
            },
            Err(ChunkError::UnexpectedFileEnd) => {
                proof {
                    assert(chunks_from(ls, p) =~= Seq::<Result<Seq<char>, ChunkError>>::empty());
                    assert(all =~= done);
                }
                break ;
            },
            Err(e) => {
                day.invalid_chunks_number += 1;
                proof {
                    assert(lines.line_views() == ls);
                    let r = Err::<Seq<char>, ChunkError>(e);
                    assert(done.push(r).drop_last() =~= done);
                    assert(chunks_from(ls, p) =~= seq![r] + chunks_from(ls, lines.next as int));
                    done = done.push(r);
                    assert(all =~= done + chunks_from(ls, lines.next as int));
                }
            },
        }
    }
    let ghost s = summarize(all);
    proof {
        assert(views(day.ratings@) == s.ratings);
        assert(views(day.descriptions@) == s.descriptions);
    }
    let mut return_content: Vec<char> = Vec::new();
    push_titled(&mut return_content, "rating: ", &day.ratings, "->");
    proof {
        assert(return_content@ =~= titled("rating: "@, s.ratings, "->"@));
    }
    push_titled(&mut return_content, "description: \n", &day.descriptions, "\n");
    push_titled(&mut return_content, "notes: \n", &day.notes, "\n");
    let ghost part1 = return_content@;
    proof {
        lemma_group_entries_empty(s.long_entries);
        assert(part1 =~= titled("rating: "@, s.ratings, "->"@) + titled(
            "description: \n"@,
            s.descriptions,
            "\n"@,
        ) + titled("notes: \n"@, s.notes, "\n"@));
    }
    if day.long_questions.len() != 0 {
        extend_str(&mut return_content, "daily questions: \n");
        push_groups(&mut return_content, &day.long_questions, "\n", "\n");
    }
    let ghost part2 = return_content@;
    proof {
        assert(part2 =~= part1 + (if s.long_entries.len() == 0 {
            Seq::empty()
        } else {
            "daily questions: \n"@ + render_groups(group_entries(s.long_entries), "\n"@, "\n"@)
        }));
    }
    push_groups(&mut return_content, &day.short_questions, "\n    ", " -> ");
    let ghost part3 = return_content@;
    if day.invalid_chunks_number != 0 {
        extend_str(&mut return_content, "Encountered ");
        push_decimal(&mut return_content, day.invalid_chunks_number);
        extend_str(&mut return_content, " invalid chunk(s) in file!");
    }
    proof {
        assert(return_content@ =~= part3 + (if s.invalid == 0 {
            Seq::empty()
        } else {
            "Encountered "@ + decimal(s.invalid) + " invalid chunk(s) in file!"@
        }));
        assert(return_content@ =~= render_summary(s));
    }
    Ok(from_chars(return_content.as_slice()))
}

// ---------------------------------------------------------------------------
// Quotes
// ---------------------------------------------------------------------------

/// The characters at which a quote is cut into phrases.
pub open spec fn is_phrase_break(c: char) -> bool {
    c == '.' || c == '\n' || c == '\t' || c == '!' || c == '?'
}

/// The pieces of `s` between phrase breaks.
pub open spec fn split_phrases(s: Seq<char>) -> Seq<Seq<char>>
    decreases s.len(),
{
    if s.len() == 0 {
        seq![Seq::empty()]
    } else {
        let init = split_phrases(s.drop_last());
        if is_phrase_break(s.last()) {
            init.push(Seq::empty())
        } else {
            init.update(init.len() - 1, init.last().push(s.last()))
        }
    }
}

/// The pieces trimmed, the empty ones left out.
pub open spec fn nonempty_trimmed(ps: Seq<Seq<char>>) -> Seq<Seq<char>>
    decreases ps.len(),
{
    if ps.len() == 0 {
        Seq::empty()
    } else if trim(ps.last()).len() > 0 {
        nonempty_trimmed(ps.drop_last()).push(trim(ps.last()))
    } else {
        nonempty_trimmed(ps.drop_last())
    }
}

/// Each text after a `'.'`.
pub open spec fn dotted(ts: Seq<Seq<char>>) -> Seq<char>
    decreases ts.len(),
{
    if ts.len() == 0 {
        Seq::empty()
    } else {
        dotted(ts.drop_last()) + "."@ + ts.last()
    }
}

/// What a chunk contributes to the quotes: the answers to long questions
/// and notes, not ratings nor answers to short questions.
pub open spec fn quotable_text(c: Seq<char>) -> Seq<char> {
    let q = chunk_question(c);
    if kind_of(q) != QuestionType::Empty && prompt_of(q) != PromptQuestionType::Rating && kind_of(q)
        != QuestionType::Short {
        dotted(chunk_answers(c))
    } else {
        Seq::empty()
    }
}

/// The quotable text of a sequence of chunk results.
pub open spec fn quotable_texts(rs: Seq<Result<Seq<char>, ChunkError>>) -> Seq<char>
    decreases rs.len(),
{
    if rs.len() == 0 {
        Seq::empty()
    } else {
        quotable_texts(rs.drop_last()) + match rs.last() {
            Ok(c) => quotable_text(c),
            Err(_) => Seq::<char>::empty(),
        }
    }
}

/// The phrases a quote is chosen from in a day file with content `content`.
pub open spec fn phrases_of(content: Seq<char>) -> Seq<Seq<char>> {
    nonempty_trimmed(split_phrases(quotable_texts(chunks_from(lines(content), 0))))
}

/// A uniformly random index below `len` (`rand::rng().random_range(0..len)`
/// of the `rand` crate). Only the range of the result is stated.
#[verifier::external_body]
fn random_index(len: usize) -> (i: usize)
    requires
        len > 0,
    ensures
        i < len,
{
    rand::Rng::random_range(&mut rand::rng(), 0..len)
}

/// The pieces of `s` between phrase breaks.
fn split_phrases_chars(s: &[char]) -> (pieces: Vec<Vec<char>>)
    ensures
        views(pieces@) == split_phrases(s@),
{
    let mut pieces: Vec<Vec<char>> = Vec::new();
    let mut cur: Vec<char> = Vec::new();
    for i in 0..s.len()
        invariant
            views(pieces@).push(cur@) == split_phrases(s@.take(i as int)),
    {
        proof {
            assert(s@.take(i + 1).drop_last() =~= s@.take(i as int));
        }
        let ghost before = views(pieces@);
        let ghost cv = cur@;
        let c = s[i];
        if c == '.' || c == '\n' || c == '\t' || c == '!' || c == '?' {
            pieces.push(cur);
            cur = Vec::new();
            proof {
                assert(views(pieces@) =~= before.push(cv));
            }
        } else {
            cur.push(c);
        }
        proof {
            assert(views(pieces@).push(cur@) =~= split_phrases(s@.take(i + 1)));
        }
    }
    let ghost before = views(pieces@);
    let ghost cv = cur@;
    pieces.push(cur);
    proof {
        assert(views(pieces@) =~= before.push(cv));
        assert(s@.take(s@.len() as int) =~= s@);
    }
    pieces
}

/// The phrases of a day file that a quote can be: the answers to its long
/// questions and notes, cut at `.`, `!`, `?`, tabs and line ends, trimmed,
/// the empty ones left out.
pub fn quote_phrases(content: &str) -> (phrases: Vec<String>)
    ensures
        phrases@.map_values(|p: String| p@) == phrases_of(content@),
{
    let mut lines = LineCursor::new(content);
    let mut user_content: Vec<char> = Vec::new();
    let ghost ls = lines.line_views();
    let ghost all = chunks_from(ls, 0);
    let ghost mut done: Seq<Result<Seq<char>, ChunkError>> = Seq::empty();
    proof {
        assert(all =~= done + chunks_from(ls, 0));
    }
    loop
        invariant
            ls == lines.line_views(),
            lines.next <= ls.len(),
            all == chunks_from(ls, 0),
            all == done + chunks_from(ls, lines.next as int),
            user_content@ == quotable_texts(done),
        ensures
            user_content@ == quotable_texts(all),
        decreases ls.len() - lines.next,
    {
        let ghost p = lines.next as int;
        proof {
            lemma_next_chunk_advances(ls, p);
        }
        match get_next_chunk(&mut lines) {
            Ok(this_chunk) => {
                let ghost c = this_chunk@;
                let ghost u0 = user_content@;
                let answers = match this_chunk.get_answer() {
                    Ok(v) => v,
                    Err(_) => {
                        proof {
                            assert(false);
                        }
                        continue ;
                    },
                };
                let prompt_type = match this_chunk.get_prompt_type() {
                    Ok(v) => v,
                    Err(_) => {
                        proof {
                            assert(false);
                        }
                        continue ;
                    },
                };
                let question_type = match this_chunk.get_type() {
                    Ok(v) => v,
                    Err(_) => {
                        proof {
                            assert(false);
                        }
                        continue ;
                    },
                };
                let ghost ts = chunk_answers(c);
                if question_type != QuestionType::Empty && prompt_type != PromptQuestionType::Rating
                    && question_type != QuestionType::Short {
                    for i in 0..answers.len()
                        invariant
                            answers@.map_values(|q: Question| q@) == crate::text::lines(c).skip(2),
                            ts == chunk_answers(c),
                            user_content@ == u0 + dotted(ts.take(i as int)),
                    {
                        proof {
                            assert(answers@.map_values(|q: Question| q@)[i as int]
                                == answers@[i as int]@);
                            assert(ts.take(i + 1).drop_last() =~= ts.take(i as int));
                        }
                        if let Ok(t) = answers[i].get_text() {
                            extend_str(&mut user_content, ".");
                            extend_str(&mut user_content, t.as_str());
                        }
                        proof {
                            assert(user_content@ =~= u0 + dotted(ts.take(i + 1)));
                        }
                    }
                    proof {
                        assert(ts.take(ts.len() as int) =~= ts);
                    }
                }
                proof {
                    let r = Ok::<Seq<char>, ChunkError>(c);
                    assert(done.push(r).drop_last() =~= done);
                    assert(chunks_from(ls, p) =~= seq![r] + chunks_from(ls, lines.next as int));
                    assert(user_content@ =~= quotable_texts(done.push(r)));
                    done = done.push(r);
                    assert(all =~= done + chunks_from(ls, lines.next as int));
                }
            },
            Err(ChunkError::UnexpectedFileEnd) => {
                proof {
                    assert(chunks_from(ls, p) =~= Seq::<Result<Seq<char>, ChunkError>>::empty());
                    assert(all =~= done);
                }
                break ;
            },
            Err(e) => {
                proof {
                    let r = Err::<Seq<char>, ChunkError>(e);
                    assert(done.push(r).drop_last() =~= done);
                    assert(chunks_from(ls, p) =~= seq![r] + chunks_from(ls, lines.next as int));
                    assert(user_content@ =~= quotable_texts(done.push(r)));
                    done = done.push(r);
                    assert(all =~= done + chunks_from(ls, lines.next as int));
                }
            },
        }
    }
    let pieces = split_phrases_chars(user_content.as_slice());
    let ghost ps = views(pieces@);
    let mut content_phrases: Vec<String> = Vec::new();
    for i in 0..pieces.len()
        invariant
            ps == views(pieces@),
            ps == split_phrases(quotable_texts(all)),
            content_phrases@.map_values(|p: String| p@) == nonempty_trimmed(ps.take(i as int)),
    {
        proof {
            assert(ps.take(i + 1).drop_last() =~= ps.take(i as int));
        }
        let trimmed = trim_chars(pieces[i].as_slice());
        if trimmed.len() > 0 {
            let ghost before = content_phrases@;
            let p = from_chars(trimmed.as_slice());
            let ghost pv = p@;
            content_phrases.push(p);
            proof {
                assert(content_phrases@.map_values(|p: String| p@) =~= before.map_values(
                    |p: String| p@,
                ).push(pv));
            }
        }
    }
    proof {
        assert(ps.take(ps.len() as int) =~= ps);
    }
    content_phrases
}

/// The phrase at `index` among the phrases of the day file with content
/// `content`: the quote that a draw of `index` gives.
pub fn quote_at(content: &str, index: usize) -> (q: String)
    requires
        index < phrases_of(content@).len(),
    ensures
        q@ == phrases_of(content@)[index as int],
{
    let content_phrases = quote_phrases(content);
    let q = content_phrases[index].clone();
    proof {
        assert(content_phrases@.map_values(|p: String| p@)[index as int] == q@);
    }
    q
}

/// A phrase of the day file chosen at random, or `EmptyQuote` when it holds
/// none: the phrase at an index drawn uniformly below the number of
/// phrases (`quote_at`).
pub fn get_quote_from_str(content: &str) -> (r: Result<String, QuoteError>)
    ensures
        r is Err <==> phrases_of(content@).len() == 0,
        r matches Ok(q) ==> exists|i: int|
            0 <= i < phrases_of(content@).len() && q@ == #[trigger] phrases_of(content@)[i],
{
    let content_phrases = quote_phrases(content);
    if content_phrases.len() == 0 {
        return Err(QuoteError::EmptyQuote);
    }
    let rand_idx = random_index(content_phrases.len());
    let q = quote_at(content, rand_idx);
    Ok(q)
}

// ---------------------------------------------------------------------------
// Wrapping text to the terminal width
// ---------------------------------------------------------------------------

/// The number of bytes of `c` in UTF-8.
pub open spec fn char_width(c: char) -> nat {
    let u = c as u32;
    if u < 0x80 {
        1
    } else if u < 0x800 {
        2
    } else if u < 0x10000 {
        3
    } else {
        4
    }
}

/// The number of bytes of `s` in UTF-8 (`str::len`).
pub open spec fn byte_len(s: Seq<char>) -> nat
    decreases s.len(),
{
    if s.len() == 0 {
        0
    } else {
        byte_len(s.drop_last()) + char_width(s.last())
    }
}

/// The number of leading characters of `w`, from `k` on, that fit in `n`
/// bytes.
pub open spec fn fit_count(w: Seq<char>, n: nat, k: int) -> int
    decreases w.len() - k,
{
    if 0 <= k < w.len() && byte_len(w.take(k + 1)) <= n {
        fit_count(w, n, k + 1)
    } else {
        k
    }
}

/// A word cut to its first `n` bytes when it is longer.
pub open spec fn clip_word(w: Seq<char>, n: nat) -> Seq<char> {
    if byte_len(w) > n {
        w.take(fit_count(w, n, 0))
    } else {
        w
    }
}

/// Cutting `w` at byte `n` falls between two characters (else slicing the
/// word there panics).
pub open spec fn cut_on_boundary(w: Seq<char>, n: nat) -> bool {
    byte_len(w) > n ==> byte_len(w.take(fit_count(w, n, 0))) == n
}

/// The words of a line: its pieces between spaces.
pub open spec fn words_of(line: Seq<char>) -> Seq<Seq<char>> {
    crate::text::split_on(line, ' ')
}

/// Every word of `content` longer than `n` bytes can be cut at byte `n`.
pub open spec fn wraps_on_boundaries(content: Seq<char>, n: nat) -> bool {
    forall|i: int, j: int|
        0 <= i < lines(content).len() && 0 <= j < words_of(lines(content)[i]).len()
            ==> #[trigger] cut_on_boundary(words_of(lines(content)[i])[j], n)
}

/// The terminal lines written so far, the line being filled, and the
/// number of bytes it holds.
pub struct WrapState {
    pub done: Seq<Seq<char>>,
    pub cur: Seq<char>,
    pub x: int,
}

/// One word placed: on a fresh line when it would reach the width.
pub open spec fn wrap_word(st: WrapState, w: Seq<char>, n: nat) -> WrapState {
    let c = clip_word(w, n);
    let l = byte_len(c);
    let st2 = if l + st.x + 1 > n {
        WrapState { done: st.done.push(st.cur), cur: Seq::empty(), x: 0 }
    } else {
        st
    };
    WrapState { done: st2.done, cur: st2.cur + c + seq![' '], x: st2.x + l + 1 }
}

/// The words placed one after another.
pub open spec fn wrap_words(st: WrapState, ws: Seq<Seq<char>>, n: nat) -> WrapState
    decreases ws.len(),
{
    if ws.len() == 0 {
        st
    } else {
        wrap_word(wrap_words(st, ws.drop_last(), n), ws.last(), n)
    }
}

/// A line placed: its words from the start of a terminal line, and the
/// terminal line ended after them.
pub open spec fn wrap_line(st: WrapState, line: Seq<char>, n: nat) -> WrapState {
    let st1 = wrap_words(WrapState { x: 0, ..st }, words_of(line), n);
    WrapState { done: st1.done.push(st1.cur), cur: Seq::empty(), x: st1.x }
}

/// The lines placed one after another.
pub open spec fn wrap_lines(st: WrapState, ls: Seq<Seq<char>>, n: nat) -> WrapState
    decreases ls.len(),
{
    if ls.len() == 0 {
        st
    } else {
        wrap_line(wrap_lines(st, ls.drop_last(), n), ls.last(), n)
    }
}

/// The terminal lines of `content` on a terminal `n` bytes wide: each word
/// followed by a space, a new terminal line before a word that would reach
/// the width, words longer than the width cut, each line of the content
/// ended, and an empty terminal line at the end.
pub open spec fn wrapped(content: Seq<char>, n: nat) -> Seq<Seq<char>> {
    let st = wrap_lines(
        WrapState { done: Seq::empty(), cur: Seq::empty(), x: 0 },
        lines(content),
        n,
    );
    st.done.push(st.cur)
}

proof fn lemma_byte_len_take_step(w: Seq<char>, k: int)
    requires
        0 <= k < w.len(),
    ensures
        byte_len(w.take(k + 1)) == byte_len(w.take(k)) + char_width(w[k]),
{
    assert(w.take(k + 1).drop_last() =~= w.take(k));
}

proof fn lemma_byte_len_monotone(w: Seq<char>, a: int, b: int)
    requires
        0 <= a <= b <= w.len(),
    ensures
        byte_len(w.take(a)) <= byte_len(w.take(b)),
    decreases b - a,
{
    if a < b {
        lemma_byte_len_take_step(w, b - 1);
        lemma_byte_len_monotone(w, a, b - 1);
    }
}

/// Bytes add up over concatenation.
pub proof fn lemma_byte_len_concat(a: Seq<char>, b: Seq<char>)
    ensures
        byte_len(a + b) == byte_len(a) + byte_len(b),
    decreases b.len(),
{
    if b.len() == 0 {
        assert(a + b =~= a);
    } else {
        lemma_byte_len_concat(a, b.drop_last());
        assert((a + b).drop_last() =~= a + b.drop_last());
    }
}

/// The characters counted by `fit_count` fit.
proof fn lemma_fit_count_fits(w: Seq<char>, n: nat, k: int)
    requires
        0 <= k <= w.len(),
        byte_len(w.take(k)) <= n,
    ensures
        k <= fit_count(w, n, k) <= w.len(),
        byte_len(w.take(fit_count(w, n, k))) <= n,
    decreases w.len() - k,
{
    if k < w.len() && byte_len(w.take(k + 1)) <= n {
        lemma_fit_count_fits(w, n, k + 1);
    }
}

/// A clipped word fits in the width.
proof fn lemma_clip_fits(w: Seq<char>, n: nat)
    ensures
        byte_len(w) <= n ==> clip_word(w, n) == w,
        byte_len(clip_word(w, n)) <= n,
{
    if byte_len(w) > n {
        assert(w.take(0) =~= Seq::<char>::empty());
        lemma_fit_count_fits(w, n, 0);
    }
}

/// Each of the lines holds at most one byte more than the width.
pub open spec fn lines_fit(done: Seq<Seq<char>>, n: nat) -> bool {
    forall|i: int| 0 <= i < done.len() ==> byte_len(#[trigger] done[i]) <= n + 1
}

/// The line being filled holds `x` bytes, at most one more than the width,
/// and so do the lines written.
pub open spec fn wrap_fits(st: WrapState, n: nat) -> bool {
    &&& st.x == byte_len(st.cur)
    &&& st.x <= n + 1
    &&& lines_fit(st.done, n)
}

proof fn lemma_wrap_words_fits(st: WrapState, ws: Seq<Seq<char>>, n: nat)
    requires
        wrap_fits(st, n),
    ensures
        wrap_fits(wrap_words(st, ws, n), n),
    decreases ws.len(),
{
    if ws.len() > 0 {
        lemma_wrap_words_fits(st, ws.drop_last(), n);
        let s0 = wrap_words(st, ws.drop_last(), n);
        let c = clip_word(ws.last(), n);
        lemma_clip_fits(ws.last(), n);
        let l = byte_len(c);
        let st2 = if l + s0.x + 1 > n {
            WrapState { done: s0.done.push(s0.cur), cur: Seq::empty(), x: 0 }
        } else {
            s0
        };
        assert(byte_len(Seq::<char>::empty()) == 0);
        lemma_byte_len_concat(st2.cur, c);
        lemma_byte_len_concat(st2.cur + c, seq![' ']);
        assert(byte_len(seq![' ']) == 1) by {
            assert(seq![' '].drop_last() =~= Seq::<char>::empty());
        }
        let r = wrap_words(st, ws, n);
        assert forall|i: int| 0 <= i < r.done.len() implies byte_len(#[trigger] r.done[i]) <= n + 1 by {
            if i < s0.done.len() {
                assert(r.done[i] == s0.done[i]);
            }
        }
    }
}

proof fn lemma_wrap_lines_fits(st: WrapState, ls: Seq<Seq<char>>, n: nat)
    requires
        lines_fit(st.done, n),
        st.cur == Seq::<char>::empty(),
    ensures
        lines_fit(wrap_lines(st, ls, n).done, n),
        wrap_lines(st, ls, n).cur == Seq::<char>::empty(),
    decreases ls.len(),
{
    if ls.len() > 0 {
        lemma_wrap_lines_fits(st, ls.drop_last(), n);
        let s0 = wrap_lines(st, ls.drop_last(), n);
        let start = WrapState { x: 0, ..s0 };
        assert(byte_len(Seq::<char>::empty()) == 0);
        assert(wrap_fits(start, n));
        lemma_wrap_words_fits(start, words_of(ls.last()), n);
        let s1 = wrap_words(start, words_of(ls.last()), n);
        let r = wrap_lines(st, ls, n);
        assert(r.done == s1.done.push(s1.cur));
        assert forall|i: int| 0 <= i < r.done.len() implies byte_len(#[trigger] r.done[i]) <= n + 1 by {
            if i < s1.done.len() {
                assert(r.done[i] == s1.done[i]);
            }
        }
    }
}

/// No terminal line of wrapped text is longer than the width and the one
/// space that follows its last word.
pub proof fn lemma_wrapped_fits(content: Seq<char>, n: nat)
    ensures
        forall|i: int| 0 <= i < wrapped(content, n).len() ==> byte_len(#[trigger] wrapped(content, n)[i]) <= n + 1,
{
    let st0 = WrapState { done: Seq::empty(), cur: Seq::empty(), x: 0 };
    assert(byte_len(Seq::<char>::empty()) == 0);
    lemma_wrap_lines_fits(st0, lines(content), n);
    let st = wrap_lines(st0, lines(content), n);
    let r = wrapped(content, n);
    assert forall|i: int| 0 <= i < r.len() implies byte_len(#[trigger] r[i]) <= n + 1 by {
        if i < st.done.len() {
            assert(r[i] == st.done[i]);
        }
    }
}

/// Words placed from the start of a terminal line, when all of them and
/// the spaces after them fit in the width, make one terminal line: the
/// words joined by spaces, and a space.
proof fn lemma_words_fit(done: Seq<Seq<char>>, ps: Seq<Seq<char>>, n: nat)
    requires
        ps.len() >= 1,
        byte_len(join_with(ps, seq![' '])) + 1 <= n,
    ensures
        wrap_words(WrapState { done, cur: Seq::empty(), x: 0 }, ps, n) == (WrapState {
            done,
            cur: join_with(ps, seq![' ']) + seq![' '],
            x: byte_len(join_with(ps, seq![' '])) + 1int,
        }),
    decreases ps.len(),
{
    let st0 = WrapState { done, cur: Seq::<char>::empty(), x: 0 };
    let w = ps.last();
    assert(byte_len(seq![' ']) == 1) by {
        assert(seq![' '].drop_last() =~= Seq::<char>::empty());
        assert(byte_len(Seq::<char>::empty()) == 0);
        assert(seq![' '].last() == ' ');
    }
    if ps.len() == 1 {
        assert(ps.drop_last() =~= Seq::<Seq<char>>::empty());
        assert(wrap_words(st0, ps.drop_last(), n) == st0);
        assert(join_with(ps, seq![' ']) == ps[0]);
        lemma_clip_fits(w, n);
        assert(Seq::<char>::empty() + w + seq![' '] =~= w + seq![' ']);
    } else {
        let init = ps.drop_last();
        let ji = join_with(init, seq![' ']);
        assert(join_with(ps, seq![' ']) == ji + seq![' '] + w);
        lemma_byte_len_concat(ji + seq![' '], w);
        lemma_byte_len_concat(ji, seq![' ']);
        lemma_words_fit(done, init, n);
        lemma_clip_fits(w, n);
        assert(ji + seq![' '] + w + seq![' '] =~= join_with(ps, seq![' ']) + seq![' ']);
    }
}

/// A content line that fits in the width is shown unchanged: on a terminal
/// `n` bytes wide, a single line `l`, not empty and without a line end,
/// whose bytes and one space fit in `n`, makes one terminal line, `l` and a
/// space (every space of `l` kept, leading and repeated ones too), and the
/// empty line that ends the text.
pub proof fn lemma_short_line_kept(l: Seq<char>, n: nat)
    requires
        l.len() > 0,
        !crate::text::has_char(l, '\n'),
        byte_len(l) + 1 <= n,
    ensures
        wrapped(l, n) == seq![l + seq![' '], Seq::<char>::empty()],
{
    let e = Seq::<char>::empty();
    crate::text::lemma_split_on_append(e, l, '\n');
    assert(e + l =~= l);
    assert(split_on(e, '\n') =~= seq![e]);
    crate::text::lemma_split_on_nonempty(e, '\n');
    assert(split_on(l, '\n') =~= seq![l]);
    assert(lines(l) =~= seq![l]);
    let ps = words_of(l);
    crate::text::lemma_split_on_nonempty(l, ' ');
    crate::text::lemma_join_split(l, ' ');
    let st0 = WrapState { done: Seq::<Seq<char>>::empty(), cur: e, x: 0 };
    assert(seq![l].drop_last() =~= Seq::<Seq<char>>::empty());
    assert(wrap_lines(st0, seq![l].drop_last(), n) == st0);
    assert(WrapState { x: 0, ..st0 } == st0);
    lemma_words_fit(Seq::empty(), ps, n);
    assert(wrapped(l, n) =~= seq![l + seq![' '], e]);
}

/// The UTF-8 byte count of `c`.
fn char_width_exec(c: char) -> (n: usize)
    ensures
        n == char_width(c),
{
    let u = c as u32;
    if u < 0x80 {
        1
    } else if u < 0x800 {
        2
    } else if u < 0x10000 {
        3
    } else {
        4
    }
}

/// Whether `s` has exactly `n` bytes in UTF-8.
pub fn byte_len_is(s: &[char], n: usize) -> (b: bool)
    requires
        n <= 0xffff,
    ensures
        b == (byte_len(s@) == n),
{
    let mut k: usize = 0;
    let mut sum: usize = 0;
    proof {
        assert(s@.take(0) =~= Seq::<char>::empty());
    }
    while k < s.len() && sum <= n
        invariant
            0 <= k <= s@.len(),
            sum == byte_len(s@.take(k as int)),
            sum <= n + 4,
            n <= 0xffff,
        decreases s.len() - k,
    {
        proof {
            lemma_byte_len_take_step(s@, k as int);
        }
        sum = sum + char_width_exec(s[k]);
        k += 1;
    }
    proof {
        if k < s@.len() {
            lemma_byte_len_monotone(s@, k as int, s@.len() as int);
        }
        assert(s@.take(s@.len() as int) =~= s@);
    }
    k == s.len() && sum == n
}

/// The number of bytes of `s` when it is at most `n`, else none.
pub fn byte_len_up_to(s: &[char], n: usize) -> (r: Option<usize>)
    requires
        n <= 0xffff,
    ensures
        r matches Some(l) ==> l == byte_len(s@) && l <= n,
        r is None ==> byte_len(s@) > n,
{
    let mut k: usize = 0;
    let mut sum: usize = 0;
    proof {
        assert(s@.take(0) =~= Seq::<char>::empty());
    }
    while k < s.len() && sum <= n
        invariant
            0 <= k <= s@.len(),
            sum == byte_len(s@.take(k as int)),
            sum <= n + 4,
            n <= 0xffff,
        decreases s.len() - k,
    {
        proof {
            lemma_byte_len_take_step(s@, k as int);
        }
        sum = sum + char_width_exec(s[k]);
        k += 1;
    }
    proof {
        if k < s@.len() {
            lemma_byte_len_monotone(s@, k as int, s@.len() as int);
        }
        assert(s@.take(s@.len() as int) =~= s@);
    }
    if k == s.len() && sum <= n {
        Some(sum)
    } else {
        None
    }
}

/// The word cut to `n` bytes when longer, and its byte length.
fn clip_word_chars(w: &[char], n: usize) -> (r: (Vec<char>, usize))
    requires
        cut_on_boundary(w@, n as nat),
        n <= 0xffff,
    ensures
        r.0@ == clip_word(w@, n as nat),
        r.1 == byte_len(r.0@),
        r.1 <= n,
{
    let mut k: usize = 0;
    let mut sum: usize = 0;
    proof {
        assert(w@.take(0) =~= Seq::<char>::empty());
    }
    while k < w.len() && sum + char_width_exec(w[k]) <= n
        invariant
            0 <= k <= w@.len(),
            sum == byte_len(w@.take(k as int)),
            sum <= n,
            n <= 0xffff,
            fit_count(w@, n as nat, 0) == fit_count(w@, n as nat, k as int),
        decreases w.len() - k,
    {
        proof {
            lemma_byte_len_take_step(w@, k as int);
        }
        sum = sum + char_width_exec(w[k]);
        k += 1;
    }
    proof {
        if k < w@.len() {
            lemma_byte_len_take_step(w@, k as int);
            lemma_byte_len_monotone(w@, k + 1, w@.len() as int);
            assert(w@.take(w@.len() as int) =~= w@);
        } else {
            assert(w@.take(k as int) =~= w@);
        }
    }
    (copy_range(w, 0, k), sum)
}

/// Whether cutting `w` at byte `n` falls between two characters.
fn cut_on_boundary_chars(w: &[char], n: usize) -> (b: bool)
    requires
        n <= 0xffff,
    ensures
        b == cut_on_boundary(w@, n as nat),
{
    let mut k: usize = 0;
    let mut sum: usize = 0;
    proof {
        assert(w@.take(0) =~= Seq::<char>::empty());
    }
    while k < w.len() && sum + char_width_exec(w[k]) <= n
        invariant
            0 <= k <= w@.len(),
            sum == byte_len(w@.take(k as int)),
            sum <= n,
            n <= 0xffff,
            fit_count(w@, n as nat, 0) == fit_count(w@, n as nat, k as int),
        decreases w.len() - k,
    {
        proof {
            lemma_byte_len_take_step(w@, k as int);
        }
        sum = sum + char_width_exec(w[k]);
        k += 1;
    }
    proof {
        if k < w@.len() {
            lemma_byte_len_take_step(w@, k as int);
            lemma_byte_len_monotone(w@, k + 1, w@.len() as int);
            assert(w@.take(w@.len() as int) =~= w@);
        } else {
            assert(w@.take(k as int) =~= w@);
        }
    }
    k == w.len() || sum == n
}

/// Whether every word of `content` longer than `term_width` bytes can be
/// cut at that width (`format_content` needs it).
pub fn wraps_cleanly(content: &str, term_width: u16) -> (b: bool)
    ensures
        b == wraps_on_boundaries(content@, term_width as nat),
{
    let cs = to_chars(content);
    let all_lines = lines_chars(cs.as_slice());
    let ghost ls = views(all_lines@);
    let ghost n = term_width as nat;
    for li in 0..all_lines.len()
        invariant
            ls == views(all_lines@),
            ls == lines(content@),
            n == term_width,
            forall|i: int, j: int|
                0 <= i < li && 0 <= j < words_of(ls[i]).len() ==> #[trigger] cut_on_boundary(
                    words_of(ls[i])[j],
                    n,
                ),
    {
        let words = crate::text::split_chars(all_lines[li].as_slice(), ' ');
        proof {
            assert(ls[li as int] == all_lines@[li as int]@);
        }
        for wi in 0..words.len()
            invariant
                ls == lines(content@),
                0 <= li < ls.len(),
                n == term_width,
                views(words@) == words_of(ls[li as int]),
                forall|i: int, j: int|
                    0 <= i < li && 0 <= j < words_of(ls[i]).len() ==> #[trigger] cut_on_boundary(
                        words_of(ls[i])[j],
                        n,
                    ),
                forall|j: int| 0 <= j < wi ==> #[trigger] cut_on_boundary(words_of(ls[li as int])[j], n),
        {
            proof {
                assert(views(words@)[wi as int] == words@[wi as int]@);
            }
            if !cut_on_boundary_chars(words[wi].as_slice(), term_width as usize) {
                proof {
                    assert(!cut_on_boundary(words_of(lines(content@)[li as int])[wi as int], n));
                }
                return false;
            }
        }
    }
    true
}

/// The terminal lines of `content` on a terminal `term_width` bytes wide.
pub fn format_content(content: &str, term_width: u16) -> (r: Vec<String>)
    requires
        wraps_on_boundaries(content@, term_width as nat),
    ensures
        r@.map_values(|s: String| s@) == wrapped(content@, term_width as nat),
{
    let width = term_width as usize;
    let ghost n = term_width as nat;
    let cs = to_chars(content);
    let all_lines = lines_chars(cs.as_slice());
    let ghost ls = views(all_lines@);
    let mut terminal_lines: Vec<String> = Vec::new();
    let mut terminal_line: Vec<char> = Vec::new();
    let mut line_x: usize = 0;
    for li in 0..all_lines.len()
        invariant
            ls == views(all_lines@),
            ls == lines(content@),
            width == n,
            width <= 0xffff,
            wraps_on_boundaries(content@, n),
            ({
                let st = wrap_lines(
                    WrapState { done: Seq::empty(), cur: Seq::empty(), x: 0 },
                    ls.take(li as int),
                    n,
                );
                &&& terminal_lines@.map_values(|s: String| s@) == st.done
                &&& terminal_line@ == st.cur
            }),
    {
        let ghost st0 = wrap_lines(
            WrapState { done: Seq::empty(), cur: Seq::empty(), x: 0 },
            ls.take(li as int),
            n,
        );
        proof {
            assert(ls.take(li + 1).drop_last() =~= ls.take(li as int));
        }
        line_x = 0;
        let words = crate::text::split_chars(all_lines[li].as_slice(), ' ');
        let ghost ws = views(words@);
        proof {
            assert(ls[li as int] == all_lines@[li as int]@);
        }
        for wi in 0..words.len()
            invariant
                ws == views(words@),
                ws == words_of(ls[li as int]),
                0 <= li < ls.len(),
                width == n,
                width <= 0xffff,
                wraps_on_boundaries(content@, n),
                ls == lines(content@),
                line_x <= n + 1,
                ({
                    let st = wrap_words(WrapState { x: 0, ..st0 }, ws.take(wi as int), n);
                    &&& terminal_lines@.map_values(|s: String| s@) == st.done
                    &&& terminal_line@ == st.cur
                    &&& line_x == st.x
                }),
        {
            proof {
                assert(ws.take(wi + 1).drop_last() =~= ws.take(wi as int));
                assert(ws[wi as int] == words@[wi as int]@);
                assert(cut_on_boundary(words_of(lines(content@)[li as int])[wi as int], n));
            }
            let (word, word_length) = clip_word_chars(words[wi].as_slice(), width);
            if word_length + line_x + 1 > width {
                let ghost before = terminal_lines@.map_values(|s: String| s@);
                let t = from_chars(terminal_line.as_slice());
                let ghost tv = t@;
                terminal_lines.push(t);
                proof {
                    assert(terminal_lines@.map_values(|s: String| s@) =~= before.push(tv));
                }
                terminal_line = Vec::new();
                line_x = 0;
            }
            extend_chars(&mut terminal_line, word.as_slice());
            terminal_line.push(' ');
            line_x += word_length + 1;
        }
        proof {
            assert(ws.take(ws.len() as int) =~= ws);
        }
        let ghost before = terminal_lines@.map_values(|s: String| s@);
        let t = from_chars(terminal_line.as_slice());
        let ghost tv = t@;
        terminal_lines.push(t);
        proof {
            assert(terminal_lines@.map_values(|s: String| s@) =~= before.push(tv));
        }
        terminal_line = Vec::new();
    }
    proof {
        assert(ls.take(ls.len() as int) =~= ls);
    }
    let ghost before = terminal_lines@.map_values(|s: String| s@);
    let t = from_chars(terminal_line.as_slice());
    let ghost tv = t@;
    terminal_lines.push(t);
    proof {
        assert(terminal_lines@.map_values(|s: String| s@) =~= before.push(tv));
    }
    terminal_lines
}

/// What chrono gives for the weekday of the date written in `stem`:
/// `NaiveDate::parse_from_str(stem, "%Y-%m-%d")`, then `weekday()`
/// written by its `Display`; `None` when the stem is not such a date.
pub uninterp spec fn weekday_name_of(stem: Seq<char>) -> Option<Seq<char>>;

/// One of the seven weekday abbreviations that chrono's `Weekday` writes.
pub open spec fn is_weekday_name(w: Seq<char>) -> bool {
    ||| w == seq!['M', 'o', 'n']
    ||| w == seq!['T', 'u', 'e']
    ||| w == seq!['W', 'e', 'd']
    ||| w == seq!['T', 'h', 'u']
    ||| w == seq!['F', 'r', 'i']
    ||| w == seq!['S', 'a', 't']
    ||| w == seq!['S', 'u', 'n']
}

/// The weekday of the date written in `stem` (chrono's
/// `NaiveDate::parse_from_str` with `%Y-%m-%d`, `Datelike::weekday` and
/// the `Display` of `Weekday`). Stated: the result is
/// `weekday_name_of(stem)`, and a weekday is written as one of `Mon`,
/// `Tue`, `Wed`, `Thu`, `Fri`, `Sat`, `Sun`. Which stems parse and which
/// weekday they fall on is left to the name.
#[verifier::external_body]
fn weekday_of(stem: &str) -> (r: Option<String>)
    ensures
        crate::cli::opt_view(r) == weekday_name_of(stem@),
        r matches Some(w) ==> is_weekday_name(w@),
{
    match chrono::NaiveDate::parse_from_str(stem, "%Y-%m-%d") {
        Ok(d) => Some(chrono::Datelike::weekday(&d).to_string()),
        Err(_) => None,
    }
}

/// The header that the pager draws above a day: the day file's stem and
/// its weekday, separated by a space.
pub open spec fn header_of(stem: Seq<char>, weekday: Seq<char>) -> Seq<char> {
    stem + seq![' '] + weekday
}

/// The header the pager draws above the day file with stem `stem`: the
/// stem, a space and the weekday of that date; `None` when the stem is not
/// a `%Y-%m-%d` date.
pub fn display_header(stem: &str) -> (r: Option<String>)
    ensures
        crate::cli::opt_view(r) == match weekday_name_of(stem@) {
            Some(w) => Some(header_of(stem@, w)),
            None => None,
        },
        r matches Some(h) ==> exists|w: Seq<char>| is_weekday_name(w) && h@ == #[trigger] header_of(stem@, w),
{
    match weekday_of(stem) {
        Some(w) => {
            let mut out: Vec<char> = Vec::new();
            extend_str(&mut out, stem);
            out.push(' ');
            extend_str(&mut out, w.as_str());
            proof {
                assert(out@ =~= header_of(stem@, w@));
            }
            Some(from_chars(out.as_slice()))
        },
        None => None,
    }
}

/// The smaller of two integers.
pub open spec fn min_int(a: int, b: int) -> int {
    if a <= b { a } else { b }
}

/// The lines of `s` from `lo` up to `hi`; none when `hi` is not past `lo`.
pub open spec fn window(s: Seq<Seq<char>>, lo: int, hi: int) -> Seq<Seq<char>> {
    if lo < hi {
        s.subrange(lo, hi)
    } else {
        Seq::empty()
    }
}

/// The terminal lines that fit on the screen below the two header lines,
/// from line `height_index` on: those at `height_index` and after, before
/// `height_index + term_height - 2`. The end is only computed when a line
/// lies at or after `height_index`; it must then be neither below zero nor
/// beyond `usize`.
pub fn visible_lines(terminal_lines: &[String], height_index: usize, term_height: u16) -> (r: Vec<
    String,
>)
    requires
        height_index < terminal_lines@.len() ==> 2 <= height_index + term_height <= usize::MAX,
    ensures
        r@.map_values(|s: String| s@) == window(
            terminal_lines@.map_values(|s: String| s@),
            min_int(height_index as int, terminal_lines@.len() as int),
            min_int(height_index + term_height - 2, terminal_lines@.len() as int),
        ),
{
    let ghost all = terminal_lines@.map_values(|s: String| s@);
    let n = terminal_lines.len();
    if height_index >= n {
        proof {
            assert(window(all, n as int, min_int(height_index + term_height - 2, n as int))
                =~= Seq::<Seq<char>>::empty());
        }
        return Vec::new();
    }
    let end = height_index + term_height as usize - 2;
    let mut r: Vec<String> = Vec::new();
    for line_idx in 0..n
        invariant
            n == terminal_lines@.len(),
            end == height_index + term_height - 2,
            all == terminal_lines@.map_values(|s: String| s@),
            all.len() == n,
            r@.map_values(|s: String| s@) == window(
                all,
                min_int(height_index as int, line_idx as int),
                min_int(end as int, line_idx as int),
            ),
    {
        let ghost before = r@.map_values(|s: String| s@);
        if line_idx >= height_index && line_idx < end {
            let l = terminal_lines[line_idx].clone();
            r.push(l);
            proof {
                assert(r@.map_values(|s: String| s@) =~= before.push(all[line_idx as int]));
            }
        }
        proof {
            assert(r@.map_values(|s: String| s@) =~= window(
                all,
                min_int(height_index as int, line_idx + 1),
                min_int(end as int, line_idx + 1),
            ));
        }
    }
    r
}

} // verus!
