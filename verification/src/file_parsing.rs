//! Writing entries to a day file, and the shuffled list of daily questions.

use crate::question::{kind_of, tag_of, text_of, Informative, Question, QuestionType};
use crate::utility::{is_digit, two_digits_in};
use crate::text::{
    copy_range, extend_chars, extend_str, from_chars, lines, lines_chars, split_chars, split_on,
    to_chars, views,
};
use vstd::prelude::*;

verus! {

broadcast use vstd::string::group_string_axioms;

// ---------------------------------------------------------------------------
// Entries
// ---------------------------------------------------------------------------

/// The question line of an entry: tag, `": "`, text, line end.
pub open spec fn question_entry(q: Seq<char>) -> Seq<char> {
    tag_of(q) + ": "@ + text_of(q) + "\n"@
}

/// Each line of the answer as an answer line `a: line`.
pub open spec fn answer_entry(answer: Seq<char>) -> Seq<char> {
    answer_lines(split_on(answer, '\n'))
}

/// `a: ` before each piece, a line end after it.
pub open spec fn answer_lines(ps: Seq<Seq<char>>) -> Seq<char>
    decreases ps.len(),
{
    if ps.len() == 0 {
        Seq::empty()
    } else {
        answer_lines(ps.drop_last()) + "a: "@ + ps.last() + "\n"@
    }
}

/// The question line of an entry for `question`.
pub fn format_question(question: &Question) -> (r: String)
    ensures
        r@ == question_entry(question@),
{
    let mut out: Vec<char> = Vec::new();
    if let Ok(t) = question.get_type_as_str() {
        extend_str(&mut out, t.as_str());
    }
    extend_str(&mut out, ": ");
    if let Ok(t) = question.get_text() {
        extend_str(&mut out, t.as_str());
    }
    extend_str(&mut out, "\n");
    from_chars(out.as_slice())
}

/// A time as `%H:%M` writes it: the hour in two digits (00 to 23), `:`,
/// the minute in two digits (00 to 59).
pub open spec fn is_clock_time(t: Seq<char>) -> bool {
    &&& t.len() == 5
    &&& two_digits_in(t.take(2), 0, 23)
    &&& t[2] == ':'
    &&& two_digits_in(t.skip(3), 0, 59)
}

/// The information line of an entry written now: `i: `, the local time as
/// chrono writes it with `%H:%M`, and a line end
/// (`Local::now().format("i: %H:%M\n")`). Stated: the line is `i: `, a
/// time as `%H:%M` writes it (chrono's documentation of `%H` and `%M`), and
/// `'\n'`. Which time depends on the clock and is left unstated;
/// `Local::now` panics when the system clock reads a time before 1970.
#[verifier::external_body]
fn local_info_line() -> (r: String)
    ensures
        r@.len() == 9,
        r@.take(3) == seq!['i', ':', ' '],
        is_clock_time(r@.subrange(3, 8)),
        r@[8] == '\n',
{
    chrono::offset::Local::now().format("i: %H:%M\n").to_string()
}

/// The two lines that open an entry written now: the information line
/// with the local time, and the question line.
pub fn question_header(question: &Question) -> (r: String)
    ensures
        r@.len() >= 9,
        is_clock_time(r@.subrange(3, 8)),
        r@ == "i: "@ + r@.subrange(3, 8) + "\n"@ + question_entry(question@),
{
    let info = local_info_line();
    let q = format_question(question);
    let mut out: Vec<char> = Vec::new();
    extend_str(&mut out, info.as_str());
    extend_str(&mut out, q.as_str());
    proof {
        reveal_strlit("i: ");
        reveal_strlit("\n");
        assert(out@.subrange(3, 8) =~= info@.subrange(3, 8));
        assert(info@ =~= "i: "@ + info@.subrange(3, 8) + "\n"@);
        assert(out@ =~= "i: "@ + out@.subrange(3, 8) + "\n"@ + question_entry(question@));
    }
    from_chars(out.as_slice())
}

/// The answer lines of an entry: each line of `answer` (even when copied
/// in with line ends) on an answer line of its own.
pub fn format_answer(answer: &str) -> (r: String)
    ensures
        r@ == answer_entry(answer@),
{
    let cs = to_chars(answer);
    let pieces = split_chars(cs.as_slice(), '\n');
    let ghost ps = views(pieces@);
    let mut out: Vec<char> = Vec::new();
    for i in 0..pieces.len()
        invariant
            ps == views(pieces@),
            ps == split_on(answer@, '\n'),
            out@ == answer_lines(ps.take(i as int)),
    {
        proof {
            assert(ps.take(i + 1).drop_last() =~= ps.take(i as int));
        }
        extend_str(&mut out, "a: ");
        extend_chars(&mut out, pieces[i].as_slice());
        extend_str(&mut out, "\n");
    }
    proof {
        assert(ps.take(ps.len() as int) =~= ps);
    }
    from_chars(out.as_slice())
}

// ---------------------------------------------------------------------------
// Reading back what was written
// ---------------------------------------------------------------------------

/// The text of an entry as the journal appends it to a day file: the
/// information line with the time, the question line and the answer lines.
pub open spec fn entry_text(time: Seq<char>, q: Seq<char>, answer: Seq<char>) -> Seq<char> {
    "i: "@ + time + "\n"@ + question_entry(q) + answer_entry(answer)
}

/// The lines of an entry.
pub open spec fn entry_lines(time: Seq<char>, q: Seq<char>, answer: Seq<char>) -> Seq<Seq<char>> {
    seq!["i: "@ + time, q] + split_on(answer, '\n').map_values(|p: Seq<char>| "a: "@ + p)
}

/// The answer lines are the pieces after `a: `, each ended by `'\n'`.
proof fn lemma_answer_lines_terminated(ps: Seq<Seq<char>>)
    ensures
        answer_lines(ps) == crate::text::join_terminated(
            ps.map_values(|p: Seq<char>| "a: "@ + p),
        ),
    decreases ps.len(),
{
    reveal_strlit("\n");
    if ps.len() > 0 {
        lemma_answer_lines_terminated(ps.drop_last());
        assert(ps.map_values(|p: Seq<char>| "a: "@ + p).drop_last() =~= ps.drop_last().map_values(
            |p: Seq<char>| "a: "@ + p,
        ));
        assert(answer_lines(ps) =~= crate::text::join_terminated(
            ps.map_values(|p: Seq<char>| "a: "@ + p),
        ));
    } else {
        assert(ps.map_values(|p: Seq<char>| "a: "@ + p) =~= Seq::<Seq<char>>::empty());
    }
}

/// The entries that read back line for line: no line of the entry holds a
/// line end or loses a final `'\r'` on reading, and the question has a
/// tag.
pub open spec fn entry_ok(time: Seq<char>, q: Seq<char>, answer: Seq<char>) -> bool {
    &&& !crate::text::has_char(time, '\n')
    &&& crate::text::strip_cr(time) == time
    &&& !crate::text::has_char(q, '\n')
    &&& crate::text::strip_cr(q) == q
    &&& kind_of(q) != QuestionType::Empty
    &&& forall|i: int|
        0 <= i < split_on(answer, '\n').len() ==> crate::text::strip_cr(
            #[trigger] split_on(answer, '\n')[i],
        ) == split_on(answer, '\n')[i]
}

/// The texts of the answer lines of an entry as they read back: the lines
/// of the answer, the last without its trailing whitespace (which trimming
/// the chunk drops).
pub open spec fn answer_texts(answer: Seq<char>) -> Seq<Seq<char>> {
    let ps = split_on(answer, '\n');
    ps.update(ps.len() - 1, crate::text::trim_end(ps.last()))
}

/// The chunk of an entry: its lines, the last trimmed at its end, joined.
pub open spec fn entry_chunk(time: Seq<char>, q: Seq<char>, answer: Seq<char>) -> Seq<char> {
    crate::text::join_with(crate::pager::trimmed_block(entry_lines(time, q, answer)), seq!['\n'])
}

/// An answer line trimmed at its end reads as its text trimmed at its end.
proof fn lemma_trimmed_answer_line(p: Seq<char>)
    ensures
        crate::text::trim_end("a: "@ + p).len() > 0,
        text_of(crate::text::trim_end("a: "@ + p)) == crate::text::trim_end(p),
{
    reveal_strlit("a: ");
    let ab = seq!['a', ':'];
    let t = seq![' '] + p;
    assert("a: "@ + p =~= ab + t);
    crate::text::lemma_trim_end_concat(ab, t);
    crate::text::lemma_trim_end_concat(seq![' '], p);
    assert(crate::text::trim_end(seq![' ']) =~= Seq::<char>::empty()) by {
        assert(seq![' '].drop_last() =~= Seq::<char>::empty());
        assert(seq![' '].last() == ' ');
        assert(crate::text::is_whitespace(' '));
        assert(crate::text::trim_end(Seq::<char>::empty()) =~= Seq::<char>::empty());
    }
    assert(crate::text::trim_end(ab) == ab);
    if crate::text::trim_end(p).len() > 0 {
        let r = ab + (seq![' '] + crate::text::trim_end(p));
        assert(r.skip(3) =~= crate::text::trim_end(p));
    }
}

/// An answer without trailing whitespace reads back line for line.
proof fn lemma_answer_texts_untrimmed(answer: Seq<char>)
    requires
        crate::text::trim_end(answer) == answer,
    ensures
        answer_texts(answer) == split_on(answer, '\n'),
{
    let ps = split_on(answer, '\n');
    crate::text::lemma_split_on_nonempty(answer, '\n');
    if answer.len() > 0 {
        if crate::text::is_whitespace(answer.last()) {
            crate::text::lemma_trim_end_prefix(answer.drop_last());
            assert(crate::text::trim_end(answer) == crate::text::trim_end(answer.drop_last()));
            assert(false);
        }
        assert(answer.last() != '\n');
        crate::text::lemma_split_on_nonempty(answer.drop_last(), '\n');
        let init = split_on(answer.drop_last(), '\n');
        assert(ps == init.update(init.len() - 1, init.last().push(answer.last())));
        assert(ps.last() == init.last().push(answer.last()));
        assert(ps.last().last() == answer.last());
    } else {
        assert(ps.last() =~= Seq::<char>::empty());
    }
    assert(crate::text::trim_end(ps.last()) == ps.last());
    assert(answer_texts(answer) =~= ps);
}

/// A clock time holds no line end and loses nothing on reading, as the
/// time of an entry that reads back must.
pub proof fn lemma_clock_time_reads_back(t: Seq<char>)
    requires
        is_clock_time(t),
    ensures
        !crate::text::has_char(t, '\n'),
        crate::text::strip_cr(t) == t,
{
    assert(t.skip(3)[1] == t[4]);
    assert(is_digit(t.skip(3)[1]));
    if crate::text::has_char(t, '\n') {
        let k = choose|k: int| 0 <= k < t.len() && t[k] == '\n';
        if k < 2 {
            assert(t.take(2)[k] == t[k]);
            assert(is_digit(t.take(2)[k]));
        } else if k > 2 {
            assert(t.skip(3)[k - 3] == t[k]);
            assert(is_digit(t.skip(3)[k - 3]));
        }
    }
}

/// An entry written to an empty day file reads back as one chunk, line for
/// line: its information line holds the time, its question line is the
/// question, and its answers are the lines of the answer, the last without
/// the trailing whitespace that trimming the chunk drops (all of them as
/// written when the answer has no trailing whitespace, the empty answer
/// too). This holds unless a line would lose a final `'\r'` on reading or
/// the question has no tag.
pub proof fn lemma_entry_reads_back(time: Seq<char>, q: Seq<char>, answer: Seq<char>)
    requires
        entry_ok(time, q, answer),
    ensures
        lines(entry_text(time, q, answer)) == entry_lines(time, q, answer),
        crate::pager::next_chunk(lines(entry_text(time, q, answer)), 0) == (
            Ok::<Seq<char>, crate::pager::ChunkError>(entry_chunk(time, q, answer)),
            entry_lines(time, q, answer).len() as int,
        ),
        lines(entry_chunk(time, q, answer)) == crate::pager::trimmed_block(
            entry_lines(time, q, answer),
        ),
        crate::pager::chunk_info(entry_chunk(time, q, answer)) == time,
        crate::pager::chunk_question(entry_chunk(time, q, answer)) == q,
        crate::pager::chunk_answers(entry_chunk(time, q, answer)) == answer_texts(answer),
        crate::text::trim_end(answer) == answer ==> crate::pager::chunk_answers(
            entry_chunk(time, q, answer),
        ) == split_on(answer, '\n'),
{
    lemma_entry_block(time, q, answer);
    lemma_entry_chunk_parts(time, q, answer);
    let ls = entry_lines(time, q, answer);
    crate::text::lemma_lines_of_terminated(ls);
    crate::pager::lemma_block_reads_back(ls);
    if crate::text::trim_end(answer) == answer {
        lemma_answer_texts_untrimmed(answer);
    }
}

/// The information, question and answers of the chunk of an entry.
proof fn lemma_entry_chunk_parts(time: Seq<char>, q: Seq<char>, answer: Seq<char>)
    requires
        entry_ok(time, q, answer),
    ensures
        crate::pager::chunk_info(entry_chunk(time, q, answer)) == time,
        crate::pager::chunk_question(entry_chunk(time, q, answer)) == q,
        crate::pager::chunk_answers(entry_chunk(time, q, answer)) == answer_texts(answer),
{
    reveal_strlit("i: ");
    reveal_strlit("a: ");
    lemma_entry_block(time, q, answer);
    let ps = split_on(answer, '\n');
    crate::text::lemma_split_on_nonempty(answer, '\n');
    let info = "i: "@ + time;
    let al = ps.map_values(|p: Seq<char>| "a: "@ + p);
    let ls = entry_lines(time, q, answer);
    assert(ls == seq![info, q] + al);
    crate::pager::lemma_block_reads_back(ls);
    let tb = crate::pager::trimmed_block(ls);
    let c = entry_chunk(time, q, answer);
    assert(lines(c) == tb);
    assert(tb[0] == info);
    assert(tb[1] == q);
    assert(info.skip(3) =~= time);
    let n = ps.len();
    lemma_trimmed_answer_line(ps.last());
    assert(al[n - 1] == "a: "@ + ps.last());
    assert(tb.skip(2) =~= al.update(n - 1, crate::text::trim_end(al[n - 1])));
    assert(crate::pager::chunk_answers(c) =~= answer_texts(answer)) by {
        assert forall|i: int| 0 <= i < ps.len() implies crate::question::text_of(
            #[trigger] tb.skip(2)[i],
        ) == answer_texts(answer)[i] by {
            if i < n - 1 {
                assert(tb.skip(2)[i] == al[i]);
                assert(al[i].skip(3) =~= ps[i]);
            }
        }
    }
}

/// An entry's text is its lines, each ended, and its lines make a readable
/// block.
proof fn lemma_entry_block(time: Seq<char>, q: Seq<char>, answer: Seq<char>)
    requires
        entry_ok(time, q, answer),
    ensures
        entry_text(time, q, answer) == crate::text::join_terminated(entry_lines(time, q, answer)),
        crate::pager::readable_block(entry_lines(time, q, answer)),
{
    reveal_strlit("\n");
    reveal_strlit("i: ");
    reveal_strlit(": ");
    reveal_strlit("a: ");
    let ps = split_on(answer, '\n');
    crate::text::lemma_split_on_nonempty(answer, '\n');
    crate::text::lemma_split_on_pieces(answer, '\n');
    let info = "i: "@ + time;
    let al = ps.map_values(|p: Seq<char>| "a: "@ + p);
    let ls = entry_lines(time, q, answer);
    assert(ls == seq![info, q] + al);
    // The question line as written is the question.
    assert(question_entry(q) =~= q + seq!['\n']) by {
        assert(q.take(1) + ": "@ + q.skip(3) =~= q);
    }
    // The whole entry is its lines, each ended by a line end.
    lemma_answer_lines_terminated(ps);
    crate::text::lemma_join_terminated_concat(seq![info, q], al);
    assert(crate::text::join_terminated(seq![info, q]) =~= info + seq!['\n'] + q + seq!['\n']) by {
        assert(seq![info, q].drop_last() =~= seq![info]);
        assert(seq![info].drop_last() =~= Seq::<Seq<char>>::empty());
        assert(crate::text::join_terminated(Seq::<Seq<char>>::empty()) =~= Seq::<char>::empty());
        assert(crate::text::join_terminated(seq![info]) =~= info + seq!['\n']);
        assert(seq![info, q].last() == q);
    }
    assert(entry_text(time, q, answer) =~= crate::text::join_terminated(ls));
    // The lines hold no line end and lose nothing on reading.
    assert forall|i: int| 0 <= i < ls.len() implies !crate::text::has_char(#[trigger] ls[i], '\n')
        && crate::text::strip_cr(ls[i]) == ls[i] && ls[i].len() > 0 by {
        if i == 0 {
            if crate::text::has_char(info, '\n') {
                let k = choose|k: int| 0 <= k < info.len() && info[k] == '\n';
                if k >= 3 {
                    assert(time[k - 3] == '\n');
                }
            }
            if time.len() > 0 {
                assert(info.last() == time.last());
            }
        } else if i == 1 {
        } else {
            let p = ps[i - 2];
            assert(ls[i] == "a: "@ + p);
            if crate::text::has_char(ls[i], '\n') {
                let k = choose|k: int| 0 <= k < ls[i].len() && ls[i][k] == '\n';
                if k >= 3 {
                    assert(p[k - 3] == '\n');
                }
            }
            if p.len() > 0 {
                assert(ls[i].last() == p.last());
            }
        }
    }
    assert(ls.last() == "a: "@ + ps.last());
    lemma_trimmed_answer_line(ps.last());
}

/// The text of a day file to which the entries were written one after the
/// other: an empty line before each entry but the first.
pub open spec fn day_text(es: Seq<(Seq<char>, Seq<char>, Seq<char>)>) -> Seq<char>
    decreases es.len(),
{
    if es.len() == 0 {
        Seq::empty()
    } else if es.len() == 1 {
        entry_text(es[0].0, es[0].1, es[0].2)
    } else {
        entry_text(es[0].0, es[0].1, es[0].2) + "\n"@ + day_text(es.drop_first())
    }
}

/// The lines of each entry.
pub open spec fn entries_lines(es: Seq<(Seq<char>, Seq<char>, Seq<char>)>) -> Seq<Seq<Seq<char>>> {
    es.map_values(|e: (Seq<char>, Seq<char>, Seq<char>)| entry_lines(e.0, e.1, e.2))
}

/// The lines of blocks hold no line end and lose nothing on reading.
proof fn lemma_blocks_file_lines_ok(bs: Seq<Seq<Seq<char>>>)
    requires
        forall|i: int| 0 <= i < bs.len() ==> crate::pager::readable_block(#[trigger] bs[i]),
    ensures
        forall|i: int|
            0 <= i < crate::pager::blocks_file(bs).len() ==> !crate::text::has_char(
                #[trigger] crate::pager::blocks_file(bs)[i],
                '\n',
            ) && crate::text::strip_cr(crate::pager::blocks_file(bs)[i])
                == crate::pager::blocks_file(bs)[i],
    decreases bs.len(),
{
    if bs.len() > 0 {
        let b = bs[0];
        assert(crate::pager::readable_block(b));
        if bs.len() > 1 {
            let rest = bs.drop_first();
            assert forall|i: int| 0 <= i < rest.len() implies crate::pager::readable_block(
                #[trigger] rest[i],
            ) by {
                assert(rest[i] == bs[i + 1]);
            }
            lemma_blocks_file_lines_ok(rest);
            let tail = crate::pager::blocks_file(rest);
            let all = crate::pager::blocks_file(bs);
            assert(all == b + seq![Seq::<char>::empty()] + tail);
            assert forall|i: int| 0 <= i < all.len() implies !crate::text::has_char(
                #[trigger] all[i],
                '\n',
            ) && crate::text::strip_cr(all[i]) == all[i] by {
                if i < b.len() {
                    assert(all[i] == b[i]);
                } else if i == b.len() {
                    assert(all[i] == Seq::<char>::empty());
                } else {
                    assert(all[i] == tail[i - b.len() - 1]);
                }
            }
        }
    }
}

/// A day file of entries is their lines, an empty line between two
/// entries, each line ended.
proof fn lemma_day_text_terminated(es: Seq<(Seq<char>, Seq<char>, Seq<char>)>)
    requires
        forall|i: int| 0 <= i < es.len() ==> entry_ok(#[trigger] es[i].0, es[i].1, es[i].2),
    ensures
        day_text(es) == crate::text::join_terminated(crate::pager::blocks_file(entries_lines(es))),
        forall|i: int| 0 <= i < es.len() ==> crate::pager::readable_block(
            #[trigger] entries_lines(es)[i],
        ),
    decreases es.len(),
{
    reveal_strlit("\n");
    let ls = entries_lines(es);
    assert forall|i: int| 0 <= i < es.len() implies crate::pager::readable_block(
        #[trigger] entries_lines(es)[i],
    ) by {
        lemma_entry_block(es[i].0, es[i].1, es[i].2);
    }
    if es.len() == 0 {
        assert(crate::pager::blocks_file(ls) =~= Seq::<Seq<char>>::empty());
    } else {
        let e = es[0];
        lemma_entry_block(e.0, e.1, e.2);
        let b = ls[0];
        assert(b == entry_lines(e.0, e.1, e.2));
        if es.len() == 1 {
            assert(crate::pager::blocks_file(ls) == b);
        } else {
            let rest = es.drop_first();
            assert forall|i: int| 0 <= i < rest.len() implies entry_ok(
                #[trigger] rest[i].0,
                rest[i].1,
                rest[i].2,
            ) by {
                assert(rest[i] == es[i + 1]);
            }
            lemma_day_text_terminated(rest);
            assert(entries_lines(rest) =~= ls.drop_first());
            let tail = crate::pager::blocks_file(entries_lines(rest));
            assert(crate::pager::blocks_file(ls) == b + seq![Seq::<char>::empty()] + tail);
            crate::text::lemma_join_terminated_concat(b + seq![Seq::<char>::empty()], tail);
            crate::text::lemma_join_terminated_concat(b, seq![Seq::<char>::empty()]);
            assert(crate::text::join_terminated(seq![Seq::<char>::empty()]) =~= seq!['\n']) by {
                let one = seq![Seq::<char>::empty()];
                assert(one.drop_last() =~= Seq::<Seq<char>>::empty());
                assert(crate::text::join_terminated(one.drop_last()) =~= Seq::<char>::empty());
                assert(one.last() == Seq::<char>::empty());
                assert(crate::text::join_terminated(one) == crate::text::join_terminated(
                    one.drop_last(),
                ) + one.last() + seq!['\n']);
            }
            assert(day_text(es) =~= crate::text::join_terminated(crate::pager::blocks_file(ls)));
        }
    }
}

/// A day file to which entries were written one after the other, an empty
/// line before each but the first, reads back chunk by chunk: one chunk
/// per entry, line for line, whose information line holds the entry's time,
/// whose question line is its question and whose answers are the lines of
/// its answer, the last without trailing whitespace.
pub proof fn lemma_day_reads_back(es: Seq<(Seq<char>, Seq<char>, Seq<char>)>)
    requires
        forall|i: int| 0 <= i < es.len() ==> entry_ok(#[trigger] es[i].0, es[i].1, es[i].2),
    ensures
        crate::pager::chunks_from(lines(day_text(es)), 0) == crate::pager::block_chunks(
            entries_lines(es),
        ),
        forall|i: int|
            0 <= i < es.len() ==> {
                let c = #[trigger] entry_chunk(es[i].0, es[i].1, es[i].2);
                &&& crate::pager::chunk_info(c) == es[i].0
                &&& crate::pager::chunk_question(c) == es[i].1
                &&& crate::pager::chunk_answers(c) == answer_texts(es[i].2)
            },
{
    lemma_day_text_terminated(es);
    lemma_blocks_file_lines_ok(entries_lines(es));
    let bf = crate::pager::blocks_file(entries_lines(es));
    if es.len() == 0 {
        assert(bf =~= Seq::<Seq<char>>::empty());
        assert(day_text(es) =~= Seq::<char>::empty());
        assert(lines(day_text(es)) =~= Seq::<Seq<char>>::empty()) by {
            assert(split_on(Seq::<char>::empty(), '\n') =~= seq![Seq::<char>::empty()]);
        }
        assert(crate::pager::block_chunks(entries_lines(es)) =~= Seq::<
            Result<Seq<char>, crate::pager::ChunkError>,
        >::empty());
    } else {
        assert(bf.len() >= 1) by {
            lemma_blocks_file_len(entries_lines(es));
        }
        crate::text::lemma_lines_of_terminated(bf);
        crate::pager::lemma_blocks_read_back(entries_lines(es));
    }
    assert forall|i: int| 0 <= i < es.len() implies {
        let c = #[trigger] entry_chunk(es[i].0, es[i].1, es[i].2);
        &&& crate::pager::chunk_info(c) == es[i].0
        &&& crate::pager::chunk_question(c) == es[i].1
        &&& crate::pager::chunk_answers(c) == answer_texts(es[i].2)
    } by {
        lemma_entry_reads_back(es[i].0, es[i].1, es[i].2);
    }
}

/// The pager finds no invalid chunk in a day file that the journal wrote:
/// for entries written one after the other, an empty line before each but
/// the first, the summary counts no invalid chunk.
pub proof fn lemma_written_day_has_no_invalid_chunk(es: Seq<(Seq<char>, Seq<char>, Seq<char>)>)
    requires
        forall|i: int| 0 <= i < es.len() ==> entry_ok(#[trigger] es[i].0, es[i].1, es[i].2),
    ensures
        crate::pager::summarize(crate::pager::chunks_from(lines(day_text(es)), 0)).invalid == 0,
{
    lemma_day_reads_back(es);
    let rs = crate::pager::block_chunks(entries_lines(es));
    assert forall|i: int| 0 <= i < rs.len() implies (#[trigger] rs[i]) is Ok by {}
    crate::pager::lemma_summarize_read_chunks(rs);
}

/// Blocks of at least one line each make at least one line.
proof fn lemma_blocks_file_len(bs: Seq<Seq<Seq<char>>>)
    requires
        bs.len() >= 1,
        forall|i: int| 0 <= i < bs.len() ==> crate::pager::readable_block(#[trigger] bs[i]),
    ensures
        crate::pager::blocks_file(bs).len() >= 1,
{
    assert(crate::pager::readable_block(bs[0]));
    if bs.len() > 1 {
        assert(crate::pager::blocks_file(bs).len() >= bs[0].len());
    }
}

// ---------------------------------------------------------------------------
// The questions file
// ---------------------------------------------------------------------------

/// The lines that are questions (carry a known tag), in order.
pub open spec fn tagged_lines(ps: Seq<Seq<char>>) -> Seq<Seq<char>>
    decreases ps.len(),
{
    if ps.len() == 0 {
        Seq::empty()
    } else if kind_of(ps.last()) != QuestionType::Empty {
        tagged_lines(ps.drop_last()).push(ps.last())
    } else {
        tagged_lines(ps.drop_last())
    }
}

/// The questions of a questions file: its lines between `'\n'` that carry a
/// tag.
pub open spec fn questions_of(text: Seq<char>) -> Seq<Seq<char>> {
    tagged_lines(split_on(text, '\n'))
}

/// The lines of questions.
pub open spec fn question_views(qs: Seq<Question>) -> Seq<Seq<char>> {
    qs.map_values(|q: Question| q@)
}

/// The questions of a questions file, in file order.
pub fn select_questions(questions_text: &str) -> (questions: Vec<Question>)
    ensures
        question_views(questions@) == questions_of(questions_text@),
{
    let cs = to_chars(questions_text);
    let pieces = split_chars(cs.as_slice(), '\n');
    let ghost ps = views(pieces@);
    let mut questions: Vec<Question> = Vec::new();
    for i in 0..pieces.len()
        invariant
            ps == views(pieces@),
            ps == split_on(questions_text@, '\n'),
            question_views(questions@) == tagged_lines(ps.take(i as int)),
    {
        proof {
            assert(ps.take(i + 1).drop_last() =~= ps.take(i as int));
            assert(ps[i as int] == pieces@[i as int]@);
        }
        let question = Question { question: from_chars(pieces[i].as_slice()) };
        if let Ok(true) = question.is_question() {
            let ghost before = question_views(questions@);
            let ghost qv = question@;
            questions.push(question);
            proof {
                assert(question_views(questions@) =~= before.push(qv));
            }
        }
    }
    proof {
        assert(ps.take(ps.len() as int) =~= ps);
    }
    questions
}

/// Puts the questions in a random order (`SliceRandom::shuffle` of the
/// `rand` crate with the thread's generator). What is stated: the same
/// questions, each as often, come back; the order is left open.
#[verifier::external_body]
fn shuffle_questions(questions: &mut Vec<Question>)
    ensures
        final(questions)@.to_multiset() == old(questions)@.to_multiset(),
{
    rand::seq::SliceRandom::shuffle(questions.as_mut_slice(), &mut rand::rng());
}

/// The questions of a questions file in a random order: the same
/// questions, each as often as in the file.
pub fn jumble_questions(questions_text: &str) -> (questions: Vec<Question>)
    ensures
        exists|selected: Seq<Question>|
            #![auto]
            question_views(selected) == questions_of(questions_text@)
                && questions@.to_multiset() == selected.to_multiset(),
{
    let mut questions = select_questions(questions_text);
    let ghost selected = questions@;
    shuffle_questions(&mut questions);
    proof {
        assert(question_views(selected) == questions_of(questions_text@)
            && questions@.to_multiset() == selected.to_multiset());
    }
    questions
}

/// Each question followed by a line end.
pub open spec fn question_list(qs: Seq<Seq<char>>) -> Seq<char>
    decreases qs.len(),
{
    if qs.len() == 0 {
        Seq::empty()
    } else {
        question_list(qs.drop_last()) + qs.last() + "\n"@
    }
}

/// The text of a questions file holding `questions`, one per line.
pub fn render_question_list(questions: &Vec<Question>) -> (r: String)
    ensures
        r@ == question_list(question_views(questions@)),
{
    let ghost qs = question_views(questions@);
    let mut out: Vec<char> = Vec::new();
    for i in 0..questions.len()
        invariant
            qs == question_views(questions@),
            out@ == question_list(qs.take(i as int)),
    {
        proof {
            assert(qs.take(i + 1).drop_last() =~= qs.take(i as int));
        }
        let line = questions[i].to_string();
        extend_str(&mut out, line.as_str());
        extend_str(&mut out, "\n");
    }
    proof {
        assert(qs.take(qs.len() as int) =~= qs);
    }
    from_chars(out.as_slice())
}

/// The lines joined by `'\n'`, leading empty lines dropped (what folding
/// with "a line end before each line once the text is not empty" gives).
pub open spec fn join_after_first_text(ls: Seq<Seq<char>>) -> Seq<char>
    decreases ls.len(),
{
    if ls.len() == 0 {
        Seq::empty()
    } else {
        let acc = join_after_first_text(ls.drop_last());
        if acc.len() == 0 {
            ls.last()
        } else {
            acc + "\n"@ + ls.last()
        }
    }
}

/// What stays in the shuffled questions file after its last question is
/// taken: the other lines.
pub open spec fn remaining_questions(all: Seq<char>) -> Seq<char> {
    if lines(all).len() == 0 {
        Seq::empty()
    } else {
        join_after_first_text(lines(all).drop_last())
    }
}

/// Lines that are not empty, joined as `join_after_first_text` joins
/// them, are joined by `'\n'`.
proof fn lemma_join_after_first_text_nonempty(ls: Seq<Seq<char>>)
    requires
        forall|i: int| 0 <= i < ls.len() ==> (#[trigger] ls[i]).len() > 0,
    ensures
        join_after_first_text(ls) == crate::text::join_with(ls, seq!['\n']),
        ls.len() > 0 ==> join_after_first_text(ls).len() > 0,
    decreases ls.len(),
{
    reveal_strlit("\n");
    if ls.len() > 0 {
        let init = ls.drop_last();
        assert forall|i: int| 0 <= i < init.len() implies (#[trigger] init[i]).len() > 0 by {
            assert(init[i] == ls[i]);
        }
        lemma_join_after_first_text_nonempty(init);
        assert(ls[ls.len() - 1].len() > 0);
        if ls.len() == 1 {
            assert(join_after_first_text(init) =~= Seq::<char>::empty());
        }
    }
}

/// No line of a text holds a line end.
proof fn lemma_lines_have_no_line_end(s: Seq<char>)
    ensures
        forall|i: int| 0 <= i < lines(s).len() ==> !crate::text::has_char(#[trigger] lines(s)[i], '\n'),
{
    let p = split_on(s, '\n');
    crate::text::lemma_split_on_pieces(s, '\n');
    crate::text::lemma_split_on_nonempty(s, '\n');
    assert forall|i: int| 0 <= i < lines(s).len() implies !crate::text::has_char(
        #[trigger] lines(s)[i],
        '\n',
    ) by {
        let l = lines(s)[i];
        if i < p.len() - 1 {
            assert(l == crate::text::strip_cr(p[i]));
        } else {
            assert(l == p.last());
        }
        if crate::text::has_char(l, '\n') {
            let k = choose|k: int| 0 <= k < l.len() && l[k] == '\n';
            if i < p.len() - 1 {
                assert(p[i][k] == l[k]);
            } else {
                assert(p[p.len() - 1][k] == l[k]);
            }
        }
    }
}

/// Taking the last question leaves the other questions, in order, to be
/// taken next: when no line of the shuffled questions file is empty or
/// ends with `'\r'`, the lines of what is written back are the lines that
/// came before the question taken.
pub proof fn lemma_take_leaves_the_rest(all: Seq<char>)
    requires
        forall|i: int| 0 <= i < lines(all).len() ==> (#[trigger] lines(all)[i]).len() > 0,
        forall|i: int| 0 <= i < lines(all).len() ==> crate::text::strip_cr(#[trigger] lines(all)[i])
            == lines(all)[i],
    ensures
        lines(remaining_questions(all)) == if lines(all).len() == 0 {
            lines(all)
        } else {
            lines(all).drop_last()
        },
{
    let ls = lines(all);
    if ls.len() == 0 {
        assert(remaining_questions(all) =~= Seq::<char>::empty());
        assert(split_on(Seq::<char>::empty(), '\n') =~= seq![Seq::<char>::empty()]);
        assert(lines(Seq::<char>::empty()) =~= Seq::<Seq<char>>::empty());
    } else {
        let rest = ls.drop_last();
        assert forall|i: int| 0 <= i < rest.len() implies (#[trigger] rest[i]).len() > 0 by {
            assert(rest[i] == ls[i]);
        }
        lemma_join_after_first_text_nonempty(rest);
        if rest.len() == 0 {
            assert(remaining_questions(all) =~= Seq::<char>::empty());
            assert(split_on(Seq::<char>::empty(), '\n') =~= seq![Seq::<char>::empty()]);
            assert(lines(Seq::<char>::empty()) =~= Seq::<Seq<char>>::empty());
            assert(rest =~= Seq::<Seq<char>>::empty());
        } else {
            lemma_lines_have_no_line_end(all);
            assert forall|i: int| 0 <= i < rest.len() implies !crate::text::has_char(#[trigger] rest[i], '\n') by {
                assert(rest[i] == ls[i]);
            }
            assert forall|i: int| 0 <= i < rest.len() implies crate::text::strip_cr(#[trigger] rest[i]) == rest[i] by {
                assert(rest[i] == ls[i]);
            }
            crate::text::lemma_lines_of_terminated(rest);
            assert(rest.last() == rest[rest.len() - 1]);
        }
    }
}

/// A questions list is its questions, each ended by `'\n'`.
proof fn lemma_question_list_terminated(qs: Seq<Seq<char>>)
    ensures
        question_list(qs) == crate::text::join_terminated(qs),
    decreases qs.len(),
{
    reveal_strlit("\n");
    if qs.len() > 0 {
        lemma_question_list_terminated(qs.drop_last());
    }
}

/// The shuffled questions file gives its questions back one at a time:
/// when no question holds a line end or ends with `'\r'`, the lines of
/// the file written from the questions are the questions, and taking the
/// last question leaves the lines of the others.
pub proof fn lemma_questions_taken_in_turn(qs: Seq<Seq<char>>)
    requires
        forall|i: int| 0 <= i < qs.len() ==> kind_of(#[trigger] qs[i]) != QuestionType::Empty,
        forall|i: int| 0 <= i < qs.len() ==> !crate::text::has_char(#[trigger] qs[i], '\n'),
        forall|i: int| 0 <= i < qs.len() ==> crate::text::strip_cr(#[trigger] qs[i]) == qs[i],
    ensures
        lines(question_list(qs)) == qs,
        qs.len() > 0 ==> lines(remaining_questions(question_list(qs))) == qs.drop_last(),
{
    lemma_question_list_terminated(qs);
    if qs.len() == 0 {
        assert(question_list(qs) =~= Seq::<char>::empty());
        assert(split_on(Seq::<char>::empty(), '\n') =~= seq![Seq::<char>::empty()]);
        assert(lines(Seq::<char>::empty()) =~= Seq::<Seq<char>>::empty());
    } else {
        crate::text::lemma_lines_of_terminated(qs);
        let all = question_list(qs);
        assert forall|i: int| 0 <= i < lines(all).len() implies (#[trigger] lines(all)[i]).len() > 0 by {
            assert(kind_of(qs[i]) != QuestionType::Empty);
        }
        lemma_take_leaves_the_rest(all);
    }
}

/// The questions that `k` successive takes from the shuffled questions file
/// `file` give, in order (`None` for a take from a file with no line).
pub open spec fn questions_taken(file: Seq<char>, k: nat) -> Seq<Option<Seq<char>>>
    decreases k,
{
    if k == 0 {
        Seq::empty()
    } else {
        let first = if lines(file).len() == 0 {
            None
        } else {
            Some(lines(file).last())
        };
        seq![first] + questions_taken(remaining_questions(file), (k - 1) as nat)
    }
}

/// The shuffled questions file after `k` successive takes.
pub open spec fn after_takes(file: Seq<char>, k: nat) -> Seq<char>
    decreases k,
{
    if k == 0 {
        file
    } else {
        after_takes(remaining_questions(file), (k - 1) as nat)
    }
}

/// Taking as many times as a file has lines gives its lines from the last
/// to the first and leaves the file empty, when no line is empty or ends
/// with `'\r'`.
proof fn lemma_takes(file: Seq<char>)
    requires
        forall|i: int| 0 <= i < lines(file).len() ==> (#[trigger] lines(file)[i]).len() > 0,
        forall|i: int| 0 <= i < lines(file).len() ==> crate::text::strip_cr(#[trigger] lines(file)[i])
            == lines(file)[i],
    ensures
        questions_taken(file, lines(file).len()) == Seq::new(
            lines(file).len(),
            |i: int| Some(lines(file)[lines(file).len() - 1 - i]),
        ),
        lines(file).len() > 0 ==> after_takes(file, lines(file).len()) == Seq::<char>::empty(),
    decreases lines(file).len(),
{
    let ls = lines(file);
    let n = ls.len();
    if n == 0 {
        assert(questions_taken(file, 0) =~= Seq::new(0, |i: int| Some(ls[n - 1 - i])));
    } else {
        lemma_take_leaves_the_rest(file);
        let rest = remaining_questions(file);
        let rl = lines(rest);
        assert(rl == ls.drop_last());
        assert forall|i: int| 0 <= i < rl.len() implies (#[trigger] rl[i]).len() > 0 by {
            assert(rl[i] == ls[i]);
        }
        assert forall|i: int| 0 <= i < rl.len() implies crate::text::strip_cr(#[trigger] rl[i])
            == rl[i] by {
            assert(rl[i] == ls[i]);
        }
        lemma_takes(rest);
        assert(after_takes(file, n) == after_takes(rest, (n - 1) as nat));
        if n == 1 {
            assert(ls.drop_last() =~= Seq::<Seq<char>>::empty());
            assert(rest =~= Seq::<char>::empty());
            assert(after_takes(rest, 0) == rest);
        }
        assert(questions_taken(file, n) =~= Seq::new(n, |i: int| Some(ls[n - 1 - i])));
    }
}

/// The lines of a questions file that are questions have a tag and no line
/// end.
proof fn lemma_tagged_lines(ps: Seq<Seq<char>>)
    requires
        forall|j: int| 0 <= j < ps.len() ==> !crate::text::has_char(#[trigger] ps[j], '\n'),
    ensures
        forall|i: int|
            0 <= i < tagged_lines(ps).len() ==> kind_of(#[trigger] tagged_lines(ps)[i])
                != QuestionType::Empty && !crate::text::has_char(tagged_lines(ps)[i], '\n'),
    decreases ps.len(),
{
    if ps.len() > 0 {
        let init = ps.drop_last();
        assert forall|j: int| 0 <= j < init.len() implies !crate::text::has_char(
            #[trigger] init[j],
            '\n',
        ) by {
            assert(init[j] == ps[j]);
        }
        lemma_tagged_lines(init);
        assert(!crate::text::has_char(ps[ps.len() - 1], '\n'));
    }
}

/// Each question is asked once per round: the shuffled questions file
/// written from the questions of a questions file in any order (as
/// `jumble_questions` gives them, and `render_question_list` writes them)
/// gives, take after take (`take_last_question`, writing back what it
/// leaves), every question once, the last of the shuffled order first,
/// and is empty after the last take, so that the next take starts a new
/// round. This holds when no question of the questions file ends with
/// `'\r'`.
pub proof fn lemma_each_question_once_per_round(text: Seq<char>, shuffled: Seq<Question>)
    requires
        exists|selected: Seq<Question>|
            #![auto]
            question_views(selected) == questions_of(text) && shuffled.to_multiset()
                == selected.to_multiset(),
        forall|i: int|
            0 <= i < questions_of(text).len() ==> crate::text::strip_cr(
                #[trigger] questions_of(text)[i],
            ) == questions_of(text)[i],
    ensures
        questions_taken(question_list(question_views(shuffled)), shuffled.len()) == Seq::new(
            shuffled.len(),
            |i: int| Some(shuffled[shuffled.len() - 1 - i]@),
        ),
        shuffled.len() > 0 ==> after_takes(question_list(question_views(shuffled)), shuffled.len())
            == Seq::<char>::empty(),
{
    broadcast use vstd::seq_lib::group_to_multiset_ensures;

    let selected = choose|selected: Seq<Question>|
        #![auto]
        question_views(selected) == questions_of(text) && shuffled.to_multiset()
            == selected.to_multiset();
    let qs = question_views(shuffled);
    let ps = split_on(text, '\n');
    crate::text::lemma_split_on_pieces(text, '\n');
    assert forall|j: int| 0 <= j < ps.len() implies !crate::text::has_char(#[trigger] ps[j], '\n') by {
        if crate::text::has_char(ps[j], '\n') {
            let k = choose|k: int| 0 <= k < ps[j].len() && ps[j][k] == '\n';
        }
    }
    lemma_tagged_lines(ps);
    assert forall|i: int| 0 <= i < qs.len() implies {
        &&& kind_of(#[trigger] qs[i]) != QuestionType::Empty
        &&& !crate::text::has_char(qs[i], '\n')
        &&& crate::text::strip_cr(qs[i]) == qs[i]
    } by {
        let x = shuffled[i];
        assert(shuffled.contains(x));
        assert(selected.to_multiset().count(x) > 0);
        assert(selected.contains(x));
        let j = choose|j: int| 0 <= j < selected.len() && selected[j] == x;
        assert(question_views(selected)[j] == x@);
        assert(questions_of(text)[j] == x@);
    }
    lemma_questions_taken_in_turn(qs);
    let file = question_list(qs);
    assert(lines(file) == qs);
    assert forall|i: int| 0 <= i < lines(file).len() implies (#[trigger] lines(file)[i]).len() > 0 by {
        assert(kind_of(qs[i]) != QuestionType::Empty);
    }
    lemma_takes(file);
    assert(Seq::new(qs.len(), |i: int| Some(qs[qs.len() - 1 - i])) =~= Seq::new(
        shuffled.len(),
        |i: int| Some(shuffled[shuffled.len() - 1 - i]@),
    ));
}

/// Takes the last question of the shuffled questions file: the text to
/// write back, and the question (none when the file has no line).
pub fn take_last_question(all_questions: &str) -> (r: (String, Option<Question>))
    ensures
        r.0@ == remaining_questions(all_questions@),
        r.1 is None <==> lines(all_questions@).len() == 0,
        r.1 matches Some(q) ==> q@ == lines(all_questions@).last(),
{
    let cs = to_chars(all_questions);
    let all_lines = lines_chars(cs.as_slice());
    let ghost ls = views(all_lines@);
    let number_of_questions = all_lines.len();
    if number_of_questions == 0 {
        return (String::new(), None);
    }
    let mut acc: Vec<char> = Vec::new();
    for i in 0..number_of_questions - 1
        invariant
            ls == views(all_lines@),
            ls == lines(all_questions@),
            number_of_questions == ls.len() >= 1,
            acc@ == join_after_first_text(ls.take(i as int)),
    {
        proof {
            assert(ls.take(i + 1).drop_last() =~= ls.take(i as int));
            assert(ls[i as int] == all_lines@[i as int]@);
        }
        if acc.len() != 0 {
            extend_str(&mut acc, "\n");
        }
        extend_chars(&mut acc, all_lines[i].as_slice());
        proof {
            assert(acc@ =~= join_after_first_text(ls.take(i + 1)));
        }
    }
    proof {
        assert(ls.take(number_of_questions - 1) =~= ls.drop_last());
    }
    let last = Question { question: from_chars(all_lines[number_of_questions - 1].as_slice()) };
    (from_chars(acc.as_slice()), Some(last))
}

// ---------------------------------------------------------------------------
// The name of the shuffled questions file
// ---------------------------------------------------------------------------

/// What `xxh3_128` of the `xxhash-rust` crate returns for `input`.
pub uninterp spec fn xxh3_128_of(input: Seq<u8>) -> u128;

/// The 128-bit XXH3 hash of `input` (`xxhash_rust::xxh3::xxh3_128`).
#[verifier::external_body]
fn xxh3_128(input: &[u8]) -> (h: u128)
    ensures
        h == xxh3_128_of(input@),
{
    xxhash_rust::xxh3::xxh3_128(input)
}

/// The lower-case hex digit of `d`.
pub open spec fn hex_char(d: nat) -> char {
    if d < 10 {
        crate::text::digit_char(d)
    } else if d == 10 {
        'a'
    } else if d == 11 {
        'b'
    } else if d == 12 {
        'c'
    } else if d == 13 {
        'd'
    } else if d == 14 {
        'e'
    } else {
        'f'
    }
}

/// The last `count` hex digits of `v`, most significant first
/// (`format!("{:0count$x}", v)` for `v < 16^count`).
pub open spec fn hex_digits(v: nat, count: nat) -> Seq<char>
    decreases count,
{
    if count == 0 {
        Seq::empty()
    } else {
        hex_digits(v / 16, (count - 1) as nat) + seq![hex_char(v % 16)]
    }
}

/// `hex_digits` has `count` digits.
pub proof fn lemma_hex_digits_len(v: nat, count: nat)
    ensures
        hex_digits(v, count).len() == count,
    decreases count,
{
    if count > 0 {
        lemma_hex_digits_len(v / 16, (count - 1) as nat);
    }
}

fn hex_char_exec(d: u128) -> (c: char)
    requires
        d < 16,
    ensures
        c == hex_char(d as nat),
{
    if d < 10 {
        crate::text::digit(d as usize)
    } else if d == 10 {
        'a'
    } else if d == 11 {
        'b'
    } else if d == 12 {
        'c'
    } else if d == 13 {
        'd'
    } else if d == 14 {
        'e'
    } else {
        'f'
    }
}

fn push_hex(out: &mut Vec<char>, v: u128, count: usize)
    ensures
        final(out)@ == old(out)@ + hex_digits(v as nat, count as nat),
    decreases count,
{
    if count > 0 {
        push_hex(out, v / 16, count - 1);
        out.push(hex_char_exec(v % 16));
        proof {
            assert(final(out)@ =~= old(out)@ + hex_digits(v as nat, count as nat));
        }
    } else {
        proof {
            assert(out@ =~= old(out)@ + hex_digits(v as nat, count as nat));
        }
    }
}

/// The name of the shuffled questions file of a day: `/tmp/jrl-`, the
/// first 15 of the 32 hex digits of the XXH3-128 hash of the day file's
/// name, `-`, and the day file's name.
pub open spec fn jumbled_file_name(day_file_name: Seq<char>) -> Seq<char> {
    "/tmp/jrl-"@ + hex_digits(xxh3_128_of(vstd::utf8::encode_utf8(day_file_name)) as nat, 32).take(
        15,
    ) + "-"@ + day_file_name
}

/// The path of the shuffled questions file of the day whose file is named
/// `day_file_name`.
pub fn jumbled_questions_file_name(day_file_name: &str) -> (r: String)
    ensures
        r@ == jumbled_file_name(day_file_name@),
{
    let hash = xxh3_128(day_file_name.as_bytes());
    let mut digits: Vec<char> = Vec::new();
    push_hex(&mut digits, hash, 32);
    proof {
        assert(digits@ =~= hex_digits(hash as nat, 32));
        lemma_hex_digits_len(hash as nat, 32);
    }
    let hashed = copy_range(digits.as_slice(), 0, 15);
    let mut out: Vec<char> = Vec::new();
    extend_str(&mut out, "/tmp/jrl-");
    extend_chars(&mut out, hashed.as_slice());
    extend_str(&mut out, "-");
    extend_str(&mut out, day_file_name);
    proof {
        assert(hashed@ =~= hex_digits(hash as nat, 32).take(15));
    }
    from_chars(out.as_slice())
}

/// The path of today's shuffled questions file: always one, for the name
/// of the day file of today's local date.
pub fn generate_jumbled_questions_file_name() -> (r: Option<String>)
    ensures
        r is Some,
        r matches Some(p) ==> exists|y: int, m: int, d: int|
            #![trigger crate::utility::day_file_name_text(y, m, d)]
            crate::utility::valid_date(y, m, d) && p@ == jumbled_file_name(
                crate::utility::day_file_name_text(y, m, d),
            ),
{
    match crate::utility::get_day_file_name(0) {
        Some(day) => Some(jumbled_questions_file_name(day.as_str())),
        None => None,
    }
}

} // verus!
