//! What the analytics read from a day file: the words of its answers, its
//! ratings and its description; and the most common word of each length.

use crate::pager::{
    bracketed, byte_len, chunk_answers, chunk_info, chunk_question, chunks_from,
    get_next_chunk, group_entries, group_insert_chars, group_views, lemma_next_chunk_advances,
    ChunkError, Groups, LineCursor,
};
use crate::question::{prompt_of, ChunkParser, Informative, PromptQuestionType, Question};
use crate::text::{extend_chars, extend_str, from_chars, lines, to_chars, views};
use vstd::prelude::*;

verus! {

broadcast use vstd::string::group_string_axioms;

/// Whether `char::is_alphanumeric` holds of `c`.
pub uninterp spec fn is_alphanumeric_of(c: char) -> bool;

/// What `str::to_lowercase` returns for `s`.
pub uninterp spec fn lowercase_of(s: Seq<char>) -> Seq<char>;

/// An ASCII letter or digit.
pub open spec fn is_ascii_alphanumeric(c: char) -> bool {
    ('a' <= c && c <= 'z') || ('A' <= c && c <= 'Z') || ('0' <= c && c <= '9')
}

/// `s` with its ASCII capitals made small.
pub open spec fn ascii_lowercase(s: Seq<char>) -> Seq<char> {
    s.map_values(
        |c: char|
            if 'A' <= c && c <= 'Z' {
                ((c as u32) + 32) as char
            } else {
                c
            },
    )
}

/// Whether `c` is alphabetic or numeric (`char::is_alphanumeric`). Stated:
/// the result is `is_alphanumeric_of(c)`, and for an ASCII character it is
/// whether `c` is a letter or a digit. The Unicode tables beyond ASCII are
/// left unstated.
#[verifier::external_body]
fn is_alphanumeric(c: char) -> (b: bool)
    ensures
        b == is_alphanumeric_of(c),
        (c as u32) < 0x80 ==> b == is_ascii_alphanumeric(c),
{
    c.is_alphanumeric()
}

/// `s` in lower case (`str::to_lowercase`). Stated: the result is
/// `lowercase_of(s)`, and for an ASCII text it is the text with its
/// capitals made small. The Unicode case tables beyond ASCII are left
/// unstated.
#[verifier::external_body]
fn to_lowercase(s: &str) -> (r: String)
    ensures
        r@ == lowercase_of(s@),
        (forall|i: int| 0 <= i < s@.len() ==> (s@[i] as u32) < 0x80) ==> r@ == ascii_lowercase(s@),
{
    s.to_lowercase()
}

// ---------------------------------------------------------------------------
// Words
// ---------------------------------------------------------------------------

/// The pieces of `s` between characters that are not alphanumeric.
pub open spec fn split_alphanumeric(s: Seq<char>) -> Seq<Seq<char>>
    decreases s.len(),
{
    if s.len() == 0 {
        seq![Seq::empty()]
    } else {
        let init = split_alphanumeric(s.drop_last());
        if !is_alphanumeric_of(s.last()) {
            init.push(Seq::empty())
        } else {
            init.update(init.len() - 1, init.last().push(s.last()))
        }
    }
}

/// The non-empty pieces, each in lower case.
pub open spec fn lowercase_nonempty(ps: Seq<Seq<char>>) -> Seq<Seq<char>>
    decreases ps.len(),
{
    if ps.len() == 0 {
        Seq::empty()
    } else if ps.last().len() > 0 {
        lowercase_nonempty(ps.drop_last()).push(lowercase_of(ps.last()))
    } else {
        lowercase_nonempty(ps.drop_last())
    }
}

/// The words of a line, in lower case.
pub open spec fn words_of_line(l: Seq<char>) -> Seq<Seq<char>> {
    lowercase_nonempty(split_alphanumeric(l))
}

/// The words of lines, one line after the other.
pub open spec fn words_of_lines(ls: Seq<Seq<char>>) -> Seq<Seq<char>>
    decreases ls.len(),
{
    if ls.len() == 0 {
        Seq::empty()
    } else {
        words_of_lines(ls.drop_last()) + words_of_line(ls.last())
    }
}

// ---------------------------------------------------------------------------
// What a day file holds for the analytics
// ---------------------------------------------------------------------------

/// The words of all answer lines (tag included), the texts of the first
/// answers of the ratings, and the description.
pub struct EntryFacts {
    pub words: Vec<String>,
    pub ratings: Vec<String>,
    pub description: String,
}

/// The facts gathered from chunk results.
pub struct EntryFactsSpec {
    pub words: Seq<Seq<char>>,
    pub ratings: Seq<Seq<char>>,
    pub description: Seq<char>,
}

/// The description lines of a chunk: the first after its information,
/// each on a new line indented by four spaces.
pub open spec fn description_text(info: Seq<char>, ts: Seq<Seq<char>>) -> Seq<char>
    decreases ts.len(),
{
    if ts.len() == 0 {
        Seq::empty()
    } else if ts.len() == 1 {
        "\n    "@ + bracketed(info, ts[0])
    } else {
        description_text(info, ts.drop_last()) + "\n    "@ + ts.last()
    }
}

/// The facts after one more chunk result.
pub open spec fn add_entry_chunk(f: EntryFactsSpec, r: Result<Seq<char>, ChunkError>) -> EntryFactsSpec {
    match r {
        Ok(c) => {
            let q = chunk_question(c);
            let p = prompt_of(q);
            EntryFactsSpec {
                words: f.words + words_of_lines(lines(c).skip(2)),
                ratings: if p == PromptQuestionType::Rating {
                    f.ratings.push(chunk_answers(c)[0])
                } else {
                    f.ratings
                },
                description: if p == PromptQuestionType::Description {
                    f.description + description_text(chunk_info(c), chunk_answers(c))
                } else {
                    f.description
                },
            }
        },
        Err(_) => f,
    }
}

/// The facts of a sequence of chunk results.
pub open spec fn entry_facts(rs: Seq<Result<Seq<char>, ChunkError>>) -> EntryFactsSpec
    decreases rs.len(),
{
    if rs.len() == 0 {
        EntryFactsSpec { words: Seq::empty(), ratings: Seq::empty(), description: Seq::empty() }
    } else {
        add_entry_chunk(entry_facts(rs.drop_last()), rs.last())
    }
}

/// The facts of a day file with content `content`.
pub open spec fn entry_facts_of(content: Seq<char>) -> EntryFactsSpec {
    entry_facts(chunks_from(lines(content), 0))
}

/// The facts of no chunk.
pub open spec fn no_facts() -> EntryFactsSpec {
    EntryFactsSpec { words: Seq::empty(), ratings: Seq::empty(), description: Seq::empty() }
}

/// Reading one more chunk keeps what was gathered and adds to it: the
/// words of the chunk's answer lines; for a rating, the text of its first
/// answer (every rating counts, so the last one read is the day's rating);
/// for a description, its text after the descriptions read before. Any
/// other chunk, and a chunk that could not be read, adds no rating and no
/// description; a chunk that could not be read adds no word either.
pub proof fn lemma_entry_facts_step(rs: Seq<Result<Seq<char>, ChunkError>>, r: Result<Seq<char>, ChunkError>)
    ensures
        entry_facts(rs.push(r)).words == entry_facts(rs).words + match r {
            Ok(c) => words_of_lines(lines(c).skip(2)),
            Err(_) => Seq::empty(),
        },
        entry_facts(rs.push(r)).ratings == match r {
            Ok(c) => if prompt_of(crate::pager::chunk_question(c)) == PromptQuestionType::Rating {
                entry_facts(rs).ratings.push(chunk_answers(c)[0])
            } else {
                entry_facts(rs).ratings
            },
            Err(_) => entry_facts(rs).ratings,
        },
        entry_facts(rs.push(r)).description == match r {
            Ok(c) => if prompt_of(crate::pager::chunk_question(c)) == PromptQuestionType::Description {
                entry_facts(rs).description + description_text(chunk_info(c), chunk_answers(c))
            } else {
                entry_facts(rs).description
            },
            Err(_) => entry_facts(rs).description,
        },
{
    assert(rs.push(r).drop_last() =~= rs);
    assert(rs.push(r).last() == r);
    if r is Err {
        assert(entry_facts(rs).words + Seq::<Seq<char>>::empty() =~= entry_facts(rs).words);
    }
}

/// Nothing gathered is lost: the facts of chunk results are the start of
/// the facts of those results followed by more.
pub proof fn lemma_entry_facts_grow(
    rs: Seq<Result<Seq<char>, ChunkError>>,
    more: Seq<Result<Seq<char>, ChunkError>>,
)
    ensures
        entry_facts(rs).words.is_prefix_of(entry_facts(rs + more).words),
        entry_facts(rs).ratings.is_prefix_of(entry_facts(rs + more).ratings),
        entry_facts(rs).description.is_prefix_of(entry_facts(rs + more).description),
    decreases more.len(),
{
    if more.len() == 0 {
        assert(rs + more =~= rs);
        assert(entry_facts(rs).words.is_prefix_of(entry_facts(rs).words));
    } else {
        let init = more.drop_last();
        lemma_entry_facts_grow(rs, init);
        assert(rs + more =~= (rs + init).push(more.last()));
        lemma_entry_facts_step(rs + init, more.last());
        let a = entry_facts(rs);
        let b = entry_facts(rs + init);
        let c = entry_facts(rs + more);
        assert(a.words.is_prefix_of(c.words)) by {
            assert forall|i: int| 0 <= i < a.words.len() implies a.words[i] == c.words[i] by {
                assert(a.words[i] == b.words[i]);
            }
        }
        assert(a.ratings.is_prefix_of(c.ratings)) by {
            assert forall|i: int| 0 <= i < a.ratings.len() implies a.ratings[i] == c.ratings[i] by {
                assert(a.ratings[i] == b.ratings[i]);
            }
        }
        assert(a.description.is_prefix_of(c.description)) by {
            assert forall|i: int| 0 <= i < a.description.len() implies a.description[i]
                == c.description[i] by {
                assert(a.description[i] == b.description[i]);
            }
        }
    }
}

/// Whether a chunk result is a rating.
pub open spec fn is_rating(r: Result<Seq<char>, ChunkError>) -> bool {
    r matches Ok(c) && prompt_of(crate::pager::chunk_question(c)) == PromptQuestionType::Rating
}

/// The test for rating chunks.
pub open spec fn rating_test() -> spec_fn(Result<Seq<char>, ChunkError>) -> bool {
    |r: Result<Seq<char>, ChunkError>| is_rating(r)
}

/// Every rating chunk gives one rating: there are as many ratings as
/// rating chunks were read.
pub proof fn lemma_one_rating_per_rating_chunk(rs: Seq<Result<Seq<char>, ChunkError>>)
    ensures
        entry_facts(rs).ratings.len() == rs.filter(rating_test()).len(),
    decreases rs.len(),
{
    reveal(Seq::filter);
    if rs.len() > 0 {
        let init = rs.drop_last();
        lemma_one_rating_per_rating_chunk(init);
        assert(rs =~= init.push(rs.last()));
        lemma_entry_facts_step(init, rs.last());
        assert(rating_test()(rs.last()) == is_rating(rs.last()));
        assert(rs.filter(rating_test()) == if is_rating(rs.last()) {
            init.filter(rating_test()).push(rs.last())
        } else {
            init.filter(rating_test())
        });
    }
}

/// A day file of two blocks that read back as chunks, separated by an
/// empty line, gives the facts of the first block followed by those of the
/// second: all the words, all the ratings and all the descriptions, in
/// file order.
pub proof fn lemma_two_blocks_facts(a: Seq<Seq<char>>, b: Seq<Seq<char>>)
    requires
        crate::pager::readable_block(a),
        crate::pager::readable_block(b),
    ensures
        entry_facts_of(crate::text::join_with(crate::pager::blocks_file(seq![a, b]), seq!['\n'])).words
            == entry_facts_of(crate::text::join_with(a, seq!['\n'])).words + entry_facts_of(
            crate::text::join_with(b, seq!['\n']),
        ).words,
        entry_facts_of(crate::text::join_with(crate::pager::blocks_file(seq![a, b]), seq!['\n'])).ratings
            == entry_facts_of(crate::text::join_with(a, seq!['\n'])).ratings + entry_facts_of(
            crate::text::join_with(b, seq!['\n']),
        ).ratings,
        entry_facts_of(
            crate::text::join_with(crate::pager::blocks_file(seq![a, b]), seq!['\n']),
        ).description == entry_facts_of(crate::text::join_with(a, seq!['\n'])).description
            + entry_facts_of(crate::text::join_with(b, seq!['\n'])).description,
{
    crate::pager::lemma_two_blocks_read_back(a, b);
    crate::pager::lemma_one_block_reads_back(a);
    crate::pager::lemma_one_block_reads_back(b);
    let ra = Ok::<Seq<char>, ChunkError>(crate::text::join_with(crate::pager::trimmed_block(a), seq!['\n']));
    let rb = Ok::<Seq<char>, ChunkError>(crate::text::join_with(crate::pager::trimmed_block(b), seq!['\n']));
    let e = Seq::<Result<Seq<char>, ChunkError>>::empty();
    assert(entry_facts(e) == no_facts());
    assert(seq![ra] =~= e.push(ra));
    assert(seq![rb] =~= e.push(rb));
    assert(seq![ra, rb] =~= seq![ra].push(rb));
    lemma_entry_facts_step(e, ra);
    lemma_entry_facts_step(e, rb);
    lemma_entry_facts_step(seq![ra], rb);
    let fa = entry_facts(seq![ra]);
    let fb = entry_facts(seq![rb]);
    let f = entry_facts(seq![ra, rb]);
    assert(f.words =~= fa.words + fb.words);
    assert(f.ratings =~= fa.ratings + fb.ratings);
    assert(f.description =~= fa.description + fb.description);
}

/// The texts of strings.
pub open spec fn string_views(v: Seq<String>) -> Seq<Seq<char>> {
    v.map_values(|s: String| s@)
}

/// Appends the lower-case words of `line` to `words`.
fn push_words(words: &mut Vec<String>, line: &str)
    ensures
        string_views(final(words)@) == string_views(old(words)@) + words_of_line(line@),
{
    let cs = to_chars(line);
    let ghost w0 = string_views(words@);
    let mut cur: Vec<char> = Vec::new();
    let mut i: usize = 0;
    let ghost s = cs@;
    while i < cs.len()
        invariant
            s == cs@,
            s == line@,
            0 <= i <= s.len(),
            split_alphanumeric(s.take(i as int)).len() >= 1,
            cur@ == split_alphanumeric(s.take(i as int)).last(),
            string_views(words@) == w0 + lowercase_nonempty(
                split_alphanumeric(s.take(i as int)).drop_last(),
            ),
        decreases cs.len() - i,
    {
        proof {
            assert(s.take(i + 1).drop_last() =~= s.take(i as int));
        }
        let ghost ps = split_alphanumeric(s.take(i as int));
        if !is_alphanumeric(cs[i]) {
            if cur.len() > 0 {
                let piece = from_chars(cur.as_slice());
                let lower = to_lowercase(piece.as_str());
                let ghost before = string_views(words@);
                let ghost lv = lower@;
                words.push(lower);
                proof {
                    assert(string_views(words@) =~= before.push(lv));
                }
            }
            cur = Vec::new();
            proof {
                let ps2 = split_alphanumeric(s.take(i + 1));
                assert(ps2 == ps.push(Seq::empty()));
                assert(ps2.drop_last() =~= ps);
            }
        } else {
            cur.push(cs[i]);
            proof {
                let ps2 = split_alphanumeric(s.take(i + 1));
                assert(ps2.drop_last() =~= ps.drop_last());
            }
        }
        i += 1;
    }
    proof {
        assert(s.take(s.len() as int) =~= s);
    }
    if cur.len() > 0 {
        let piece = from_chars(cur.as_slice());
        let lower = to_lowercase(piece.as_str());
        let ghost before = string_views(words@);
        let ghost lv = lower@;
        words.push(lower);
        proof {
            assert(string_views(words@) =~= before.push(lv));
        }
    }
}

/// What the analytics read from a day file: the lower-case words of every
/// answer line, the text of the first answer of each rating, and the
/// description lines.
pub fn read_entry(content: &str) -> (facts: EntryFacts)
    ensures
        string_views(facts.words@) == entry_facts_of(content@).words,
        string_views(facts.ratings@) == entry_facts_of(content@).ratings,
        facts.description@ == entry_facts_of(content@).description,
{
    let mut words: Vec<String> = Vec::new();
    let mut ratings: Vec<String> = Vec::new();
    let mut description: Vec<char> = Vec::new();
    let mut lines = LineCursor::new(content);
    let ghost ls = lines.line_views();
    let ghost all = chunks_from(ls, 0);
    let ghost mut done: Seq<Result<Seq<char>, ChunkError>> = Seq::empty();
    proof {
        assert(all =~= done + chunks_from(ls, 0));
        assert(string_views(words@) =~= Seq::<Seq<char>>::empty());
        assert(string_views(ratings@) =~= Seq::<Seq<char>>::empty());
    }
    loop
        invariant
            ls == lines.line_views(),
            lines.next <= ls.len(),
            all == chunks_from(ls, 0),
            all == done + chunks_from(ls, lines.next as int),
            string_views(words@) == entry_facts(done).words,
            string_views(ratings@) == entry_facts(done).ratings,
            description@ == entry_facts(done).description,
        ensures
            string_views(words@) == entry_facts(all).words,
            string_views(ratings@) == entry_facts(all).ratings,
            description@ == entry_facts(all).description,
        decreases ls.len() - lines.next,
    {
        let ghost p = lines.next as int;
        proof {
            lemma_next_chunk_advances(ls, p);
        }
        match get_next_chunk(&mut lines) {
            Ok(this_chunk) => {
                let ghost c = this_chunk@;
                let ghost f0 = entry_facts(done);
                let answer_vec = match this_chunk.get_answer() {
                    Ok(v) => v,
                    Err(_) => {
                        proof {
                            assert(false);
                        }
                        break ;
                    },
                };
                let ghost answer_lines = crate::text::lines(c).skip(2);
                for i in 0..answer_vec.len()
                    invariant
                        answer_vec@.map_values(|q: Question| q@) == answer_lines,
                        string_views(words@) == f0.words + words_of_lines(
                            answer_lines.take(i as int),
                        ),
                {
                    proof {
                        assert(answer_lines.take(i + 1).drop_last() =~= answer_lines.take(
                            i as int,
                        ));
                        assert(answer_vec@.map_values(|q: Question| q@)[i as int]
                            == answer_vec@[i as int]@);
                    }
                    push_words(&mut words, answer_vec[i].question.as_str());
                }
                proof {
                    assert(answer_lines.take(answer_lines.len() as int) =~= answer_lines);
                }
                let prompt_type = match this_chunk.get_prompt_type() {
                    Ok(v) => v,
                    Err(_) => {
                        proof {
                            assert(false);
                        }
                        break ;
                    },
                };
                let ghost ts = chunk_answers(c);
                if prompt_type == PromptQuestionType::Rating {
                    if let Ok(text) = answer_vec[0].get_text() {
                        let ghost before = string_views(ratings@);
                        let ghost tv = text@;
                        ratings.push(text);
                        proof {
                            assert(answer_vec@.map_values(|q: Question| q@)[0] == answer_vec@[0]@);
                            assert(string_views(ratings@) =~= before.push(tv));
                        }
                    }
                } else if prompt_type == PromptQuestionType::Description {
                    let info_q = match this_chunk.get_informative() {
                        Ok(q) => q,
                        Err(_) => {
                            proof {
                                assert(false);
                            }
                            break ;
                        },
                    };
                    let info = match info_q.get_text() {
                        Ok(t) => t,
                        Err(_) => {
                            proof {
                                assert(false);
                            }
                            break ;
                        },
                    };
                    let ghost d0 = description@;
                    for i in 0..answer_vec.len()
                        invariant
                            answer_vec@.map_values(|q: Question| q@) == answer_lines,
                            ts == answer_lines.map_values(|a: Seq<char>| crate::question::text_of(a)),
                            info@ == chunk_info(c),
                            description@ == d0 + description_text(info@, ts.take(i as int)),
                    {
                        proof {
                            assert(ts.take(i + 1).drop_last() =~= ts.take(i as int));
                            assert(answer_vec@.map_values(|q: Question| q@)[i as int]
                                == answer_vec@[i as int]@);
                        }
                        if let Ok(t) = answer_vec[i].get_text() {
                            if i == 0 {
                                extend_str(&mut description, "\n    ");
                                extend_str(&mut description, "[");
                                extend_str(&mut description, info.as_str());
                                extend_str(&mut description, "] ");
                                extend_str(&mut description, t.as_str());
                                proof {
                                    assert("\n    "@ + bracketed(info@, ts[0]) =~= "\n    "@
                                        + "["@ + info@ + "] "@ + t@);
                                    assert(description@ =~= d0 + description_text(info@, ts.take(1)));
                                }
                            } else {
                                extend_str(&mut description, "\n    ");
                                extend_str(&mut description, t.as_str());
                                proof {
                                    assert(description@ =~= d0 + description_text(
                                        info@,
                                        ts.take(i + 1),
                                    ));
                                }
                            }
                        }
                    }
                    proof {
                        assert(ts.take(ts.len() as int) =~= ts);
                    }
                }
                proof {
                    let r = Ok::<Seq<char>, ChunkError>(c);
                    assert(done.push(r).drop_last() =~= done);
                    assert(chunks_from(ls, p) =~= seq![r] + chunks_from(ls, lines.next as int));
                    done = done.push(r);
                    assert(all =~= done + chunks_from(ls, lines.next as int));
                }
            },
            Err(ChunkError::UnexpectedFileEnd) => {
                proof {
                    assert(chunks_from(ls, p) =~= Seq::<Result<Seq<char>, ChunkError>>::empty());
                    assert(all =~= done);
                }
                break ;
            },
            Err(e) => {
                proof {
                    let r = Err::<Seq<char>, ChunkError>(e);
                    assert(done.push(r).drop_last() =~= done);
                    assert(chunks_from(ls, p) =~= seq![r] + chunks_from(ls, lines.next as int));
                    done = done.push(r);
                    assert(all =~= done + chunks_from(ls, lines.next as int));
                }
            },
        }
    }
    EntryFacts { words, ratings, description: from_chars(description.as_slice()) }
}

// ---------------------------------------------------------------------------
// The most common words
// ---------------------------------------------------------------------------

/// The longest word length that the analytics report on.
pub const MAX_WORD_LEN: usize = 20;

/// The words grouped by word, in word order (each group holds the word as
/// often as it occurs).
pub open spec fn word_groups(words: Seq<Seq<char>>) -> Groups {
    group_entries(words.map_values(|w: Seq<char>| (w, w)))
}

/// For each byte length up to `MAX_WORD_LEN`, the most frequent word of
/// that length and its count; the first in word order among equally
/// frequent ones; `("", 0)` for a length no word has.
pub open spec fn best_words(gs: Groups) -> Seq<(Seq<char>, nat)>
    decreases gs.len(),
{
    if gs.len() == 0 {
        Seq::new((MAX_WORD_LEN + 1) as nat, |i: int| (Seq::<char>::empty(), 0nat))
    } else {
        let b = best_words(gs.drop_last());
        let k = gs.last().0;
        let count = gs.last().1.len();
        let l = byte_len(k);
        if 0 < l <= MAX_WORD_LEN && b[l as int].1 < count {
            b.update(l as int, (k, count))
        } else {
            b
        }
    }
}

/// `best_words` always has a slot for each length.
proof fn lemma_best_words_len(gs: Groups)
    ensures
        best_words(gs).len() == MAX_WORD_LEN + 1,
    decreases gs.len(),
{
    if gs.len() > 0 {
        lemma_best_words_len(gs.drop_last());
    }
}

/// The slot of length `l` of `b` is right for the groups `gs`: a count
/// above zero belongs to a group of a word of that length, no group of a
/// word of that length holds more values, and no group before the slot's
/// word holds as many.
pub open spec fn slot_fits(gs: Groups, b: Seq<(Seq<char>, nat)>, l: int) -> bool {
    let w = b[l].0;
    let c = b[l].1;
    &&& c > 0 ==> 0 < l && byte_len(w) == l && exists|j: int|
        0 <= j < gs.len() && (#[trigger] gs[j]).0 == w && gs[j].1.len() == c
    &&& forall|i: int|
        0 <= i < gs.len() && 0 < byte_len((#[trigger] gs[i]).0) == l ==> gs[i].1.len() <= c
    &&& forall|i: int|
        0 <= i < gs.len() && byte_len((#[trigger] gs[i]).0) == l && gs[i].1.len() == c && c > 0
            ==> exists|j: int| 0 <= j <= i && (#[trigger] gs[j]).0 == w
}

/// Every slot of `best_words` is right for its groups.
proof fn lemma_best_words_slots(gs: Groups)
    ensures
        best_words(gs).len() == MAX_WORD_LEN + 1,
        forall|l: int| 0 <= l <= MAX_WORD_LEN ==> #[trigger] slot_fits(gs, best_words(gs), l),
    decreases gs.len(),
{
    lemma_best_words_len(gs);
    if gs.len() > 0 {
        let init = gs.drop_last();
        lemma_best_words_slots(init);
        let b0 = best_words(init);
        let b = best_words(gs);
        let n = gs.len() - 1;
        let k = gs.last().0;
        let count = gs.last().1.len();
        assert forall|l: int| 0 <= l <= MAX_WORD_LEN implies #[trigger] slot_fits(gs, b, l) by {
            assert(slot_fits(init, b0, l));
            assert forall|i: int| 0 <= i < n implies #[trigger] gs[i] == init[i] by {}
            if l == byte_len(k) && 0 < l && b0[l].1 < count {
                assert(b[l] == (k, count));
                assert(gs[n].0 == k && gs[n].1.len() == count);
                assert forall|i: int|
                    0 <= i < gs.len() && 0 < byte_len((#[trigger] gs[i]).0) == l implies gs[i].1.len()
                    <= count by {
                    if i < n {
                        assert(gs[i] == init[i]);
                    }
                }
                assert forall|i: int|
                    0 <= i < gs.len() && byte_len((#[trigger] gs[i]).0) == l && gs[i].1.len() == count
                        && count > 0 implies exists|j: int| 0 <= j <= i && (#[trigger] gs[j]).0 == k by {
                    if i < n {
                        assert(gs[i] == init[i]);
                    }
                    assert(gs[i].0 == k);
                }
            } else {
                assert(b[l] == b0[l]);
                let w = b0[l].0;
                let c = b0[l].1;
                if c > 0 {
                    let j = choose|j: int| 0 <= j < init.len() && (#[trigger] init[j]).0 == w && init[j].1.len() == c;
                    assert(gs[j] == init[j]);
                }
                assert forall|i: int|
                    0 <= i < gs.len() && 0 < byte_len((#[trigger] gs[i]).0) == l implies gs[i].1.len()
                    <= c by {
                    if i < n {
                        assert(gs[i] == init[i]);
                    }
                }
                assert forall|i: int|
                    0 <= i < gs.len() && byte_len((#[trigger] gs[i]).0) == l && gs[i].1.len() == c
                        && c > 0 implies exists|j: int| 0 <= j <= i && (#[trigger] gs[j]).0 == w by {
                    if i < n {
                        assert(gs[i] == init[i]);
                        let j = choose|j: int| 0 <= j <= i && (#[trigger] init[j]).0 == w;
                        assert(gs[j] == init[j]);
                    } else {
                        let j = choose|j: int| 0 <= j < init.len() && (#[trigger] init[j]).0 == w && init[j].1.len() == c;
                        assert(gs[j] == init[j]);
                    }
                }
            }
        }
    }
}

/// How often `w` occurs among `ws`.
pub open spec fn occurrences(ws: Seq<Seq<char>>, w: Seq<char>) -> nat {
    ws.to_multiset().count(w)
}

/// Each word as the key and the value of an entry.
pub open spec fn word_entries(ws: Seq<Seq<char>>) -> Seq<(Seq<char>, Seq<char>)> {
    ws.map_values(|w: Seq<char>| (w, w))
}

/// The entries of a word are as many as its occurrences, and a word has
/// entries exactly when it occurs.
proof fn lemma_word_values(ws: Seq<Seq<char>>, k: Seq<char>)
    ensures
        crate::pager::values_for(word_entries(ws), k).len() == occurrences(ws, k),
        crate::pager::has_entry_key(word_entries(ws), k) <==> ws.contains(k),
    decreases ws.len(),
{
    broadcast use vstd::seq_lib::group_to_multiset_ensures;

    if ws.len() == 0 {
        assert(ws.to_multiset() =~= vstd::multiset::Multiset::empty());
    } else {
        let init = ws.drop_last();
        lemma_word_values(init, k);
        assert(word_entries(ws).drop_last() =~= word_entries(init));
        assert(ws =~= init.push(ws.last()));
        assert(ws.to_multiset() =~= init.to_multiset().insert(ws.last()));
        let es = word_entries(ws);
        if crate::pager::has_entry_key(es, k) {
            let i = choose|i: int| 0 <= i < es.len() && es[i].0 == k;
            assert(ws[i] == k);
        }
        if ws.contains(k) {
            let i = choose|i: int| 0 <= i < ws.len() && ws[i] == k;
            assert(es[i].0 == k);
        }
    }
}

/// The most common words are the most common: for each length from 1 to
/// `MAX_WORD_LEN`, a slot with a count above zero holds a word of that
/// length that occurs that many times; no word of that length occurs more
/// often (so a count of zero means that no word has that length); and of
/// the words that occur as often, the slot holds the first in `String`
/// order. The slot of length 0 stays empty.
pub proof fn lemma_most_common_words_are_most_common(ws: Seq<Seq<char>>)
    ensures
        best_words(word_groups(ws)).len() == MAX_WORD_LEN + 1,
        best_words(word_groups(ws))[0].1 == 0,
        forall|l: int|
            0 <= l <= MAX_WORD_LEN && (#[trigger] best_words(word_groups(ws))[l]).1 > 0 ==> {
                &&& byte_len(best_words(word_groups(ws))[l].0) == l
                &&& ws.contains(best_words(word_groups(ws))[l].0)
                &&& best_words(word_groups(ws))[l].1 == occurrences(ws, best_words(word_groups(ws))[l].0)
            },
        forall|l: int, x: Seq<char>|
            0 < l <= MAX_WORD_LEN && ws.contains(x) && byte_len(x) == l ==> #[trigger] occurrences(ws, x)
                <= (#[trigger] best_words(word_groups(ws))[l]).1,
        forall|l: int, x: Seq<char>|
            0 < l <= MAX_WORD_LEN && ws.contains(x) && byte_len(x) == l && #[trigger] occurrences(ws, x)
                == (#[trigger] best_words(word_groups(ws))[l]).1 ==> x == best_words(word_groups(ws))[l].0
                || crate::pager::key_less(best_words(word_groups(ws))[l].0, x),
{
    let es = word_entries(ws);
    let gs = word_groups(ws);
    assert(gs == crate::pager::group_entries(es));
    crate::pager::lemma_group_entries_is_sorted_map(es);
    lemma_best_words_slots(gs);
    let b = best_words(gs);
    assert(slot_fits(gs, b, 0));
    assert forall|l: int| 0 <= l <= MAX_WORD_LEN && (#[trigger] b[l]).1 > 0 implies {
        &&& byte_len(b[l].0) == l
        &&& ws.contains(b[l].0)
        &&& b[l].1 == occurrences(ws, b[l].0)
    } by {
        assert(slot_fits(gs, b, l));
        let w = b[l].0;
        let c = b[l].1;
        let j = choose|j: int| 0 <= j < gs.len() && (#[trigger] gs[j]).0 == w && gs[j].1.len() == c;
        crate::pager::lemma_group_of_at(gs, j);
        assert(crate::pager::has_key(gs, w));
        lemma_word_values(ws, w);
    }
    assert forall|l: int, x: Seq<char>|
        0 < l <= MAX_WORD_LEN && ws.contains(x) && byte_len(x) == l implies #[trigger] occurrences(ws, x)
            <= (#[trigger] b[l]).1 && (occurrences(ws, x) == b[l].1 ==> x == b[l].0
            || crate::pager::key_less(b[l].0, x)) by {
        assert(slot_fits(gs, b, l));
        let w = b[l].0;
        let c = b[l].1;
        lemma_word_values(ws, x);
        assert(crate::pager::has_key(gs, x));
        let i = choose|i: int| 0 <= i < gs.len() && gs[i].0 == x;
        crate::pager::lemma_group_of_at(gs, i);
        assert(gs[i].0 == x);
        if occurrences(ws, x) == c {
            assert(c > 0) by {
                broadcast use vstd::seq_lib::group_to_multiset_ensures;
            }
            let j = choose|j: int| 0 <= j <= i && (#[trigger] gs[j]).0 == w;
            if j < i {
                assert(crate::pager::key_less(gs[j].0, gs[i].0));
            }
        }
    }
}

/// The slots of the result.
pub open spec fn slot_views(v: Seq<(String, usize)>) -> Seq<(Seq<char>, nat)> {
    v.map_values(|p: (String, usize)| (p.0@, p.1 as nat))
}

/// For each word length up to `MAX_WORD_LEN` (the index), the most common
/// word of that length and how often it occurs.
pub fn most_common_words(words: &Vec<String>) -> (best: Vec<(String, usize)>)
    ensures
        slot_views(best@) == best_words(word_groups(string_views(words@))),
{
    let ghost ws = string_views(words@);
    let ghost es = ws.map_values(|w: Seq<char>| (w, w));
    let mut groups: Vec<(Vec<char>, Vec<Vec<char>>)> = Vec::new();
    for i in 0..words.len()
        invariant
            ws == string_views(words@),
            es == ws.map_values(|w: Seq<char>| (w, w)),
            group_views(groups@) == group_entries(es.take(i as int)),
    {
        let w = to_chars(words[i].as_str());
        let w2 = to_chars(words[i].as_str());
        proof {
            assert(es.take(i + 1).drop_last() =~= es.take(i as int));
            assert(es.take(i + 1).last() == (w@, w2@));
        }
        group_insert_chars(&mut groups, w, w2);
    }
    proof {
        assert(es.take(es.len() as int) =~= es);
    }
    let ghost gs = group_views(groups@);
    let mut best: Vec<(String, usize)> = Vec::new();
    for i in 0..MAX_WORD_LEN + 1
        invariant
            slot_views(best@) == Seq::new(i as nat, |j: int| (Seq::<char>::empty(), 0nat)),
    {
        let ghost before = slot_views(best@);
        let e = String::new();
        let ghost ev = e@;
        best.push((e, 0));
        proof {
            assert(slot_views(best@) =~= before.push((ev, 0nat)));
            assert(slot_views(best@) =~= Seq::new((i + 1) as nat, |j: int| (Seq::<char>::empty(), 0nat)));
        }
    }
    proof {
        assert(slot_views(best@) =~= best_words(gs.take(0)));
    }
    for i in 0..groups.len()
        invariant
            gs == group_views(groups@),
            slot_views(best@) == best_words(gs.take(i as int)),
            best@.len() == MAX_WORD_LEN + 1,
    {
        proof {
            assert(gs.take(i + 1).drop_last() =~= gs.take(i as int));
            lemma_best_words_len(gs.take(i as int));
            assert(gs[i as int].0 == groups@[i as int].0@);
            assert(gs[i as int].1.len() == groups@[i as int].1@.len());
        }
        let word_len_ok = crate::pager::byte_len_up_to(groups[i].0.as_slice(), MAX_WORD_LEN);
        match word_len_ok {
            Some(word_len) => {
                if word_len > 0 && best[word_len].1 < groups[i].1.len() {
                    let ghost before = slot_views(best@);
                    let word = from_chars(groups[i].0.as_slice());
                    let count = groups[i].1.len();
                    let ghost entry = (word@, count as nat);
                    best.set(word_len, (word, count));
                    proof {
                        assert(slot_views(best@) =~= before.update(word_len as int, entry));
                    }
                }
            },
            None => {},
        }
    }
    proof {
        assert(gs.take(gs.len() as int) =~= gs);
    }
    best
}

// ---------------------------------------------------------------------------
// The longest description
// ---------------------------------------------------------------------------

/// The length in bytes of a text, as `str::len` gives it.
pub open spec fn text_len(s: Seq<char>) -> int {
    (vstd::utf8::encode_utf8(s).len() as usize) as int
}

/// Which of the days' descriptions the analytics show as the longest: the
/// first of the longest in bytes; none when every description is empty.
pub fn longest_description_index(descriptions: &Vec<String>) -> (r: Option<usize>)
    ensures
        r is None <==> forall|j: int|
            0 <= j < descriptions@.len() ==> text_len(#[trigger] descriptions@[j]@) == 0,
        r matches Some(i) ==> {
            &&& i < descriptions@.len()
            &&& forall|j: int|
                0 <= j < descriptions@.len() ==> text_len(#[trigger] descriptions@[j]@) <= text_len(
                    descriptions@[i as int]@,
                )
            &&& forall|j: int|
                0 <= j < i ==> text_len(#[trigger] descriptions@[j]@) < text_len(
                    descriptions@[i as int]@,
                )
        },
{
    let mut best: Option<usize> = None;
    let mut best_len: usize = 0;
    for i in 0..descriptions.len()
        invariant
            best is None ==> best_len == 0,
            forall|j: int| 0 <= j < i ==> text_len(#[trigger] descriptions@[j]@) <= best_len,
            best is None ==> forall|j: int| 0 <= j < i ==> text_len(#[trigger] descriptions@[j]@) == 0,
            best matches Some(b) ==> {
                &&& b < i
                &&& best_len == text_len(descriptions@[b as int]@)
                &&& best_len > 0
                &&& forall|j: int| 0 <= j < b ==> text_len(#[trigger] descriptions@[j]@) < best_len
            },
    {
        let l = descriptions[i].as_str().len();
        if l > best_len {
            best = Some(i);
            best_len = l;
        }
    }
    best
}

} // verus!
