//! Greedy wrapping of text into lines of limited width.
//!
//! Whether a candidate line is narrow enough is decided by measuring it with a font, which
//! happens outside this library; the wrapper asks for that decision one candidate at a time.
use vstd::prelude::*;

use vstd::seq_lib::lemma_flatten_concat;

use crate::text::{
    chars_of, is_white_space, is_word, lemma_blank_has_no_words, lemma_lines_single,
    lemma_lines_split, lemma_strip_cr_words, strip_cr, lemma_newline_index_is, lemma_word_alone,
    lemma_words_are_words, lemma_words_by_lines, lemma_words_concat, lines_in, lines_of, rows,
    string_from_chars, words_in, words_of,
};

verus! {

/// `current`, a space, then `word`: the line `current` would become if `word` joined it.
pub open spec fn join_word(current: Seq<char>, word: Seq<char>) -> Seq<char> {
    current + seq![' '] + word
}

/// The lines that greedy wrapping makes of `words`, starting from the partly filled line
/// `current`: a word joins the line when the line with it still fits, and otherwise starts
/// the next line. The first word of a line is placed without asking.
pub open spec fn fill(
    current: Seq<char>,
    words: Seq<Seq<char>>,
    fits: spec_fn(Seq<char>) -> bool,
) -> Seq<Seq<char>>
    decreases words.len(),
{
    if words.len() == 0 {
        if current.len() == 0 {
            seq![]
        } else {
            seq![current]
        }
    } else if current.len() == 0 {
        fill(words[0], words.drop_first(), fits)
    } else if fits(join_word(current, words[0])) {
        fill(join_word(current, words[0]), words.drop_first(), fits)
    } else {
        seq![current] + fill(words[0], words.drop_first(), fits)
    }
}

/// Greedy wrapping of each source line's words, one source line after the other.
pub open spec fn fill_all(
    source: Seq<Seq<Seq<char>>>,
    fits: spec_fn(Seq<char>) -> bool,
) -> Seq<Seq<char>>
    decreases source.len(),
{
    if source.len() == 0 {
        seq![]
    } else {
        fill(seq![], source[0], fits) + fill_all(source.drop_first(), fits)
    }
}

/// The words of each line of `text`.
pub open spec fn words_by_line(text: Seq<char>) -> Seq<Seq<Seq<char>>> {
    lines_of(text).map_values(|l: Seq<char>| words_of(l))
}

/// `text` wrapped with the width test `fits`: each of its lines is cut into words, and the
/// words of each line are wrapped greedily; words of different lines never share a line.
pub open spec fn wrap(text: Seq<char>, fits: spec_fn(Seq<char>) -> bool) -> Seq<Seq<char>> {
    fill_all(words_by_line(text), fits)
}

/// The state of a wrapping in progress.
pub struct WrapModel {
    /// The words still to place, grouped by source line; `rest[0]` is the line in progress.
    pub rest: Seq<Seq<Seq<char>>>,
    /// The line being filled.
    pub current: Seq<char>,
    /// The lines already finished.
    pub lines: Seq<Seq<char>>,
}

/// How many words and line ends are still to be handled.
pub open spec fn pending_size(rest: Seq<Seq<Seq<char>>>) -> nat
    decreases rest.len(),
{
    if rest.len() == 0 {
        0
    } else {
        rest[0].len() + 1 + pending_size(rest.drop_first())
    }
}

pub proof fn lemma_size_after_word(rest: Seq<Seq<Seq<char>>>)
    requires
        rest.len() > 0,
        rest[0].len() > 0,
    ensures
        pending_size(rest.update(0, rest[0].drop_first())) + 1 == pending_size(rest),
{
    assert(rest.update(0, rest[0].drop_first()).drop_first() =~= rest.drop_first());
}

/// Everything that needs no width test, done: a finished source line closes the line in
/// progress, and an empty line in progress takes the next word.
pub open spec fn settle(m: WrapModel) -> WrapModel
    decreases pending_size(m.rest),
{
    if m.rest.len() == 0 {
        m
    } else if m.rest[0].len() == 0 {
        settle(
            WrapModel {
                rest: m.rest.drop_first(),
                current: seq![],
                lines: if m.current.len() == 0 {
                    m.lines
                } else {
                    m.lines.push(m.current)
                },
            },
        )
    } else if m.current.len() == 0 {
        proof {
            lemma_size_after_word(m.rest);
        }
        settle(
            WrapModel {
                rest: m.rest.update(0, m.rest[0].drop_first()),
                current: m.rest[0][0],
                lines: m.lines,
            },
        )
    } else {
        m
    }
}

/// The line whose width decides where the next word goes, if a word is waiting to join a
/// line that already holds one.
pub open spec fn candidate(m: WrapModel) -> Option<Seq<char>> {
    if m.rest.len() > 0 && m.rest[0].len() > 0 && m.current.len() > 0 {
        Some(join_word(m.current, m.rest[0][0]))
    } else {
        None
    }
}

/// The state after the waiting word is placed: on the current line when `fits`, else on a
/// new line, with the current one finished.
pub open spec fn place(m: WrapModel, fits: bool) -> WrapModel {
    let word = m.rest[0][0];
    let rest = m.rest.update(0, m.rest[0].drop_first());
    if fits {
        settle(WrapModel { rest, current: join_word(m.current, word), lines: m.lines })
    } else {
        settle(WrapModel { rest, current: word, lines: m.lines.push(m.current) })
    }
}

/// The state in which wrapping `text` starts.
pub open spec fn start(text: Seq<char>) -> WrapModel {
    settle(WrapModel { rest: words_by_line(text), current: seq![], lines: seq![] })
}

/// The lines a wrapping ends with when, from state `m` on, each candidate is answered by
/// `fits`.
pub open spec fn run(m: WrapModel, fits: spec_fn(Seq<char>) -> bool) -> Seq<Seq<char>>
    decreases pending_size(m.rest),
{
    match candidate(m) {
        Some(c) => {
            proof {
                lemma_place_shrinks(m, fits(c));
            }
            run(place(m, fits(c)), fits)
        },
        None => m.lines,
    }
}

/// Settling never adds work.
pub proof fn lemma_settle_size(m: WrapModel)
    ensures
        pending_size(settle(m).rest) <= pending_size(m.rest),
    decreases pending_size(m.rest),
{
    if m.rest.len() == 0 {
    } else if m.rest[0].len() == 0 {
        let next = WrapModel {
            rest: m.rest.drop_first(),
            current: seq![],
            lines: if m.current.len() == 0 {
                m.lines
            } else {
                m.lines.push(m.current)
            },
        };
        lemma_settle_size(next);
    } else if m.current.len() == 0 {
        lemma_size_after_word(m.rest);
        let next = WrapModel {
            rest: m.rest.update(0, m.rest[0].drop_first()),
            current: m.rest[0][0],
            lines: m.lines,
        };
        lemma_settle_size(next);
    }
}

/// Placing a word leaves less work.
pub proof fn lemma_place_shrinks(m: WrapModel, fits: bool)
    requires
        candidate(m) is Some,
    ensures
        pending_size(place(m, fits).rest) < pending_size(m.rest),
{
    lemma_size_after_word(m.rest);
    let rest = m.rest.update(0, m.rest[0].drop_first());
    lemma_settle_size(WrapModel { rest, current: join_word(m.current, m.rest[0][0]), lines: m.lines });
    lemma_settle_size(WrapModel { rest, current: m.rest[0][0], lines: m.lines.push(m.current) });
}

/// The lines a state will have produced once everything is placed, with `fits` answering.
spec fn outcome(m: WrapModel, fits: spec_fn(Seq<char>) -> bool) -> Seq<Seq<char>> {
    if m.rest.len() == 0 {
        m.lines + fill(m.current, seq![], fits)
    } else {
        m.lines + (fill(m.current, m.rest[0], fits) + fill_all(m.rest.drop_first(), fits))
    }
}

/// A state that is not waiting for an answer has placed everything.
spec fn settled(m: WrapModel) -> bool {
    candidate(m) is Some || (m.rest.len() == 0 && m.current.len() == 0)
}

proof fn lemma_settle_outcome(m: WrapModel, fits: spec_fn(Seq<char>) -> bool)
    ensures
        outcome(settle(m), fits) == outcome(m, fits),
        (m.rest.len() == 0 ==> m.current.len() == 0) ==> settled(settle(m)),
    decreases pending_size(m.rest),
{
    if m.rest.len() == 0 {
    } else if m.rest[0].len() == 0 {
        let next = WrapModel {
            rest: m.rest.drop_first(),
            current: seq![],
            lines: if m.current.len() == 0 {
                m.lines
            } else {
                m.lines.push(m.current)
            },
        };
        lemma_settle_outcome(next, fits);
        let tail = fill_all(m.rest.drop_first(), fits);
        if next.rest.len() == 0 {
            assert(tail =~= Seq::<Seq<char>>::empty());
        } else {
            assert(tail == fill(seq![], next.rest[0], fits) + fill_all(next.rest.drop_first(), fits));
        }
        if m.current.len() == 0 {
            assert(outcome(m, fits) =~= m.lines + tail);
            assert(outcome(next, fits) =~= m.lines + tail);
        } else {
            assert(outcome(m, fits) =~= m.lines + (seq![m.current] + tail));
            assert(outcome(next, fits) =~= m.lines.push(m.current) + tail);
        }
    } else if m.current.len() == 0 {
        lemma_size_after_word(m.rest);
        let next = WrapModel {
            rest: m.rest.update(0, m.rest[0].drop_first()),
            current: m.rest[0][0],
            lines: m.lines,
        };
        lemma_settle_outcome(next, fits);
        assert(next.rest.drop_first() =~= m.rest.drop_first());
    }
}

proof fn lemma_place_outcome(m: WrapModel, fits: spec_fn(Seq<char>) -> bool)
    requires
        candidate(m) is Some,
    ensures
        outcome(place(m, fits(candidate(m)->0)), fits) == outcome(m, fits),
        settled(place(m, fits(candidate(m)->0))),
{
    let c = candidate(m)->0;
    let word = m.rest[0][0];
    let rest = m.rest.update(0, m.rest[0].drop_first());
    assert(rest.drop_first() =~= m.rest.drop_first());
    let tail = fill_all(m.rest.drop_first(), fits);
    if fits(c) {
        let next = WrapModel { rest, current: join_word(m.current, word), lines: m.lines };
        lemma_settle_outcome(next, fits);
    } else {
        let next = WrapModel { rest, current: word, lines: m.lines.push(m.current) };
        lemma_settle_outcome(next, fits);
        assert(outcome(m, fits) =~= m.lines + ((seq![m.current] + fill(word, rest[0], fits))
            + tail));
        assert(outcome(next, fits) =~= m.lines.push(m.current) + (fill(word, rest[0], fits)
            + tail));
    }
}

proof fn lemma_run_outcome(m: WrapModel, fits: spec_fn(Seq<char>) -> bool)
    requires
        settled(m),
    ensures
        run(m, fits) == outcome(m, fits),
    decreases pending_size(m.rest),
{
    match candidate(m) {
        Some(c) => {
            lemma_place_shrinks(m, fits(c));
            lemma_place_outcome(m, fits);
            lemma_run_outcome(place(m, fits(c)), fits);
        },
        None => {
            assert(outcome(m, fits) =~= m.lines);
        },
    }
}

/// Wrapping follows the width test: when every candidate line is answered by `fits`,
/// a wrapping of `text` ends with exactly the lines of `wrap(text, fits)`.
pub proof fn lemma_wrapping_follows_width_test(text: Seq<char>, fits: spec_fn(Seq<char>) -> bool)
    ensures
        run(start(text), fits) == wrap(text, fits),
{
    let w = words_by_line(text);
    let init = WrapModel { rest: w, current: seq![], lines: seq![] };
    lemma_settle_outcome(init, fits);
    lemma_run_outcome(start(text), fits);
    if w.len() == 0 {
        assert(outcome(init, fits) =~= wrap(text, fits));
    } else {
        assert(outcome(init, fits) =~= wrap(text, fits));
    }
}

/// The words of each of `lines`, one line after the other.
pub open spec fn words_of_lines(lines: Seq<Seq<char>>) -> Seq<Seq<char>> {
    lines.map_values(|l: Seq<char>| words_of(l)).flatten()
}

proof fn lemma_words_of_lines_concat(a: Seq<Seq<char>>, b: Seq<Seq<char>>)
    ensures
        words_of_lines(a + b) == words_of_lines(a) + words_of_lines(b),
{
    let f = |l: Seq<char>| words_of(l);
    assert((a + b).map_values(f) =~= a.map_values(f) + b.map_values(f));
    lemma_flatten_concat(a.map_values(f), b.map_values(f));
}

proof fn lemma_words_of_one_line(l: Seq<char>)
    ensures
        words_of_lines(seq![l]) == words_of(l),
{
    let f = |l: Seq<char>| words_of(l);
    assert(seq![l].map_values(f) =~= seq![words_of(l)]);
    seq![words_of(l)].lemma_flatten_singleton();
}

/// Joining a word to a line adds just that word.
proof fn lemma_join_words(current: Seq<char>, word: Seq<char>)
    requires
        is_word(word),
    ensures
        words_of(join_word(current, word)) == words_of(current).push(word),
{
    lemma_words_concat(current + seq![' '], word);
    lemma_words_concat(current, seq![' ']);
    lemma_blank_has_no_words(seq![' ']);
    lemma_word_alone(word);
    assert(words_of(current) + Seq::<Seq<char>>::empty() =~= words_of(current));
    assert(words_of(current) + seq![word] =~= words_of(current).push(word));
}

/// Every element of every source line is a word.
pub open spec fn all_words(source: Seq<Seq<Seq<char>>>) -> bool {
    forall|i: int, j: int|
        0 <= i < source.len() && 0 <= j < source[i].len() ==> is_word(#[trigger] source[i][j])
}

proof fn lemma_fill_words(current: Seq<char>, words: Seq<Seq<char>>, fits: spec_fn(Seq<char>) -> bool)
    requires
        forall|j: int| 0 <= j < words.len() ==> is_word(#[trigger] words[j]),
    ensures
        words_of_lines(fill(current, words, fits)) == words_of(current) + words,
    decreases words.len(),
{
    let out = fill(current, words, fits);
    if words.len() == 0 {
        if current.len() == 0 {
            assert(words_of(current) =~= Seq::<Seq<char>>::empty());
            assert(words_of_lines(out) =~= Seq::<Seq<char>>::empty());
        } else {
            lemma_words_of_one_line(current);
        }
        assert(words_of(current) + words =~= words_of(current));
    } else {
        let w = words[0];
        let rest = words.drop_first();
        assert forall|j: int| 0 <= j < rest.len() implies is_word(#[trigger] rest[j]) by {
            assert(rest[j] == words[j + 1]);
        }
        if current.len() == 0 {
            lemma_fill_words(w, rest, fits);
            lemma_word_alone(w);
            assert(words_of(current) =~= Seq::<Seq<char>>::empty());
            assert(seq![w] + rest =~= words);
            assert(words_of(current) + words =~= words);
        } else if fits(join_word(current, w)) {
            lemma_fill_words(join_word(current, w), rest, fits);
            lemma_join_words(current, w);
            assert(words_of(current).push(w) + rest =~= words_of(current) + words);
        } else {
            lemma_fill_words(w, rest, fits);
            lemma_word_alone(w);
            lemma_words_of_lines_concat(seq![current], fill(w, rest, fits));
            lemma_words_of_one_line(current);
            assert(words_of(current) + (seq![w] + rest) =~= words_of(current) + words);
        }
    }
}

proof fn lemma_fill_all_words(source: Seq<Seq<Seq<char>>>, fits: spec_fn(Seq<char>) -> bool)
    requires
        all_words(source),
    ensures
        words_of_lines(fill_all(source, fits)) == source.flatten(),
    decreases source.len(),
{
    if source.len() == 0 {
        assert(words_of_lines(fill_all(source, fits)) =~= Seq::<Seq<char>>::empty());
    } else {
        let rest = source.drop_first();
        assert forall|i: int, j: int| 0 <= i < rest.len() && 0 <= j < rest[i].len() implies is_word(
            #[trigger] rest[i][j],
        ) by {
            assert(rest[i] == source[i + 1]);
        }
        assert forall|j: int| 0 <= j < source[0].len() implies is_word(#[trigger] source[0][j]) by {
        }
        lemma_fill_all_words(rest, fits);
        lemma_fill_words(seq![], source[0], fits);
        lemma_words_of_lines_concat(fill(seq![], source[0], fits), fill_all(rest, fits));
        assert(words_of(Seq::<char>::empty()) =~= Seq::<Seq<char>>::empty());
        assert(Seq::<Seq<char>>::empty() + source[0] =~= source[0]);
    }
}

proof fn lemma_source_words(text: Seq<char>)
    ensures
        all_words(words_by_line(text)),
{
    let src = words_by_line(text);
    assert forall|i: int, j: int| 0 <= i < src.len() && 0 <= j < src[i].len() implies is_word(
        #[trigger] src[i][j],
    ) by {
        lemma_words_are_words(lines_of(text)[i]);
    }
}

/// Wrapping keeps the words: read one line after the other, the words of the wrapped lines
/// are exactly the words of `text`, none lost, added or reordered, whatever `fits` answers.
pub proof fn lemma_wrap_keeps_words(text: Seq<char>, fits: spec_fn(Seq<char>) -> bool)
    ensures
        words_of_lines(wrap(text, fits)) == words_of(text),
{
    lemma_source_words(text);
    lemma_fill_all_words(words_by_line(text), fits);
    lemma_words_by_lines(text);
}

/// A line that may stand in the output: one that fits, or a single word.
pub open spec fn acceptable(line: Seq<char>, fits: spec_fn(Seq<char>) -> bool) -> bool {
    line.len() > 0 && (fits(line) || is_word(line))
}

proof fn lemma_fill_shape(current: Seq<char>, words: Seq<Seq<char>>, fits: spec_fn(Seq<char>) -> bool)
    requires
        forall|j: int| 0 <= j < words.len() ==> is_word(#[trigger] words[j]),
        current.len() == 0 || acceptable(current, fits),
    ensures
        forall|i: int|
            0 <= i < fill(current, words, fits).len() ==> acceptable(
                #[trigger] fill(current, words, fits)[i],
                fits,
            ),
    decreases words.len(),
{
    let out = fill(current, words, fits);
    if words.len() == 0 {
        if current.len() == 0 {
            assert(out =~= Seq::<Seq<char>>::empty());
        } else {
            assert(out =~= seq![current]);
        }
    } else {
        let w = words[0];
        let rest = words.drop_first();
        assert forall|j: int| 0 <= j < rest.len() implies is_word(#[trigger] rest[j]) by {
            assert(rest[j] == words[j + 1]);
        }
        assert(is_word(w));
        if current.len() == 0 {
            lemma_fill_shape(w, rest, fits);
            assert(out == fill(w, rest, fits));
        } else if fits(join_word(current, w)) {
            lemma_fill_shape(join_word(current, w), rest, fits);
            assert(out == fill(join_word(current, w), rest, fits));
        } else {
            lemma_fill_shape(w, rest, fits);
            assert(out == seq![current] + fill(w, rest, fits));
            assert forall|i: int| 0 <= i < out.len() implies acceptable(#[trigger] out[i], fits) by {
                if i > 0 {
                    assert(out[i] == fill(w, rest, fits)[i - 1]);
                }
            }
        }
    }
}

proof fn lemma_fill_all_shape(source: Seq<Seq<Seq<char>>>, fits: spec_fn(Seq<char>) -> bool)
    requires
        all_words(source),
    ensures
        forall|i: int|
            0 <= i < fill_all(source, fits).len() ==> acceptable(
                #[trigger] fill_all(source, fits)[i],
                fits,
            ),
    decreases source.len(),
{
    if source.len() > 0 {
        let rest = source.drop_first();
        assert forall|i: int, j: int| 0 <= i < rest.len() && 0 <= j < rest[i].len() implies is_word(
            #[trigger] rest[i][j],
        ) by {
            assert(rest[i] == source[i + 1]);
        }
        assert forall|j: int| 0 <= j < source[0].len() implies is_word(#[trigger] source[0][j]) by {
        }
        lemma_fill_all_shape(rest, fits);
        lemma_fill_shape(seq![], source[0], fits);
        let a = fill(seq![], source[0], fits);
        let out = fill_all(source, fits);
        assert forall|i: int| 0 <= i < out.len() implies acceptable(#[trigger] out[i], fits) by {
            if i < a.len() {
                assert(out[i] == a[i]);
            } else {
                assert(out[i] == fill_all(rest, fits)[i - a.len()]);
            }
        }
    }
}

/// Every wrapped line is non-empty, and either passes the width test or is a single word
/// (a word too wide for any line stands alone).
pub proof fn lemma_wrapped_lines_fit(text: Seq<char>, fits: spec_fn(Seq<char>) -> bool)
    ensures
        forall|i: int|
            0 <= i < wrap(text, fits).len() ==> acceptable(#[trigger] wrap(text, fits)[i], fits),
{
    lemma_source_words(text);
    lemma_fill_all_shape(words_by_line(text), fits);
}

proof fn lemma_fill_first_word(
    current: Seq<char>,
    words: Seq<Seq<char>>,
    fits: spec_fn(Seq<char>) -> bool,
)
    requires
        forall|j: int| 0 <= j < words.len() ==> is_word(#[trigger] words[j]),
        words_of(current).len() > 0,
    ensures
        fill(current, words, fits).len() > 0,
        words_of(fill(current, words, fits)[0]).len() > 0,
        words_of(fill(current, words, fits)[0])[0] == words_of(current)[0],
    decreases words.len(),
{
    if current.len() == 0 {
        assert(words_of(current) =~= Seq::<Seq<char>>::empty());
    }
    if words.len() > 0 {
        let w = words[0];
        let rest = words.drop_first();
        assert forall|j: int| 0 <= j < rest.len() implies is_word(#[trigger] rest[j]) by {
            assert(rest[j] == words[j + 1]);
        }
        if fits(join_word(current, w)) {
            lemma_join_words(current, w);
            lemma_fill_first_word(join_word(current, w), rest, fits);
        }
    }
}

proof fn lemma_fill_breaks(current: Seq<char>, words: Seq<Seq<char>>, fits: spec_fn(Seq<char>) -> bool)
    requires
        forall|j: int| 0 <= j < words.len() ==> is_word(#[trigger] words[j]),
        current.len() == 0 || words_of(current).len() > 0,
    ensures
        forall|i: int|
            0 <= i < fill(current, words, fits).len() - 1 ==> !fits(
                join_word(
                    #[trigger] fill(current, words, fits)[i],
                    words_of(fill(current, words, fits)[i + 1])[0],
                ),
            ),
    decreases words.len(),
{
    let out = fill(current, words, fits);
    if words.len() == 0 {
        if current.len() == 0 {
            assert(out =~= Seq::<Seq<char>>::empty());
        } else {
            assert(out =~= seq![current]);
        }
    } else {
        let w = words[0];
        let rest = words.drop_first();
        assert forall|j: int| 0 <= j < rest.len() implies is_word(#[trigger] rest[j]) by {
            assert(rest[j] == words[j + 1]);
        }
        lemma_word_alone(w);
        if current.len() == 0 {
            lemma_fill_breaks(w, rest, fits);
            assert(out == fill(w, rest, fits));
        } else if fits(join_word(current, w)) {
            lemma_join_words(current, w);
            lemma_fill_breaks(join_word(current, w), rest, fits);
            assert(out == fill(join_word(current, w), rest, fits));
        } else {
            lemma_fill_breaks(w, rest, fits);
            lemma_fill_first_word(w, rest, fits);
            let tail = fill(w, rest, fits);
            assert(out == seq![current] + tail);
            assert forall|i: int| 0 <= i < out.len() - 1 implies !fits(
                join_word(#[trigger] out[i], words_of(out[i + 1])[0]),
            ) by {
                if i == 0 {
                    assert(out[1] == tail[0]);
                } else {
                    assert(out[i] == tail[i - 1]);
                    assert(out[i + 1] == tail[i]);
                }
            }
        }
    }
}

/// Wrapping is greedy: within one source line, a line ends only where the next word would
/// not fit on it.
pub proof fn lemma_wrap_breaks_only_when_full(text: Seq<char>, fits: spec_fn(Seq<char>) -> bool)
    requires
        forall|i: int| 0 <= i < text.len() ==> text[i] != '\n',
    ensures
        forall|i: int|
            0 <= i < wrap(text, fits).len() - 1 ==> !fits(
                join_word(#[trigger] wrap(text, fits)[i], words_of(wrap(text, fits)[i + 1])[0]),
            ),
{
    lemma_newline_index_is(text, text.len() as int);
    let ws = words_of(text);
    lemma_words_are_words(text);
    lemma_fill_breaks(seq![], ws, fits);
    if text.len() == 0 {
        assert(words_by_line(text) =~= Seq::<Seq<Seq<char>>>::empty());
    } else {
        assert(lines_of(text) == seq![text]);
        assert(words_by_line(text) =~= seq![ws]);
        assert(seq![ws].drop_first() =~= Seq::<Seq<Seq<char>>>::empty());
        assert(fill_all(Seq::<Seq<Seq<char>>>::empty(), fits) =~= Seq::<Seq<char>>::empty());
        assert(fill_all(seq![ws], fits) == fill(seq![], ws, fits) + fill_all(
            Seq::<Seq<Seq<char>>>::empty(),
            fits,
        ));
        assert(wrap(text, fits) =~= fill(seq![], ws, fits));
    }
}

/// Source lines stay apart: a text made of a line `a`, a newline and the rest `b` wraps
/// into the wrapping of `a` followed by the wrapping of `b`; no wrapped line takes words
/// from two source lines, and blank source lines give no wrapped line.
pub proof fn lemma_wrap_keeps_source_lines_apart(
    a: Seq<char>,
    b: Seq<char>,
    fits: spec_fn(Seq<char>) -> bool,
)
    requires
        forall|i: int| 0 <= i < a.len() ==> a[i] != '\n',
    ensures
        wrap(a + seq!['\n'] + b, fits) == wrap(a, fits) + wrap(b, fits),
{
    let text = a + seq!['\n'] + b;
    lemma_lines_split(a, b);
    lemma_lines_single(a);
    lemma_strip_cr_words(a);
    let first = strip_cr(a);
    assert(lines_of(text) == seq![first] + lines_of(b));
    assert(words_by_line(text) =~= seq![words_of(a)] + words_by_line(b));
    assert((seq![words_of(a)] + words_by_line(b)).drop_first() =~= words_by_line(b));
    assert(fill_all(words_by_line(text), fits) == fill(seq![], words_of(a), fits) + fill_all(
        words_by_line(b),
        fits,
    ));
    assert(seq![words_of(a)].drop_first() =~= Seq::<Seq<Seq<char>>>::empty());
    assert(fill_all(Seq::<Seq<Seq<char>>>::empty(), fits) =~= Seq::<Seq<char>>::empty());
    if a.len() == 0 {
        assert(words_by_line(a) =~= Seq::<Seq<Seq<char>>>::empty());
        assert(words_of(a) =~= Seq::<Seq<char>>::empty());
        assert(fill(seq![], words_of(a), fits) =~= Seq::<Seq<char>>::empty());
        assert(wrap(a, fits) =~= Seq::<Seq<char>>::empty());
    } else {
        assert(words_by_line(a) =~= seq![words_of(a)]);
        assert(fill_all(seq![words_of(a)], fits) == fill(seq![], words_of(a), fits) + fill_all(
            Seq::<Seq<Seq<char>>>::empty(),
            fits,
        ));
        assert(wrap(a, fits) =~= fill(seq![], words_of(a), fits));
    }
}

/// A line of words set one space apart: it starts and ends with a non-blank character, and
/// its only white space is single spaces between words.
pub open spec fn single_spaced(l: Seq<char>) -> bool {
    &&& l.len() > 0
    &&& !is_white_space(l[0])
    &&& !is_white_space(l.last())
    &&& forall|k: int|
        0 <= k < l.len() && is_white_space(#[trigger] l[k]) ==> l[k] == ' ' && k + 1 < l.len()
            && !is_white_space(l[k + 1])
}

/// Every part of line `l` that ends at a word's end and holds two words or more passes the
/// width test: no shorter choice of words for the line would have been refused.
pub open spec fn prefixes_fit(l: Seq<char>, fits: spec_fn(Seq<char>) -> bool) -> bool {
    forall|k: int|
        0 < k <= l.len() && (k == l.len() || l[k] == ' ') && #[trigger] l.take(k).contains(' ')
            ==> fits(l.take(k))
}

spec fn well_made(l: Seq<char>, fits: spec_fn(Seq<char>) -> bool) -> bool {
    single_spaced(l) && prefixes_fit(l, fits)
}

proof fn lemma_word_well_made(w: Seq<char>, fits: spec_fn(Seq<char>) -> bool)
    requires
        is_word(w),
    ensures
        well_made(w, fits),
{
    assert(!is_white_space(w[0]));
    assert(!is_white_space(w[w.len() - 1]));
    assert forall|k: int| 0 < k <= w.len() implies !#[trigger] w.take(k).contains(' ') by {
        if w.take(k).contains(' ') {
            let j = choose|j: int| 0 <= j < w.take(k).len() && w.take(k)[j] == ' ';
            assert(w[j] == ' ');
            assert(!is_white_space(w[j]));
        }
    }
}

proof fn lemma_join_well_made(
    current: Seq<char>,
    word: Seq<char>,
    fits: spec_fn(Seq<char>) -> bool,
)
    requires
        well_made(current, fits),
        is_word(word),
        fits(join_word(current, word)),
    ensures
        well_made(join_word(current, word), fits),
{
    let l = join_word(current, word);
    let n = current.len() as int;
    assert(l.len() == n + 1 + word.len());
    assert(l[0] == current[0]);
    assert(l.last() == word[word.len() - 1]);
    assert(!is_white_space(word[word.len() - 1]));
    assert forall|k: int| 0 <= k < l.len() && is_white_space(#[trigger] l[k]) implies l[k] == ' '
        && k + 1 < l.len() && !is_white_space(l[k + 1]) by {
        if k < n {
            assert(l[k] == current[k]);
            assert(is_white_space(current[k]));
            if k + 1 < n {
                assert(l[k + 1] == current[k + 1]);
            } else {
                assert(k + 1 < n);
            }
        } else if k == n {
            assert(l[k + 1] == word[0]);
            assert(!is_white_space(word[0]));
        } else {
            assert(l[k] == word[k - n - 1]);
            assert(!is_white_space(word[k - n - 1]));
        }
    }
    assert forall|k: int|
        0 < k <= l.len() && (k == l.len() || l[k] == ' ') && #[trigger] l.take(k).contains(
            ' ',
        ) implies fits(l.take(k)) by {
        if k == l.len() {
            assert(l.take(k) =~= l);
        } else if k < n {
            assert(l[k] == current[k]);
            assert(l.take(k) =~= current.take(k));
        } else if k == n {
            assert(l.take(k) =~= current);
            assert(current.take(n) =~= current);
            let j = choose|j: int| 0 <= j < l.take(k).len() && l.take(k)[j] == ' ';
            assert(current.take(n)[j] == ' ');
        } else {
            assert(l[k] == word[k - n - 1]);
            assert(!is_white_space(word[k - n - 1]));
        }
    }
}

proof fn lemma_fill_well_made(
    current: Seq<char>,
    words: Seq<Seq<char>>,
    fits: spec_fn(Seq<char>) -> bool,
)
    requires
        forall|j: int| 0 <= j < words.len() ==> is_word(#[trigger] words[j]),
        current.len() == 0 || well_made(current, fits),
    ensures
        forall|i: int|
            0 <= i < fill(current, words, fits).len() ==> well_made(
                #[trigger] fill(current, words, fits)[i],
                fits,
            ),
    decreases words.len(),
{
    let out = fill(current, words, fits);
    if words.len() == 0 {
        if current.len() == 0 {
            assert(out =~= Seq::<Seq<char>>::empty());
        } else {
            assert(out =~= seq![current]);
        }
    } else {
        let w = words[0];
        let rest = words.drop_first();
        assert forall|j: int| 0 <= j < rest.len() implies is_word(#[trigger] rest[j]) by {
            assert(rest[j] == words[j + 1]);
        }
        assert(is_word(w));
        lemma_word_well_made(w, fits);
        if current.len() == 0 {
            lemma_fill_well_made(w, rest, fits);
            assert(out == fill(w, rest, fits));
        } else if fits(join_word(current, w)) {
            lemma_join_well_made(current, w, fits);
            lemma_fill_well_made(join_word(current, w), rest, fits);
            assert(out == fill(join_word(current, w), rest, fits));
        } else {
            lemma_fill_well_made(w, rest, fits);
            assert(out == seq![current] + fill(w, rest, fits));
            assert forall|i: int| 0 <= i < out.len() implies well_made(#[trigger] out[i], fits) by {
                if i > 0 {
                    assert(out[i] == fill(w, rest, fits)[i - 1]);
                }
            }
        }
    }
}

proof fn lemma_fill_all_well_made(source: Seq<Seq<Seq<char>>>, fits: spec_fn(Seq<char>) -> bool)
    requires
        all_words(source),
    ensures
        forall|i: int|
            0 <= i < fill_all(source, fits).len() ==> well_made(
                #[trigger] fill_all(source, fits)[i],
                fits,
            ),
    decreases source.len(),
{
    if source.len() > 0 {
        let rest = source.drop_first();
        assert forall|i: int, j: int| 0 <= i < rest.len() && 0 <= j < rest[i].len() implies is_word(
            #[trigger] rest[i][j],
        ) by {
            assert(rest[i] == source[i + 1]);
        }
        assert forall|j: int| 0 <= j < source[0].len() implies is_word(#[trigger] source[0][j]) by {
        }
        lemma_fill_all_well_made(rest, fits);
        lemma_fill_well_made(seq![], source[0], fits);
        let a = fill(seq![], source[0], fits);
        let out = fill_all(source, fits);
        assert forall|i: int| 0 <= i < out.len() implies well_made(#[trigger] out[i], fits) by {
            if i < a.len() {
                assert(out[i] == a[i]);
            } else {
                assert(out[i] == fill_all(rest, fits)[i - a.len()]);
            }
        }
    }
}

/// Every wrapped line is its words set one space apart, and every part of it that ends at a
/// word's end and holds at least two words passes the width test.
pub proof fn lemma_wrapped_lines_well_made(text: Seq<char>, fits: spec_fn(Seq<char>) -> bool)
    ensures
        forall|i: int|
            0 <= i < wrap(text, fits).len() ==> single_spaced(#[trigger] wrap(text, fits)[i])
                && prefixes_fit(wrap(text, fits)[i], fits),
{
    lemma_source_words(text);
    lemma_fill_all_well_made(words_by_line(text), fits);
}

/// Greedy wrapping of a text into lines, one width test at a time.
///
/// `candidate` gives the line to measure, or `None` once every word is placed; `place`
/// takes the answer; `into_lines` hands out the lines.
pub struct TextWrap {
    source: Vec<Vec<Vec<char>>>,
    line: usize,
    word: usize,
    current: Vec<char>,
    lines: Vec<String>,
}

/// The words of each source line, as character sequences.
pub open spec fn nested(source: Seq<Vec<Vec<char>>>) -> Seq<Seq<Seq<char>>> {
    source.map_values(|l: Vec<Vec<char>>| rows(l@))
}

/// The words not yet placed, from source line `line` and word `word` on.
pub open spec fn rest_from(source: Seq<Seq<Seq<char>>>, line: int, word: int) -> Seq<
    Seq<Seq<char>>,
> {
    if line < source.len() {
        seq![source[line].skip(word)] + source.skip(line + 1)
    } else {
        seq![]
    }
}

impl View for TextWrap {
    type V = WrapModel;

    closed spec fn view(&self) -> WrapModel {
        WrapModel {
            rest: rest_from(nested(self.source@), self.line as int, self.word as int),
            current: self.current@,
            lines: self.lines.deep_view(),
        }
    }
}

impl TextWrap {
    /// Starts wrapping `text`: the words that need no width test are already placed.
    pub fn new(text: &str) -> (res: Self)
        ensures
            res.wf(),
            res@ == start(text@),
    {
        let source = words_by_line_of(text);
        let mut wrap = TextWrap {
            source,
            line: 0,
            word: 0,
            current: Vec::new(),
            lines: Vec::new(),
        };
        proof {
            let w = words_by_line(text@);
            if w.len() > 0 {
                assert(wrap@.rest =~~= w);
            } else {
                assert(wrap@.rest =~= w);
            }
            assert(wrap@.current =~= Seq::<char>::empty());
            assert(wrap@.lines =~= Seq::<Seq<char>>::empty());
        }
        wrap.settle_now();
        wrap
    }

    /// The line to measure next: the line in progress, a space and the next word; `None`
    /// once every word is placed.
    pub fn candidate(&self) -> (res: Option<String>)
        requires
            self.wf(),
        ensures
            match res {
                Some(s) => candidate(self@) == Some(s@),
                None => candidate(self@) is None,
            },
    {
        if self.line < self.source.len() && self.word < self.source[self.line].len()
            && self.current.len() > 0 {
            let word = copy_word(&self.source, self.line, self.word);
            let joined = join_chars(&self.current, &word);
            Some(string_from_chars(&joined))
        } else {
            None
        }
    }

    /// Places the waiting word: on the line in progress when `fits` (the candidate is narrow
    /// enough), otherwise at the start of a new line. Without a candidate, nothing changes.
    pub fn place(&mut self, fits: bool)
        requires
            old(self).wf(),
        ensures
            final(self).wf(),
            final(self)@ == if candidate(old(self)@) is Some {
                place(old(self)@, fits)
            } else {
                old(self)@
            },
    {
        if self.line < self.source.len() && self.word < self.source[self.line].len()
            && self.current.len() > 0 {
            let ghost before = self@;
            let word = copy_word(&self.source, self.line, self.word);
            if fits {
                self.current = join_chars(&self.current, &word);
            } else {
                let s = string_from_chars(&self.current);
                self.lines.push(s);
                self.current = word;
            }
            self.word = self.word + 1;
            proof {
                assert(self@.rest =~~= before.rest.update(0, before.rest[0].drop_first()));
                if !fits {
                    assert(self@.lines =~= before.lines.push(before.current));
                }
            }
            self.settle_now();
        }
    }

    /// The finished lines.
    pub fn into_lines(self) -> (res: Vec<String>)
        ensures
            res.deep_view() == self@.lines,
    {
        self.lines
    }

    /// The positions agree with the words held.
    pub closed spec fn wf(&self) -> bool {
        &&& self.line <= self.source@.len()
        &&& self.line < self.source@.len() ==> self.word <= self.source@[self.line as int]@.len()
    }

    fn settle_now(&mut self)
        requires
            old(self).wf(),
        ensures
            final(self).wf(),
            final(self)@ == settle(old(self)@),
    {
        while self.line < self.source.len()
            invariant
                self.wf(),
                settle(self@) == settle(old(self)@),
            ensures
                self.wf(),
                settle(self@) == settle(old(self)@),
                settle(self@) == self@,
            decreases self.source@.len() - self.line, self.source@[self.line as int]@.len()
                - self.word,
        {
            let n = self.source[self.line].len();
            if self.word == n {
                let ghost before = self@;
                if self.current.len() > 0 {
                    let s = string_from_chars(&self.current);
                    self.lines.push(s);
                }
                self.current = Vec::new();
                self.line = self.line + 1;
                self.word = 0;
                proof {
                    assert(before.rest[0] =~= Seq::<Seq<char>>::empty());
                    assert(self@.rest =~~= before.rest.drop_first());
                    assert(self@.current =~= Seq::<char>::empty());
                    assert(self@.lines =~= (if before.current.len() == 0 {
                        before.lines
                    } else {
                        before.lines.push(before.current)
                    }));
                }
            } else if self.current.len() == 0 {
                let ghost before = self@;
                self.current = copy_word(&self.source, self.line, self.word);
                self.word = self.word + 1;
                proof {
                    assert(self@.rest =~~= before.rest.update(0, before.rest[0].drop_first()));
                }
            } else {
                assert(self@.rest[0].len() > 0);
                break;
            }
        }
    }
}

/// `a`, a space, then `b`.
fn join_chars(a: &Vec<char>, b: &Vec<char>) -> (res: Vec<char>)
    ensures
        res@ == join_word(a@, b@),
{
    let mut res: Vec<char> = Vec::new();
    let n = a.len();
    for i in 0..n
        invariant
            n == a@.len(),
            res@ == a@.take(i as int),
    {
        res.push(a[i]);
        assert(res@ =~= a@.take(i + 1));
    }
    res.push(' ');
    let m = b.len();
    for j in 0..m
        invariant
            n == a@.len(),
            m == b@.len(),
            res@ == a@.take(n as int) + seq![' '] + b@.take(j as int),
    {
        res.push(b[j]);
        assert(res@ =~= a@.take(n as int) + seq![' '] + b@.take(j + 1));
    }
    assert(a@.take(n as int) =~= a@);
    assert(b@.take(m as int) =~= b@);
    res
}

/// The words of each line of `text`.
fn words_by_line_of(text: &str) -> (res: Vec<Vec<Vec<char>>>)
    ensures
        nested(res@) == words_by_line(text@),
{
    let cs = chars_of(text);
    let lines = lines_in(&cs);
    let mut res: Vec<Vec<Vec<char>>> = Vec::new();
    let n = lines.len();
    for i in 0..n
        invariant
            n == lines@.len(),
            rows(lines@) == lines_of(text@),
            nested(res@) == words_by_line(text@).take(i as int),
    {
        let ghost before = nested(res@);
        let words = words_in(&lines[i]);
        res.push(words);
        proof {
            assert(rows(lines@)[i as int] == lines@[i as int]@);
            assert(words_by_line(text@)[i as int] == words_of(lines@[i as int]@));
            assert(nested(res@) =~= before.push(rows(words@)));
            assert(words_by_line(text@).take(i + 1) =~= words_by_line(text@).take(i as int).push(
                words_by_line(text@)[i as int],
            ));
        }
    }
    assert(words_by_line(text@).take(n as int) =~= words_by_line(text@));
    res
}

/// A copy of word `word` of source line `line`.
fn copy_word(source: &Vec<Vec<Vec<char>>>, line: usize, word: usize) -> (res: Vec<char>)
    requires
        line < source@.len(),
        word < source@[line as int]@.len(),
    ensures
        res@ == source@[line as int]@[word as int]@,
{
    let w = &source[line][word];
    let mut res: Vec<char> = Vec::new();
    let n = w.len();
    for i in 0..n
        invariant
            n == w@.len(),
            res@ == w@.take(i as int),
    {
        res.push(w[i]);
        assert(res@ =~= w@.take(i + 1));
    }
    assert(w@.take(n as int) =~= w@);
    res
}

} // verus!
