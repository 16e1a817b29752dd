//! Splitting text into lines and words.
use vstd::prelude::*;
use vstd::seq_lib::lemma_flatten_concat;

verus! {

/// Unicode `White_Space`, the property that `char::is_whitespace` tests.
pub open spec fn is_white_space(c: char) -> bool {
    ||| ('\u{9}' <= c && c <= '\u{d}')
    ||| c == ' '
    ||| c == '\u{85}'
    ||| c == '\u{a0}'
    ||| c == '\u{1680}'
    ||| ('\u{2000}' <= c && c <= '\u{200a}')
    ||| c == '\u{2028}'
    ||| c == '\u{2029}'
    ||| c == '\u{202f}'
    ||| c == '\u{205f}'
    ||| c == '\u{3000}'
}

/// Whether `c` is white space, as `char::is_whitespace` decides it.
pub fn is_whitespace(c: char) -> (res: bool)
    ensures
        res == is_white_space(c),
{
    ('\u{9}' <= c && c <= '\u{d}') || c == ' ' || c == '\u{85}' || c == '\u{a0}' || c == '\u{1680}'
        || ('\u{2000}' <= c && c <= '\u{200a}') || c == '\u{2028}' || c == '\u{2029}' || c
        == '\u{202f}' || c == '\u{205f}' || c == '\u{3000}'
}

/// The characters of `s`, in order.
pub fn chars_of(s: &str) -> (res: Vec<char>)
    ensures
        res@ == s@,
{
    let mut res: Vec<char> = Vec::new();
    for c in it: s.chars()
        invariant
            res@ == it.seq().take(it.index() as int),
    {
        res.push(c);
    }
    res
}


/// The index of the first `'\n'` in `s`, or `s.len()` when there is none.
pub open spec fn newline_index(s: Seq<char>) -> int
    decreases s.len(),
{
    if s.len() == 0 {
        0
    } else if s[0] == '\n' {
        0
    } else {
        1 + newline_index(s.drop_first())
    }
}

/// A line without its `'\r'`, where the line ended in `"\r\n"`.
pub open spec fn strip_cr(line: Seq<char>) -> Seq<char> {
    if line.len() > 0 && line.last() == '\r' {
        line.drop_last()
    } else {
        line
    }
}

/// The lines of `s`, as `str::lines` gives them: `s` is cut at each `'\n'`, a `'\r'` just
/// before a `'\n'` is dropped, and a final `'\n'` ends the last line without starting another.
pub open spec fn lines_of(s: Seq<char>) -> Seq<Seq<char>>
    decreases s.len(),
{
    if s.len() == 0 {
        seq![]
    } else {
        let k = newline_index(s);
        if k >= s.len() {
            seq![s]
        } else {
            proof {
                lemma_newline_index_bounds(s);
            }
            seq![strip_cr(s.take(k))] + lines_of(s.skip(k + 1))
        }
    }
}

/// The length of the run of non-white-space characters at the start of `s`.
pub open spec fn word_len(s: Seq<char>) -> int
    decreases s.len(),
{
    if s.len() == 0 {
        0
    } else if is_white_space(s[0]) {
        0
    } else {
        1 + word_len(s.drop_first())
    }
}

/// The words of `s`, as `str::split_whitespace` gives them: the maximal runs of characters
/// that are not white space, in order.
pub open spec fn words_of(s: Seq<char>) -> Seq<Seq<char>>
    decreases s.len(),
{
    if s.len() == 0 {
        seq![]
    } else if is_white_space(s[0]) {
        words_of(s.drop_first())
    } else {
        let k = word_len(s);
        proof {
            lemma_word_len_bounds(s);
        }
        seq![s.take(k)] + words_of(s.skip(k))
    }
}

/// A word: not empty, and free of white space.
pub open spec fn is_word(w: Seq<char>) -> bool {
    &&& w.len() > 0
    &&& forall|i: int| 0 <= i < w.len() ==> !is_white_space(#[trigger] w[i])
}

pub proof fn lemma_newline_index_bounds(s: Seq<char>)
    ensures
        0 <= newline_index(s) <= s.len(),
        newline_index(s) < s.len() ==> s[newline_index(s)] == '\n',
        forall|i: int| 0 <= i < newline_index(s) ==> s[i] != '\n',
    decreases s.len(),
{
    if s.len() > 0 && s[0] != '\n' {
        lemma_newline_index_bounds(s.drop_first());
        assert forall|i: int| 0 <= i < newline_index(s) implies s[i] != '\n' by {
            if i > 0 {
                assert(s[i] == s.drop_first()[i - 1]);
            }
        }
    }
}

pub proof fn lemma_word_len_bounds(s: Seq<char>)
    ensures
        0 <= word_len(s) <= s.len(),
        s.len() > 0 && !is_white_space(s[0]) ==> word_len(s) >= 1,
        word_len(s) < s.len() ==> is_white_space(s[word_len(s)]),
        forall|i: int| 0 <= i < word_len(s) ==> !is_white_space(#[trigger] s[i]),
    decreases s.len(),
{
    if s.len() > 0 && !is_white_space(s[0]) {
        lemma_word_len_bounds(s.drop_first());
        assert forall|i: int| 0 <= i < word_len(s) implies !is_white_space(#[trigger] s[i]) by {
            if i > 0 {
                assert(s[i] == s.drop_first()[i - 1]);
            }
        }
    }
}


pub proof fn lemma_newline_index_is(s: Seq<char>, k: int)
    requires
        0 <= k <= s.len(),
        forall|j: int| 0 <= j < k ==> s[j] != '\n',
        k < s.len() ==> s[k] == '\n',
    ensures
        newline_index(s) == k,
    decreases s.len(),
{
    if s.len() > 0 && k > 0 {
        assert forall|j: int| 0 <= j < k - 1 implies s.drop_first()[j] != '\n' by {
            assert(s.drop_first()[j] == s[j + 1]);
        }
        lemma_newline_index_is(s.drop_first(), k - 1);
    }
}

proof fn lemma_word_len_is(s: Seq<char>, k: int)
    requires
        0 <= k <= s.len(),
        forall|j: int| 0 <= j < k ==> !is_white_space(#[trigger] s[j]),
        k < s.len() ==> is_white_space(s[k]),
    ensures
        word_len(s) == k,
    decreases s.len(),
{
    if s.len() > 0 && k > 0 {
        assert forall|j: int| 0 <= j < k - 1 implies !is_white_space(#[trigger] s.drop_first()[j]) by {
            assert(s.drop_first()[j] == s[j + 1]);
            assert(!is_white_space(s[j + 1]));
        }
        lemma_word_len_is(s.drop_first(), k - 1);
    }
}

proof fn lemma_word_len_concat(x: Seq<char>, y: Seq<char>)
    ensures
        word_len(x + y) == if word_len(x) < x.len() {
            word_len(x)
        } else {
            x.len() + word_len(y)
        },
    decreases x.len(),
{
    lemma_word_len_bounds(x);
    if x.len() == 0 {
        assert(x + y =~= y);
    } else if !is_white_space(x[0]) {
        assert((x + y).drop_first() =~= x.drop_first() + y);
        lemma_word_len_concat(x.drop_first(), y);
    }
}

/// Splitting into words distributes over a concatenation at white space: when `x` ends in
/// white space or `y` starts with it, no word spans the two.
pub proof fn lemma_words_concat(x: Seq<char>, y: Seq<char>)
    requires
        x.len() == 0 || y.len() == 0 || is_white_space(x.last()) || is_white_space(y[0]),
    ensures
        words_of(x + y) == words_of(x) + words_of(y),
    decreases x.len(),
{
    if x.len() == 0 {
        assert(x + y =~= y);
        assert(words_of(x) =~= Seq::<Seq<char>>::empty());
        assert(words_of(x) + words_of(y) =~= words_of(y));
    } else if is_white_space(x[0]) {
        assert((x + y).drop_first() =~= x.drop_first() + y);
        if x.drop_first().len() > 0 {
            assert(x.drop_first().last() == x.last());
        }
        lemma_words_concat(x.drop_first(), y);
    } else {
        let k = word_len(x);
        lemma_word_len_bounds(x);
        lemma_word_len_concat(x, y);
        if k < x.len() {
            assert((x + y).take(k) =~= x.take(k));
            assert((x + y).skip(k) =~= x.skip(k) + y);
            assert(x.skip(k).last() == x.last());
            lemma_words_concat(x.skip(k), y);
            assert(words_of(x + y) =~= seq![x.take(k)] + (words_of(x.skip(k)) + words_of(y)));
        } else {
            assert(!is_white_space(x[x.len() - 1]));
            if y.len() > 0 {
                lemma_word_len_bounds(y);
            }
            assert(word_len(x + y) == x.len());
            assert((x + y).take(k) =~= x);
            assert((x + y).skip(k) =~= y);
            assert(x.take(k) =~= x);
            assert(x.skip(k) =~= Seq::<char>::empty());
            assert(words_of(Seq::<char>::empty()) =~= Seq::<Seq<char>>::empty());
            assert(words_of(x) =~= seq![x]);
        }
    }
}

/// A word on its own splits into just itself.
pub proof fn lemma_word_alone(w: Seq<char>)
    requires
        is_word(w),
    ensures
        words_of(w) == seq![w],
{
    lemma_word_len_is(w, w.len() as int);
    assert(!is_white_space(w[0]));
    assert(w.take(w.len() as int) =~= w);
    assert(w.skip(w.len() as int) =~= Seq::<char>::empty());
    assert(words_of(Seq::<char>::empty()) =~= Seq::<Seq<char>>::empty());
    assert(words_of(w) =~= seq![w]);
}

/// White space alone holds no word.
pub proof fn lemma_blank_has_no_words(s: Seq<char>)
    requires
        forall|i: int| 0 <= i < s.len() ==> is_white_space(#[trigger] s[i]),
    ensures
        words_of(s) == Seq::<Seq<char>>::empty(),
    decreases s.len(),
{
    if s.len() > 0 {
        assert forall|i: int| 0 <= i < s.drop_first().len() implies is_white_space(
            #[trigger] s.drop_first()[i],
        ) by {
            assert(s.drop_first()[i] == s[i + 1]);
        }
        lemma_blank_has_no_words(s.drop_first());
    }
}

/// Every word of a text is non-empty and free of white space.
pub proof fn lemma_words_are_words(s: Seq<char>)
    ensures
        forall|i: int| 0 <= i < words_of(s).len() ==> is_word(#[trigger] words_of(s)[i]),
    decreases s.len(),
{
    if s.len() == 0 {
        assert(words_of(s) =~= Seq::<Seq<char>>::empty());
    } else {
        if is_white_space(s[0]) {
            lemma_words_are_words(s.drop_first());
            assert(words_of(s) == words_of(s.drop_first()));
        } else {
            let k = word_len(s);
            lemma_word_len_bounds(s);
            lemma_words_are_words(s.skip(k));
            let ws = words_of(s);
            assert(ws == seq![s.take(k)] + words_of(s.skip(k)));
            assert forall|i: int| 0 <= i < ws.len() implies is_word(#[trigger] ws[i]) by {
                if i == 0 {
                    assert forall|j: int| 0 <= j < ws[0].len() implies !is_white_space(
                        #[trigger] ws[0][j],
                    ) by {
                        assert(ws[0][j] == s[j]);
                    }
                } else {
                    assert(ws[i] == words_of(s.skip(k))[i - 1]);
                    assert(is_word(words_of(s.skip(k))[i - 1]));
                }
            }
        }
    }
}

/// The words of a text are the words of its lines, one line after the other.
pub proof fn lemma_words_by_lines(s: Seq<char>)
    ensures
        words_of(s) == lines_of(s).map_values(|l: Seq<char>| words_of(l)).flatten(),
    decreases s.len(),
{
    let f = |l: Seq<char>| words_of(l);
    if s.len() == 0 {
        assert(lines_of(s).map_values(f) =~= Seq::<Seq<Seq<char>>>::empty());
    } else {
        let k = newline_index(s);
        lemma_newline_index_bounds(s);
        if k >= s.len() {
            assert(lines_of(s).map_values(f) =~= seq![words_of(s)]);
            seq![words_of(s)].lemma_flatten_singleton();
        } else {
            let head = s.take(k);
            let tail = s.skip(k);
            assert(s =~= head + tail);
            lemma_words_concat(head, tail);
            assert(tail.drop_first() =~= s.skip(k + 1));
            lemma_words_by_lines(s.skip(k + 1));
            if head.len() > 0 && head.last() == '\r' {
                assert(head =~= strip_cr(head) + seq!['\r']);
                lemma_words_concat(strip_cr(head), seq!['\r']);
                lemma_blank_has_no_words(seq!['\r']);
                assert(words_of(head) =~= words_of(strip_cr(head)));
            }
            let rest = lines_of(s.skip(k + 1));
            assert(lines_of(s) == seq![strip_cr(head)] + rest);
            assert(lines_of(s).map_values(f) =~= seq![words_of(strip_cr(head))] + rest.map_values(
                f,
            ));
            lemma_flatten_concat(seq![words_of(strip_cr(head))], rest.map_values(f));
            seq![words_of(strip_cr(head))].lemma_flatten_singleton();
        }
    }
}

/// Dropping a `'\r'` that ends a line keeps its words.
pub proof fn lemma_strip_cr_words(line: Seq<char>)
    ensures
        words_of(strip_cr(line)) == words_of(line),
{
    if line.len() > 0 && line.last() == '\r' {
        assert(line =~= strip_cr(line) + seq!['\r']);
        lemma_words_concat(strip_cr(line), seq!['\r']);
        lemma_blank_has_no_words(seq!['\r']);
        assert(words_of(line) =~= words_of(strip_cr(line)));
    }
}

/// A text without a newline is a single line, or no line at all when it is empty.
pub proof fn lemma_lines_single(a: Seq<char>)
    requires
        forall|i: int| 0 <= i < a.len() ==> a[i] != '\n',
    ensures
        lines_of(a) == if a.len() == 0 {
            Seq::<Seq<char>>::empty()
        } else {
            seq![a]
        },
{
    lemma_newline_index_is(a, a.len() as int);
    if a.len() == 0 {
        assert(lines_of(a) =~= Seq::<Seq<char>>::empty());
    }
}

/// A newline ends exactly one line: the text before the first newline (without a `'\r'`
/// just before the newline) is the first line, and the lines after it are the lines of the
/// rest, however many of them are empty.
pub proof fn lemma_lines_split(a: Seq<char>, b: Seq<char>)
    requires
        forall|i: int| 0 <= i < a.len() ==> a[i] != '\n',
    ensures
        lines_of(a + seq!['\n'] + b) == seq![
            if a.len() > 0 && a.last() == '\r' {
                a.drop_last()
            } else {
                a
            },
        ] + lines_of(b),
{
    let s = a + seq!['\n'] + b;
    let k = a.len() as int;
    assert forall|j: int| 0 <= j < k implies s[j] != '\n' by {
        assert(s[j] == a[j]);
    }
    lemma_newline_index_is(s, k);
    assert(s.take(k) =~= a);
    assert(s.skip(k + 1) =~= b);
}

/// The lines of a run of texts are the lines of each text, one text after the other: adding
/// a text adds just its lines.
pub proof fn lemma_lines_of_each_push(texts: Seq<Seq<char>>, t: Seq<char>)
    ensures
        lines_of_each(Seq::<Seq<char>>::empty()) == Seq::<Seq<char>>::empty(),
        lines_of_each(texts.push(t)) == lines_of_each(texts) + lines_of(t),
        lines_of_each(seq![t]) == lines_of(t),
{
    let f = |x: Seq<char>| lines_of(x);
    assert(Seq::<Seq<char>>::empty().map_values(f) =~= Seq::<Seq<Seq<char>>>::empty());
    assert(texts.push(t).map_values(f) =~= texts.map_values(f).push(lines_of(t)));
    texts.map_values(f).lemma_flatten_push(lines_of(t));
    assert(seq![t].map_values(f) =~= seq![lines_of(t)]);
    seq![lines_of(t)].lemma_flatten_singleton();
}

/// `std`'s `String::push`: appends `c` to `s`.
#[verifier::external_body]
fn push_char(s: &mut String, c: char)
    ensures
        final(s)@ == old(s)@.push(c),
{
    s.push(c);
}

/// The contents of a sequence of character vectors.
pub open spec fn rows(v: Seq<Vec<char>>) -> Seq<Seq<char>> {
    v.map_values(|x: Vec<char>| x@)
}

/// The string made of the characters of `cs`.
pub fn string_from_chars(cs: &Vec<char>) -> (res: String)
    ensures
        res@ == cs@,
{
    let mut res = String::new();
    let n = cs.len();
    for i in 0..n
        invariant
            n == cs@.len(),
            res@ == cs@.take(i as int),
    {
        push_char(&mut res, cs[i]);
        assert(cs@.take(i as int).push(cs@[i as int]) =~= cs@.take(i + 1));
    }
    assert(cs@.take(n as int) =~= cs@);
    res
}

fn strings_from_chars(items: &Vec<Vec<char>>) -> (res: Vec<String>)
    ensures
        res.deep_view() == rows(items@),
{
    let mut res: Vec<String> = Vec::new();
    let n = items.len();
    for i in 0..n
        invariant
            n == items@.len(),
            res.deep_view() == rows(items@).take(i as int),
    {
        let ghost before = res.deep_view();
        let s = string_from_chars(&items[i]);
        res.push(s);
        assert(res.deep_view() =~= before.push(items@[i as int]@));
        assert(rows(items@).take(i + 1) =~= rows(items@).take(i as int).push(items@[i as int]@));
    }
    assert(rows(items@).take(n as int) =~= rows(items@));
    res
}

/// The characters of `cs` from `from` up to `to`.
fn copy_range(cs: &Vec<char>, from: usize, to: usize) -> (res: Vec<char>)
    requires
        from <= to <= cs@.len(),
    ensures
        res@ == cs@.subrange(from as int, to as int),
{
    let mut res: Vec<char> = Vec::new();
    let mut i = from;
    while i < to
        invariant
            from <= i <= to <= cs@.len(),
            res@ == cs@.subrange(from as int, i as int),
        decreases to - i,
    {
        res.push(cs[i]);
        assert(res@ =~= cs@.subrange(from as int, i + 1));
        i = i + 1;
    }
    res
}

/// The lines of the character sequence `cs` (see `lines_of`).
pub(crate) fn lines_in(cs: &Vec<char>) -> (res: Vec<Vec<char>>)
    ensures
        rows(res@) == lines_of(cs@),
{
    let n = cs.len();
    let mut res: Vec<Vec<char>> = Vec::new();
    let mut start: usize = 0;
    let mut i: usize = 0;
    assert(cs@.skip(0) =~= cs@);
    assert(rows(res@) + lines_of(cs@) =~= lines_of(cs@));
    while i < n
        invariant
            n == cs@.len(),
            start <= i <= n,
            forall|j: int| start <= j < i ==> cs@[j] != '\n',
            rows(res@) + lines_of(cs@.skip(start as int)) == lines_of(cs@),
        decreases n - i,
    {
        if cs[i] == '\n' {
            let ghost rest = cs@.skip(start as int);
            let ghost before = rows(res@);
            proof {
                lemma_newline_index_is(rest, i - start);
                assert(rest.skip(i - start + 1) =~= cs@.skip(i + 1));
                assert(rest.take(i - start) =~= cs@.subrange(start as int, i as int));
            }
            let mut line = copy_range(cs, start, i);
            let len = line.len();
            if len > 0 && line[len - 1] == '\r' {
                line.pop();
                assert(line@ =~= cs@.subrange(start as int, i as int).drop_last());
            }
            assert(line@ == strip_cr(rest.take(i - start)));
            res.push(line);
            proof {
                let later = lines_of(cs@.skip(i + 1));
                assert(rows(res@) =~= before.push(line@));
                assert(lines_of(rest) == seq![line@] + later);
                assert(before.push(line@) + later =~= before + (seq![line@] + later));
            }
            start = i + 1;
        }
        i = i + 1;
    }
    if start < n {
        let ghost rest = cs@.skip(start as int);
        let ghost before = rows(res@);
        proof {
            lemma_newline_index_is(rest, rest.len() as int);
        }
        let line = copy_range(cs, start, n);
        assert(line@ =~= rest);
        res.push(line);
        assert(rows(res@) =~= before + lines_of(rest));
    } else {
        assert(cs@.skip(start as int) =~= Seq::<char>::empty());
        assert(rows(res@) + Seq::<Seq<char>>::empty() =~= rows(res@));
    }
    res
}

/// The words of the character sequence `cs` (see `words_of`).
pub(crate) fn words_in(cs: &Vec<char>) -> (res: Vec<Vec<char>>)
    ensures
        rows(res@) == words_of(cs@),
{
    let n = cs.len();
    let mut res: Vec<Vec<char>> = Vec::new();
    let mut i: usize = 0;
    assert(cs@.skip(0) =~= cs@);
    assert(rows(res@) + words_of(cs@) =~= words_of(cs@));
    while i < n
        invariant
            n == cs@.len(),
            i <= n,
            rows(res@) + words_of(cs@.skip(i as int)) == words_of(cs@),
        decreases n - i,
    {
        if is_whitespace(cs[i]) {
            assert(cs@.skip(i as int).drop_first() =~= cs@.skip(i + 1));
            i = i + 1;
        } else {
            let start = i;
            let ghost rest = cs@.skip(start as int);
            let ghost before = rows(res@);
            while i < n && !is_whitespace(cs[i])
                invariant
                    n == cs@.len(),
                    start < i || i == start,
                    start <= i <= n,
                    start < n,
                    !is_white_space(cs@[start as int]),
                    forall|j: int| start <= j < i ==> !is_white_space(#[trigger] cs@[j]),
                decreases n - i,
            {
                i = i + 1;
            }
            proof {
                assert forall|j: int| 0 <= j < i - start implies !is_white_space(#[trigger] rest[j]) by {
                    assert(rest[j] == cs@[start + j]);
                }
                lemma_word_len_is(rest, i - start);
                assert(rest.take(i - start) =~= cs@.subrange(start as int, i as int));
                assert(rest.skip(i - start) =~= cs@.skip(i as int));
            }
            let word = copy_range(cs, start, i);
            res.push(word);
            proof {
                let later = words_of(cs@.skip(i as int));
                assert(rows(res@) =~= before.push(word@));
                assert(words_of(rest) == seq![word@] + later);
                assert(before.push(word@) + later =~= before + (seq![word@] + later));
            }
        }
    }
    assert(cs@.skip(n as int) =~= Seq::<char>::empty());
    assert(rows(res@) + Seq::<Seq<char>>::empty() =~= rows(res@));
    res
}

/// The lines of `text`, as `str::lines` gives them.
pub fn text_lines(text: &str) -> (res: Vec<String>)
    ensures
        res.deep_view() == lines_of(text@),
{
    let cs = chars_of(text);
    let lines = lines_in(&cs);
    strings_from_chars(&lines)
}

/// The words of `text`, as `str::split_whitespace` gives them.
pub fn text_words(text: &str) -> (res: Vec<String>)
    ensures
        res.deep_view() == words_of(text@),
{
    let cs = chars_of(text);
    let words = words_in(&cs);
    strings_from_chars(&words)
}

/// The lines of every text in `texts`, one text after the other.
pub open spec fn lines_of_each(texts: Seq<Seq<char>>) -> Seq<Seq<char>> {
    texts.map_values(|t: Seq<char>| lines_of(t)).flatten()
}

/// The lines of all of `texts`, in order: each text is cut into lines as `str::lines` does.
pub fn all_lines(texts: &Vec<String>) -> (res: Vec<String>)
    ensures
        res.deep_view() == lines_of_each(texts.deep_view()),
{
    let mut res: Vec<String> = Vec::new();
    let n = texts.len();
    for i in 0..n
        invariant
            n == texts@.len(),
            res.deep_view() == lines_of_each(texts.deep_view().take(i as int)),
    {
        let lines = text_lines(texts[i].as_str());
        let ghost before = res.deep_view();
        let m = lines.len();
        for j in 0..m
            invariant
                m == lines@.len(),
                res.deep_view() == before + lines.deep_view().take(j as int),
        {
            let ghost prev = res.deep_view();
            let line = lines[j].clone();
            res.push(line);
            assert(res.deep_view() =~= prev.push(lines.deep_view()[j as int]));
            assert(lines.deep_view().take(j + 1) =~= lines.deep_view().take(j as int).push(
                lines.deep_view()[j as int],
            ));
        }
        proof {
            let t = texts.deep_view();
            let f = |x: Seq<char>| lines_of(x);
            assert(lines.deep_view().take(m as int) =~= lines.deep_view());
            assert(t.take(i + 1).map_values(f) =~= t.take(i as int).map_values(f).push(
                lines_of(t[i as int]),
            ));
            t.take(i as int).map_values(f).lemma_flatten_push(lines_of(t[i as int]));
        }
    }
    assert(texts.deep_view().take(n as int) =~= texts.deep_view());
    res
}

} // verus!
