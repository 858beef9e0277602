//! Characters, lines and words of a listing.

use vstd::prelude::*;

verus! {

/// The characters that separate words: those with the Unicode property
/// `White_Space`.
pub open spec fn is_space(c: char) -> bool {
    ||| '\u{9}' <= c <= '\u{D}'
    ||| c == ' '
    ||| c == '\u{85}'
    ||| c == '\u{A0}'
    ||| c == '\u{1680}'
    ||| '\u{2000}' <= c <= '\u{200A}'
    ||| c == '\u{2028}'
    ||| c == '\u{2029}'
    ||| c == '\u{202F}'
    ||| c == '\u{205F}'
    ||| c == '\u{3000}'
}

/// Tells whether `c` separates words.
pub fn is_whitespace(c: char) -> (b: bool)
    ensures
        b == is_space(c),
{
    ('\u{9}' <= c && c <= '\u{D}') || c == ' ' || c == '\u{85}' || c == '\u{A0}' || c == '\u{1680}' || (
    '\u{2000}' <= c && c <= '\u{200A}') || c == '\u{2028}' || c == '\u{2029}' || c == '\u{202F}' || c
        == '\u{205F}' || c == '\u{3000}'
}

/// The characters of `s`, in order.
pub fn chars_of(s: &str) -> (v: Vec<char>)
    ensures
        v@ == s@,
{
    let mut v: Vec<char> = Vec::new();
    let it = s.chars();
    for c in iter: it
        invariant
            v@ == iter.seq().take(iter.index()),
            iter.seq() == s@,
    {
        v.push(c);
    }
    v
}

/// The kinds of character that a scan runs over.
#[derive(Clone, Copy, Debug)]
pub enum CharClass {
    /// Characters that separate words.
    Space,
    /// Characters that make up words.
    Word,
    /// Characters other than the line feed.
    Line,
}

/// Whether `c` is of class `k`.
pub open spec fn in_class(k: CharClass, c: char) -> bool {
    match k {
        CharClass::Space => is_space(c),
        CharClass::Word => !is_space(c),
        CharClass::Line => c != '\n',
    }
}

/// The length of the longest prefix of `s` whose characters are all of class `k`.
pub open spec fn run(s: Seq<char>, k: CharClass) -> nat
    decreases s.len(),
{
    if s.len() > 0 && in_class(k, s[0]) {
        1 + run(s.drop_first(), k)
    } else {
        0
    }
}

/// A run is the prefix that ends at the first character outside the class.
pub proof fn lemma_run_is(s: Seq<char>, k: CharClass, n: int)
    requires
        0 <= n <= s.len(),
        forall|i: int| 0 <= i < n ==> in_class(k, #[trigger] s[i]),
        n < s.len() ==> !in_class(k, s[n]),
    ensures
        run(s, k) == n,
    decreases n,
{
    if n > 0 {
        lemma_run_is(s.drop_first(), k, n - 1);
    }
}

/// A run stays inside the sequence, covers characters of its class only, and
/// cannot be extended.
pub proof fn lemma_run_bounds(s: Seq<char>, k: CharClass)
    ensures
        run(s, k) <= s.len(),
        forall|i: int| 0 <= i < run(s, k) ==> in_class(k, #[trigger] s[i]),
        run(s, k) < s.len() ==> !in_class(k, s[run(s, k) as int]),
    decreases s.len(),
{
    if s.len() > 0 && in_class(k, s[0]) {
        let t = s.drop_first();
        lemma_run_bounds(t, k);
        assert forall|i: int| 0 <= i < run(s, k) implies in_class(k, #[trigger] s[i]) by {
            if i > 0 {
                assert(s[i] == t[i - 1]);
            }
        }
        if run(s, k) < s.len() {
            assert(s[run(s, k) as int] == t[run(t, k) as int]);
        }
    }
}

/// The end of the run of class `k` that starts at `from`.
fn run_end(chars: &Vec<char>, from: usize, k: CharClass) -> (end: usize)
    requires
        from <= chars.len(),
    ensures
        from <= end <= chars.len(),
        end - from == run(chars@.skip(from as int), k),
{
    let mut end: usize = from;
    while end < chars.len() && class_holds(k, chars[end])
        invariant
            from <= end <= chars.len(),
            forall|i: int| from <= i < end ==> in_class(k, #[trigger] chars@[i]),
        decreases chars.len() - end,
    {
        end += 1;
    }
    proof {
        let s = chars@.skip(from as int);
        assert forall|i: int| 0 <= i < end - from implies in_class(k, #[trigger] s[i]) by {
            assert(s[i] == chars@[from + i]);
        }
        lemma_run_is(s, k, end - from);
    }
    end
}

/// Tells whether `c` is of class `k`.
fn class_holds(k: CharClass, c: char) -> (b: bool)
    ensures
        b == in_class(k, c),
{
    match k {
        CharClass::Space => is_whitespace(c),
        CharClass::Word => !is_whitespace(c),
        CharClass::Line => c != '\n',
    }
}

/// The words of `line`: its maximal runs of characters that are no white
/// space, from left to right.
pub open spec fn words_of(line: Seq<char>) -> Seq<Seq<char>>
    decreases line.len(),
{
    let rest = line.skip(run(line, CharClass::Space) as int);
    let n = run(rest, CharClass::Word);
    if n == 0 {
        Seq::empty()
    } else {
        proof {
            lemma_run_bounds(line, CharClass::Space);
            lemma_run_bounds(rest, CharClass::Word);
        }
        seq![rest.take(n as int)] + words_of(rest.skip(n as int))
    }
}

/// `line` without the carriage return that ends it, if one does.
pub open spec fn trim_cr(line: Seq<char>) -> Seq<char> {
    if line.len() > 0 && line.last() == '\r' {
        line.drop_last()
    } else {
        line
    }
}

/// The lines of `text`. A line ends at a line feed, or at a carriage return
/// directly before one; neither belongs to the line. What follows the last
/// line feed is a line unless it is empty, and keeps a carriage return at its
/// end.
pub open spec fn lines_of(text: Seq<char>) -> Seq<Seq<char>>
    decreases text.len(),
{
    let n = run(text, CharClass::Line);
    if text.len() == 0 {
        Seq::empty()
    } else if n >= text.len() {
        seq![text]
    } else {
        seq![trim_cr(text.take(n as int))] + lines_of(text.skip(n as int + 1))
    }
}

/// A word is not empty and holds no white space.
pub proof fn lemma_words_are_solid(line: Seq<char>, i: int)
    requires
        0 <= i < words_of(line).len(),
    ensures
        words_of(line)[i].len() > 0,
        forall|j: int| 0 <= j < words_of(line)[i].len() ==> !is_space(#[trigger] words_of(line)[i][j]),
    decreases line.len(),
{
    let rest = line.skip(run(line, CharClass::Space) as int);
    let n = run(rest, CharClass::Word);
    lemma_run_bounds(line, CharClass::Space);
    lemma_run_bounds(rest, CharClass::Word);
    if i > 0 {
        lemma_words_are_solid(rest.skip(n as int), i - 1);
    }
}

/// The words of `line`, in order.
pub fn split_words(line: &str) -> (words: Vec<String>)
    ensures
        words.deep_view() == words_of(line@),
{
    let chars = chars_of(line);
    let mut words: Vec<String> = Vec::new();
    let mut at: usize = 0;
    proof {
        assert(chars@.skip(0) == chars@);
        assert(words.deep_view() == Seq::<Seq<char>>::empty());
    }
    loop
        invariant
            chars@ == line@,
            at <= chars.len(),
            words.deep_view() + words_of(chars@.skip(at as int)) == words_of(chars@),
        decreases chars.len() - at,
    {
        let start = run_end(&chars, at, CharClass::Space);
        let end = run_end(&chars, start, CharClass::Word);
        proof {
            assert(chars@.skip(at as int).skip(start - at) == chars@.skip(start as int));
        }
        if end == start {
            proof {
                assert(words_of(chars@.skip(at as int)) == Seq::<Seq<char>>::empty());
                assert(words.deep_view() == words_of(chars@));
            }
            return words;
        }
        let word = line.substring_char(start, end).to_owned();
        proof {
            let rest = chars@.skip(start as int);
            assert(rest.take(end - start) == chars@.subrange(start as int, end as int));
            assert(rest.skip(end - start) == chars@.skip(end as int));
            assert(words.deep_view().push(word@) + words_of(chars@.skip(end as int))
                == words.deep_view() + words_of(chars@.skip(at as int)));
        }
        let ghost before = words.deep_view();
        words.push(word);
        assert(words.deep_view() == before.push(word@));
        at = end;
    }
}

/// The lines of `text`, in order.
pub fn split_lines(text: &str) -> (lines: Vec<String>)
    ensures
        lines.deep_view() == lines_of(text@),
{
    let chars = chars_of(text);
    let mut lines: Vec<String> = Vec::new();
    let mut at: usize = 0;
    proof {
        assert(chars@.skip(0) == chars@);
        assert(lines.deep_view() == Seq::<Seq<char>>::empty());
    }
    while at < chars.len()
        invariant
            chars@ == text@,
            at <= chars.len(),
            lines.deep_view() + lines_of(chars@.skip(at as int)) == lines_of(chars@),
        decreases chars.len() - at,
    {
        let end = run_end(&chars, at, CharClass::Line);
        let ghost rest = chars@.skip(at as int);
        let ghost before = lines.deep_view();
        if end == chars.len() {
            let line = text.substring_char(at, end).to_owned();
            proof {
                assert(rest == chars@.subrange(at as int, end as int));
                assert(chars@.skip(end as int) == Seq::<char>::empty());
                assert(lines_of(chars@.skip(end as int)) == Seq::<Seq<char>>::empty());
            }
            lines.push(line);
            assert(lines.deep_view() == before.push(line@));
            at = end;
        } else {
            let stop = if end > at && chars[end - 1] == '\r' {
                end - 1
            } else {
                end
            };
            let line = text.substring_char(at, stop).to_owned();
            proof {
                assert(rest.take(end - at) == chars@.subrange(at as int, end as int));
                assert(line@ == trim_cr(rest.take(end - at)));
                assert(rest.skip(end - at + 1) == chars@.skip(end + 1));
            }
            lines.push(line);
            assert(lines.deep_view() == before.push(line@));
            at = end + 1;
        }
    }
    proof {
        assert(chars@.skip(at as int) == Seq::<char>::empty());
    }
    lines
}

} // verus!
