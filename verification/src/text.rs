//! Text as sequences of characters: spans, lines, words, segments and
//! substring search.
use vstd::prelude::*;
use vstd::slice::slice_subrange;

verus! {

/// Appending one character to a `String` (`String::push`): the character
/// becomes the last one and nothing else changes.
pub assume_specification[ String::push ](s: &mut String, ch: char)
    ensures
        final(s)@ == old(s)@.push(ch),
;

/// The characters that separate words: the Unicode property `White_Space`.
pub open spec fn is_space(c: char) -> bool {
    ||| '\u{9}' <= c <= '\u{d}'
    ||| c == ' '
    ||| c == '\u{85}'
    ||| c == '\u{a0}'
    ||| c == '\u{1680}'
    ||| '\u{2000}' <= c <= '\u{200a}'
    ||| c == '\u{2028}'
    ||| c == '\u{2029}'
    ||| c == '\u{202f}'
    ||| c == '\u{205f}'
    ||| c == '\u{3000}'
}

/// Whether `c` separates words.
pub fn space(c: char) -> (r: bool)
    ensures
        r == is_space(c),
{
    ('\u{9}' <= c && c <= '\u{d}') || c == ' ' || c == '\u{85}' || c == '\u{a0}' || c == '\u{1680}'
        || ('\u{2000}' <= c && c <= '\u{200a}') || c == '\u{2028}' || c == '\u{2029}' || c
        == '\u{202f}' || c == '\u{205f}' || c == '\u{3000}'
}

/// The predicate that holds of every character but `c`.
pub open spec fn other_than(c: char) -> spec_fn(char) -> bool {
    |x: char| x != c
}

/// The predicate that holds of `c` alone.
pub open spec fn just(c: char) -> spec_fn(char) -> bool {
    |x: char| x == c
}

/// The predicate that holds of the characters separating words.
pub open spec fn spacing() -> spec_fn(char) -> bool {
    |x: char| is_space(x)
}

/// The predicate that holds of the characters words are made of.
pub open spec fn wordy() -> spec_fn(char) -> bool {
    |x: char| !is_space(x)
}

/// The length of the longest prefix of `s` whose characters all satisfy `p`.
pub open spec fn span(s: Seq<char>, p: spec_fn(char) -> bool) -> nat
    decreases s.len(),
{
    if s.len() == 0 || !p(s[0]) {
        0
    } else {
        1 + span(s.skip(1), p)
    }
}

/// `n` is the span when the first `n` characters satisfy `p` and the next
/// one, if there is one, does not.
pub proof fn lemma_span_is(s: Seq<char>, p: spec_fn(char) -> bool, n: nat)
    requires
        n <= s.len(),
        forall|j: int| 0 <= j < n ==> p(#[trigger] s[j]),
        n < s.len() ==> !p(s[n as int]),
    ensures
        span(s, p) == n,
    decreases s.len(),
{
    if s.len() > 0 && p(s[0]) {
        let t = s.skip(1);
        assert forall|j: int| 0 <= j < n - 1 implies p(#[trigger] t[j]) by {
            assert(t[j] == s[j + 1]);
        }
        lemma_span_is(t, p, (n - 1) as nat);
    }
}

/// What a span is: everything before it satisfies `p`, and the character
/// that ends it does not.
pub proof fn lemma_span(s: Seq<char>, p: spec_fn(char) -> bool)
    ensures
        span(s, p) <= s.len(),
        forall|j: int| 0 <= j < span(s, p) ==> p(#[trigger] s[j]),
        span(s, p) < s.len() ==> !p(s[span(s, p) as int]),
    decreases s.len(),
{
    if s.len() > 0 && p(s[0]) {
        let t = s.skip(1);
        lemma_span(t, p);
        assert forall|j: int| 0 <= j < span(s, p) implies p(#[trigger] s[j]) by {
            if j > 0 {
                assert(t[j - 1] == s[j]);
            }
        }
    }
}

/// The characters of `s`, in order.
pub fn chars_of(s: &str) -> (r: Vec<char>)
    ensures
        r@ == s@,
{
    let mut r: Vec<char> = Vec::new();
    for c in it: s.chars()
        invariant
            it.seq() == s@,
            r@ == it.seq().take(it.index()),
    {
        r.push(c);
    }
    r
}

/// The string made of the given characters.
pub fn string_of(chars: &[char]) -> (r: String)
    ensures
        r@ == chars@,
{
    let mut r = String::new();
    let mut i: usize = 0;
    while i < chars.len()
        invariant
            i <= chars.len(),
            r@ == chars@.take(i as int),
        decreases chars.len() - i,
    {
        r.push(chars[i]);
        i += 1;
        assert(chars@.take(i as int) =~= chars@.take(i - 1).push(chars@[i - 1]));
    }
    assert(chars@.take(i as int) =~= chars@);
    r
}

/// Whether the characters spell `text`.
pub fn spells(chars: &[char], text: &str) -> (r: bool)
    ensures
        r == (chars@ == text@),
{
    let other = chars_of(text);
    if chars.len() != other.len() {
        return false;
    }
    let mut i: usize = 0;
    while i < chars.len()
        invariant
            i <= chars.len(),
            chars.len() == other.len(),
            other@ == text@,
            chars@.take(i as int) == other@.take(i as int),
        decreases chars.len() - i,
    {
        if chars[i] != other[i] {
            assert(chars@[i as int] != other@[i as int]);
            return false;
        }
        i += 1;
        assert(chars@.take(i as int) =~= chars@.take(i - 1).push(chars@[i - 1]));
        assert(other@.take(i as int) =~= other@.take(i - 1).push(other@[i - 1]));
    }
    assert(chars@.take(i as int) =~= chars@);
    assert(other@.take(i as int) =~= other@);
    true
}

/// How many characters come before the first `c`: all of them when `c` does
/// not occur.
pub fn until(s: &[char], c: char) -> (n: usize)
    ensures
        n == span(s@, other_than(c)),
        n <= s@.len(),
{
    let mut n: usize = 0;
    while n < s.len() && s[n] != c
        invariant
            n <= s.len(),
            forall|j: int| 0 <= j < n ==> #[trigger] s@[j] != c,
        decreases s.len() - n,
    {
        n += 1;
    }
    proof {
        lemma_span_is(s@, other_than(c), n as nat);
    }
    n
}

/// How many times `c` stands at the start.
pub fn leading(s: &[char], c: char) -> (n: usize)
    ensures
        n == span(s@, just(c)),
        n <= s@.len(),
{
    let mut n: usize = 0;
    while n < s.len() && s[n] == c
        invariant
            n <= s.len(),
            forall|j: int| 0 <= j < n ==> #[trigger] s@[j] == c,
        decreases s.len() - n,
    {
        n += 1;
    }
    proof {
        lemma_span_is(s@, just(c), n as nat);
    }
    n
}

/// How many characters stand before the first word.
pub fn blank(s: &[char]) -> (n: usize)
    ensures
        n == span(s@, spacing()),
        n <= s@.len(),
{
    let mut n: usize = 0;
    while n < s.len() && space(s[n])
        invariant
            n <= s.len(),
            forall|j: int| 0 <= j < n ==> is_space(#[trigger] s@[j]),
        decreases s.len() - n,
    {
        n += 1;
    }
    proof {
        lemma_span_is(s@, spacing(), n as nat);
    }
    n
}

/// How many characters the word at the start has.
pub fn word(s: &[char]) -> (n: usize)
    ensures
        n == span(s@, wordy()),
        n <= s@.len(),
{
    let mut n: usize = 0;
    while n < s.len() && !space(s[n])
        invariant
            n <= s.len(),
            forall|j: int| 0 <= j < n ==> !is_space(#[trigger] s@[j]),
        decreases s.len() - n,
    {
        n += 1;
    }
    proof {
        lemma_span_is(s@, wordy(), n as nat);
    }
    n
}

/// The pieces of `s` between occurrences of `sep`: one more than there are
/// occurrences, in order, empty ones kept.
pub open spec fn split(s: Seq<char>, sep: char) -> Seq<Seq<char>>
    decreases s.len(),
{
    let n = span(s, other_than(sep));
    if n < s.len() {
        seq![s.take(n as int)] + split(s.skip(n as int + 1), sep)
    } else {
        seq![s]
    }
}

/// The pieces put together again with `sep` between them.
pub open spec fn join(parts: Seq<Seq<char>>, sep: char) -> Seq<char>
    decreases parts.len(),
{
    if parts.len() == 0 {
        seq![]
    } else if parts.len() == 1 {
        parts[0]
    } else {
        parts[0] + seq![sep] + join(parts.skip(1), sep)
    }
}

/// Splitting loses nothing: joining the pieces gives the text back, and no
/// piece holds the separator.
pub proof fn lemma_split_join(s: Seq<char>, sep: char)
    ensures
        split(s, sep).len() >= 1,
        join(split(s, sep), sep) == s,
        forall|i: int| 0 <= i < split(s, sep).len() ==> !(#[trigger] split(s, sep)[i]).contains(sep),
    decreases s.len(),
{
    let n = span(s, other_than(sep));
    lemma_span(s, other_than(sep));
    let parts = split(s, sep);
    if n < s.len() {
        let rest = s.skip(n as int + 1);
        lemma_split_join(rest, sep);
        assert(parts.skip(1) =~= split(rest, sep));
        assert(s =~= s.take(n as int) + seq![sep] + rest);
        assert forall|i: int| 0 <= i < parts.len() implies !(#[trigger] parts[i]).contains(sep) by {
            if i > 0 {
                assert(parts[i] == split(rest, sep)[i - 1]);
            }
        }
    }
}

/// A text without the separator is its own only piece.
pub proof fn lemma_split_single(s: Seq<char>, sep: char)
    requires
        !s.contains(sep),
    ensures
        split(s, sep) == seq![s],
{
    lemma_span_is(s, other_than(sep), s.len());
}

/// What stands before the first separator is the first piece.
pub proof fn lemma_split_first(a: Seq<char>, b: Seq<char>, sep: char)
    requires
        !a.contains(sep),
    ensures
        split(a + seq![sep] + b, sep) == seq![a] + split(b, sep),
{
    let s = a + seq![sep] + b;
    assert forall|j: int| 0 <= j < a.len() implies other_than(sep)(#[trigger] s[j]) by {
        assert(s[j] == a[j]);
        assert(a.contains(a[j]));
    }
    lemma_span_is(s, other_than(sep), a.len());
    assert(s.take(a.len() as int) =~= a);
    assert(s.skip(a.len() as int + 1) =~= b);
}

/// The piece of `s` with index `k`, counted from zero; `None` when `s` has no
/// such piece.
pub fn segment(s: &[char], sep: char, k: usize) -> (r: Option<&[char]>)
    ensures
        match r {
            Some(piece) => k < split(s@, sep).len() && piece@ == split(s@, sep)[k as int],
            None => k >= split(s@, sep).len(),
        },
{
    let mut rest: &[char] = s;
    let mut i: usize = 0;
    let ghost mut before: Seq<Seq<char>> = seq![];
    assert(before + split(rest@, sep) =~= split(s@, sep));
    while i < k
        invariant
            i <= k,
            before.len() == i,
            split(s@, sep) == before + split(rest@, sep),
        decreases k - i,
    {
        let n: usize = until(rest, sep);
        if n == rest.len() {
            assert(split(rest@, sep).len() == 1);
            return None;
        }
        proof {
            let piece = rest@.take(n as int);
            let tail = rest@.skip(n as int + 1);
            assert(split(rest@, sep) == seq![piece] + split(tail, sep));
            assert(before + (seq![piece] + split(tail, sep)) =~= before.push(piece) + split(
                tail,
                sep,
            ));
            before = before.push(piece);
            assert(rest@.subrange(n + 1, rest@.len() as int) =~= tail);
        }
        rest = slice_subrange(rest, n + 1, rest.len());
        i += 1;
    }
    let n: usize = until(rest, sep);
    proof {
        assert(rest@.subrange(0, n as int) =~= rest@.take(n as int));
        assert(rest@.take(rest@.len() as int) =~= rest@);
        assert(split(s@, sep)[k as int] == split(rest@, sep)[0]);
    }
    Some(slice_subrange(rest, 0, n))
}

/// A line without the carriage return that a line feed may follow.
pub open spec fn strip_return(line: Seq<char>) -> Seq<char> {
    if line.len() > 0 && line.last() == '\r' {
        line.drop_last()
    } else {
        line
    }
}

/// The lines of `s`: what line feeds end, a carriage return before the line
/// feed dropped, and what is left after the last line feed unless it is empty.
pub open spec fn lines(s: Seq<char>) -> Seq<Seq<char>>
    decreases s.len(),
{
    let n = span(s, other_than('\n'));
    if s.len() == 0 {
        seq![]
    } else if n < s.len() {
        seq![strip_return(s.take(n as int))] + lines(s.skip(n as int + 1))
    } else {
        seq![s]
    }
}

/// What stands before the first line feed, without a carriage return at its
/// end, is the first line.
pub proof fn lemma_lines_first(line: Seq<char>, rest: Seq<char>)
    requires
        !line.contains('\n'),
    ensures
        lines(line + seq!['\n'] + rest) == seq![strip_return(line)] + lines(rest),
{
    let s = line + seq!['\n'] + rest;
    assert forall|j: int| 0 <= j < line.len() implies other_than('\n')(#[trigger] s[j]) by {
        assert(s[j] == line[j]);
        assert(line.contains(line[j]));
    }
    lemma_span_is(s, other_than('\n'), line.len());
    assert(s.take(line.len() as int) =~= line);
    assert(s.skip(line.len() as int + 1) =~= rest);
}

/// The lines of a text that ends with a line feed, and then those of what
/// follows, are the lines of the two together.
pub proof fn lemma_lines_append(head: Seq<char>, rest: Seq<char>)
    requires
        head.len() > 0 ==> head.last() == '\n',
    ensures
        lines(head + rest) == lines(head) + lines(rest),
        head.len() > 0 ==> lines(head).len() > 0,
    decreases head.len(),
{
    if head.len() == 0 {
        assert(head + rest =~= rest);
        assert(lines(head) + lines(rest) =~= lines(rest));
    } else {
        let n = span(head, other_than('\n'));
        lemma_span(head, other_than('\n'));
        if n == head.len() {
            assert(other_than('\n')(head[head.len() - 1]));
        }
        let line = head.take(n as int);
        let below = head.skip(n as int + 1);
        assert(!line.contains('\n')) by {
            assert forall|i: int| 0 <= i < line.len() implies line[i] != '\n' by {
                assert(other_than('\n')(head[i]));
            }
        }
        if below.len() > 0 {
            assert(below.last() == head.last());
        }
        lemma_lines_append(below, rest);
        assert(head =~= line + seq!['\n'] + below);
        assert(head + rest =~= line + seq!['\n'] + (below + rest));
        lemma_lines_first(line, below);
        lemma_lines_first(line, below + rest);
        assert(seq![strip_return(line)] + (lines(below) + lines(rest)) =~= seq![strip_return(line)]
            + lines(below) + lines(rest));
    }
}

/// The first line of a text that is not empty, and the text after it.
pub fn next_line(s: &[char]) -> (r: (&[char], &[char]))
    requires
        s@.len() > 0,
    ensures
        lines(s@) == seq![r.0@] + lines(r.1@),
        r.0@.len() <= s@.len(),
        r.1@.len() < s@.len(),
{
    let n: usize = until(s, '\n');
    if n == s.len() {
        let rest = slice_subrange(s, n, n);
        assert(lines(rest@) =~= seq![]);
        assert(lines(s@) =~= seq![s@] + lines(rest@));
        (s, rest)
    } else {
        let rest = slice_subrange(s, n + 1, s.len());
        let ghost line = s@.take(n as int);
        assert(rest@ =~= s@.skip(n as int + 1));
        if n > 0 && s[n - 1] == '\r' {
            let short = slice_subrange(s, 0, n - 1);
            assert(short@ =~= line.drop_last());
            (short, rest)
        } else {
            let whole = slice_subrange(s, 0, n);
            assert(whole@ =~= line);
            (whole, rest)
        }
    }
}

/// The words of `s`: the longest runs of characters that are not spacing.
pub open spec fn words(s: Seq<char>) -> Seq<Seq<char>>
    decreases s.len(),
{
    let t = s.skip(span(s, spacing()) as int);
    let n = span(t, wordy());
    if t.len() == 0 {
        seq![]
    } else {
        proof {
            lemma_span(s, spacing());
            lemma_span(t, wordy());
            assert(t[0] == s[span(s, spacing()) as int]);
            assert(wordy()(t[0]));
        }
        seq![t.take(n as int)] + words(t.skip(n as int))
    }
}

/// A word: one character at least, and no spacing.
pub open spec fn is_word(w: Seq<char>) -> bool {
    &&& w.len() > 0
    &&& forall|i: int| 0 <= i < w.len() ==> !is_space(#[trigger] w[i])
}

/// Characters that are all spacing.
pub open spec fn is_blank(s: Seq<char>) -> bool {
    forall|i: int| 0 <= i < s.len() ==> is_space(#[trigger] s[i])
}

/// What stands between spacing and spacing, or the end, is the first word.
pub proof fn lemma_words_first(pad: Seq<char>, w: Seq<char>, rest: Seq<char>)
    requires
        is_blank(pad),
        is_word(w),
        rest.len() > 0 ==> is_space(rest[0]),
    ensures
        words(pad + w + rest) == seq![w] + words(rest),
{
    let s = pad + w + rest;
    assert forall|j: int| 0 <= j < pad.len() implies spacing()(#[trigger] s[j]) by {
        assert(s[j] == pad[j]);
    }
    assert(s[pad.len() as int] == w[0]);
    lemma_span_is(s, spacing(), pad.len());
    let t = s.skip(pad.len() as int);
    assert(t =~= w + rest);
    assert forall|j: int| 0 <= j < w.len() implies wordy()(#[trigger] t[j]) by {
        assert(t[j] == w[j]);
    }
    lemma_span_is(t, wordy(), w.len());
    assert(t.take(w.len() as int) =~= w);
    assert(t.skip(w.len() as int) =~= rest);
}

/// The first word and the text after it; `None` when there is no word.
pub fn next_word(s: &[char]) -> (r: Option<(&[char], &[char])>)
    ensures
        match r {
            Some((w, rest)) => {
                &&& words(s@) == seq![w@] + words(rest@)
                &&& w@.len() > 0
                &&& w@.len() + rest@.len() <= s@.len()
            },
            None => words(s@).len() == 0,
        },
{
    let b: usize = blank(s);
    let t = slice_subrange(s, b, s.len());
    assert(t@ =~= s@.skip(b as int));
    let n: usize = word(t);
    proof {
        lemma_span(s@, spacing());
        if t@.len() > 0 {
            assert(t@[0] == s@[b as int]);
            assert(wordy()(t@[0]));
            assert(n > 0);
        }
    }
    if t.len() == 0 {
        None
    } else {
        let w = slice_subrange(t, 0, n);
        let rest = slice_subrange(t, n, t.len());
        assert(w@ =~= t@.take(n as int));
        assert(rest@ =~= t@.skip(n as int));
        Some((w, rest))
    }
}

/// `s` without the spacing at its start.
pub open spec fn trim_start(s: Seq<char>) -> Seq<char> {
    s.skip(span(s, spacing()) as int)
}

/// `s` without the spacing at its end.
pub open spec fn trim_end(s: Seq<char>) -> Seq<char>
    decreases s.len(),
{
    if s.len() > 0 && is_space(s.last()) {
        trim_end(s.drop_last())
    } else {
        s
    }
}

/// `s` without the spacing at either end.
pub open spec fn trim(s: Seq<char>) -> Seq<char> {
    trim_end(trim_start(s))
}

/// Trimming takes the spacing from round a word, and nothing more.
pub proof fn lemma_trim_word(before: Seq<char>, w: Seq<char>, after: Seq<char>)
    requires
        is_blank(before),
        is_word(w),
        is_blank(after),
    ensures
        trim(before + w + after) == w,
{
    let s = before + w + after;
    assert forall|j: int| 0 <= j < before.len() implies spacing()(#[trigger] s[j]) by {
        assert(s[j] == before[j]);
    }
    assert(s[before.len() as int] == w[0]);
    lemma_span_is(s, spacing(), before.len());
    assert(s.skip(before.len() as int) =~= w + after);
    lemma_trim_end_word(w, after);
}

/// Trimming the end takes the spacing after a word, and nothing more.
proof fn lemma_trim_end_word(w: Seq<char>, after: Seq<char>)
    requires
        is_word(w),
        is_blank(after),
    ensures
        trim_end(w + after) == w,
    decreases after.len(),
{
    let s = w + after;
    if after.len() == 0 {
        assert(s =~= w);
        assert(s.last() == w[w.len() - 1]);
    } else {
        assert(s.last() == after[after.len() - 1]);
        assert(s.drop_last() =~= w + after.drop_last());
        lemma_trim_end_word(w, after.drop_last());
    }
}

/// `s` without the spacing at either end.
pub fn trimmed(s: &[char]) -> (r: &[char])
    ensures
        r@ == trim(s@),
{
    let b: usize = blank(s);
    let t = slice_subrange(s, b, s.len());
    assert(t@ =~= trim_start(s@));
    let mut n: usize = t.len();
    assert(t@.take(n as int) =~= t@);
    while n > 0 && space(t[n - 1])
        invariant
            n <= t@.len(),
            trim_end(t@) == trim_end(t@.take(n as int)),
        decreases n,
    {
        assert(t@.take(n as int).drop_last() =~= t@.take(n - 1));
        n -= 1;
    }
    let r = slice_subrange(t, 0, n);
    assert(r@ =~= t@.take(n as int));
    r
}

/// `pat` stands in `s` at index `i`.
pub open spec fn occurs_at<T>(s: Seq<T>, pat: Seq<T>, i: int) -> bool {
    &&& 0 <= i <= s.len() - pat.len()
    &&& s.subrange(i, i + pat.len()) == pat
}

/// `pat` stands somewhere in `s`.
pub open spec fn occurs<T>(s: Seq<T>, pat: Seq<T>) -> bool {
    exists|i: int| occurs_at(s, pat, i)
}

/// Whether `text` stands somewhere in the characters.
pub fn mentions(s: &[char], text: &str) -> (r: bool)
    ensures
        r == occurs(s@, text@),
{
    let pat = chars_of(text);
    if s.len() < pat.len() {
        return false;
    }
    let last: usize = s.len() - pat.len();
    let mut i: usize = 0;
    while i < last
        invariant
            pat@ == text@,
            last + pat.len() == s.len(),
            i <= last,
            forall|j: int| 0 <= j < i ==> !occurs_at(s@, pat@, j),
        decreases last - i,
    {
        let piece = slice_subrange(s, i, i + pat.len());
        if spells(piece, text) {
            assert(occurs_at(s@, text@, i as int));
            return true;
        }
        i += 1;
    }
    let piece = slice_subrange(s, last, s.len());
    let r: bool = spells(piece, text);
    assert(r == occurs_at(s@, text@, last as int));
    r
}

/// `c` as a lower-case letter when it is an ASCII capital, else `c` itself.
pub open spec fn ascii_lower(c: char) -> char {
    if 'A' <= c <= 'Z' {
        ((c as u8 + 32) as u8) as char
    } else {
        c
    }
}

/// `s` starts with `prefix`, the case of ASCII letters in `s` set aside.
pub open spec fn starts_with_folded(s: Seq<char>, prefix: Seq<char>) -> bool {
    &&& prefix.len() <= s.len()
    &&& forall|i: int| 0 <= i < prefix.len() ==> ascii_lower(#[trigger] s[i]) == prefix[i]
}

/// `c` as a lower-case letter when it is an ASCII capital, else `c` itself.
pub fn fold(c: char) -> (r: char)
    ensures
        r == ascii_lower(c),
{
    if 'A' <= c && c <= 'Z' {
        ((c as u8) + 32) as char
    } else {
        c
    }
}

/// Whether the characters start with `prefix`, the case of ASCII letters set
/// aside.
pub fn opens_with(s: &[char], prefix: &str) -> (r: bool)
    ensures
        r == starts_with_folded(s@, prefix@),
{
    let want = chars_of(prefix);
    if s.len() < want.len() {
        return false;
    }
    let mut i: usize = 0;
    while i < want.len()
        invariant
            want@ == prefix@,
            want.len() <= s.len(),
            i <= want.len(),
            forall|j: int| 0 <= j < i ==> ascii_lower(#[trigger] s@[j]) == want@[j],
        decreases want.len() - i,
    {
        if fold(s[i]) != want[i] {
            assert(ascii_lower(s@[i as int]) != want@[i as int]);
            return false;
        }
        i += 1;
    }
    true
}

/// The lines of a text, from its first line on: a line ends with a line feed or
/// with a carriage return and a line feed, and neither is part of it; what is
/// left after the last line feed is a line unless it is empty.
pub proof fn lemma_lines(line: Seq<char>, rest: Seq<char>)
    requires
        !line.contains('\n'),
    ensures
        lines(line + seq!['\r', '\n'] + rest) == seq![line] + lines(rest),
        line.len() == 0 || line.last() != '\r' ==> lines(line + seq!['\n'] + rest) == seq![line]
            + lines(rest),
        line.len() > 0 ==> lines(line) == seq![line],
        lines(Seq::<char>::empty()) == Seq::<Seq<char>>::empty(),
{
    let returned = line.push('\r');
    assert(line + seq!['\r', '\n'] + rest =~= returned + seq!['\n'] + rest);
    assert(returned.drop_last() =~= line);
    lemma_lines_first(returned, rest);
    lemma_lines_first(line, rest);
    assert forall|j: int| 0 <= j < line.len() implies other_than('\n')(#[trigger] line[j]) by {
        assert(line.contains(line[j]));
    }
    lemma_span_is(line, other_than('\n'), line.len());
}

/// Every line of a text is found in it, from the start of the text or from
/// behind a line feed on.
pub proof fn lemma_line_at(text: Seq<char>, i: int) -> (j: int)
    requires
        0 <= i < lines(text).len(),
    ensures
        0 <= j <= text.len() - lines(text)[i].len(),
        j == 0 || text[j - 1] == '\n',
        text.subrange(j, j + lines(text)[i].len()) == lines(text)[i],
    decreases text.len(),
{
    let n = span(text, other_than('\n'));
    lemma_span(text, other_than('\n'));
    if n == text.len() {
        assert(text.subrange(0, text.len() as int) =~= text);
        0
    } else if i == 0 {
        assert(text.subrange(0, lines(text)[0].len() as int) =~= lines(text)[0]);
        0
    } else {
        let rest = text.skip(n as int + 1);
        let k = lemma_line_at(rest, i - 1);
        let j = n + 1 + k;
        assert(lines(text)[i] == lines(rest)[i - 1]);
        assert(text.subrange(j, j + lines(text)[i].len()) =~= rest.subrange(
            k,
            k + lines(text)[i].len(),
        ));
        if k > 0 {
            assert(rest[k - 1] == text[j - 1]);
        }
        j
    }
}

/// Spacing alone holds no word.
pub proof fn lemma_no_words(s: Seq<char>)
    requires
        forall|i: int| 0 <= i < s.len() ==> is_space(#[trigger] s[i]),
    ensures
        words(s) == Seq::<Seq<char>>::empty(),
{
    assert forall|j: int| 0 <= j < s.len() implies spacing()(#[trigger] s[j]) by {}
    lemma_span_is(s, spacing(), s.len());
}

/// Trimming takes the spacing from both ends, all of it and nothing more.
pub proof fn lemma_trim(left: Seq<char>, middle: Seq<char>, right: Seq<char>)
    requires
        forall|i: int| 0 <= i < left.len() ==> is_space(#[trigger] left[i]),
        forall|i: int| 0 <= i < right.len() ==> is_space(#[trigger] right[i]),
        middle.len() > 0 ==> !is_space(middle[0]) && !is_space(middle.last()),
    ensures
        trim(left + middle + right) == middle,
{
    let s = left + middle + right;
    if middle.len() == 0 {
        assert forall|j: int| 0 <= j < s.len() implies spacing()(#[trigger] s[j]) by {
            if j < left.len() {
                assert(s[j] == left[j]);
            } else {
                assert(s[j] == right[j - left.len()]);
            }
        }
        lemma_span_is(s, spacing(), s.len());
        assert(s.skip(s.len() as int) =~= middle);
    } else {
        assert forall|j: int| 0 <= j < left.len() implies spacing()(#[trigger] s[j]) by {
            assert(s[j] == left[j]);
        }
        assert(s[left.len() as int] == middle[0]);
        lemma_span_is(s, spacing(), left.len());
        assert(s.skip(left.len() as int) =~= middle + right);
        lemma_trim_end(middle, right);
    }
}

/// Trimming the end takes all spacing there and nothing more.
proof fn lemma_trim_end(middle: Seq<char>, right: Seq<char>)
    requires
        forall|i: int| 0 <= i < right.len() ==> is_space(#[trigger] right[i]),
        middle.len() > 0,
        !is_space(middle.last()),
    ensures
        trim_end(middle + right) == middle,
    decreases right.len(),
{
    let s = middle + right;
    if right.len() == 0 {
        assert(s =~= middle);
    } else {
        assert(s.last() == right[right.len() - 1]);
        assert(s.drop_last() =~= middle + right.drop_last());
        lemma_trim_end(middle, right.drop_last());
    }
}

/// Spacing at the end makes no difference to trimming.
pub proof fn lemma_trim_push(s: Seq<char>, c: char)
    requires
        is_space(c),
    ensures
        trim(s.push(c)) == trim(s),
{
    let n = span(s, spacing());
    lemma_span(s, spacing());
    let t = s.push(c);
    assert forall|j: int| 0 <= j < n implies spacing()(#[trigger] t[j]) by {
        assert(spacing()(s[j]));
    }
    if n < s.len() {
        assert(t[n as int] == s[n as int]);
        lemma_span_is(t, spacing(), n);
        assert(t.skip(n as int) =~= s.skip(n as int).push(c));
        assert(s.skip(n as int).push(c).drop_last() =~= s.skip(n as int));
    } else {
        lemma_span_is(t, spacing(), t.len());
        assert(t.skip(t.len() as int) =~= s.skip(n as int));
    }
}

} // verus!
