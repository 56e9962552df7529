//! Reading an HTTP request: its first line, its `Content-Length`, and where
//! its headers end.
use vstd::prelude::*;
use vstd::utf8::{decode_utf8, valid_utf8};

use crate::number::{
    decimal, digit_value, digits, lemma_decimal_read, lemma_decimal_read_back,
    lemma_digits_read_back, parse_decimal, zeros,
};
use crate::text::{
    ascii_lower, chars_of, is_blank, is_space, is_word, lemma_line_at, lemma_lines,
    lemma_lines_append, lemma_lines_first, lemma_no_words, lemma_span, lemma_split_first,
    lemma_split_join, lemma_split_single, lemma_trim, lemma_trim_push, lemma_trim_word,
    lemma_words_first, lines, next_line, next_word, occurs, occurs_at, opens_with, other_than,
    segment, span, split, starts_with_folded, string_of, strip_return, trim, trimmed, words,
};

verus! {

/// The text that `String::from_utf8_lossy` makes of bytes.
pub uninterp spec fn utf8_lossy(bytes: Seq<u8>) -> Seq<char>;

/// Reads bytes as UTF-8 (`String::from_utf8_lossy`). Bytes that are valid
/// UTF-8 give the text they encode; elsewhere every invalid sequence becomes
/// one replacement character. A character of the result stands for one byte
/// at least, so the text is never longer than the bytes. Where the invalid
/// sequences begin and end is left to the name `utf8_lossy`.
#[verifier::external_body]
pub(crate) fn decode_lossy(bytes: &[u8]) -> (text: String)
    ensures
        text@ == utf8_lossy(bytes@),
        valid_utf8(bytes@) ==> text@ == decode_utf8(bytes@),
        text@.len() <= bytes@.len(),
{
    String::from_utf8_lossy(bytes).into_owned()
}

/// The method and the path that the first line of a request names: its first
/// two words.
pub open spec fn request_line(text: Seq<char>) -> Option<(Seq<char>, Seq<char>)> {
    if lines(text).len() == 0 {
        None
    } else {
        let w = words(lines(text)[0]);
        if w.len() >= 2 {
            Some((w[0], w[1]))
        } else {
            None
        }
    }
}

/// A request line that may be missing, as contracts speak of it.
pub open spec fn request_view(request: Option<(String, String)>) -> Option<(Seq<char>, Seq<char>)> {
    match request {
        Some((method, path)) => Some((method@, path@)),
        None => None,
    }
}

/// The method and the path of a request, or `None` when its first line has
/// fewer than two words.
pub fn parse_http_request(data: &str) -> (r: Option<(String, String)>)
    ensures
        request_view(r) == request_line(data@),
        r matches Some((method, path)) ==> method@.len() + path@.len() <= data@.len(),
{
    let text = chars_of(data);
    if text.len() == 0 {
        assert(lines(text@) =~= seq![]);
        return None;
    }
    let (line, _) = next_line(text.as_slice());
    assert(lines(data@)[0] == line@);
    match next_word(line) {
        None => None,
        Some((method, after)) => match next_word(after) {
            None => {
                assert(words(line@).len() == 1);
                None
            },
            Some((path, _)) => {
                assert(words(line@)[0] == method@);
                assert(words(line@)[1] == path@);
                Some((string_of(method), string_of(path)))
            },
        },
    }
}

/// A text whose first line begins with two words, with spacing before them if
/// any and between them, and followed by spacing or by nothing, is a request
/// with these for its method and its path, whatever else it holds.
pub proof fn lemma_request_line(
    pad: Seq<char>,
    method: Seq<char>,
    gap: Seq<char>,
    path: Seq<char>,
    rest: Seq<char>,
)
    requires
        is_blank(pad),
        !pad.contains('\n'),
        is_word(method),
        is_word(path),
        is_blank(gap),
        gap.len() > 0,
        !gap.contains('\n'),
        rest.len() > 0 ==> is_space(rest[0]),
    ensures
        request_line(pad + method + gap + path + rest) == Some((method, path)),
{
    let head = pad + method + gap + path;
    let text = head + rest;
    assert forall|j: int| 0 <= j < head.len() implies other_than('\n')(#[trigger] text[j]) by {
        let k = j - pad.len();
        if k < 0 {
            assert(text[j] == pad[j]);
            assert(pad.contains(text[j]));
        } else if k < method.len() {
            assert(text[j] == method[k]);
        } else if k < method.len() + gap.len() {
            assert(text[j] == gap[k - method.len()]);
            assert(gap.contains(text[j]));
        } else {
            assert(text[j] == path[k - method.len() - gap.len()]);
        }
    }
    let n = span(text, other_than('\n'));
    lemma_span(text, other_than('\n'));
    if n < head.len() {
        assert(other_than('\n')(text[n as int]));
    }
    let line = lines(text)[0];
    let m = line.len();
    assert(m >= head.len()) by {
        if n < text.len() && m < n && n == head.len() {
            let cut = text.take(n as int);
            assert(cut.last() == path[path.len() - 1]);
        }
    }
    assert(line =~= text.take(m as int));
    let tail = line.skip(head.len() as int);
    assert(tail.len() > 0 ==> tail[0] == rest[0]);
    assert(line =~= pad + method + (gap + path + tail));
    lemma_words_first(pad, method, gap + path + tail);
    lemma_words_first(gap, path, tail);
    assert(words(line)[0] == method);
    assert(words(line)[1] == path);
}

/// Only the first line of a request says what it is: what follows a line feed
/// has no say in it.
pub proof fn lemma_first_line_counts(head: Seq<char>, rest: Seq<char>)
    requires
        head.len() > 0,
        head.last() == '\n',
    ensures
        request_line(head + rest) == request_line(head),
{
    lemma_lines_append(head, rest);
}

/// The lower-case name of the header that tells the length of the body.
pub open spec fn length_header() -> Seq<char> {
    "content-length:"@
}

/// The length that the first `Content-Length` line among `ls` states: what
/// stands after its first colon, up to a second one; `None` when there is no
/// such line, or when that text is no number of the machine's word size.
pub open spec fn length_among(ls: Seq<Seq<char>>) -> Option<nat>
    decreases ls.len(),
{
    if ls.len() == 0 {
        None
    } else if starts_with_folded(ls[0], length_header()) {
        parse_decimal(trim(split(ls[0], ':')[1]), usize::MAX as nat)
    } else {
        length_among(ls.skip(1))
    }
}

/// The length that the `Content-Length` header of a request states.
pub open spec fn content_length(text: Seq<char>) -> Option<nat> {
    length_among(lines(text))
}

/// How many bytes of body are to come by a stated length: none without one.
pub open spec fn body_length(length: Option<nat>) -> usize {
    match length {
        Some(n) => n as usize,
        None => 0,
    }
}

/// A length that may be missing, as contracts speak of it.
pub open spec fn length_view(length: Option<usize>) -> Option<nat> {
    match length {
        Some(n) => Some(n as nat),
        None => None,
    }
}

/// A `Content-Length` line has a second piece after its first colon.
proof fn lemma_length_line(line: Seq<char>)
    requires
        starts_with_folded(line, length_header()),
    ensures
        split(line, ':').len() >= 2,
{
    reveal_strlit("content-length:");
    let c = line[14];
    assert(ascii_lower(c) == ':');
    assert(c == ':');
    lemma_span(line, other_than(':'));
    let n = span(line, other_than(':'));
    if n == line.len() {
        assert(other_than(':')(line[14]));
    }
    lemma_split_join(line.skip(n as int + 1), ':');
}

/// The length that the `Content-Length` header of a request states, its name
/// in any case. The first line with that name counts, wherever it stands. No
/// letter outside ASCII has a lower-case form that occurs in the name, so
/// folding ASCII letters alone finds every spelling.
pub fn extract_content_length(data: &str) -> (r: Option<usize>)
    ensures
        length_view(r) == content_length(data@),
{
    let text = chars_of(data);
    let mut rest: &[char] = text.as_slice();
    while rest.len() > 0
        invariant
            content_length(data@) == length_among(lines(rest@)),
        decreases rest.len(),
    {
        let (line, after) = next_line(rest);
        assert(lines(rest@)[0] == line@);
        assert(lines(rest@).skip(1) =~= lines(after@));
        if opens_with(line, "content-length:") {
            proof {
                lemma_length_line(line@);
            }
            return match segment(line, ':', 1) {
                Some(value) => match decimal(trimmed(value), usize::MAX as u64) {
                    Some(n) => Some(n as usize),
                    None => None,
                },
                None => None,
            };
        }
        rest = after;
    }
    assert(lines(rest@) =~= seq![]);
    None
}

/// A length written in decimal after the name of the header, the name in any
/// case and the number with any spacing round it, is read back, if no earlier
/// line has that name.
pub proof fn lemma_length_read_back(
    before: Seq<Seq<char>>,
    name: Seq<char>,
    left: Seq<char>,
    n: nat,
    right: Seq<char>,
    after: Seq<Seq<char>>,
)
    requires
        forall|i: int|
            0 <= i < before.len() ==> !starts_with_folded(#[trigger] before[i], length_header()),
        name.len() == length_header().len(),
        starts_with_folded(name, length_header()),
        is_blank(left),
        is_blank(right),
        n <= usize::MAX,
    ensures
        length_among(before + seq![name + left + digits(n, 10) + right] + after) == Some(n),
    decreases before.len(),
{
    let line = name + left + digits(n, 10) + right;
    let ls = before + seq![line] + after;
    if before.len() > 0 {
        assert(ls[0] == before[0]);
        assert(ls.skip(1) =~= before.skip(1) + seq![line] + after);
        assert forall|i: int| 0 <= i < before.skip(1).len() implies !starts_with_folded(
            #[trigger] before.skip(1)[i],
            length_header(),
        ) by {
            assert(before.skip(1)[i] == before[i + 1]);
        }
        lemma_length_read_back(before.skip(1), name, left, n, right, after);
    } else {
        assert(ls[0] == line);
        lemma_length_value(name, left, n, right);
    }
}

/// What a `Content-Length` line states.
proof fn lemma_length_value(name: Seq<char>, left: Seq<char>, n: nat, right: Seq<char>)
    requires
        name.len() == length_header().len(),
        starts_with_folded(name, length_header()),
        is_blank(left),
        is_blank(right),
        n <= usize::MAX,
    ensures
        starts_with_folded(name + left + digits(n, 10) + right, length_header()),
        parse_decimal(
            trim(split(name + left + digits(n, 10) + right, ':')[1]),
            usize::MAX as nat,
        ) == Some(n),
{
    reveal_strlit("content-length:");
    let number = digits(n, 10);
    let line = name + left + number + right;
    let value = left + number + right;
    let label = name.take(14);
    lemma_digits_read_back(n, 10);
    lemma_decimal_read_back(n, usize::MAX as nat);
    assert(name[14] == ':') by {
        assert(ascii_lower(name[14]) == length_header()[14]);
    }
    assert(!label.contains(':')) by {
        assert forall|i: int| 0 <= i < 14 implies label[i] != ':' by {
            assert(ascii_lower(name[i]) == length_header()[i]);
        }
    }
    assert forall|i: int| 0 <= i < number.len() implies !is_space(#[trigger] number[i]) && number[i]
        != ':' by {
        assert(digit_value(number[i], 10) is Some);
    }
    assert(!value.contains(':')) by {
        assert forall|i: int| 0 <= i < value.len() implies value[i] != ':' by {
            if i < left.len() {
                assert(value[i] == left[i]);
            } else if i < left.len() + number.len() {
                assert(value[i] == number[i - left.len()]);
            } else {
                assert(value[i] == right[i - left.len() - number.len()]);
            }
        }
    }
    assert(line =~= label + seq![':'] + value);
    lemma_split_first(label, value, ':');
    lemma_split_single(value, ':');
    assert(split(line, ':')[1] == value);
    lemma_trim_word(left, number, right);
}

/// A request whose first header is its length, written as HTTP does, has that
/// length, whatever follows.
pub proof fn lemma_content_length(
    first: Seq<char>,
    name: Seq<char>,
    n: nat,
    rest: Seq<char>,
)
    requires
        !first.contains('\n'),
        !starts_with_folded(first, length_header()),
        name.len() == length_header().len(),
        starts_with_folded(name, length_header()),
        n <= usize::MAX,
    ensures
        content_length(
            first + seq!['\r', '\n'] + name + seq![' '] + digits(n, 10) + seq!['\r', '\n'] + rest,
        ) == Some(n),
{
    reveal_strlit("content-length:");
    let number = digits(n, 10);
    let header = name + seq![' '] + number;
    let text = first + seq!['\r', '\n'] + name + seq![' '] + number + seq!['\r', '\n'] + rest;
    let below = header.push('\r') + seq!['\n'] + rest;
    lemma_digits_read_back(n, 10);
    assert forall|i: int| 0 <= i < header.len() implies header[i] != '\n' by {
        if i < name.len() {
            assert(header[i] == name[i]);
            assert(ascii_lower(name[i]) == length_header()[i]);
        } else if i > name.len() {
            assert(header[i] == number[i - name.len() - 1]);
            assert(digit_value(number[i - name.len() - 1], 10) is Some);
        }
    }
    assert(text =~= first.push('\r') + seq!['\n'] + below);
    lemma_lines_first(first.push('\r'), below);
    lemma_lines_first(header.push('\r'), rest);
    assert(strip_return(first.push('\r')) =~= first);
    assert(strip_return(header.push('\r')) =~= header);
    let line = name + seq![' '] + number + Seq::<char>::empty();
    assert(header =~= line);
    assert(lines(text) =~= seq![first] + seq![line] + lines(rest));
    lemma_length_read_back(seq![first], name, seq![' '], n, seq![], lines(rest));
}

/// Once a line has the name of the length header, no later line has a say in
/// the length.
pub proof fn lemma_length_decided(
    ls: Seq<Seq<char>>,
    decisive: int,
    more: Seq<Seq<char>>,
)
    requires
        0 <= decisive < ls.len(),
        starts_with_folded(ls[decisive], length_header()),
    ensures
        length_among(ls + more) == length_among(ls),
    decreases ls.len(),
{
    assert((ls + more)[0] == ls[0]);
    if !starts_with_folded(ls[0], length_header()) {
        assert((ls + more).skip(1) =~= ls.skip(1) + more);
        assert(ls.skip(1)[decisive - 1] == ls[decisive]);
        lemma_length_decided(ls.skip(1), decisive - 1, more);
    }
}

/// What follows the headers of a request that state a length has no say in
/// it.
pub proof fn lemma_length_kept(head: Seq<char>, decisive: int, rest: Seq<char>)
    requires
        head.len() > 0,
        head.last() == '\n',
        0 <= decisive < lines(head).len(),
        starts_with_folded(lines(head)[decisive], length_header()),
    ensures
        content_length(head + rest) == content_length(head),
{
    lemma_lines_append(head, rest);
    lemma_length_decided(lines(head), decisive, lines(rest));
}

/// The length that the `Content-Length` header among the given bytes states.
pub fn extract_content_length_from_bytes(data: &[u8]) -> (r: Option<usize>)
    ensures
        length_view(r) == content_length(utf8_lossy(data@)),
        valid_utf8(data@) ==> length_view(r) == content_length(decode_utf8(data@)),
{
    let text = decode_lossy(data);
    extract_content_length(text.as_str())
}

/// `pat` stands in `s` at `i` and nowhere before.
pub open spec fn first_at<T>(s: Seq<T>, pat: Seq<T>, i: int) -> bool {
    &&& occurs_at(s, pat, i)
    &&& forall|j: int| 0 <= j < i ==> !occurs_at(s, pat, j)
}

/// Where `pat` first stands in `s`.
pub open spec fn find<T>(s: Seq<T>, pat: Seq<T>) -> Option<int> {
    if exists|i: int| first_at(s, pat, i) {
        Some(choose|i: int| first_at(s, pat, i))
    } else {
        None
    }
}

/// A first place is the only one.
pub proof fn lemma_find_is<T>(s: Seq<T>, pat: Seq<T>, i: int)
    requires
        first_at(s, pat, i),
    ensures
        find(s, pat) == Some(i),
{
    let k = choose|k: int| first_at(s, pat, k);
    assert(first_at(s, pat, k));
    if k < i {
        assert(!occurs_at(s, pat, k));
    } else if i < k {
        assert(!occurs_at(s, pat, i));
    }
}

/// What stands somewhere stands somewhere first.
pub proof fn lemma_occurs_first<T>(s: Seq<T>, pat: Seq<T>, i: int)
    requires
        occurs_at(s, pat, i),
    ensures
        find(s, pat) matches Some(k) && k <= i && first_at(s, pat, k),
    decreases i,
{
    if exists|j: int| 0 <= j < i && occurs_at(s, pat, j) {
        let j = choose|j: int| 0 <= j < i && occurs_at(s, pat, j);
        lemma_occurs_first(s, pat, j);
    } else {
        assert(first_at(s, pat, i));
        lemma_find_is(s, pat, i);
    }
}

/// What stands somewhere still stands there when more follows.
pub proof fn lemma_occurs_extends<T>(s: Seq<T>, more: Seq<T>, pat: Seq<T>)
    requires
        occurs(s, pat),
    ensures
        occurs(s + more, pat),
{
    let i = choose|i: int| occurs_at(s, pat, i);
    assert((s + more).subrange(i, i + pat.len()) =~= s.subrange(i, i + pat.len()));
    assert(occurs_at(s + more, pat, i));
}

/// The two line ends that close the headers of a request.
pub open spec fn blank_line() -> Seq<u8> {
    seq![13u8, 10u8, 13u8, 10u8]
}

/// Where the blank line that closes the headers begins; `None` while it has
/// not been received.
pub fn header_end(data: &[u8]) -> (r: Option<usize>)
    ensures
        match r {
            Some(n) => {
                &&& find(data@, blank_line()) == Some(n as int)
                &&& n + 4 <= data@.len()
            },
            None => find(data@, blank_line()) is None && !occurs(data@, blank_line()),
        },
{
    if data.len() < 4 {
        return None;
    }
    let last: usize = data.len() - 4;
    let mut i: usize = 0;
    while i < last
        invariant
            last + 4 == data@.len(),
            i <= last,
            forall|j: int| 0 <= j < i ==> !occurs_at(data@, blank_line(), j),
        decreases last - i,
    {
        if blank_line_at(data, i) {
            proof {
                lemma_find_is(data@, blank_line(), i as int);
            }
            return Some(i);
        }
        i += 1;
    }
    if blank_line_at(data, last) {
        proof {
            lemma_find_is(data@, blank_line(), last as int);
        }
        Some(last)
    } else {
        None
    }
}

/// Whether the blank line stands at `i`.
fn blank_line_at(data: &[u8], i: usize) -> (r: bool)
    requires
        i + 4 <= data@.len(),
    ensures
        r == occurs_at(data@, blank_line(), i as int),
{
    let r: bool = data[i] == 13 && data[i + 1] == 10 && data[i + 2] == 13 && data[i + 3] == 10;
    proof {
        let piece = data@.subrange(i as int, i + 4);
        if r {
            assert(piece =~= blank_line());
        } else if piece == blank_line() {
            assert(piece[0] == 13 && piece[1] == 10 && piece[2] == 13 && piece[3] == 10);
        }
    }
    r
}

/// The name of the length header, with its colon, stands in `text` at `j`,
/// each letter in either case.
pub open spec fn named_at(text: Seq<char>, j: int) -> bool {
    &&& 0 <= j <= text.len() - 15
    &&& forall|k: int|
        j <= k < j + 15 ==> (#[trigger] text[k] == "content-length:"@[k - j] || text[k]
            == "CONTENT-LENGTH:"@[k - j])
}

/// A line of `text` starts at `j`.
pub open spec fn line_starts(text: Seq<char>, j: int) -> bool {
    0 <= j <= text.len() && (j == 0 || text[j - 1] == '\n')
}

/// No line of `text` has the name of the length header.
pub open spec fn unnamed(text: Seq<char>) -> bool {
    forall|j: int| line_starts(text, j) ==> !(#[trigger] named_at(text, j))
}

/// A line has the name of the length header exactly when it starts with it,
/// each letter in either case.
pub proof fn lemma_header_name(line: Seq<char>)
    ensures
        starts_with_folded(line, length_header()) <==> named_at(line, 0),
{
    reveal_strlit("content-length:");
    reveal_strlit("CONTENT-LENGTH:");
    let low = "content-length:"@;
    let up = "CONTENT-LENGTH:"@;
    if starts_with_folded(line, length_header()) {
        assert forall|k: int| 0 <= k < 15 implies (#[trigger] line[k] == low[k - 0] || line[k]
            == up[k - 0]) by {
            assert(ascii_lower(line[k]) == low[k]);
            if 'A' <= line[k] <= 'Z' {
                assert(line[k] as u32 + 32 == low[k] as u32);
            }
        }
    }
    if named_at(line, 0) {
        assert forall|i: int| 0 <= i < 15 implies ascii_lower(#[trigger] line[i]) == low[i] by {
            assert(line[i] == low[i - 0] || line[i] == up[i - 0]);
        }
    }
}

/// Lines of an unnamed text have no say in the length.
proof fn lemma_unnamed_lines(text: Seq<char>)
    requires
        unnamed(text),
    ensures
        forall|i: int|
            0 <= i < lines(text).len() ==> !starts_with_folded(
                #[trigger] lines(text)[i],
                length_header(),
            ),
{
    assert forall|i: int| 0 <= i < lines(text).len() implies !starts_with_folded(
        #[trigger] lines(text)[i],
        length_header(),
    ) by {
        let line = lines(text)[i];
        let j = lemma_line_at(text, i);
        lemma_header_name(line);
        if named_at(line, 0) {
            assert forall|k: int| j <= k < j + 15 implies (#[trigger] text[k]
                == "content-length:"@[k - j] || text[k] == "CONTENT-LENGTH:"@[k - j]) by {
                assert(text.subrange(j, j + line.len())[k - j] == text[k]);
                assert(line[k - j] == text[k]);
            }
            assert(line_starts(text, j));
            assert(named_at(text, j));
        }
    }
}

/// Lines without the name have no say in the length.
proof fn lemma_length_skips(ls: Seq<Seq<char>>, more: Seq<Seq<char>>)
    requires
        forall|i: int|
            0 <= i < ls.len() ==> !starts_with_folded(#[trigger] ls[i], length_header()),
    ensures
        length_among(ls + more) == length_among(more),
    decreases ls.len(),
{
    if ls.len() == 0 {
        assert(ls + more =~= more);
    } else {
        assert((ls + more)[0] == ls[0]);
        assert((ls + more).skip(1) =~= ls.skip(1) + more);
        assert forall|i: int| 0 <= i < ls.skip(1).len() implies !starts_with_folded(
            #[trigger] ls.skip(1)[i],
            length_header(),
        ) by {
            assert(ls.skip(1)[i] == ls[i + 1]);
        }
        lemma_length_skips(ls.skip(1), more);
    }
}

/// Wherever in a text the first line with the name of the length header
/// stands, the length is the number between the colon of the name and a
/// second colon or the end of the line, spacing round it set aside; and there
/// is none when that is no number. Nothing else in the text has a say.
pub proof fn lemma_length_anywhere(
    head: Seq<char>,
    name: Seq<char>,
    value: Seq<char>,
    more: Seq<char>,
    tail: Seq<char>,
)
    requires
        head.len() > 0 ==> head.last() == '\n',
        unnamed(head),
        name.len() == 15,
        named_at(name, 0),
        !value.contains('\n'),
        !value.contains(':'),
        !more.contains('\n'),
        more.len() > 0 ==> more[0] == ':',
        tail.len() > 0 ==> tail[0] == '\n',
    ensures
        content_length(head + name + value + more + tail) == parse_decimal(
            trim(value),
            usize::MAX as nat,
        ),
{
    let full = name + value + more;
    let text = head + name + value + more + tail;
    assert(text =~= head + (full + tail));
    lemma_named_line(name, value, more);
    lemma_lines_append(head, full + tail);
    lemma_unnamed_lines(head);
    lemma_length_skips(lines(head), lines(full + tail));
    if tail.len() == 0 {
        assert(full + tail =~= full);
        lemma_lines(full, seq![]);
    } else {
        assert(full + tail =~= full + seq!['\n'] + tail.skip(1));
        lemma_lines_first(full, tail.skip(1));
    }
}

/// The value of a line with the name of the length header, with or without a
/// carriage return at its end.
proof fn lemma_named_line(name: Seq<char>, value: Seq<char>, more: Seq<char>)
    requires
        name.len() == 15,
        named_at(name, 0),
        !value.contains('\n'),
        !value.contains(':'),
        !more.contains('\n'),
        more.len() > 0 ==> more[0] == ':',
    ensures
        !(name + value + more).contains('\n'),
        starts_with_folded(name + value + more, length_header()),
        trim(split(name + value + more, ':')[1]) == trim(value),
        starts_with_folded(strip_return(name + value + more), length_header()),
        trim(split(strip_return(name + value + more), ':')[1]) == trim(value),
{
    let full = name + value + more;
    lemma_name_plain(name);
    assert(!full.contains('\n')) by {
        assert forall|i: int| 0 <= i < full.len() implies full[i] != '\n' by {
            if i < 15 {
                assert(full[i] == name[i]);
            } else if i < 15 + value.len() {
                assert(full[i] == value[i - 15]);
                assert(value.contains(full[i]));
            } else {
                assert(full[i] == more[i - 15 - value.len()]);
                assert(more.contains(full[i]));
            }
        }
    }
    lemma_line_value(name, value, more);
    if full.last() == '\r' {
        if more.len() > 0 {
            assert(full.last() == more.last());
            assert(full.drop_last() =~= name + value + more.drop_last());
            assert(more.drop_last().len() > 0);
            lemma_line_value(name, value, more.drop_last());
        } else {
            assert(more =~= seq![]);
            assert(value.len() > 0) by {
                if value.len() == 0 {
                    assert(full.last() == name[14]);
                }
            }
            let less = value.drop_last();
            assert(full.last() == value.last());
            assert(value =~= less.push('\r'));
            assert(full.drop_last() =~= name + less + more);
            assert(!less.contains(':')) by {
                assert forall|i: int| 0 <= i < less.len() implies less[i] != ':' by {
                    assert(value.contains(value[i]));
                }
            }
            lemma_line_value(name, less, more);
            lemma_trim_push(less, '\r');
        }
    }
}

/// The name of the length header ends with its only colon and holds no line
/// end.
proof fn lemma_name_plain(name: Seq<char>)
    requires
        name.len() == 15,
        named_at(name, 0),
    ensures
        name[14] == ':',
        !name.take(14).contains(':'),
        forall|i: int| 0 <= i < 15 ==> #[trigger] name[i] != '\n' && name[i] != '\r',
{
    reveal_strlit("content-length:");
    reveal_strlit("CONTENT-LENGTH:");
    assert forall|i: int| 0 <= i < 15 implies #[trigger] name[i] != '\n' && name[i] != '\r' && (i
        < 14 ==> name[i] != ':') && (i == 14 ==> name[i] == ':') by {
        assert(name[i] == "content-length:"@[i - 0] || name[i] == "CONTENT-LENGTH:"@[i - 0]);
    }
    assert forall|i: int| 0 <= i < 14 implies name.take(14)[i] != ':' by {
        assert(name.take(14)[i] == name[i]);
    }
}

/// The piece after the first colon of a line with the name of the header.
proof fn lemma_line_value(name: Seq<char>, value: Seq<char>, more: Seq<char>)
    requires
        name.len() == 15,
        named_at(name, 0),
        !value.contains(':'),
        more.len() > 0 ==> more[0] == ':',
    ensures
        starts_with_folded(name + value + more, length_header()),
        split(name + value + more, ':')[1] == value,
{
    let line = name + value + more;
    let label = name.take(14);
    let behind = value + more;
    lemma_name_plain(name);
    assert forall|k: int| 0 <= k < 0 + 15 implies (#[trigger] line[k] == "content-length:"@[k - 0]
        || line[k] == "CONTENT-LENGTH:"@[k - 0]) by {
        assert(line[k] == name[k]);
    }
    lemma_header_name(line);
    assert(line =~= label + seq![':'] + behind);
    lemma_split_first(label, behind, ':');
    if more.len() == 0 {
        assert(behind =~= value);
        lemma_split_single(value, ':');
    } else {
        assert(behind =~= value + seq![':'] + more.skip(1));
        lemma_split_first(value, more.skip(1), ':');
    }
}

/// A length written in decimal is found wherever in a text its line stands, if
/// it is the first with the name of the header: any lines may come before it,
/// zeros and a plus sign may stand in front of the number, and spacing round
/// it.
pub proof fn lemma_length_found(
    head: Seq<char>,
    name: Seq<char>,
    left: Seq<char>,
    k: nat,
    n: nat,
    right: Seq<char>,
    tail: Seq<char>,
)
    requires
        head.len() > 0 ==> head.last() == '\n',
        unnamed(head),
        name.len() == 15,
        named_at(name, 0),
        is_blank(left),
        !left.contains('\n'),
        n <= usize::MAX,
        is_blank(right),
        !right.contains('\n'),
        tail.len() > 0 ==> tail[0] == '\n',
    ensures
        content_length(head + name + left + zeros(k) + digits(n, 10) + right + tail) == Some(n),
        content_length(
            head + name + left + seq!['+'] + zeros(k) + digits(n, 10) + right + tail,
        ) == Some(n),
{
    let bare = zeros(k) + digits(n, 10);
    let signed = seq!['+'] + zeros(k) + digits(n, 10);
    lemma_decimal_read(k, n, usize::MAX as nat);
    lemma_number_plain(k, n);
    lemma_length_value_at(head, name, left, bare, right, tail);
    lemma_length_value_at(head, name, left, signed, right, tail);
    assert(head + name + left + bare + right + tail =~= head + name + left + zeros(k) + digits(n, 10)
        + right + tail);
    assert(head + name + left + signed + right + tail =~= head + name + left + seq!['+'] + zeros(k)
        + digits(n, 10) + right + tail);
}

/// What stands between spacing after the name of the header is what is read.
proof fn lemma_length_value_at(
    head: Seq<char>,
    name: Seq<char>,
    left: Seq<char>,
    number: Seq<char>,
    right: Seq<char>,
    tail: Seq<char>,
)
    requires
        head.len() > 0 ==> head.last() == '\n',
        unnamed(head),
        name.len() == 15,
        named_at(name, 0),
        is_blank(left),
        !left.contains('\n'),
        is_word(number),
        !number.contains(':'),
        is_blank(right),
        !right.contains('\n'),
        tail.len() > 0 ==> tail[0] == '\n',
    ensures
        content_length(head + name + left + number + right + tail) == parse_decimal(
            number,
            usize::MAX as nat,
        ),
{
    let value = left + number + right;
    assert forall|i: int| 0 <= i < value.len() implies value[i] != '\n' && value[i] != ':' by {
        if i < left.len() {
            assert(value[i] == left[i]);
            assert(left.contains(left[i]));
        } else if i < left.len() + number.len() {
            assert(value[i] == number[i - left.len()]);
            assert(number.contains(value[i]));
        } else {
            assert(value[i] == right[i - left.len() - number.len()]);
            assert(right.contains(value[i]));
        }
    }
    lemma_length_anywhere(head, name, value, seq![], tail);
    lemma_trim(left, number, right);
    assert(head + name + value + Seq::<char>::empty() + tail =~= head + name + left + number + right
        + tail);
}

/// A number in decimal is a word without a colon, with or without a plus sign.
proof fn lemma_number_plain(k: nat, n: nat)
    ensures
        is_word(zeros(k) + digits(n, 10)),
        !(zeros(k) + digits(n, 10)).contains(':'),
        is_word(seq!['+'] + zeros(k) + digits(n, 10)),
        !(seq!['+'] + zeros(k) + digits(n, 10)).contains(':'),
{
    let bare = zeros(k) + digits(n, 10);
    let signed = seq!['+'] + zeros(k) + digits(n, 10);
    lemma_digits_read_back(n, 10);
    assert forall|i: int| 0 <= i < bare.len() implies !is_space(#[trigger] bare[i]) && bare[i]
        != ':' by {
        if i >= k {
            assert(bare[i] == digits(n, 10)[i - k]);
            assert(digit_value(digits(n, 10)[i - k], 10) is Some);
        }
    }
    assert(signed =~= seq!['+'] + bare);
    assert forall|i: int| 0 <= i < signed.len() implies !is_space(#[trigger] signed[i])
        && signed[i] != ':' by {
        if i > 0 {
            assert(signed[i] == bare[i - 1]);
        }
    }
}

/// The same told by the lines of a text: the first of them with the name of
/// the header is read, whichever it is, and if none has the name there is no
/// length.
pub proof fn lemma_length_of_lines(
    text: Seq<char>,
    at: int,
    name: Seq<char>,
    left: Seq<char>,
    n: nat,
    right: Seq<char>,
)
    requires
        name.len() == 15,
        named_at(name, 0),
        is_blank(left),
        is_blank(right),
        n <= usize::MAX,
        0 <= at <= lines(text).len(),
        forall|i: int| 0 <= i < at ==> !named_at(#[trigger] lines(text)[i], 0),
        at < lines(text).len() ==> lines(text)[at] == name + left + digits(n, 10) + right,
    ensures
        content_length(text) == (if at < lines(text).len() {
            Some(n)
        } else {
            None
        }),
{
    reveal_strlit("content-length:");
    let ls = lines(text);
    let before = ls.take(at);
    assert forall|i: int| 0 <= i < before.len() implies !starts_with_folded(
        #[trigger] before[i],
        length_header(),
    ) by {
        assert(before[i] == ls[i]);
        lemma_header_name(ls[i]);
    }
    lemma_header_name(name);
    if at < ls.len() {
        assert(ls =~= before + seq![ls[at]] + ls.skip(at + 1));
        lemma_length_read_back(before, name, left, n, right, ls.skip(at + 1));
    } else {
        assert(ls =~= before + Seq::<Seq<char>>::empty());
        lemma_length_skips(before, seq![]);
    }
}

/// A text in which no line has the name of the length header states no length.
pub proof fn lemma_no_length(text: Seq<char>)
    requires
        unnamed(text),
    ensures
        content_length(text) is None,
{
    lemma_unnamed_lines(text);
    lemma_length_skips(lines(text), seq![]);
    assert(lines(text) + Seq::<Seq<char>>::empty() =~= lines(text));
}

/// A text whose first line holds no word, or just one, is no request, whatever
/// follows.
pub proof fn lemma_no_request(pad: Seq<char>, word: Seq<char>, gap: Seq<char>, tail: Seq<char>)
    requires
        is_blank(pad),
        !pad.contains('\n'),
        word.len() > 0 ==> is_word(word),
        is_blank(gap),
        !gap.contains('\n'),
        tail.len() > 0 ==> tail[0] == '\n',
    ensures
        request_line(pad + word + gap + tail) is None,
{
    let full = pad + word + gap;
    let text = full + tail;
    assert(!full.contains('\n')) by {
        assert forall|i: int| 0 <= i < full.len() implies full[i] != '\n' by {
            if i < pad.len() {
                assert(full[i] == pad[i]);
                assert(pad.contains(pad[i]));
            } else if i < pad.len() + word.len() {
                assert(full[i] == word[i - pad.len()]);
            } else {
                assert(full[i] == gap[i - pad.len() - word.len()]);
                assert(gap.contains(full[i]));
            }
        }
    }
    if tail.len() == 0 {
        assert(text =~= full);
        lemma_lines(full, seq![]);
    } else {
        assert(text =~= full + seq!['\n'] + tail.skip(1));
        lemma_lines_first(full, tail.skip(1));
    }
    if text.len() > 0 {
        let line = lines(text)[0];
        assert(line == full || (full.len() > 0 && full.last() == '\r' && line
            == full.drop_last()));
        if word.len() == 0 {
            assert forall|i: int| 0 <= i < line.len() implies is_space(#[trigger] line[i]) by {
                if i < pad.len() {
                    assert(line[i] == pad[i]);
                } else {
                    assert(line[i] == gap[i - pad.len()]);
                }
            }
            lemma_no_words(line);
        } else {
            if line != full {
                assert(gap.len() > 0) by {
                    if gap.len() == 0 {
                        assert(full.last() == word[word.len() - 1]);
                    }
                }
            }
            let after = line.skip((pad.len() + word.len()) as int);
            assert(line =~= pad + word + after);
            assert forall|i: int| 0 <= i < after.len() implies is_space(#[trigger] after[i]) by {
                assert(after[i] == gap[i]);
            }
            lemma_words_first(pad, word, after);
            lemma_no_words(after);
            assert(words(line).len() == 1);
        }
    }
}

/// The headers end at the first blank line, wherever it stands.
pub proof fn lemma_blank_line(all: Seq<u8>, head: Seq<u8>, body: Seq<u8>)
    requires
        all == head + seq![13u8, 10u8, 13u8, 10u8] + body,
        forall|j: int|
            0 <= j < head.len() ==> #[trigger] all.subrange(j, j + 4) != seq![
                13u8,
                10u8,
                13u8,
                10u8,
            ],
    ensures
        find(all, blank_line()) == Some(head.len() as int),
        occurs(all, blank_line()),
{
    let n = head.len() as int;
    assert(all.subrange(n, n + 4) =~= blank_line());
    assert(occurs_at(all, blank_line(), n));
    lemma_find_is(all, blank_line(), n);
}

/// Where no blank line stands, the headers have no end.
pub proof fn lemma_no_blank_line(data: Seq<u8>)
    requires
        forall|j: int|
            0 <= j <= data.len() - 4 ==> #[trigger] data.subrange(j, j + 4) != seq![
                13u8,
                10u8,
                13u8,
                10u8,
            ],
    ensures
        find(data, blank_line()) is None,
        !occurs(data, blank_line()),
{
    if occurs(data, blank_line()) {
        let i = choose|i: int| occurs_at(data, blank_line(), i);
        assert(data.subrange(i, i + 4) == blank_line());
    }
    if exists|i: int| first_at(data, blank_line(), i) {
        let i = choose|i: int| first_at(data, blank_line(), i);
        assert(occurs_at(data, blank_line(), i));
    }
}

/// A stated length is taken as it is, however large, and none counts as zero.
pub proof fn lemma_body_length(n: usize)
    ensures
        body_length(Some(n as nat)) == n,
        body_length(None) == 0,
{
}

/// Results as contracts speak of them hold what the results hold.
pub proof fn lemma_views(method: String, path: String, n: usize)
    ensures
        request_view(Some((method, path))) == Some((method@, path@)),
        request_view(None) is None,
        length_view(Some(n)) == Some(n as nat),
        length_view(None) is None,
{
}

} // verus!
