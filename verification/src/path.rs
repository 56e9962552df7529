//! What a request path says: whether it belongs to a session, which session,
//! and which packet of it.
use vstd::prelude::*;
use vstd::slice::slice_subrange;
use vstd::utf8::encode_utf8;

use crate::number::{
    decimal, digit_value, digits, lemma_decimal_read_back, lemma_digits_read_back, parse_decimal,
};
use crate::text::{
    chars_of, just, leading, lemma_span, lemma_span_is, lemma_split_first, lemma_split_join,
    lemma_split_single, other_than, segment, span, spells, split, string_of,
};

verus! {

/// A path without the slashes at its start.
pub open spec fn strip_slashes(path: Seq<char>) -> Seq<char> {
    path.skip(span(path, just('/')) as int)
}

/// The characters of a path after the slashes at its start.
fn stripped(path: &[char]) -> (r: &[char])
    ensures
        r@ == strip_slashes(path@),
{
    let n: usize = leading(path, '/');
    let r = slice_subrange(path, n, path.len());
    assert(r@ =~= strip_slashes(path@));
    r
}

/// A path is treated as that of a session when, its leading slashes set
/// aside, it takes more than five bytes or starts with `ssh`.
pub open spec fn names_session(path: Seq<char>) -> bool {
    let p = strip_slashes(path);
    encode_utf8(p).len() > 5 || "ssh"@.is_prefix_of(p)
}

/// Whether a path is treated as that of a session.
pub fn is_xhttp_path(path: &str) -> (r: bool)
    ensures
        r == names_session(path@),
{
    let chars = chars_of(path);
    let p = stripped(chars.as_slice());
    proof {
        reveal_strlit("ssh");
    }
    if p.len() == 0 {
        assert(encode_utf8(p@) =~= seq![]);
        return false;
    }
    if string_of(p).as_str().as_bytes().len() > 5 {
        return true;
    }
    if p.len() < 3 {
        return false;
    }
    let start = slice_subrange(p, 0, 3);
    let r: bool = spells(start, "ssh");
    proof {
        if r {
            assert("ssh"@ =~= p@.subrange(0, 3));
        } else if "ssh"@.is_prefix_of(p@) {
            assert(start@ =~= "ssh"@);
        }
    }
    r
}

/// The session that a path names: its first segment, or the second one when
/// the first is `ssh` and a second follows.
pub open spec fn session_id(path: Seq<char>) -> Seq<char> {
    let parts = split(strip_slashes(path), '/');
    if parts[0] == "ssh"@ && parts.len() > 1 {
        parts[1]
    } else {
        parts[0]
    }
}

/// The session that a path names.
pub fn extract_session_id(path: &str) -> (r: String)
    ensures
        r@ == session_id(path@),
{
    let chars = chars_of(path);
    let p = stripped(chars.as_slice());
    proof {
        lemma_split_join(p@, '/');
    }
    let first = match segment(p, '/', 0) {
        Some(s) => s,
        None => p,
    };
    if spells(first, "ssh") {
        match segment(p, '/', 1) {
            Some(second) => string_of(second),
            None => string_of(first),
        }
    } else {
        string_of(first)
    }
}

/// The first segments that only mark a path as one of the proxy's own.
pub open spec fn is_marker(part: Seq<char>) -> bool {
    part == "ssh"@ || part == "xhttp"@ || part == "split"@
}

/// The session and the packet number that a path names, its query set aside:
/// `/id`, `/id/number`, or either after one marker segment. A number that is
/// no unsigned 64-bit decimal counts as missing, and an empty first segment
/// names the empty session.
pub open spec fn path_info(path: Seq<char>) -> (Seq<char>, Option<nat>) {
    let parts = split(strip_slashes(split(path, '?')[0]), '/');
    if parts[0].len() == 0 || parts.len() == 1 {
        (parts[0], None)
    } else if is_marker(parts[0]) {
        (
            parts[1],
            if parts.len() >= 3 {
                parse_decimal(parts[2], u64::MAX as nat)
            } else {
                None
            },
        )
    } else {
        (parts[0], parse_decimal(parts[1], u64::MAX as nat))
    }
}

/// A packet number that may be missing, as contracts speak of it.
pub open spec fn packet_view(number: Option<u64>) -> Option<nat> {
    match number {
        Some(n) => Some(n as nat),
        None => None,
    }
}

/// The session and the packet number that a path names.
pub fn extract_path_info(path: &str) -> (r: (String, Option<u64>))
    ensures
        (r.0@, packet_view(r.1)) == path_info(path@),
{
    let chars = chars_of(path);
    proof {
        lemma_split_join(path@, '?');
        lemma_split_join(strip_slashes(split(path@, '?')[0]), '/');
    }
    let head = match segment(chars.as_slice(), '?', 0) {
        Some(s) => s,
        None => chars.as_slice(),
    };
    let p = stripped(head);
    let first = match segment(p, '/', 0) {
        Some(s) => s,
        None => p,
    };
    if first.len() == 0 {
        return (string_of(first), None);
    }
    match segment(p, '/', 1) {
        None => (string_of(first), None),
        Some(second) => {
            if spells(first, "ssh") || spells(first, "xhttp") || spells(first, "split") {
                let number: Option<u64> = match segment(p, '/', 2) {
                    Some(third) => decimal(third, u64::MAX),
                    None => None,
                };
                (string_of(second), number)
            } else {
                (string_of(first), decimal(second, u64::MAX))
            }
        },
    }
}

/// A text that can stand as one segment of a path.
pub open spec fn is_segment(s: Seq<char>) -> bool {
    s.len() > 0 && !s.contains('/') && !s.contains('?')
}

/// `/` followed by what does not start with a slash strips to the latter.
proof fn lemma_strip_one(rest: Seq<char>)
    requires
        rest.len() > 0,
        rest[0] != '/',
    ensures
        strip_slashes(seq!['/'] + rest) == rest,
{
    let s = seq!['/'] + rest;
    assert(s[1] == rest[0]);
    lemma_span_is(s, just('/'), 1);
    assert(s.skip(1) =~= rest);
}

/// `/` followed by a segment strips to the segment, even an empty one.
proof fn lemma_strip_segment(id: Seq<char>)
    requires
        !id.contains('/'),
    ensures
        strip_slashes(seq!['/'] + id) == id,
{
    let s = seq!['/'] + id;
    if id.len() > 0 {
        assert(id.contains(id[0]));
        lemma_strip_one(id);
    } else {
        lemma_span_is(s, just('/'), 1);
        assert(s.skip(1) =~= id);
    }
}

/// The query of a path has no say in which session and packet it names.
pub proof fn lemma_query_ignored(path: Seq<char>, query: Seq<char>)
    ensures
        path_info(path + seq!['?'] + query) == path_info(path),
{
    let whole = path + seq!['?'] + query;
    let n = span(path, other_than('?'));
    lemma_span(path, other_than('?'));
    assert forall|j: int| 0 <= j < n implies other_than('?')(#[trigger] whole[j]) by {
        assert(other_than('?')(path[j]));
        assert(whole[j] == path[j]);
    }
    assert(whole[n as int] == '?');
    lemma_span_is(whole, other_than('?'), n);
    assert(whole.take(n as int) =~= path.take(n as int));
    assert(path.take(path.len() as int) =~= path);
}

/// A path of one segment names the session of that segment and no packet.
pub proof fn lemma_bare_path(id: Seq<char>)
    requires
        !id.contains('/'),
        !id.contains('?'),
    ensures
        path_info(seq!['/'] + id) == (id, None::<nat>),
{
    let bare = seq!['/'] + id;
    lemma_strip_segment(id);
    lemma_split_single(bare, '?');
    lemma_split_single(id, '/');
}

/// The path that carries packet `n` of a session names that session and that
/// packet.
pub proof fn lemma_packet_path(id: Seq<char>, n: nat)
    requires
        is_segment(id),
        !is_marker(id),
        n <= u64::MAX,
    ensures
        path_info(seq!['/'] + id + seq!['/'] + digits(n, 10)) == (id, Some(n)),
{
    assert(id[0] != '/') by {
        assert(id.contains(id[0]));
    }
    let number = digits(n, 10);
    lemma_digits_plain(n);
    let tail = id + seq!['/'] + number;
    let full = seq!['/'] + id + seq!['/'] + number;
    assert(full =~= seq!['/'] + tail);
    lemma_split_single(full, '?');
    lemma_strip_one(tail);
    lemma_split_first(id, number, '/');
    lemma_split_single(number, '/');
    lemma_decimal_read_back(n, u64::MAX as nat);
    let parts = split(tail, '/');
    assert(parts =~= seq![id, number]);
}

/// After a marker a path names the session of the segment that follows, which
/// may be empty or look like a marker itself, and the packet after it.
pub proof fn lemma_marked_path(marker: Seq<char>, id: Seq<char>, n: nat)
    requires
        is_marker(marker),
        !id.contains('/'),
        !id.contains('?'),
        n <= u64::MAX,
    ensures
        path_info(seq!['/'] + marker + seq!['/'] + id) == (id, None::<nat>),
        path_info(seq!['/'] + marker + seq!['/'] + id + seq!['/'] + digits(n, 10)) == (id, Some(n)),
{
    reveal_strlit("ssh");
    reveal_strlit("xhttp");
    reveal_strlit("split");
    assert(marker.len() > 0);
    assert(!marker.contains('/') && !marker.contains('?'));

    let bare_tail = marker + seq!['/'] + id;
    let bare = seq!['/'] + marker + seq!['/'] + id;
    assert(bare =~= seq!['/'] + bare_tail);
    lemma_split_single(bare, '?');
    assert(bare_tail[0] == marker[0]);
    lemma_strip_one(bare_tail);
    lemma_split_first(marker, id, '/');
    lemma_split_single(id, '/');
    assert(split(bare_tail, '/') =~= seq![marker, id]);

    let number = digits(n, 10);
    lemma_digits_plain(n);
    let inner = id + seq!['/'] + number;
    let tail = marker + seq!['/'] + inner;
    let full = seq!['/'] + marker + seq!['/'] + id + seq!['/'] + number;
    assert(full =~= seq!['/'] + tail);
    lemma_split_single(full, '?');
    assert(tail[0] == marker[0]);
    lemma_strip_one(tail);
    lemma_split_first(marker, inner, '/');
    lemma_split_first(id, number, '/');
    lemma_split_single(number, '/');
    lemma_decimal_read_back(n, u64::MAX as nat);
    assert(split(tail, '/') =~= seq![marker, id, number]);
}

/// Whatever segments follow, a path names the session of its first segment,
/// if that is not `ssh`.
pub proof fn lemma_session_path(id: Seq<char>, rest: Seq<char>)
    requires
        id.len() > 0,
        !id.contains('/'),
        id != "ssh"@,
    ensures
        session_id(seq!['/'] + id + seq!['/'] + rest) == id,
{
    assert(id[0] != '/') by {
        assert(id.contains(id[0]));
    }
    let tail = id + seq!['/'] + rest;
    assert(seq!['/'] + id + seq!['/'] + rest =~= seq!['/'] + tail);
    assert(tail[0] == id[0]);
    lemma_strip_one(tail);
    lemma_split_first(id, rest, '/');
}

/// Under `ssh` a path names the session of the segment that follows, which
/// may be empty or `ssh` again, whatever comes after it; and a path of one
/// segment names the session of that segment.
pub proof fn lemma_ssh_path(id: Seq<char>, rest: Seq<char>)
    requires
        !id.contains('/'),
    ensures
        session_id(seq!['/'] + id) == id,
        session_id("/ssh/"@ + id) == id,
        session_id("/ssh/"@ + id + seq!['/'] + rest) == id,
{
    reveal_strlit("ssh");
    reveal_strlit("/ssh/");
    lemma_strip_segment(id);
    lemma_split_single(id, '/');

    let ssh = "ssh"@;
    assert(!ssh.contains('/'));
    let under = ssh + seq!['/'] + id;
    assert("/ssh/"@ + id =~= seq!['/'] + under);
    lemma_strip_one(under);
    lemma_split_first(ssh, id, '/');
    assert(split(under, '/') =~= seq![ssh, id]);

    let tail = id + seq!['/'] + rest;
    let deep = ssh + seq!['/'] + tail;
    assert("/ssh/"@ + id + seq!['/'] + rest =~= seq!['/'] + deep);
    lemma_strip_one(deep);
    lemma_split_first(ssh, tail, '/');
    lemma_split_first(id, rest, '/');
    assert(split(deep, '/')[1] == split(tail, '/')[0]);
}

/// A slash more at the start of a path changes nothing.
pub proof fn lemma_extra_slash(path: Seq<char>)
    ensures
        path_info(seq!['/'] + path) == path_info(path),
        session_id(seq!['/'] + path) == session_id(path),
        names_session(seq!['/'] + path) == names_session(path),
{
    let longer = seq!['/'] + path;
    lemma_strip_slash(path);
    assert(longer.skip(1) =~= path);
    let n = span(path, other_than('?'));
    lemma_span(path, other_than('?'));
    assert(span(longer, other_than('?')) == n + 1);
    let head = split(path, '?')[0];
    assert(path.take(path.len() as int) =~= path);
    assert(split(longer, '?')[0] =~= seq!['/'] + head);
    lemma_strip_slash(head);
}

/// Stripping takes away one slash more.
proof fn lemma_strip_slash(path: Seq<char>)
    ensures
        strip_slashes(seq!['/'] + path) == strip_slashes(path),
{
    let longer = seq!['/'] + path;
    assert(longer.skip(1) =~= path);
    lemma_span(path, just('/'));
    assert(strip_slashes(longer) =~= strip_slashes(path));
}

/// What does not start with a slash has nothing to strip.
proof fn lemma_strip_none(s: Seq<char>)
    requires
        s.len() > 0 ==> s[0] != '/',
    ensures
        strip_slashes(s) == s,
{
    assert(s.skip(0) =~= s);
}

/// What is left after stripping does not start with a slash.
proof fn lemma_stripped(path: Seq<char>)
    ensures
        strip_slashes(path).len() > 0 ==> strip_slashes(path)[0] != '/',
{
    lemma_span(path, just('/'));
    let n = span(path, just('/'));
    if n < path.len() {
        assert(strip_slashes(path)[0] == path[n as int]);
    }
}

/// A session names itself: its identifier, read as a path, gives the
/// identifier.
pub proof fn lemma_session_stable(path: Seq<char>)
    ensures
        session_id(session_id(path)) == session_id(path),
        path_info(path_info(path).0) == (path_info(path).0, None::<nat>),
{
    let stripped = strip_slashes(path);
    lemma_split_join(stripped, '/');
    lemma_alone(session_id(path));

    let head = split(path, '?')[0];
    let inner = strip_slashes(head);
    lemma_split_join(path, '?');
    lemma_split_join(inner, '/');
    lemma_span(head, just('/'));
    let id = path_info(path).0;
    lemma_alone(id);
    lemma_no_query(path);
    lemma_split_single(id, '?');
}

/// A text without a slash is one segment, with nothing to strip.
proof fn lemma_alone(id: Seq<char>)
    requires
        !id.contains('/'),
    ensures
        strip_slashes(id) == id,
        split(id, '/') == seq![id],
{
    if id.len() > 0 {
        assert(id.contains(id[0]));
    }
    lemma_strip_none(id);
    lemma_split_single(id, '/');
}

/// No session identifier of `path_info` holds a question mark.
proof fn lemma_no_query(path: Seq<char>)
    ensures
        !path_info(path).0.contains('?'),
{
    let head = split(path, '?')[0];
    let inner = strip_slashes(head);
    lemma_split_join(path, '?');
    lemma_span(head, just('/'));
    assert(!inner.contains('?')) by {
        if inner.contains('?') {
            let i = choose|i: int| 0 <= i < inner.len() && inner[i] == '?';
            assert(head[i + span(head, just('/'))] == '?');
        }
    }
    lemma_split_join(inner, '/');
    lemma_split_within(inner, '/', '?');
}

/// A character that a text does not hold is in none of its pieces.
proof fn lemma_split_within(s: Seq<char>, sep: char, c: char)
    requires
        !s.contains(c),
    ensures
        forall|i: int| 0 <= i < split(s, sep).len() ==> !(#[trigger] split(s, sep)[i]).contains(c),
    decreases s.len(),
{
    let n = span(s, other_than(sep));
    lemma_span(s, other_than(sep));
    let parts = split(s, sep);
    if n < s.len() {
        let first = s.take(n as int);
        let rest = s.skip(n as int + 1);
        assert(!first.contains(c)) by {
            assert forall|i: int| 0 <= i < first.len() implies first[i] != c by {
                assert(s.contains(s[i]));
            }
        }
        assert(!rest.contains(c)) by {
            assert forall|i: int| 0 <= i < rest.len() implies rest[i] != c by {
                assert(s.contains(s[i + n + 1]));
            }
        }
        lemma_split_within(rest, sep, c);
        assert forall|i: int| 0 <= i < parts.len() implies !(#[trigger] parts[i]).contains(c) by {
            if i > 0 {
                assert(parts[i] == split(rest, sep)[i - 1]);
            }
        }
    }
}

/// A path that names a session still does when more text follows.
pub proof fn lemma_session_extends(path: Seq<char>, more: Seq<char>)
    requires
        names_session(path),
    ensures
        names_session(path + more),
{
    reveal_strlit("ssh");
    let p = strip_slashes(path);
    let n = span(path, just('/'));
    lemma_span(path, just('/'));
    assert(p.len() > 0) by {
        if p.len() == 0 {
            assert(encode_utf8(p) =~= seq![]);
        }
    }
    let whole = path + more;
    assert forall|j: int| 0 <= j < n implies just('/')(#[trigger] whole[j]) by {
        assert(just('/')(path[j]));
        assert(whole[j] == path[j]);
    }
    assert(whole[n as int] == path[n as int]);
    lemma_span_is(whole, just('/'), n);
    assert(strip_slashes(whole) =~= p + more);
    lemma_encode_append(p, more);
    if "ssh"@.is_prefix_of(p) {
        assert("ssh"@ =~= (p + more).subrange(0, 3)) by {
            assert("ssh"@ == p.subrange(0, 3));
            assert((p + more).subrange(0, 3) =~= p.subrange(0, 3));
        }
    }
}

/// Texts are encoded one after the other.
proof fn lemma_encode_append(a: Seq<char>, b: Seq<char>)
    ensures
        encode_utf8(a + b) == encode_utf8(a) + encode_utf8(b),
    decreases a.len(),
{
    if a.len() == 0 {
        assert(a + b =~= b);
        assert(encode_utf8(a) + encode_utf8(b) =~= encode_utf8(b));
    } else {
        assert((a + b).drop_first() =~= a.drop_first() + b);
        assert((a + b)[0] == a[0]);
        lemma_encode_append(a.drop_first(), b);
        assert(encode_utf8(a + b) =~= encode_utf8(a) + encode_utf8(b));
    }
}

/// What stands before the first `c`.
pub open spec fn before(s: Seq<char>, c: char) -> Seq<char> {
    s.take(span(s, other_than(c)) as int)
}

/// The first piece is what stands before the first separator.
proof fn lemma_before(s: Seq<char>, c: char)
    ensures
        split(s, c)[0] == before(s, c),
        !before(s, c).contains(c),
        !s.contains(c) ==> before(s, c) == s,
{
    lemma_span(s, other_than(c));
    lemma_split_join(s, c);
    assert(s.take(s.len() as int) =~= s);
    if !s.contains(c) {
        lemma_split_single(s, c);
    }
}

/// Cutting at one character and then at another is cutting at the first of
/// both, in either order.
proof fn lemma_before_twice(s: Seq<char>, c: char, d: char)
    ensures
        before(before(s, c), d) == before(before(s, d), c),
{
    let m = span(s, other_than(c));
    let n = span(s, other_than(d));
    lemma_span(s, other_than(c));
    lemma_span(s, other_than(d));
    lemma_before_cut(s, m as int, d);
    lemma_before_cut(s, n as int, c);
}

/// Cutting a prefix at a character.
proof fn lemma_before_cut(s: Seq<char>, m: int, d: char)
    requires
        0 <= m <= s.len(),
    ensures
        before(s.take(m), d) == s.take(
            if span(s, other_than(d)) <= m {
                span(s, other_than(d)) as int
            } else {
                m
            },
        ),
{
    let n = span(s, other_than(d));
    let t = s.take(m);
    lemma_span(s, other_than(d));
    let k: nat = if n <= m {
        n
    } else {
        m as nat
    };
    assert forall|j: int| 0 <= j < k implies other_than(d)(#[trigger] t[j]) by {
        assert(other_than(d)(s[j]));
    }
    lemma_span_is(t, other_than(d), k);
    assert(t.take(k as int) =~= s.take(k as int));
}

/// Both readers of paths name the same session, but for two things that only
/// one of them knows. A path whose session, with the query left in, holds a
/// question mark is read differently; and `xhttp` and `split` in front of a
/// further segment are a session to one reader and a marker to the other.
pub proof fn lemma_readers_agree(path: Seq<char>)
    ensures
        ({
            let parts = split(strip_slashes(path), '/');
            let known_to_one = parts.len() > 1 && (parts[0] == "xhttp"@ || parts[0] == "split"@);
            &&& session_id(path).contains('?') ==> session_id(path) != path_info(path).0
            &&& !session_id(path).contains('?') && !known_to_one ==> session_id(path) == path_info(
                path,
            ).0
            &&& known_to_one ==> session_id(path) == parts[0] && path_info(path).0 == before(
                parts[1],
                '?',
            )
        }),
{
    reveal_strlit("ssh");
    reveal_strlit("xhttp");
    reveal_strlit("split");
    let s = strip_slashes(path);
    let parts = split(s, '/');
    let t = strip_slashes(split(path, '?')[0]);
    let heads = split(t, '/');
    lemma_no_query(path);
    lemma_stripped(path);
    lemma_strip_before(path);
    assert(t == before(s, '?'));
    lemma_before(s, '?');
    lemma_before(s, '/');
    lemma_split_join(s, '/');
    let n = span(s, other_than('/'));
    lemma_span(s, other_than('/'));
    if n == s.len() {
        assert(!s.contains('/')) by {
            assert forall|i: int| 0 <= i < s.len() implies s[i] != '/' by {
                assert(other_than('/')(s[i]));
            }
        }
        assert(!t.contains('/')) by {
            assert forall|i: int| 0 <= i < t.len() implies t[i] != '/' by {
                assert(s.contains(s[i]));
            }
        }
        lemma_split_single(s, '/');
        lemma_split_single(t, '/');
    } else {
        let first = s.take(n as int);
        let rest = s.skip(n as int + 1);
        assert(first.len() > 0);
        assert(parts == seq![first] + split(rest, '/'));
        lemma_split_join(rest, '/');
        lemma_before(rest, '/');
        assert("ssh"@[0] != '?');
        assert(!"ssh"@.contains('?') && !"xhttp"@.contains('?') && !"split"@.contains('?'));
        if !first.contains('?') {
            lemma_before_over(first, rest, '/', '?');
            assert(s =~= first + seq!['/'] + rest);
            lemma_split_first(first, before(rest, '?'), '/');
            lemma_split_join(before(rest, '?'), '/');
            lemma_before(before(rest, '?'), '/');
            lemma_before_twice(rest, '?', '/');
            lemma_before(parts[1], '?');
            assert(heads == seq![first] + split(before(rest, '?'), '/'));
            assert(heads[1] == before(parts[1], '?'));
            if parts[1].contains('?') {
                assert(!before(parts[1], '?').contains('?'));
            }
        }
    }
}

/// What stands before a character that comes after the first separator.
proof fn lemma_before_over(first: Seq<char>, rest: Seq<char>, sep: char, c: char)
    requires
        !first.contains(c),
        sep != c,
    ensures
        before(first + seq![sep] + rest, c) == first + seq![sep] + before(rest, c),
{
    let s = first + seq![sep] + rest;
    let m = span(rest, other_than(c));
    lemma_span(rest, other_than(c));
    let k = first.len() + 1 + m;
    assert forall|j: int| 0 <= j < k implies other_than(c)(#[trigger] s[j]) by {
        if j < first.len() {
            assert(s[j] == first[j]);
            assert(first.contains(first[j]));
        } else if j > first.len() {
            assert(s[j] == rest[j - first.len() - 1]);
            assert(other_than(c)(rest[j - first.len() - 1]));
        }
    }
    if k < s.len() {
        assert(s[k as int] == rest[m as int]);
    }
    lemma_span_is(s, other_than(c), k as nat);
    assert(s.take(k as int) =~= first + seq![sep] + before(rest, c));
}

/// Whether the query or the leading slashes are taken away first does not
/// matter.
proof fn lemma_strip_before(path: Seq<char>)
    ensures
        strip_slashes(split(path, '?')[0]) == before(strip_slashes(path), '?'),
    decreases path.len(),
{
    lemma_before(path, '?');
    if path.len() > 0 && path[0] == '/' {
        let rest = path.skip(1);
        assert(path =~= seq!['/'] + rest);
        lemma_strip_before(rest);
        lemma_before(rest, '?');
        lemma_strip_slash(rest);
        lemma_span(rest, other_than('?'));
        assert(before(path, '?') =~= seq!['/'] + before(rest, '?'));
        lemma_strip_slash(before(rest, '?'));
    } else {
        lemma_strip_none(path);
        lemma_span(path, other_than('?'));
        let head = before(path, '?');
        if head.len() > 0 {
            assert(head[0] == path[0]);
        }
        lemma_strip_none(head);
    }
}

/// The digits of a number hold neither a slash nor a question mark.
proof fn lemma_digits_plain(n: nat)
    ensures
        is_segment(digits(n, 10)),
{
    lemma_digits_read_back(n, 10);
    let s = digits(n, 10);
    if s.contains('/') {
        let i = choose|i: int| 0 <= i < s.len() && s[i] == '/';
        assert(digit_value(s[i], 10) is Some);
    }
    if s.contains('?') {
        let i = choose|i: int| 0 <= i < s.len() && s[i] == '?';
        assert(digit_value(s[i], 10) is Some);
    }
}

/// That many slashes.
pub open spec fn slashes(k: nat) -> Seq<char> {
    Seq::new(k, |i: int| '/')
}

/// All slashes at the start are stripped and nothing else.
proof fn lemma_strip_slashes(k: nat, s: Seq<char>)
    requires
        s.len() > 0 ==> s[0] != '/',
    ensures
        strip_slashes(slashes(k) + s) == s,
{
    let path = slashes(k) + s;
    assert forall|j: int| 0 <= j < k implies just('/')(#[trigger] path[j]) by {
        assert(path[j] == slashes(k)[j]);
    }
    if s.len() > 0 {
        assert(path[k as int] == s[0]);
    }
    lemma_span_is(path, just('/'), k);
    assert(path.skip(k as int) =~= s);
}

/// A path belongs to a session exactly when what follows the slashes at its
/// start, however many, takes six bytes or more, whatever its characters, or
/// begins with `ssh`.
pub proof fn lemma_names_session(k: nat, s: Seq<char>)
    requires
        s.len() > 0 ==> s[0] != '/',
    ensures
        encode_utf8(s).len() >= 6 ==> names_session(slashes(k) + s),
        s.len() >= 3 && s[0] == 's' && s[1] == 's' && s[2] == 'h' ==> names_session(slashes(k) + s),
        encode_utf8(s).len() <= 5 && !(s.len() >= 3 && s[0] == 's' && s[1] == 's' && s[2] == 'h')
            ==> !names_session(slashes(k) + s),
{
    reveal_strlit("ssh");
    lemma_strip_slashes(k, s);
    if s.len() >= 3 {
        let start = s.subrange(0, 3);
        assert(start[0] == s[0] && start[1] == s[1] && start[2] == s[2]);
        if s[0] == 's' && s[1] == 's' && s[2] == 'h' {
            assert("ssh"@ =~= start);
        }
    }
}

/// However many slashes start a path and whatever segments follow, its first
/// segment, if it is none of the markers, is the session, and its second the
/// packet, if that is a number.
pub proof fn lemma_packet_read(k: nat, id: Seq<char>, second: Seq<char>, more: Seq<char>)
    requires
        is_segment(id),
        id != "ssh"@ && id != "xhttp"@ && id != "split"@,
        !second.contains('/') && !second.contains('?'),
        !more.contains('?'),
        more.len() > 0 ==> more[0] == '/',
    ensures
        path_info(slashes(k) + id) == (id, None::<nat>),
        path_info(slashes(k) + id + seq!['/'] + second + more) == (
            id,
            parse_decimal(second, u64::MAX as nat),
        ),
{
    assert(id[0] != '/') by {
        assert(id.contains(id[0]));
    }
    let rest = second + more;
    let s = id + seq!['/'] + rest;
    let path = slashes(k) + id + seq!['/'] + second + more;
    lemma_strip_slashes(k, id);
    lemma_split_single(id, '/');
    assert forall|i: int| 0 <= i < (slashes(k) + id).len() implies (slashes(k) + id)[i] != '?' by {
        if i >= k {
            assert(id.contains((slashes(k) + id)[i]));
        }
    }
    lemma_split_single(slashes(k) + id, '?');
    assert(path =~= slashes(k) + s);
    assert(s[0] == id[0]);
    lemma_strip_slashes(k, s);
    assert(!path.contains('?')) by {
        assert forall|i: int| 0 <= i < path.len() implies path[i] != '?' by {
            lemma_char_of(k, id, second, more, i);
        }
    }
    lemma_split_single(path, '?');
    lemma_split_first(id, rest, '/');
    lemma_first_piece(second, more);
}

/// Every character of a path comes from one of its parts.
proof fn lemma_char_of(k: nat, id: Seq<char>, second: Seq<char>, more: Seq<char>, i: int)
    requires
        0 <= i < k + id.len() + 1 + second.len() + more.len(),
    ensures
        ({
            let c = (slashes(k) + id + seq!['/'] + second + more)[i];
            c == '/' || id.contains(c) || second.contains(c) || more.contains(c)
        }),
{
    let path = slashes(k) + id + seq!['/'] + second + more;
    let a = i - k;
    if a < 0 {
        assert(path[i] == '/');
    } else if a < id.len() {
        assert(path[i] == id[a]);
    } else if a == id.len() {
        assert(path[i] == '/');
    } else if a < id.len() + 1 + second.len() {
        assert(path[i] == second[a - id.len() - 1]);
    } else {
        assert(path[i] == more[a - id.len() - 1 - second.len()]);
    }
}

/// What stands before a slash, or alone, is the first segment.
proof fn lemma_first_piece(first: Seq<char>, more: Seq<char>)
    requires
        !first.contains('/'),
        more.len() > 0 ==> more[0] == '/',
    ensures
        split(first + more, '/').len() >= 1,
        split(first + more, '/')[0] == first,
        more.len() > 0 ==> split(first + more, '/') == seq![first] + split(more.skip(1), '/'),
{
    lemma_split_join(first + more, '/');
    if more.len() == 0 {
        assert(first + more =~= first);
        lemma_split_single(first, '/');
    } else {
        assert(first + more =~= first + seq!['/'] + more.skip(1));
        lemma_split_first(first, more.skip(1), '/');
    }
}

/// However many slashes start a path and whatever segments follow, after one of
/// the three markers the second segment is the session, and the third the
/// packet, if there is one and it is a number.
pub proof fn lemma_marked_read(
    k: nat,
    marker: Seq<char>,
    id: Seq<char>,
    third: Seq<char>,
    more: Seq<char>,
)
    requires
        marker == "ssh"@ || marker == "xhttp"@ || marker == "split"@,
        !id.contains('/') && !id.contains('?'),
        !third.contains('/') && !third.contains('?'),
        !more.contains('?'),
        more.len() > 0 ==> more[0] == '/',
    ensures
        path_info(slashes(k) + marker) == (marker, None::<nat>),
        path_info(slashes(k) + marker + seq!['/'] + id) == (id, None::<nat>),
        path_info(slashes(k) + marker + seq!['/'] + id + seq!['/'] + third + more) == (
            id,
            parse_decimal(third, u64::MAX as nat),
        ),
{
    reveal_strlit("ssh");
    reveal_strlit("xhttp");
    reveal_strlit("split");
    assert(marker.len() > 0 && marker[0] != '/');
    assert(!marker.contains('/') && !marker.contains('?'));

    lemma_strip_slashes(k, marker);
    lemma_split_single(marker, '/');
    assert forall|i: int| 0 <= i < (slashes(k) + marker).len() implies (slashes(k) + marker)[i]
        != '?' by {
        if i >= k {
            assert(marker.contains((slashes(k) + marker)[i]));
        }
    }
    lemma_split_single(slashes(k) + marker, '?');

    let short = slashes(k) + marker + seq!['/'] + id;
    let inner = marker + seq!['/'] + id;
    assert(short =~= slashes(k) + inner);
    assert(inner[0] == marker[0]);
    lemma_strip_slashes(k, inner);
    assert(!short.contains('?')) by {
        assert forall|i: int| 0 <= i < short.len() implies short[i] != '?' by {
            lemma_char_of(k, marker, id, seq![], i);
            assert(short + Seq::<char>::empty() =~= short);
        }
    }
    lemma_split_single(short, '?');
    lemma_split_first(marker, id, '/');
    lemma_split_single(id, '/');

    let rest = seq!['/'] + third + more;
    let path = slashes(k) + marker + seq!['/'] + id + seq!['/'] + third + more;
    let s = marker + seq!['/'] + (id + rest);
    assert(path =~= slashes(k) + s);
    assert(path =~= slashes(k) + marker + seq!['/'] + id + rest);
    assert(s[0] == marker[0]);
    lemma_strip_slashes(k, s);
    assert(!rest.contains('?')) by {
        assert forall|i: int| 0 <= i < rest.len() implies rest[i] != '?' by {
            if 1 <= i < 1 + third.len() {
                assert(rest[i] == third[i - 1]);
                assert(third.contains(rest[i]));
            } else if i >= 1 + third.len() {
                assert(rest[i] == more[i - 1 - third.len()]);
                assert(more.contains(rest[i]));
            }
        }
    }
    assert(!path.contains('?')) by {
        assert forall|i: int| 0 <= i < path.len() implies path[i] != '?' by {
            lemma_char_of(k, marker, id, rest, i);
        }
    }
    lemma_split_single(path, '?');
    lemma_split_first(marker, id + rest, '/');
    lemma_first_piece(id, rest);
    assert(rest.skip(1) =~= third + more);
    lemma_first_piece(third, more);
}

/// Packet numbers as contracts speak of them are the numbers.
pub proof fn lemma_views(n: u64)
    ensures
        packet_view(Some(n)) == Some(n as nat),
        packet_view(None) is None,
{
}

} // verus!
