//! The bytes sent to clients: status lines, the heads of session streams, and
//! chunk framing.
use vstd::prelude::*;
use vstd::slice::slice_to_vec;
use vstd::utf8::{encode_utf8, is_ascii_chars, is_ascii_chars_encode_utf8};

use crate::number::{digit_value, digits, is_numeral, numeral_value, push_digits};
use crate::request::{find, first_at};
use crate::text::occurs_at;

verus! {

/// The bytes of a text.
pub fn bytes_of(text: &str) -> (r: Vec<u8>)
    ensures
        r@ == encode_utf8(text@),
{
    slice_to_vec(text.as_bytes())
}

/// The head of a reply with the given code, as the plain proxy sends it.
pub open spec fn status_line(code: Seq<char>, status: Seq<char>) -> Seq<char> {
    "HTTP/1.1 "@ + code + " "@ + status + "\r\n\r\n"@
}

/// The bytes of a reply head that says `code` and `status`.
fn status_reply(code: &str, status: &str) -> (r: Vec<u8>)
    ensures
        r@ == encode_utf8(status_line(code@, status@)),
{
    let mut s = String::new();
    s.append("HTTP/1.1 ");
    s.append(code);
    s.append(" ");
    s.append(status);
    s.append("\r\n\r\n");
    assert(s@ =~= status_line(code@, status@));
    bytes_of(s.as_str())
}

/// The plain proxy's first reply: code 101.
pub open spec fn upgrade_text(status: Seq<char>) -> Seq<char> {
    status_line("101"@, status)
}

/// The plain proxy's second reply: code 200.
pub open spec fn accept_text(status: Seq<char>) -> Seq<char> {
    status_line("200"@, status)
}

/// The plain proxy's first reply.
pub fn upgrade_reply(status: &str) -> (r: Vec<u8>)
    ensures
        r@ == encode_utf8(upgrade_text(status@)),
{
    status_reply("101", status)
}

/// The plain proxy's second reply.
pub fn accept_reply(status: &str) -> (r: Vec<u8>)
    ensures
        r@ == encode_utf8(accept_text(status@)),
{
    status_reply("200", status)
}

/// What a tunnel answers before it starts: 101 and 200 at once, the status in
/// round brackets.
pub open spec fn greeting_text(status: Seq<char>) -> Seq<char> {
    "HTTP/1.1 101 ("@ + status + ")\r\n\r\nHTTP/1.1 200 ("@ + status + ")\r\n\r\n"@
}

/// What a tunnel answers before it starts.
pub fn greeting_reply(status: &str) -> (r: Vec<u8>)
    ensures
        r@ == encode_utf8(greeting_text(status@)),
{
    let mut s = String::new();
    s.append("HTTP/1.1 101 (");
    s.append(status);
    s.append(")\r\n\r\nHTTP/1.1 200 (");
    s.append(status);
    s.append(")\r\n\r\n");
    assert(s@ =~= greeting_text(status@));
    bytes_of(s.as_str())
}

/// The head of a session stream sent in chunks.
pub open spec fn chunked_head_text(id: Seq<char>, status: Seq<char>) -> Seq<char> {
    "HTTP/1.1 200 OK\r\nTransfer-Encoding: chunked\r\nX-Session-ID: "@ + id + "\r\nX-Status: "@
        + status + "\r\n\r\n"@
}

/// The head of a session stream sent in chunks.
pub fn chunked_head(id: &str, status: &str) -> (r: Vec<u8>)
    ensures
        r@ == encode_utf8(chunked_head_text(id@, status@)),
{
    let mut s = String::new();
    s.append("HTTP/1.1 200 OK\r\nTransfer-Encoding: chunked\r\nX-Session-ID: ");
    s.append(id);
    s.append("\r\nX-Status: ");
    s.append(status);
    s.append("\r\n\r\n");
    assert(s@ =~= chunked_head_text(id@, status@));
    bytes_of(s.as_str())
}

/// The head of a session stream sent as plain bytes.
pub open spec fn stream_head_text(id: Seq<char>, status: Seq<char>) -> Seq<char> {
    "HTTP/1.1 200 OK\r\nContent-Type: application/octet-stream\r\nConnection: keep-alive\r\nX-Session-ID: "@
        + id + "\r\nX-Status: "@ + status + "\r\n\r\n"@
}

/// The head of a session stream sent as plain bytes.
pub fn stream_head(id: &str, status: &str) -> (r: Vec<u8>)
    ensures
        r@ == encode_utf8(stream_head_text(id@, status@)),
{
    let mut s = String::new();
    s.append(
        "HTTP/1.1 200 OK\r\nContent-Type: application/octet-stream\r\nConnection: keep-alive\r\nX-Session-ID: ",
    );
    s.append(id);
    s.append("\r\nX-Status: ");
    s.append(status);
    s.append("\r\n\r\n");
    assert(s@ =~= stream_head_text(id@, status@));
    bytes_of(s.as_str())
}

/// The answer to every upload.
pub open spec fn received_text() -> Seq<char> {
    "HTTP/1.1 200 OK\r\nContent-Length: 0\r\n\r\n"@
}

/// The answer to every upload.
pub fn received_reply() -> (r: Vec<u8>)
    ensures
        r@ == encode_utf8(received_text()),
{
    bytes_of("HTTP/1.1 200 OK\r\nContent-Length: 0\r\n\r\n")
}

/// A line end.
pub open spec fn crlf() -> Seq<u8> {
    seq![13u8, 10u8]
}

/// One chunk of a chunked stream: the length in hexadecimal, a line end, the
/// data, a line end.
pub open spec fn frame(data: Seq<u8>) -> Seq<u8> {
    encode_utf8(digits(data.len(), 16)) + crlf() + data + crlf()
}

/// One chunk of a chunked stream.
pub fn chunk(data: &[u8]) -> (r: Vec<u8>)
    ensures
        r@ == frame(data@),
{
    let mut size = String::new();
    push_digits(&mut size, data.len() as u64, 16);
    assert(size@ =~= digits(data@.len(), 16));
    let mut r = bytes_of(size.as_str());
    r.push(13);
    r.push(10);
    r.extend_from_slice(data);
    r.push(13);
    r.push(10);
    assert(r@ =~= frame(data@));
    r
}

/// The size that a line of a chunked stream states.
pub open spec fn chunk_size(line: Seq<u8>) -> Option<nat> {
    let text = line.map_values(|b: u8| b as char);
    if is_numeral(text, 16) {
        Some(numeral_value(text, 16))
    } else {
        None
    }
}

/// The first chunk of a chunked stream and the bytes after it, as a reader of
/// the stream takes it apart; a chunk of size zero would end the stream, and
/// is no chunk of data.
pub open spec fn unframe(s: Seq<u8>) -> Option<(Seq<u8>, Seq<u8>)> {
    match find(s, crlf()) {
        None => None,
        Some(k) => match chunk_size(s.take(k)) {
            None => None,
            Some(n) => {
                let start = k + 2;
                if n > 0 && occurs_at(s, crlf(), start + n) {
                    Some((s.subrange(start, start + n), s.skip(start + n + 2)))
                } else {
                    None
                }
            },
        },
    }
}

/// The data of a chunked stream received so far: that of its chunks, which
/// make it up without rest.
pub open spec fn unchunk(s: Seq<u8>) -> Option<Seq<u8>>
    decreases s.len(),
{
    if s.len() == 0 {
        Some(seq![])
    } else {
        match unframe(s) {
            None => None,
            Some((data, rest)) => if rest.len() < s.len() {
                match unchunk(rest) {
                    Some(more) => Some(data + more),
                    None => None,
                }
            } else {
                None
            },
        }
    }
}

/// The size line of a chunk states its size, and holds no carriage return.
proof fn lemma_size_line(n: nat)
    ensures
        chunk_size(encode_utf8(digits(n, 16))) == Some(n),
        !encode_utf8(digits(n, 16)).contains(13u8),
{
    let text = digits(n, 16);
    let size = encode_utf8(text);
    crate::number::lemma_digits_read_back(n, 16);
    assert forall|i: int| 0 <= i < text.len() implies 48 <= (#[trigger] text[i]) as u32 <= 102 by {
        assert(digit_value(text[i], 16) is Some);
    }
    assert(is_ascii_chars(text));
    is_ascii_chars_encode_utf8(text);
    assert forall|i: int| 0 <= i < size.len() implies size[i] != 13 && (size[i] as char)
        == #[trigger] text[i] by {
        assert(text[i] as u32 >= 48);
    }
    assert(size.map_values(|b: u8| b as char) =~= text);
}

/// A size line, a line end, that many bytes and a line end make a chunk.
proof fn lemma_unframe(size: Seq<u8>, data: Seq<u8>, rest: Seq<u8>)
    requires
        chunk_size(size) == Some(data.len()),
        !size.contains(13u8),
        data.len() > 0,
    ensures
        unframe(size + crlf() + data + crlf() + rest) == Some((data, rest)),
{
    let s = size + crlf() + data + crlf() + rest;
    let k = size.len() as int;
    assert forall|j: int| 0 <= j < k implies !occurs_at(s, crlf(), j) by {
        if occurs_at(s, crlf(), j) {
            assert(s.subrange(j, j + 2)[0] == 13);
            assert(s[j] == size[j]);
            assert(size.contains(size[j]));
        }
    }
    assert(s.subrange(k, k + 2) =~= crlf());
    assert(first_at(s, crlf(), k));
    crate::request::lemma_find_is(s, crlf(), k);
    assert(s.take(k) =~= size);
    let start = k + 2;
    let n = data.len() as int;
    assert(s.subrange(start + n, start + n + 2) =~= crlf());
    assert(s.subrange(start, start + n) =~= data);
    assert(s.skip(start + n + 2) =~= rest);
}

/// A reader gets back the data of a chunk, and the bytes that follow it.
pub proof fn lemma_chunk_read_back(data: Seq<u8>, rest: Seq<u8>)
    requires
        data.len() > 0,
    ensures
        unframe(frame(data) + rest) == Some((data, rest)),
{
    lemma_size_line(data.len());
    lemma_unframe(encode_utf8(digits(data.len(), 16)), data, rest);
}

/// The chunks that carry the given pieces, one after the other.
pub open spec fn frames(pieces: Seq<Seq<u8>>) -> Seq<u8>
    decreases pieces.len(),
{
    if pieces.len() == 0 {
        seq![]
    } else {
        frame(pieces[0]) + frames(pieces.skip(1))
    }
}

/// The pieces put together.
pub open spec fn concat(pieces: Seq<Seq<u8>>) -> Seq<u8>
    decreases pieces.len(),
{
    if pieces.len() == 0 {
        seq![]
    } else {
        pieces[0] + concat(pieces.skip(1))
    }
}

/// The last piece comes last.
pub proof fn lemma_concat_last(pieces: Seq<Seq<u8>>)
    requires
        pieces.len() > 0,
    ensures
        concat(pieces) == concat(pieces.drop_last()) + pieces.last(),
    decreases pieces.len(),
{
    let rest = pieces.skip(1);
    if pieces.len() == 1 {
        assert(rest =~= seq![]);
        assert(pieces.drop_last() =~= seq![]);
        assert(concat(pieces) =~= concat(pieces.drop_last()) + pieces.last());
    } else {
        lemma_concat_last(rest);
        assert(rest.drop_last() =~= pieces.drop_last().skip(1));
        assert(concat(pieces) =~= concat(pieces.drop_last()) + pieces.last());
    }
}

/// The chunk of the last piece comes last.
pub proof fn lemma_frames_last(pieces: Seq<Seq<u8>>)
    requires
        pieces.len() > 0,
    ensures
        frames(pieces) == frames(pieces.drop_last()) + frame(pieces.last()),
    decreases pieces.len(),
{
    let rest = pieces.skip(1);
    if pieces.len() == 1 {
        assert(rest =~= seq![]);
        assert(pieces.drop_last() =~= seq![]);
        assert(frames(pieces) =~= frames(pieces.drop_last()) + frame(pieces.last()));
    } else {
        lemma_frames_last(rest);
        assert(rest.drop_last() =~= pieces.drop_last().skip(1));
        assert(frames(pieces) =~= frames(pieces.drop_last()) + frame(pieces.last()));
    }
}

/// A reader of the chunks gets back exactly the bytes that were sent in them.
pub proof fn lemma_stream_read_back(pieces: Seq<Seq<u8>>)
    requires
        forall|i: int| 0 <= i < pieces.len() ==> (#[trigger] pieces[i]).len() > 0,
    ensures
        unchunk(frames(pieces)) == Some(concat(pieces)),
    decreases pieces.len(),
{
    if pieces.len() > 0 {
        let rest = pieces.skip(1);
        assert forall|i: int| 0 <= i < rest.len() implies (#[trigger] rest[i]).len() > 0 by {
            assert(rest[i] == pieces[i + 1]);
        }
        lemma_stream_read_back(rest);
        lemma_chunk_read_back(pieces[0], frames(rest));
    }
}

/// The plain proxy's replies carry any status as it is.
pub proof fn lemma_plain_replies(status: Seq<char>)
    ensures
        upgrade_text(status) == "HTTP/1.1 101 "@ + status + "\r\n\r\n"@,
        accept_text(status) == "HTTP/1.1 200 "@ + status + "\r\n\r\n"@,
{
    reveal_strlit("HTTP/1.1 ");
    reveal_strlit("101");
    reveal_strlit("200");
    reveal_strlit(" ");
    reveal_strlit("HTTP/1.1 101 ");
    reveal_strlit("HTTP/1.1 200 ");
    assert("HTTP/1.1 "@ + "101"@ + " "@ =~= "HTTP/1.1 101 "@);
    assert("HTTP/1.1 "@ + "200"@ + " "@ =~= "HTTP/1.1 200 "@);
}

/// A tunnel's greeting is two replies, 101 and then 200, each with the status in
/// round brackets and a blank line.
pub proof fn lemma_greeting(status: Seq<char>)
    ensures
        greeting_text(status) == upgrade_text("("@ + status + ")"@) + accept_text(
            "("@ + status + ")"@,
        ),
{
    lemma_plain_replies("("@ + status + ")"@);
    reveal_strlit("HTTP/1.1 101 (");
    reveal_strlit("HTTP/1.1 101 ");
    reveal_strlit("HTTP/1.1 200 ");
    reveal_strlit("(");
    reveal_strlit(")");
    reveal_strlit("\r\n\r\n");
    reveal_strlit(")\r\n\r\nHTTP/1.1 200 (");
    reveal_strlit(")\r\n\r\n");
    let wrapped = "("@ + status + ")"@;
    assert(greeting_text(status) =~= ("HTTP/1.1 101 "@ + wrapped + "\r\n\r\n"@) + (
    "HTTP/1.1 200 "@ + wrapped + "\r\n\r\n"@));
}

/// The heads of both kinds of session streams are a status line and headers,
/// each on a line of its own, that name the session and the status as they
/// are.
pub proof fn lemma_heads(id: Seq<char>, status: Seq<char>)
    ensures
        ({
            let end = seq!['\r', '\n'];
            let names = "X-Session-ID: "@ + id + end + "X-Status: "@ + status + end + end;
            &&& chunked_head_text(id, status) == "HTTP/1.1 200 OK"@ + end
                + "Transfer-Encoding: chunked"@ + end + names
            &&& stream_head_text(id, status) == "HTTP/1.1 200 OK"@ + end
                + "Content-Type: application/octet-stream"@ + end + "Connection: keep-alive"@ + end
                + names
            &&& received_text() == "HTTP/1.1 200 OK"@ + end + "Content-Length: 0"@ + end + end
        }),
{
    reveal_strlit("HTTP/1.1 200 OK\r\nTransfer-Encoding: chunked\r\nX-Session-ID: ");
    reveal_strlit("\r\nX-Status: ");
    reveal_strlit("\r\n\r\n");
    reveal_strlit("X-Session-ID: ");
    reveal_strlit("X-Status: ");
    reveal_strlit("HTTP/1.1 200 OK");
    reveal_strlit("Transfer-Encoding: chunked");
    reveal_strlit("Content-Type: application/octet-stream");
    reveal_strlit("Connection: keep-alive");
    reveal_strlit("Content-Length: 0");
    reveal_strlit("HTTP/1.1 200 OK\r\nContent-Length: 0\r\n\r\n");
    reveal_strlit(
        "HTTP/1.1 200 OK\r\nContent-Type: application/octet-stream\r\nConnection: keep-alive\r\nX-Session-ID: ",
    );
    let end = seq!['\r', '\n'];
    let names = "X-Session-ID: "@ + id + end + "X-Status: "@ + status + end + end;
    assert("HTTP/1.1 200 OK\r\nTransfer-Encoding: chunked\r\nX-Session-ID: "@
        =~= "HTTP/1.1 200 OK"@ + end + "Transfer-Encoding: chunked"@ + end + "X-Session-ID: "@);
    assert("\r\nX-Status: "@ =~= end + "X-Status: "@);
    assert("\r\n\r\n"@ =~= end + end);
    assert(chunked_head_text(id, status) =~= "HTTP/1.1 200 OK"@ + end
        + "Transfer-Encoding: chunked"@ + end + names);
    assert("HTTP/1.1 200 OK\r\nContent-Type: application/octet-stream\r\nConnection: keep-alive\r\nX-Session-ID: "@
        =~= "HTTP/1.1 200 OK"@ + end + "Content-Type: application/octet-stream"@ + end
        + "Connection: keep-alive"@ + end + "X-Session-ID: "@);
    assert(stream_head_text(id, status) =~= "HTTP/1.1 200 OK"@ + end
        + "Content-Type: application/octet-stream"@ + end + "Connection: keep-alive"@ + end + names);
    assert(received_text() =~= "HTTP/1.1 200 OK"@ + end + "Content-Length: 0"@ + end + end);
}

/// A chunk is its length in lower-case hexadecimal without leading zeros, a line
/// end, the data as they are, and a line end.
pub proof fn lemma_frame(data: Seq<u8>)
    ensures
        frame(data) == encode_utf8(digits(data.len(), 16)) + seq![13u8, 10u8] + data + seq![
            13u8,
            10u8,
        ],
{
}

} // verus!
