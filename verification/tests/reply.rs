use sdproxy::address::{listen_address, local_address};
use sdproxy::reply::{
    accept_reply, bytes_of, chunk, chunked_head, greeting_reply, received_reply, stream_head,
    upgrade_reply,
};

#[test]
fn the_plain_replies_carry_the_status() {
    assert_eq!(upgrade_reply("@SDProxy"), b"HTTP/1.1 101 @SDProxy\r\n\r\n".to_vec());
    assert_eq!(accept_reply("@SDProxy"), b"HTTP/1.1 200 @SDProxy\r\n\r\n".to_vec());
    assert_eq!(upgrade_reply("é"), "HTTP/1.1 101 é\r\n\r\n".as_bytes().to_vec());
}

#[test]
fn the_greeting_says_both_codes() {
    assert_eq!(
        greeting_reply("up"),
        b"HTTP/1.1 101 (up)\r\n\r\nHTTP/1.1 200 (up)\r\n\r\n".to_vec()
    );
}

#[test]
fn the_chunked_head_names_the_session() {
    assert_eq!(
        chunked_head("id7", "up"),
        b"HTTP/1.1 200 OK\r\nTransfer-Encoding: chunked\r\nX-Session-ID: id7\r\nX-Status: up\r\n\r\n"
            .to_vec()
    );
}

#[test]
fn the_plain_head_names_the_session() {
    let head = "HTTP/1.1 200 OK\r\nContent-Type: application/octet-stream\r\n\
                Connection: keep-alive\r\nX-Session-ID: id7\r\nX-Status: up\r\n\r\n";
    assert_eq!(stream_head("id7", "up"), head.as_bytes().to_vec());
}

#[test]
fn an_upload_is_answered_with_nothing_more() {
    assert_eq!(received_reply(), b"HTTP/1.1 200 OK\r\nContent-Length: 0\r\n\r\n".to_vec());
}

#[test]
fn a_chunk_is_framed_by_its_length() {
    assert_eq!(chunk(b"hello"), b"5\r\nhello\r\n".to_vec());
    assert_eq!(chunk(b"0123456789abcdef"), b"10\r\n0123456789abcdef\r\n".to_vec());
    assert_eq!(chunk(b""), b"0\r\n\r\n".to_vec());
    let long = vec![7u8; 16384];
    let framed = chunk(&long);
    assert_eq!(&framed[..6], b"4000\r\n");
    assert_eq!(framed.len(), 6 + 16384 + 2);
}

fn read_chunks(stream: &[u8]) -> Option<Vec<u8>> {
    let mut rest = stream;
    let mut out = Vec::new();
    while !rest.is_empty() {
        let end = rest.windows(2).position(|w| w == b"\r\n")?;
        let size = usize::from_str_radix(std::str::from_utf8(&rest[..end]).ok()?, 16).ok()?;
        let data = rest.get(end + 2..end + 2 + size)?;
        out.extend_from_slice(data);
        if rest.get(end + 2 + size..end + 4 + size)? != b"\r\n" {
            return None;
        }
        rest = &rest[end + 4 + size..];
    }
    Some(out)
}

#[test]
fn a_stream_of_chunks_is_read_back() {
    let pieces: Vec<Vec<u8>> =
        vec![b"SSH-2.0-x\r\n".to_vec(), vec![0, 13, 10, 255], vec![65; 300], b"\r\n\r\n".to_vec()];
    let mut stream = Vec::new();
    for piece in &pieces {
        stream.extend_from_slice(&chunk(piece));
    }
    assert_eq!(read_chunks(&stream), Some(pieces.concat()));
}

#[test]
fn the_bytes_of_a_text_are_its_encoding() {
    assert_eq!(bytes_of("aé"), vec![0x61, 0xc3, 0xa9]);
}

#[test]
fn addresses_name_their_port() {
    assert_eq!(listen_address(443), "[::]:443");
    assert_eq!(listen_address(0), "[::]:0");
    assert_eq!(local_address(22), "127.0.0.1:22");
    assert_eq!(local_address(65535), "127.0.0.1:65535");
}
