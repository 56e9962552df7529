use sdproxy::text::{
    chars_of, fold, mentions, next_line, next_word, segment, space, spells, string_of, trimmed,
};

#[test]
fn spacing_agrees_with_the_character_type() {
    for n in 0..=0x10ffffu32 {
        if let Some(c) = char::from_u32(n) {
            assert_eq!(space(c), c.is_whitespace());
        }
    }
}

#[test]
fn folding_ascii_finds_every_spelling_of_the_length_header() {
    let header = "content-length:";
    for n in 0x80..=0x10ffffu32 {
        if let Some(c) = char::from_u32(n) {
            for low in c.to_lowercase() {
                assert!(!header.contains(low));
            }
        }
    }
    for n in 0..0x80u32 {
        let c = char::from_u32(n).unwrap();
        assert_eq!(vec![fold(c)], c.to_lowercase().collect::<Vec<char>>());
    }
}

#[test]
fn segments_agree_with_splitting() {
    for s in ["", "/", "a", "a/b", "/a//b/", "é/ü/"] {
        let chars: Vec<char> = s.chars().collect();
        let expected: Vec<&str> = s.split('/').collect();
        for (k, piece) in expected.iter().enumerate() {
            let got: String = segment(&chars, '/', k).unwrap().iter().collect();
            assert_eq!(&got, piece);
        }
        assert_eq!(segment(&chars, '/', expected.len()), None);
    }
}

#[test]
fn lines_agree_with_the_string_type() {
    for s in ["a", "a\n", "a\r\nb", "\n", "\r\n\r\n", "a\rb\n\nc\r", "x\r\r\ny"] {
        let chars: Vec<char> = s.chars().collect();
        let mut rest: &[char] = &chars;
        let mut got: Vec<String> = Vec::new();
        while !rest.is_empty() {
            let (line, after) = next_line(rest);
            got.push(line.iter().collect());
            rest = after;
        }
        assert_eq!(got, s.lines().collect::<Vec<&str>>());
    }
}

#[test]
fn words_agree_with_the_string_type() {
    for s in ["", "  ", "a", " a  b\t", "GET\u{a0}/x\u{2003}y", "é ü"] {
        let chars: Vec<char> = s.chars().collect();
        let mut rest: &[char] = &chars;
        let mut got: Vec<String> = Vec::new();
        while let Some((word, after)) = next_word(rest) {
            got.push(word.iter().collect());
            rest = after;
        }
        assert_eq!(got, s.split_whitespace().collect::<Vec<&str>>());
    }
}

#[test]
fn trimming_agrees_with_the_string_type() {
    for s in ["", "  ", "a", " a  b\t", "\u{a0}x y\u{3000}"] {
        let chars: Vec<char> = s.chars().collect();
        let got: String = trimmed(&chars).iter().collect();
        assert_eq!(got, s.trim());
    }
}

#[test]
fn searching_agrees_with_the_string_type() {
    for s in ["", "S", "SSH", "xSSH-2.0", "SSSH", "ssh", "SSh SSH"] {
        let chars: Vec<char> = s.chars().collect();
        assert_eq!(mentions(&chars, "SSH"), s.contains("SSH"));
        assert!(mentions(&chars, ""));
    }
}

#[test]
fn characters_and_strings_convert_both_ways() {
    let chars = chars_of("aé\u{1f600}");
    assert_eq!(chars, vec!['a', 'é', '\u{1f600}']);
    assert_eq!(string_of(&chars), "aé\u{1f600}");
    assert!(spells(&chars, "aé\u{1f600}"));
    assert!(!spells(&chars, "aé"));
}
