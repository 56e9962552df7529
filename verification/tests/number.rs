use sdproxy::number::{decimal, push_digits};

fn read(s: &str, max: u64) -> Option<u64> {
    let chars: Vec<char> = s.chars().collect();
    decimal(&chars, max)
}

fn written(n: u64, base: u64) -> String {
    let mut s = String::new();
    push_digits(&mut s, n, base);
    s
}

#[test]
fn decimals_agree_with_the_integer_types() {
    let samples = [
        "", "+", "-", "0", "-0", "+0", "7", "+7", "++7", "007", "65535", "65536", "99999", "1 ", " 1",
        "1a", "0x10", "18446744073709551615", "18446744073709551616", "99999999999999999999999",
        "00000000000000000000000000012", "\u{661}",
    ];
    for s in samples {
        assert_eq!(read(s, u16::MAX as u64), s.parse::<u16>().ok().map(u64::from), "{}", s);
        assert_eq!(read(s, u64::MAX), s.parse::<u64>().ok(), "{}", s);
    }
}

#[test]
fn digits_agree_with_formatting() {
    for n in [0, 1, 9, 10, 15, 16, 255, 256, 16384, 65535, u64::MAX] {
        assert_eq!(written(n, 10), format!("{}", n));
        assert_eq!(written(n, 16), format!("{:x}", n));
    }
}

#[test]
fn digits_are_appended() {
    let mut s = String::from("port ");
    push_digits(&mut s, 8080, 10);
    assert_eq!(s, "port 8080");
}

#[test]
fn numbers_are_read_back() {
    for n in [0, 1, 42, 65535, u64::MAX - 1, u64::MAX] {
        assert_eq!(read(&written(n, 10), u64::MAX), Some(n));
    }
}
