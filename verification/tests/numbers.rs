use trace_unify::lines::{find, split_at_byte, split_first_line};
use trace_unify::number::{
    digit_of, format_decimal, format_hex, format_padded_hex, parse_decimal, parse_hex,
};

#[test]
fn hex_is_read_in_either_case() {
    assert_eq!(parse_hex(b"ff"), Some(255));
    assert_eq!(parse_hex(b"FF"), Some(255));
    assert_eq!(parse_hex(b"0000"), Some(0));
    assert_eq!(parse_hex(b"1000"), Some(4096));
    assert_eq!(parse_hex(b"+1f"), Some(31));
}

#[test]
fn what_is_no_hex_number_is_refused() {
    assert_eq!(parse_hex(b""), None);
    assert_eq!(parse_hex(b"+"), None);
    assert_eq!(parse_hex(b"-1"), None);
    assert_eq!(parse_hex(b"0x10"), None);
    assert_eq!(parse_hex(b"1g"), None);
    assert_eq!(parse_hex(b" 1"), None);
    assert_eq!(parse_hex(b"1 "), None);
    assert_eq!(parse_hex(b"++1"), None);
}

#[test]
fn decimal_takes_no_letters() {
    assert_eq!(parse_decimal(b"123"), Some(123));
    assert_eq!(parse_decimal(b"007"), Some(7));
    assert_eq!(parse_decimal(b"+5"), Some(5));
    assert_eq!(parse_decimal(b"ff"), None);
    assert_eq!(parse_decimal(b"1a"), None);
    assert_eq!(parse_decimal(b""), None);
}

#[test]
fn numbers_that_do_not_fit_are_refused() {
    let max = usize::MAX;
    assert_eq!(parse_decimal(format!("{}", max).as_bytes()), Some(max));
    assert_eq!(parse_hex(format!("{:x}", max).as_bytes()), Some(max));
    assert_eq!(parse_hex(format!("{:x}0", max).as_bytes()), None);
    assert_eq!(parse_decimal(format!("{}0", max).as_bytes()), None);
    assert_eq!(parse_decimal(b"99999999999999999999999999999999"), None);
    assert_eq!(parse_hex(format!("000000{:x}", max).as_bytes()), Some(max));
}

#[test]
fn numbers_are_read_as_std_reads_them() {
    let samples: [&str; 12] =
        ["0", "10", "ff", "Ff", "+0", "-0", "", "+", "12345678", "abcdefg", "  ", "deadBEEF"];
    for s in samples.iter() {
        assert_eq!(parse_hex(s.as_bytes()), usize::from_str_radix(s, 16).ok());
        assert_eq!(parse_decimal(s.as_bytes()), s.parse::<usize>().ok());
    }
}

#[test]
fn numbers_are_written_as_std_writes_them() {
    let samples: [usize; 9] = [0, 1, 9, 10, 15, 16, 255, 0x1234_5678, usize::MAX];
    for n in samples.iter() {
        assert_eq!(format_hex(*n), format!("{:x}", n).into_bytes());
        assert_eq!(format_decimal(*n), format!("{}", n).into_bytes());
        assert_eq!(format_padded_hex(*n, 4), format!("{:04x}", n).into_bytes());
    }
}

#[test]
fn padding_fills_up_to_the_width() {
    assert_eq!(format_padded_hex(0, 4), b"0000".to_vec());
    assert_eq!(format_padded_hex(0xab, 4), b"00ab".to_vec());
    assert_eq!(format_padded_hex(0xabcd, 4), b"abcd".to_vec());
    assert_eq!(format_padded_hex(0xabcde, 4), b"abcde".to_vec());
    assert_eq!(format_padded_hex(0xab, 0), b"ab".to_vec());
}

#[test]
fn digits_have_their_values() {
    assert_eq!(digit_of(b'0'), Some(0));
    assert_eq!(digit_of(b'9'), Some(9));
    assert_eq!(digit_of(b'a'), Some(10));
    assert_eq!(digit_of(b'F'), Some(15));
    assert_eq!(digit_of(b'z'), Some(35));
    assert_eq!(digit_of(b' '), None);
    assert_eq!(digit_of(b'+'), None);
}

#[test]
fn find_gives_first_occurrence_or_length() {
    assert_eq!(find(b"a b c", b' '), 1);
    assert_eq!(find(b"abc", b' '), 3);
    assert_eq!(find(b"", b' '), 0);
}

#[test]
fn split_at_byte_divides_at_first_occurrence() {
    let (head, tail) = split_at_byte(b"ab cd ef", b' ');
    assert_eq!(head, b"ab");
    assert_eq!(tail, b"cd ef");
    let (head, tail) = split_at_byte(b"abc", b' ');
    assert_eq!(head, b"abc");
    assert_eq!(tail, b"");
}

#[test]
fn first_line_loses_its_ending() {
    let (line, rest) = split_first_line(b"one\r\ntwo\n");
    assert_eq!(line, b"one");
    assert_eq!(rest, b"two\n");
    let (line, rest) = split_first_line(b"\nx");
    assert_eq!(line, b"");
    assert_eq!(rest, b"x");
    let (line, rest) = split_first_line(b"last\r");
    assert_eq!(line, b"last\r");
    assert_eq!(rest, b"");
}
