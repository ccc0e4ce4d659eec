use ahc014::report::{parse_i64, parse_score_report};

fn bytes(s: &str) -> Vec<u8> {
    s.as_bytes().to_vec()
}

#[test]
fn reads_the_last_score_line() {
    assert_eq!(parse_score_report(&bytes("score:123\n")), Some((bytes("score"), 123)));
    assert_eq!(
        parse_score_report(&bytes("warming up\nscore:4567\n")),
        Some((bytes("score"), 4567))
    );
    assert_eq!(parse_score_report(&bytes("a:1\nb:2\nrest")), Some((bytes("b"), 2)));
}

#[test]
fn value_ends_at_the_next_colon() {
    assert_eq!(parse_score_report(&bytes("score:12:34\n")), Some((bytes("score"), 12)));
}

#[test]
fn report_without_line_break_or_colon_is_refused() {
    assert_eq!(parse_score_report(&bytes("score:123")), None);
    assert_eq!(parse_score_report(&bytes("score 123\n")), None);
    assert_eq!(parse_score_report(&bytes("")), None);
    assert_eq!(parse_score_report(&bytes("score:12x\n")), None);
}

#[test]
fn parses_like_str_parse() {
    for s in ["0", "42", "-42", "+42", "9223372036854775807", "-9223372036854775808", "007"] {
        assert_eq!(parse_i64(&bytes(s)), s.parse::<i64>().ok());
    }
    for s in ["", "-", "+", "9223372036854775808", "-9223372036854775809", "1 2", "--1", "12a", " 1"] {
        assert_eq!(parse_i64(&bytes(s)), None);
        assert!(s.parse::<i64>().is_err());
    }
}
