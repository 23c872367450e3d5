use cshim::format::format_matches;
use cshim::format::printf;
use cshim::format::putchar;
use cshim::format::puts;
use cshim::format::FmtArg;

#[test]
fn int_and_string_line() {
    let args = vec![FmtArg::Int(42), FmtArg::Str(b"x".to_vec())];
    let (line, count) = printf(b"%d and %s", &args);
    assert_eq!(line, b"42 and x".to_vec());
    assert_eq!(count, line.len());
}

#[test]
fn plain_text_passes_through() {
    let (line, count) = printf(b"solver ready", &[]);
    assert_eq!(line, b"solver ready".to_vec());
    assert_eq!(count, 12);
}

#[test]
fn signed_decimal_edge_values() {
    let args = vec![FmtArg::Int(0), FmtArg::Int(-1), FmtArg::Int(i64::MIN), FmtArg::Int(i64::MAX)];
    let (line, count) = printf(b"%d|%d|%d|%i", &args);
    assert_eq!(
        line,
        b"0|-1|-9223372036854775808|9223372036854775807".to_vec()
    );
    assert_eq!(count, line.len());
}

#[test]
fn unsigned_decimal_edge_values() {
    let args = vec![FmtArg::Uint(0), FmtArg::Uint(u64::MAX)];
    let (line, _) = printf(b"%u %u", &args);
    assert_eq!(line, b"0 18446744073709551615".to_vec());
}

#[test]
fn percent_escape_and_char() {
    let args = vec![FmtArg::Int(7), FmtArg::Chr(b'Q')];
    let (line, count) = printf(b"%d%% done [%c]", &args);
    assert_eq!(line, b"7% done [Q]".to_vec());
    assert_eq!(count, 11);
}

#[test]
fn float_text_is_copied_through() {
    let args = vec![FmtArg::Float(b"3.14".to_vec()), FmtArg::Float(b"-0.5".to_vec())];
    let (line, _) = printf(b"f=%f g=%g", &args);
    assert_eq!(line, b"f=3.14 g=-0.5".to_vec());
}

#[test]
fn empty_format_empty_output() {
    let (line, count) = printf(b"", &[]);
    assert_eq!(line, Vec::<u8>::new());
    assert_eq!(count, 0);
}

#[test]
fn putchar_formats_one_character_and_returns_it() {
    let (line, ret) = putchar(b'A');
    assert_eq!(line, b"A".to_vec());
    assert_eq!(ret, b'A' as usize);
    let (line, ret) = putchar(0);
    assert_eq!(line, vec![0u8]);
    assert_eq!(ret, 0);
}

#[test]
fn puts_formats_whole_string() {
    let (line, count) = puts(b"hello shim");
    assert_eq!(line, b"hello shim".to_vec());
    assert_eq!(count, 10);
}

#[test]
fn format_matching_is_decidable() {
    let args = vec![FmtArg::Int(42), FmtArg::Str(b"x".to_vec())];
    assert!(format_matches(b"%d and %s", &args));
    assert!(format_matches(b"100%% sure", &[]));
    // Wrong variant order, trailing or missing arguments, dangling percent.
    assert!(!format_matches(b"%s and %d", &args));
    assert!(!format_matches(b"%d", &args));
    assert!(!format_matches(b"%d and %s and %c", &args));
    assert!(!format_matches(b"broken %", &[]));
    assert!(!format_matches(b"%q", &[FmtArg::Int(1)]));
}
