use cshim::url::decode_url;
use cshim::url::get_url_input_parameter;

fn chars(s: &str) -> Vec<char> {
    s.chars().collect()
}

#[test]
fn decode_hex_escape() {
    assert_eq!(decode_url(&chars("a%20b")), chars("a b"));
    assert_eq!(decode_url(&chars("%41%42%43")), chars("ABC"));
    assert_eq!(decode_url(&chars("%4a%4B")), chars("JK"));
}

#[test]
fn decode_plus_as_space() {
    assert_eq!(decode_url(&chars("x+y+z")), chars("x y z"));
}

#[test]
fn decode_keeps_malformed_escapes() {
    assert_eq!(decode_url(&chars("%zz")), chars("%zz"));
    assert_eq!(decode_url(&chars("100%")), chars("100%"));
    assert_eq!(decode_url(&chars("%2")), chars("%2"));
    assert_eq!(decode_url(&chars("a%")), chars("a%"));
}

#[test]
fn decode_accepts_plus_signed_byte() {
    // Unsigned integer parsing accepts an optional leading plus sign only,
    // so "%+5" decodes while a minus sign keeps the escape verbatim.
    assert_eq!(decode_url(&chars("%+5")), vec!['\u{5}']);
    assert_eq!(decode_url(&chars("%-0")), chars("%-0"));
    assert_eq!(decode_url(&chars("%-1")), chars("%-1"));
}

#[test]
fn decode_empty_and_plain() {
    assert_eq!(decode_url(&chars("")), Vec::<char>::new());
    assert_eq!(decode_url(&chars("plain")), chars("plain"));
}

#[test]
fn input_parameter_found_and_decoded() {
    assert_eq!(get_url_input_parameter(&chars("?input=a%20b")), Some(chars("a b")));
    assert_eq!(get_url_input_parameter(&chars("?x=1&input=hi+there")), Some(chars("hi there")));
    assert_eq!(get_url_input_parameter(&chars("?input=")), Some(chars("")));
}

#[test]
fn input_parameter_first_match_wins() {
    assert_eq!(get_url_input_parameter(&chars("?input=a&input=b")), Some(chars("a")));
}

#[test]
fn input_parameter_absent() {
    assert_eq!(get_url_input_parameter(&chars("")), None);
    assert_eq!(get_url_input_parameter(&chars("?")), None);
    assert_eq!(get_url_input_parameter(&chars("?other=1")), None);
    assert_eq!(get_url_input_parameter(&chars("?input")), None);
    assert_eq!(get_url_input_parameter(&chars("?INPUT=x")), None);
    assert_eq!(get_url_input_parameter(&chars("?inputs=x")), None);
}
