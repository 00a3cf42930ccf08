use vigenere_cipher::cipher::{complete_key, decode, decode_web, encode, render_for_display};
use vigenere_cipher::dictionary::{DictWrap, SIZE};
use vigenere_cipher::matrix::{char_finder, idx_finder, vig_matcher, ErrorCode, VigMatrixWrap};
use vigenere_cipher::text::{chars_of, string_of};

#[test]
fn dictionary_layout() {
    let d = DictWrap::new();
    let s = d.get_string();
    assert_eq!(s.chars().count(), SIZE);
    assert!(s.starts_with("!\"#$%&'()*+,-./0123456789:;<=>?@ABC"));
    assert!(s.contains("xyz{|}~ ¡¢£"));
    assert!(s.ends_with("ýþÿ\n\r"));
    assert_eq!(d.0[0], '!');
    assert_eq!(d.0[94], ' ');
    assert_eq!(d.0[95], '¡');
    assert_eq!(d.0[189], 'ÿ');
    assert_eq!(d.0[190], '\n');
    assert_eq!(d.0[191], '\r');
}

#[test]
fn dictionary_has_no_duplicates() {
    let d = DictWrap::new();
    let mut v: Vec<char> = d.0.to_vec();
    v.sort();
    v.dedup();
    assert_eq!(v.len(), SIZE);
}

#[test]
fn alphabet_closure_on_every_character() {
    let m = VigMatrixWrap::new();
    let d = DictWrap::new();
    for (i, ch) in d.0.iter().enumerate() {
        let idx = idx_finder(*ch, &m).unwrap();
        assert_eq!(idx, i);
        assert_eq!(char_finder(idx, &m).unwrap(), *ch);
    }
}

#[test]
fn idx_finder_exact_and_invalid() {
    let m = VigMatrixWrap::new();
    assert_eq!(idx_finder('A', &m), Ok(32));
    assert_eq!(idx_finder('\r', &m), Ok(191));
    assert_eq!(idx_finder('\t', &m), Err(ErrorCode::InvalidChar('\t')));
    assert_eq!(idx_finder('\u{a0}', &m), Err(ErrorCode::InvalidChar('\u{a0}')));
    assert_eq!(idx_finder('€', &m), Err(ErrorCode::InvalidChar('€')));
}

#[test]
fn char_finder_exact_and_invalid_index() {
    let m = VigMatrixWrap::new();
    assert_eq!(char_finder(0, &m), Ok('!'));
    assert_eq!(char_finder(94, &m), Ok(' '));
    assert_eq!(char_finder(191, &m), Ok('\r'));
    assert_eq!(char_finder(SIZE, &m), Err(ErrorCode::InvalidIndex(SIZE)));
    assert_eq!(char_finder(1000, &m), Err(ErrorCode::InvalidIndex(1000)));
}

#[test]
fn matrix_rows_are_rotations() {
    let m = VigMatrixWrap::new();
    let d = DictWrap::new();
    assert_eq!(m.0[0], d.0);
    assert_eq!(m.0[1][0], '"');
    assert_eq!(m.0[1][191], '!');
    assert_eq!(m.0[191][0], '\r');
    assert_eq!(m.0[191][1], '!');
}

#[test]
fn matrix_rows_are_permutations() {
    let m = VigMatrixWrap::new();
    let mut dict: Vec<char> = DictWrap::new().0.to_vec();
    dict.sort();
    for r in 0..SIZE {
        let mut row: Vec<char> = m.0[r].to_vec();
        row.sort();
        assert_eq!(row, dict);
    }
}

#[test]
fn vig_matcher_exact() {
    let m = VigMatrixWrap::new();
    assert_eq!(vig_matcher(&m, 'A', 'B'), Ok('b'));
    assert_eq!(vig_matcher(&m, '\r', '"'), Ok('!'));
    assert_eq!(vig_matcher(&m, '!', '!'), Ok('!'));
    assert_eq!(vig_matcher(&m, '\t', '€'), Err(ErrorCode::InvalidChar('\t')));
    assert_eq!(vig_matcher(&m, 'A', '€'), Err(ErrorCode::InvalidChar('€')));
}

#[test]
fn complete_key_cycles_and_truncates() {
    assert_eq!(complete_key("BC", 3), "BCB");
    assert_eq!(complete_key("BC", 5), "BCBCB");
    assert_eq!(complete_key("ABCDEF", 4), "ABCD");
    assert_eq!(complete_key("ABC", 0), "");
    assert_eq!(complete_key("", 0), "");
    assert_eq!(complete_key("äb", 3), "äbä");
}

#[test]
fn encode_exact_values() {
    let m = VigMatrixWrap::new();
    assert_eq!(encode("AAB", "BC", m), Ok("bcc".to_string()));
    assert_eq!(encode("AAB", "BCB", m), Ok("bcc".to_string()));
    assert_eq!(encode("\r", "\"", m), Ok("!".to_string()));
    assert_eq!(encode("Hello", "!", m), Ok("Hello".to_string()));
}

#[test]
fn concrete_scenario_is_deterministic_and_round_trips() {
    let m = VigMatrixWrap::new();
    let first = encode("AAB", "BC", m).unwrap();
    let second = encode("AAB", "BC", VigMatrixWrap::new()).unwrap();
    assert_eq!(first, second);
    assert_eq!(decode(&first, "BC", m), Ok("AAB".to_string()));
}

#[test]
fn round_trip_multiline_and_long_key() {
    let m = VigMatrixWrap::new();
    let key = "a much longer key than the message ÿ";
    let message = "line one\r\nline two ¿¡";
    let encoded = encode(message, key, m).unwrap();
    assert_ne!(encoded, message);
    assert_eq!(encoded.chars().count(), message.chars().count());
    assert_eq!(decode(&encoded, key, m).unwrap(), message);
}

#[test]
fn key_length_invariance() {
    let m = VigMatrixWrap::new();
    let key = "K3y!";
    let doubled = "K3y!K3y!";
    for message in ["", "a", "ab c", "wxyz"] {
        assert_eq!(encode(message, key, m), encode(message, doubled, m));
    }
}

#[test]
fn encode_error_names_the_foreign_character() {
    let m = VigMatrixWrap::new();
    assert_eq!(encode("ab\tcd", "key", m), Err(ErrorCode::InvalidChar('\t')));
    assert_eq!(encode("€", "key", m), Err(ErrorCode::InvalidChar('€')));
    assert_eq!(encode("abc", "k\u{1}", m), Err(ErrorCode::InvalidChar('\u{1}')));
    assert_eq!(encode("a\u{2}\u{3}", "key", m), Err(ErrorCode::InvalidChar('\u{2}')));
}

#[test]
fn decode_errors() {
    let m = VigMatrixWrap::new();
    assert_eq!(decode("abc", "k\u{7}y", m), Err(ErrorCode::InvalidChar('\u{7}')));
    assert_eq!(decode("a€c", "key", m), Err(ErrorCode::InvalidChar('€')));
    assert_eq!(decode("\t", "\u{b}", m), Err(ErrorCode::InvalidChar('\u{b}')));
}

#[test]
fn empty_message() {
    let m = VigMatrixWrap::new();
    assert_eq!(encode("", "key", m), Ok(String::new()));
    assert_eq!(decode("", "key", m), Ok(String::new()));
    assert_eq!(encode("", "", m), Ok(String::new()));
    assert_eq!(decode_web("", "key", m), Ok(String::new()));
}

#[test]
fn render_for_display_markers() {
    assert_eq!(render_for_display("a b\nc\rd"), "a&nbsp;b<br>c<br>d");
    assert_eq!(render_for_display("  "), "&nbsp;&nbsp;");
    assert_eq!(render_for_display("plain¡"), "plain¡");
    assert_eq!(render_for_display("&nbsp;<br>"), "&nbsp;<br>");
    assert_eq!(render_for_display(""), "");
}

#[test]
fn decode_web_renders_decoded_text() {
    let m = VigMatrixWrap::new();
    let key = "°¡! RüST";
    let message = "two  words\nnext";
    let encoded = encode(message, key, m).unwrap();
    assert_eq!(decode_web(&encoded, key, m), Ok("two&nbsp;&nbsp;words<br>next".to_string()));
    assert_eq!(decode_web("a€", key, m), Err(ErrorCode::InvalidChar('€')));
}

#[test]
fn text_conversions() {
    let v = chars_of("añb");
    assert_eq!(v, vec!['a', 'ñ', 'b']);
    assert_eq!(string_of(&v), "añb");
}
