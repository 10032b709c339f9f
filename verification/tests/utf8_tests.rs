use interpreter::parser::Parser;
use interpreter::scanner::Scanner;
use interpreter::utf8::decode_char_at;
use interpreter::utf8::decode_chars;
use interpreter::utf8::DecodeError;

fn decoded_text(bytes: &[u8]) -> String {
    decode_chars(&bytes.to_vec()).unwrap().into_iter().collect()
}

#[test]
fn ascii_decoding_round_trips() {
    let text = "hello, world";
    assert_eq!(decoded_text(text.as_bytes()), text);
}

#[test]
fn multibyte_decoding_round_trips() {
    let text = "caf\u{e9} \u{20ac}5 \u{1f30d} \u{65e5}\u{672c}";
    assert_eq!(decoded_text(text.as_bytes()), text);
}

#[test]
fn empty_input_decodes_to_nothing() {
    assert_eq!(decode_chars(&vec![]).unwrap(), vec![]);
}

#[test]
fn decode_char_at_reports_each_width() {
    let bytes = "a\u{e9}\u{20ac}\u{1f30d}".as_bytes().to_vec();
    assert_eq!(decode_char_at(&bytes, 0), Some(('a', 1)));
    assert_eq!(decode_char_at(&bytes, 1), Some(('\u{e9}', 2)));
    assert_eq!(decode_char_at(&bytes, 3), Some(('\u{20ac}', 3)));
    assert_eq!(decode_char_at(&bytes, 6), Some(('\u{1f30d}', 4)));
}

#[test]
fn lone_continuation_byte_is_rejected() {
    assert_eq!(decode_chars(&vec![0x80]), Err(DecodeError { offset: 0 }));
}

#[test]
fn overlong_encoding_is_rejected() {
    // 0xC0 0xAF would be an overlong encoding of '/'.
    assert_eq!(decode_chars(&vec![0xC0, 0xAF]), Err(DecodeError { offset: 0 }));
}

#[test]
fn surrogate_encoding_is_rejected() {
    // 0xED 0xA0 0x80 encodes the surrogate 0xD800.
    assert_eq!(
        decode_chars(&vec![0xED, 0xA0, 0x80]),
        Err(DecodeError { offset: 0 })
    );
}

#[test]
fn truncated_sequence_is_rejected() {
    // The first two bytes of a three-byte encoding.
    assert_eq!(decode_chars(&vec![0xE2, 0x82]), Err(DecodeError { offset: 0 }));
}

#[test]
fn out_of_range_lead_is_rejected() {
    assert_eq!(
        decode_chars(&vec![0xF5, 0x80, 0x80, 0x80]),
        Err(DecodeError { offset: 0 })
    );
}

#[test]
fn error_offset_marks_the_valid_prefix() {
    let mut bytes = "ab".as_bytes().to_vec();
    bytes.push(0xFF);
    assert_eq!(decode_chars(&bytes), Err(DecodeError { offset: 2 }));
}

#[test]
fn bytes_to_printed_expression_pipeline() {
    let bytes = "(1 + 2) * 3".as_bytes().to_vec();
    let chars = decode_chars(&bytes).unwrap();
    let mut scanner = Scanner::new(chars);
    scanner.scan_tokens();
    assert!(scanner.errors.is_empty());
    let parser = Parser::new(scanner.tokens);
    assert_eq!(parser.pretty_print(), "(* (group (+ 1 2)) 3)");
}
