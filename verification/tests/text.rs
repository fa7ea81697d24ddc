//! Null-terminated strings: decoding, terminator handling, and the
//! UTF-8 validation behind them.

use binpat::prelude::all_of;
use binpat::Data;
use binpat::ParseError;
use binpat::Pattern;

#[test]
fn cstr_reads_until_zero() {
    let bytes = b"hi\0rest".to_vec();
    let data = Pattern::CStr.parse(&bytes).unwrap();
    assert_eq!(data, Data::Str("hi".to_string()));
}

#[test]
fn cstr_consumes_terminator() {
    // after the string, the cursor stands on the byte after the zero
    let bytes = b"hi\0rest".to_vec();
    let parser = all_of(vec![Pattern::CStr, Pattern::U8]);
    let data = parser.parse(&bytes).unwrap();
    assert_eq!(
        data,
        Data::seq(vec![Data::Str("hi".to_string()), Data::Int(b'r' as i64)])
    );
}

#[test]
fn cstr_empty_string() {
    let bytes = vec![0u8, 7u8];
    let parser = all_of(vec![Pattern::CStr, Pattern::U8]);
    let data = parser.parse(&bytes).unwrap();
    assert_eq!(data, Data::seq(vec![Data::Str(String::new()), Data::Int(7)]));
}

#[test]
fn cstr_multibyte_utf8() {
    let mut bytes = "héllo ✓".as_bytes().to_vec();
    bytes.push(0);
    let data = Pattern::CStr.parse(&bytes).unwrap();
    assert_eq!(data, Data::Str("héllo ✓".to_string()));
}

#[test]
fn cstr_invalid_utf8_is_encoding_error() {
    let bytes = vec![0xFFu8, 0xFEu8, 0u8];
    let err = Pattern::CStr.parse(&bytes).unwrap_err();
    assert!(matches!(err, ParseError::Encoding));
}

#[test]
fn cstr_without_terminator_is_end_of_input() {
    let bytes = b"hi".to_vec();
    let err = Pattern::CStr.parse(&bytes).unwrap_err();
    assert!(matches!(err, ParseError::EndOfInput));
}
