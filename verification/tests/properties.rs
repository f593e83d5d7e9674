use jomini::data::{is_boundary, is_whitespace, windows_1252_char};
use jomini::number::{
    ascii_u64_to_digits, is_digits, is_digits_wide, position, power10, to_bool, to_decimal, to_i64,
    to_u64,
};
use jomini::text::tape::forward_search;
use jomini::windows1252::{
    is_plain_ascii, trimmed_len, windows_1252_to_utf8, windows_1252_to_utf8_owned,
    windows_1252_unescape,
};
use jomini::util::{contains_zero_byte, le_i32, le_u64, repeat_byte};
use jomini::{
    Ck3Flavor, Decimal, Encoding, ErrorKind, Eu4Flavor, Scalar, Scalar1252, ScalarError,
    ScalarUtf8, TextParser, TextTape, TextToken, Utf8, Windows1252,
};
use std::borrow::Cow;

fn tokens(data: &[u8]) -> Vec<TextToken<Scalar1252<'_>>> {
    let mut tape = TextTape::new();
    TextParser::windows1252_parser()
        .parse_slice_into_tape(data, &mut tape)
        .unwrap();
    let mut out = Vec::new();
    for t in tape.tokens() {
        out.push(match t {
            TextToken::Array(x) => TextToken::Array(*x),
            TextToken::Object(x) => TextToken::Object(*x),
            TextToken::Scalar(s) => TextToken::Scalar(*s),
            TextToken::End(x) => TextToken::End(*x),
            TextToken::Rgb(c) => TextToken::Rgb(c.clone()),
        });
    }
    out
}

fn kind(data: &[u8]) -> ErrorKind {
    TextParser::from_windows1252(data).unwrap_err().into_kind()
}

fn linked(tape: &[TextToken<Scalar1252<'_>>]) -> bool {
    tape.iter().enumerate().all(|(i, t)| match t {
        TextToken::Array(e) | TextToken::Object(e) => {
            *e > i && *e < tape.len() && tape[*e] == TextToken::End(i)
        }
        TextToken::End(s) => {
            *s < i
                && match &tape[*s] {
                    TextToken::Array(e) | TextToken::Object(e) => *e == i,
                    _ => false,
                }
        }
        _ => true,
    })
}

fn laminar(tape: &[TextToken<Scalar1252<'_>>]) -> bool {
    let mut spans = Vec::new();
    for (i, t) in tape.iter().enumerate() {
        if let TextToken::Array(e) | TextToken::Object(e) = t {
            spans.push((i, *e));
        }
    }
    spans
        .iter()
        .all(|(p, e)| spans.iter().all(|(q, f)| !(p < q) || f < e || e < q))
}

fn walk(tape: &[TextToken<Scalar1252<'_>>]) -> Option<usize> {
    let mut i = 0;
    while i < tape.len() {
        i = match &tape[i] {
            TextToken::Array(e) | TextToken::Object(e) if *e >= i => e + 1,
            TextToken::End(_) => return None,
            TextToken::Array(_) | TextToken::Object(_) => return None,
            _ => i + 1,
        };
    }
    Some(i)
}

#[test]
fn empty_input_is_an_empty_tape() {
    assert_eq!(tokens(b""), vec![]);
    assert_eq!(tokens(b"  \r\n\t # nothing here"), vec![]);
}

#[test]
fn single_close_is_stack_empty_at_zero() {
    assert_eq!(kind(b"}"), ErrorKind::StackEmpty { offset: 0 });
}

#[test]
fn stray_close_is_stack_empty_at_its_offset() {
    assert_eq!(kind(b"foo={}} a=c"), ErrorKind::StackEmpty { offset: 6 });
    assert_eq!(kind(b"a=b\n }"), ErrorKind::StackEmpty { offset: 5 });
}

#[test]
fn unclosed_container_is_eof() {
    assert_eq!(kind(b"foo={bar=qux"), ErrorKind::Eof);
    assert_eq!(kind(b"foo={"), ErrorKind::Eof);
    assert_eq!(kind(b"foo"), ErrorKind::Eof);
    assert_eq!(kind(b"foo="), ErrorKind::Eof);
}

#[test]
fn unclosed_quote_is_eof() {
    assert_eq!(kind(b"foo=\"bar"), ErrorKind::Eof);
    assert_eq!(kind(b"foo=\"bar\\\""), ErrorKind::Eof);
    assert_eq!(kind(b"foo=\"0123456789abcdef\\"), ErrorKind::Eof);
}

#[test]
fn empty_object_sentinel_must_close_at_once() {
    assert_eq!(
        kind(b"foo={bar=val {a}}"),
        ErrorKind::InvalidEmptyObject { offset: 14 }
    );
    assert_eq!(
        tokens(b"{} a=b"),
        vec![
            TextToken::Scalar(Scalar1252::new(b"a")),
            TextToken::Scalar(Scalar1252::new(b"b")),
        ]
    );
}

#[test]
fn bad_color_channel_is_invalid_syntax() {
    assert_eq!(
        kind(b"color = rgb { 100 blue 150 }"),
        ErrorKind::InvalidSyntax {
            msg: "unable to decode color channel: blue".to_string(),
            offset: 18,
        }
    );
    assert_eq!(
        kind(b"color = rgb { x 1 2 }"),
        ErrorKind::InvalidSyntax {
            msg: "unable to decode color channel: x".to_string(),
            offset: 14,
        }
    );
    assert_eq!(
        kind(b"color = rgb { 1 2 3x }"),
        ErrorKind::InvalidSyntax {
            msg: "unable to decode color channel: 3x".to_string(),
            offset: 18,
        }
    );
}

#[test]
fn bad_color_channel_message_follows_the_encoding() {
    let data = [b"c=rgb { ".as_ref(), &[0xe9], b" 1 2 }"].concat();
    assert_eq!(
        kind(&data),
        ErrorKind::InvalidSyntax {
            msg: "unable to decode color channel: \u{e9}".to_string(),
            offset: 8,
        }
    );
    assert_eq!(
        TextParser::from_utf8(&data).unwrap_err().into_kind(),
        ErrorKind::InvalidSyntax {
            msg: "unable to decode color channel: \u{fffd}".to_string(),
            offset: 8,
        }
    );
}

#[test]
fn unclosed_rgb_is_invalid_syntax() {
    assert_eq!(
        kind(b"color = rgb { 100 200 150 250 }"),
        ErrorKind::InvalidSyntax {
            msg: "unable to detect rgb close".to_string(),
            offset: 26,
        }
    );
    assert_eq!(kind(b"color = rgb { 100 200"), ErrorKind::Eof);
}

#[test]
fn color_channels_are_cut_to_32_bits() {
    assert_eq!(
        tokens(b"c = rgb { 4294967296 4294967297 0 }"),
        vec![
            TextToken::Scalar(Scalar1252::new(b"c")),
            TextToken::Rgb(Box::new(jomini::Rgb { r: 0, g: 1, b: 0 })),
        ]
    );
}

#[test]
fn rgb_at_the_end_of_an_open_object_is_eof() {
    assert_eq!(kind(b"a={b=rgb"), ErrorKind::Eof);
}

#[test]
fn equals_at_key_position() {
    assert_eq!(
        tokens(b"==="),
        vec![
            TextToken::Scalar(Scalar1252::new(b"=")),
            TextToken::Scalar(Scalar1252::new(b"=")),
        ]
    );
    assert_eq!(
        tokens(b"==bar"),
        vec![
            TextToken::Scalar(Scalar1252::new(b"=")),
            TextToken::Scalar(Scalar1252::new(b"bar")),
        ]
    );
    assert_eq!(kind(b"=="), ErrorKind::Eof);
}

#[test]
fn trailing_comment_without_newline_is_ignored() {
    assert_eq!(
        tokens(b"foo=a # the end"),
        vec![
            TextToken::Scalar(Scalar1252::new(b"foo")),
            TextToken::Scalar(Scalar1252::new(b"a")),
        ]
    );
}

#[test]
fn quoted_scalars_of_every_length_up_to_three_words() {
    for len in 0..26 {
        for escape in 0..=len {
            let mut body = vec![b'x'; len];
            if escape < len {
                body[escape] = b'"';
                body.insert(escape, b'\\');
            }
            let mut data = b"k=\"".to_vec();
            data.extend_from_slice(&body);
            data.extend_from_slice(b"\" z=1");
            assert_eq!(
                tokens(&data),
                vec![
                    TextToken::Scalar(Scalar1252::new(b"k")),
                    TextToken::Scalar(Scalar1252::new(&body)),
                    TextToken::Scalar(Scalar1252::new(b"z")),
                    TextToken::Scalar(Scalar1252::new(b"1")),
                ]
            );
        }
    }
}

#[test]
fn parsed_tapes_are_linked_and_walkable() {
    let inputs: [&[u8]; 8] = [
        b"foo=bar",
        b"foo={bar=qux}",
        b"stats={{id=0 type=general} {id=1 type=admiral}}",
        b"levels={ 10 0=2 1=2 } foo={bar=qux}",
        b"16778374={ levels={ 10 0=2 1=2 } }",
        b"a={} b={{} {}} c={ {a=b} d e }",
        b"color = rgb { 100 200 150 } a = { rgb { 1 2 3 } }",
        b"brittany_area = { color = { 118  99  151 } 169 170 171 172 4384 }",
    ];
    for data in inputs.iter() {
        let tape = tokens(data);
        assert!(linked(&tape));
        assert!(laminar(&tape));
        assert_eq!(walk(&tape), Some(tape.len()));
    }
}

#[test]
fn hidden_object_must_start_with_a_scalar() {
    assert_eq!(
        kind(b"a={ {} =b }"),
        ErrorKind::InvalidSyntax {
            msg: "hidden object must start with a scalar key".to_string(),
            offset: 7,
        }
    );
    assert_eq!(
        kind(b"a={{}=b}"),
        ErrorKind::InvalidSyntax {
            msg: "hidden object must start with a scalar key".to_string(),
            offset: 5,
        }
    );
    assert_eq!(
        kind(b"a={ b {c=d} = e }"),
        ErrorKind::InvalidSyntax {
            msg: "hidden object must start with a scalar key".to_string(),
            offset: 12,
        }
    );
}

#[test]
fn no_object_is_closed_inside_a_hidden_object() {
    let expected = ErrorKind::InvalidSyntax {
        msg: "unable to close an object inside a hidden object".to_string(),
        offset: 15,
    };
    assert_eq!(kind(b"a={1 2=3 b={c=d}"), expected);
    assert_eq!(kind(b"a={1 2=3 b={c=d} }"), expected);
    assert_eq!(kind(b"a={1 2=3 b={c=d} } e=f"), expected);
    assert_eq!(
        kind(b"a={1 2={ {x=y} } }"),
        ErrorKind::InvalidSyntax {
            msg: "unable to close an object inside a hidden object".to_string(),
            offset: 13,
        }
    );
}

#[test]
fn array_inside_a_hidden_object() {
    let tape = tokens(b"a={1 2={3 4} }");
    assert_eq!(
        tape,
        vec![
            TextToken::Scalar(Scalar1252::new(b"a")),
            TextToken::Array(10),
            TextToken::Scalar(Scalar1252::new(b"1")),
            TextToken::Object(9),
            TextToken::Scalar(Scalar1252::new(b"2")),
            TextToken::Array(8),
            TextToken::Scalar(Scalar1252::new(b"3")),
            TextToken::Scalar(Scalar1252::new(b"4")),
            TextToken::End(5),
            TextToken::End(3),
            TextToken::End(1),
        ]
    );
    assert!(linked(&tape));
    assert_eq!(walk(&tape), Some(tape.len()));
}

#[test]
fn parsing_twice_gives_the_same_tape() {
    let data = b"levels={ 10 0=2 1=2 } foo={bar=qux} # done";
    assert_eq!(tokens(data), tokens(data));
    assert_eq!(
        TextParser::from_windows1252(data).unwrap().tokens(),
        TextParser::windows1252_parser()
            .parse_slice(data)
            .unwrap()
            .tokens()
    );
}

#[test]
fn a_used_tape_is_cleared_before_it_is_filled() {
    let mut tape = TextTape::new();
    TextParser::windows1252_parser()
        .parse_slice_into_tape(b"a={b=c} d={1 2 3}", &mut tape)
        .unwrap();
    assert_eq!(tape.tokens().len(), 11);
    TextParser::windows1252_parser()
        .parse_slice_into_tape(b"x=y", &mut tape)
        .unwrap();
    assert_eq!(
        tape.tokens(),
        TextParser::from_windows1252(b"x=y").unwrap().tokens()
    );
    assert!(TextParser::windows1252_parser()
        .parse_slice_into_tape(b"x={", &mut tape)
        .is_err());
    TextParser::windows1252_parser()
        .parse_slice_into_tape(b"", &mut tape)
        .unwrap();
    assert_eq!(tape.tokens().len(), 0);
}

#[test]
fn both_encodings_cut_the_same_bytes() {
    let data = "name=\"J\u{e5}hk\" list={ a b=c }".as_bytes();
    let a = TextParser::from_windows1252(data).unwrap();
    let b = TextParser::from_utf8(data).unwrap();
    assert_eq!(a.tokens().len(), b.tokens().len());
    for (x, y) in a.tokens().iter().zip(b.tokens().iter()) {
        match (x, y) {
            (TextToken::Scalar(s), TextToken::Scalar(t)) => {
                assert_eq!(s.view_data(), t.view_data())
            }
            (TextToken::Array(i), TextToken::Array(j)) => assert_eq!(i, j),
            (TextToken::Object(i), TextToken::Object(j)) => assert_eq!(i, j),
            (TextToken::End(i), TextToken::End(j)) => assert_eq!(i, j),
            _ => panic!("the tapes differ"),
        }
    }
}

#[test]
fn encodings_wrap_without_copying() {
    let data = b"abc";
    assert_eq!(Windows1252::new().scalar(data).view_data().as_ptr(), data.as_ptr());
    assert_eq!(Utf8::new().scalar(data).view_data().as_ptr(), data.as_ptr());
    assert_eq!(
        TextParser::from_encoding(Utf8::new())
            .parse_slice(b"a=b")
            .unwrap()
            .tokens(),
        vec![
            TextToken::Scalar(ScalarUtf8::new(b"a")),
            TextToken::Scalar(ScalarUtf8::new(b"b")),
        ]
    );
}

#[test]
fn to_u64_agrees_with_the_standard_parser() {
    let inputs = [
        "0",
        "7",
        "00000000",
        "12345678",
        "123456789",
        "1234567812345678",
        "12345678123456789",
        "0000000000000000000000000001",
        "18446744073709551615",
        "9999999999999999999",
        "10000000000000000000",
    ];
    for s in inputs.iter() {
        assert_eq!(to_u64(s.as_bytes()), Ok(s.parse::<u64>().unwrap()));
    }
}

#[test]
fn to_u64_overflows_beyond_64_bits() {
    assert_eq!(to_u64(b"18446744073709551616"), Err(ScalarError::Overflow));
    assert_eq!(to_u64(b"99999999999999999999"), Err(ScalarError::Overflow));
    assert_eq!(
        to_u64(b"184467440737095516150"),
        Err(ScalarError::Overflow)
    );
    assert_eq!(
        to_u64(b"1000000000000000000000000000000000"),
        Err(ScalarError::Overflow)
    );
}

#[test]
fn to_u64_wants_digits_only() {
    assert_eq!(to_u64(b""), Err(ScalarError::AllDigits));
    assert_eq!(to_u64(b"-1"), Err(ScalarError::AllDigits));
    assert_eq!(to_u64(b"12a"), Err(ScalarError::AllDigits));
    assert_eq!(to_u64(b"1234567a"), Err(ScalarError::AllDigits));
    assert_eq!(to_u64(b"12345678:"), Err(ScalarError::AllDigits));
    assert_eq!(to_u64(b"1234567/9"), Err(ScalarError::AllDigits));
    assert_eq!(
        to_u64(b"99999999999999999999999999999x"),
        Err(ScalarError::AllDigits)
    );
}

#[test]
fn to_i64_covers_the_whole_range() {
    assert_eq!(to_i64(b"9223372036854775807"), Ok(i64::MAX));
    assert_eq!(to_i64(b"-9223372036854775808"), Ok(i64::MIN));
    assert_eq!(to_i64(b"-0"), Ok(0));
    assert_eq!(to_i64(b"9223372036854775808"), Err(ScalarError::Overflow));
    assert_eq!(to_i64(b"-9223372036854775809"), Err(ScalarError::Overflow));
    assert_eq!(to_i64(b"18446744073709551616"), Err(ScalarError::Overflow));
    assert_eq!(to_i64(b"-"), Err(ScalarError::AllDigits));
    assert_eq!(to_i64(b"--1"), Err(ScalarError::AllDigits));
    assert_eq!(to_i64(b"+1"), Err(ScalarError::AllDigits));
    assert_eq!(to_i64(b""), Err(ScalarError::AllDigits));
}

#[test]
fn to_bool_knows_yes_and_no_only() {
    assert_eq!(to_bool(b"yes"), Ok(true));
    assert_eq!(to_bool(b"no"), Ok(false));
    for other in [&b""[..], b"y", b"ye", b"yes ", b"Yes", b"NO", b"true", b"1", b"non"].iter() {
        assert_eq!(to_bool(other), Err(ScalarError::InvalidBool));
    }
}

#[test]
fn to_decimal_splits_at_the_first_point() {
    assert_eq!(
        to_decimal(b"1.00125"),
        Ok(Decimal { lead: 1, frac: 125, scale: 100_000 })
    );
    assert_eq!(
        to_decimal(b"-1.50000"),
        Ok(Decimal { lead: -1, frac: 50000, scale: 100_000 })
    );
    assert_eq!(
        to_decimal(b"0.123456789"),
        Ok(Decimal { lead: 0, frac: 123456789, scale: 1_000_000_000 })
    );
    assert_eq!(to_decimal(b"0.1234567890"), Err(ScalarError::Overflow));
    assert_eq!(to_decimal(b"1.2.3"), Err(ScalarError::AllDigits));
    assert_eq!(to_decimal(b"1.-5"), Err(ScalarError::AllDigits));
    assert_eq!(to_decimal(b"-1.-5"), Err(ScalarError::AllDigits));
    assert_eq!(to_decimal(b"x.-5"), Err(ScalarError::AllDigits));
    assert_eq!(to_decimal(b"1.-0000000000"), Err(ScalarError::AllDigits));
    assert_eq!(
        to_decimal(b"-0.5"),
        Ok(Decimal { lead: 0, frac: 5, scale: 10 })
    );
    assert_eq!(to_decimal(b".5"), Err(ScalarError::AllDigits));
    assert_eq!(to_decimal(b"5."), Err(ScalarError::AllDigits));
    assert_eq!(to_decimal(b"x.0000000000"), Err(ScalarError::AllDigits));
    assert_eq!(to_decimal(b"1.x000000000"), Err(ScalarError::AllDigits));
    assert_eq!(
        to_decimal(b"99999999999999999999.5"),
        Err(ScalarError::Overflow)
    );
}

#[test]
fn to_decimal_of_an_integer_is_the_integer() {
    for s in ["0", "1", "-1", "20405029553322", "-9223372036854775808"].iter() {
        let lead = to_i64(s.as_bytes()).unwrap();
        assert_eq!(
            to_decimal(s.as_bytes()),
            Ok(Decimal { lead, frac: 0, scale: 1 })
        );
    }
}

#[test]
fn digits_are_told_from_their_neighbours() {
    assert!(is_digits_wide(b"01234567"));
    assert!(is_digits_wide(b"99999999"));
    assert!(!is_digits_wide(b"0123456/"));
    assert!(!is_digits_wide(b":1234567"));
    assert!(!is_digits_wide(&[0xff; 8]));
    assert!(!is_digits_wide(&[0x30, 0x30, 0x30, 0x30, 0x30, 0x30, 0x30, 0xfa]));
    assert!(is_digits(b""));
    assert!(is_digits(b"0123456789"));
    assert!(!is_digits(b"12 "));
    assert_eq!(ascii_u64_to_digits(le_u64(b"12345678")), 12345678);
    assert_eq!(ascii_u64_to_digits(le_u64(b"00000000")), 0);
    assert_eq!(ascii_u64_to_digits(le_u64(b"99999999")), 99999999);
}

#[test]
fn words_are_little_endian() {
    assert_eq!(le_u64(&[1, 2, 3, 4, 5, 6, 7, 8]), 0x0807060504030201);
    assert_eq!(le_u64(&[1, 2, 3, 4, 5, 6, 7, 8, 9]), 0x0807060504030201);
    assert_eq!(le_i32(&[0xff, 0xff, 0xff, 0xff]), -1);
    assert_eq!(le_i32(&[0x00, 0x00, 0x00, 0x80]), i32::MIN);
    assert_eq!(le_i32(&[0x78, 0x56, 0x34, 0x12]), 0x12345678);
    assert_eq!(repeat_byte(0x5c), 0x5c5c5c5c5c5c5c5c);
    assert_eq!(repeat_byte(0), 0);
    assert_eq!(repeat_byte(0xff), u64::MAX);
    assert!(contains_zero_byte(0));
    assert!(contains_zero_byte(0x1100_1111_1111_1111));
    assert!(contains_zero_byte(0x1111_1111_1111_1100));
    assert!(!contains_zero_byte(0x0101_0101_0101_0101));
    assert!(!contains_zero_byte(u64::MAX));
    assert!(!contains_zero_byte(0x8001_0180_0101_0101));
}

#[test]
fn plain_text_is_borrowed() {
    let data = b"hello world";
    match windows_1252_to_utf8(data) {
        Cow::Borrowed(s) => {
            assert_eq!(s, "hello world");
            assert_eq!(s.as_ptr(), data.as_ptr());
        }
        Cow::Owned(_) => panic!("plain text is its own string"),
    }
    assert!(matches!(windows_1252_to_utf8(b""), Cow::Borrowed("")));
    assert!(matches!(
        windows_1252_to_utf8(b"0123456789abcdef"),
        Cow::Borrowed("0123456789abcdef")
    ));
}

#[test]
fn other_text_is_owned() {
    assert!(matches!(windows_1252_to_utf8(b"new\n"), Cow::Owned(_)));
    assert!(matches!(windows_1252_to_utf8(b"a\\\"b"), Cow::Owned(_)));
    assert!(matches!(windows_1252_to_utf8(&[b'a', 0xe9]), Cow::Owned(_)));
    assert!(matches!(
        windows_1252_to_utf8(b"0123456789abcde\\"),
        Cow::Owned(_)
    ));
    assert!(matches!(
        windows_1252_to_utf8(&[b'0', b'1', b'2', b'3', b'4', b'5', b'6', 0x80, b'8']),
        Cow::Owned(_)
    ));
}

#[test]
fn escapes_are_read_as_pairs() {
    assert_eq!(windows_1252_to_utf8_owned(b"a\\\\b"), "a\\b");
    assert_eq!(windows_1252_to_utf8_owned(b"\\\\\\\""), "\\\"");
    assert_eq!(windows_1252_to_utf8_owned(b"\\\\\\\\"), "\\\\");
    assert_eq!(windows_1252_to_utf8_owned(b"0123456\\\\89"), "0123456\\89");
    assert_eq!(windows_1252_to_utf8_owned(b"\\"), "");
    assert_eq!(windows_1252_to_utf8_owned(b"\\\\ "), "\\");
    assert_eq!(windows_1252_to_utf8_owned(&[b'\\', 0x80]), "\u{20ac}");
    assert_eq!(windows_1252_to_utf8_owned(b"a\\nb\\"), "anb");
    assert_eq!(windows_1252_to_utf8_owned(b"\\\"quoted\\\" \t\r\n"), "\"quoted\"");
    assert_eq!(windows_1252_to_utf8_owned(b" \t"), "");
    assert_eq!(windows_1252_to_utf8_owned(b" a "), " a");
    assert_eq!(windows_1252_to_utf8_owned(&[0x0b, b'a', 0x0b, 0x0c]), "\u{b}a");
}

#[test]
fn code_page_is_the_best_fit_one() {
    let all: Vec<u8> = (0..=255u8).filter(|b| *b != b'\\').collect();
    let kept: Vec<u8> = all.iter().copied().filter(|b| *b > 0x20).collect();
    let (expected, _) = encoding_rs::WINDOWS_1252.decode_without_bom_handling(&kept);
    assert_eq!(windows_1252_to_utf8_owned(&kept), expected);
    assert_eq!(
        windows_1252_to_utf8_owned(&[0x80, 0x9f, 0xa0, 0xff]),
        "\u{20ac}\u{178}\u{a0}\u{ff}"
    );
}

#[test]
fn utf8_text_is_decoded_lossily() {
    let good = ScalarUtf8::new("J\u{e5}hk".as_bytes());
    assert!(matches!(good.to_utf8(), Cow::Borrowed("J\u{e5}hk")));
    assert_eq!(good.to_utf8_owned(), "J\u{e5}hk");
    let bad = ScalarUtf8::new(&[b'a', 0xe5, b'b']);
    assert!(matches!(bad.to_utf8(), Cow::Owned(_)));
    assert_eq!(bad.to_utf8_owned(), "a\u{fffd}b");
    assert_eq!(bad.to_utf8().as_ref(), "a\u{fffd}b");
}

#[test]
fn scalars_know_whether_they_are_ascii() {
    assert!(Scalar1252::new(b"").is_ascii());
    assert!(Scalar1252::new(b"0123456789abcdef\\ ").is_ascii());
    assert!(!Scalar1252::new(&[b'a', 0x80]).is_ascii());
    assert!(!ScalarUtf8::new(&[0, 1, 2, 3, 4, 5, 6, 0xff, 8]).is_ascii());
    assert!(!ScalarUtf8::new(&[0, 1, 2, 3, 4, 5, 6, 7, 0xff]).is_ascii());
}

#[test]
fn scalar_errors_say_what_went_wrong() {
    assert_eq!(
        ScalarError::AllDigits.message(),
        "scalar did not contain all digits"
    );
    assert_eq!(ScalarError::InvalidBool.message(), "scalar is not a valid bool");
    assert_eq!(ScalarError::Overflow.message(), "scalar caused an overflow");
}

#[test]
fn errors_give_their_offset() {
    assert_eq!(TextParser::from_utf8(b"a={").unwrap_err().offset(), None);
    assert_eq!(TextParser::from_utf8(b"a=b }").unwrap_err().offset(), Some(4));
    assert_eq!(TextParser::from_utf8(b"{x").unwrap_err().offset(), Some(1));
    assert_eq!(
        TextParser::from_utf8(b"a=rgb{1 2 3 4}").unwrap_err().offset(),
        Some(12)
    );
}

#[test]
fn forward_search_finds_the_first_match() {
    assert_eq!(forward_search(b"  \t a b", |x| x != b' ' && x != b'\t'), Some(4));
    assert_eq!(forward_search(b"abc", |x| x == b'a'), Some(0));
    assert_eq!(forward_search(b"abc", |x| x == b'z'), None);
    assert_eq!(forward_search(b"", |_| true), None);
}

#[test]
fn helpers_of_the_decoders() {
    assert_eq!(position(b"12.5", b'.'), 2);
    assert_eq!(position(b"125", b'.'), 3);
    assert_eq!(position(b"", b'.'), 0);
    assert_eq!(power10(0), 1);
    assert_eq!(power10(7), 10_000_000);
    assert_eq!(power10(9), 1_000_000_000);
    assert_eq!(trimmed_len(b"ab \t\r\n\x0b\x0c"), 2);
    assert_eq!(trimmed_len(b" a"), 2);
    assert_eq!(trimmed_len(b"  "), 0);
    assert!(is_plain_ascii(b"plain text, eight bytes and more"));
    assert!(!is_plain_ascii(b"plain text, eight bytes and \\"));
    assert!(!is_plain_ascii(b"plain \\ text, eight bytes"));
    assert!(!is_plain_ascii(&[b'a', 0x80]));
    assert_eq!(windows_1252_unescape(b"a\\b \x80"), "ab \u{20ac}");
}

#[test]
fn character_classes() {
    for b in 0..=255u8 {
        let ws = matches!(b, b' ' | b'\t' | b'\n' | b'\r' | 0x0b | 0x0c);
        assert_eq!(is_whitespace(b), ws);
        assert_eq!(
            is_boundary(b),
            ws || matches!(b, b'{' | b'}' | b'=' | b'#' | b'"')
        );
        let byte = [b];
        let (expected, _) = encoding_rs::WINDOWS_1252.decode_without_bom_handling(&byte);
        assert_eq!(windows_1252_char(b).to_string(), expected);
    }
}

#[test]
fn flavors_make_scalars_of_their_encoding() {
    let data = [b'a', 0xe5];
    assert_eq!(Eu4Flavor::new().scalar(&data).to_utf8_owned(), "a\u{e5}");
    assert_eq!(Ck3Flavor::new().scalar(&data).to_utf8_owned(), "a\u{fffd}");
    assert_eq!(Eu4Flavor::default().scalar(&data).view_data(), &data[..]);
    assert_eq!(Ck3Flavor::default().scalar(&data).view_data(), &data[..]);
}

#[test]
fn a_parser_by_default_has_the_default_of_its_encoding() {
    let parser: jomini::TextTapeParser<Windows1252> = Default::default();
    assert_eq!(
        parser.parse_slice(b"a=b").unwrap().tokens(),
        TextParser::from_windows1252(b"a=b").unwrap().tokens()
    );
    let parser: jomini::TextTapeParser<Utf8> = Default::default();
    assert_eq!(
        parser.parse_slice(b"a=b").unwrap().tokens(),
        TextParser::from_utf8(b"a=b").unwrap().tokens()
    );
}
