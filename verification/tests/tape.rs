use jomini::{Error, ErrorKind, Rgb, Scalar1252, ScalarUtf8, TextParser, TextTape, TextToken};

fn parse<'a>(data: &'a [u8]) -> Result<TextTape<Scalar1252<'a>>, Error> {
    TextParser::from_windows1252(data)
}

#[test]
fn test_simple_event() {
    let data = b"foo=bar";

    assert_eq!(
        parse(&data[..]).unwrap().tokens(),
        vec![
            TextToken::Scalar(Scalar1252::new(b"foo")),
            TextToken::Scalar(Scalar1252::new(b"bar")),
        ]
    );
}

#[test]
fn test_error_offset() {
    let data = b"foo={}} a=c";
    let err = TextParser::from_windows1252(data).unwrap_err();
    match err.kind() {
        ErrorKind::StackEmpty { offset, .. } => {
            assert_eq!(*offset, 6);
        }
        _ => assert!(false),
    }
}

#[test]
fn test_simple_event_with_spaces() {
    let data = b"  \t\t foo =bar \r\ndef=\tqux";

    assert_eq!(
        parse(&data[..]).unwrap().tokens(),
        vec![
            TextToken::Scalar(Scalar1252::new(b"foo")),
            TextToken::Scalar(Scalar1252::new(b"bar")),
            TextToken::Scalar(Scalar1252::new(b"def")),
            TextToken::Scalar(Scalar1252::new(b"qux")),
        ]
    );
}

#[test]
fn test_scalars_with_quotes() {
    let data = br#""foo"="bar" "3"="1444.11.11""#;
    assert_eq!(
        parse(&data[..]).unwrap().tokens(),
        vec![
            TextToken::Scalar(Scalar1252::new(b"foo")),
            TextToken::Scalar(Scalar1252::new(b"bar")),
            TextToken::Scalar(Scalar1252::new(b"3")),
            TextToken::Scalar(Scalar1252::new(b"1444.11.11")),
        ]
    );
}

#[test]
fn test_escaped_quotes() {
    let data = br#"name = "Joe \"Captain\" Rogers""#;

    assert_eq!(
        parse(&data[..]).unwrap().tokens(),
        vec![
            TextToken::Scalar(Scalar1252::new(b"name")),
            TextToken::Scalar(Scalar1252::new(br#"Joe \"Captain\" Rogers"#)),
        ]
    );
}

#[test]
fn test_escaped_quotes_short() {
    let data = br#"name = "J Rogers \"a""#;

    assert_eq!(
        parse(&data[..]).unwrap().tokens(),
        vec![
            TextToken::Scalar(Scalar1252::new(b"name")),
            TextToken::Scalar(Scalar1252::new(br#"J Rogers \"a"#)),
        ]
    );
}

#[test]
fn test_escaped_quotes_crazy() {
    let data = br#"custom_name="THE !@#$%^&*( '\"LEGION\"')""#;

    assert_eq!(
        parse(&data[..]).unwrap().tokens(),
        vec![
            TextToken::Scalar(Scalar1252::new(b"custom_name")),
            TextToken::Scalar(Scalar1252::new(br#"THE !@#$%^&*( '\"LEGION\"')"#)),
        ]
    );
}

#[test]
fn test_numbers_are_scalars() {
    let data = b"foo=1.000";

    assert_eq!(
        parse(&data[..]).unwrap().tokens(),
        vec![
            TextToken::Scalar(Scalar1252::new(b"foo")),
            TextToken::Scalar(Scalar1252::new(b"1.000")),
        ]
    );
}

#[test]
fn test_object_event() {
    let data = b"foo={bar=qux}";

    assert_eq!(
        parse(&data[..]).unwrap().tokens(),
        vec![
            TextToken::Scalar(Scalar1252::new(b"foo")),
            TextToken::Object(4),
            TextToken::Scalar(Scalar1252::new(b"bar")),
            TextToken::Scalar(Scalar1252::new(b"qux")),
            TextToken::End(1),
        ]
    );
}

#[test]
fn test_object_multi_field_event() {
    let data = b"foo={bar=1 qux=28}";

    assert_eq!(
        parse(&data[..]).unwrap().tokens(),
        vec![
            TextToken::Scalar(Scalar1252::new(b"foo")),
            TextToken::Object(6),
            TextToken::Scalar(Scalar1252::new(b"bar")),
            TextToken::Scalar(Scalar1252::new(b"1")),
            TextToken::Scalar(Scalar1252::new(b"qux")),
            TextToken::Scalar(Scalar1252::new(b"28")),
            TextToken::End(1),
        ]
    );
}

#[test]
fn test_text_parser_tape() {
    let mut tape = TextTape::new();

    let data = b"foo={bar=1 qux=28}";

    TextParser::windows1252_parser()
        .parse_slice_into_tape(data, &mut tape)
        .unwrap();

    assert_eq!(
        tape.tokens(),
        vec![
            TextToken::Scalar(Scalar1252::new(b"foo")),
            TextToken::Object(6),
            TextToken::Scalar(Scalar1252::new(b"bar")),
            TextToken::Scalar(Scalar1252::new(b"1")),
            TextToken::Scalar(Scalar1252::new(b"qux")),
            TextToken::Scalar(Scalar1252::new(b"28")),
            TextToken::End(1),
        ]
    );

    let data2 = b"foo2={bar2=3 qux2=29}";
    TextParser::windows1252_parser()
        .parse_slice_into_tape(data2, &mut tape)
        .unwrap();

    assert_eq!(
        tape.tokens(),
        vec![
            TextToken::Scalar(Scalar1252::new(b"foo2")),
            TextToken::Object(6),
            TextToken::Scalar(Scalar1252::new(b"bar2")),
            TextToken::Scalar(Scalar1252::new(b"3")),
            TextToken::Scalar(Scalar1252::new(b"qux2")),
            TextToken::Scalar(Scalar1252::new(b"29")),
            TextToken::End(1),
        ]
    );
}

#[test]
fn test_array_event() {
    let data = b"versions={\r\n\t\"1.28.3.0\"\r\n}";

    assert_eq!(
        parse(&data[..]).unwrap().tokens(),
        vec![
            TextToken::Scalar(Scalar1252::new(b"versions")),
            TextToken::Array(3),
            TextToken::Scalar(Scalar1252::new(b"1.28.3.0")),
            TextToken::End(1),
        ]
    );
}

#[test]
fn test_array_multievent() {
    let data = b"versions={\r\n\t\"1.28.3.0\"\r\n foo}";

    assert_eq!(
        parse(&data[..]).unwrap().tokens(),
        vec![
            TextToken::Scalar(Scalar1252::new(b"versions")),
            TextToken::Array(4),
            TextToken::Scalar(Scalar1252::new(b"1.28.3.0")),
            TextToken::Scalar(Scalar1252::new(b"foo")),
            TextToken::End(1),
        ]
    );
}

#[test]
fn test_no_equal_object_event() {
    let data = b"foo{bar=qux}";

    assert_eq!(
        parse(&data[..]).unwrap().tokens(),
        vec![
            TextToken::Scalar(Scalar1252::new(b"foo")),
            TextToken::Object(4),
            TextToken::Scalar(Scalar1252::new(b"bar")),
            TextToken::Scalar(Scalar1252::new(b"qux")),
            TextToken::End(1),
        ]
    );
}

#[test]
fn test_empty_array() {
    let data = b"discovered_by={}";

    assert_eq!(
        parse(&data[..]).unwrap().tokens(),
        vec![
            TextToken::Scalar(Scalar1252::new(b"discovered_by")),
            TextToken::Array(2),
            TextToken::End(1),
        ]
    );
}

#[test]
fn test_array_of_objects() {
    let data = b"stats={{id=0 type=general} {id=1 type=admiral}}";

    assert_eq!(
        parse(&data[..]).unwrap().tokens(),
        vec![
            TextToken::Scalar(Scalar1252::new(b"stats")),
            TextToken::Array(14),
            TextToken::Object(7),
            TextToken::Scalar(Scalar1252::new(b"id")),
            TextToken::Scalar(Scalar1252::new(b"0")),
            TextToken::Scalar(Scalar1252::new(b"type")),
            TextToken::Scalar(Scalar1252::new(b"general")),
            TextToken::End(2),
            TextToken::Object(13),
            TextToken::Scalar(Scalar1252::new(b"id")),
            TextToken::Scalar(Scalar1252::new(b"1")),
            TextToken::Scalar(Scalar1252::new(b"type")),
            TextToken::Scalar(Scalar1252::new(b"admiral")),
            TextToken::End(8),
            TextToken::End(1),
        ]
    );
}

#[test]
fn test_empty_objects2() {
    let data = b"foo={bar=val {}} me=you";

    assert_eq!(
        parse(&data[..]).unwrap().tokens(),
        vec![
            TextToken::Scalar(Scalar1252::new(b"foo")),
            TextToken::Object(4),
            TextToken::Scalar(Scalar1252::new(b"bar")),
            TextToken::Scalar(Scalar1252::new(b"val")),
            TextToken::End(1),
            TextToken::Scalar(Scalar1252::new(b"me")),
            TextToken::Scalar(Scalar1252::new(b"you")),
        ]
    );
}

#[test]
fn test_spanning_objects() {
    let data = b"army={name=abc} army={name=def}";

    assert_eq!(
        parse(&data[..]).unwrap().tokens(),
        vec![
            TextToken::Scalar(Scalar1252::new(b"army")),
            TextToken::Object(4),
            TextToken::Scalar(Scalar1252::new(b"name")),
            TextToken::Scalar(Scalar1252::new(b"abc")),
            TextToken::End(1),
            TextToken::Scalar(Scalar1252::new(b"army")),
            TextToken::Object(9),
            TextToken::Scalar(Scalar1252::new(b"name")),
            TextToken::Scalar(Scalar1252::new(b"def")),
            TextToken::End(6),
        ]
    );
}

#[test]
fn test_mixed_object_array() {
    // This is something that probably won't have a deserialized test
    // as ... how should one interpret it?
    let data = br#"brittany_area = { #5
        color = { 118  99  151 }
        169 170 171 172 4384
    }"#;

    assert_eq!(
        parse(&data[..]).unwrap().tokens(),
        vec![
            TextToken::Scalar(Scalar1252::new(b"brittany_area")),
            TextToken::Object(13),
            TextToken::Scalar(Scalar1252::new(b"color")),
            TextToken::Array(7),
            TextToken::Scalar(Scalar1252::new(b"118")),
            TextToken::Scalar(Scalar1252::new(b"99")),
            TextToken::Scalar(Scalar1252::new(b"151")),
            TextToken::End(3),
            TextToken::Scalar(Scalar1252::new(b"169")),
            TextToken::Scalar(Scalar1252::new(b"170")),
            TextToken::Scalar(Scalar1252::new(b"171")),
            TextToken::Scalar(Scalar1252::new(b"172")),
            TextToken::Scalar(Scalar1252::new(b"4384")),
            TextToken::End(1),
        ]
    );
}

#[test]
fn test_regression() {
    let data = [0, 32, 34, 0];
    assert!(parse(&data[..]).is_err());
}

#[test]
fn test_regression2() {
    let data = [0, 4, 33, 0];
    let _ = parse(&data[..]);
}

#[test]
fn test_too_heavily_nested() {
    let mut data = Vec::new();
    data.extend_from_slice(b"foo=");
    for _ in 0..100000 {
        data.extend_from_slice(b"{");
    }
    assert!(parse(&data[..]).is_err());
}

#[test]
fn test_no_ws_comment() {
    let data = b"foo=abc#def\nbar=qux";

    assert_eq!(
        parse(&data[..]).unwrap().tokens(),
        vec![
            TextToken::Scalar(Scalar1252::new(b"foo")),
            TextToken::Scalar(Scalar1252::new(b"abc")),
            TextToken::Scalar(Scalar1252::new(b"bar")),
            TextToken::Scalar(Scalar1252::new(b"qux")),
        ]
    );
}

#[test]
fn test_period_in_identifiers() {
    let data = b"flavor_tur.8=yes";

    assert_eq!(
        parse(&data[..]).unwrap().tokens(),
        vec![
            TextToken::Scalar(Scalar1252::new(b"flavor_tur.8")),
            TextToken::Scalar(Scalar1252::new(b"yes")),
        ]
    );
}

#[test]
fn test_dashed_identifiers() {
    // From stellaris saves
    let data = b"dashed-identifier=yes";

    assert_eq!(
        parse(&data[..]).unwrap().tokens(),
        vec![
            TextToken::Scalar(Scalar1252::new(b"dashed-identifier")),
            TextToken::Scalar(Scalar1252::new(b"yes")),
        ]
    );
}

#[test]
fn test_colon_values() {
    let data = b"province_id = event_target:agenda_province";

    assert_eq!(
        parse(&data[..]).unwrap().tokens(),
        vec![
            TextToken::Scalar(Scalar1252::new(b"province_id")),
            TextToken::Scalar(Scalar1252::new(b"event_target:agenda_province")),
        ]
    );
}

#[test]
fn test_variables() {
    let data = b"@planet_standard_scale = 11";

    assert_eq!(
        parse(&data[..]).unwrap().tokens(),
        vec![
            TextToken::Scalar(Scalar1252::new(b"@planet_standard_scale")),
            TextToken::Scalar(Scalar1252::new(b"11")),
        ]
    );
}

#[test]
fn test_equal_identifier() {
    let data = br#"=="bar""#;

    assert_eq!(
        parse(&data[..]).unwrap().tokens(),
        vec![
            TextToken::Scalar(Scalar1252::new(b"=")),
            TextToken::Scalar(Scalar1252::new(b"bar")),
        ]
    );
}

#[test]
fn test_many_line_comment() {
    let mut data = Vec::new();
    data.extend_from_slice(b"foo=1.000\n");
    for _ in 0..100000 {
        data.extend_from_slice(b"# this is a comment\n");
    }
    data.extend_from_slice(b"foo=2.000\n");

    assert_eq!(
        parse(&data[..]).unwrap().tokens(),
        vec![
            TextToken::Scalar(Scalar1252::new(b"foo")),
            TextToken::Scalar(Scalar1252::new(b"1.000")),
            TextToken::Scalar(Scalar1252::new(b"foo")),
            TextToken::Scalar(Scalar1252::new(b"2.000")),
        ]
    );
}

#[test]
fn test_terminating_comment() {
    let data = b"# boo\r\n# baa\r\nfoo=a\r\n# bee";
    assert_eq!(
        parse(&data[..]).unwrap().tokens(),
        vec![
            TextToken::Scalar(Scalar1252::new(b"foo")),
            TextToken::Scalar(Scalar1252::new(b"a")),
        ]
    );
}

#[test]
fn test_rgb_trick() {
    let data = b"name = rgb ";

    assert_eq!(
        parse(&data[..]).unwrap().tokens(),
        vec![
            TextToken::Scalar(Scalar1252::new(b"name")),
            TextToken::Scalar(Scalar1252::new(b"rgb")),
        ]
    );
}

#[test]
fn test_rgb_trick2() {
    let data = b"name = rgb type = 4713";

    assert_eq!(
        parse(&data[..]).unwrap().tokens(),
        vec![
            TextToken::Scalar(Scalar1252::new(b"name")),
            TextToken::Scalar(Scalar1252::new(b"rgb")),
            TextToken::Scalar(Scalar1252::new(b"type")),
            TextToken::Scalar(Scalar1252::new(b"4713")),
        ]
    );
}

#[test]
fn test_rgb_trick3() {
    let data = b"name = rgbeffect";

    assert_eq!(
        parse(&data[..]).unwrap().tokens(),
        vec![
            TextToken::Scalar(Scalar1252::new(b"name")),
            TextToken::Scalar(Scalar1252::new(b"rgbeffect")),
        ]
    );
}

#[test]
fn test_rgb() {
    let data = b"color = rgb { 100 200 150 } ";

    assert_eq!(
        parse(&data[..]).unwrap().tokens(),
        vec![
            TextToken::Scalar(Scalar1252::new(b"color")),
            TextToken::Rgb(Box::new(Rgb {
                r: 100,
                g: 200,
                b: 150,
            })),
        ]
    );
}

#[test]
fn test_heterogenous_list() {
    let data = b"levels={ 10 0=2 1=2 } foo={bar=qux}";
    assert_eq!(
        parse(&data[..]).unwrap().tokens(),
        vec![
            TextToken::Scalar(Scalar1252::new(b"levels")),
            TextToken::Array(9),
            TextToken::Scalar(Scalar1252::new(b"10")),
            TextToken::Object(8),
            TextToken::Scalar(Scalar1252::new(b"0")),
            TextToken::Scalar(Scalar1252::new(b"2")),
            TextToken::Scalar(Scalar1252::new(b"1")),
            TextToken::Scalar(Scalar1252::new(b"2")),
            TextToken::End(3),
            TextToken::End(1),
            TextToken::Scalar(Scalar1252::new(b"foo")),
            TextToken::Object(14),
            TextToken::Scalar(Scalar1252::new(b"bar")),
            TextToken::Scalar(Scalar1252::new(b"qux")),
            TextToken::End(11),
        ]
    );
}

#[test]
fn test_hidden_object() {
    let data = b"16778374={ levels={ 10 0=2 1=2 } }";

    assert_eq!(
        parse(&data[..]).unwrap().tokens(),
        vec![
            TextToken::Scalar(Scalar1252::new(b"16778374")),
            TextToken::Object(12),
            TextToken::Scalar(Scalar1252::new(b"levels")),
            TextToken::Array(11),
            TextToken::Scalar(Scalar1252::new(b"10")),
            TextToken::Object(10),
            TextToken::Scalar(Scalar1252::new(b"0")),
            TextToken::Scalar(Scalar1252::new(b"2")),
            TextToken::Scalar(Scalar1252::new(b"1")),
            TextToken::Scalar(Scalar1252::new(b"2")),
            TextToken::End(5),
            TextToken::End(3),
            TextToken::End(1),
        ]
    );
}

#[test]
fn test_initial_end_does_not_panic() {
    let res = parse(&b"}"[..]);
    assert!(res.is_ok() || res.is_err());
}

#[test]
fn test_utf8_parser() {
    let data = "meta_title_name=\"Chiefdom of J\u{e5}hk\u{e5}m\u{e5}hkke\"";
    let tape = TextParser::from_utf8(data.as_bytes()).unwrap();
    assert_eq!(
        tape.tokens(),
        vec![
            TextToken::Scalar(ScalarUtf8::new("meta_title_name".as_bytes())),
            TextToken::Scalar(ScalarUtf8::new("Chiefdom of J\u{e5}hk\u{e5}m\u{e5}hkke".as_bytes())),
        ]
    );
}

#[test]
fn reject_txt_obj_in_hidden_obj() {
    let data = b"levels={ 10 0={ 1 2=3 } 1=2 }";
    assert!(TextParser::from_windows1252(&data[..]).is_err());
}
