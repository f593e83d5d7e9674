use jomini::{Scalar, Scalar1252, TextParser, TextToken};

#[derive(Clone, Copy, PartialEq)]
enum Place {
    Key,
    Value,
    Element,
}

fn behind(place: Place) -> Place {
    match place {
        Place::Element => Place::Element,
        _ => Place::Key,
    }
}

fn quotable(b: &[u8]) -> bool {
    let mut i = 0;
    while i < b.len() {
        if b[i] == b'\\' {
            i += 2;
        } else if b[i] == b'"' {
            return false;
        } else {
            i += 1;
        }
    }
    i == b.len()
}

fn scalar_text(b: &[u8], out: &mut Vec<u8>) {
    if quotable(b) {
        out.push(b'"');
        out.extend_from_slice(b);
        out.push(b'"');
    } else {
        out.extend_from_slice(b);
    }
}

fn text(t: &[TextToken<Scalar1252<'_>>], lo: usize, hi: usize, place: Place, out: &mut Vec<u8>) {
    if lo >= hi {
        return;
    }
    match (place, &t[lo]) {
        (Place::Key, TextToken::Scalar(s)) => {
            out.push(b' ');
            scalar_text(s.view_data(), out);
            out.push(b'=');
            text(t, lo + 1, hi, Place::Value, out);
        }
        (Place::Key, _) => {}
        (_, TextToken::Scalar(s)) => {
            out.push(b' ');
            scalar_text(s.view_data(), out);
            text(t, lo + 1, hi, behind(place), out);
        }
        (_, TextToken::Rgb(c)) => {
            out.extend_from_slice(format!(" rgb{{ {} {} {}}}", c.r, c.g, c.b).as_bytes());
            text(t, lo + 1, hi, behind(place), out);
        }
        (_, TextToken::Array(e)) | (_, TextToken::Object(e)) => {
            if lo < *e && *e < hi {
                let inside = if matches!(t[lo], TextToken::Array(_)) {
                    Place::Element
                } else {
                    Place::Key
                };
                out.extend_from_slice(b" {");
                text(t, lo + 1, *e, inside, out);
                out.extend_from_slice(b" }");
                text(t, *e + 1, hi, behind(place), out);
            }
        }
        (_, TextToken::End(_)) => {}
    }
}

fn canonical_text(t: &[TextToken<Scalar1252<'_>>]) -> Vec<u8> {
    let mut out = Vec::new();
    text(t, 0, t.len(), Place::Key, &mut out);
    out
}

fn round_trips(data: &[u8]) -> bool {
    let tape = TextParser::from_windows1252(data).unwrap();
    let written = canonical_text(tape.tokens());
    match TextParser::from_windows1252(&written) {
        Ok(again) => again.tokens() == tape.tokens(),
        Err(_) => false,
    }
}

#[test]
fn canonical_text_of_a_small_document() {
    let tape = TextParser::from_windows1252(b"foo={bar=qux 1 2}\nc = rgb { 1 2 3 } d={}").unwrap();
    assert_eq!(
        canonical_text(tape.tokens()),
        b" \"foo\"= { \"bar\"= \"qux\" \"1\"= \"2\" } \"c\"= rgb{ 1 2 3} \"d\"= { }".to_vec()
    );
}

#[test]
fn documents_round_trip() {
    let inputs: [&[u8]; 16] = [
        b"",
        b"foo=bar",
        b"foo={bar=qux}",
        b"foo{bar=qux}",
        b"stats={{id=0 type=general} {id=1 type=admiral}}",
        b"levels={ 10 0=2 1=2 } foo={bar=qux}",
        b"16778374={ levels={ 10 0=2 1=2 } }",
        b"a={} b={{} {}} c={ {a=b} d e } # the end",
        b"color = rgb { 100 200 150 } a = { b = rgb { 4294967296 2 3 } c = rgb }",
        b"brittany_area = { color = { 118  99  151 } 169 170 171 172 4384 }",
        b"name = \"Joe \\\"Captain\\\" Rogers\" \"quoted key\" = \"\"",
        b"a={b=} c={d=e f}",
        b"=== a={==b}",
        b"path=C:\\games\\ b=c\\\\ d=e\\",
        b"a={1 2={3 4} } b={ x={ y={ z } } }",
        b"a = rgb b = rgbeffect c = { rgb { 1 2 3 } }",
    ];
    for data in inputs.iter() {
        assert!(round_trips(data));
    }
}

#[test]
fn scalars_that_quotes_cannot_hold_are_written_bare() {
    let tape = TextParser::from_windows1252(b"a=b\\ c=\"d\\\\\"").unwrap();
    assert_eq!(
        tape.tokens(),
        vec![
            TextToken::Scalar(Scalar1252::new(b"a")),
            TextToken::Scalar(Scalar1252::new(b"b\\")),
            TextToken::Scalar(Scalar1252::new(b"c")),
            TextToken::Scalar(Scalar1252::new(b"d\\\\")),
        ]
    );
    assert_eq!(
        canonical_text(tape.tokens()),
        b" \"a\"= b\\ \"c\"= \"d\\\\\"".to_vec()
    );
    assert!(round_trips(b"a=b\\ c=\"d\\\\\""));
}

#[test]
fn text_that_would_break_the_links_gives_no_tape() {
    assert!(TextParser::from_windows1252(b"a={ {} =b }").is_err());
    assert!(TextParser::from_windows1252(b"a={1 2=3 b={c=d}").is_err());
}
