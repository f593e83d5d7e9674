use jomini::{Scalar, Scalar1252, ScalarError, ScalarUtf8};

fn to_f64(s: Scalar1252) -> Result<f64, ScalarError> {
    let d = s.to_decimal()?;
    let sign = 1 | (d.lead >> 63);
    Ok((sign as f64).mul_add(d.frac as f64 / f64::from(d.scale), d.lead as f64))
}

#[test]
fn scalar_to_string() {
    assert_eq!(
        Scalar1252::new(&[255][..]).to_utf8_owned(),
        "\u{ff}".to_string()
    );
    assert_eq!(
        Scalar1252::new(&[138][..]).to_utf8_owned(),
        "\u{160}".to_string()
    );
    assert_eq!(
        Scalar1252::new(b"hello world").to_utf8_owned(),
        "hello world".to_string()
    );
    assert_eq!(
        Scalar1252::new(&[104, 105, 129, 138][..]).to_utf8_owned(),
        "hi\u{81}\u{160}".to_string()
    );

    assert_eq!(
        Scalar1252::new(&[0xfe, 0xff, 0xfe, 0xff, 0xfe, 0xff, 0xfe, 0xff, 0xfe, 0xff])
            .to_utf8_owned(),
        "\u{fe}\u{ff}\u{fe}\u{ff}\u{fe}\u{ff}\u{fe}\u{ff}\u{fe}\u{ff}".to_string()
    );
}

#[test]
fn scalar_string_trim_end_newlines() {
    assert_eq!(Scalar1252::new(b"new\n").to_utf8().as_ref(), "new");
    assert_eq!(Scalar1252::new(b"\t").to_utf8().as_ref(), "");
}

#[test]
fn scalar_to_bool() {
    assert_eq!((Scalar1252::new(b"yes").to_bool()), Ok(true));
    assert_eq!((Scalar1252::new(b"no").to_bool()), Ok(false));
    assert_eq!(to_f64(Scalar1252::new(b"-1")), Ok(-1.0));
}

#[test]
fn scalar_to_f64() {
    assert_eq!(to_f64(Scalar1252::new(b"0")), Ok(0.0));
    assert_eq!(to_f64(Scalar1252::new(b"1")), Ok(1.0));
    assert_eq!(to_f64(Scalar1252::new(b"-1")), Ok(-1.0));
    assert_eq!(to_f64(Scalar1252::new(b"-10000")), Ok(-10000.0));
    assert_eq!(to_f64(Scalar1252::new(b"10000")), Ok(10000.0));
    assert_eq!(to_f64(Scalar1252::new(b"20405029")), Ok(20405029.0));
    assert_eq!(to_f64(Scalar1252::new(b"-20405029")), Ok(-20405029.0));
    assert_eq!(
        to_f64(Scalar1252::new(b"20405029553322")),
        Ok(20405029553322.0)
    );
    assert_eq!(
        to_f64(Scalar1252::new(b"-20405029553322")),
        Ok(-20405029553322.0)
    );

    assert_eq!(to_f64(Scalar1252::new(b"0.504")), Ok(0.504));
    assert_eq!(to_f64(Scalar1252::new(b"1.00125")), Ok(1.00125));
    assert_eq!(to_f64(Scalar1252::new(b"-1.50000")), Ok(-1.5));
    assert_eq!(to_f64(Scalar1252::new(b"-10000.0")), Ok(-10000.0));
    assert_eq!(to_f64(Scalar1252::new(b"10000.000")), Ok(10000.0));
    assert_eq!(to_f64(Scalar1252::new(b"20405029.125")), Ok(20405029.125));
    assert_eq!(
        to_f64(Scalar1252::new(b"-20405029.125")),
        Ok(-20405029.125)
    );
    assert_eq!(
        to_f64(Scalar1252::new(b"20405029553322.015")),
        Ok(20405029553322.015)
    );
    assert_eq!(
        to_f64(Scalar1252::new(b"-20405029553322.015")),
        Ok(-20405029553322.015)
    );
}

#[test]
fn scalar_to_i64() {
    assert_eq!((Scalar1252::new(b"0").to_i64()), Ok(0));
    assert_eq!((Scalar1252::new(b"1").to_i64()), Ok(1));
    assert_eq!((Scalar1252::new(b"-1").to_i64()), Ok(-1));
    assert_eq!((Scalar1252::new(b"-10000").to_i64()), Ok(-10000));
    assert_eq!((Scalar1252::new(b"10000").to_i64()), Ok(10000));
    assert_eq!((Scalar1252::new(b"20405029").to_i64()), Ok(20405029));
    assert_eq!((Scalar1252::new(b"-20405029").to_i64()), Ok(-20405029));
    assert_eq!(
        (Scalar1252::new(b"20405029553322").to_i64()),
        Ok(20405029553322)
    );
    assert_eq!(
        (Scalar1252::new(b"-20405029553322").to_i64()),
        Ok(-20405029553322)
    );
}

#[test]
fn scalar_to_u64() {
    assert_eq!((Scalar1252::new(b"0").to_u64()), Ok(0));
    assert_eq!((Scalar1252::new(b"1").to_u64()), Ok(1));
    assert_eq!((Scalar1252::new(b"45").to_u64()), Ok(45));
    assert_eq!((Scalar1252::new(b"10000").to_u64()), Ok(10000));
    assert_eq!((Scalar1252::new(b"20405029").to_u64()), Ok(20405029));
    assert_eq!(
        (Scalar1252::new(b"20405029553322").to_u64()),
        Ok(20405029553322)
    );
}

#[test]
fn scalar_to_u64_overflow() {
    assert!(Scalar1252::new(b"888888888888888888888888888888888")
        .to_u64()
        .is_err());
    assert!(Scalar1252::new(b"666666666666666685902").to_u64().is_err());
}

#[test]
fn scalar_to_f64_overflow() {
    assert!(to_f64(Scalar1252::new(b"9999999999.99999999999999999")).is_err());
    assert!(to_f64(Scalar1252::new(b"999999999999999999999.999999999")).is_err());
    assert!(to_f64(Scalar1252::new(b"10.99999990999999999999999")).is_err());
    assert!(to_f64(Scalar1252::new(b"10.99999999999999")).is_err());
}

#[test]
fn scalar_string_escapes() {
    let s = Scalar1252::new(br#"Joe \"Captain\" Rogers"#);
    assert_eq!(s.to_utf8().as_ref(), r#"Joe "Captain" Rogers"#);
}

#[test]
fn scalar_to_string_undefined_characters() {
    // According to the information on Microsoft's and the Unicode Consortium's websites,
    // positions 81, 8D, 8F, 90, and 9D are unused; however, the Windows API
    // MultiByteToWideChar maps these to the corresponding C1 control codes. The "best fit"
    // mapping documents this behavior, too

    let data = &[0x81, 0x8d, 0x8f, 0x90, 0x9d];
    let scalar = Scalar1252::new(data);
    let (cow, _) = encoding_rs::WINDOWS_1252.decode_without_bom_handling(data);
    assert_eq!(scalar.to_utf8(), cow);
}

#[test]
fn scalar_empty_string() {
    let s = Scalar1252::new(b"");
    assert!(s.to_bool().is_err());
    assert!(to_f64(s).is_err());
    assert!(s.to_i64().is_err());
    assert!(s.to_u64().is_err());
}

#[test]
fn utf8_scalar_string() {
    let scalar = ScalarUtf8::new("J\u{e5}hk\u{e5}m\u{e5}hkke".as_bytes());
    assert_eq!(scalar.to_utf8(), "J\u{e5}hk\u{e5}m\u{e5}hkke");
}

#[test]
fn scalar_trait_test() {
    let scalar = ScalarUtf8::new("abc".as_bytes());
    let scalar2 = Scalar1252::new("abc".as_bytes());
    assert_eq!(scalar.view_data(), scalar2.view_data());
}
