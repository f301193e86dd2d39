use skytable::RespCode;

#[test]
fn known_codes_have_a_variant_each() {
    assert_eq!(RespCode::from_code(0), RespCode::Okay);
    assert_eq!(RespCode::from_code(1), RespCode::NotFound);
    assert_eq!(RespCode::from_code(2), RespCode::OverwriteError);
    assert_eq!(RespCode::from_code(3), RespCode::ActionError);
    assert_eq!(RespCode::from_code(4), RespCode::PacketError);
    assert_eq!(RespCode::from_code(5), RespCode::ServerError);
    assert_eq!(RespCode::from_code(6), RespCode::OtherError);
    assert_eq!(RespCode::from_code(7), RespCode::Unknown(7));
    assert_eq!(RespCode::from_code(u64::MAX), RespCode::Unknown(u64::MAX));
}

#[test]
fn a_code_gives_its_number_back() {
    for n in (0..300u64).chain([u64::MAX]) {
        assert_eq!(RespCode::from_code(n).code(), n);
    }
}

#[test]
fn codes_are_read_from_text() {
    assert_eq!(RespCode::from_str("0"), Some(RespCode::Okay));
    assert_eq!(RespCode::from_str("1"), Some(RespCode::NotFound));
    assert_eq!(RespCode::from_str("001"), Some(RespCode::NotFound));
    assert_eq!(RespCode::from_str("255"), Some(RespCode::Unknown(255)));
    assert_eq!(RespCode::from_str(""), None);
    assert_eq!(RespCode::from_str("ok"), None);
    assert_eq!(RespCode::from_str("-1"), None);
    assert_eq!(RespCode::from_str("18446744073709551616"), None);
    assert_eq!(RespCode::from_bytes(b"5"), Some(RespCode::ServerError));
    assert_eq!(RespCode::from_bytes(&[0xff]), None);
}
