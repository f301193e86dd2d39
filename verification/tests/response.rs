use skytable::{DataType, Response};

#[test]
fn responses_compare_by_what_they_hold() {
    assert_eq!(
        Response::Item(DataType::Str("HEY!".to_owned())),
        Response::Item(DataType::Str("HEY!".to_owned()))
    );
    assert_ne!(
        Response::Item(DataType::Str("HEY!".to_owned())),
        Response::Item(DataType::UnsignedInt(1))
    );
    assert_ne!(Response::InvalidResponse, Response::ParseError);
}
