use skytable::deserializer::{read_element, DataType};
use skytable::query::append_bytes;
use skytable::Query;

#[test]
fn a_new_query_is_empty() {
    let query = Query::new();
    assert_eq!(query.__len(), 0);
    assert_eq!(query.get_holding_buffer(), b"");
    assert_eq!(query.packet(), b"*1\n_0\n".to_vec());
    assert_eq!(query, Query::new());
}

#[test]
fn an_argument_becomes_one_element() {
    let mut query = Query::new();
    query.arg("heya");
    assert_eq!(query.__len(), 1);
    assert_eq!(query.get_holding_buffer(), b"+4\nheya\n");
    assert_eq!(query.packet(), b"*1\n_1\n+4\nheya\n".to_vec());
}

#[test]
fn arguments_follow_each_other_in_the_order_given() {
    let mut query = Query::new();
    query.arg("SET").arg("x").arg("grüße, мир!");
    assert_eq!(query.__len(), 3);
    assert_eq!(
        query.get_holding_buffer(),
        "+3\nSET\n+1\nx\n+16\ngrüße, мир!\n".as_bytes()
    );
    assert_eq!(
        query.packet(),
        "*1\n_3\n+3\nSET\n+1\nx\n+16\ngrüße, мир!\n".as_bytes().to_vec()
    );
}

#[test]
fn many_arguments_are_counted_in_decimal() {
    let mut query = Query::new();
    for _ in 0..120 {
        query.arg("0123456789");
    }
    assert_eq!(query.__len(), 120);
    let packet = query.packet();
    assert_eq!(&packet[..8], b"*1\n_120\n");
    assert_eq!(packet.len(), 8 + 120 * 15);
}

#[test]
fn a_cleared_query_is_a_new_query() {
    let mut query = Query::new();
    query.arg("heya").arg("there");
    query.clear();
    assert_eq!(query, Query::new());
    query.arg("again");
    assert_eq!(query.get_holding_buffer(), b"+5\nagain\n");
}

#[test]
fn the_decoder_reads_arguments_back() {
    let mut query = Query::new();
    query.arg("SET").arg("a\nb").arg("мир");
    let buf = query.get_holding_buffer();
    let mut pos = 0;
    assert_eq!(read_element(&mut pos, buf), Ok(DataType::Str("SET".to_owned())));
    assert_eq!(read_element(&mut pos, buf), Ok(DataType::Str("a\nb".to_owned())));
    assert_eq!(read_element(&mut pos, buf), Ok(DataType::Str("мир".to_owned())));
    assert_eq!(pos, buf.len());
}

#[test]
fn bytes_are_appended_as_they_are() {
    let mut out = vec![1u8, 2];
    append_bytes(&mut out, &[3, 4, 5]);
    append_bytes(&mut out, &[]);
    assert_eq!(out, vec![1, 2, 3, 4, 5]);
}
