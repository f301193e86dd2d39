use skytable::deserializer::{
    make_element, parse, read_count, read_element, read_elements, read_frame_header, read_group,
    read_groups, read_line_and_return_next_line, read_line_feed, report, respond, ClientResult,
    DataType, DecodeError,
};
use skytable::RespCode;

/// Serializes one element as the server would: the tag, the length of the
/// payload, the payload.
fn element(tag: u8, payload: &[u8]) -> Vec<u8> {
    let mut out = vec![tag];
    out.extend_from_slice(payload.len().to_string().as_bytes());
    out.push(b'\n');
    out.extend_from_slice(payload);
    out.push(b'\n');
    out
}

/// Serializes the envelope of a packet or of a datagroup.
fn header(marker: u8, count: usize) -> Vec<u8> {
    let mut line = vec![marker];
    line.extend_from_slice(count.to_string().as_bytes());
    let mut out = vec![b'#'];
    out.extend_from_slice(line.len().to_string().as_bytes());
    out.push(b'\n');
    out.extend_from_slice(&line);
    out.push(b'\n');
    out
}

/// Serializes a whole response from the tags and payloads of its elements.
fn response(groups: &[Vec<(u8, Vec<u8>)>]) -> Vec<u8> {
    let mut out = header(b'*', groups.len());
    for group in groups {
        out.extend_from_slice(&header(b'&', group.len()));
        for (tag, payload) in group {
            out.extend_from_slice(&element(*tag, payload));
        }
    }
    out
}

fn text(s: &str) -> (u8, Vec<u8>) {
    (b'+', s.as_bytes().to_vec())
}

fn code(n: u64) -> (u8, Vec<u8>) {
    (b'!', n.to_string().into_bytes())
}

fn number(n: u64) -> (u8, Vec<u8>) {
    (b':', n.to_string().into_bytes())
}

#[test]
fn test_deserializer_responseitem() {
    let res = "#2\n*1\n#2\n&1\n+4\nHEY!\n".as_bytes().to_owned();
    assert_eq!(
        parse(&res),
        ClientResult::ResponseItem(DataType::Str("HEY!".to_owned()), res.len())
    );
    let res = "#2\n*1\n#2\n&1\n!1\n0\n".as_bytes().to_owned();
    assert_eq!(
        parse(&res),
        ClientResult::ResponseItem(DataType::RespCode(RespCode::Okay), res.len())
    );
}

#[test]
fn test_deserializer_simple_response() {
    let res = "#2\n*1\n#2\n&5\n!1\n1\n!1\n0\n+5\nsayan\n+2\nis\n+4\nbusy\n"
        .as_bytes()
        .to_owned();
    let ret = parse(&res);
    assert_eq!(
        ret,
        ClientResult::SimpleResponse(
            vec![
                DataType::RespCode(RespCode::NotFound),
                DataType::RespCode(RespCode::Okay),
                DataType::Str("sayan".to_owned()),
                DataType::Str("is".to_owned()),
                DataType::Str("busy".to_owned())
            ],
            res.len()
        )
    );
    if let ClientResult::SimpleResponse(ret, _) = ret {
        for val in ret {
            let _ = format!("{:?}", val);
        }
    } else {
        panic!("Expected a SimpleResponse with a single datagroup")
    }
}

#[test]
fn single_item_of_every_type() {
    let res = response(&[vec![text("HEY!")]]);
    assert_eq!(res, b"#2\n*1\n#2\n&1\n+4\nHEY!\n".to_vec());
    assert_eq!(
        parse(&res),
        ClientResult::ResponseItem(DataType::Str("HEY!".to_owned()), res.len())
    );
    let res = response(&[vec![code(1)]]);
    assert_eq!(
        parse(&res),
        ClientResult::ResponseItem(DataType::RespCode(RespCode::NotFound), res.len())
    );
    let res = response(&[vec![number(18446744073709551615)]]);
    assert_eq!(
        parse(&res),
        ClientResult::ResponseItem(DataType::UnsignedInt(u64::MAX), res.len())
    );
}

#[test]
fn flat_group_keeps_wire_order() {
    for k in 2..12usize {
        let group: Vec<(u8, Vec<u8>)> = (0..k).map(|i| number(i as u64 * 7)).collect();
        let res = response(&[group]);
        let expected: Vec<DataType> = (0..k)
            .map(|i| DataType::UnsignedInt(i as u64 * 7))
            .collect();
        assert_eq!(
            parse(&res),
            ClientResult::SimpleResponse(expected, res.len())
        );
    }
}

#[test]
fn batch_holds_every_group_in_wire_order() {
    let res = response(&[
        vec![text("a"), code(0)],
        vec![],
        vec![number(42)],
        vec![text("x"), text("yz"), code(1)],
    ]);
    assert_eq!(
        parse(&res),
        ClientResult::PipelinedResponse(
            vec![
                vec![
                    DataType::Str("a".to_owned()),
                    DataType::RespCode(RespCode::Okay)
                ],
                vec![],
                vec![DataType::UnsignedInt(42)],
                vec![
                    DataType::Str("x".to_owned()),
                    DataType::Str("yz".to_owned()),
                    DataType::RespCode(RespCode::NotFound)
                ],
            ],
            res.len()
        )
    );
}

#[test]
fn no_datagroups_is_an_empty_batch() {
    let res = b"#2\n*0\n".to_vec();
    assert_eq!(parse(&res), ClientResult::PipelinedResponse(vec![], 6));
}

#[test]
fn one_datagroup_without_elements_is_an_empty_group() {
    let res = b"#2\n*1\n#2\n&0\n".to_vec();
    assert_eq!(parse(&res), ClientResult::SimpleResponse(vec![], res.len()));
}

#[test]
fn buffers_shorter_than_six_bytes_are_incomplete() {
    let res = b"#2\n*1\n#2\n&1\n+4\nHEY!\n";
    for len in 0..6 {
        assert_eq!(parse(&res[..len]), ClientResult::Incomplete);
    }
    assert_eq!(parse(b"XXXXX"), ClientResult::Incomplete);
    assert_eq!(parse(b""), ClientResult::Incomplete);
}

#[test]
fn every_truncation_is_incomplete() {
    let inputs = vec![
        response(&[vec![text("HEY!")]]),
        response(&[vec![code(1), code(0), text("sayan"), text("is"), text("busy")]]),
        response(&[vec![text("a\nb"), number(10)], vec![], vec![code(200)]]),
        response(&[]),
        response(&[vec![], vec![]]),
        b"#03\n*01\n#003\n&01\n+0004\nHEY!\n".to_vec(),
    ];
    for res in inputs {
        assert!(!matches!(
            parse(&res),
            ClientResult::Incomplete | ClientResult::InvalidResponse | ClientResult::ParseError
        ));
        for len in 0..res.len() {
            assert_eq!(parse(&res[..len]), ClientResult::Incomplete, "cut at {}", len);
        }
    }
}

/// Appends the digits of `n` to `out` and notes where they stand.
fn digits(out: &mut Vec<u8>, n: usize, sites: &mut Vec<usize>) {
    for digit in n.to_string().bytes() {
        sites.push(out.len());
        out.push(digit);
    }
}

/// Appends an envelope to `out`. Notes the digits of its length in
/// `header_lengths` and those of its count in `counts`.
fn header_at(
    out: &mut Vec<u8>,
    marker: u8,
    count: usize,
    header_lengths: &mut Vec<usize>,
    counts: &mut Vec<usize>,
) {
    out.push(b'#');
    digits(out, 1 + count.to_string().len(), header_lengths);
    out.push(b'\n');
    out.push(marker);
    digits(out, count, counts);
    out.push(b'\n');
}

/// Serializes a response and gives, beside its bytes, the positions of the
/// digits of the lengths of its envelopes, of its counts, and of the lengths
/// of its elements.
fn response_with_sites(
    groups: &[Vec<(u8, Vec<u8>)>],
) -> (Vec<u8>, Vec<usize>, Vec<usize>, Vec<usize>) {
    let mut out = Vec::new();
    let mut header_lengths = Vec::new();
    let mut counts = Vec::new();
    let mut element_lengths = Vec::new();
    header_at(&mut out, b'*', groups.len(), &mut header_lengths, &mut counts);
    for group in groups {
        header_at(&mut out, b'&', group.len(), &mut header_lengths, &mut counts);
        for (tag, payload) in group {
            out.push(*tag);
            digits(&mut out, payload.len(), &mut element_lengths);
            out.push(b'\n');
            out.extend_from_slice(payload);
            out.push(b'\n');
        }
    }
    (out, header_lengths, counts, element_lengths)
}

#[test]
fn a_digit_replaced_in_a_length_or_count_is_invalid() {
    let groups = vec![
        vec![text("0123456789"), code(0)],
        (0..12).map(|i| number(i * 3)).collect(),
        vec![],
        vec![text("a\nb\n+1\nc\n")],
    ];
    let (res, header_lengths, counts, element_lengths) = response_with_sites(&groups);
    assert_eq!(res, response(&groups));
    assert!(matches!(parse(&res), ClientResult::PipelinedResponse(_, _)));
    assert_eq!(header_lengths.len(), 5);
    assert_eq!(counts.len(), 6);
    assert_eq!(element_lengths.len(), 2 + 1 + 12 + 1);
    let others = [b'x', b' ', b'-', b'+', b'/', b':', b'#', b'&', b'*', 0u8, 0xffu8];
    for site in header_lengths.iter().chain(&counts) {
        assert!(res[*site].is_ascii_digit());
        for bad in others.iter().chain(&[b'\n']) {
            let mut broken = res.clone();
            broken[*site] = *bad;
            assert_eq!(
                parse(&broken),
                ClientResult::InvalidResponse,
                "site {} byte {}",
                site,
                bad
            );
        }
    }
    for site in element_lengths {
        assert!(res[site].is_ascii_digit());
        for bad in others {
            let mut broken = res.clone();
            broken[site] = bad;
            assert_eq!(
                parse(&broken),
                ClientResult::InvalidResponse,
                "site {} byte {}",
                site,
                bad
            );
        }
    }
}

#[test]
fn a_line_feed_in_place_of_a_count_digit_is_invalid() {
    let res = b"#2\n*1\n#2\n&1\n+4\nHEY!\n".to_vec();
    for site in [4usize, 10] {
        let mut broken = res.clone();
        broken[site] = b'\n';
        assert_eq!(parse(&broken), ClientResult::InvalidResponse);
    }
}

#[test]
fn a_line_feed_in_place_of_a_length_digit_can_go_unnoticed() {
    let payload = b"\n+12\nzzzzzzz";
    assert_eq!(payload.len(), 12);
    let res = response(&[vec![(b'+', payload.to_vec()), text("a")]]);
    assert_eq!(
        parse(&res),
        ClientResult::SimpleResponse(
            vec![
                DataType::Str("\n+12\nzzzzzzz".to_owned()),
                DataType::Str("a".to_owned())
            ],
            res.len()
        )
    );
    let site = res.iter().position(|b| *b == b'+').unwrap() + 2;
    assert_eq!(res[site], b'2');
    let mut broken = res.clone();
    broken[site] = b'\n';
    assert_eq!(
        parse(&broken),
        ClientResult::SimpleResponse(
            vec![
                DataType::Str("\n".to_owned()),
                DataType::Str("zzzzzzz\n+1\na".to_owned())
            ],
            res.len()
        )
    );
}

#[test]
fn payloads_that_are_no_numbers_are_parse_errors() {
    for bad in ["x", "", "12a", "-1", " 1", "1 ", "1.5", "18446744073709551616", "+", "++1"] {
        let res = response(&[vec![(b'!', bad.as_bytes().to_vec())]]);
        assert_eq!(parse(&res), ClientResult::ParseError, "code {:?}", bad);
        let res = response(&[vec![(b':', bad.as_bytes().to_vec())]]);
        assert_eq!(parse(&res), ClientResult::ParseError, "integer {:?}", bad);
        let res = response(&[vec![text(bad)]]);
        assert_eq!(
            parse(&res),
            ClientResult::ResponseItem(DataType::Str(bad.to_owned()), res.len()),
            "string {:?}",
            bad
        );
    }
}

#[test]
fn a_parse_error_is_reported_where_it_stands() {
    // The second element is no number; what follows it is not looked at.
    let mut res = response(&[vec![number(1), (b':', b"one".to_vec()), number(3)]]);
    assert_eq!(parse(&res), ClientResult::ParseError);
    res.truncate(res.len() - 2);
    assert_eq!(parse(&res), ClientResult::ParseError);
    // A broken frame in front of it is found first.
    let res = b"#2\n*1\n#2\n&2\n?1\n1\n:3\none\n".to_vec();
    assert_eq!(parse(&res), ClientResult::InvalidResponse);
}

#[test]
fn numbers_may_carry_a_plus_sign_and_leading_zeros() {
    let res = response(&[vec![(b':', b"+5".to_vec()), (b':', b"007".to_vec())]]);
    assert_eq!(
        parse(&res),
        ClientResult::SimpleResponse(
            vec![DataType::UnsignedInt(5), DataType::UnsignedInt(7)],
            res.len()
        )
    );
}

#[test]
fn strings_that_are_not_utf8_are_kept_lossily() {
    let res = response(&[vec![(b'+', vec![b'a', 0xff, b'b'])]]);
    assert_eq!(
        parse(&res),
        ClientResult::ResponseItem(DataType::Str("a\u{fffd}b".to_owned()), res.len())
    );
    let res = response(&[vec![(b'+', "grüße, мир".as_bytes().to_vec())]]);
    assert_eq!(
        parse(&res),
        ClientResult::ResponseItem(DataType::Str("grüße, мир".to_owned()), res.len())
    );
}

#[test]
fn response_codes_outside_the_known_set_are_kept() {
    let res = response(&[vec![code(2), code(6), code(7), code(u64::MAX)]]);
    assert_eq!(
        parse(&res),
        ClientResult::SimpleResponse(
            vec![
                DataType::RespCode(RespCode::OverwriteError),
                DataType::RespCode(RespCode::OtherError),
                DataType::RespCode(RespCode::Unknown(7)),
                DataType::RespCode(RespCode::Unknown(u64::MAX)),
            ],
            res.len()
        )
    );
}

#[test]
fn two_responses_back_to_back_do_not_mix() {
    let first = response(&[vec![text("HEY!")]]);
    let second = response(&[vec![code(0)]]);
    let mut both = first.clone();
    both.extend_from_slice(&second);
    assert_eq!(
        parse(&both[..first.len()]),
        ClientResult::ResponseItem(DataType::Str("HEY!".to_owned()), first.len())
    );
    assert_eq!(
        parse(&both[first.len()..]),
        ClientResult::ResponseItem(DataType::RespCode(RespCode::Okay), second.len())
    );
    // Read as one packet, the second response is trailing garbage.
    assert_eq!(parse(&both), ClientResult::InvalidResponse);
}

#[test]
fn bytes_behind_the_packet_are_invalid() {
    let mut res = response(&[vec![text("HEY!")]]);
    res.push(b'\n');
    assert_eq!(parse(&res), ClientResult::InvalidResponse);
    let mut res = response(&[]);
    res.push(b'x');
    assert_eq!(parse(&res), ClientResult::InvalidResponse);
}

#[test]
fn a_datagroup_beyond_the_announced_count_is_invalid() {
    let mut res = header(b'*', 1);
    res.extend_from_slice(&header(b'&', 1));
    res.extend_from_slice(&element(b'+', b"one"));
    res.extend_from_slice(&header(b'&', 1));
    res.extend_from_slice(&element(b'+', b"two"));
    assert_eq!(parse(&res), ClientResult::InvalidResponse);
    // Even the first bytes of a further envelope are refused.
    let mut res = response(&[vec![text("one")]]);
    res.push(b'#');
    assert_eq!(parse(&res), ClientResult::InvalidResponse);
}

#[test]
fn fewer_datagroups_than_announced_is_incomplete() {
    let mut res = header(b'*', 3);
    res.extend_from_slice(&header(b'&', 1));
    res.extend_from_slice(&element(b'+', b"one"));
    assert_eq!(parse(&res), ClientResult::Incomplete);
}

#[test]
fn fewer_elements_than_announced_is_incomplete_or_invalid() {
    // At the end of the buffer more elements may still come.
    let res = b"#2\n*1\n#2\n&5\n!1\n1\n".to_vec();
    assert_eq!(parse(&res), ClientResult::Incomplete);
    // In front of another envelope they cannot.
    let res = b"#2\n*2\n#2\n&2\n!1\n1\n#2\n&0\n".to_vec();
    assert_eq!(parse(&res), ClientResult::InvalidResponse);
    // More elements than announced do not belong to the group either.
    let res = b"#2\n*1\n#2\n&1\n!1\n1\n!1\n0\n".to_vec();
    assert_eq!(parse(&res), ClientResult::InvalidResponse);
}

#[test]
fn an_unknown_tag_is_invalid() {
    for tag in [b'?', b'$', b'-', b'#', b'*', b'&', b'\n', b'0', 0u8, 0xffu8] {
        let res = response(&[vec![(tag, b"abcd".to_vec())]]);
        assert_eq!(parse(&res), ClientResult::InvalidResponse, "tag {}", tag);
    }
}

#[test]
fn a_wrong_marker_is_invalid() {
    assert_eq!(parse(b"+2\n*1\n#2\n&1\n+4\nHEY!\n"), ClientResult::InvalidResponse);
    assert_eq!(parse(b"#2\n&1\n#2\n&1\n+4\nHEY!\n"), ClientResult::InvalidResponse);
    assert_eq!(parse(b"#2\n*1\n+2\n&1\n+4\nHEY!\n"), ClientResult::InvalidResponse);
    assert_eq!(parse(b"#2\n*1\n#2\n*1\n+4\nHEY!\n"), ClientResult::InvalidResponse);
    assert_eq!(parse(b"#0\n\n#2\n&1\n+4\nHEY!\n"), ClientResult::InvalidResponse);
}

#[test]
fn a_line_that_does_not_end_in_a_line_feed_is_invalid() {
    assert_eq!(parse(b"#2\n*1 #2\n&1\n+4\nHEY!\n"), ClientResult::InvalidResponse);
    assert_eq!(parse(b"#2\n*1\n#2\n&1 +4\nHEY!\n"), ClientResult::InvalidResponse);
    assert_eq!(parse(b"#2\n*1\n#2\n&1\n+4\nHEY!!"), ClientResult::InvalidResponse);
    assert_eq!(parse(b"#2\n*1\n#2\n&1\n+3\nHEY!\n"), ClientResult::InvalidResponse);
}

#[test]
fn a_length_beyond_the_buffer_is_incomplete() {
    assert_eq!(parse(b"#2\n*1\n#2\n&1\n+5\nHEY!\n"), ClientResult::Incomplete);
    assert_eq!(parse(b"#2\n*1\n#2\n&1\n+400\nHEY!\n"), ClientResult::Incomplete);
    assert_eq!(
        parse(b"#2\n*1\n#2\n&1\n+99999999999999999999999999999999\nHEY!\n"),
        ClientResult::Incomplete
    );
    assert_eq!(
        parse(b"#99999999999999999999999999999999\n*1\n"),
        ClientResult::Incomplete
    );
}

#[test]
fn a_count_beyond_any_buffer_is_never_met() {
    let mut res = b"#33\n*99999999999999999999999999999999\n".to_vec();
    assert_eq!(parse(&res), ClientResult::Incomplete);
    res.extend_from_slice(&header(b'&', 0));
    assert_eq!(parse(&res), ClientResult::Incomplete);
    res.push(b'?');
    assert_eq!(parse(&res), ClientResult::InvalidResponse);
    let mut res = b"#2\n*1\n#33\n&99999999999999999999999999999999\n".to_vec();
    assert_eq!(parse(&res), ClientResult::Incomplete);
    res.extend_from_slice(&element(b':', b"1"));
    assert_eq!(parse(&res), ClientResult::Incomplete);
    res.extend_from_slice(&element(b':', b"x"));
    assert_eq!(parse(&res), ClientResult::ParseError);
}

#[test]
fn lengths_and_counts_may_have_leading_zeros() {
    let res = b"#03\n*01\n#003\n&01\n+0004\nHEY!\n".to_vec();
    assert_eq!(
        parse(&res),
        ClientResult::ResponseItem(DataType::Str("HEY!".to_owned()), res.len())
    );
}

#[test]
fn an_empty_string_is_a_string() {
    let res = response(&[vec![text("")]]);
    assert_eq!(res, b"#2\n*1\n#2\n&1\n+0\n\n".to_vec());
    assert_eq!(
        parse(&res),
        ClientResult::ResponseItem(DataType::Str(String::new()), res.len())
    );
}

#[test]
fn the_line_reader_moves_the_cursor_on_success_only() {
    let buf = b"#5\nhello\nrest";
    let mut pos = 1;
    assert_eq!(
        read_line_and_return_next_line(&mut pos, buf),
        Ok(&b"hello"[..])
    );
    assert_eq!(pos, 8);
    let mut pos = 1;
    assert_eq!(
        read_line_and_return_next_line(&mut pos, b"#5\nhell"),
        Err(DecodeError::Incomplete)
    );
    assert_eq!(pos, 1);
    let mut pos = 1;
    assert_eq!(
        read_line_and_return_next_line(&mut pos, b"#5"),
        Err(DecodeError::Incomplete)
    );
    assert_eq!(pos, 1);
    let mut pos = 1;
    assert_eq!(
        read_line_and_return_next_line(&mut pos, b"#5x\nhello"),
        Err(DecodeError::InvalidResponse)
    );
    assert_eq!(pos, 1);
    let mut pos = 0;
    assert_eq!(read_line_and_return_next_line(&mut pos, b"\nabc"), Ok(&b""[..]));
    assert_eq!(pos, 1);
    let mut pos = 40;
    assert_eq!(
        read_line_and_return_next_line(&mut pos, b"2\nab"),
        Err(DecodeError::Incomplete)
    );
    assert_eq!(pos, 40);
}

#[test]
fn the_parts_of_a_packet_can_be_read_one_by_one() {
    let buf = b"#2\n*1\n#2\n&2\n+4\nHEY!\n:2\n42\n";
    let mut pos = 0;
    assert_eq!(read_frame_header(&mut pos, buf, b'*'), Ok(1));
    assert_eq!(pos, 6);
    let mut peek = pos;
    assert_eq!(read_frame_header(&mut peek, buf, b'&'), Ok(2));
    assert_eq!(peek, 12);
    assert_eq!(
        read_element(&mut peek, buf),
        Ok(DataType::Str("HEY!".to_owned()))
    );
    assert_eq!(peek, 20);
    assert_eq!(read_element(&mut peek, buf), Ok(DataType::UnsignedInt(42)));
    assert_eq!(peek, buf.len());
    assert_eq!(read_element(&mut peek, buf), Err(DecodeError::Incomplete));
    assert_eq!(peek, buf.len());
    let mut peek = 12;
    assert_eq!(
        read_elements(&mut peek, buf, 2),
        Ok(vec![
            DataType::Str("HEY!".to_owned()),
            DataType::UnsignedInt(42)
        ])
    );
    assert_eq!(peek, buf.len());
    let mut peek = 12;
    assert_eq!(read_elements(&mut peek, buf, 3), Err(DecodeError::Incomplete));
    assert_eq!(peek, 12);
    assert_eq!(
        read_group(&mut pos, buf),
        Ok(vec![
            DataType::Str("HEY!".to_owned()),
            DataType::UnsignedInt(42)
        ])
    );
    assert_eq!(pos, buf.len());
    let mut pos = 6;
    assert_eq!(
        read_groups(&mut pos, buf, 1),
        Ok(vec![vec![
            DataType::Str("HEY!".to_owned()),
            DataType::UnsignedInt(42)
        ]])
    );
    assert_eq!(pos, buf.len());
    let mut pos = 6;
    assert_eq!(read_groups(&mut pos, buf, 0), Ok(vec![]));
    assert_eq!(pos, 6);
    let mut pos = 100;
    assert_eq!(read_groups(&mut pos, buf, 0), Ok(vec![]));
    assert_eq!(read_groups(&mut pos, buf, 1), Err(DecodeError::Incomplete));
    assert_eq!(read_elements(&mut pos, buf, 0), Ok(vec![]));
    assert_eq!(read_elements(&mut pos, buf, 1), Err(DecodeError::Incomplete));
    assert_eq!(pos, 100);
}

#[test]
fn line_feeds_and_counts() {
    let mut pos = 2;
    assert_eq!(read_line_feed(&mut pos, b"ab\ncd"), Ok(()));
    assert_eq!(pos, 3);
    assert_eq!(
        read_line_feed(&mut pos, b"ab\ncd"),
        Err(DecodeError::InvalidResponse)
    );
    assert_eq!(pos, 3);
    let mut pos = 5;
    assert_eq!(read_line_feed(&mut pos, b"ab\ncd"), Err(DecodeError::Incomplete));
    assert_eq!(pos, 5);
    assert_eq!(read_count(b"*12", b'*'), Ok(12));
    assert_eq!(read_count(b"*", b'*'), Ok(0));
    assert_eq!(read_count(b"&007", b'&'), Ok(7));
    assert_eq!(read_count(b"", b'*'), Err(DecodeError::InvalidResponse));
    assert_eq!(read_count(b"&12", b'*'), Err(DecodeError::InvalidResponse));
    assert_eq!(read_count(b"*1x", b'*'), Err(DecodeError::InvalidResponse));
    assert_eq!(read_count(b"*1\n", b'*'), Err(DecodeError::InvalidResponse));
    assert_eq!(
        read_count(b"*99999999999999999999999999999999", b'*'),
        Ok(usize::MAX)
    );
}

#[test]
fn elements_are_made_of_tag_payload_and_text() {
    assert_eq!(
        make_element(b'+', b"HEY!", "HEY!".to_owned()),
        Ok(DataType::Str("HEY!".to_owned()))
    );
    assert_eq!(
        make_element(b'!', b"1", "1".to_owned()),
        Ok(DataType::RespCode(RespCode::NotFound))
    );
    assert_eq!(
        make_element(b':', b"77", "77".to_owned()),
        Ok(DataType::UnsignedInt(77))
    );
    assert_eq!(
        make_element(b':', b"seven", "seven".to_owned()),
        Err(DecodeError::ParseError)
    );
    assert_eq!(
        make_element(b'!', b"", String::new()),
        Err(DecodeError::ParseError)
    );
    assert_eq!(
        make_element(b'?', b"1", "1".to_owned()),
        Err(DecodeError::InvalidResponse)
    );
}

#[test]
fn complete_packets_are_handed_out_by_shape() {
    assert_eq!(
        respond(vec![vec![DataType::UnsignedInt(1)]], 9),
        ClientResult::ResponseItem(DataType::UnsignedInt(1), 9)
    );
    assert_eq!(
        respond(vec![vec![DataType::UnsignedInt(1), DataType::UnsignedInt(2)]], 9),
        ClientResult::SimpleResponse(
            vec![DataType::UnsignedInt(1), DataType::UnsignedInt(2)],
            9
        )
    );
    assert_eq!(
        respond(vec![vec![]], 9),
        ClientResult::SimpleResponse(vec![], 9)
    );
    assert_eq!(respond(vec![], 6), ClientResult::PipelinedResponse(vec![], 6));
    assert_eq!(
        respond(vec![vec![DataType::UnsignedInt(1)], vec![]], 9),
        ClientResult::PipelinedResponse(vec![vec![DataType::UnsignedInt(1)], vec![]], 9)
    );
    assert_eq!(report(DecodeError::Incomplete), ClientResult::Incomplete);
    assert_eq!(
        report(DecodeError::InvalidResponse),
        ClientResult::InvalidResponse
    );
    assert_eq!(report(DecodeError::ParseError), ClientResult::ParseError);
}
