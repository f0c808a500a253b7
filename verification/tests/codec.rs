use bytes::BytesMut;

use resp_codec::frame::RespArray;
use resp_codec::frame::RespError;
use resp_codec::frame::RespFrame;
use resp_codec::frame::RespSet;
use resp_codec::respv2::parse_frame;
use resp_codec::respv2::parse_frame_length;
use resp_codec::respv2::RespDecodeV2;

fn ss(s: &str) -> RespFrame {
    RespFrame::SimpleString(s.to_string())
}

fn bulk(s: &str) -> RespFrame {
    RespFrame::BulkString(s.as_bytes().to_vec())
}

#[test]
fn respv2_simple_string_length_should_work() {
    let buf = b"+OK\r\n";
    let len = <RespFrame as RespDecodeV2>::expect_length(buf).unwrap();
    assert_eq!(len, buf.len());
}

#[test]
fn respv2_simple_string_bad_length_should_fail() {
    let buf = b"+OK\r";
    let err = <RespFrame as RespDecodeV2>::expect_length(buf).unwrap_err();
    assert_eq!(err, RespError::NotComplete);
}

#[test]
fn respv2_simple_string_should_work() {
    let mut buf = BytesMut::from("+OK\r\n");
    let frame = <RespFrame as RespDecodeV2>::decode(&mut buf).unwrap();
    assert_eq!(frame, ss("OK"));
}

#[test]
fn respv2_simple_error_length_should_work() {
    let buf = b"-ERR\r\n";
    let len = <RespFrame as RespDecodeV2>::expect_length(buf).unwrap();
    assert_eq!(len, buf.len());
}

#[test]
fn respv2_simple_error_should_work() {
    let mut buf = BytesMut::from("-ERR\r\n");
    let frame = <RespFrame as RespDecodeV2>::decode(&mut buf).unwrap();
    assert_eq!(frame, RespFrame::Error("ERR".to_string()));
}

#[test]
fn respv2_integer_length_should_work() {
    let buf = b":1000\r\n";
    let len = <RespFrame as RespDecodeV2>::expect_length(buf).unwrap();
    assert_eq!(len, buf.len());
}

#[test]
fn respv2_integer_should_work() {
    let mut buf = BytesMut::from(":1000\r\n");
    let frame = <RespFrame as RespDecodeV2>::decode(&mut buf).unwrap();
    assert_eq!(frame, RespFrame::Integer(1000));
}

#[test]
fn respv2_bulk_string_length_should_work() {
    let buf = b"$6\r\nfoobar\r\n";
    let len = <RespFrame as RespDecodeV2>::expect_length(buf).unwrap();
    assert_eq!(len, buf.len());
}

#[test]
fn respv2_bulk_string_should_work() {
    let mut buf = BytesMut::from("$6\r\nfoobar\r\n");
    let frame = <RespFrame as RespDecodeV2>::decode(&mut buf).unwrap();
    assert_eq!(frame, bulk("foobar"));
}

#[test]
fn respv2_null_bulk_string_length_should_work() {
    let buf = b"$-1\r\n";
    let len = <RespFrame as RespDecodeV2>::expect_length(buf).unwrap();
    assert_eq!(len, buf.len());
}

#[test]
fn respv2_null_bulk_string_should_work() {
    let mut buf = BytesMut::from("$-1\r\n");
    let frame = <RespFrame as RespDecodeV2>::decode(&mut buf).unwrap();
    assert_eq!(frame, RespFrame::NullBulkString);
}

#[test]
fn respv2_array_length_should_work() {
    let buf = b"*2\r\n+OK\r\n-ERR\r\n";
    let len = <RespFrame as RespDecodeV2>::expect_length(buf).unwrap();
    assert_eq!(len, buf.len());
}

#[test]
fn respv2_array_should_work() {
    let mut buf = BytesMut::from("*2\r\n+OK\r\n-ERR\r\n");
    let frame = <RespFrame as RespDecodeV2>::decode(&mut buf).unwrap();
    assert_eq!(
        frame,
        RespFrame::Array(RespArray::new(vec![
            ss("OK"),
            RespFrame::Error("ERR".to_string())
        ]))
    );
}

#[test]
fn respv2_null_array_length_should_work() {
    let buf = b"*-1\r\n";
    let len = <RespFrame as RespDecodeV2>::expect_length(buf).unwrap();
    assert_eq!(len, buf.len());
}

#[test]
fn respv2_null_array_should_work() {
    let mut buf = BytesMut::from("*-1\r\n");
    let frame = <RespFrame as RespDecodeV2>::decode(&mut buf).unwrap();
    assert_eq!(frame, RespFrame::NullArray);
}

#[test]
fn respv2_map_length_should_work() {
    let buf = b"%1\r\n+OK\r\n-ERR\r\n";
    let len = <RespFrame as RespDecodeV2>::expect_length(buf).unwrap();
    assert_eq!(len, buf.len());
}

#[test]
fn respv2_map_should_work() {
    let mut buf = BytesMut::from("%1\r\n+OK\r\n-ERR\r\n");
    let frame = <RespFrame as RespDecodeV2>::decode(&mut buf).unwrap();
    assert_eq!(
        frame,
        RespFrame::MapData(vec![(
            "OK".to_string(),
            RespFrame::Error("ERR".to_string())
        )])
    );
}

#[test]
fn respv2_map_with_real_data_should_work() {
    let mut buf = BytesMut::from("%2\r\n+hello\r\n$5\r\nworld\r\n+foo\r\n$3\r\nbar\r\n");
    let frame = <RespFrame as RespDecodeV2>::decode(&mut buf).unwrap();
    assert_eq!(
        frame,
        RespFrame::MapData(vec![
            ("foo".to_string(), bulk("bar")),
            ("hello".to_string(), bulk("world")),
        ])
    );
}

#[test]
fn test_double_encode() {
    let frame = RespFrame::Double("+123.456".to_string());
    assert_eq!(frame.encode(), b",+123.456\r\n");

    let frame = RespFrame::Double("-123.456".to_string());
    assert_eq!(frame.encode(), b",-123.456\r\n");

    let frame = RespFrame::Double("+1.23456e8".to_string());
    assert_eq!(frame.encode(), b",+1.23456e8\r\n");

    let frame = RespFrame::Double("-1.23456e-9".to_string());
    assert_eq!(&frame.encode(), b",-1.23456e-9\r\n");
}

#[test]
fn test_double_decode() {
    let mut buf = BytesMut::new();
    buf.extend_from_slice(b",123.45\r\n");

    let frame = RespFrame::decode(&mut buf).unwrap();
    assert_eq!(frame, RespFrame::Double("123.45".to_string()));
    match frame {
        RespFrame::Double(t) => assert_eq!(t.parse::<f64>().unwrap(), 123.45),
        _ => panic!("expected a double frame"),
    }

    buf.extend_from_slice(b",+1.23456e-9\r\n");
    let frame = RespFrame::decode(&mut buf).unwrap();
    match frame {
        RespFrame::Double(t) => assert_eq!(t.parse::<f64>().unwrap(), 1.23456e-9),
        _ => panic!("expected a double frame"),
    }
}

#[test]
fn test_set_encode() {
    let frame = RespFrame::SetData(RespSet::new(vec![
        RespFrame::Array(RespArray::new(vec![
            RespFrame::Integer(1234),
            RespFrame::Boolean(true),
        ])),
        bulk("world"),
    ]));
    assert_eq!(frame.encode(), b"~2\r\n*2\r\n:+1234\r\n#t\r\n$5\r\nworld\r\n");

    let set = RespSet::new(vec![
        RespFrame::Array(RespArray::new(vec![
            RespFrame::Integer(1234),
            RespFrame::Boolean(true),
        ])),
        bulk("world"),
    ]);
    assert_eq!(set.encode(), b"~2\r\n*2\r\n:+1234\r\n#t\r\n$5\r\nworld\r\n");
}

#[test]
fn test_set_decode() {
    let mut buf = BytesMut::new();
    buf.extend_from_slice(b"~2\r\n$3\r\nset\r\n$5\r\nhello\r\n");

    let frame = RespSet::decode(&mut buf).unwrap();
    assert_eq!(frame, RespSet::new(vec![bulk("set"), bulk("hello")]));
}

#[test]
fn simple_string_literal_scenario() {
    let buf = b"+OK\r\n";
    assert_eq!(parse_frame_length(buf).unwrap(), 5);
    let (frame, used) = parse_frame(buf).unwrap();
    assert_eq!(frame, ss("OK"));
    assert_eq!(used, 5);
}

#[test]
fn null_bulk_string_literal_scenario() {
    let buf = b"$-1\r\n";
    assert_eq!(parse_frame_length(buf).unwrap(), 5);
    let (frame, used) = parse_frame(buf).unwrap();
    assert_eq!(frame, RespFrame::NullBulkString);
    assert_eq!(used, 5);
}

#[test]
fn array_literal_scenario() {
    let buf = b"*2\r\n+OK\r\n-ERR\r\n";
    assert_eq!(parse_frame_length(buf).unwrap(), 15);
    let (frame, used) = parse_frame(buf).unwrap();
    assert_eq!(
        frame,
        RespFrame::Array(RespArray::new(vec![
            ss("OK"),
            RespFrame::Error("ERR".to_string())
        ]))
    );
    assert_eq!(used, 15);
}

#[test]
fn double_literal_scenario() {
    let buf = b",+1.23456e-9\r\n";
    let (frame, used) = parse_frame(buf).unwrap();
    assert_eq!(frame, RespFrame::Double("+1.23456e-9".to_string()));
    assert_eq!(used, buf.len());
    assert_eq!(frame.encode(), b",+1.23456e-9\r\n");
}

#[test]
fn map_literal_scenario() {
    let buf = b"%1\r\n+foo\r\n-bar\r\n";
    let (frame, used) = parse_frame(buf).unwrap();
    assert_eq!(
        frame,
        RespFrame::MapData(vec![(
            "foo".to_string(),
            RespFrame::Error("bar".to_string())
        )])
    );
    assert_eq!(used, buf.len());
}

#[test]
fn round_trip_nested_frame() {
    let frame = RespFrame::Array(RespArray::new(vec![
        ss("OK"),
        RespFrame::Integer(-42),
        bulk("a\r\nb"),
        RespFrame::NullBulkString,
        RespFrame::Boolean(false),
        RespFrame::Null,
        RespFrame::MapData(vec![
            ("a".to_string(), RespFrame::Integer(1)),
            ("b".to_string(), bulk("two")),
        ]),
        RespFrame::SetData(RespSet::new(vec![RespFrame::Integer(7), RespFrame::Integer(7)])),
    ]));
    let enc = frame.encode();

    let (parsed, used) = parse_frame(&enc).unwrap();
    assert_eq!(used, enc.len());
    assert_eq!(parsed, frame);

    let mut buf = BytesMut::from(&enc[..]);
    let decoded = RespFrame::decode(&mut buf).unwrap();
    assert_eq!(decoded, frame);
    assert!(buf.is_empty());
}

#[test]
fn scan_matches_decode_consumption() {
    let enc = RespFrame::Array(RespArray::new(vec![bulk("get"), bulk("hello")])).encode();
    let mut buf = BytesMut::from(&enc[..]);
    buf.extend_from_slice(b"+trailing\r\n");
    let total = buf.len();
    let n = RespFrame::expect_length(buf.as_ref()).unwrap();
    assert_eq!(n, enc.len());
    RespFrame::decode(&mut buf).unwrap();
    assert_eq!(total - buf.len(), n);
}

#[test]
fn truncation_is_incomplete_everywhere() {
    let enc = RespFrame::Array(RespArray::new(vec![
        bulk("ab"),
        RespFrame::MapData(vec![("k".to_string(), RespFrame::Integer(5))]),
    ]))
    .encode();
    for cut in 0..enc.len() {
        let head = &enc[..cut];
        assert_eq!(parse_frame_length(head).unwrap_err(), RespError::NotComplete);
        assert_eq!(RespFrame::expect_length(head).unwrap_err(), RespError::NotComplete);
        let mut buf = BytesMut::from(head);
        assert_eq!(RespFrame::decode(&mut buf).unwrap_err(), RespError::NotComplete);
        assert_eq!(buf.len(), cut);
    }
}

#[test]
fn exact_slice_parses_fully() {
    let mut wire = Vec::new();
    wire.extend_from_slice(b"~2\r\n:+1\r\n#f\r\n");
    wire.extend_from_slice(b"extra");
    let n = parse_frame_length(&wire).unwrap();
    assert_eq!(n, 13);
    let (frame, used) = parse_frame(&wire[..n]).unwrap();
    assert_eq!(used, n);
    assert_eq!(
        frame,
        RespFrame::SetData(RespSet::new(vec![
            RespFrame::Integer(1),
            RespFrame::Boolean(false)
        ]))
    );
}

#[test]
fn negative_lengths_are_malformed() {
    for wire in [&b"$-2\r\n"[..], b"*-2\r\n", b"%0\r\n", b"%-1\r\n", b"~0\r\n", b"~-1\r\n"] {
        let err = parse_frame_length(wire).unwrap_err();
        assert_ne!(err, RespError::NotComplete);
        let mut buf = BytesMut::from(wire);
        let err = RespFrame::decode(&mut buf).unwrap_err();
        assert_ne!(err, RespError::NotComplete);
        assert_eq!(buf.len(), wire.len());
    }
}

#[test]
fn integer_bounds_and_signs() {
    let mut buf = BytesMut::from(":9223372036854775807\r\n");
    assert_eq!(RespFrame::decode(&mut buf).unwrap(), RespFrame::Integer(i64::MAX));

    let mut buf = BytesMut::from(":-9223372036854775808\r\n");
    assert_eq!(RespFrame::decode(&mut buf).unwrap(), RespFrame::Integer(i64::MIN));

    let mut buf = BytesMut::from(":+17\r\n");
    assert_eq!(RespFrame::decode(&mut buf).unwrap(), RespFrame::Integer(17));

    let mut buf = BytesMut::from(":9223372036854775808\r\n");
    let err = RespFrame::decode(&mut buf).unwrap_err();
    assert_ne!(err, RespError::NotComplete);

    let mut buf = BytesMut::from(":12a\r\n");
    let err = RespFrame::decode(&mut buf).unwrap_err();
    assert_ne!(err, RespError::NotComplete);

    assert_eq!(RespFrame::Integer(-5).encode(), b":-5\r\n");
    assert_eq!(RespFrame::Integer(0).encode(), b":+0\r\n");
}

#[test]
fn empty_aggregates_and_markers() {
    let mut buf = BytesMut::from("$0\r\n\r\n");
    assert_eq!(RespFrame::decode(&mut buf).unwrap(), RespFrame::BulkString(vec![]));

    let mut buf = BytesMut::from("*0\r\n");
    assert_eq!(
        RespFrame::decode(&mut buf).unwrap(),
        RespFrame::Array(RespArray::new(vec![]))
    );

    let mut buf = BytesMut::from("_\r\n");
    assert_eq!(RespFrame::decode(&mut buf).unwrap(), RespFrame::Null);

    let mut buf = BytesMut::from("#f\r\n");
    assert_eq!(RespFrame::decode(&mut buf).unwrap(), RespFrame::Boolean(false));
    assert_eq!(RespFrame::Boolean(true).encode(), b"#t\r\n");
}

#[test]
fn unknown_prefix_is_invalid_frame_type() {
    let mut buf = BytesMut::from("?x\r\n");
    let err = RespFrame::decode(&mut buf).unwrap_err();
    assert!(matches!(err, RespError::InvalidFrameType(_)));
    let err = parse_frame(b"?x\r\n").unwrap_err();
    assert!(matches!(err, RespError::InvalidFrameType(_)));
}

#[test]
fn lossy_text_survives_decode() {
    let mut wire = Vec::new();
    wire.extend_from_slice(b"+h\xc3\xa9llo\r\n");
    let mut buf = BytesMut::from(&wire[..]);
    let frame = RespFrame::decode(&mut buf).unwrap();
    assert_eq!(frame, RespFrame::SimpleString("h\u{e9}llo".to_string()));
    let enc = frame.encode();
    assert_eq!(enc, wire);
}

#[test]
fn map_duplicate_keys_keep_last() {
    let mut buf = BytesMut::from("%2\r\n+k\r\n:+1\r\n+k\r\n:+2\r\n");
    let frame = RespFrame::decode(&mut buf).unwrap();
    assert_eq!(
        frame,
        RespFrame::MapData(vec![("k".to_string(), RespFrame::Integer(2))])
    );
}

#[test]
fn bulk_missing_terminator_is_malformed() {
    let wire = b"$3\r\nabcX\r\n";
    let err = parse_frame_length(wire).unwrap_err();
    assert!(matches!(err, RespError::InvalidFrame(_)));
    let mut buf = BytesMut::from(&wire[..]);
    let err = RespFrame::decode(&mut buf).unwrap_err();
    assert!(matches!(err, RespError::InvalidFrame(_)));
    assert_eq!(buf.len(), wire.len());
}

#[test]
fn double_grammar_is_checked() {
    for ok in [&b",123\r\n"[..], b",+12.\r\n", b",.5\r\n", b",-1.5E+3\r\n", b",inf\r\n", b",nan\r\n"] {
        assert!(parse_frame_length(ok).is_ok());
    }
    for bad in [&b",abc\r\n"[..], b",1e\r\n", b",.\r\n", b",\r\n", b",1.2.3\r\n"] {
        let err = parse_frame_length(bad).unwrap_err();
        assert_ne!(err, RespError::NotComplete);
    }
}

#[test]
fn typed_decoders_reject_other_frames() {
    let mut buf = BytesMut::from("+OK\r\n");
    let err = RespSet::decode(&mut buf).unwrap_err();
    assert_ne!(err, RespError::NotComplete);
    assert_eq!(buf.len(), 5);

    let mut buf = BytesMut::from("~1\r\n:+3\r\n");
    let err = RespArray::decode(&mut buf).unwrap_err();
    assert_ne!(err, RespError::NotComplete);
    assert_eq!(buf.len(), 9);

    assert_eq!(RespArray::expect_length(b"*1\r\n:+3\r\n").unwrap(), 9);
    assert_eq!(RespSet::expect_length(b"~1\r\n:+3\r\n").unwrap(), 9);

    let mut buf = BytesMut::from("*-1\r\n+OK\r\n");
    let err = RespArray::decode(&mut buf).unwrap_err();
    assert_ne!(err, RespError::NotComplete);
    assert_eq!(buf.len(), 5);
}
