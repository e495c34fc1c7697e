use numass::dataforge::{
    decode_binary_header, decode_df_message, encode_df01_header, encode_df_message, parse_binary_header,
    parse_df_message, parse_df_meta, DFBinaryHeader, DFError, MetaType,
};

fn sample_header() -> Vec<u8> {
    let mut h = vec![b'#', b'!'];
    h.extend_from_slice(&0x0001_4000u32.to_be_bytes());
    h.extend_from_slice(&1_700_000_000u32.to_be_bytes());
    h.extend_from_slice(&0x0001_0000u32.to_be_bytes());
    h.extend_from_slice(&5u32.to_be_bytes());
    h.extend_from_slice(&0u32.to_be_bytes());
    h.extend_from_slice(&3u32.to_be_bytes());
    h.extend_from_slice(b"!#\r\n");
    h
}

#[test]
fn header_fields_are_big_endian() {
    let h = sample_header();
    assert_eq!(h.len(), 30);
    assert_eq!(
        parse_binary_header(&h),
        Ok(DFBinaryHeader::DF01 {
            time: 1_700_000_000,
            meta_type: MetaType::Json,
            meta_len: 5,
            data_type: 0,
            data_len: 3
        })
    );
}

#[test]
fn encoded_header_matches_layout() {
    assert_eq!(encode_df01_header(1_700_000_000, MetaType::Json, 5, 0, 3), sample_header());
}

#[test]
fn header_errors_in_reading_order() {
    assert_eq!(parse_binary_header(b"#"), Err(DFError::UnexpectedEnd));
    assert_eq!(parse_binary_header(b"#~DF02"), Err(DFError::UnsupportedOpenScope));
    assert_eq!(parse_binary_header(b"#!\x00\x01"), Err(DFError::UnexpectedEnd));
    let mut bad_type = sample_header();
    bad_type[5] = 0x01;
    assert_eq!(parse_binary_header(&bad_type), Err(DFError::UnexpectedHeaderType(0x0001_4001)));
    let mut bad_meta = sample_header();
    bad_meta[13] = 0x05;
    assert_eq!(parse_binary_header(&bad_meta), Err(DFError::UnknownMetaType(0x0001_0005)));
    let h = sample_header();
    assert_eq!(parse_binary_header(&h[..29]), Err(DFError::UnexpectedEnd));
    let mut bad_close = sample_header();
    bad_close[29] = b'X';
    assert_eq!(parse_binary_header(&bad_close), Err(DFError::UnexpectedCloseScope));
}

#[test]
fn meta_type_codes() {
    assert_eq!(MetaType::from_code(0), Some(MetaType::Undefined));
    assert_eq!(MetaType::from_code(0x0001_0000), Some(MetaType::Json));
    assert_eq!(MetaType::from_code(0x0001_0007), Some(MetaType::Qdatastream));
    assert_eq!(MetaType::from_code(7), None);
    assert_eq!(MetaType::Qdatastream.code(), 0x0001_0007);
    assert_eq!(MetaType::try_from(0x0001_0000), Ok(MetaType::Json));
}

#[test]
fn message_roundtrip_with_data() {
    let meta = br#"{"type":"reply"}"#;
    let data = [1u8, 2, 3, 4];
    let bytes = encode_df_message(42, meta, Some(&data));
    assert_eq!(bytes.len(), 30 + meta.len() + 2 + data.len());
    let (header, msg, used) = parse_df_message(&bytes).unwrap();
    assert_eq!(used, bytes.len());
    assert_eq!(
        header,
        DFBinaryHeader::DF01 {
            time: 42,
            meta_type: MetaType::Json,
            meta_len: meta.len() + 2,
            data_type: 0,
            data_len: 4
        }
    );
    let mut expected_meta = meta.to_vec();
    expected_meta.extend_from_slice(b"\r\n");
    assert_eq!(msg.meta, expected_meta);
    assert_eq!(msg.data, Some(data.to_vec()));
}

#[test]
fn empty_data_reads_back_as_none() {
    let bytes = encode_df_message(7, b"{}", Some(&[]));
    let (_, msg, used) = parse_df_message(&bytes).unwrap();
    assert_eq!(used, 34);
    assert_eq!(msg.data, None);
    let bytes = encode_df_message(7, b"{}", None);
    let (_, msg, _) = parse_df_message(&bytes).unwrap();
    assert_eq!(msg.data, None);
    assert_eq!(msg.meta, b"{}\r\n".to_vec());
}

#[test]
fn truncated_messages_and_other_meta_types() {
    let bytes = encode_df_message(1, b"{}", Some(&[9, 9]));
    assert_eq!(parse_df_message(&bytes[..32]).err(), Some(DFError::UnexpectedEnd));
    assert_eq!(parse_df_message(&bytes[..35]).err(), Some(DFError::UnexpectedEnd));
    let mut other = encode_df01_header(1, MetaType::Qdatastream, 0, 0, 0);
    other.extend_from_slice(b"");
    assert_eq!(
        parse_df_message(&other).err(),
        Some(DFError::MetaTypeNotSupported(MetaType::Qdatastream))
    );
}

#[test]
fn messages_follow_each_other() {
    let mut stream = encode_df_message(1, b"{\"a\":1}", Some(&[5]));
    let second = encode_df_message(2, b"{}", None);
    let first_len = stream.len();
    stream.extend_from_slice(&second);
    let (_, first, used) = parse_df_message(&stream).unwrap();
    assert_eq!(used, first_len);
    assert_eq!(first.data, Some(vec![5]));
    let (h, _, _) = parse_df_message(&stream[used..]).unwrap();
    match h {
        DFBinaryHeader::DF01 { time, .. } => assert_eq!(time, 2),
        DFBinaryHeader::DFText => panic!("text header"),
    }
}

#[test]
fn checked_readers_only_report_an_early_end() {
    let h = sample_header();
    assert_eq!(decode_binary_header(&h[..20]), Err(DFError::UnexpectedEnd));
    assert!(matches!(decode_binary_header(&h), Ok(DFBinaryHeader::DF01 { meta_len: 5, .. })));
    let msg = encode_df_message(7, b"{}", Some(&[1, 2, 3]));
    assert_eq!(decode_df_message(&msg[..msg.len() - 1]).err(), Some(DFError::UnexpectedEnd));
    let (_, m, n) = decode_df_message(&msg).unwrap();
    assert_eq!(m.meta, b"{}\r\n".to_vec());
    assert_eq!(m.data, Some(vec![1, 2, 3]));
    assert_eq!(n, msg.len());
}

#[test]
fn metadata_is_read_without_the_data() {
    let msg = encode_df_message(7, b"{\"a\":1}", Some(&[9; 10]));
    let meta_end = msg.len() - 10;
    let (h, meta) = parse_df_meta(&msg[..meta_end]).unwrap();
    assert!(matches!(h, DFBinaryHeader::DF01 { data_len: 10, .. }));
    assert_eq!(meta, b"{\"a\":1}\r\n".to_vec());
    assert_eq!(parse_df_meta(&msg[..meta_end - 1]).err(), Some(DFError::UnexpectedEnd));
    let mut other = msg.clone();
    other[13] = 0x07;
    assert_eq!(parse_df_meta(&other).err(), Some(DFError::MetaTypeNotSupported(MetaType::Qdatastream)));
}

#[test]
fn empty_data_is_written_as_no_data() {
    assert_eq!(encode_df_message(5, b"{}", Some(&[])), encode_df_message(5, b"{}", None));
}
