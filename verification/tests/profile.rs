use flate2::write::GzEncoder;
use flate2::Compression;
use go_profile_lsp::profile::is_gzip;
use go_profile_lsp::profile::parse_message;
use go_profile_lsp::profile::parse_profile;
use go_profile_lsp::profile::resolve_string;
use go_profile_lsp::profile::ParseError;
use go_profile_lsp::proto::Profile;
use go_profile_lsp::proto::ValueType;
use go_profile_lsp::wire::Malformed;
use prost::encoding::encode_key;
use prost::encoding::encode_varint;
use prost::encoding::int64;
use prost::encoding::string;
use prost::encoding::uint64;
use prost::encoding::WireType;
use std::io::Write;

fn message(out: &mut Vec<u8>, tag: u32, body: &[u8]) {
    encode_key(tag, WireType::LengthDelimited, out);
    encode_varint(body.len() as u64, out);
    out.extend_from_slice(body);
}

/// A profile with one column and the given strings.
fn encoded(table: &[&str]) -> Vec<u8> {
    let mut column: Vec<u8> = Vec::new();
    int64::encode(1, &1, &mut column);
    int64::encode(2, &2, &mut column);
    let mut out: Vec<u8> = Vec::new();
    message(&mut out, 1, &column);
    for text in table {
        string::encode(6, &text.to_string(), &mut out);
    }
    out
}

fn gzipped(data: &[u8]) -> Vec<u8> {
    let mut encoder = GzEncoder::new(Vec::new(), Compression::default());
    encoder.write_all(data).unwrap();
    encoder.finish().unwrap()
}

#[test]
fn test_is_gzip_true() {
    assert!(is_gzip(&[0x1f, 0x8b, 0x08, 0x00]));
}

#[test]
fn test_is_gzip_false() {
    assert!(!is_gzip(&[0x0a, 0x0b, 0x0c]));
}

#[test]
fn test_is_gzip_too_short() {
    assert!(!is_gzip(&[0x1f]));
    assert!(!is_gzip(&[]));
}

#[test]
fn test_parse_empty_returns_error() {
    assert!(matches!(parse_profile(&[]), Err(ParseError::Empty)));
}

#[test]
fn test_parse_raw_protobuf() {
    let encoded = encoded(&["", "cpu", "nanoseconds"]);
    let parsed = parse_profile(&encoded).unwrap();
    assert_eq!(parsed.string_table.len(), 3);
    assert_eq!(parsed.string_table[1], "cpu");
    assert_eq!(parsed.sample_type.len(), 1);
}

#[test]
fn test_parse_gzipped_protobuf() {
    let encoded = encoded(&["", "heap", "bytes"]);
    let gzipped = gzipped(&encoded);
    let parsed = parse_profile(&gzipped).unwrap();
    assert_eq!(parsed.string_table[1], "heap");
}

#[test]
fn test_resolve_string() {
    let profile = Profile {
        string_table: vec![
            "".to_string(),
            "main.go".to_string(),
            "runtime.mallocgc".to_string(),
        ],
        ..Default::default()
    };
    assert_eq!(resolve_string(&profile, 0), "");
    assert_eq!(resolve_string(&profile, 1), "main.go");
    assert_eq!(resolve_string(&profile, 2), "runtime.mallocgc");
    assert_eq!(resolve_string(&profile, 99), "");
    assert_eq!(resolve_string(&profile, -1), "");
}

#[test]
fn damaged_compression_is_an_io_error() {
    let mut gzipped = gzipped(&encoded(&["", "heap", "bytes"]));
    gzipped.truncate(gzipped.len() - 6);
    assert!(matches!(parse_profile(&gzipped), Err(ParseError::Io(_))));
    assert!(matches!(parse_profile(&[0x1f, 0x8b]), Err(ParseError::Io(_))));
}

#[test]
fn damaged_messages_are_decode_errors() {
    let mut whole = encoded(&["", "cpu", "nanoseconds"]);
    whole.truncate(whole.len() - 1);
    assert!(matches!(parse_profile(&whole), Err(ParseError::Decode(Malformed::Underflow))));
    assert!(matches!(
        parse_profile(&gzipped(&whole)),
        Err(ParseError::Decode(Malformed::Underflow))
    ));
}

fn cause(bytes: &[u8]) -> Malformed {
    match parse_message(bytes) {
        Err(ParseError::Decode(cause)) => cause,
        other => panic!("not refused: {other:?}"),
    }
}

#[test]
fn decode_errors_say_what_is_wrong() {
    assert_eq!(cause(&[0x80]), Malformed::Varint);
    assert_eq!(cause(&[0x60, 0x80]), Malformed::Varint);
    assert_eq!(cause(&[0x80, 0x80, 0x80, 0x80, 0x10]), Malformed::Key(1 << 32));
    assert_eq!(cause(&[0x07]), Malformed::WireTypeCode(7));
    assert_eq!(cause(&[0x00]), Malformed::Tag);
    assert_eq!(cause(&[0x32, 0x05, b'a']), Malformed::Underflow);
    assert_eq!(cause(&[0x79, 1, 2, 3]), Malformed::Underflow);
    assert_eq!(cause(&[0x7c]), Malformed::EndGroup);
    assert_eq!(cause(&[0x7b, 0x74]), Malformed::EndGroup);
    assert_eq!(cause(&[0x7b; 200]), Malformed::Depth);
    // Inside of a sample.
    assert_eq!(cause(&[0x12, 0x02, 0x1a, 0x01]), Malformed::Underflow);
    assert_eq!(cause(&[0x12, 0x03, 0x0a, 0x01, 0xff]), Malformed::Varint);
}

#[test]
fn strings_must_be_unicode() {
    let mut bytes: Vec<u8> = Vec::new();
    message(&mut bytes, 6, &[0xff, 0xfe]);
    assert_eq!(cause(&bytes), Malformed::Unicode);
    let mut good: Vec<u8> = Vec::new();
    message(&mut good, 6, "größe — 日本".as_bytes());
    assert_eq!(parse_message(&good).unwrap().string_table, vec!["größe — 日本"]);
}

#[test]
fn all_fields_are_read() {
    let mut column: Vec<u8> = Vec::new();
    int64::encode(1, &3, &mut column);
    int64::encode(2, &-4, &mut column);

    let mut label: Vec<u8> = Vec::new();
    int64::encode(1, &1, &mut label);
    int64::encode(2, &2, &mut label);
    int64::encode(3, &i64::MIN, &mut label);
    int64::encode(4, &4, &mut label);

    let mut sample: Vec<u8> = Vec::new();
    uint64::encode_packed(1, &[1, u64::MAX, 300], &mut sample);
    int64::encode_repeated(2, &[7, -7], &mut sample);
    message(&mut sample, 3, &label);

    let mut line: Vec<u8> = Vec::new();
    uint64::encode(1, &5, &mut line);
    int64::encode(2, &77, &mut line);

    let mut location: Vec<u8> = Vec::new();
    uint64::encode(1, &9, &mut location);
    uint64::encode(2, &8, &mut location);
    uint64::encode(3, &4096, &mut location);
    message(&mut location, 4, &line);
    message(&mut location, 4, &line);
    prost::encoding::bool::encode(5, &true, &mut location);

    let mut function: Vec<u8> = Vec::new();
    uint64::encode(1, &5, &mut function);
    int64::encode(2, &1, &mut function);
    int64::encode(3, &2, &mut function);
    int64::encode(4, &3, &mut function);
    int64::encode(5, &44, &mut function);

    let mut mapping: Vec<u8> = Vec::new();
    uint64::encode(1, &1, &mut mapping);
    uint64::encode(2, &2, &mut mapping);
    uint64::encode(3, &3, &mut mapping);
    uint64::encode(4, &4, &mut mapping);
    int64::encode(5, &5, &mut mapping);
    int64::encode(6, &6, &mut mapping);
    for tag in 7..11 {
        prost::encoding::bool::encode(tag, &true, &mut mapping);
    }

    let mut bytes: Vec<u8> = Vec::new();
    message(&mut bytes, 1, &column);
    message(&mut bytes, 2, &sample);
    message(&mut bytes, 3, &mapping);
    message(&mut bytes, 4, &location);
    message(&mut bytes, 5, &function);
    string::encode(6, &"x".to_string(), &mut bytes);
    int64::encode(7, &70, &mut bytes);
    int64::encode(8, &80, &mut bytes);
    int64::encode(9, &90, &mut bytes);
    int64::encode(10, &100, &mut bytes);
    message(&mut bytes, 11, &column);
    int64::encode(12, &120, &mut bytes);
    int64::encode_packed(13, &[1, 2, 3], &mut bytes);
    int64::encode(14, &140, &mut bytes);

    let profile = parse_profile(&bytes).unwrap();
    assert_eq!(profile.sample_type, vec![ValueType { type_: 3, unit: -4 }]);
    assert_eq!(profile.sample[0].location_id, vec![1, u64::MAX, 300]);
    assert_eq!(profile.sample[0].value, vec![7, -7]);
    assert_eq!(profile.sample[0].label[0].num, i64::MIN);
    assert_eq!(profile.sample[0].label[0].num_unit, 4);
    assert_eq!(profile.mapping[0].file_offset, 4);
    assert_eq!(profile.mapping[0].build_id, 6);
    assert!(profile.mapping[0].has_functions);
    assert!(profile.mapping[0].has_inline_frames);
    assert_eq!(profile.location[0].address, 4096);
    assert_eq!(profile.location[0].line.len(), 2);
    assert_eq!(profile.location[0].line[1].line, 77);
    assert!(profile.location[0].is_folded);
    assert_eq!(profile.function[0].start_line, 44);
    assert_eq!(profile.string_table, vec!["x"]);
    assert_eq!(profile.drop_frames, 70);
    assert_eq!(profile.keep_frames, 80);
    assert_eq!(profile.time_nanos, 90);
    assert_eq!(profile.duration_nanos, 100);
    assert_eq!(profile.period_type, Some(ValueType { type_: 3, unit: -4 }));
    assert_eq!(profile.period, 120);
    assert_eq!(profile.comment, vec![1, 2, 3]);
    assert_eq!(profile.default_sample_type, 140);
}

#[test]
fn unknown_fields_are_skipped() {
    let mut bytes: Vec<u8> = Vec::new();
    uint64::encode(99, &5, &mut bytes);
    message(&mut bytes, 100, b"anything");
    encode_key(101, WireType::SixtyFourBit, &mut bytes);
    bytes.extend_from_slice(&[0; 8]);
    encode_key(102, WireType::ThirtyTwoBit, &mut bytes);
    bytes.extend_from_slice(&[0; 4]);
    encode_key(103, WireType::StartGroup, &mut bytes);
    uint64::encode(1, &5, &mut bytes);
    encode_key(103, WireType::EndGroup, &mut bytes);
    int64::encode(12, &6, &mut bytes);
    assert_eq!(parse_message(&bytes).unwrap().period, 6);
}

#[test]
fn the_last_value_of_a_field_counts() {
    let mut bytes: Vec<u8> = Vec::new();
    int64::encode(12, &6, &mut bytes);
    int64::encode(12, &7, &mut bytes);
    assert_eq!(parse_message(&bytes).unwrap().period, 7);
}

#[test]
fn fields_of_another_kind_are_refused() {
    let mut bytes: Vec<u8> = Vec::new();
    message(&mut bytes, 12, &[1]);
    assert_eq!(cause(&bytes), Malformed::WireType);
    let mut number: Vec<u8> = Vec::new();
    uint64::encode(6, &1, &mut number);
    assert_eq!(cause(&number), Malformed::WireType);
}

#[test]
fn only_the_first_compressed_member_is_read() {
    let mut twice = gzipped(&encoded(&["", "first"]));
    twice.extend_from_slice(&gzipped(&encoded(&["", "second"])));
    let profile = parse_profile(&twice).unwrap();
    assert_eq!(profile.string_table, vec!["", "first"]);
}
