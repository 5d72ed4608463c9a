use domain_stats::error::StatsError;
use domain_stats::grpc::{decode_grpc_messages, encode_grpc_message};
use domain_stats::stats_api::{
    decode_query_stats_response, decode_stats_reply, encode_query_stats_request, stats_request_body,
};
use domain_stats::wire::{decode_stat, encode_varint, read_length_delimited, read_varint, skip_wire_value};

fn varint(value: u64) -> Vec<u8> {
    let mut out = Vec::new();
    encode_varint(value, &mut out);
    out
}

fn stat_bytes(name: &[u8], value: u64) -> Vec<u8> {
    let mut stat = vec![0x0a];
    encode_varint(name.len() as u64, &mut stat);
    stat.extend_from_slice(name);
    stat.push(0x10);
    encode_varint(value, &mut stat);
    stat
}

fn response_with(stats: &[Vec<u8>]) -> Vec<u8> {
    let mut response = Vec::new();
    for stat in stats {
        response.push(0x0a);
        encode_varint(stat.len() as u64, &mut response);
        response.extend_from_slice(stat);
    }
    response
}

#[test]
fn varint_encodings_match_protobuf() {
    assert_eq!(varint(0), vec![0]);
    assert_eq!(varint(1), vec![1]);
    assert_eq!(varint(127), vec![0x7f]);
    assert_eq!(varint(128), vec![0x80, 0x01]);
    assert_eq!(varint(300), vec![0xac, 0x02]);
    assert_eq!(varint(u64::MAX), vec![0xff, 0xff, 0xff, 0xff, 0xff, 0xff, 0xff, 0xff, 0xff, 0x01]);
}

#[test]
fn varint_roundtrip_leaves_the_rest() {
    for value in [0, 1, 127, 128, 300, 16_383, 16_384, 1 << 35, u64::MAX - 1, u64::MAX] {
        let mut bytes = varint(value);
        let written = bytes.len();
        bytes.extend_from_slice(&[0xaa, 0xbb]);
        let mut input: &[u8] = &bytes;
        assert_eq!(read_varint(&mut input), Ok(value));
        assert_eq!(input, &[0xaa, 0xbb]);
        assert_eq!(bytes.len() - input.len(), written);
    }
}

#[test]
fn varint_errors() {
    let mut empty: &[u8] = &[];
    assert_eq!(read_varint(&mut empty), Err(StatsError::TruncatedVarint));
    let mut cut: &[u8] = &[0x80, 0x80];
    assert_eq!(read_varint(&mut cut), Err(StatsError::TruncatedVarint));
    assert!(cut.is_empty());
    let long = [0x80u8; 11];
    let mut input: &[u8] = &long;
    assert_eq!(read_varint(&mut input), Err(StatsError::VarintTooLong));
    assert_eq!(input.len(), 1);
}

#[test]
fn varint_keeps_only_64_bits() {
    let mut input: &[u8] = &[0x80, 0x80, 0x80, 0x80, 0x80, 0x80, 0x80, 0x80, 0x80, 0x7f];
    assert_eq!(read_varint(&mut input), Ok(1 << 63));
    let mut input: &[u8] = &[0x80, 0x80, 0x80, 0x80, 0x80, 0x80, 0x80, 0x80, 0x80, 0x7e];
    assert_eq!(read_varint(&mut input), Ok(0));
}

#[test]
fn length_delimited_fields() {
    let mut input: &[u8] = &[3, 1, 2, 3, 9];
    assert_eq!(read_length_delimited(&mut input), Ok(&[1u8, 2, 3][..]));
    assert_eq!(input, &[9]);
    let mut short: &[u8] = &[4, 1, 2];
    assert_eq!(read_length_delimited(&mut short), Err(StatsError::TruncatedField));
}

#[test]
fn skipping_each_wire_type() {
    let mut input: &[u8] = &[0x96, 0x01, 7];
    assert_eq!(skip_wire_value(0, &mut input), Ok(()));
    assert_eq!(input, &[7]);
    let mut input: &[u8] = &[1, 2, 3, 4, 5, 6, 7, 8, 9];
    assert_eq!(skip_wire_value(1, &mut input), Ok(()));
    assert_eq!(input, &[9]);
    let mut input: &[u8] = &[1, 2, 3];
    assert_eq!(skip_wire_value(1, &mut input), Err(StatsError::Truncated64BitField));
    let mut input: &[u8] = &[2, 5, 6, 7];
    assert_eq!(skip_wire_value(2, &mut input), Ok(()));
    assert_eq!(input, &[7]);
    let mut input: &[u8] = &[1, 2, 3, 4];
    assert_eq!(skip_wire_value(5, &mut input), Ok(()));
    assert!(input.is_empty());
    let mut input: &[u8] = &[1, 2];
    assert_eq!(skip_wire_value(5, &mut input), Err(StatsError::Truncated32BitField));
    let mut input: &[u8] = &[1, 2];
    assert_eq!(skip_wire_value(3, &mut input), Err(StatsError::UnsupportedWireType(3)));
}

#[test]
fn stats_keep_last_field_and_need_name_and_value() {
    let mut stat = stat_bytes(b"first", 1);
    stat.extend_from_slice(&[0x0a, 6]);
    stat.extend_from_slice(b"second");
    stat.extend_from_slice(&[0x10, 9]);
    stat.extend_from_slice(&[0x18, 5]);
    assert_eq!(decode_stat(&stat), Ok(Some(("second".to_string(), 9))));
    assert_eq!(decode_stat(&[0x0a, 1, b'x']), Ok(None));
    assert_eq!(decode_stat(&[0x10, 1]), Ok(None));
    assert_eq!(decode_stat(&[]), Ok(None));
}

#[test]
fn stat_names_must_be_utf8() {
    let error = decode_stat(&[0x0a, 2, b'a', 0xff]).unwrap_err();
    let expected = std::str::from_utf8(&[b'a', 0xff]).unwrap_err();
    assert_eq!(
        error,
        StatsError::InvalidUtf8 { valid_up_to: expected.valid_up_to(), error_len: expected.error_len() }
    );
    assert_eq!(error.message(), expected.to_string());
    let incomplete = std::str::from_utf8(&[0xe2, 0x82]).unwrap_err();
    let error = decode_stat(&[0x0a, 2, 0xe2, 0x82]).unwrap_err();
    assert_eq!(error.message(), incomplete.to_string());
    assert!(error.is_validation());
}

#[test]
fn responses_collect_counters_and_skip_other_fields() {
    let mut response = response_with(&[stat_bytes(b"b", 2), stat_bytes(b"a", 1), stat_bytes(b"b", 3)]);
    response.extend_from_slice(&[0x10, 0x05]);
    response.extend_from_slice(&response_with(&[vec![0x0a, 1, b'z']]));
    let counters = decode_query_stats_response(&response).unwrap();
    assert_eq!(counters.get("a"), Some(&1));
    assert_eq!(counters.get("b"), Some(&3));
    assert_eq!(counters.get("z"), None);
    assert_eq!(counters.len(), 2);
    assert_eq!(decode_query_stats_response(&[0x0a, 5, 1]).unwrap_err(), StatsError::TruncatedField);
}

#[test]
fn grpc_frames() {
    assert_eq!(encode_grpc_message(&[7, 8]), vec![0, 0, 0, 0, 2, 7, 8]);
    let mut two = encode_grpc_message(&[1]);
    two.extend_from_slice(&encode_grpc_message(&[]));
    assert_eq!(decode_grpc_messages(&two), Ok(vec![vec![1], vec![]]));
    assert_eq!(decode_grpc_messages(&[]), Ok(vec![]));
    let mut then_broken = encode_grpc_message(&[9]);
    then_broken.extend_from_slice(&[0, 0]);
    assert_eq!(decode_grpc_messages(&then_broken), Err(StatsError::TruncatedFrame));
    assert_eq!(decode_grpc_messages(&[0, 0]), Err(StatsError::TruncatedFrame));
    assert_eq!(decode_grpc_messages(&[1, 0, 0, 0, 0]), Err(StatsError::CompressedFrame));
    assert_eq!(decode_grpc_messages(&[0, 0, 0, 0, 5, 1]), Err(StatsError::TruncatedMessage));
    let big = vec![0u8; 300];
    let frame = encode_grpc_message(&big);
    assert_eq!(&frame[..5], &[0, 0, 0, 1, 44]);
    assert_eq!(decode_grpc_messages(&frame), Ok(vec![big]));
}

#[test]
fn replies_merge_frames_later_wins() {
    let mut body = encode_grpc_message(&response_with(&[stat_bytes(b"up", 1), stat_bytes(b"down", 2)]));
    body.extend_from_slice(&encode_grpc_message(&response_with(&[stat_bytes(b"up", 10)])));
    let counters = decode_stats_reply(&body).unwrap();
    assert_eq!(counters.get("up"), Some(&10));
    assert_eq!(counters.get("down"), Some(&2));
    assert_eq!(decode_stats_reply(&[1, 0, 0, 0, 0]).unwrap_err(), StatsError::CompressedFrame);
    assert!(!StatsError::CompressedFrame.is_validation());
}

#[test]
fn requests() {
    assert_eq!(stats_request_body(), vec![0, 0, 0, 0, 0]);
    assert_eq!(encode_query_stats_request("", false), Vec::<u8>::new());
    assert_eq!(encode_query_stats_request("", true), vec![0x10, 1]);
    assert_eq!(encode_query_stats_request("user", true), vec![0x0a, 4, b'u', b's', b'e', b'r', 0x10, 1]);
    assert_eq!(encode_query_stats_request("é", false), vec![0x0a, 2, 0xc3, 0xa9]);
}

#[test]
fn error_messages() {
    assert_eq!(StatsError::TruncatedVarint.message(), "truncated protobuf varint");
    assert_eq!(StatsError::VarintTooLong.message(), "protobuf varint is too long");
    assert_eq!(StatsError::TruncatedField.message(), "truncated protobuf field");
    assert_eq!(StatsError::Truncated64BitField.message(), "truncated 64-bit protobuf field");
    assert_eq!(StatsError::Truncated32BitField.message(), "truncated 32-bit protobuf field");
    assert_eq!(StatsError::UnsupportedWireType(6).message(), "unsupported protobuf wire type 6");
    assert_eq!(StatsError::UnsupportedWireType(1234).message(), "unsupported protobuf wire type 1234");
    assert_eq!(StatsError::TruncatedFrame.message(), "truncated gRPC stats frame");
    assert_eq!(
        StatsError::CompressedFrame.message(),
        "compressed gRPC stats frames are not supported"
    );
    assert_eq!(StatsError::TruncatedMessage.message(), "truncated gRPC stats message");
    assert_eq!(StatsError::EmptyListenAddress.message(), "stats API listen address is empty");
}

#[test]
fn grpc_bodies_concatenate() {
    let mut a = encode_grpc_message(&[1, 2]);
    a.extend_from_slice(&encode_grpc_message(&[3]));
    let b = encode_grpc_message(&[4, 5, 6]);
    let mut both = a.clone();
    both.extend_from_slice(&b);
    let mut expected = decode_grpc_messages(&a).unwrap();
    expected.extend(decode_grpc_messages(&b).unwrap());
    assert_eq!(decode_grpc_messages(&both), Ok(expected));
    assert_eq!(decode_grpc_messages(&[]), Ok(Vec::<Vec<u8>>::new()));
}
