use vstd::prelude::*;
use vstd::string::StringSliceAdditionalSpecFns;
use vstd::utf8::{decode_utf8, encode_utf8, encode_utf8_decode_utf8, encode_utf8_valid_utf8, valid_utf8};
use crate::counters::CounterMap;
use crate::error::StatsError;
use crate::grpc::{
    decode_grpc_messages, encode_grpc_message, grpc_frame, grpc_messages, lemma_grpc_frame_roundtrip,
};
use crate::textmap::TextMap;
use crate::wire::{
    decode_stat, encode_varint, lemma_field_reads_stay_within, lemma_read_varint_consumes,
    read_length_delimited, read_varint, skip_wire_value, spec_read_length_delimited,
    spec_read_varint, spec_skip_wire_value, stat_fields, varint_bytes, lemma_varint_roundtrip,
};

verus! {

/// The counters of a `QueryStatsResponse` read from the front of `s`, on top of
/// `acc`: every field 1 is a `Stat`; a stat with both a name and a value sets that
/// counter (a later stat of the same name wins); other fields are skipped.
pub open spec fn response_counters(s: Seq<u8>, acc: Map<Seq<char>, u64>) -> Result<
    Map<Seq<char>, u64>,
    StatsError,
>
    decreases s.len(),
{
    if s.len() == 0 {
        Ok(acc)
    } else {
        let (key, n) = spec_read_varint(s);
        match key {
            Err(e) => Err(e),
            Ok(key) => {
                proof {
                    lemma_read_varint_consumes(s);
                }
                let rest = s.skip(n as int);
                if key / 8 == 1 && key % 8 == 2 {
                    let (raw, m) = spec_read_length_delimited(rest);
                    match raw {
                        Err(e) => Err(e),
                        Ok(stat) => {
                            proof {
                                lemma_field_reads_stay_within(2, rest);
                            }
                            match stat_fields(stat, None, None) {
                                Err(e) => Err(e),
                                Ok(Some((name, value))) => response_counters(
                                    rest.skip(m as int),
                                    acc.insert(name, value),
                                ),
                                Ok(None) => response_counters(rest.skip(m as int), acc),
                            }
                        },
                    }
                } else {
                    let (r, m) = spec_skip_wire_value(key % 8, rest);
                    match r {
                        Err(e) => Err(e),
                        Ok(_) => {
                            proof {
                                lemma_field_reads_stay_within(key % 8, rest);
                            }
                            response_counters(rest.skip(m as int), acc)
                        },
                    }
                }
            },
        }
    }
}

/// Decodes a `QueryStatsResponse` of the v2ray stats API into counters by name.
pub fn decode_query_stats_response(input: &[u8]) -> (r: Result<CounterMap, StatsError>)
    ensures
        match r {
            Ok(m) => response_counters(input@, Map::empty()) == Ok::<_, StatsError>(m@),
            Err(e) => response_counters(input@, Map::empty()) == Err::<Map<Seq<char>, u64>, _>(e),
        },
{
    let mut counters: CounterMap = TextMap::new();
    let mut cursor: &[u8] = input;
    while cursor.len() > 0
        invariant
            response_counters(input@, Map::empty()) == response_counters(cursor@, counters@),
        decreases cursor@.len(),
    {
        let ghost before = cursor@;
        proof {
            lemma_read_varint_consumes(before);
        }
        let key = match read_varint(&mut cursor) {
            Ok(k) => k,
            Err(e) => return Err(e),
        };
        let field = key / 8;
        let wire = key % 8;
        if field == 1 && wire == 2 {
            let ghost mid = cursor@;
            let stat = match read_length_delimited(&mut cursor) {
                Ok(stat) => stat,
                Err(e) => return Err(e),
            };
            proof {
                lemma_field_reads_stay_within(2, mid);
            }
            match decode_stat(stat) {
                Ok(Some((name, value))) => {
                    counters.insert(name, value);
                },
                Ok(None) => {},
                Err(e) => return Err(e),
            }
        } else {
            let ghost mid = cursor@;
            match skip_wire_value(wire, &mut cursor) {
                Ok(_) => {},
                Err(e) => return Err(e),
            }
            proof {
                lemma_field_reads_stay_within(wire, mid);
            }
        }
    }
    Ok(counters)
}

/// A `QueryStatsRequest` with the given name pattern and reset flag: field 1 holds
/// the pattern when it is not empty, field 2 is set only when resetting.
pub open spec fn query_request_bytes(pattern: Seq<char>, reset: bool) -> Seq<u8> {
    (if pattern.len() > 0 {
        seq![0x0au8] + varint_bytes(encode_utf8(pattern).len()) + encode_utf8(pattern)
    } else {
        Seq::empty()
    }) + (if reset {
        seq![0x10u8, 1u8]
    } else {
        Seq::empty()
    })
}

/// Encodes a `QueryStatsRequest` of the v2ray stats API.
pub fn encode_query_stats_request(pattern: &str, reset: bool) -> (r: Vec<u8>)
    ensures
        r@ == query_request_bytes(pattern@, reset),
{
    let mut output: Vec<u8> = Vec::new();
    let ghost field: Seq<u8> = if pattern@.len() > 0 {
        seq![0x0au8] + varint_bytes(encode_utf8(pattern@).len()) + encode_utf8(pattern@)
    } else {
        Seq::empty()
    };
    if !pattern.is_empty() {
        output.push(0x0a);
        let bytes = pattern.as_bytes();
        let len = bytes.len();
        encode_varint(len as u64, &mut output);
        let ghost head = output@;
        output.extend_from_slice(bytes);
        proof {
            assert(output@ =~= head + pattern.spec_bytes());
        }
    }
    proof {
        assert(output@ =~= field);
    }
    if reset {
        output.push(0x10);
        output.push(1);
        proof {
            assert(output@ =~= field + seq![0x10u8, 1u8]);
        }
    } else {
        proof {
            assert(output@ =~= field + Seq::<u8>::empty());
        }
    }
    output
}

/// The counters of a sequence of `QueryStatsResponse` messages; a later message
/// wins where two name the same counter.
pub open spec fn reply_counters(messages: Seq<Seq<u8>>) -> Result<Map<Seq<char>, u64>, StatsError>
    decreases messages.len(),
{
    if messages.len() == 0 {
        Ok(Map::empty())
    } else {
        match reply_counters(messages.drop_last()) {
            Err(e) => Err(e),
            Ok(earlier) => match response_counters(messages.last(), Map::empty()) {
                Err(e) => Err(e),
                Ok(last) => Ok(earlier.union_prefer_right(last)),
            },
        }
    }
}

/// The counters in the body of a stats API reply: gRPC frames of responses.
pub open spec fn stats_reply_counters(body: Seq<u8>) -> Result<Map<Seq<char>, u64>, StatsError> {
    match grpc_messages(body) {
        Err(e) => Err(e),
        Ok(messages) => reply_counters(messages),
    }
}

/// Decodes the body of a stats API reply into counters by name.
pub fn decode_stats_reply(body: &[u8]) -> (r: Result<CounterMap, StatsError>)
    ensures
        match r {
            Ok(m) => stats_reply_counters(body@) == Ok::<_, StatsError>(m@),
            Err(e) => stats_reply_counters(body@) == Err::<Map<Seq<char>, u64>, _>(e),
        },
{
    let messages = match decode_grpc_messages(body) {
        Ok(messages) => messages,
        Err(e) => return Err(e),
    };
    let ghost ms = messages@.map_values(|m: Vec<u8>| m@);
    let mut counters: CounterMap = TextMap::new();
    let mut i: usize = 0;
    proof {
        assert(ms.take(0) =~= Seq::<Seq<u8>>::empty());
    }
    while i < messages.len()
        invariant
            ms == messages@.map_values(|m: Vec<u8>| m@),
            i <= messages@.len(),
            reply_counters(ms.take(i as int)) == Ok::<_, StatsError>(counters@),
            stats_reply_counters(body@) == reply_counters(ms),
        decreases messages@.len() - i,
    {
        proof {
            assert(ms.take(i + 1).drop_last() =~= ms.take(i as int));
            assert(ms.take(i + 1).last() == messages@[i as int]@);
        }
        match decode_query_stats_response(messages[i].as_slice()) {
            Ok(more) => {
                counters.extend(more);
            },
            Err(e) => {
                proof {
                    lemma_reply_counters_err(ms, i as int + 1);
                }
                return Err(e);
            },
        }
        i += 1;
    }
    proof {
        assert(ms.take(i as int) =~= ms);
    }
    Ok(counters)
}

proof fn lemma_reply_counters_err(ms: Seq<Seq<u8>>, k: int)
    requires
        0 <= k <= ms.len(),
        reply_counters(ms.take(k)) is Err,
    ensures
        reply_counters(ms) == reply_counters(ms.take(k)),
    decreases ms.len() - k,
{
    if k < ms.len() {
        assert(ms.take(k + 1).drop_last() =~= ms.take(k));
        lemma_reply_counters_err(ms, k + 1);
    } else {
        assert(ms.take(k) =~= ms);
    }
}

/// The body of a stats query: one gRPC frame holding a request for every counter,
/// without resetting them.
pub fn stats_request_body() -> (r: Vec<u8>)
    ensures
        r@ == grpc_frame(query_request_bytes(Seq::empty(), false)),
        r@ == seq![0u8, 0u8, 0u8, 0u8, 0u8],
{
    proof {
        reveal_strlit("");
    }
    let request = encode_query_stats_request("", false);
    let r = encode_grpc_message(request.as_slice());
    proof {
        assert(query_request_bytes(Seq::empty(), false) =~= Seq::<u8>::empty());
        assert(grpc_frame(Seq::<u8>::empty()) =~= seq![0u8, 0u8, 0u8, 0u8, 0u8]) by {
            assert((0u32 >> 24u32) as u8 == 0u8 && (0u32 >> 16u32) as u8 == 0u8) by (bit_vector);
            assert((0u32 >> 8u32) as u8 == 0u8) by (bit_vector);
        }
    }
    r
}

/// A `Stat` message: its name (field 1) then its value (field 2).
pub open spec fn stat_message(name: Seq<char>, value: u64) -> Seq<u8> {
    seq![0x0au8] + varint_bytes(encode_utf8(name).len()) + encode_utf8(name) + seq![0x10u8]
        + varint_bytes(value as nat)
}

/// A `QueryStatsResponse` holding the given `Stat` message (field 1).
pub open spec fn response_message(stat: Seq<u8>) -> Seq<u8> {
    seq![0x0au8] + varint_bytes(stat.len()) + stat
}

proof fn lemma_length_delimited_of(payload: Seq<u8>, rest: Seq<u8>)
    requires
        payload.len() <= usize::MAX,
    ensures
        spec_read_length_delimited(varint_bytes(payload.len()) + payload + rest) == (
            Ok::<Seq<u8>, StatsError>(payload),
            varint_bytes(payload.len()).len() + payload.len(),
        ),
{
    let head = varint_bytes(payload.len());
    let s = head + payload + rest;
    assert(s =~= head + (payload + rest));
    lemma_varint_roundtrip(payload.len() as u64, payload + rest);
    assert(s.skip(head.len() as int) =~= payload + rest);
    assert((payload + rest).take(payload.len() as int) =~= payload);
}

/// A `Stat` message with a name and a value decodes to that name and value.
pub proof fn lemma_stat_message_decodes(name: Seq<char>, value: u64)
    requires
        encode_utf8(name).len() <= usize::MAX,
    ensures
        stat_fields(stat_message(name, value), None, None) == Ok::<_, StatsError>(
            Some((name, value)),
        ),
{
    let bytes = encode_utf8(name);
    let value_part = seq![0x10u8] + varint_bytes(value as nat);
    let s = stat_message(name, value);
    assert(varint_bytes(10) == seq![0x0au8]);
    assert(s =~= varint_bytes(10) + (varint_bytes(bytes.len()) + bytes + value_part));
    lemma_varint_roundtrip(10, varint_bytes(bytes.len()) + bytes + value_part);
    let rest = s.skip(1);
    assert(rest =~= varint_bytes(bytes.len()) + bytes + value_part);
    lemma_length_delimited_of(bytes, value_part);
    let m = varint_bytes(bytes.len()).len() + bytes.len();
    encode_utf8_valid_utf8(name);
    encode_utf8_decode_utf8(name);
    let tail = rest.skip(m as int);
    assert(tail =~= value_part);
    assert(varint_bytes(16) == seq![0x10u8]);
    assert(tail =~= varint_bytes(16) + varint_bytes(value as nat));
    lemma_varint_roundtrip(16, varint_bytes(value as nat));
    let after_key = tail.skip(1);
    assert(after_key =~= varint_bytes(value as nat) + Seq::<u8>::empty());
    lemma_varint_roundtrip(value, Seq::<u8>::empty());
    let end = after_key.skip(varint_bytes(value as nat).len() as int);
    assert(end =~= Seq::<u8>::empty());
    assert(stat_fields(end, Some(name), Some(value)) == Ok::<_, StatsError>(Some((name, value))));
    assert(stat_fields(after_key.skip(spec_read_varint(after_key).1 as int), Some(name), Some(value))
        == Ok::<_, StatsError>(Some((name, value))));
    assert(stat_fields(tail, Some(name), None) == Ok::<_, StatsError>(Some((name, value))));
    assert(stat_fields(rest.skip(m as int), Some(decode_utf8(bytes)), None) == Ok::<_, StatsError>(
        Some((name, value)),
    ));
}

/// A response holding one named stat decodes to exactly that counter.
pub proof fn lemma_single_stat_response(name: Seq<char>, value: u64)
    requires
        stat_message(name, value).len() <= usize::MAX,
    ensures
        response_counters(response_message(stat_message(name, value)), Map::empty()) == Ok::<
            _,
            StatsError,
        >(Map::<Seq<char>, u64>::empty().insert(name, value)),
{
    let stat = stat_message(name, value);
    let s = response_message(stat);
    lemma_stat_message_decodes(name, value);
    assert(s =~= varint_bytes(10) + (varint_bytes(stat.len()) + stat + Seq::<u8>::empty()));
    lemma_varint_roundtrip(10, varint_bytes(stat.len()) + stat + Seq::<u8>::empty());
    let rest = s.skip(1);
    assert(rest =~= varint_bytes(stat.len()) + stat + Seq::<u8>::empty());
    lemma_length_delimited_of(stat, Seq::<u8>::empty());
    let m = varint_bytes(stat.len()).len() + stat.len();
    assert(rest.skip(m as int) =~= Seq::<u8>::empty());
    assert(varint_bytes(10) + (varint_bytes(stat.len()) + stat + Seq::<u8>::empty()) == s);
    assert(spec_read_varint(s) == (Ok::<u64, StatsError>(10), 1nat));
    assert(spec_read_length_delimited(rest) == (Ok::<Seq<u8>, StatsError>(stat), m));
    let single = Map::<Seq<char>, u64>::empty().insert(name, value);
    assert(response_counters(rest.skip(m as int), single) == Ok::<_, StatsError>(single));
}

/// A stats API reply framing one response with one named stat decodes to exactly that
/// counter.
pub proof fn lemma_single_stat_reply(name: Seq<char>, value: u64)
    requires
        response_message(stat_message(name, value)).len() <= u32::MAX,
    ensures
        stats_reply_counters(grpc_frame(response_message(stat_message(name, value)))) == Ok::<
            _,
            StatsError,
        >(Map::<Seq<char>, u64>::empty().insert(name, value)),
{
    let response = response_message(stat_message(name, value));
    lemma_grpc_frame_roundtrip(response, Seq::empty());
    assert(grpc_frame(response) + Seq::<u8>::empty() =~= grpc_frame(response));
    assert(grpc_messages(Seq::<u8>::empty()) == Ok::<_, StatsError>(Seq::<Seq<u8>>::empty()));
    assert(seq![response] + Seq::<Seq<u8>>::empty() =~= seq![response]);
    lemma_single_stat_response(name, value);
    let ms = seq![response];
    assert(ms.drop_last() =~= Seq::<Seq<u8>>::empty());
    assert(reply_counters(Seq::<Seq<u8>>::empty()) == Ok::<_, StatsError>(
        Map::<Seq<char>, u64>::empty(),
    ));
    let single = Map::<Seq<char>, u64>::empty().insert(name, value);
    assert(Map::<Seq<char>, u64>::empty().union_prefer_right(single) =~= single);
}

} // verus!
