use vstd::prelude::*;
use crate::error::StatsError;

verus! {

/// The four big-endian bytes of `n`.
pub open spec fn be32_bytes(n: u32) -> Seq<u8> {
    seq![(n >> 24u32) as u8, (n >> 16u32) as u8, (n >> 8u32) as u8, n as u8]
}

/// The number spelled by four big-endian bytes.
pub open spec fn be32_value(b0: u8, b1: u8, b2: u8, b3: u8) -> u32 {
    ((b0 as u32) << 24u32) | ((b1 as u32) << 16u32) | ((b2 as u32) << 8u32) | (b3 as u32)
}

/// A gRPC frame: an uncompressed flag, the length of `message` (kept to 32 bits) in
/// big-endian order, then the message.
pub open spec fn grpc_frame(message: Seq<u8>) -> Seq<u8> {
    seq![0u8] + be32_bytes(message.len() as u32) + message
}

/// The messages of a sequence of gRPC frames, or the first framing error.
pub open spec fn grpc_messages(s: Seq<u8>) -> Result<Seq<Seq<u8>>, StatsError>
    decreases s.len(),
{
    if s.len() == 0 {
        Ok(Seq::empty())
    } else if s.len() < 5 {
        Err(StatsError::TruncatedFrame)
    } else if s[0] != 0 {
        Err(StatsError::CompressedFrame)
    } else {
        let len = be32_value(s[1], s[2], s[3], s[4]) as nat;
        let rest = s.skip(5);
        if rest.len() < len {
            Err(StatsError::TruncatedMessage)
        } else {
            match grpc_messages(rest.skip(len as int)) {
                Ok(ms) => Ok(seq![rest.take(len as int)] + ms),
                Err(e) => Err(e),
            }
        }
    }
}

/// Wraps `message` in one uncompressed gRPC frame.
pub fn encode_grpc_message(message: &[u8]) -> (r: Vec<u8>)
    ensures
        r@ == grpc_frame(message@),
{
    let len = message.len() as u32;
    let mut output: Vec<u8> = Vec::new();
    output.push(0);
    output.push((len >> 24u32) as u8);
    output.push((len >> 16u32) as u8);
    output.push((len >> 8u32) as u8);
    output.push(len as u8);
    let ghost head = output@;
    output.extend_from_slice(message);
    proof {
        assert(output@ =~= head + message@);
        assert(head =~= seq![0u8] + be32_bytes(message@.len() as u32));
    }
    output
}

/// Splits a body of gRPC frames into their messages.
pub fn decode_grpc_messages(input: &[u8]) -> (r: Result<Vec<Vec<u8>>, StatsError>)
    ensures
        match r {
            Ok(ms) => grpc_messages(input@) == Ok::<_, StatsError>(
                ms@.map_values(|m: Vec<u8>| m@),
            ),
            Err(e) => grpc_messages(input@) == Err::<Seq<Seq<u8>>, _>(e),
        },
{
    let mut messages: Vec<Vec<u8>> = Vec::new();
    let mut cursor: &[u8] = input;
    while cursor.len() > 0
        invariant
            grpc_messages(input@) == match grpc_messages(cursor@) {
                Ok(ms) => Ok(messages@.map_values(|m: Vec<u8>| m@) + ms),
                Err(e) => Err(e),
            },
        decreases cursor@.len(),
    {
        if cursor.len() < 5 {
            return Err(StatsError::TruncatedFrame);
        }
        if cursor[0] != 0 {
            return Err(StatsError::CompressedFrame);
        }
        let b0: u32 = cursor[1] as u32;
        let b1: u32 = cursor[2] as u32;
        let b2: u32 = cursor[3] as u32;
        let b3: u32 = cursor[4] as u32;
        let len = ((b0 << 24u32) | (b1 << 16u32) | (b2 << 8u32) | b3) as usize;
        let (_, rest) = cursor.split_at(5);
        if rest.len() < len {
            return Err(StatsError::TruncatedMessage);
        }
        let (message, after) = rest.split_at(len);
        let ghost old_messages = messages@;
        messages.push(vstd::slice::slice_to_vec(message));
        proof {
            assert(messages@.map_values(|m: Vec<u8>| m@) =~= old_messages.map_values(
                |m: Vec<u8>| m@,
            ).push(message@));
            match grpc_messages(after@) {
                Ok(ms) => {
                    assert(old_messages.map_values(|m: Vec<u8>| m@).push(message@) + ms
                        =~= old_messages.map_values(|m: Vec<u8>| m@) + (seq![message@] + ms));
                },
                Err(_) => {},
            }
        }
        cursor = after;
    }
    proof {
        assert(messages@.map_values(|m: Vec<u8>| m@) + Seq::<Seq<u8>>::empty() =~= messages@.map_values(
            |m: Vec<u8>| m@,
        ));
    }
    Ok(messages)
}

/// Splitting a framed message followed by more frames gives back that message,
/// then whatever the rest splits into (or the rest's error), for every message
/// shorter than 4 GiB.
pub proof fn lemma_grpc_frame_roundtrip(message: Seq<u8>, rest: Seq<u8>)
    requires
        message.len() <= u32::MAX,
    ensures
        grpc_messages(grpc_frame(message) + rest) == match grpc_messages(rest) {
            Ok(ms) => Ok::<_, StatsError>(seq![message] + ms),
            Err(e) => Err(e),
        },
{
    let n = message.len() as u32;
    let f = grpc_frame(message) + rest;
    assert(be32_value((n >> 24u32) as u8, (n >> 16u32) as u8, (n >> 8u32) as u8, n as u8) == n)
        by (bit_vector);
    assert(f.skip(5) =~= message + rest);
    assert(f[0] == 0 && f[1] == (n >> 24u32) as u8 && f[2] == (n >> 16u32) as u8);
    assert(f[3] == (n >> 8u32) as u8 && f[4] == n as u8);
    assert(n as nat == message.len());
    assert((message + rest).skip(message.len() as int) =~= rest);
    assert((message + rest).take(message.len() as int) =~= message);
}

/// A body with no frames holds no messages, and the frames of two bodies one after
/// the other hold the messages of the first, then those of the second.
pub proof fn lemma_grpc_messages_concat(a: Seq<u8>, b: Seq<u8>)
    requires
        grpc_messages(a) is Ok,
        grpc_messages(b) is Ok,
    ensures
        grpc_messages(Seq::<u8>::empty()) == Ok::<_, StatsError>(Seq::<Seq<u8>>::empty()),
        grpc_messages(a + b) == Ok::<_, StatsError>(
            grpc_messages(a)->Ok_0 + grpc_messages(b)->Ok_0,
        ),
    decreases a.len(),
{
    let mb = grpc_messages(b)->Ok_0;
    if a.len() == 0 {
        assert(a + b =~= b);
        assert(grpc_messages(a)->Ok_0 =~= Seq::<Seq<u8>>::empty());
        assert(Seq::<Seq<u8>>::empty() + mb =~= mb);
    } else {
        let len = be32_value(a[1], a[2], a[3], a[4]) as nat;
        let rest = a.skip(5);
        let after = rest.skip(len as int);
        let message = rest.take(len as int);
        lemma_grpc_messages_concat(after, b);
        let ab = a + b;
        assert(ab[0] == a[0] && ab[1] == a[1] && ab[2] == a[2] && ab[3] == a[3] && ab[4] == a[4]);
        assert(ab.skip(5) =~= rest + b);
        assert((rest + b).take(len as int) =~= message);
        assert((rest + b).skip(len as int) =~= after + b);
        let ma = grpc_messages(after)->Ok_0;
        assert(grpc_messages(a)->Ok_0 == seq![message] + ma);
        assert(seq![message] + (ma + mb) =~= (seq![message] + ma) + mb);
    }
}

} // verus!
