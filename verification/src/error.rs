use vstd::prelude::*;
use crate::text::{text_chars, text_from_chars};

verus! {

/// What went wrong while framing or decoding a stats API reply, or while
/// building the address of that API.
///
/// Every variant holds plain values, so contracts can name the exact error.
#[derive(Debug, Clone, Copy, PartialEq, Eq, Structural)]
pub enum StatsError {
    /// A varint ran past the end of its input.
    TruncatedVarint,
    /// Ten bytes in a row carried the continuation bit.
    VarintTooLong,
    /// A length-delimited field is longer than what is left of its input.
    TruncatedField,
    /// A fixed 64-bit field is cut short.
    Truncated64BitField,
    /// A fixed 32-bit field is cut short.
    Truncated32BitField,
    /// A field uses a wire type this decoder does not know.
    UnsupportedWireType(u64),
    /// A stat name is not UTF-8: the length of the valid prefix and, when the
    /// bad sequence is complete, how many bytes it spans.
    InvalidUtf8 { valid_up_to: usize, error_len: Option<usize> },
    /// Fewer than five bytes remain where a gRPC frame header should start.
    TruncatedFrame,
    /// A gRPC frame is flagged as compressed.
    CompressedFrame,
    /// A gRPC frame announces more bytes than remain.
    TruncatedMessage,
    /// The listen address of the stats API is blank.
    EmptyListenAddress,
}

impl StatsError {
    /// Errors of malformed input are validation errors; the others report
    /// something this code does not support.
    pub open spec fn spec_is_validation(self) -> bool {
        !(self is UnsupportedWireType || self is CompressedFrame)
    }

    /// Whether the error is a validation error (as opposed to an unsupported feature).
    pub fn is_validation(&self) -> (b: bool)
        ensures
            b == self.spec_is_validation(),
    {
        match self {
            StatsError::UnsupportedWireType(_) => false,
            StatsError::CompressedFrame => false,
            _ => true,
        }
    }
}

/// The decimal digits of `v`, most significant first.
pub open spec fn decimal_text(v: nat) -> Seq<char>
    decreases v,
{
    if v < 10 {
        seq![('0' as u32 + v) as char]
    } else {
        decimal_text(v / 10).push(('0' as u32 + v % 10) as char)
    }
}

/// Writes `v` in decimal.
pub fn decimal_chars(v: u64) -> (r: Vec<char>)
    ensures
        r@ == decimal_text(v as nat),
    decreases v,
{
    let digit = char_of_digit((v % 10) as u32);
    if v < 10 {
        vec![digit]
    } else {
        let mut r = decimal_chars(v / 10);
        r.push(digit);
        r
    }
}

fn char_of_digit(d: u32) -> (c: char)
    requires
        d < 10,
    ensures
        c == ('0' as u32 + d) as char,
{
    if d == 0 {
        '0'
    } else if d == 1 {
        '1'
    } else if d == 2 {
        '2'
    } else if d == 3 {
        '3'
    } else if d == 4 {
        '4'
    } else if d == 5 {
        '5'
    } else if d == 6 {
        '6'
    } else if d == 7 {
        '7'
    } else if d == 8 {
        '8'
    } else {
        '9'
    }
}

/// The message reported for an error.
pub open spec fn error_text(e: StatsError) -> Seq<char> {
    match e {
        StatsError::TruncatedVarint => "truncated protobuf varint"@,
        StatsError::VarintTooLong => "protobuf varint is too long"@,
        StatsError::TruncatedField => "truncated protobuf field"@,
        StatsError::Truncated64BitField => "truncated 64-bit protobuf field"@,
        StatsError::Truncated32BitField => "truncated 32-bit protobuf field"@,
        StatsError::UnsupportedWireType(wire) => "unsupported protobuf wire type "@ + decimal_text(
            wire as nat,
        ),
        StatsError::InvalidUtf8 { valid_up_to, error_len } => match error_len {
            Some(n) => "invalid utf-8 sequence of "@ + decimal_text(n as nat) + " bytes from index "@
                + decimal_text(valid_up_to as nat),
            None => "incomplete utf-8 byte sequence from index "@ + decimal_text(valid_up_to as nat),
        },
        StatsError::TruncatedFrame => "truncated gRPC stats frame"@,
        StatsError::CompressedFrame => "compressed gRPC stats frames are not supported"@,
        StatsError::TruncatedMessage => "truncated gRPC stats message"@,
        StatsError::EmptyListenAddress => "stats API listen address is empty"@,
    }
}

impl StatsError {
    /// The message that describes the error.
    pub fn message(&self) -> (r: String)
        ensures
            r@ == error_text(*self),
    {
        match self {
            StatsError::TruncatedVarint => "truncated protobuf varint".to_string(),
            StatsError::VarintTooLong => "protobuf varint is too long".to_string(),
            StatsError::TruncatedField => "truncated protobuf field".to_string(),
            StatsError::Truncated64BitField => "truncated 64-bit protobuf field".to_string(),
            StatsError::Truncated32BitField => "truncated 32-bit protobuf field".to_string(),
            StatsError::UnsupportedWireType(wire) => {
                let mut text = text_chars("unsupported protobuf wire type ");
                text.extend_from_slice(decimal_chars(*wire).as_slice());
                text_from_chars(text.as_slice())
            },
            StatsError::InvalidUtf8 { valid_up_to, error_len } => {
                let mut text = match error_len {
                    Some(n) => {
                        let mut t = text_chars("invalid utf-8 sequence of ");
                        t.extend_from_slice(decimal_chars(*n as u64).as_slice());
                        t.extend_from_slice(text_chars(" bytes from index ").as_slice());
                        t
                    },
                    None => text_chars("incomplete utf-8 byte sequence from index "),
                };
                text.extend_from_slice(decimal_chars(*valid_up_to as u64).as_slice());
                proof {
                    assert(text@ =~= error_text(*self));
                }
                text_from_chars(text.as_slice())
            },
            StatsError::TruncatedFrame => "truncated gRPC stats frame".to_string(),
            StatsError::CompressedFrame => "compressed gRPC stats frames are not supported".to_string(),
            StatsError::TruncatedMessage => "truncated gRPC stats message".to_string(),
            StatsError::EmptyListenAddress => "stats API listen address is empty".to_string(),
        }
    }
}

} // verus!
