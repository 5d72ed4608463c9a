use vstd::prelude::*;
use crate::error::StatsError;
use vstd::utf8::{decode_utf8, valid_utf8};

verus! {

/// 128 to the power `i`: the weight of the `i`-th seven-bit group of a varint.
pub open spec fn pow128(i: nat) -> nat
    decreases i,
{
    if i == 0 {
        1
    } else {
        128 * pow128((i - 1) as nat)
    }
}

/// The number spelled by the seven-bit groups of `s`, least significant group first.
pub open spec fn group_value(s: Seq<u8>) -> nat
    decreases s.len(),
{
    if s.len() == 0 {
        0
    } else {
        group_value(s.drop_last()) + (s.last() % 128) as nat * pow128((s.len() - 1) as nat)
    }
}

/// Where the varint at the front of `s` ends, scanning from byte `i`: `Ok(n)` when
/// byte `n - 1` is the first one without the continuation bit and `n <= 10`.
pub open spec fn varint_extent(s: Seq<u8>, i: nat) -> Result<nat, StatsError>
    decreases 10 - i,
{
    if i >= 10 {
        Err(StatsError::VarintTooLong)
    } else if i >= s.len() {
        Err(StatsError::TruncatedVarint)
    } else if s[i as int] < 0x80 {
        Ok(i + 1)
    } else {
        varint_extent(s, i + 1)
    }
}

/// Reading a varint from `s`: the value (the groups' number, kept to 64 bits) or the
/// error, and how many bytes the reader takes from `s` either way.
pub open spec fn spec_read_varint(s: Seq<u8>) -> (Result<u64, StatsError>, nat) {
    match varint_extent(s, 0) {
        Ok(n) => (Ok((group_value(s.take(n as int)) % 0x1_0000_0000_0000_0000) as u64), n),
        Err(e) => (Err(e), if e is TruncatedVarint { s.len() } else { 10 }),
    }
}

proof fn lemma_pow128_nine()
    ensures
        pow128(9) == 0x8000_0000_0000_0000,
{
    reveal_with_fuel(pow128, 10);
}

proof fn lemma_group_value_bound(s: Seq<u8>)
    ensures
        group_value(s) < pow128(s.len()),
    decreases s.len(),
{
    if s.len() > 0 {
        let t = s.drop_last();
        lemma_group_value_bound(t);
        let d = (s.last() % 128) as nat;
        let p = pow128(t.len());
        assert(d * p <= 127 * p) by (nonlinear_arith)
            requires
                d <= 127,
        ;
    }
}

proof fn lemma_group_value_step(s: Seq<u8>, i: int)
    requires
        0 <= i < s.len(),
    ensures
        group_value(s.take(i + 1)) == group_value(s.take(i)) + (s[i] % 128) as nat * pow128(
            i as nat,
        ),
{
    assert(s.take(i + 1).drop_last() =~= s.take(i));
}

proof fn lemma_varint_extent_skip(s: Seq<u8>, i: nat)
    requires
        i < 10,
        i < s.len(),
        s[i as int] >= 0x80,
    ensures
        varint_extent(s, i) == varint_extent(s, i + 1),
{
}

proof fn lemma_top_group(low: nat, d: nat)
    requires
        low < 0x8000_0000_0000_0000,
        d < 128,
    ensures
        (low + d * 0x8000_0000_0000_0000) % 0x1_0000_0000_0000_0000 == low + (d % 2)
            * 0x8000_0000_0000_0000,
{
    let q = d / 2;
    let r = d % 2;
    assert(d == 2 * q + r);
    assert(low + d * 0x8000_0000_0000_0000 == (low + r * 0x8000_0000_0000_0000) + q
        * 0x1_0000_0000_0000_0000) by (nonlinear_arith)
        requires
            d == 2 * q + r,
    ;
    vstd::arithmetic::div_mod::lemma_mod_multiples_vanish(
        q as int,
        (low + r * 0x8000_0000_0000_0000) as int,
        0x1_0000_0000_0000_0000,
    );
    vstd::arithmetic::div_mod::lemma_small_mod(
        (low + r * 0x8000_0000_0000_0000) as nat,
        0x1_0000_0000_0000_0000,
    );
}

/// Reads one protobuf varint from the front of `input` and advances `input` past it.
///
/// At most ten bytes are read; bits beyond the 64th are dropped.
pub fn read_varint(input: &mut &[u8]) -> (r: Result<u64, StatsError>)
    ensures
        r == spec_read_varint(old(input)@).0,
        final(input)@ == old(input)@.skip(spec_read_varint(old(input)@).1 as int),
{
    let ghost orig: Seq<u8> = old(input)@;
    let mut value: u64 = 0;
    let mut scale: u64 = 1;
    let mut i: usize = 0;
    while i < 10
        invariant
            0 <= i <= 10,
            orig == old(input)@,
            i <= orig.len(),
            input@ == orig.skip(i as int),
            forall|j: int| 0 <= j < i ==> orig[j] >= 0x80,
            varint_extent(orig, 0) == varint_extent(orig, i as nat),
            i < 10 ==> value == group_value(orig.take(i as int)),
            i < 10 ==> scale == pow128(i as nat),
            i < 10 ==> value < pow128(i as nat),
        decreases 10 - i,
    {
        if input.len() == 0 {
            proof {
                assert(orig.skip(i as int).len() == 0);
                assert(i == orig.len());
                assert(varint_extent(orig, i as nat) == Err::<nat, StatsError>(StatsError::TruncatedVarint));
                assert(spec_read_varint(orig).1 == orig.len());
                assert(input@ =~= orig.skip(orig.len() as int));
            }
            return Err(StatsError::TruncatedVarint);
        }
        let current: &[u8] = *input;
        let byte = current[0];
        let (_, rest) = current.split_at(1);
        *input = rest;
        let digit: u64 = (byte % 128) as u64;
        proof {
            assert(byte == orig[i as int]);
            assert(rest@ =~= orig.skip(i + 1));
            lemma_group_value_step(orig, i as int);
            lemma_group_value_bound(orig.take(i + 1));
            assert(orig.take(i + 1).len() == i + 1);
            reveal_with_fuel(pow128, 2);
        }
        if i < 9 {
            proof {
                lemma_pow128_nine();
                assert(pow128((i + 1) as nat) == 128 * pow128(i as nat));
                assert(pow128(i as nat) <= pow128(8)) by {
                    lemma_pow128_monotone(i as nat, 8);
                }
                reveal_with_fuel(pow128, 9);
                assert(digit * scale <= 127 * pow128(8)) by (nonlinear_arith)
                    requires
                        digit <= 127,
                        scale <= pow128(8),
                ;
            }
            value = value + digit * scale;
            scale = scale * 128;
        } else {
            proof {
                lemma_pow128_nine();
                lemma_top_group(value as nat, digit as nat);
            }
            value = value + (digit % 2) * scale;
        }
        i += 1;
        if byte < 0x80 {
            proof {
                assert(varint_extent(orig, (i - 1) as nat) == Ok::<nat, StatsError>(i as nat));
                assert(rest@ =~= orig.skip(i as int));
                if i < 10 {
                    vstd::arithmetic::div_mod::lemma_small_mod(
                        group_value(orig.take(i as int)),
                        0x1_0000_0000_0000_0000,
                    );
                }
            }
            return Ok(value);
        }
        proof {
            lemma_varint_extent_skip(orig, (i - 1) as nat);
        }
    }
    Err(StatsError::VarintTooLong)
}

proof fn lemma_pow128_monotone(a: nat, b: nat)
    requires
        a <= b,
    ensures
        pow128(a) <= pow128(b),
    decreases b,
{
    if a < b {
        lemma_pow128_monotone(a, (b - 1) as nat);
    }
}

/// The varint encoding of `v`: seven-bit groups, least significant first, every
/// byte but the last carrying the continuation bit.
pub open spec fn varint_bytes(v: nat) -> Seq<u8>
    decreases v,
{
    if v < 128 {
        seq![v as u8]
    } else {
        seq![(v % 128 + 128) as u8] + varint_bytes(v / 128)
    }
}

/// Appends the varint encoding of `value` to `output`.
pub fn encode_varint(value: u64, output: &mut Vec<u8>)
    ensures
        final(output)@ == old(output)@ + varint_bytes(value as nat),
{
    let mut value = value;
    let ghost target: Seq<u8> = old(output)@ + varint_bytes(value as nat);
    while value >= 0x80
        invariant
            target == output@ + varint_bytes(value as nat),
        decreases value,
    {
        let byte: u8 = (value % 128 + 128) as u8;
        proof {
            assert(varint_bytes(value as nat) == seq![byte] + varint_bytes((value / 128) as nat));
            assert(output@.push(byte) + varint_bytes((value / 128) as nat) =~= output@ + (seq![byte]
                + varint_bytes((value / 128) as nat)));
        }
        output.push(byte);
        value = value / 128;
    }
    proof {
        assert(varint_bytes(value as nat) == seq![value as u8]);
        assert(output@.push(value as u8) =~= output@ + seq![value as u8]);
    }
    output.push(value as u8);
}

proof fn lemma_group_value_prepend(b: u8, t: Seq<u8>)
    ensures
        group_value(seq![b] + t) == (b % 128) as nat + 128 * group_value(t),
    decreases t.len(),
{
    let u = seq![b] + t;
    if t.len() == 0 {
        assert(u.drop_last() =~= Seq::<u8>::empty());
        assert(u.last() == b);
        assert(group_value(Seq::<u8>::empty()) == 0);
        assert(group_value(t) == 0);
        assert(pow128(0) == 1);
        assert(u.len() == 1);
        assert(group_value(u) == group_value(u.drop_last()) + (u.last() % 128) as nat * pow128(0));
    } else {
        assert(u.drop_last() =~= seq![b] + t.drop_last());
        lemma_group_value_prepend(b, t.drop_last());
        assert(u.last() == t.last());
        let g = group_value(t.drop_last());
        let d = (t.last() % 128) as nat;
        let p = pow128((t.len() - 1) as nat);
        assert(pow128(t.len() as nat) == 128 * p);
        assert(group_value(t) == g + d * p);
        assert(group_value(u) == group_value(u.drop_last()) + d * pow128(t.len() as nat));
        assert(group_value(u.drop_last()) == (b % 128) as nat + 128 * g);
        assert(128 * g + d * (128 * p) == 128 * (g + d * p)) by (nonlinear_arith);
    }
}

proof fn lemma_varint_bytes_shape(v: nat, k: nat)
    requires
        1 <= k,
        v < pow128(k),
    ensures
        1 <= varint_bytes(v).len() <= k,
        forall|j: int| 0 <= j < varint_bytes(v).len() - 1 ==> varint_bytes(v)[j] >= 0x80,
        varint_bytes(v).last() < 0x80,
        group_value(varint_bytes(v)) == v,
    decreases v,
{
    if v < 128 {
        let e = varint_bytes(v);
        assert(e.drop_last() =~= Seq::<u8>::empty());
        lemma_group_value_prepend(v as u8, Seq::<u8>::empty());
        assert(seq![v as u8] + Seq::<u8>::empty() =~= e);
        assert(group_value(Seq::<u8>::empty()) == 0);
    } else {
        let q = v / 128;
        assert(k >= 2) by {
            if k == 1 {
                reveal_with_fuel(pow128, 2);
            }
        }
        assert(q < pow128((k - 1) as nat)) by {
            assert(pow128(k) == 128 * pow128((k - 1) as nat));
        }
        lemma_varint_bytes_shape(q, (k - 1) as nat);
        let b: u8 = (v % 128 + 128) as u8;
        let t = varint_bytes(q);
        lemma_group_value_prepend(b, t);
        assert(b % 128 == v % 128);
        let e = seq![b] + t;
        assert forall|j: int| 0 <= j < e.len() - 1 implies e[j] >= 0x80 by {
            if j > 0 {
                assert(e[j] == t[j - 1]);
            }
        }
    }
}

proof fn lemma_varint_extent_of_encoding(e: Seq<u8>, rest: Seq<u8>, i: nat)
    requires
        1 <= e.len() <= 10,
        i < e.len(),
        forall|j: int| 0 <= j < e.len() - 1 ==> e[j] >= 0x80,
        e.last() < 0x80,
    ensures
        varint_extent(e + rest, i) == Ok::<nat, StatsError>(e.len()),
    decreases e.len() - i,
{
    let s = e + rest;
    assert(s[i as int] == e[i as int]);
    if i + 1 < e.len() {
        lemma_varint_extent_of_encoding(e, rest, i + 1);
    }
}

proof fn lemma_pow128_ten()
    ensures
        pow128(10) == 0x40_0000_0000_0000_0000,
{
    reveal_with_fuel(pow128, 11);
}

/// Reading back what `encode_varint` wrote gives the value, taking exactly the
/// bytes written, whatever follows them.
pub proof fn lemma_varint_roundtrip(v: u64, rest: Seq<u8>)
    ensures
        spec_read_varint(varint_bytes(v as nat) + rest) == (Ok::<u64, StatsError>(v), varint_bytes(
            v as nat,
        ).len()),
{
    lemma_pow128_ten();
    let e = varint_bytes(v as nat);
    lemma_varint_bytes_shape(v as nat, 10);
    lemma_varint_extent_of_encoding(e, rest, 0);
    assert((e + rest).take(e.len() as int) =~= e);
    vstd::arithmetic::div_mod::lemma_small_mod(v as nat, 0x1_0000_0000_0000_0000);
}

proof fn lemma_varint_extent_range(s: Seq<u8>, i: nat)
    ensures
        varint_extent(s, i) matches Ok(n) ==> i < n <= s.len() && n <= 10,
    decreases 10 - i,
{
    if i < 10 && i < s.len() && s[i as int] >= 0x80 {
        lemma_varint_extent_range(s, i + 1);
    }
}

/// A successful varint read takes at least one byte and no more than there are.
pub proof fn lemma_read_varint_consumes(s: Seq<u8>)
    ensures
        spec_read_varint(s).1 <= s.len() || spec_read_varint(s).0 == Err::<u64, StatsError>(
            StatsError::VarintTooLong,
        ),
        spec_read_varint(s).0 is Ok ==> 1 <= spec_read_varint(s).1 <= s.len(),
{
    lemma_varint_extent_range(s, 0);
    if varint_extent(s, 0) is Err {
        lemma_varint_extent_err_len(s, 0);
    }
}

proof fn lemma_varint_extent_err_len(s: Seq<u8>, i: nat)
    requires
        i <= s.len(),
    ensures
        varint_extent(s, i) == Err::<nat, StatsError>(StatsError::VarintTooLong) ==> s.len() >= 10,
        varint_extent(s, i) matches Err(e) ==> e is TruncatedVarint || e is VarintTooLong,
    decreases 10 - i,
{
    if i < 10 && i < s.len() && s[i as int] >= 0x80 {
        lemma_varint_extent_err_len(s, i + 1);
    }
}

/// Reading a length-delimited field: a varint length, then that many bytes.
pub open spec fn spec_read_length_delimited(s: Seq<u8>) -> (Result<Seq<u8>, StatsError>, nat) {
    let (r, n) = spec_read_varint(s);
    match r {
        Err(e) => (Err(e), n),
        Ok(v) => {
            let len = (v as usize) as nat;
            let rest = s.skip(n as int);
            if rest.len() < len {
                (Err(StatsError::TruncatedField), n)
            } else {
                (Ok(rest.take(len as int)), n + len)
            }
        },
    }
}

/// Reads a varint length and then that many bytes from the front of `input`,
/// advancing `input` past both.
pub fn read_length_delimited<'a>(input: &mut &'a [u8]) -> (r: Result<&'a [u8], StatsError>)
    ensures
        match (r, spec_read_length_delimited(old(input)@).0) {
            (Ok(a), Ok(b)) => a@ == b,
            (Err(a), Err(b)) => a == b,
            _ => false,
        },
        final(input)@ == old(input)@.skip(spec_read_length_delimited(old(input)@).1 as int),
{
    let ghost orig = old(input)@;
    let len = match read_varint(input) {
        Ok(v) => v as usize,
        Err(e) => return Err(e),
    };
    let current: &'a [u8] = *input;
    proof {
        lemma_read_varint_consumes(orig);
    }
    if current.len() < len {
        return Err(StatsError::TruncatedField);
    }
    let (value, rest) = current.split_at(len);
    *input = rest;
    proof {
        assert(rest@ =~= orig.skip(spec_read_length_delimited(orig).1 as int));
    }
    Ok(value)
}

/// Skipping one field value of the given wire type.
pub open spec fn spec_skip_wire_value(wire: u64, s: Seq<u8>) -> (Result<(), StatsError>, nat) {
    if wire == 0 {
        let (r, n) = spec_read_varint(s);
        match r {
            Ok(_) => (Ok(()), n),
            Err(e) => (Err(e), n),
        }
    } else if wire == 1 {
        if s.len() < 8 {
            (Err(StatsError::Truncated64BitField), 0)
        } else {
            (Ok(()), 8)
        }
    } else if wire == 2 {
        let (r, n) = spec_read_length_delimited(s);
        match r {
            Ok(_) => (Ok(()), n),
            Err(e) => (Err(e), n),
        }
    } else if wire == 5 {
        if s.len() < 4 {
            (Err(StatsError::Truncated32BitField), 0)
        } else {
            (Ok(()), 4)
        }
    } else {
        (Err(StatsError::UnsupportedWireType(wire)), 0)
    }
}

/// Skips one field value of wire type `wire` at the front of `input`.
pub fn skip_wire_value(wire: u64, input: &mut &[u8]) -> (r: Result<(), StatsError>)
    ensures
        r == spec_skip_wire_value(wire, old(input)@).0,
        final(input)@ == old(input)@.skip(spec_skip_wire_value(wire, old(input)@).1 as int),
{
    let ghost orig = old(input)@;
    if wire == 0 {
        match read_varint(input) {
            Ok(_) => Ok(()),
            Err(e) => Err(e),
        }
    } else if wire == 1 {
        let current: &[u8] = *input;
        if current.len() < 8 {
            proof {
                assert(current@ =~= orig.skip(0));
            }
            return Err(StatsError::Truncated64BitField);
        }
        let (_, rest) = current.split_at(8);
        *input = rest;
        Ok(())
    } else if wire == 2 {
        match read_length_delimited(input) {
            Ok(_) => Ok(()),
            Err(e) => Err(e),
        }
    } else if wire == 5 {
        let current: &[u8] = *input;
        if current.len() < 4 {
            proof {
                assert(current@ =~= orig.skip(0));
            }
            return Err(StatsError::Truncated32BitField);
        }
        let (_, rest) = current.split_at(4);
        *input = rest;
        Ok(())
    } else {
        proof {
            assert(orig =~= orig.skip(0));
        }
        Err(StatsError::UnsupportedWireType(wire))
    }
}

/// A successful length-delimited read or skip stays within its input.
pub proof fn lemma_field_reads_stay_within(wire: u64, s: Seq<u8>)
    ensures
        spec_read_length_delimited(s).0 is Ok ==> 1 <= spec_read_length_delimited(s).1 <= s.len(),
        spec_skip_wire_value(wire, s).0 is Ok ==> spec_skip_wire_value(wire, s).1 <= s.len(),
{
    lemma_read_varint_consumes(s);
}

/// Where `std::str::from_utf8` reports the first bad sequence of `bytes`:
/// `Utf8Error::valid_up_to` and `Utf8Error::error_len`.
pub uninterp spec fn utf8_error_position(bytes: Seq<u8>) -> (usize, Option<usize>);

/// Decodes `bytes` with `std::str::from_utf8` and copies the text out.
///
/// Trusted: the call succeeds exactly on well-formed UTF-8 (vstd's `valid_utf8`,
/// which follows the same Unicode definition as std: no overlong forms, no
/// surrogates, nothing above U+10FFFF), and the text is `decode_utf8` of the bytes;
/// on failure the error's position is whatever `utf8_error_position` names.
#[verifier::external_body]
fn utf8_to_string(bytes: &[u8]) -> (r: Result<String, (usize, Option<usize>)>)
    ensures
        r is Ok <==> valid_utf8(bytes@),
        r matches Ok(text) ==> text@ == decode_utf8(bytes@),
        r matches Err(position) ==> position == utf8_error_position(bytes@),
{
    match std::str::from_utf8(bytes) {
        Ok(text) => Ok(text.to_string()),
        Err(error) => Err((error.valid_up_to(), error.error_len())),
    }
}

/// The error for a stat name whose bytes are not UTF-8.
pub open spec fn utf8_error(bytes: Seq<u8>) -> StatsError {
    StatsError::InvalidUtf8 {
        valid_up_to: utf8_error_position(bytes).0,
        error_len: utf8_error_position(bytes).1,
    }
}

/// The fields of a `Stat` message, read from the front of `s` given the name and
/// value seen so far. Field 1 (length-delimited) is the name, field 2 (varint) the
/// value; the last occurrence of each wins and other fields are skipped. A stat
/// lacking its name or its value yields `None`.
pub open spec fn stat_fields(s: Seq<u8>, name: Option<Seq<char>>, value: Option<u64>) -> Result<
    Option<(Seq<char>, u64)>,
    StatsError,
>
    decreases s.len(),
{
    if s.len() == 0 {
        match (name, value) {
            (Some(n), Some(v)) => Ok(Some((n, v))),
            _ => Ok(None),
        }
    } else {
        let (key, n) = spec_read_varint(s);
        match key {
            Err(e) => Err(e),
            Ok(key) => {
                proof {
                    lemma_read_varint_consumes(s);
                }
                let rest = s.skip(n as int);
                if key / 8 == 1 && key % 8 == 2 {
                    let (raw, m) = spec_read_length_delimited(rest);
                    match raw {
                        Err(e) => Err(e),
                        Ok(bytes) => {
                            proof {
                                lemma_field_reads_stay_within(2, rest);
                            }
                            if valid_utf8(bytes) {
                                stat_fields(rest.skip(m as int), Some(decode_utf8(bytes)), value)
                            } else {
                                Err(utf8_error(bytes))
                            }
                        },
                    }
                } else if key / 8 == 2 && key % 8 == 0 {
                    let (v, m) = spec_read_varint(rest);
                    match v {
                        Err(e) => Err(e),
                        Ok(v) => {
                            proof {
                                lemma_read_varint_consumes(rest);
                            }
                            stat_fields(rest.skip(m as int), name, Some(v))
                        },
                    }
                } else {
                    let (r, m) = spec_skip_wire_value(key % 8, rest);
                    match r {
                        Err(e) => Err(e),
                        Ok(_) => {
                            proof {
                                lemma_field_reads_stay_within(key % 8, rest);
                            }
                            stat_fields(rest.skip(m as int), name, value)
                        },
                    }
                }
            },
        }
    }
}

/// The plain-value view of a decoded stat.
pub open spec fn stat_view(r: Result<Option<(String, u64)>, StatsError>) -> Result<
    Option<(Seq<char>, u64)>,
    StatsError,
> {
    match r {
        Ok(Some((name, value))) => Ok(Some((name@, value))),
        Ok(None) => Ok(None),
        Err(e) => Err(e),
    }
}

/// The text of an optional string.
pub open spec fn text_option_view(o: Option<String>) -> Option<Seq<char>> {
    match o {
        Some(s) => Some(s@),
        None => None,
    }
}

/// Decodes one `Stat` message (`name = 1`, `value = 2`) of the v2ray stats API.
pub fn decode_stat(input: &[u8]) -> (r: Result<Option<(String, u64)>, StatsError>)
    ensures
        stat_view(r) == stat_fields(input@, None, None),
{
    let ghost orig = input@;
    let mut cursor: &[u8] = input;
    let mut name: Option<String> = None;
    let mut value: Option<u64> = None;
    while cursor.len() > 0
        invariant
            orig == input@,
            stat_fields(orig, None, None) == stat_fields(cursor@, text_option_view(name), value),
        decreases cursor@.len(),
    {
        let ghost before = cursor@;
        proof {
            lemma_read_varint_consumes(before);
        }
        let key = match read_varint(&mut cursor) {
            Ok(k) => k,
            Err(e) => return Err(e),
        };
        let field = key / 8;
        let wire = key % 8;
        if field == 1 && wire == 2 {
            let ghost mid = cursor@;
            let raw = match read_length_delimited(&mut cursor) {
                Ok(raw) => raw,
                Err(e) => return Err(e),
            };
            proof {
                lemma_field_reads_stay_within(2, mid);
            }
            match utf8_to_string(raw) {
                Ok(text) => {
                    name = Some(text);
                },
                Err(position) => {
                    return Err(
                        StatsError::InvalidUtf8 { valid_up_to: position.0, error_len: position.1 },
                    );
                },
            }
        } else if field == 2 && wire == 0 {
            let ghost mid = cursor@;
            match read_varint(&mut cursor) {
                Ok(v) => {
                    value = Some(v);
                },
                Err(e) => return Err(e),
            }
            proof {
                lemma_read_varint_consumes(mid);
            }
        } else {
            let ghost mid = cursor@;
            match skip_wire_value(wire, &mut cursor) {
                Ok(_) => {},
                Err(e) => return Err(e),
            }
            proof {
                lemma_field_reads_stay_within(wire, mid);
            }
        }
    }
    proof {
        assert(cursor@.len() == 0);
    }
    match (name, value) {
        (Some(n), Some(v)) => Ok(Some((n, v))),
        _ => Ok(None),
    }
}

} // verus!
