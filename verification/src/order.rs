use vstd::prelude::*;
use vstd::utf8::{decode_utf8, encode_scalar, encode_utf8, encode_utf8_decode_utf8};

verus! {

/// Lexicographic order on byte strings: a proper prefix comes first, otherwise the
/// first differing byte decides.
pub open spec fn bytes_less(a: Seq<u8>, b: Seq<u8>) -> bool
    decreases a.len(),
{
    if a.len() == 0 {
        b.len() > 0
    } else if b.len() == 0 {
        false
    } else if a[0] != b[0] {
        a[0] < b[0]
    } else {
        bytes_less(a.drop_first(), b.drop_first())
    }
}

/// The order of `str`: lexicographic on the UTF-8 bytes.
pub open spec fn text_less(a: Seq<char>, b: Seq<char>) -> bool {
    bytes_less(encode_utf8(a), encode_utf8(b))
}

/// Whether every character of `s` is ASCII.
pub open spec fn all_ascii(s: Seq<char>) -> bool {
    forall|i: int| 0 <= i < s.len() ==> (#[trigger] s[i] as u32) < 0x80
}

/// Lexicographic order on characters by code point.
pub open spec fn chars_less(a: Seq<char>, b: Seq<char>) -> bool
    decreases a.len(),
{
    if a.len() == 0 {
        b.len() > 0
    } else if b.len() == 0 {
        false
    } else if a[0] != b[0] {
        (a[0] as u32) < (b[0] as u32)
    } else {
        chars_less(a.drop_first(), b.drop_first())
    }
}

proof fn lemma_ascii_byte(c: char)
    requires
        (c as u32) < 0x80,
    ensures
        encode_scalar(c as u32) == seq![(c as u32) as u8],
        ((c as u32) as u8) as u32 == c as u32,
{
    let v = c as u32;
    assert((v & 0x7f) as u8 == v as u8 && (v as u8) as u32 == v) by (bit_vector)
        requires
            v < 0x80,
    ;
}

/// On ASCII texts the order of `str` is the order of their characters.
pub proof fn lemma_ascii_text_less(a: Seq<char>, b: Seq<char>)
    requires
        all_ascii(a),
        all_ascii(b),
    ensures
        text_less(a, b) == chars_less(a, b),
    decreases a.len(),
{
    if a.len() > 0 && b.len() > 0 {
        lemma_ascii_byte(a[0]);
        lemma_ascii_byte(b[0]);
        let ea = encode_utf8(a);
        let eb = encode_utf8(b);
        assert(ea == seq![(a[0] as u32) as u8] + encode_utf8(a.drop_first()));
        assert(eb == seq![(b[0] as u32) as u8] + encode_utf8(b.drop_first()));
        assert(ea.drop_first() =~= encode_utf8(a.drop_first()));
        assert(eb.drop_first() =~= encode_utf8(b.drop_first()));
        assert(all_ascii(a.drop_first()) && all_ascii(b.drop_first())) by {
            assert forall|i: int| 0 <= i < a.drop_first().len() implies (
            #[trigger] a.drop_first()[i] as u32) < 0x80 by {
                assert(a.drop_first()[i] == a[i + 1]);
            }
            assert forall|i: int| 0 <= i < b.drop_first().len() implies (
            #[trigger] b.drop_first()[i] as u32) < 0x80 by {
                assert(b.drop_first()[i] == b[i + 1]);
            }
        }
        lemma_ascii_text_less(a.drop_first(), b.drop_first());
        if a[0] == b[0] {
            assert(ea[0] == eb[0]);
        } else {
            vstd::utf8::char_u32_cast(a[0], a[0] as u32);
            vstd::utf8::char_u32_cast(b[0], b[0] as u32);
            assert((a[0] as u32) != (b[0] as u32));
            assert(ea[0] != eb[0]);
        }
    } else if a.len() > 0 {
        lemma_ascii_byte(a[0]);
        assert(encode_utf8(b).len() == 0);
    } else if b.len() > 0 {
        lemma_ascii_byte(b[0]);
        assert(encode_utf8(a).len() == 0);
        assert(encode_utf8(b).len() > 0);
    }
}

/// The outcome of comparing two texts.
#[derive(Debug, Clone, Copy, PartialEq, Eq, Structural)]
pub enum TextOrder {
    Less,
    Equal,
    Greater,
}

/// No byte string is below itself.
pub proof fn lemma_bytes_less_irreflexive(a: Seq<u8>)
    ensures
        !bytes_less(a, a),
    decreases a.len(),
{
    if a.len() > 0 {
        lemma_bytes_less_irreflexive(a.drop_first());
    }
}

/// Two byte strings are never each below the other.
pub proof fn lemma_bytes_less_asymmetric(a: Seq<u8>, b: Seq<u8>)
    ensures
        !(bytes_less(a, b) && bytes_less(b, a)),
    decreases a.len(),
{
    if a.len() > 0 && b.len() > 0 && a[0] == b[0] {
        lemma_bytes_less_asymmetric(a.drop_first(), b.drop_first());
    }
}

/// The byte-string order is transitive.
pub proof fn lemma_bytes_less_transitive(a: Seq<u8>, b: Seq<u8>, c: Seq<u8>)
    requires
        bytes_less(a, b),
        bytes_less(b, c),
    ensures
        bytes_less(a, c),
    decreases a.len(),
{
    if a.len() > 0 && b.len() > 0 && c.len() > 0 && a[0] == b[0] && b[0] == c[0] {
        lemma_bytes_less_transitive(a.drop_first(), b.drop_first(), c.drop_first());
    }
}

/// Of two different byte strings, one is below the other.
pub proof fn lemma_bytes_less_total(a: Seq<u8>, b: Seq<u8>)
    ensures
        a == b || bytes_less(a, b) || bytes_less(b, a),
    decreases a.len(),
{
    if a.len() > 0 && b.len() > 0 && a[0] == b[0] {
        lemma_bytes_less_total(a.drop_first(), b.drop_first());
        if a.drop_first() == b.drop_first() {
            assert(a =~= seq![a[0]] + a.drop_first());
            assert(b =~= seq![b[0]] + b.drop_first());
        }
    } else if a.len() == 0 && b.len() == 0 {
        assert(a =~= b);
    }
}

/// `text_less` is a strict total order on texts.
pub proof fn lemma_text_order(a: Seq<char>, b: Seq<char>, c: Seq<char>)
    ensures
        !text_less(a, a),
        !(text_less(a, b) && text_less(b, a)),
        text_less(a, b) && text_less(b, c) ==> text_less(a, c),
        a == b || text_less(a, b) || text_less(b, a),
{
    lemma_bytes_less_irreflexive(encode_utf8(a));
    lemma_bytes_less_asymmetric(encode_utf8(a), encode_utf8(b));
    if text_less(a, b) && text_less(b, c) {
        lemma_bytes_less_transitive(encode_utf8(a), encode_utf8(b), encode_utf8(c));
    }
    lemma_bytes_less_total(encode_utf8(a), encode_utf8(b));
    encode_utf8_decode_utf8(a);
    encode_utf8_decode_utf8(b);
}

/// Compares two byte strings in lexicographic order.
pub fn compare_bytes(a: &[u8], b: &[u8]) -> (r: TextOrder)
    ensures
        (r == TextOrder::Less) == bytes_less(a@, b@),
        (r == TextOrder::Equal) == (a@ == b@),
        (r == TextOrder::Greater) == bytes_less(b@, a@),
{
    proof {
        lemma_bytes_less_asymmetric(a@, b@);
        lemma_bytes_less_irreflexive(a@);
        lemma_bytes_less_total(a@, b@);
        assert(a@.skip(0) =~= a@);
        assert(b@.skip(0) =~= b@);
    }
    let mut i: usize = 0;
    while i < a.len() && i < b.len()
        invariant
            i <= a@.len(),
            i <= b@.len(),
            a@.take(i as int) == b@.take(i as int),
            bytes_less(a@, b@) == bytes_less(a@.skip(i as int), b@.skip(i as int)),
            bytes_less(b@, a@) == bytes_less(b@.skip(i as int), a@.skip(i as int)),
        decreases a@.len() - i,
    {
        let x = a[i];
        let y = b[i];
        if x != y {
            proof {
                assert(a@.skip(i as int)[0] == x);
                assert(b@.skip(i as int)[0] == y);
                if a@ == b@ {
                    assert(a@[i as int] == b@[i as int]);
                }
            }
            if x < y {
                return TextOrder::Less;
            } else {
                return TextOrder::Greater;
            }
        }
        proof {
            assert(a@.skip(i as int).drop_first() =~= a@.skip(i + 1));
            assert(b@.skip(i as int).drop_first() =~= b@.skip(i + 1));
            assert(a@.take(i + 1) =~= a@.take(i as int).push(x));
            assert(b@.take(i + 1) =~= b@.take(i as int).push(y));
        }
        i += 1;
    }
    proof {
        assert(a@.skip(i as int).len() == 0 || b@.skip(i as int).len() == 0);
    }
    if a.len() == b.len() {
        proof {
            assert(a@ =~= a@.take(i as int));
            assert(b@ =~= b@.take(i as int));
        }
        TextOrder::Equal
    } else if a.len() < b.len() {
        proof {
            assert(a@.len() != b@.len());
        }
        TextOrder::Less
    } else {
        TextOrder::Greater
    }
}

/// Compares two texts the way `str` orders them.
pub fn compare_text(a: &str, b: &str) -> (r: TextOrder)
    ensures
        (r == TextOrder::Less) == text_less(a@, b@),
        (r == TextOrder::Equal) == (a@ == b@),
        (r == TextOrder::Greater) == text_less(b@, a@),
{
    proof {
        encode_utf8_decode_utf8(a@);
        encode_utf8_decode_utf8(b@);
    }
    compare_bytes(a.as_bytes(), b.as_bytes())
}

/// Whether two texts are the same.
pub fn text_eq(a: &str, b: &str) -> (r: bool)
    ensures
        r == (a@ == b@),
{
    match compare_text(a, b) {
        TextOrder::Equal => true,
        _ => false,
    }
}

} // verus!
