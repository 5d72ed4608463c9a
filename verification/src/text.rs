use vstd::prelude::*;

verus! {

/// The characters of `s`, in order.
pub fn text_chars(s: &str) -> (v: Vec<char>)
    ensures
        v@ == s@,
{
    let mut v: Vec<char> = Vec::new();
    for c in it: s.chars()
        invariant
            it.seq() == s@,
            v@ == it.seq().take(it.index() as int),
    {
        proof {
            assert(it.seq().take(it.index() + 1) =~= v@.push(c));
        }
        v.push(c);
    }
    proof {
        assert(v@ =~= s@);
    }
    v
}

/// The text spelled by `chars`, built with `String`'s `FromIterator<&char>`.
///
/// Trusted: collecting characters into a `String` keeps them, in order.
#[verifier::external_body]
pub(crate) fn text_from_chars(chars: &[char]) -> (s: String)
    ensures
        s@ == chars@,
{
    chars.iter().collect()
}

/// Unicode's White_Space property, which `char::is_whitespace` tests.
pub open spec fn is_white_space(c: char) -> bool {
    let u = c as u32;
    ||| 0x09 <= u <= 0x0d
    ||| u == 0x20
    ||| u == 0x85
    ||| u == 0xa0
    ||| u == 0x1680
    ||| 0x2000 <= u <= 0x200a
    ||| u == 0x2028
    ||| u == 0x2029
    ||| u == 0x202f
    ||| u == 0x205f
    ||| u == 0x3000
}

/// Whether `c` is white space.
pub fn is_whitespace(c: char) -> (b: bool)
    ensures
        b == is_white_space(c),
{
    let u = c as u32;
    (0x09 <= u && u <= 0x0d) || u == 0x20 || u == 0x85 || u == 0xa0 || u == 0x1680 || (0x2000 <= u
        && u <= 0x200a) || u == 0x2028 || u == 0x2029 || u == 0x202f || u == 0x205f || u == 0x3000
}

/// `s` without its leading white space.
pub open spec fn trim_start(s: Seq<char>) -> Seq<char>
    decreases s.len(),
{
    if s.len() > 0 && is_white_space(s[0]) {
        trim_start(s.drop_first())
    } else {
        s
    }
}

/// `s` without its trailing white space.
pub open spec fn trim_end(s: Seq<char>) -> Seq<char>
    decreases s.len(),
{
    if s.len() > 0 && is_white_space(s.last()) {
        trim_end(s.drop_last())
    } else {
        s
    }
}

/// `s` without leading and trailing white space, as `str::trim` leaves it.
pub open spec fn trim(s: Seq<char>) -> Seq<char> {
    trim_end(trim_start(s))
}

proof fn lemma_trim_start_skip(s: Seq<char>, i: int)
    requires
        0 <= i <= s.len(),
        forall|j: int| 0 <= j < i ==> is_white_space(#[trigger] s[j]),
    ensures
        trim_start(s) == trim_start(s.skip(i)),
    decreases i,
{
    if i > 0 {
        assert(s.drop_first().skip(i - 1) =~= s.skip(i));
        lemma_trim_start_skip(s.drop_first(), i - 1);
    } else {
        assert(s.skip(0) =~= s);
    }
}

proof fn lemma_trim_end_take(s: Seq<char>, i: int)
    requires
        0 <= i <= s.len(),
        forall|j: int| i <= j < s.len() ==> is_white_space(#[trigger] s[j]),
    ensures
        trim_end(s) == trim_end(s.take(i)),
    decreases s.len() - i,
{
    if i < s.len() {
        assert(s.drop_last().take(i) =~= s.take(i));
        lemma_trim_end_take(s.drop_last(), i);
    } else {
        assert(s.take(i) =~= s);
    }
}

/// The bounds of `s` without leading and trailing white space.
pub fn trim_bounds(s: &[char]) -> (r: (usize, usize))
    ensures
        r.0 <= r.1 <= s@.len(),
        s@.subrange(r.0 as int, r.1 as int) == trim(s@),
{
    let mut a: usize = 0;
    while a < s.len() && is_whitespace(s[a])
        invariant
            a <= s@.len(),
            forall|j: int| 0 <= j < a ==> is_white_space(#[trigger] s@[j]),
        decreases s@.len() - a,
    {
        a += 1;
    }
    proof {
        lemma_trim_start_skip(s@, a as int);
        assert(trim_start(s@.skip(a as int)) == s@.skip(a as int));
    }
    let mut b: usize = s.len();
    while b > a && is_whitespace(s[b - 1])
        invariant
            a <= b <= s@.len(),
            forall|j: int| b <= j < s@.len() ==> is_white_space(#[trigger] s@[j]),
        decreases b,
    {
        b -= 1;
    }
    proof {
        let t = s@.skip(a as int);
        assert forall|j: int| b - a <= j < t.len() implies is_white_space(#[trigger] t[j]) by {
            assert(t[j] == s@[j + a]);
        }
        lemma_trim_end_take(t, b - a);
        assert(t.take(b - a) =~= s@.subrange(a as int, b as int));
        let u = t.take(b - a);
        if u.len() > 0 {
            assert(u.last() == s@[b - 1]);
        }
    }
    (a, b)
}

/// `s` without leading and trailing white space.
pub fn trim_text(s: &str) -> (r: String)
    ensures
        r@ == trim(s@),
{
    let chars = text_chars(s);
    let (a, b) = trim_bounds(chars.as_slice());
    text_from_chars(&chars.as_slice()[a..b])
}

/// Whether `s` is empty or white space only.
pub fn is_blank(s: &str) -> (b: bool)
    ensures
        b == (trim(s@).len() == 0),
{
    let chars = text_chars(s);
    let (a, b) = trim_bounds(chars.as_slice());
    a == b
}

/// Whether `sep` occurs in `s` at position `i`.
pub open spec fn occurs_at(s: Seq<char>, sep: Seq<char>, i: int) -> bool {
    0 <= i && i + sep.len() <= s.len() && s.subrange(i, i + sep.len()) == sep
}

/// The first position at or after `i` where `sep` occurs in `s`.
pub open spec fn first_occurrence(s: Seq<char>, sep: Seq<char>, i: int) -> Option<int>
    decreases s.len() + 1 - i,
{
    if i < 0 || i + sep.len() > s.len() {
        None
    } else if occurs_at(s, sep, i) {
        Some(i)
    } else {
        first_occurrence(s, sep, i + 1)
    }
}

/// An occurrence found from position `i` starts at or after `i` and fits in `s`.
pub proof fn lemma_first_occurrence_bounds(s: Seq<char>, sep: Seq<char>, i: int)
    ensures
        first_occurrence(s, sep, i) matches Some(j) ==> i <= j && j + sep.len() <= s.len()
            && occurs_at(s, sep, j),
    decreases s.len() + 1 - i,
{
    if !(i < 0 || i + sep.len() > s.len()) && !occurs_at(s, sep, i) {
        lemma_first_occurrence_bounds(s, sep, i + 1);
    }
}

/// The pieces of `s` between the occurrences of `sep`, found left to right without
/// overlap, as `str::split` with a non-empty pattern yields them.
pub open spec fn split_on(s: Seq<char>, sep: Seq<char>) -> Seq<Seq<char>>
    decreases s.len(),
{
    if sep.len() == 0 {
        seq![s]
    } else {
        match first_occurrence(s, sep, 0) {
            None => seq![s],
            Some(i) => {
                proof {
                    lemma_first_occurrence_bounds(s, sep, 0);
                }
                seq![s.take(i)] + split_on(s.skip(i + sep.len()), sep)
            },
        }
    }
}

fn occurs_at_exec(s: &[char], sep: &[char], i: usize) -> (b: bool)
    ensures
        b == occurs_at(s@, sep@, i as int),
{
    if i > s.len() || sep.len() > s.len() - i {
        return false;
    }
    let mut j: usize = 0;
    while j < sep.len()
        invariant
            i <= s@.len(),
            i + sep@.len() <= s@.len(),
            s@.len() == s.len(),
            j <= sep@.len(),
            forall|k: int| 0 <= k < j ==> s@[i + k] == sep@[k],
        decreases sep@.len() - j,
    {
        if s[i + j] != sep[j] {
            proof {
                assert(s@.subrange(i as int, i + sep@.len())[j as int] != sep@[j as int]);
            }
            return false;
        }
        j += 1;
    }
    proof {
        assert(s@.subrange(i as int, i + sep@.len()) =~= sep@);
    }
    true
}

proof fn lemma_occurs_at_skip(s: Seq<char>, sep: Seq<char>, k: int, j: int)
    requires
        0 <= k <= s.len(),
        0 <= j,
    ensures
        occurs_at(s.skip(k), sep, j) == occurs_at(s, sep, k + j),
{
    if occurs_at(s, sep, k + j) {
        assert(s.skip(k).subrange(j, j + sep.len()) =~= s.subrange(k + j, k + j + sep.len()));
    }
    if occurs_at(s.skip(k), sep, j) {
        assert(s.skip(k).subrange(j, j + sep.len()) =~= s.subrange(k + j, k + j + sep.len()));
    }
}

proof fn lemma_first_occurrence_step(s: Seq<char>, sep: Seq<char>, i: int)
    requires
        0 <= i,
        i + sep.len() <= s.len(),
        !occurs_at(s, sep, i),
    ensures
        first_occurrence(s, sep, i) == first_occurrence(s, sep, i + 1),
{
}

/// `s` cut at every occurrence of the non-empty `sep`.
pub fn split_text(s: &[char], sep: &[char]) -> (r: Vec<Vec<char>>)
    requires
        sep@.len() > 0,
    ensures
        r@.map_values(|p: Vec<char>| p@) == split_on(s@, sep@),
{
    let mut parts: Vec<Vec<char>> = Vec::new();
    let mut start: usize = 0;
    let mut i: usize = 0;
    let n = sep.len();
    proof {
        assert(s@.skip(0) =~= s@);
        assert(parts@.map_values(|p: Vec<char>| p@) + split_on(s@, sep@) =~= split_on(s@, sep@));
    }
    while i < s.len() && n <= s.len() - i
        invariant
            n == sep@.len(),
            n > 0,
            start <= i <= s@.len(),
            split_on(s@, sep@) == parts@.map_values(|p: Vec<char>| p@) + split_on(
                s@.skip(start as int),
                sep@,
            ),
            first_occurrence(s@.skip(start as int), sep@, 0) == first_occurrence(
                s@.skip(start as int),
                sep@,
                i - start,
            ),
        decreases s@.len() - i,
    {
        let hit = occurs_at_exec(s, sep, i);
        proof {
            lemma_occurs_at_skip(s@, sep@, start as int, i - start);
        }
        if hit {
            let ghost old_parts = parts@;
            let ghost t = s@.skip(start as int);
            proof {
                assert(first_occurrence(t, sep@, i - start) == Some(i - start));
                assert(t.take(i - start) =~= s@.subrange(start as int, i as int));
                assert(t.skip(i - start + n) =~= s@.skip(i + n));
            }
            parts.push(vstd::slice::slice_to_vec(&s[start..i]));
            proof {
                assert(parts@.map_values(|p: Vec<char>| p@) =~= old_parts.map_values(
                    |p: Vec<char>| p@,
                ).push(t.take(i - start)));
                assert(old_parts.map_values(|p: Vec<char>| p@) + split_on(t, sep@) =~= parts@.map_values(
                    |p: Vec<char>| p@,
                ) + split_on(s@.skip(i + n), sep@));
                assert(s@.skip(i + n).skip(0) =~= s@.skip(i + n));
            }
            i = i + n;
            start = i;
        } else {
            proof {
                lemma_first_occurrence_step(s@.skip(start as int), sep@, i - start);
            }
            i += 1;
        }
    }
    let ghost t = s@.skip(start as int);
    proof {
        assert(first_occurrence(t, sep@, i - start) == None::<int>);
        assert(t =~= s@.subrange(start as int, s@.len() as int));
    }
    let ghost old_parts = parts@;
    parts.push(vstd::slice::slice_to_vec(&s[start..s.len()]));
    proof {
        assert(parts@.map_values(|p: Vec<char>| p@) =~= old_parts.map_values(|p: Vec<char>| p@) + seq![t]);
    }
    parts
}

/// A line without the carriage return of a `\r\n` ending.
pub open spec fn strip_carriage_return(t: Seq<char>) -> Seq<char> {
    if t.len() > 0 && t.last() == '\r' {
        t.drop_last()
    } else {
        t
    }
}

/// The lines of `s`, as `str::lines` yields them: pieces ended by `\n` (or `\r\n`),
/// with no empty piece after a final line ending.
pub open spec fn lines(s: Seq<char>) -> Seq<Seq<char>> {
    let pieces = split_on(s, seq!['\n']);
    let ended = pieces.drop_last().map_values(|t: Seq<char>| strip_carriage_return(t));
    if pieces.last().len() == 0 {
        ended
    } else {
        ended.push(pieces.last())
    }
}

/// Splitting always yields at least one piece.
pub proof fn lemma_split_on_nonempty(s: Seq<char>, sep: Seq<char>)
    ensures
        split_on(s, sep).len() > 0,
    decreases s.len(),
{
    if sep.len() > 0 {
        lemma_first_occurrence_bounds(s, sep, 0);
        if let Some(i) = first_occurrence(s, sep, 0) {
            lemma_split_on_nonempty(s.skip(i + sep.len()), sep);
        }
    }
}

/// The lines of `s`.
pub fn text_lines(s: &[char]) -> (r: Vec<Vec<char>>)
    ensures
        r@.map_values(|p: Vec<char>| p@) == lines(s@),
{
    let newline: Vec<char> = vec!['\n'];
    let pieces = split_text(s, newline.as_slice());
    let ghost ps = pieces@.map_values(|p: Vec<char>| p@);
    proof {
        assert(newline@ =~= seq!['\n']);
        lemma_split_on_nonempty(s@, seq!['\n']);
    }
    let count = pieces.len();
    let mut out: Vec<Vec<char>> = Vec::new();
    let mut i: usize = 0;
    while i + 1 < count
        invariant
            ps == pieces@.map_values(|p: Vec<char>| p@),
            ps == split_on(s@, seq!['\n']),
            count == ps.len(),
            count > 0,
            i + 1 <= count,
            out@.map_values(|p: Vec<char>| p@) == ps.take(i as int).map_values(
                |t: Seq<char>| strip_carriage_return(t),
            ),
        decreases count - i,
    {
        let piece = &pieces[i];
        let len = piece.len();
        let ghost old_out = out@;
        if len > 0 && piece[len - 1] == '\r' {
            out.push(vstd::slice::slice_to_vec(&piece.as_slice()[0..len - 1]));
            proof {
                assert(piece@.subrange(0, len - 1) =~= piece@.drop_last());
                assert(piece@.last() == '\r');
            }
        } else {
            out.push(vstd::slice::slice_to_vec(piece.as_slice()));
        }
        proof {
            assert(piece@ == ps[i as int]);
            assert(out@.last()@ == strip_carriage_return(ps[i as int]));
            assert(out@.map_values(|p: Vec<char>| p@) =~= old_out.map_values(|p: Vec<char>| p@).push(
                strip_carriage_return(ps[i as int]),
            ));
            assert(ps.take(i + 1) =~= ps.take(i as int).push(ps[i as int]));
            assert(out@.map_values(|p: Vec<char>| p@) =~= ps.take(i + 1).map_values(
                |t: Seq<char>| strip_carriage_return(t),
            ));
        }
        i += 1;
    }
    proof {
        assert(ps.take(i as int) =~= ps.drop_last());
    }
    let last = &pieces[count - 1];
    if last.len() > 0 {
        let ghost old_out = out@;
        out.push(vstd::slice::slice_to_vec(last.as_slice()));
        proof {
            assert(out@.map_values(|p: Vec<char>| p@) =~= old_out.map_values(|p: Vec<char>| p@).push(
                ps.last(),
            ));
        }
    }
    out
}

/// How many characters of `s` come before its first white space.
pub open spec fn word_len(s: Seq<char>) -> nat
    decreases s.len(),
{
    if s.len() > 0 && !is_white_space(s[0]) {
        1 + word_len(s.drop_first())
    } else {
        0
    }
}

/// The leading word is a run of non-white-space characters ended by white space
/// or by the end of `s`.
pub proof fn lemma_word_len(s: Seq<char>)
    ensures
        word_len(s) <= s.len(),
        forall|j: int| 0 <= j < word_len(s) ==> !is_white_space(#[trigger] s[j]),
        word_len(s) < s.len() ==> is_white_space(s[word_len(s) as int]),
    decreases s.len(),
{
    if s.len() > 0 && !is_white_space(s[0]) {
        lemma_word_len(s.drop_first());
        assert forall|j: int| 0 <= j < word_len(s) implies !is_white_space(#[trigger] s[j]) by {
            if j > 0 {
                assert(s[j] == s.drop_first()[j - 1]);
            }
        }
    }
}

/// The maximal runs of non-white-space characters of `s`, as `str::split_whitespace`
/// yields them.
pub open spec fn words(s: Seq<char>) -> Seq<Seq<char>>
    decreases s.len(),
{
    if s.len() == 0 {
        Seq::empty()
    } else if is_white_space(s[0]) {
        words(s.drop_first())
    } else {
        proof {
            lemma_word_len(s);
        }
        seq![s.take(word_len(s) as int)] + words(s.skip(word_len(s) as int))
    }
}

proof fn lemma_word_len_from(s: Seq<char>, i: int, j: int)
    requires
        0 <= i <= j <= s.len(),
        forall|k: int| i <= k < j ==> !is_white_space(#[trigger] s[k]),
        j == s.len() || is_white_space(s[j]),
    ensures
        word_len(s.skip(i)) == j - i,
    decreases j - i,
{
    if i < j {
        assert(s.skip(i).drop_first() =~= s.skip(i + 1));
        lemma_word_len_from(s, i + 1, j);
    } else {
        if j < s.len() {
            assert(s.skip(i)[0] == s[j]);
        }
    }
}

/// The words of `s`.
pub fn text_words(s: &[char]) -> (r: Vec<Vec<char>>)
    ensures
        r@.map_values(|p: Vec<char>| p@) == words(s@),
{
    let mut out: Vec<Vec<char>> = Vec::new();
    let mut i: usize = 0;
    proof {
        assert(s@.skip(0) =~= s@);
        assert(out@.map_values(|p: Vec<char>| p@) + words(s@) =~= words(s@));
    }
    while i < s.len()
        invariant
            i <= s@.len(),
            words(s@) == out@.map_values(|p: Vec<char>| p@) + words(s@.skip(i as int)),
        decreases s@.len() - i,
    {
        if is_whitespace(s[i]) {
            proof {
                assert(s@.skip(i as int).drop_first() =~= s@.skip(i + 1));
            }
            i += 1;
        } else {
            let mut j: usize = i + 1;
            while j < s.len() && !is_whitespace(s[j])
                invariant
                    i < j <= s@.len(),
                    forall|k: int| i <= k < j ==> !is_white_space(#[trigger] s@[k]),
                decreases s@.len() - j,
            {
                j += 1;
            }
            proof {
                lemma_word_len_from(s@, i as int, j as int);
                let t = s@.skip(i as int);
                assert(t.take(j - i) =~= s@.subrange(i as int, j as int));
                assert(t.skip(j - i) =~= s@.skip(j as int));
            }
            let ghost old_out = out@;
            out.push(vstd::slice::slice_to_vec(&s[i..j]));
            proof {
                assert(out@.map_values(|p: Vec<char>| p@) =~= old_out.map_values(|p: Vec<char>| p@).push(
                    s@.subrange(i as int, j as int),
                ));
                assert(old_out.map_values(|p: Vec<char>| p@) + (seq![s@.subrange(i as int, j as int)]
                    + words(s@.skip(j as int))) =~= out@.map_values(|p: Vec<char>| p@) + words(
                    s@.skip(j as int),
                ));
            }
            i = j;
        }
    }
    proof {
        assert(s@.skip(i as int) =~= Seq::<char>::empty());
        assert(out@.map_values(|p: Vec<char>| p@) + Seq::<Seq<char>>::empty() =~= out@.map_values(
            |p: Vec<char>| p@,
        ));
    }
    out
}

/// Whether `c` is one of the ASCII digits `0` to `9`.
pub open spec fn is_digit(c: char) -> bool {
    '0' <= c <= '9'
}

/// The number written by the decimal digits `d`.
pub open spec fn decimal_value(d: Seq<char>) -> nat
    decreases d.len(),
{
    if d.len() == 0 {
        0
    } else {
        decimal_value(d.drop_last()) * 10 + ((d.last() as u32) - ('0' as u32)) as nat
    }
}

/// Whether every character of `d` is a digit.
pub open spec fn all_digits(d: Seq<char>) -> bool {
    forall|i: int| 0 <= i < d.len() ==> is_digit(#[trigger] d[i])
}

/// `s` without the `+` sign that may lead a number.
pub open spec fn number_digits(s: Seq<char>) -> Seq<char> {
    if s.len() > 1 && s[0] == '+' {
        s.drop_first()
    } else {
        s
    }
}

/// What `str::parse::<u64>` accepts: an optional `+`, then one or more ASCII digits
/// whose value fits in 64 bits.
pub open spec fn parsed_u64(s: Seq<char>) -> Option<u64> {
    let d = number_digits(s);
    if d.len() > 0 && all_digits(d) && decimal_value(d) <= u64::MAX {
        Some(decimal_value(d) as u64)
    } else {
        None
    }
}

proof fn lemma_decimal_value_monotone(d: Seq<char>, i: int)
    requires
        0 <= i <= d.len(),
        forall|k: int| 0 <= k < d.len() ==> is_digit(#[trigger] d[k]),
    ensures
        decimal_value(d.take(i)) <= decimal_value(d),
    decreases d.len() - i,
{
    if i < d.len() {
        lemma_decimal_value_monotone(d, i + 1);
        assert(d.take(i + 1).drop_last() =~= d.take(i));
        assert(d.take(i + 1).last() == d[i]);
        assert(is_digit(d[i]));
    } else {
        assert(d.take(i) =~= d);
    }
}

/// Parses a decimal `u64` the way `str::parse::<u64>` does, giving `None` where it fails.
pub fn parse_u64(s: &[char]) -> (r: Option<u64>)
    ensures
        r == parsed_u64(s@),
{
    let start: usize = if s.len() > 1 && s[0] == '+' {
        1
    } else {
        0
    };
    let ghost d = number_digits(s@);
    proof {
        assert(d =~= s@.skip(start as int));
    }
    if start >= s.len() {
        return None;
    }
    let mut value: u64 = 0;
    let mut i: usize = start;
    while i < s.len()
        invariant
            start <= i <= s@.len(),
            d == s@.skip(start as int),
            d == number_digits(s@),
            forall|k: int| 0 <= k < i - start ==> is_digit(#[trigger] d[k]),
            value == decimal_value(d.take(i - start)),
        decreases s@.len() - i,
    {
        let c = s[i];
        proof {
            assert(d[i - start] == c);
            assert(d.take(i - start + 1).drop_last() =~= d.take(i - start));
            assert(d.take(i - start + 1).last() == c);
        }
        if !('0' <= c && c <= '9') {
            proof {
                assert(!is_digit(d[i - start]));
            }
            return None;
        }
        let digit: u64 = ((c as u32) - ('0' as u32)) as u64;
        if value > (u64::MAX - digit) / 10 {
            proof {
                assert(value * 10 + digit > u64::MAX) by (nonlinear_arith)
                    requires
                        value > (u64::MAX - digit) / 10,
                        digit <= 9,
                ;
                let j = (i - start + 1) as int;
                if all_digits(d) {
                    lemma_decimal_value_monotone(d, j);
                }
            }
            return None;
        }
        proof {
            assert(value * 10 + digit <= u64::MAX) by (nonlinear_arith)
                requires
                    value <= (u64::MAX - digit) / 10,
                    digit <= 9,
            ;
        }
        value = value * 10 + digit;
        i += 1;
    }
    proof {
        assert(d.take(i - start) =~= d);
    }
    Some(value)
}

/// Whether `s` begins with `prefix`.
pub open spec fn has_prefix(s: Seq<char>, prefix: Seq<char>) -> bool {
    prefix.len() <= s.len() && s.take(prefix.len() as int) == prefix
}

/// Whether `s` begins with `prefix`.
pub fn starts_with(s: &[char], prefix: &[char]) -> (b: bool)
    ensures
        b == has_prefix(s@, prefix@),
{
    if prefix.len() > s.len() {
        return false;
    }
    let mut i: usize = 0;
    while i < prefix.len()
        invariant
            prefix@.len() <= s@.len(),
            i <= prefix@.len(),
            forall|k: int| 0 <= k < i ==> s@[k] == prefix@[k],
        decreases prefix@.len() - i,
    {
        if s[i] != prefix[i] {
            proof {
                assert(s@.take(prefix@.len() as int)[i as int] != prefix@[i as int]);
            }
            return false;
        }
        i += 1;
    }
    proof {
        assert(s@.take(prefix@.len() as int) =~= prefix@);
    }
    true
}

/// Whether two character sequences are the same.
pub fn same_chars(a: &[char], b: &[char]) -> (r: bool)
    ensures
        r == (a@ == b@),
{
    if a.len() != b.len() {
        return false;
    }
    let r = starts_with(a, b);
    proof {
        assert(a@.take(b@.len() as int) =~= a@);
    }
    r
}

} // verus!
