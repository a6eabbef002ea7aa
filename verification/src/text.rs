//! Character-level building blocks shared by the text formats: white space
//! and trimming, unsigned decimal numbers, and the wrappers around the few
//! standard-library string functions that vstd leaves unspecified.
use vstd::prelude::*;

verus! {

// ---------------------------------------------------------------------------
// Outside functions
// ---------------------------------------------------------------------------

/// Wraps `std::str::from_utf8`: the bytes come back as a string slice exactly
/// when they are valid UTF-8, and then the slice is what they encode.
#[verifier::external_body]
pub(crate) fn utf8_str(bytes: &[u8]) -> (res: Option<&str>)
    ensures
        res is Some <==> vstd::utf8::valid_utf8(bytes@),
        res matches Some(s) ==> vstd::utf8::encode_utf8(s@) == bytes@,
{
    std::str::from_utf8(bytes).ok()
}

/// Wraps `String::push`: the character is appended at the end.
#[verifier::external_body]
pub(crate) fn push_char(s: &mut String, c: char)
    ensures
        final(s)@ == old(s)@.push(c),
{
    s.push(c)
}

// ---------------------------------------------------------------------------
// Strings and characters
// ---------------------------------------------------------------------------

/// The characters of a string slice, in order.
pub fn chars_of(s: &str) -> (v: Vec<char>)
    ensures
        v@ == s@,
{
    let mut v: Vec<char> = Vec::new();
    for c in it: s.chars()
        invariant
            v@ == it.seq().take(it.index() as int),
            it.seq() == s@,
    {
        v.push(c);
    }
    v
}

/// Decodes UTF-8 bytes into their characters; `None` when they are not valid UTF-8.
pub fn decode_utf8_chars(bytes: &[u8]) -> (res: Option<Vec<char>>)
    ensures
        res is Some <==> vstd::utf8::valid_utf8(bytes@),
        res matches Some(v) ==> v@ == vstd::utf8::decode_utf8(bytes@),
{
    match utf8_str(bytes) {
        None => None,
        Some(s) => {
            proof {
                vstd::utf8::encode_utf8_decode_utf8(s@);
            }
            Some(chars_of(s))
        },
    }
}

/// A sequence is its own full subrange.
pub proof fn lemma_subrange_whole<T>(s: Seq<T>)
    ensures
        s.subrange(0, s.len() as int) == s,
{
    assert(s.subrange(0, s.len() as int) =~= s);
}

/// Appends the characters `v[lo..hi]` to `out`.
pub fn push_range(out: &mut String, v: &Vec<char>, lo: usize, hi: usize)
    requires
        lo <= hi <= v@.len(),
    ensures
        final(out)@ == old(out)@ + v@.subrange(lo as int, hi as int),
{
    let mut i = lo;
    while i < hi
        invariant
            lo <= i <= hi <= v@.len(),
            out@ == old(out)@ + v@.subrange(lo as int, i as int),
        decreases hi - i,
    {
        push_char(out, v[i]);
        assert(v@.subrange(lo as int, i + 1) == v@.subrange(lo as int, i as int).push(v@[i as int]));
        i = i + 1;
    }
}

/// A new string holding the characters `v[lo..hi]`.
pub fn string_of_range(v: &Vec<char>, lo: usize, hi: usize) -> (s: String)
    requires
        lo <= hi <= v@.len(),
    ensures
        s@ == v@.subrange(lo as int, hi as int),
{
    let mut s = String::new();
    push_range(&mut s, v, lo, hi);
    s
}

/// Whether `v[lo..hi]` is exactly the word `w`.
pub fn range_is(v: &Vec<char>, lo: usize, hi: usize, w: &[char]) -> (b: bool)
    requires
        lo <= hi <= v@.len(),
    ensures
        b == (v@.subrange(lo as int, hi as int) == w@),
{
    if hi - lo != w.len() {
        return false;
    }
    let mut i: usize = 0;
    while i < w.len()
        invariant
            lo <= hi <= v@.len(),
            hi - lo == w@.len(),
            i <= w@.len(),
            forall|k: int| 0 <= k < i ==> v@[lo + k] == w@[k],
        decreases w.len() - i,
    {
        if v[lo + i] != w[i] {
            assert(v@.subrange(lo as int, hi as int)[i as int] != w@[i as int]);
            return false;
        }
        i = i + 1;
    }
    assert(v@.subrange(lo as int, hi as int) =~= w@);
    true
}

// ---------------------------------------------------------------------------
// White space and trimming
// ---------------------------------------------------------------------------

/// Unicode `White_Space`, the property that `char::is_whitespace` tests.
pub open spec fn is_whitespace(c: char) -> bool {
    let u = c as u32;
    ||| (0x09 <= u && u <= 0x0d)
    ||| u == 0x20
    ||| u == 0x85
    ||| u == 0xa0
    ||| u == 0x1680
    ||| (0x2000 <= u && u <= 0x200a)
    ||| u == 0x2028
    ||| u == 0x2029
    ||| u == 0x202f
    ||| u == 0x205f
    ||| u == 0x3000
}

/// `s` without its leading white space.
pub open spec fn trim_start(s: Seq<char>) -> Seq<char>
    decreases s.len(),
{
    if s.len() > 0 && is_whitespace(s[0]) {
        trim_start(s.drop_first())
    } else {
        s
    }
}

/// `s` without its trailing white space.
pub open spec fn trim_end(s: Seq<char>) -> Seq<char>
    decreases s.len(),
{
    if s.len() > 0 && is_whitespace(s.last()) {
        trim_end(s.drop_last())
    } else {
        s
    }
}

/// `s` without leading and trailing white space, as `str::trim` gives it.
pub open spec fn trim(s: Seq<char>) -> Seq<char> {
    trim_end(trim_start(s))
}

/// Tests `is_whitespace`.
pub fn is_ws(c: char) -> (b: bool)
    ensures
        b == is_whitespace(c),
{
    let u = c as u32;
    (0x09 <= u && u <= 0x0d) || u == 0x20 || u == 0x85 || u == 0xa0 || u == 0x1680 || (0x2000
        <= u && u <= 0x200a) || u == 0x2028 || u == 0x2029 || u == 0x202f || u == 0x205f || u
        == 0x3000
}

proof fn lemma_trim_start_step(v: Seq<char>, lo: int, hi: int)
    requires
        0 <= lo < hi <= v.len(),
        is_whitespace(v[lo]),
    ensures
        trim_start(v.subrange(lo, hi)) == trim_start(v.subrange(lo + 1, hi)),
{
    assert(v.subrange(lo, hi).drop_first() =~= v.subrange(lo + 1, hi));
}

proof fn lemma_trim_end_step(v: Seq<char>, lo: int, hi: int)
    requires
        0 <= lo < hi <= v.len(),
        is_whitespace(v[hi - 1]),
    ensures
        trim_end(v.subrange(lo, hi)) == trim_end(v.subrange(lo, hi - 1)),
{
    assert(v.subrange(lo, hi).drop_last() =~= v.subrange(lo, hi - 1));
}

/// The bounds of `trim(v[lo..hi])` inside `v`.
pub fn trim_range(v: &Vec<char>, lo: usize, hi: usize) -> (r: (usize, usize))
    requires
        lo <= hi <= v@.len(),
    ensures
        lo <= r.0 <= r.1 <= hi,
        v@.subrange(r.0 as int, r.1 as int) == trim(v@.subrange(lo as int, hi as int)),
{
    let mut a = lo;
    while a < hi && is_ws(v[a])
        invariant
            lo <= a <= hi <= v@.len(),
            trim_start(v@.subrange(lo as int, hi as int)) == trim_start(v@.subrange(a as int, hi as int)),
        decreases hi - a,
    {
        proof {
            lemma_trim_start_step(v@, a as int, hi as int);
        }
        a = a + 1;
    }
    let mut b = hi;
    while b > a && is_ws(v[b - 1])
        invariant
            lo <= a <= b <= hi <= v@.len(),
            trim_start(v@.subrange(lo as int, hi as int)) == v@.subrange(a as int, hi as int),
            trim_end(v@.subrange(a as int, hi as int)) == trim_end(v@.subrange(a as int, b as int)),
        decreases b - a,
    {
        proof {
            lemma_trim_end_step(v@, a as int, b as int);
        }
        b = b - 1;
    }
    (a, b)
}

// ---------------------------------------------------------------------------
// Unsigned decimal numbers
// ---------------------------------------------------------------------------

/// An ASCII decimal digit.
pub open spec fn is_digit(c: char) -> bool {
    '0' <= c && c <= '9'
}

/// The value of a digit character.
pub open spec fn digit_value(c: char) -> nat {
    ((c as u32) - ('0' as u32)) as nat
}

/// Every character of `s` is a decimal digit.
pub open spec fn all_digits(s: Seq<char>) -> bool {
    forall|i: int| 0 <= i < s.len() ==> is_digit(#[trigger] s[i])
}

/// The value of a string of decimal digits, most significant first.
pub open spec fn digits_value(s: Seq<char>) -> nat
    decreases s.len(),
{
    if s.len() == 0 {
        0
    } else {
        digits_value(s.drop_last()) * 10 + digit_value(s.last())
    }
}

/// The digits that `u64::from_str` reads: an optional leading `+` is dropped.
pub open spec fn unsigned_digits(s: Seq<char>) -> Seq<char> {
    if s.len() > 0 && s[0] == '+' {
        s.drop_first()
    } else {
        s
    }
}

/// What `str::parse::<u64>` accepts: an optional `+`, then one or more
/// decimal digits whose value fits in a `u64`.
pub open spec fn parse_u64(s: Seq<char>) -> Option<u64> {
    let d = unsigned_digits(s);
    if d.len() > 0 && all_digits(d) && digits_value(d) <= u64::MAX {
        Some(digits_value(d) as u64)
    } else {
        None
    }
}

/// The character of a digit value below ten.
pub open spec fn digit_char(d: nat) -> char {
    ((d + ('0' as u32)) as u32) as char
}

/// The decimal text of `n`, as `Display` writes an unsigned integer.
pub open spec fn decimal(n: nat) -> Seq<char>
    decreases n,
{
    if n < 10 {
        seq![digit_char(n)]
    } else {
        decimal(n / 10).push(digit_char(n % 10))
    }
}

proof fn lemma_digits_value_take(s: Seq<char>, i: int)
    requires
        0 <= i < s.len(),
    ensures
        digits_value(s.take(i + 1)) == digits_value(s.take(i)) * 10 + digit_value(s[i]),
{
    assert(s.take(i + 1).drop_last() =~= s.take(i));
}

proof fn lemma_digits_value_monotone(s: Seq<char>, i: int)
    requires
        0 <= i <= s.len(),
    ensures
        digits_value(s.take(i)) <= digits_value(s),
    decreases s.len() - i,
{
    if i < s.len() {
        lemma_digits_value_take(s, i);
        lemma_digits_value_monotone(s, i + 1);
    } else {
        assert(s.take(i) =~= s);
    }
}

/// Parses `v[lo..hi]` as `str::parse::<u64>` does.
pub fn parse_u64_range(v: &Vec<char>, lo: usize, hi: usize) -> (r: Option<u64>)
    requires
        lo <= hi <= v@.len(),
    ensures
        r == parse_u64(v@.subrange(lo as int, hi as int)),
{
    let ghost s = v@.subrange(lo as int, hi as int);
    let mut start = lo;
    if lo < hi && v[lo] == '+' {
        start = lo + 1;
        assert(s.drop_first() =~= v@.subrange(start as int, hi as int));
    }
    let ghost d = v@.subrange(start as int, hi as int);
    assert(d == unsigned_digits(s));
    if start == hi {
        return None;
    }
    let mut acc: u64 = 0;
    let mut i = start;
    while i < hi
        invariant
            lo <= start < hi <= v@.len(),
            start <= i <= hi,
            s == v@.subrange(lo as int, hi as int),
            d == v@.subrange(start as int, hi as int),
            d == unsigned_digits(s),
            all_digits(d.take(i - start)),
            acc as nat == digits_value(d.take(i - start)),
        decreases hi - i,
    {
        let c = v[i];
        let k: Ghost<int> = Ghost(i - start);
        assert(d[k@] == c);
        if !(c >= '0' && c <= '9') {
            assert(!all_digits(d));
            return None;
        }
        let dv = (c as u32) - ('0' as u32);
        proof {
            lemma_digits_value_take(d, k@);
            assert(all_digits(d.take(k@ + 1))) by {
                assert forall|j: int| 0 <= j < k@ + 1 implies is_digit(#[trigger] d.take(k@ + 1)[j]) by {
                    if j < k@ {
                        assert(d.take(k@ + 1)[j] == d.take(k@)[j]);
                    }
                }
            }
        }
        if acc > 1844674407370955161 || (acc == 1844674407370955161 && dv > 5) {
            proof {
                assert(digits_value(d.take(k@ + 1)) > u64::MAX);
                if all_digits(d) {
                    lemma_digits_value_monotone(d, k@ + 1);
                }
            }
            return None;
        }
        acc = acc * 10 + dv as u64;
        i = i + 1;
    }
    assert(d.take(hi - start) =~= d);
    Some(acc)
}

/// The character of a digit value below ten.
fn digit_to_char(d: u64) -> (c: char)
    requires
        d < 10,
    ensures
        c == digit_char(d as nat),
{
    ((d as u8) + 48u8) as char
}

/// Appends the decimal text of `n` to `out`.
pub fn push_decimal(out: &mut String, n: u64)
    ensures
        final(out)@ == old(out)@ + decimal(n as nat),
    decreases n,
{
    if n < 10 {
        push_char(out, digit_to_char(n));
        assert(decimal(n as nat) == seq![digit_char(n as nat)]);
        assert(old(out)@.push(digit_char(n as nat)) =~= old(out)@ + seq![digit_char(n as nat)]);
    } else {
        push_decimal(out, n / 10);
        push_char(out, digit_to_char(n % 10));
        assert(decimal(n as nat) == decimal((n / 10) as nat).push(digit_char((n % 10) as nat)));
        assert(out@ =~= old(out)@ + decimal(n as nat));
    }
}

proof fn lemma_digit_char(d: nat)
    requires
        d < 10,
    ensures
        is_digit(digit_char(d)),
        digit_value(digit_char(d)) == d,
        digit_char(d) != '+',
{
}

/// The decimal text of a number is made of digits, and reads back as the number.
pub proof fn lemma_decimal_digits(n: nat)
    ensures
        decimal(n).len() > 0,
        all_digits(decimal(n)),
        digits_value(decimal(n)) == n,
    decreases n,
{
    if n < 10 {
        lemma_digit_char(n);
        assert(decimal(n).drop_last() =~= Seq::<char>::empty());
        assert(digits_value(Seq::<char>::empty()) == 0);
        assert(digits_value(decimal(n)) == digits_value(decimal(n).drop_last()) * 10 + digit_value(decimal(n).last()));
    } else {
        lemma_decimal_digits(n / 10);
        lemma_digit_char(n % 10);
        let s = decimal(n);
        assert(s.drop_last() =~= decimal(n / 10));
        vstd::arithmetic::div_mod::lemma_fundamental_div_mod(n as int, 10);
        assert(digits_value(s) == digits_value(s.drop_last()) * 10 + digit_value(s.last()));
        assert(s.last() == digit_char(n % 10));
        assert(all_digits(s)) by {
            assert forall|i: int| 0 <= i < s.len() implies is_digit(#[trigger] s[i]) by {
                if i < s.len() - 1 {
                    assert(s[i] == decimal(n / 10)[i]);
                }
            }
        }
    }
}

/// Reading back the decimal text of a `u64` gives the number.
pub proof fn lemma_parse_decimal(n: u64)
    ensures
        parse_u64(decimal(n as nat)) == Some(n),
        decimal(n as nat).len() > 0,
        is_digit(decimal(n as nat)[0]),
{
    lemma_decimal_digits(n as nat);
    lemma_digit_char(0);
    assert(is_digit(decimal(n as nat)[0]));
    assert(unsigned_digits(decimal(n as nat)) == decimal(n as nat));
}

} // verus!

verus! {

// ---------------------------------------------------------------------------
// Searching for a character
// ---------------------------------------------------------------------------

/// The number of characters of `s` before the first `c` (all of `s` when it has none).
pub open spec fn count_until(s: Seq<char>, c: char) -> nat
    decreases s.len(),
{
    if s.len() == 0 || s[0] == c {
        0
    } else {
        1 + count_until(s.drop_first(), c)
    }
}

/// What `count_until` is.
pub proof fn lemma_count_until(s: Seq<char>, c: char)
    ensures
        count_until(s, c) <= s.len(),
        forall|j: int| 0 <= j < count_until(s, c) ==> s[j] != c,
        count_until(s, c) < s.len() ==> s[count_until(s, c) as int] == c,
    decreases s.len(),
{
    if s.len() > 0 && s[0] != c {
        lemma_count_until(s.drop_first(), c);
        assert forall|j: int| 0 <= j < count_until(s, c) implies s[j] != c by {
            if j > 0 {
                assert(s[j] == s.drop_first()[j - 1]);
            }
        }
    }
}

/// `count_until` is the first `c`, if any.
pub proof fn lemma_count_until_at(s: Seq<char>, c: char, k: int)
    requires
        0 <= k <= s.len(),
        forall|j: int| 0 <= j < k ==> s[j] != c,
        k == s.len() || s[k] == c,
    ensures
        count_until(s, c) == k,
    decreases k,
{
    if k > 0 {
        assert forall|j: int| 0 <= j < k - 1 implies s.drop_first()[j] != c by {
            assert(s.drop_first()[j] == s[j + 1]);
        }
        lemma_count_until_at(s.drop_first(), c, k - 1);
    }
}

/// The position of the first `c` in `v[lo..hi]`, or `hi` when there is none.
pub fn find_char(v: &Vec<char>, lo: usize, hi: usize, c: char) -> (r: usize)
    requires
        lo <= hi <= v@.len(),
    ensures
        lo <= r <= hi,
        r - lo == count_until(v@.subrange(lo as int, hi as int), c),
{
    let mut i = lo;
    while i < hi && v[i] != c
        invariant
            lo <= i <= hi <= v@.len(),
            forall|j: int| lo <= j < i ==> v@[j] != c,
        decreases hi - i,
    {
        i = i + 1;
    }
    proof {
        lemma_count_until_at(v@.subrange(lo as int, hi as int), c, i - lo);
    }
    i
}

} // verus!

verus! {

// ---------------------------------------------------------------------------
// Facts about UTF-8 and trimming used by the round-trip laws
// ---------------------------------------------------------------------------

/// Encoding a concatenation encodes each part.
pub proof fn lemma_encode_concat(a: Seq<char>, b: Seq<char>)
    ensures
        vstd::utf8::encode_utf8(a + b) == vstd::utf8::encode_utf8(a) + vstd::utf8::encode_utf8(b),
    decreases a.len(),
{
    if a.len() == 0 {
        assert(a + b =~= b);
        assert(vstd::utf8::encode_utf8(a) =~= Seq::<u8>::empty());
        assert(Seq::<u8>::empty() + vstd::utf8::encode_utf8(b) =~= vstd::utf8::encode_utf8(b));
    } else {
        lemma_encode_concat(a.drop_first(), b);
        assert((a + b).drop_first() =~= a.drop_first() + b);
        assert((a + b)[0] == a[0]);
        assert(vstd::utf8::encode_utf8(a + b) =~= vstd::utf8::encode_utf8(a) + vstd::utf8::encode_utf8(b));
    }
}

/// The bytes of one character: itself below `0x80`, else bytes of `0x80` and above.
pub proof fn lemma_encode_scalar_bytes(c: char)
    ensures
        vstd::utf8::encode_scalar(c as u32).len() > 0,
        (c as u32) < 0x80 ==> vstd::utf8::encode_scalar(c as u32) == seq![(c as u32) as u8],
        (c as u32) >= 0x80 ==> forall|i: int|
            0 <= i < vstd::utf8::encode_scalar(c as u32).len() ==> #[trigger] vstd::utf8::encode_scalar(
                c as u32,
            )[i] >= 0x80,
{
    vstd::utf8::char_is_scalar(c);
    let u = c as u32;
    if u < 0x80 {
        assert(((u & 0x7F) as u8) == (u as u8)) by (bit_vector)
            requires
                u < 0x80,
        ;
    } else {
        assert(forall|x: u32| #![auto] (0x80u8 | ((x & 0x3F) as u8)) >= 0x80) by (bit_vector);
        assert(forall|x: u32| #![auto] (0x80u8 | (((x >> 6) & 0x3F) as u8)) >= 0x80) by (bit_vector);
        assert(forall|x: u32| #![auto] (0x80u8 | (((x >> 12) & 0x3F) as u8)) >= 0x80) by (bit_vector);
        assert(forall|x: u32| #![auto] (0xC0u8 | (((x >> 6) & 0x1F) as u8)) >= 0x80) by (bit_vector);
        assert(forall|x: u32| #![auto] (0xE0u8 | (((x >> 12) & 0x0F) as u8)) >= 0x80) by (bit_vector);
        assert(forall|x: u32| #![auto] (0xF0u8 | (((x >> 18) & 0x7) as u8)) >= 0x80) by (bit_vector);
    }
}

/// The encoding of one character.
pub proof fn lemma_encode_one(c: char)
    ensures
        vstd::utf8::encode_utf8(seq![c]) == vstd::utf8::encode_scalar(c as u32),
{
    assert(seq![c].drop_first() =~= Seq::<char>::empty());
    assert(vstd::utf8::encode_utf8(Seq::<char>::empty()) =~= Seq::<u8>::empty());
    assert(vstd::utf8::encode_scalar(c as u32) + Seq::<u8>::empty() =~= vstd::utf8::encode_scalar(
        c as u32,
    ));
}

/// A line feed encodes to its byte.
pub proof fn lemma_encode_newline()
    ensures
        vstd::utf8::encode_utf8(seq!['\n']) == seq![10u8],
{
    lemma_encode_one('\n');
    lemma_encode_scalar_bytes('\n');
    assert(('\n' as u32) == 10);
}

/// A string without the ASCII character `c` encodes to bytes without the byte of `c`.
pub proof fn lemma_encode_avoids(s: Seq<char>, c: char)
    requires
        (c as u32) < 0x80,
        forall|i: int| 0 <= i < s.len() ==> s[i] != c,
    ensures
        forall|j: int|
            0 <= j < vstd::utf8::encode_utf8(s).len() ==> #[trigger] vstd::utf8::encode_utf8(s)[j]
                != (c as u32) as u8,
    decreases s.len(),
{
    if s.len() > 0 {
        lemma_encode_avoids(s.drop_first(), c);
        lemma_encode_scalar_bytes(s[0]);
        vstd::utf8::char_u32_cast(s[0], s[0] as u32);
        vstd::utf8::char_u32_cast(c, c as u32);
        let e = vstd::utf8::encode_scalar(s[0] as u32);
        let r = vstd::utf8::encode_utf8(s.drop_first());
        assert(vstd::utf8::encode_utf8(s) == e + r);
        assert forall|j: int| 0 <= j < vstd::utf8::encode_utf8(s).len() implies #[trigger] vstd::utf8::encode_utf8(s)[j]
            != (c as u32) as u8 by {
            if j < e.len() {
                assert(vstd::utf8::encode_utf8(s)[j] == e[j]);
            } else {
                assert(vstd::utf8::encode_utf8(s)[j] == r[j - e.len()]);
            }
        }
    }
}

/// A non-empty string that does not end with `c`, an ASCII character, does not
/// encode to bytes ending with the byte of `c`.
pub proof fn lemma_encode_last(s: Seq<char>, c: char)
    requires
        (c as u32) < 0x80,
        s.len() > 0,
        s.last() != c,
    ensures
        vstd::utf8::encode_utf8(s).len() > 0,
        vstd::utf8::encode_utf8(s).last() != (c as u32) as u8,
{
    let d = s.drop_last();
    let x = s.last();
    assert(s =~= d + seq![x]);
    lemma_encode_concat(d, seq![x]);
    lemma_encode_one(x);
    lemma_encode_scalar_bytes(x);
    vstd::utf8::char_u32_cast(x, x as u32);
    vstd::utf8::char_u32_cast(c, c as u32);
    let e = vstd::utf8::encode_scalar(x as u32);
    assert(vstd::utf8::encode_utf8(s).last() == e.last());
}

/// A string that neither starts nor ends with white space is its own trim.
pub proof fn lemma_trim_fixed(s: Seq<char>)
    requires
        s.len() > 0,
        !is_whitespace(s[0]),
        !is_whitespace(s.last()),
    ensures
        trim(s) == s,
{
}

/// Trimming a string that starts with a character other than white space keeps that character.
pub proof fn lemma_trim_keeps_first(s: Seq<char>)
    requires
        s.len() > 0,
        !is_whitespace(s[0]),
    ensures
        trim(s).len() > 0,
    decreases s.len(),
{
    if is_whitespace(s.last()) {
        if s.len() > 1 {
            assert(s.drop_last()[0] == s[0]);
            lemma_trim_keeps_first(s.drop_last());
        }
    }
}

/// A string whose trim is empty is all white space.
pub proof fn lemma_trim_keeps_char(s: Seq<char>, k: int)
    requires
        0 <= k < s.len(),
        !is_whitespace(s[k]),
    ensures
        trim(s).len() > 0,
    decreases s.len(),
{
    if is_whitespace(s[0]) {
        assert(s.drop_first()[k - 1] == s[k]);
        lemma_trim_keeps_char(s.drop_first(), k - 1);
        assert(trim_start(s) == trim_start(s.drop_first()));
    } else {
        lemma_trim_keeps_first(s);
    }
}

/// Trimming ignores one leading blank.
pub proof fn lemma_trim_blank_first(v: Seq<char>)
    ensures
        trim(seq![' '] + v) == trim(v),
{
    assert((seq![' '] + v).drop_first() =~= v);
}


/// Trimming the start of `s` with a character added at its end: the character
/// stays after a non-blank trimmed start, and white space is all trimmed away.
proof fn lemma_trim_start_push(s: Seq<char>, c: char)
    requires
        is_whitespace(c),
    ensures
        trim_start(s).len() > 0 ==> trim_start(s.push(c)) == trim_start(s).push(c),
        trim_start(s).len() == 0 ==> trim_start(s.push(c)).len() == 0,
    decreases s.len(),
{
    if s.len() == 0 {
        assert(s.push(c).drop_first() =~= Seq::<char>::empty());
        assert(trim_start(s.push(c)) == trim_start(s.push(c).drop_first()));
        assert(trim_start(Seq::<char>::empty()).len() == 0);
    } else {
        assert(s.push(c)[0] == s[0]);
        assert(s.push(c).drop_first() =~= s.drop_first().push(c));
        lemma_trim_start_push(s.drop_first(), c);
    }
}

/// White space added at the end does not change the trim.
pub proof fn lemma_trim_push_ws(s: Seq<char>, c: char)
    requires
        is_whitespace(c),
    ensures
        trim(s.push(c)) == trim(s),
{
    lemma_trim_start_push(s, c);
    let t = trim_start(s);
    if t.len() > 0 {
        assert(t.push(c).drop_last() =~= t);
    } else {
        assert(trim_end(trim_start(s.push(c))) =~= Seq::<char>::empty());
        assert(trim_end(t) =~= Seq::<char>::empty());
    }
}

/// Bytes with an ASCII white-space character added at the end are UTF-8
/// exactly when the bytes are, and then trim to the same text.
pub proof fn lemma_push_ascii_ws(a: Seq<u8>, c: char)
    requires
        (c as u32) < 0x80,
        is_whitespace(c),
    ensures
        vstd::utf8::valid_utf8(a.push((c as u32) as u8)) == vstd::utf8::valid_utf8(a),
        vstd::utf8::valid_utf8(a) ==> trim(vstd::utf8::decode_utf8(a.push((c as u32) as u8)))
            == trim(vstd::utf8::decode_utf8(a)),
{
    let b = (c as u32) as u8;
    lemma_encode_one(c);
    lemma_encode_scalar_bytes(c);
    assert(vstd::utf8::encode_utf8(seq![c]) == seq![b]);
    if vstd::utf8::valid_utf8(a) {
        let d = vstd::utf8::decode_utf8(a);
        vstd::utf8::decode_utf8_encode_utf8(a);
        lemma_encode_concat(d, seq![c]);
        assert(d + seq![c] =~= d.push(c));
        assert(vstd::utf8::encode_utf8(d.push(c)) =~= a.push(b));
        vstd::utf8::encode_utf8_valid_utf8(d.push(c));
        vstd::utf8::encode_utf8_decode_utf8(d.push(c));
        lemma_trim_push_ws(d, c);
    } else if vstd::utf8::valid_utf8(a.push(b)) {
        let e = vstd::utf8::decode_utf8(a.push(b));
        vstd::utf8::decode_utf8_encode_utf8(a.push(b));
        assert(e.len() > 0) by {
            if e.len() == 0 {
                assert(vstd::utf8::encode_utf8(e) =~= Seq::<u8>::empty());
            }
        }
        if e.last() != c {
            lemma_encode_last(e, c);
        }
        let d = e.drop_last();
        assert(e =~= d + seq![c]);
        lemma_encode_concat(d, seq![c]);
        assert(a.push(b) == vstd::utf8::encode_utf8(d) + seq![b]);
        assert(a =~= a.push(b).drop_last());
        assert(vstd::utf8::encode_utf8(d) =~= (vstd::utf8::encode_utf8(d) + seq![b]).drop_last());
        assert(vstd::utf8::encode_utf8(d) =~= a);
        vstd::utf8::encode_utf8_valid_utf8(d);
    }
}

} // verus!
