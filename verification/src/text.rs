//! Cutting text at ASCII characters.
//!
//! A position in a `str` is a byte offset, and the contracts here speak of
//! characters. The lemmas of this module carry an ASCII byte found by a byte
//! search over to the character it encodes.

use vstd::prelude::*;
use vstd::string::StringSliceAdditionalSpecFns;
use vstd::utf8::*;

verus! {

/// The index of the first character of `s` that is `a` or `b`; the length of
/// `s` where there is none.
pub open spec fn first_of(s: Seq<char>, a: char, b: char) -> int
    decreases s.len(),
{
    if s.len() == 0 || s[0] == a || s[0] == b {
        0
    } else {
        1 + first_of(s.drop_first(), a, b)
    }
}

/// `first_of` is the least index at which `a` or `b` stands.
pub proof fn lemma_first_of(s: Seq<char>, a: char, b: char)
    ensures
        0 <= first_of(s, a, b) <= s.len(),
        forall|i: int| 0 <= i < first_of(s, a, b) ==> s[i] != a && s[i] != b,
        first_of(s, a, b) < s.len() ==> s[first_of(s, a, b)] == a || s[first_of(s, a, b)] == b,
    decreases s.len(),
{
    if s.len() != 0 && s[0] != a && s[0] != b {
        lemma_first_of(s.drop_first(), a, b);
        let k = first_of(s, a, b);
        assert forall|i: int| 0 <= i < k implies s[i] != a && s[i] != b by {
            if i > 0 {
                assert(s[i] == s.drop_first()[i - 1]);
            }
        }
    }
}

/// The least index at which `a` or `b` stands is `first_of`.
pub proof fn lemma_first_of_unique(s: Seq<char>, a: char, b: char, k: int)
    requires
        0 <= k <= s.len(),
        forall|i: int| 0 <= i < k ==> s[i] != a && s[i] != b,
        k < s.len() ==> s[k] == a || s[k] == b,
    ensures
        first_of(s, a, b) == k,
{
    lemma_first_of(s, a, b);
    let m = first_of(s, a, b);
    if m < k {
        assert(s[m] != a && s[m] != b);
    } else if k < m {
        assert(s[k] != a && s[k] != b);
    }
}

/// The encoding of a concatenation is the concatenation of the encodings.
pub proof fn lemma_encode_concat(a: Seq<char>, b: Seq<char>)
    ensures
        encode_utf8(a + b) == encode_utf8(a) + encode_utf8(b),
    decreases a.len(),
{
    if a.len() == 0 {
        assert(a + b == b);
    } else {
        lemma_encode_concat(a.drop_first(), b);
        assert((a + b).drop_first() == a.drop_first() + b);
        assert((a + b)[0] == a[0]);
    }
}

/// Two texts with the same encoding are the same text.
pub proof fn lemma_encode_injective(a: Seq<char>, b: Seq<char>)
    requires
        encode_utf8(a) == encode_utf8(b),
    ensures
        a == b,
{
    encode_utf8_decode_utf8(a);
    encode_utf8_decode_utf8(b);
}

/// An ASCII character is encoded by one byte with its own value, any other
/// character by bytes that are not ASCII.
pub proof fn lemma_encode_scalar(c: char)
    ensures
        c as u32 == c as int,
        c as u32 <= 0x7f ==> c as u8 == c as int && encode_scalar(c as u32) == seq![c as u8],
        c as u32 > 0x7f ==> encode_scalar(c as u32).len() > 0 && forall|i: int|
            0 <= i < encode_scalar(c as u32).len() ==> #[trigger] encode_scalar(c as u32)[i] >= 0x80,
{
    let v = c as u32;
    if v <= 0x7f {
        assert((v & 0x7F) as u8 == v as u8) by (bit_vector)
            requires
                v <= 0x7f,
        ;
    } else {
        assert((0x80u8 | (v & 0x3F) as u8) >= 0x80) by (bit_vector);
        assert((0x80u8 | ((v >> 6) & 0x3F) as u8) >= 0x80) by (bit_vector);
        assert((0x80u8 | ((v >> 12) & 0x3F) as u8) >= 0x80) by (bit_vector);
        assert((0xC0u8 | ((v >> 6) & 0x1F) as u8) >= 0x80) by (bit_vector);
        assert((0xE0u8 | ((v >> 12) & 0x0F) as u8) >= 0x80) by (bit_vector);
        assert((0xF0u8 | ((v >> 18) & 0x7) as u8) >= 0x80) by (bit_vector);
    }
}

/// Where the text before an ASCII character ends, its byte stands; and no
/// byte of an encoding is ASCII but those of the ASCII characters.
pub proof fn lemma_ascii_bytes(s: Seq<char>, a: u8, k: int)
    requires
        a < 0x80,
        0 <= k <= s.len(),
        forall|i: int| 0 <= i < k ==> s[i] != a as char,
    ensures
        encode_utf8(s) == encode_utf8(s.take(k)) + encode_utf8(s.skip(k)),
        forall|i: int|
            0 <= i < encode_utf8(s.take(k)).len() ==> #[trigger] encode_utf8(s.take(k))[i] != a,
    decreases k,
{
    assert(s == s.take(k) + s.skip(k));
    lemma_encode_concat(s.take(k), s.skip(k));
    if k > 0 {
        let c = s[0];
        lemma_encode_scalar(c);
        lemma_ascii_bytes(s.drop_first(), a, k - 1);
        assert(s.drop_first().take(k - 1) == s.take(k).drop_first());
        let head = encode_scalar(c as u32);
        let tail = encode_utf8(s.take(k).drop_first());
        assert(encode_utf8(s.take(k)) == head + tail);
        assert forall|i: int| 0 <= i < encode_utf8(s.take(k)).len() implies #[trigger] encode_utf8(
            s.take(k),
        )[i] != a by {
            if i < head.len() {
                assert(encode_utf8(s.take(k))[i] == head[i]);
                if c as u32 <= 0x7f {
                    assert(head[i] == c as u8);
                }
            } else {
                assert(encode_utf8(s.take(k))[i] == tail[i - head.len()]);
                assert(tail[i - head.len()] != a);
            }
        }
    }
}

/// The first byte of a text that starts with an ASCII character is that
/// character, and the second character starts right behind it.
proof fn lemma_ascii_head(s: Seq<char>)
    requires
        s.len() > 0,
    ensures
        encode_utf8(s).len() > 0,
        encode_utf8(s)[0] < 0x80 <==> (s[0] as u32) < 0x80,
        encode_utf8(s)[0] < 0x80 ==> {
            &&& encode_utf8(s)[0] == s[0] as u8
            &&& is_char_boundary(encode_utf8(s), 1)
            &&& encode_utf8(s).subrange(1, encode_utf8(s).len() as int) == encode_utf8(s.skip(1))
        },
{
    lemma_encode_scalar(s[0]);
    encode_utf8_valid_utf8(s);
    assert(s.drop_first() == s.skip(1));
    if s[0] as u32 <= 0x7f {
        encode_utf8_first_scalar(s);
        reveal_with_fuel(is_char_boundary, 2);
        assert(is_char_boundary(encode_utf8(s), 1));
    }
}

/// What `memchr::memchr` returns: the first index of the needle in the
/// haystack, `None` where it does not occur.
pub assume_specification[ memchr::memchr ](needle: u8, haystack: &[u8]) -> (r: Option<usize>)
    ensures
        match r {
            Some(i) => i < haystack@.len() && haystack@[i as int] == needle && (forall|j: int|
                0 <= j < i ==> haystack@[j] != needle),
            None => forall|j: int| 0 <= j < haystack@.len() ==> haystack@[j] != needle,
        },
;

/// What `memchr::memchr2` returns: the first index of either needle in the
/// haystack, `None` where neither occurs.
pub assume_specification[ memchr::memchr2 ](
    needle1: u8,
    needle2: u8,
    haystack: &[u8],
) -> (r: Option<usize>)
    ensures
        match r {
            Some(i) => i < haystack@.len() && (haystack@[i as int] == needle1 || haystack@[i as int]
                == needle2) && (forall|j: int|
                0 <= j < i ==> haystack@[j] != needle1 && haystack@[j] != needle2),
            None => forall|j: int|
                0 <= j < haystack@.len() ==> haystack@[j] != needle1 && haystack@[j] != needle2,
        },
;

/// The first byte of an encoding that is `a` or `b` is the byte of the first
/// character that is.
proof fn lemma_first_byte(s: Seq<char>, a: u8, b: u8)
    requires
        a < 0x80,
        b < 0x80,
    ensures
        ({
            let k = first_of(s, a as char, b as char);
            let bytes = encode_utf8(s);
            let off = encode_utf8(s.take(k)).len() as int;
            &&& 0 <= k <= s.len()
            &&& forall|i: int| 0 <= i < off ==> bytes[i] != a && bytes[i] != b
            &&& k == s.len() ==> off == bytes.len()
            &&& bytes.subrange(0, off) == encode_utf8(s.take(k))
            &&& bytes.subrange(off, bytes.len() as int) == encode_utf8(s.skip(k))
            &&& k < s.len() ==> {
                &&& off < bytes.len()
                &&& bytes[off] == s[k] as u8
                &&& bytes[off] == a || bytes[off] == b
                &&& is_char_boundary(bytes, off)
            }
        }),
{
    let k = first_of(s, a as char, b as char);
    let bytes = encode_utf8(s);
    lemma_first_of(s, a as char, b as char);
    lemma_ascii_bytes(s, a, k);
    lemma_ascii_bytes(s, b, k);
    let head = encode_utf8(s.take(k));
    let off = head.len() as int;
    assert(bytes == head + encode_utf8(s.skip(k)));
    assert forall|i: int| 0 <= i < off implies bytes[i] != a && bytes[i] != b by {
        assert(bytes[i] == head[i]);
    }
    assert(bytes.subrange(0, off) == head);
    assert(bytes.subrange(off, bytes.len() as int) == encode_utf8(s.skip(k)));
    if k == s.len() {
        assert(s.take(k) == s);
    } else {
        assert(s.skip(k)[0] == s[k]);
        lemma_ascii_head(s.skip(k));
        assert(bytes[off] == encode_utf8(s.skip(k))[0]);
        encode_utf8_valid_utf8(s);
        is_char_boundary_iff_not_is_continuation_byte(bytes, off);
        assert(!is_continuation_byte(bytes[off]));
    }
}

/// Cuts `s` at byte offset `off`, where the first character that is `a` or
/// `b` stands.
fn cut_found<'a>(s: &'a str, off: usize, a: u8, b: u8) -> (r: (&'a str, &'a str))
    requires
        a < 0x80,
        b < 0x80,
        first_of(s@, a as char, b as char) < s@.len(),
        off == encode_utf8(s@.take(first_of(s@, a as char, b as char))).len(),
    ensures
        r.0@ == s@.take(first_of(s@, a as char, b as char)),
        r.1@ == s@.skip(first_of(s@, a as char, b as char) + 1),
{
    let ghost k = first_of(s@, a as char, b as char);
    proof {
        lemma_first_byte(s@, a, b);
    }
    let (before, found) = s.split_at(off);
    proof {
        lemma_encode_injective(before@, s@.take(k));
        lemma_encode_injective(found@, s@.skip(k));
        lemma_ascii_head(found@);
    }
    let (_, after) = found.split_at(1);
    proof {
        assert(found@.skip(1) == s@.skip(k + 1));
        lemma_encode_injective(after@, s@.skip(k + 1));
    }
    (before, after)
}

/// The text before and behind the first `a` in `s`; `None` where there is
/// none.
pub fn cut_at<'a>(s: &'a str, a: u8) -> (r: Option<(&'a str, &'a str)>)
    requires
        a < 0x80,
    ensures
        r is Some <==> first_of(s@, a as char, a as char) < s@.len(),
        r matches Some(cut) ==> {
            let k = first_of(s@, a as char, a as char);
            &&& cut.0@ == s@.take(k)
            &&& cut.1@ == s@.skip(k + 1)
            &&& s@[k] == a as char
        },
{
    proof {
        lemma_first_byte(s@, a, a);
        lemma_first_of(s@, a as char, a as char);
    }
    match memchr::memchr(a, s.as_bytes()) {
        None => None,
        Some(off) => Some(cut_found(s, off, a, a)),
    }
}

/// The text before and behind the first character of `s` that is `a` or `b`,
/// with that character between them; `None` where there is none.
pub fn cut_at_either<'a>(s: &'a str, a: u8, b: u8) -> (r: Option<(&'a str, u8, &'a str)>)
    requires
        a < 0x80,
        b < 0x80,
    ensures
        r is Some <==> first_of(s@, a as char, b as char) < s@.len(),
        r matches Some(cut) ==> {
            let k = first_of(s@, a as char, b as char);
            &&& cut.0@ == s@.take(k)
            &&& cut.1 == a || cut.1 == b
            &&& s@[k] == cut.1 as char
            &&& cut.2@ == s@.skip(k + 1)
        },
{
    proof {
        lemma_first_byte(s@, a, b);
        lemma_first_of(s@, a as char, b as char);
    }
    let bytes = s.as_bytes();
    match memchr::memchr2(a, b, bytes) {
        None => None,
        Some(off) => {
            let found: u8 = bytes[off];
            let (before, after) = cut_found(s, off, a, b);
            Some((before, found, after))
        },
    }
}

/// The first byte of `s`: an ASCII byte is its first character, any other
/// byte starts a character that is not ASCII.
pub fn head(s: &str) -> (r: Option<u8>)
    ensures
        r is None <==> s@.len() == 0,
        r matches Some(b) ==> {
            &&& b == encode_utf8(s@)[0]
            &&& b < 0x80 ==> s@[0] == b as char
            &&& b >= 0x80 ==> s@[0] as int >= 0x80
        },
{
    proof {
        if s@.len() > 0 {
            lemma_ascii_head(s@);
            lemma_encode_scalar(s@[0]);
        }
    }
    let bytes = s.as_bytes();
    if bytes.len() == 0 {
        None
    } else {
        Some(bytes[0])
    }
}

/// `s` without its first character.
pub fn behind_head(s: &str) -> (r: &str)
    requires
        s@.len() > 0,
    ensures
        r@ == s@.skip(1),
{
    let bytes = s.as_bytes();
    proof {
        encode_utf8_first_scalar(s@);
        encode_utf8_valid_utf8(s@);
        reveal_with_fuel(is_char_boundary, 2);
        let w = length_of_first_scalar(bytes@);
        assert(is_char_boundary(bytes@, w));
        assert(s@.drop_first() == s@.skip(1));
        assert(bytes@.subrange(w, bytes@.len() as int) == encode_utf8(s@.skip(1)));
    }
    let lead: u8 = bytes[0];
    let width: usize = if lead < 0x80 {
        1
    } else if lead < 0xe0 {
        2
    } else if lead < 0xf0 {
        3
    } else {
        4
    };
    let (_, rest) = s.split_at(width);
    proof {
        lemma_encode_injective(rest@, s@.skip(1));
    }
    rest
}

/// `s` without one `a` at its end, where it has one.
pub open spec fn without_last(s: Seq<char>, a: char) -> Seq<char> {
    if s.len() > 0 && s.last() == a {
        s.drop_last()
    } else {
        s
    }
}

/// `s` without one `a` at its end, where it has one.
pub fn strip_last<'a>(s: &'a str, a: u8) -> (r: &'a str)
    requires
        a < 0x80,
    ensures
        r@ == without_last(s@, a as char),
{
    let bytes = s.as_bytes();
    let n: usize = bytes.len();
    proof {
        if s@.len() > 0 {
            let c = s@.last();
            let init = s@.drop_last();
            lemma_encode_scalar(c);
            lemma_ascii_head(seq![c]);
            lemma_encode_concat(init, seq![c]);
            assert(s@ == init + seq![c]);
            assert(seq![c].drop_first() == Seq::<char>::empty());
            assert(encode_utf8(seq![c]) == encode_scalar(c as u32));
            if bytes@.last() == a {
                if c as u32 > 0x7f {
                    assert(encode_scalar(c as u32)[encode_scalar(c as u32).len() - 1] >= 0x80);
                }
                assert(bytes@.subrange(0, n - 1) == encode_utf8(init));
                encode_utf8_valid_utf8(s@);
                assert(!is_continuation_byte(bytes@[n - 1]));
                is_char_boundary_iff_not_is_continuation_byte(bytes@, n - 1);
            }
        }
    }
    if n > 0 && bytes[n - 1] == a {
        let (init, _) = s.split_at(n - 1);
        proof {
            lemma_encode_injective(init@, s@.drop_last());
        }
        init
    } else {
        s
    }
}

/// The characters with the Unicode property White_Space.
pub open spec fn is_white(c: char) -> bool {
    ||| '\u{9}' <= c <= '\u{d}'
    ||| c == ' '
    ||| c == '\u{85}'
    ||| c == '\u{a0}'
    ||| c == '\u{1680}'
    ||| '\u{2000}' <= c <= '\u{200a}'
    ||| c == '\u{2028}'
    ||| c == '\u{2029}'
    ||| c == '\u{202f}'
    ||| c == '\u{205f}'
    ||| c == '\u{3000}'
}

/// Whether every character of `s` is white space.
pub open spec fn all_white(s: Seq<char>) -> bool {
    forall|i: int| 0 <= i < s.len() ==> is_white(#[trigger] s[i])
}

/// `s` without the white space at its start.
pub open spec fn trim_start(s: Seq<char>) -> Seq<char>
    decreases s.len(),
{
    if s.len() > 0 && is_white(s[0]) {
        trim_start(s.drop_first())
    } else {
        s
    }
}

/// `s` without the white space at its end.
pub open spec fn trim_end(s: Seq<char>) -> Seq<char>
    decreases s.len(),
{
    if s.len() > 0 && is_white(s.last()) {
        trim_end(s.drop_last())
    } else {
        s
    }
}

/// `s` without the white space at its two ends.
pub open spec fn trimmed(s: Seq<char>) -> Seq<char> {
    trim_start(trim_end(s))
}

/// `str::trim`: the text without its leading and trailing characters that
/// have the Unicode property White_Space.
#[verifier::external_body]
pub(crate) fn trim(s: &str) -> (r: &str)
    ensures
        r@ == trimmed(s@),
{
    s.trim()
}

/// What is left of a text without the white space at its end is a prefix of
/// it; nothing is left exactly when all of it is white space.
pub proof fn lemma_trim_end(s: Seq<char>)
    ensures
        trim_end(s).len() <= s.len(),
        trim_end(s) == s.take(trim_end(s).len() as int),
        trim_end(s).len() > 0 ==> !is_white(trim_end(s).last()),
        forall|i: int| trim_end(s).len() <= i < s.len() ==> is_white(#[trigger] s[i]),
    decreases s.len(),
{
    if s.len() > 0 && is_white(s.last()) {
        lemma_trim_end(s.drop_last());
        let n = trim_end(s).len() as int;
        assert(s.drop_last().take(n) == s.take(n));
        assert forall|i: int| n <= i < s.len() implies is_white(#[trigger] s[i]) by {
            if i < s.len() - 1 {
                assert(s[i] == s.drop_last()[i]);
            }
        }
    } else {
        assert(s.take(s.len() as int) == s);
    }
}

/// What is left of a text without the white space at its start is a suffix of
/// it.
pub proof fn lemma_trim_start(s: Seq<char>)
    ensures
        trim_start(s).len() <= s.len(),
        trim_start(s) == s.skip(s.len() - trim_start(s).len()),
        trim_start(s).len() > 0 ==> !is_white(trim_start(s)[0]),
        forall|i: int| 0 <= i < s.len() - trim_start(s).len() ==> is_white(#[trigger] s[i]),
    decreases s.len(),
{
    if s.len() > 0 && is_white(s[0]) {
        lemma_trim_start(s.drop_first());
        let n = s.len() - trim_start(s).len();
        assert(s.drop_first().skip(n - 1) == s.skip(n));
        assert forall|i: int| 0 <= i < n implies is_white(#[trigger] s[i]) by {
            if i > 0 {
                assert(s[i] == s.drop_first()[i - 1]);
            }
        }
    } else {
        assert(s.skip(0) == s);
    }
}

/// A text trims to nothing exactly when all of it is white space.
pub proof fn lemma_trimmed_empty(s: Seq<char>)
    ensures
        trimmed(s).len() == 0 <==> all_white(s),
{
    lemma_trim_end(s);
    let t = trim_end(s);
    lemma_trim_start(t);
    if trimmed(s).len() == 0 {
        if t.len() > 0 {
            assert(is_white(t[t.len() - 1]));
        }
        assert(t.len() == 0);
    } else if all_white(s) {
        assert(t[t.len() - 1] == s[t.len() - 1]);
    }
}

/// Trimming what is trimmed changes nothing.
pub proof fn lemma_trimmed_idempotent(s: Seq<char>)
    ensures
        trimmed(trimmed(s)) == trimmed(s),
{
    lemma_trim_end(s);
    let t = trim_end(s);
    lemma_trim_start(t);
    let u = trim_start(t);
    if u.len() > 0 {
        assert(u.last() == t.last());
    }
}

/// A text has no more characters than bytes.
pub proof fn lemma_encode_len(s: Seq<char>)
    ensures
        s.len() <= encode_utf8(s).len(),
    decreases s.len(),
{
    if s.len() > 0 {
        lemma_encode_len(s.drop_first());
        lemma_encode_scalar(s[0]);
    }
}

/// Whether `a` and `b` hold the same text.
pub fn same_text(a: &str, b: &str) -> (r: bool)
    ensures
        r == (a@ == b@),
{
    let x = a.as_bytes();
    let y = b.as_bytes();
    if x.len() != y.len() {
        return false;
    }
    let mut i: usize = 0;
    while i < x.len()
        invariant
            i <= x@.len(),
            x@.len() == y@.len(),
            x@ == encode_utf8(a@),
            y@ == encode_utf8(b@),
            forall|j: int| 0 <= j < i ==> x@[j] == y@[j],
        decreases x@.len() - i,
    {
        if x[i] != y[i] {
            return false;
        }
        i = i + 1;
    }
    proof {
        assert(x@ == y@);
        lemma_encode_injective(a@, b@);
    }
    true
}

/// The empty text.
pub fn nothing() -> (r: &'static str)
    ensures
        r@ == Seq::<char>::empty(),
{
    proof {
        reveal_strlit("");
        assert(""@ == Seq::<char>::empty());
    }
    ""
}

/// The texts that strings hold.
pub open spec fn texts(v: Seq<String>) -> Seq<Seq<char>> {
    v.map_values(|s: String| s@)
}

/// A copy of `s`.
pub fn copied(s: &str) -> (r: String)
    ensures
        r@ == s@,
{
    s.to_string()
}

/// The decimal numeral of `n`.
pub open spec fn decimal(n: nat) -> Seq<char>
    decreases n,
{
    let digit = ('0' as int + n % 10) as char;
    if n < 10 {
        seq![digit]
    } else {
        decimal(n / 10).push(digit)
    }
}

/// The numeral of a digit.
fn digit_text(d: usize) -> (r: &'static str)
    requires
        d < 10,
    ensures
        r@ == decimal(d as nat),
{
    proof {
        reveal_strlit("0");
        reveal_strlit("1");
        reveal_strlit("2");
        reveal_strlit("3");
        reveal_strlit("4");
        reveal_strlit("5");
        reveal_strlit("6");
        reveal_strlit("7");
        reveal_strlit("8");
        reveal_strlit("9");
    }
    let r = match d {
        0 => "0",
        1 => "1",
        2 => "2",
        3 => "3",
        4 => "4",
        5 => "5",
        6 => "6",
        7 => "7",
        8 => "8",
        _ => "9",
    };
    assert(r@ == seq![('0' as int + d) as char]);
    r
}

/// The decimal numeral of `n`.
pub fn decimal_text(n: usize) -> (r: String)
    ensures
        r@ == decimal(n as nat),
    decreases n,
{
    if n < 10 {
        copied(digit_text(n))
    } else {
        let mut r = decimal_text(n / 10);
        r.append(digit_text(n % 10));
        assert(r@ == decimal((n / 10) as nat).push(decimal((n % 10) as nat)[0]));
        r
    }
}

/// The concatenation of two texts.
pub fn joined(a: &str, b: &str) -> (r: String)
    ensures
        r@ == a@ + b@,
{
    let mut r = copied(a);
    r.append(b);
    r
}

/// `s` behind a prefix; `None` where `s` does not start with it.
pub fn behind_prefix<'a>(s: &'a str, prefix: &str) -> (r: Option<&'a str>)
    ensures
        r is Some <==> prefix@.is_prefix_of(s@),
        r matches Some(t) ==> t@ == s@.skip(prefix@.len() as int),
{
    let n: usize = prefix.unicode_len();
    let m: usize = s.unicode_len();
    if m >= n && same_text(s.substring_char(0, n), prefix) {
        Some(s.substring_char(n, m))
    } else {
        None
    }
}

} // verus!
