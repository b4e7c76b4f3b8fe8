//! Text: building `String`s from characters, and reading a `str` as its
//! characters.

use vstd::prelude::*;
use vstd::std_specs::iter::IteratorSpec;

verus! {

broadcast use vstd::string::axiom_spec_iter, vstd::string::next_postcondition;

/// Appends a character (`String::push`).
#[verifier::external_body]
pub fn push_char(s: &mut String, c: char)
    ensures final(s)@ == old(s)@.push(c),
{
    s.push(c);
}

/// Appends a string (`String::push_str`).
#[verifier::external_body]
pub fn push_str(s: &mut String, t: &str)
    ensures final(s)@ == old(s)@ + t@,
{
    s.push_str(t);
}

/// An owned copy of `t`.
pub fn owned_text(t: &str) -> (r: String)
    ensures r@ == t@,
{
    let mut s = String::new();
    push_str(&mut s, t);
    proof { assert(s@ =~= t@); }
    s
}

/// `true` when `a` and `b` hold the same characters.
pub fn str_eq(a: &str, b: &str) -> (r: bool)
    ensures r == (a@ == b@),
{
    let cs = str_chars(a);
    chars_eq_str(cs.as_slice(), b)
}

/// The characters of `s`, in order.
pub fn str_chars(s: &str) -> (r: Vec<char>)
    ensures r@ == s@,
{
    let mut v: Vec<char> = Vec::new();
    let mut it = s.chars();
    loop
        invariant
            it.obeys_prophetic_iter_laws(),
            it.remaining() == s@.skip(v@.len() as int),
            v@ == s@.take(v@.len() as int),
            v@.len() <= s@.len(),
        ensures v@ == s@,
        decreases s@.len() - v@.len(),
    {
        match it.next() {
            Some(c) => {
                proof {
                    assert(s@.take(v@.len() as int + 1) =~= v@.push(c));
                    assert(s@.skip(v@.len() as int + 1) =~= s@.skip(v@.len() as int).drop_first());
                }
                v.push(c);
            }
            None => {
                proof { assert(v@ =~= s@); }
                break;
            }
        }
    }
    v
}

/// A string holding `cs`.
pub fn string_from_chars(cs: &[char]) -> (r: String)
    ensures r@ == cs@,
{
    let mut s = String::new();
    let mut i: usize = 0;
    while i < cs.len()
        invariant i <= cs@.len(), s@ == cs@.take(i as int),
        decreases cs.len() - i,
    {
        push_char(&mut s, cs[i]);
        proof { assert(s@ =~= cs@.take(i + 1)); }
        i += 1;
    }
    proof { assert(cs@.take(cs@.len() as int) =~= cs@); }
    s
}

/// `true` when `t` holds exactly the characters of `s`.
pub fn chars_eq_str(t: &[char], s: &str) -> (r: bool)
    ensures r == (t@ == s@),
{
    let cs = str_chars(s);
    if t.len() != cs.len() {
        return false;
    }
    let mut i: usize = 0;
    while i < t.len()
        invariant i <= t@.len(), t@.len() == cs@.len(), cs@ == s@,
            forall|k: int| 0 <= k < i ==> t@[k] == cs@[k],
        decreases t.len() - i,
    {
        if t[i] != cs[i] {
            return false;
        }
        i += 1;
    }
    proof { assert(t@ =~= cs@); }
    true
}

/// A valid Unicode scalar value.
pub open spec fn is_scalar(v: u32) -> bool {
    v <= 0xD7FF || (0xE000 <= v && v <= 0x10FFFF)
}

/// The character with code point `v` (`char::from_u32`): `None` for
/// surrogates and values past `U+10FFFF`.
#[verifier::external_body]
pub fn char_from_u32(v: u32) -> (r: Option<char>)
    ensures
        is_scalar(v) ==> r == Some(v as char),
        !is_scalar(v) ==> r is None,
{
    char::from_u32(v)
}

/// What `String::from_utf8_lossy` gives for bytes that are not valid UTF-8.
pub uninterp spec fn utf8_lossy_invalid(b: Seq<u8>) -> Seq<char>;

/// `b` is valid UTF-8.
pub closed spec fn is_utf8(b: Seq<u8>) -> bool {
    vstd::utf8::valid_utf8(b)
}

/// The text of `b` read leniently as UTF-8: the text of valid UTF-8;
/// otherwise what `String::from_utf8_lossy` makes of it.
pub closed spec fn utf8_lossy(b: Seq<u8>) -> Seq<char> {
    if is_utf8(b) { vstd::utf8::decode_utf8(b) } else { utf8_lossy_invalid(b) }
}

/// The UTF-8 bytes of a text read back, strictly or leniently, as that
/// text.
pub proof fn lemma_utf8_of_text(t: Seq<char>)
    ensures
        utf8_text(vstd::utf8::encode_utf8(t)) == Some(t),
        utf8_lossy(vstd::utf8::encode_utf8(t)) == t,
{
    vstd::utf8::encode_utf8_valid_utf8(t);
    vstd::utf8::encode_utf8_decode_utf8(t);
}

/// All bytes are ASCII.
pub open spec fn all_ascii(b: Seq<u8>) -> bool {
    forall|i: int| 0 <= i < b.len() ==> b[i] < 128
}

/// ASCII bytes read, leniently, as the same characters.
pub proof fn lemma_ascii_lossy(b: Seq<u8>)
    requires all_ascii(b),
    ensures utf8_lossy(b) == Seq::new(b.len(), |i: int| b[i] as char),
{
    let c = Seq::new(b.len(), |i: int| b[i] as char);
    assert forall|i: int| 0 <= i < c.len() implies '\0' <= #[trigger] c[i] <= '\u{7f}' by {
        assert(b[i] < 128);
    }
    assert(vstd::utf8::is_ascii_chars(c));
    vstd::utf8::is_ascii_chars_encode_utf8(c);
    let e = vstd::utf8::encode_utf8(c);
    assert forall|i: int| 0 <= i < b.len() implies e[i] == b[i] by {
        assert(c[i] as u8 == e[i]);
        assert((b[i] as char) as u8 == b[i]);
    }
    assert(e =~= b);
    lemma_utf8_of_text(c);
}

/// The text of `b` (`String::from_utf8_lossy`): the text of valid UTF-8
/// bytes; for other bytes, where invalid sequences become U+FFFD, the
/// result is named `utf8_lossy_invalid`. ASCII bytes read as the same
/// characters.
#[verifier::external_body]
pub fn from_utf8_lossy(b: &[u8]) -> (r: String)
    ensures
        r@ == utf8_lossy(b@),
        !is_utf8(b@) ==> r@ == utf8_lossy_invalid(b@),
        all_ascii(b@) ==> r@ == Seq::new(b@.len(), |i: int| b@[i] as char),
{
    String::from_utf8_lossy(b).into_owned()
}

/// The text of `b` read as UTF-8: `None` when `b` is not valid UTF-8.
pub closed spec fn utf8_text(b: Seq<u8>) -> Option<Seq<char>> {
    if is_utf8(b) { Some(vstd::utf8::decode_utf8(b)) } else { None }
}

/// Decodes UTF-8 strictly (`String::from_utf8`): the text of valid UTF-8
/// bytes (see `utf8_text`), `None` for anything else. ASCII bytes read as
/// the same characters.
#[verifier::external_body]
pub fn from_utf8_strict(b: &[u8]) -> (r: Option<String>)
    ensures
        match utf8_text(b@) {
            Some(t) => r is Some && r->Some_0@ == t,
            None => r is None,
        },
        all_ascii(b@) ==> r is Some && r->Some_0@ == Seq::new(b@.len(), |i: int| b@[i] as char),
{
    String::from_utf8(b.to_vec()).ok()
}

/// The characters of `b` decoded as UTF-8, lossily.
pub fn lossy_chars(b: &[u8]) -> (r: Vec<char>)
    ensures
        r@ == utf8_lossy(b@),
        all_ascii(b@) ==> r@ == Seq::new(b@.len(), |i: int| b@[i] as char),
{
    let s = from_utf8_lossy(b);
    str_chars(s.as_str())
}


/// The decimal digits of `n`.
pub open spec fn digits_text(n: nat) -> Seq<char>
    decreases n,
{
    if n < 10 {
        seq![(n + 0x30) as char]
    } else {
        digits_text(n / 10) + seq![((n % 10) + 0x30) as char]
    }
}

/// The decimal text of `v`, with `-` in front when negative.
pub open spec fn decimal_text(v: int) -> Seq<char> {
    if v < 0 { seq!['-'] + digits_text((-v) as nat) } else { digits_text(v as nat) }
}

/// Appends the decimal digits of `n`.
pub fn push_digits(s: &mut String, n: u64)
    ensures final(s)@ == old(s)@ + digits_text(n as nat),
    decreases n,
{
    if n >= 10 {
        push_digits(s, n / 10);
    }
    let d = (n % 10) as u32 + 0x30;
    let c = (d as u8) as char;
    proof {
        assert(c == ((n % 10) + 0x30) as char);
    }
    push_char(s, c);
    proof {
        if n >= 10 {
            assert(old(s)@ + digits_text(n as nat) =~= old(s)@ + digits_text((n / 10) as nat) + seq![c]);
        } else {
            assert(old(s)@ + digits_text(n as nat) =~= old(s)@.push(c));
        }
    }
}

/// Appends the decimal text of `v` (`format!("{}", v)`).
pub fn push_decimal(s: &mut String, v: i64)
    ensures final(s)@ == old(s)@ + decimal_text(v as int),
{
    if v < 0 {
        push_char(s, '-');
        let m: u64 = if v == i64::MIN { 0x8000_0000_0000_0000u64 } else { (-v) as u64 };
        push_digits(s, m);
        proof { assert(old(s)@ + decimal_text(v as int) =~= old(s)@.push('-') + digits_text(m as nat)); }
    } else {
        push_digits(s, v as u64);
    }
}

} // verus!
