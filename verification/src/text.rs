//! Text as a sequence of characters, and the places of its characters in
//! UTF-8.
use vstd::prelude::*;
use vstd::utf8::{encode_scalar, encode_utf8};

verus! {

/// `String::push` of the standard library: the string afterwards is the
/// string before with `ch` added at its end.
pub assume_specification[ String::push ](s: &mut String, ch: char)
    ensures
        final(s)@ == old(s)@.push(ch),
;

/// The characters of `text`, in order.
pub(crate) fn characters(text: &str) -> (chars: Vec<char>)
    ensures
        chars@ == text@,
{
    broadcast use vstd::string::group_string_axioms;

    let mut chars: Vec<char> = Vec::new();
    for c in it: text.chars()
        invariant
            it.seq() == text@,
            chars@ == text@.subrange(0, it.index()),
    {
        chars.push(c);
    }
    assert(chars@ == text@);
    chars
}

/// The characters of `chars` from `from` up to `to`, as a string.
pub(crate) fn string_of(chars: &Vec<char>, from: usize, to: usize) -> (text: String)
    requires
        from <= to <= chars.len(),
    ensures
        text@ == chars@.subrange(from as int, to as int),
{
    let mut text = String::new();
    let mut at: usize = from;
    while at < to
        invariant
            from <= at <= to <= chars.len(),
            text@ == chars@.subrange(from as int, at as int),
        decreases to - at,
    {
        text.push(chars[at]);
        at += 1;
        assert(text@ == chars@.subrange(from as int, at as int));
    }
    text
}

/// The number of bytes that `c` takes in UTF-8.
pub open spec fn utf8_width(c: char) -> int {
    if c as u32 <= 0x7F {
        1
    } else if c as u32 <= 0x7FF {
        2
    } else if c as u32 <= 0xFFFF {
        3
    } else {
        4
    }
}

/// The number of bytes that the first `n` characters of `s` take in UTF-8:
/// the place of the character behind them, counted in bytes.
pub open spec fn byte_offset(s: Seq<char>, n: int) -> int {
    encode_utf8(s.subrange(0, n)).len() as int
}

/// The encoding of a character is as long as [`utf8_width`] says.
pub proof fn lemma_utf8_width(c: char)
    ensures
        encode_scalar(c as u32).len() == utf8_width(c),
        1 <= utf8_width(c) <= 4,
{
    vstd::utf8::char_is_scalar(c);
}

/// A text is encoded piece by piece.
pub proof fn lemma_encode_concat(a: Seq<char>, b: Seq<char>)
    ensures
        encode_utf8(a + b) == encode_utf8(a) + encode_utf8(b),
    decreases a.len(),
{
    if a.len() == 0 {
        assert(a + b =~= b);
        assert(encode_utf8(a) + encode_utf8(b) =~= encode_utf8(b));
    } else {
        assert((a + b).drop_first() =~= a.drop_first() + b);
        lemma_encode_concat(a.drop_first(), b);
        assert(encode_utf8(a + b) =~= encode_utf8(a) + encode_utf8(b));
    }
}

/// The place of a character in bytes is the place of the one before it and
/// the width of that one; the first stands at 0, and no place lies behind
/// the end of the encoded text.
pub proof fn lemma_byte_offset(s: Seq<char>, n: int)
    requires
        0 <= n <= s.len(),
    ensures
        byte_offset(s, 0) == 0,
        n < s.len() ==> byte_offset(s, n + 1) == byte_offset(s, n) + utf8_width(s[n]),
        0 <= byte_offset(s, n) <= encode_utf8(s).len(),
{
    assert(s.subrange(0, 0) =~= Seq::<char>::empty());
    assert(s =~= s.subrange(0, n) + s.subrange(n, s.len() as int));
    lemma_encode_concat(s.subrange(0, n), s.subrange(n, s.len() as int));
    if n < s.len() {
        let one = seq![s[n]];
        assert(s.subrange(0, n + 1) =~= s.subrange(0, n) + one);
        lemma_encode_concat(s.subrange(0, n), one);
        assert(one.drop_first() =~= Seq::<char>::empty());
        assert(encode_utf8(one) =~= encode_scalar(s[n] as u32)) by {
            reveal_with_fuel(encode_utf8, 2);
        }
        lemma_utf8_width(s[n]);
    }
}

/// Decides [`utf8_width`].
pub(crate) fn width(c: char) -> (n: usize)
    ensures
        n == utf8_width(c),
{
    let code: u32 = c as u32;
    if code <= 0x7F {
        1
    } else if code <= 0x7FF {
        2
    } else if code <= 0xFFFF {
        3
    } else {
        4
    }
}

} // verus!
