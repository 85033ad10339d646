//! Text as a sequence of Unicode scalar values, and the UTF-8 bytes it takes.
use vstd::prelude::*;
use vstd::utf8::{encode_scalar, encode_utf8, encode_utf8_decode_utf8};

verus! {

/// The number of bytes of `text` in UTF-8.
pub open spec fn byte_len(text: Seq<char>) -> nat {
    encode_utf8(text).len()
}

/// The number of bytes of `c` in UTF-8.
pub open spec fn char_width(c: char) -> nat {
    if (c as u32) < 0x80 {
        1
    } else if (c as u32) < 0x800 {
        2
    } else if (c as u32) < 0x1_0000 {
        3
    } else {
        4
    }
}

/// The bytes of a text are the bytes of its parts.
pub proof fn lemma_byte_len_concat(a: Seq<char>, b: Seq<char>)
    ensures
        byte_len(a + b) == byte_len(a) + byte_len(b),
    decreases a.len(),
{
    if a.len() == 0 {
        assert(a + b =~= b);
    } else {
        lemma_byte_len_concat(a.drop_first(), b);
        assert((a + b).drop_first() =~= a.drop_first() + b);
    }
}

/// The bytes of a text with one character.
pub proof fn lemma_byte_len_one(c: char)
    ensures
        byte_len(seq![c]) == char_width(c),
{
    assert(seq![c].drop_first() =~= Seq::<char>::empty());
    assert(encode_utf8(Seq::<char>::empty()).len() == 0);
    assert(encode_scalar(c as u32).len() == char_width(c));
}

/// The bytes of a text with one more character at its end.
pub proof fn lemma_byte_len_push(text: Seq<char>, c: char)
    ensures
        byte_len(text.push(c)) == byte_len(text) + char_width(c),
{
    assert(text.push(c) =~= text + seq![c]);
    lemma_byte_len_concat(text, seq![c]);
    lemma_byte_len_one(c);
}

/// A text has at least as many bytes as characters.
pub proof fn lemma_byte_len_at_least_len(text: Seq<char>)
    ensures
        text.len() <= byte_len(text),
    decreases text.len(),
{
    if text.len() > 0 {
        lemma_byte_len_at_least_len(text.drop_last());
        assert(text =~= text.drop_last().push(text.last()));
        lemma_byte_len_push(text.drop_last(), text.last());
    }
}

/// A part of a text has no more bytes than the text.
pub proof fn lemma_byte_len_take(text: Seq<char>, m: int, n: int)
    requires
        0 <= m <= n <= text.len(),
    ensures
        byte_len(text.take(n)) == byte_len(text.take(m)) + byte_len(text.subrange(m, n)),
        byte_len(text) == byte_len(text.take(n)) + byte_len(text.skip(n)),
{
    assert(text.take(n) =~= text.take(m) + text.subrange(m, n));
    lemma_byte_len_concat(text.take(m), text.subrange(m, n));
    assert(text =~= text.take(n) + text.skip(n));
    lemma_byte_len_concat(text.take(n), text.skip(n));
}

/// Computes [`char_width`].
pub fn char_bytes(c: char) -> (n: u32)
    ensures
        n == char_width(c),
{
    let code: u32 = c as u32;
    if code < 0x80 {
        1
    } else if code < 0x800 {
        2
    } else if code < 0x1_0000 {
        3
    } else {
        4
    }
}

/// The characters of `s`.
pub fn chars_of(s: &str) -> (chars: Vec<char>)
    ensures
        chars@ == s@,
{
    let mut chars: Vec<char> = Vec::new();
    for c in it: s.chars()
        invariant
            it.seq() == s@,
            chars@ == s@.take(it.index() as int),
    {
        chars.push(c);
        assert(s@.take(it.index() as int + 1) =~= s@.take(it.index() as int).push(c));
    }
    assert(s@.take(s@.len() as int) =~= s@);
    chars
}

/// The number of bytes of the characters from `from` up to `to`.
pub fn span_bytes(chars: &Vec<char>, from: usize, to: usize) -> (n: u32)
    requires
        from <= to <= chars@.len(),
        byte_len(chars@.subrange(from as int, to as int)) <= u32::MAX,
    ensures
        n == byte_len(chars@.subrange(from as int, to as int)),
{
    let mut n: u32 = 0;
    let mut i: usize = from;
    let ghost span = chars@.subrange(from as int, to as int);
    assert(chars@.subrange(from as int, from as int) =~= Seq::<char>::empty());
    while i < to
        invariant
            from <= i <= to <= chars@.len(),
            span == chars@.subrange(from as int, to as int),
            byte_len(span) <= u32::MAX,
            n == byte_len(chars@.subrange(from as int, i as int)),
        decreases to - i,
    {
        proof {
            let done = chars@.subrange(from as int, i as int);
            assert(chars@.subrange(from as int, i + 1) =~= done.push(chars@[i as int]));
            assert(span.take(i + 1 - from) =~= done.push(chars@[i as int]));
            lemma_byte_len_push(done, chars@[i as int]);
            lemma_byte_len_take(span, 0, i + 1 - from);
        }
        n += char_bytes(chars[i]);
        i += 1;
    }
    n
}

/// Tells whether two byte strings are equal.
pub fn same_bytes(a: &[u8], b: &[u8]) -> (same: bool)
    ensures
        same == (a@ == b@),
{
    if a.len() != b.len() {
        return false;
    }
    let mut i: usize = 0;
    while i < a.len()
        invariant
            i <= a@.len(),
            a@.len() == b@.len(),
            forall|j: int| 0 <= j < i ==> a@[j] == b@[j],
        decreases a@.len() - i,
    {
        if a[i] != b[i] {
            return false;
        }
        i += 1;
    }
    assert(a@ =~= b@);
    true
}

/// Tells whether two texts are equal.
pub fn same_text(a: &str, b: &str) -> (same: bool)
    ensures
        same == (a@ == b@),
{
    proof {
        encode_utf8_decode_utf8(a@);
        encode_utf8_decode_utf8(b@);
    }
    same_bytes(a.as_bytes(), b.as_bytes())
}

} // verus!
