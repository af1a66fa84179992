//! Characters of text with their UTF-8 and UTF-16 lengths, which the document
//! uses to convert between byte offsets and the editor's UTF-16 indices.
use vstd::prelude::*;
use vstd::utf8::{encode_scalar, encode_utf8};

verus! {

/// The bytes of `c` in UTF-8.
pub open spec fn utf8_width(c: char) -> nat {
    encode_scalar(c as u32).len()
}

/// The code units of `c` in UTF-16.
pub open spec fn utf16_width(c: char) -> nat {
    if (c as u32) < 0x10000 {
        1
    } else {
        2
    }
}

/// The UTF-16 length of `cs`.
pub open spec fn utf16_len(cs: Seq<char>) -> nat
    decreases cs.len(),
{
    if cs.len() == 0 {
        0
    } else {
        utf16_len(cs.drop_last()) + utf16_width(cs.last())
    }
}

/// The UTF-8 length of `cs`.
pub open spec fn utf8_len(cs: Seq<char>) -> nat {
    encode_utf8(cs).len()
}

pub proof fn lemma_encode_concat(a: Seq<char>, b: Seq<char>)
    ensures
        encode_utf8(a + b) == encode_utf8(a) + encode_utf8(b),
    decreases a.len(),
{
    if a.len() == 0 {
        assert(a + b =~= b);
        assert(encode_utf8(a) =~= Seq::<u8>::empty());
        assert(encode_utf8(a) + encode_utf8(b) =~= encode_utf8(b));
    } else {
        lemma_encode_concat(a.drop_first(), b);
        assert((a + b).drop_first() =~= a.drop_first() + b);
        assert((a + b)[0] == a[0]);
        assert(encode_utf8(a + b) =~= encode_scalar(a[0] as u32) + encode_utf8(a.drop_first() + b));
    }
}

/// The UTF-8 length of a prefix grows by the width of the next character.
pub proof fn lemma_utf8_step(cs: Seq<char>, i: int)
    requires
        0 <= i < cs.len(),
    ensures
        utf8_len(cs.take(i + 1)) == utf8_len(cs.take(i)) + utf8_width(cs[i]),
{
    assert(cs.take(i + 1) =~= cs.take(i) + seq![cs[i]]);
    lemma_encode_concat(cs.take(i), seq![cs[i]]);
    assert(seq![cs[i]].drop_first() =~= Seq::<char>::empty());
    assert(encode_utf8(seq![cs[i]]) =~= encode_scalar(cs[i] as u32) + encode_utf8(
        Seq::<char>::empty(),
    ));
}

/// The UTF-16 length of a prefix grows by the width of the next character.
pub proof fn lemma_utf16_step(cs: Seq<char>, i: int)
    requires
        0 <= i < cs.len(),
    ensures
        utf16_len(cs.take(i + 1)) == utf16_len(cs.take(i)) + utf16_width(cs[i]),
{
    assert(cs.take(i + 1).drop_last() =~= cs.take(i));
}

/// A prefix is no longer in UTF-8 than the whole.
pub proof fn lemma_utf8_prefix_le(cs: Seq<char>, i: int)
    requires
        0 <= i <= cs.len(),
    ensures
        utf8_len(cs.take(i)) <= utf8_len(cs),
{
    lemma_encode_concat(cs.take(i), cs.skip(i));
    assert(cs.take(i) + cs.skip(i) =~= cs);
}

/// Each character takes one or two UTF-16 units and at least as many UTF-8 bytes.
pub proof fn lemma_widths(c: char)
    ensures
        1 <= utf16_width(c) <= utf8_width(c),
{
    vstd::utf8::char_is_scalar(c);
}

/// Longer prefixes take more UTF-8 bytes.
pub proof fn lemma_utf8_strict(cs: Seq<char>, i: int, j: int)
    requires
        0 <= i < j <= cs.len(),
    ensures
        utf8_len(cs.take(i)) < utf8_len(cs.take(j)),
    decreases j - i,
{
    lemma_utf8_step(cs, j - 1);
    lemma_widths(cs[j - 1]);
    if i < j - 1 {
        lemma_utf8_strict(cs, i, j - 1);
    }
}

pub proof fn lemma_utf8_mono(cs: Seq<char>, i: int, j: int)
    requires
        0 <= i <= j <= cs.len(),
    ensures
        utf8_len(cs.take(i)) <= utf8_len(cs.take(j)),
{
    if i < j {
        lemma_utf8_strict(cs, i, j);
    }
}

/// The UTF-8 length of `c`, as `char::len_utf8`.
pub fn len_utf8(c: char) -> (n: usize)
    ensures
        n == utf8_width(c),
        1 <= n <= 4,
{
    let v = c as u32;
    proof {
        vstd::utf8::char_is_scalar(c);
    }
    if v < 0x80 {
        1
    } else if v < 0x800 {
        2
    } else if v < 0x10000 {
        3
    } else {
        4
    }
}

/// The UTF-16 length of `c`, as `char::len_utf16`.
pub fn len_utf16(c: char) -> (n: usize)
    ensures
        n == utf16_width(c),
{
    if (c as u32) < 0x10000 {
        1
    } else {
        2
    }
}

/// The characters of `s`.
pub fn chars_of(s: &str) -> (r: Vec<char>)
    ensures
        r@ == s@,
{
    let mut out: Vec<char> = Vec::new();
    for c in it: s.chars()
        invariant
            out@ == it.seq().take(it.index() as int),
    {
        out.push(c);
    }
    proof {
        vstd::string::axiom_spec_iter(s);
    }
    assert(out@ =~= s@);
    out
}

} // verus!
