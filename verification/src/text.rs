// Character-level helpers shared by the parser and the matcher: UTF-8 widths
// and byte offsets of `char` sequences, Unicode whitespace trimming, and the
// conversions between `&str`, `Vec<char>` and `String`.

use vstd::prelude::*;
use vstd::utf8::*;

verus! {

/// Number of bytes in the UTF-8 encoding of `c`.
pub open spec fn utf8_width(c: char) -> nat {
    let v = c as u32;
    if v <= 0x7F {
        1
    } else if v <= 0x7FF {
        2
    } else if v <= 0xFFFF {
        3
    } else {
        4
    }
}

/// Number of bytes in the UTF-8 encoding of `cs`.
pub open spec fn byte_len(cs: Seq<char>) -> nat
    decreases cs.len(),
{
    if cs.len() == 0 {
        0
    } else {
        utf8_width(cs[0]) + byte_len(cs.drop_first())
    }
}

/// Byte offset of the `i`-th character of `cs` in its UTF-8 encoding.
pub open spec fn byte_offset(cs: Seq<char>, i: int) -> nat {
    byte_len(cs.take(i))
}

/// The Unicode `White_Space` property, which `str::trim` strips.
pub open spec fn is_ws(c: char) -> bool {
    let v = c as u32;
    (0x09 <= v <= 0x0D) || v == 0x20 || v == 0x85 || v == 0xA0 || v == 0x1680 || (0x2000 <= v
        <= 0x200A) || v == 0x2028 || v == 0x2029 || v == 0x202F || v == 0x205F || v == 0x3000
}

/// Index of the first non-whitespace character of the window `cs[lo..hi]`
/// (`hi` when there is none).
pub open spec fn trim_lo(cs: Seq<char>, lo: int, hi: int) -> int
    decreases hi - lo,
{
    if lo < hi && is_ws(cs[lo]) {
        trim_lo(cs, lo + 1, hi)
    } else {
        lo
    }
}

/// End of the window `cs[lo..hi]` once trailing whitespace is removed.
pub open spec fn trim_hi(cs: Seq<char>, lo: int, hi: int) -> int
    decreases hi - lo,
{
    if lo < hi && is_ws(cs[hi - 1]) {
        trim_hi(cs, lo, hi - 1)
    } else {
        hi
    }
}

/// The Unicode `Alphabetic` property of a character, as `char::is_alphabetic`
/// decides it.
pub uninterp spec fn is_alphabetic_char(c: char) -> bool;

/// The Unicode `Alphabetic` or `Numeric` property of a character, as
/// `char::is_alphanumeric` decides it.
pub uninterp spec fn is_alphanumeric_char(c: char) -> bool;

pub proof fn lemma_byte_len_append(a: Seq<char>, b: Seq<char>)
    ensures
        byte_len(a + b) == byte_len(a) + byte_len(b),
    decreases a.len(),
{
    if a.len() > 0 {
        assert((a + b).drop_first() =~= a.drop_first() + b);
        lemma_byte_len_append(a.drop_first(), b);
    } else {
        assert(a + b =~= b);
    }
}

pub proof fn lemma_byte_offset_step(cs: Seq<char>, i: int)
    requires
        0 <= i < cs.len(),
    ensures
        byte_offset(cs, i + 1) == byte_offset(cs, i) + utf8_width(cs[i]),
{
    assert(cs.take(i + 1) =~= cs.take(i) + seq![cs[i]]);
    lemma_byte_len_append(cs.take(i), seq![cs[i]]);
    assert(seq![cs[i]].drop_first() =~= Seq::<char>::empty());
    assert(byte_len(seq![cs[i]]) == utf8_width(cs[i]) + byte_len(Seq::<char>::empty()));
}

pub proof fn lemma_byte_offset_mono(cs: Seq<char>, i: int, j: int)
    requires
        0 <= i <= j <= cs.len(),
    ensures
        byte_offset(cs, i) + (j - i) <= byte_offset(cs, j),
    decreases j - i,
{
    if i < j {
        lemma_byte_offset_mono(cs, i, j - 1);
        lemma_byte_offset_step(cs, j - 1);
    }
}

pub proof fn lemma_byte_offset_full(cs: Seq<char>)
    ensures
        byte_offset(cs, cs.len() as int) == byte_len(cs),
{
    assert(cs.take(cs.len() as int) =~= cs);
}

pub proof fn lemma_encode_utf8_len(cs: Seq<char>)
    ensures
        encode_utf8(cs).len() == byte_len(cs),
    decreases cs.len(),
{
    if cs.len() > 0 {
        lemma_encode_utf8_len(cs.drop_first());
        let v = cs[0] as u32;
        char_is_scalar(cs[0]);
        assert(encode_scalar(v).len() == utf8_width(cs[0]));
    }
}

/// UTF-8 width of a character (what `char::len_utf8` returns).
pub fn char_width(c: char) -> (w: usize)
    ensures
        w == utf8_width(c),
        1 <= w <= 4,
{
    let v = c as u32;
    if v <= 0x7F {
        1
    } else if v <= 0x7FF {
        2
    } else if v <= 0xFFFF {
        3
    } else {
        4
    }
}

/// Exec counterpart of [`is_ws`] (what `char::is_whitespace` returns).
pub fn char_is_ws(c: char) -> (b: bool)
    ensures
        b == is_ws(c),
{
    let v = c as u32;
    (0x09 <= v && v <= 0x0D) || v == 0x20 || v == 0x85 || v == 0xA0 || v == 0x1680 || (0x2000
        <= v && v <= 0x200A) || v == 0x2028 || v == 0x2029 || v == 0x202F || v == 0x205F || v
        == 0x3000
}

/// Calls `char::is_alphabetic`.
#[verifier::external_body]
pub(crate) fn char_is_alphabetic(c: char) -> (b: bool)
    ensures
        b == is_alphabetic_char(c),
{
    c.is_alphabetic()
}

/// Calls `char::is_alphanumeric`.
#[verifier::external_body]
pub(crate) fn char_is_alphanumeric(c: char) -> (b: bool)
    ensures
        b == is_alphanumeric_char(c),
{
    c.is_alphanumeric()
}

/// Appends one character with `String::push`.
#[verifier::external_body]
pub(crate) fn push_char(s: &mut String, c: char)
    ensures
        final(s)@ == old(s)@.push(c),
{
    s.push(c);
}

/// The characters of `s`, in order.
pub fn str_to_chars(s: &str) -> (v: Vec<char>)
    ensures
        v@ == s@,
{
    let mut v: Vec<char> = Vec::new();
    for c in it: s.chars()
        invariant
            it.seq() == s@,
            v@ == it.seq().take(it.index() as int),
    {
        v.push(c);
    }
    assert(v@ =~= s@);
    v
}

/// The string made of the characters `cs[lo..hi]`.
pub fn string_from_window(cs: &Vec<char>, lo: usize, hi: usize) -> (s: String)
    requires
        lo <= hi <= cs.len(),
    ensures
        s@ == cs@.subrange(lo as int, hi as int),
{
    let mut s = String::new();
    let mut i = lo;
    while i < hi
        invariant
            lo <= i <= hi <= cs.len(),
            s@ == cs@.subrange(lo as int, i as int),
        decreases hi - i,
    {
        push_char(&mut s, cs[i]);
        assert(cs@.subrange(lo as int, i + 1) =~= cs@.subrange(lo as int, i as int).push(cs@[i as int]));
        i = i + 1;
    }
    s
}

/// The absolute byte position of every character boundary of `cs`:
/// entry `i` is the byte offset of character `i`, entry `cs.len()` the total.
pub fn byte_positions(cs: &Vec<char>) -> (pos: Vec<usize>)
    requires
        byte_len(cs@) <= usize::MAX,
    ensures
        pos.len() == cs.len() + 1,
        forall|i: int| 0 <= i <= cs.len() ==> pos@[i] == byte_offset(cs@, i),
{
    let mut pos: Vec<usize> = Vec::new();
    let mut acc: usize = 0;
    let mut i: usize = 0;
    proof {
        assert(cs@.take(0) =~= Seq::<char>::empty());
        lemma_byte_offset_full(cs@);
    }
    while i < cs.len()
        invariant
            i <= cs.len(),
            pos.len() == i,
            acc == byte_offset(cs@, i as int),
            forall|k: int| 0 <= k < i ==> pos@[k] == byte_offset(cs@, k),
            byte_offset(cs@, cs.len() as int) <= usize::MAX,
        decreases cs.len() - i,
    {
        pos.push(acc);
        proof {
            lemma_byte_offset_step(cs@, i as int);
            lemma_byte_offset_mono(cs@, i + 1, cs.len() as int);
        }
        acc = acc + char_width(cs[i]);
        i = i + 1;
    }
    pos.push(acc);
    pos
}

/// The characters of `s` together with their byte positions.
pub fn chars_and_positions(s: &str) -> (r: (Vec<char>, Vec<usize>))
    ensures
        r.0@ == s@,
        r.1.len() == r.0.len() + 1,
        forall|i: int| 0 <= i <= r.0.len() ==> r.1@[i] == byte_offset(s@, i),
        byte_len(s@) <= usize::MAX,
        s@.len() < usize::MAX,
{
    let bytes = s.as_bytes();
    let _n = bytes.len();
    assert(encode_utf8(s@).len() <= usize::MAX);
    proof {
        lemma_encode_utf8_len(s@);
    }
    let cs = str_to_chars(s);
    let pos = byte_positions(&cs);
    (cs, pos)
}

/// First non-whitespace index of `cs[lo..hi]`, as [`trim_lo`].
pub fn window_trim_lo(cs: &Vec<char>, lo: usize, hi: usize) -> (r: usize)
    requires
        lo <= hi <= cs.len(),
    ensures
        r == trim_lo(cs@, lo as int, hi as int),
        lo <= r <= hi,
{
    let mut i = lo;
    while i < hi && char_is_ws(cs[i])
        invariant
            lo <= i <= hi <= cs.len(),
            trim_lo(cs@, lo as int, hi as int) == trim_lo(cs@, i as int, hi as int),
        decreases hi - i,
    {
        i = i + 1;
    }
    i
}

/// End of `cs[lo..hi]` without its trailing whitespace, as [`trim_hi`].
pub fn window_trim_hi(cs: &Vec<char>, lo: usize, hi: usize) -> (r: usize)
    requires
        lo <= hi <= cs.len(),
    ensures
        r == trim_hi(cs@, lo as int, hi as int),
        lo <= r <= hi,
{
    let mut j = hi;
    while j > lo && char_is_ws(cs[j - 1])
        invariant
            lo <= j <= hi <= cs.len(),
            trim_hi(cs@, lo as int, hi as int) == trim_hi(cs@, lo as int, j as int),
        decreases j - lo,
    {
        j = j - 1;
    }
    j
}

} // verus!
