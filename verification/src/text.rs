//! Character-level text model shared by the parser, the ranker and the renderer.
//!
//! Text is handled as sequences of `char`s (the view of a `str`). Byte
//! offsets, which the public `Section::range` carries, are the lengths of the
//! UTF-8 encodings of character prefixes.

use vstd::prelude::*;
use vstd::std_specs::iter::IteratorSpec;
use vstd::utf8::*;

verus! {

broadcast use vstd::string::group_string_axioms;

/// Appending one character to a `String` (std `String::push`): the string
/// grows by exactly that character.
pub assume_specification[ String::push ](s: &mut String, ch: char)
    ensures
        final(s)@ == old(s)@.push(ch),
;

// ---------------------------------------------------------------------------
// Whitespace and trimming
// ---------------------------------------------------------------------------

/// The Unicode `White_Space` property, which `char::is_whitespace`,
/// `str::trim` and `str::split_whitespace` go by.
pub open spec fn is_ws(c: char) -> bool {
    ||| ('\u{9}' <= c && c <= '\u{d}')
    ||| c == ' '
    ||| c == '\u{85}'
    ||| c == '\u{a0}'
    ||| c == '\u{1680}'
    ||| ('\u{2000}' <= c && c <= '\u{200a}')
    ||| c == '\u{2028}'
    ||| c == '\u{2029}'
    ||| c == '\u{202f}'
    ||| c == '\u{205f}'
    ||| c == '\u{3000}'
}

/// `s` without its leading whitespace.
pub open spec fn trim_start(s: Seq<char>) -> Seq<char>
    decreases s.len(),
{
    if s.len() > 0 && is_ws(s[0]) {
        trim_start(s.drop_first())
    } else {
        s
    }
}

/// `s` without its trailing whitespace.
pub open spec fn trim_end(s: Seq<char>) -> Seq<char>
    decreases s.len(),
{
    if s.len() > 0 && is_ws(s.last()) {
        trim_end(s.drop_last())
    } else {
        s
    }
}

/// `s` without leading and trailing whitespace (`str::trim`).
pub open spec fn trim(s: Seq<char>) -> Seq<char> {
    trim_end(trim_start(s))
}

/// Every character of `s` is whitespace (`s.trim().is_empty()`).
pub open spec fn all_ws(s: Seq<char>) -> bool {
    forall|i: int| 0 <= i < s.len() ==> is_ws(#[trigger] s[i])
}

/// Number of leading characters of `s` equal to `c`.
pub open spec fn run_len(s: Seq<char>, c: char) -> nat
    decreases s.len(),
{
    if s.len() > 0 && s[0] == c {
        1 + run_len(s.drop_first(), c)
    } else {
        0
    }
}

/// `char::is_whitespace`.
pub fn is_whitespace(c: char) -> (b: bool)
    ensures
        b == is_ws(c),
{
    ('\u{9}' <= c && c <= '\u{d}') || c == ' ' || c == '\u{85}' || c == '\u{a0}' || c
        == '\u{1680}' || ('\u{2000}' <= c && c <= '\u{200a}') || c == '\u{2028}' || c
        == '\u{2029}' || c == '\u{202f}' || c == '\u{205f}' || c == '\u{3000}'
}

pub proof fn lemma_run_len_bound(s: Seq<char>, c: char)
    ensures
        run_len(s, c) <= s.len(),
        forall|i: int| 0 <= i < run_len(s, c) ==> s[i] == c,
        run_len(s, c) < s.len() ==> s[run_len(s, c) as int] != c,
    decreases s.len(),
{
    if s.len() > 0 && s[0] == c {
        lemma_run_len_bound(s.drop_first(), c);
        assert forall|i: int| 0 <= i < run_len(s, c) implies s[i] == c by {
            if i > 0 {
                assert(s[i] == s.drop_first()[i - 1]);
            }
        }
    }
}

/// Length of the run of `c` in `s` starting at index `from`.
pub fn leading_run(s: &[char], from: usize, c: char) -> (n: usize)
    requires
        from <= s@.len(),
    ensures
        n == run_len(s@.skip(from as int), c),
        from + n <= s@.len(),
{
    let mut i = from;
    while i < s.len() && s[i] == c
        invariant
            from <= i <= s@.len(),
            run_len(s@.skip(from as int), c) == (i - from) + run_len(s@.skip(i as int), c),
        decreases s@.len() - i,
    {
        assert(s@.skip(i as int).drop_first() =~= s@.skip(i + 1));
        i = i + 1;
    }
    i - from
}

/// Bounds `(a, b)` of `s[lo..hi]` with leading whitespace removed: `a` is the
/// first non-whitespace index (or `hi`).
pub fn trim_start_from(s: &[char], lo: usize, hi: usize) -> (a: usize)
    requires
        lo <= hi <= s@.len(),
    ensures
        lo <= a <= hi,
        s@.subrange(a as int, hi as int) == trim_start(s@.subrange(lo as int, hi as int)),
{
    let mut a = lo;
    while a < hi && is_whitespace(s[a])
        invariant
            lo <= a <= hi <= s@.len(),
            trim_start(s@.subrange(a as int, hi as int)) == trim_start(
                s@.subrange(lo as int, hi as int),
            ),
        decreases hi - a,
    {
        assert(s@.subrange(a as int, hi as int).drop_first() =~= s@.subrange(a + 1, hi as int));
        a = a + 1;
    }
    a
}

/// End `b` of `s[lo..hi]` with trailing whitespace removed.
pub fn trim_end_to(s: &[char], lo: usize, hi: usize) -> (b: usize)
    requires
        lo <= hi <= s@.len(),
    ensures
        lo <= b <= hi,
        s@.subrange(lo as int, b as int) == trim_end(s@.subrange(lo as int, hi as int)),
{
    let mut b = hi;
    while b > lo && is_whitespace(s[b - 1])
        invariant
            lo <= b <= hi <= s@.len(),
            trim_end(s@.subrange(lo as int, b as int)) == trim_end(
                s@.subrange(lo as int, hi as int),
            ),
        decreases b - lo,
    {
        assert(s@.subrange(lo as int, b as int).drop_last() =~= s@.subrange(lo as int, b - 1));
        b = b - 1;
    }
    b
}

/// Bounds of `trim(s[lo..hi])`.
pub fn trim_range(s: &[char], lo: usize, hi: usize) -> (r: (usize, usize))
    requires
        lo <= hi <= s@.len(),
    ensures
        lo <= r.0 <= r.1 <= hi,
        s@.subrange(r.0 as int, r.1 as int) == trim(s@.subrange(lo as int, hi as int)),
{
    let a = trim_start_from(s, lo, hi);
    let b = trim_end_to(s, a, hi);
    (a, b)
}

/// True when `s[lo..hi]` holds whitespace only.
pub fn all_whitespace(s: &[char], lo: usize, hi: usize) -> (b: bool)
    requires
        lo <= hi <= s@.len(),
    ensures
        b == all_ws(s@.subrange(lo as int, hi as int)),
{
    let mut i = lo;
    while i < hi
        invariant
            lo <= i <= hi <= s@.len(),
            all_ws(s@.subrange(lo as int, i as int)),
        decreases hi - i,
    {
        if !is_whitespace(s[i]) {
            assert(s@.subrange(lo as int, hi as int)[i - lo] == s[i as int]);
            return false;
        }
        assert forall|j: int| 0 <= j < i + 1 - lo implies is_ws(
            #[trigger] s@.subrange(lo as int, i + 1)[j],
        ) by {
            if j < i - lo {
                assert(s@.subrange(lo as int, i + 1)[j] == s@.subrange(lo as int, i as int)[j]);
            }
        }
        i = i + 1;
    }
    true
}

// ---------------------------------------------------------------------------
// Byte offsets
// ---------------------------------------------------------------------------

/// Byte offset of character index `i` in `s`: the length of the UTF-8
/// encoding of the first `i` characters.
pub open spec fn byte_pos(s: Seq<char>, i: int) -> int {
    encode_utf8(s.take(i)).len() as int
}

/// Number of bytes of the UTF-8 encoding of `c`.
pub open spec fn utf8_width(c: char) -> int {
    encode_scalar(c as u32).len() as int
}

pub proof fn lemma_encode_concat(a: Seq<char>, b: Seq<char>)
    ensures
        encode_utf8(a + b) == encode_utf8(a) + encode_utf8(b),
    decreases a.len(),
{
    if a.len() == 0 {
        assert(a + b =~= b);
        assert(encode_utf8(a) + encode_utf8(b) =~= encode_utf8(b));
    } else {
        lemma_encode_concat(a.drop_first(), b);
        assert((a + b).drop_first() =~= a.drop_first() + b);
        assert((a + b)[0] == a[0]);
        assert(encode_utf8(a + b) =~= encode_scalar(a[0] as u32) + encode_utf8(
            a.drop_first() + b,
        ));
        assert(encode_utf8(a) =~= encode_scalar(a[0] as u32) + encode_utf8(a.drop_first()));
    }
}

pub proof fn lemma_encode_single(c: char)
    ensures
        encode_utf8(seq![c]) == encode_scalar(c as u32),
{
    let s = seq![c];
    assert(s.drop_first() =~= Seq::<char>::empty());
    assert(encode_utf8(s.drop_first()) =~= Seq::<u8>::empty());
    assert(encode_utf8(s) =~= encode_scalar(c as u32) + encode_utf8(s.drop_first()));
    assert(encode_scalar(c as u32) + Seq::<u8>::empty() =~= encode_scalar(c as u32));
}

pub proof fn lemma_width_range(c: char)
    ensures
        1 <= utf8_width(c) <= 4,
{
    char_is_scalar(c);
}

pub proof fn lemma_byte_pos_step(s: Seq<char>, i: int)
    requires
        0 <= i < s.len(),
    ensures
        byte_pos(s, i + 1) == byte_pos(s, i) + utf8_width(s[i]),
        byte_pos(s, i) < byte_pos(s, i + 1),
{
    assert(s.take(i + 1) =~= s.take(i) + seq![s[i]]);
    lemma_encode_concat(s.take(i), seq![s[i]]);
    lemma_encode_single(s[i]);
    lemma_width_range(s[i]);
}

pub proof fn lemma_byte_pos_zero(s: Seq<char>)
    ensures
        byte_pos(s, 0) == 0,
{
    assert(s.take(0) =~= Seq::<char>::empty());
}

pub proof fn lemma_byte_pos_mono(s: Seq<char>, i: int, j: int)
    requires
        0 <= i <= j <= s.len(),
    ensures
        byte_pos(s, i) <= byte_pos(s, j),
        i < j ==> byte_pos(s, i) < byte_pos(s, j),
    decreases j - i,
{
    if i < j {
        lemma_byte_pos_mono(s, i, j - 1);
        lemma_byte_pos_step(s, j - 1);
    }
}

pub proof fn lemma_byte_pos_full(s: Seq<char>)
    ensures
        byte_pos(s, s.len() as int) == encode_utf8(s).len(),
{
    assert(s.take(s.len() as int) =~= s);
}

/// Bytes of the encoding between two character positions are the encoding
/// of the characters between them.
pub proof fn lemma_encode_subrange(s: Seq<char>, i: int, j: int)
    requires
        0 <= i <= j <= s.len(),
    ensures
        encode_utf8(s).subrange(byte_pos(s, i), byte_pos(s, j)) == encode_utf8(s.subrange(i, j)),
        byte_pos(s, j) - byte_pos(s, i) == encode_utf8(s.subrange(i, j)).len(),
{
    assert(s =~= s.take(i) + s.subrange(i, j) + s.skip(j));
    assert(s.take(j) =~= s.take(i) + s.subrange(i, j));
    lemma_encode_concat(s.take(i), s.subrange(i, j));
    lemma_encode_concat(s.take(i) + s.subrange(i, j), s.skip(j));
    let e1 = encode_utf8(s.take(i));
    let e2 = encode_utf8(s.subrange(i, j));
    let e3 = encode_utf8(s.skip(j));
    assert(encode_utf8(s) =~= e1 + e2 + e3);
    assert((e1 + e2 + e3).subrange(e1.len() as int, (e1.len() + e2.len()) as int) =~= e2);
}

/// Every character position is a UTF-8 character boundary of the encoding.
pub proof fn lemma_byte_pos_boundary(s: Seq<char>, i: int)
    requires
        0 <= i <= s.len(),
    ensures
        is_char_boundary(encode_utf8(s), byte_pos(s, i)),
    decreases i,
{
    encode_utf8_valid_utf8(s);
    if i == 0 {
        lemma_byte_pos_zero(s);
    } else {
        let t = s.drop_first();
        lemma_byte_pos_boundary(t, i - 1);
        encode_utf8_first_scalar(s);
        let bytes = encode_utf8(s);
        assert(pop_first_scalar(bytes) =~= encode_utf8(t));
        assert(s.take(i) =~= seq![s[0]] + t.take(i - 1));
        lemma_encode_concat(seq![s[0]], t.take(i - 1));
        lemma_encode_single(s[0]);
        lemma_width_range(s[0]);
        assert(byte_pos(s, i) == utf8_width(s[0]) + byte_pos(t, i - 1));
    }
}

/// `char::len_utf8`.
pub fn char_width(c: char) -> (w: usize)
    ensures
        w == utf8_width(c),
        1 <= w <= 4,
{
    proof {
        char_is_scalar(c);
    }
    let u = c as u32;
    if u <= 0x7f {
        1
    } else if u <= 0x7ff {
        2
    } else if u <= 0xffff {
        3
    } else {
        4
    }
}

/// True when byte offset `b` is the position of some character of `s`.
pub open spec fn is_char_pos(s: Seq<char>, b: int) -> bool {
    exists|i: int| 0 <= i <= s.len() && byte_pos(s, i) == b
}

/// The character index at byte offset `b` (meaningful when `is_char_pos`).
pub open spec fn char_index(s: Seq<char>, b: int) -> int {
    choose|i: int| 0 <= i <= s.len() && byte_pos(s, i) == b
}

/// The characters of the byte range `start..end` of `s` (`&s[start..end]`).
pub open spec fn byte_slice(s: Seq<char>, start: int, end: int) -> Seq<char> {
    s.subrange(char_index(s, start), char_index(s, end))
}

/// A byte range that slices `s` without panicking.
pub open spec fn valid_byte_range(s: Seq<char>, start: int, end: int) -> bool {
    start <= end && is_char_pos(s, start) && is_char_pos(s, end)
}

pub proof fn lemma_char_index(s: Seq<char>, i: int)
    requires
        0 <= i <= s.len(),
    ensures
        is_char_pos(s, byte_pos(s, i)),
        char_index(s, byte_pos(s, i)) == i,
{
    let b = byte_pos(s, i);
    assert(0 <= i <= s.len() && byte_pos(s, i) == b);
    let k = char_index(s, b);
    if k < i {
        lemma_byte_pos_mono(s, k, i);
    } else if k > i {
        lemma_byte_pos_mono(s, i, k);
    }
}

pub proof fn lemma_byte_slice(s: Seq<char>, i: int, j: int)
    requires
        0 <= i <= j <= s.len(),
    ensures
        valid_byte_range(s, byte_pos(s, i), byte_pos(s, j)),
        byte_slice(s, byte_pos(s, i), byte_pos(s, j)) == s.subrange(i, j),
{
    lemma_char_index(s, i);
    lemma_char_index(s, j);
    lemma_byte_pos_mono(s, i, j);
}

pub proof fn lemma_valid_range_indices(s: Seq<char>, start: int, end: int)
    requires
        valid_byte_range(s, start, end),
    ensures
        0 <= char_index(s, start) <= char_index(s, end) <= s.len(),
        byte_pos(s, char_index(s, start)) == start,
        byte_pos(s, char_index(s, end)) == end,
{
    let i = char_index(s, start);
    let j = char_index(s, end);
    if j < i {
        lemma_byte_pos_mono(s, j, i);
    }
}

/// `&s[start..end]`: the substring between two byte offsets that fall on
/// character positions.
pub fn slice_str<'a>(s: &'a str, start: usize, end: usize) -> (r: &'a str)
    requires
        valid_byte_range(s@, start as int, end as int),
    ensures
        r@ == byte_slice(s@, start as int, end as int),
{
    let ghost c = s@;
    let ghost i = char_index(c, start as int);
    let ghost j = char_index(c, end as int);
    proof {
        lemma_valid_range_indices(c, start as int, end as int);
        lemma_byte_pos_boundary(c, i);
        lemma_byte_pos_full(c);
        lemma_encode_subrange(c, i, c.len() as int);
        lemma_byte_pos_mono(c, i, c.len() as int);
    }
    let (_, tail) = s.split_at(start);
    proof {
        assert(encode_utf8(tail@) == encode_utf8(c.subrange(i, c.len() as int)));
        encode_utf8_decode_utf8(tail@);
        encode_utf8_decode_utf8(c.subrange(i, c.len() as int));
        let t = tail@;
        assert(t == c.subrange(i, c.len() as int));
        lemma_encode_subrange(c, i, j);
        assert(t.take(j - i) =~= c.subrange(i, j));
        assert(byte_pos(t, j - i) == end - start);
        lemma_byte_pos_boundary(t, j - i);
    }
    let (mid, _) = tail.split_at(end - start);
    proof {
        let t = tail@;
        lemma_encode_subrange(t, 0, j - i);
        lemma_byte_pos_zero(t);
        assert(t.subrange(0, j - i) =~= c.subrange(i, j));
        encode_utf8_decode_utf8(mid@);
        encode_utf8_decode_utf8(c.subrange(i, j));
    }
    mid
}

/// A `String` holding the characters `s[lo..hi]`.
pub fn string_of(s: &[char], lo: usize, hi: usize) -> (r: String)
    requires
        lo <= hi <= s@.len(),
    ensures
        r@ == s@.subrange(lo as int, hi as int),
{
    let mut r = String::new();
    let mut i = lo;
    while i < hi
        invariant
            lo <= i <= hi <= s@.len(),
            r@ == s@.subrange(lo as int, i as int),
        decreases hi - i,
    {
        r.push(s[i]);
        assert(s@.subrange(lo as int, i + 1) =~= s@.subrange(lo as int, i as int).push(s[i as int]));
        i = i + 1;
    }
    r
}

/// The characters of `s`, in order.
pub fn chars_of(s: &str) -> (v: Vec<char>)
    ensures
        v@ == s@,
{
    let mut v: Vec<char> = Vec::new();
    let mut it = s.chars();
    loop
        invariant
            v@ + it.remaining() == s@,
            it.decrease() is Some,
        ensures
            v@ == s@,
        decreases it.decrease()->0,
    {
        match it.next() {
            Some(c) => {
                v.push(c);
            },
            None => {
                break;
            },
        }
    }
    v
}

/// Byte length of `s`, with the fact that it fits in `usize`.
pub fn byte_len(s: &str) -> (n: usize)
    ensures
        n == encode_utf8(s@).len(),
        n == byte_pos(s@, s@.len() as int),
{
    proof {
        lemma_byte_pos_full(s@);
    }
    s.as_bytes().len()
}

} // verus!
