//! Character widths in UTF-8 and the byte positions of a character sequence.

use vstd::prelude::*;

verus! {

/// Number of bytes that `c` takes in UTF-8.
pub open spec fn char_width(c: char) -> nat {
    if (c as u32) < 0x80 {
        1
    } else if (c as u32) < 0x800 {
        2
    } else if (c as u32) < 0x10000 {
        3
    } else {
        4
    }
}

/// Number of bytes that the characters of `s` take in UTF-8.
pub open spec fn byte_len(s: Seq<char>) -> nat
    decreases s.len(),
{
    if s.len() == 0 {
        0
    } else {
        byte_len(s.drop_last()) + char_width(s.last())
    }
}

/// Byte position of character `k` of `s`.
pub open spec fn offset(s: Seq<char>, k: int) -> nat {
    byte_len(s.take(k))
}

/// Index of the last character of `s` that starts at or before byte `b`, i.e.
/// the number of characters whose start lies in `1..=b`; `s.len()` when `b`
/// reaches past the end.
pub open spec fn floor_index(s: Seq<char>, b: int) -> nat
    decreases s.len(),
{
    if s.len() == 0 {
        0
    } else if byte_len(s) <= b {
        s.len()
    } else {
        floor_index(s.drop_last(), b)
    }
}

/// The greatest character boundary of `s` that is at most `b` (clamped to
/// the end of the text).
pub open spec fn floor_boundary(s: Seq<char>, b: int) -> nat {
    offset(s, floor_index(s, b) as int)
}

/// `b` is the byte position where a character of `s` starts, or the end.
pub open spec fn on_boundary(s: Seq<char>, b: int) -> bool {
    floor_boundary(s, b) == b
}

pub proof fn lemma_width_bounds(c: char)
    ensures
        1 <= char_width(c) <= 4,
{
}

/// Taking the whole sequence gives it back.
pub proof fn lemma_offset_end(s: Seq<char>)
    ensures
        offset(s, s.len() as int) == byte_len(s),
        offset(s, 0) == 0,
{
    assert(s.take(s.len() as int) =~= s);
    assert(s.take(0).len() == 0);
}

/// Byte position of the next character.
pub proof fn lemma_offset_step(s: Seq<char>, k: int)
    requires
        0 <= k < s.len(),
    ensures
        offset(s, k + 1) == offset(s, k) + char_width(s[k]),
{
    assert(s.take(k + 1).drop_last() =~= s.take(k));
}

/// Byte positions grow by at least one per character.
pub proof fn lemma_offset_mono(s: Seq<char>, i: int, j: int)
    requires
        0 <= i <= j <= s.len(),
    ensures
        offset(s, i) + (j - i) <= offset(s, j),
    decreases j - i,
{
    if i < j {
        lemma_offset_mono(s, i, j - 1);
        lemma_offset_step(s, j - 1);
        lemma_width_bounds(s[j - 1]);
    }
}

/// Positions in a prefix are positions in the whole sequence.
pub proof fn lemma_offset_prefix(s: Seq<char>, n: int, k: int)
    requires
        0 <= k <= n <= s.len(),
    ensures
        offset(s.take(n), k) == offset(s, k),
{
    assert(s.take(n).take(k) =~= s.take(k));
}

/// Characterisation of `floor_index`.
pub proof fn lemma_floor_index_unique(s: Seq<char>, b: int, k: int)
    requires
        0 <= k <= s.len(),
        offset(s, k) <= b || k == 0,
        k == s.len() || offset(s, k + 1) > b,
    ensures
        floor_index(s, b) == k,
    decreases s.len(),
{
    if s.len() > 0 {
        let n = s.len() as int;
        lemma_offset_end(s);
        if byte_len(s) <= b {
            if k < n {
                lemma_offset_mono(s, k + 1, n);
            }
        } else {
            if k == n {
                lemma_offset_mono(s, 0, n);
            }
            let t = s.drop_last();
            assert(t =~= s.take(n - 1));
            lemma_offset_prefix(s, n - 1, k);
            if k < n - 1 {
                lemma_offset_prefix(s, n - 1, k + 1);
            }
            lemma_floor_index_unique(t, b, k);
        }
    }
}

/// `floor_index` names the last character starting at or before `b`.
pub proof fn lemma_floor_index_props(s: Seq<char>, b: int)
    ensures
        floor_index(s, b) <= s.len(),
        offset(s, floor_index(s, b) as int) <= b || floor_index(s, b) == 0,
        floor_index(s, b) == s.len() || offset(s, floor_index(s, b) + 1int) > b,
    decreases s.len(),
{
    if s.len() > 0 {
        let n = s.len() as int;
        lemma_offset_end(s);
        if byte_len(s) > b {
            let t = s.drop_last();
            assert(t =~= s.take(n - 1));
            lemma_floor_index_props(t, b);
            let k = floor_index(t, b) as int;
            lemma_offset_prefix(s, n - 1, k);
            if k < n - 1 {
                lemma_offset_prefix(s, n - 1, k + 1);
            }
        }
    }
}

/// The start of character `k` is a boundary, and `floor_index` finds `k` again.
pub proof fn lemma_floor_index_of_offset(s: Seq<char>, k: int)
    requires
        0 <= k <= s.len(),
    ensures
        floor_index(s, offset(s, k) as int) == k,
        on_boundary(s, offset(s, k) as int),
{
    if k < s.len() {
        lemma_offset_step(s, k);
        lemma_width_bounds(s[k]);
    }
    lemma_floor_index_unique(s, offset(s, k) as int, k);
}

/// Bytes of a concatenation add up.
pub proof fn lemma_byte_len_concat(a: Seq<char>, b: Seq<char>)
    ensures
        byte_len(a + b) == byte_len(a) + byte_len(b),
    decreases b.len(),
{
    if b.len() == 0 {
        assert(a + b =~= a);
    } else {
        assert((a + b).drop_last() =~= a + b.drop_last());
        lemma_byte_len_concat(a, b.drop_last());
    }
}

/// Inserting `c` as character `k` adds its width, keeps earlier positions,
/// and makes `offset(s, k) + width(c)` the boundary after it.
pub proof fn lemma_insert(s: Seq<char>, k: int, c: char)
    requires
        0 <= k <= s.len(),
    ensures
        byte_len(s.insert(k, c)) == byte_len(s) + char_width(c),
        offset(s.insert(k, c), k) == offset(s, k),
        offset(s.insert(k, c), k + 1) == offset(s, k) + char_width(c),
        floor_index(s.insert(k, c), (offset(s, k) + char_width(c)) as int) == k + 1,
        on_boundary(s.insert(k, c), (offset(s, k) + char_width(c)) as int),
{
    let t = s.insert(k, c);
    assert(t =~= s.take(k).push(c) + s.skip(k));
    assert(s =~= s.take(k) + s.skip(k));
    lemma_byte_len_concat(s.take(k).push(c), s.skip(k));
    lemma_byte_len_concat(s.take(k), s.skip(k));
    assert(s.take(k).push(c).drop_last() =~= s.take(k));
    assert(t.take(k) =~= s.take(k));
    assert(t.take(k + 1) =~= s.take(k).push(c));
    lemma_floor_index_of_offset(t, k + 1);
}

/// Removing character `k` takes away its width and keeps earlier positions.
pub proof fn lemma_remove(s: Seq<char>, k: int)
    requires
        0 <= k < s.len(),
    ensures
        byte_len(s.remove(k)) + char_width(s[k]) == byte_len(s),
        offset(s.remove(k), k) == offset(s, k),
        floor_index(s.remove(k), offset(s, k) as int) == k,
        on_boundary(s.remove(k), offset(s, k) as int),
{
    let t = s.remove(k);
    assert(t =~= s.take(k) + s.skip(k + 1));
    assert(s =~= s.take(k + 1) + s.skip(k + 1));
    assert(s.take(k + 1).drop_last() =~= s.take(k));
    lemma_byte_len_concat(s.take(k), s.skip(k + 1));
    lemma_byte_len_concat(s.take(k + 1), s.skip(k + 1));
    assert(t.take(k) =~= s.take(k));
    lemma_floor_index_of_offset(t, k);
}

/// On a boundary `b`, `floor_index` names the character starting at `b`.
pub proof fn lemma_on_boundary(s: Seq<char>, b: int)
    requires
        on_boundary(s, b),
    ensures
        offset(s, floor_index(s, b) as int) == b,
        floor_index(s, b) <= s.len(),
        0 <= b <= byte_len(s),
        b > 0 ==> floor_index(s, b) > 0,
        b < byte_len(s) ==> floor_index(s, b) < s.len(),
{
    lemma_floor_index_props(s, b);
    lemma_offset_end(s);
    lemma_offset_mono(s, floor_index(s, b) as int, s.len() as int);
}

/// `floor_boundary` is a boundary, at most `b` (for `b >= 0`) and at most the
/// end, and it keeps boundaries where they are.
pub proof fn lemma_floor_boundary(s: Seq<char>, b: int)
    ensures
        on_boundary(s, floor_boundary(s, b) as int),
        floor_boundary(s, b) <= byte_len(s),
        b >= 0 ==> floor_boundary(s, b) <= b,
        on_boundary(s, b) ==> floor_boundary(s, b) == b,
{
    lemma_floor_index_props(s, b);
    let k = floor_index(s, b) as int;
    lemma_floor_index_of_offset(s, k);
    lemma_offset_end(s);
    lemma_offset_mono(s, k, s.len() as int);
}

/// Width in bytes of `c` encoded as UTF-8 (what `char::len_utf8` returns).
pub fn utf8_width(c: char) -> (w: usize)
    ensures
        w == char_width(c),
        1 <= w <= 4,
{
    let v: u32 = c as u32;
    if v < 0x80 {
        1
    } else if v < 0x800 {
        2
    } else if v < 0x10000 {
        3
    } else {
        4
    }
}

} // verus!

verus! {

/// Unicode general category Cc (control codes): `U+0000..=U+001F` and
/// `U+007F..=U+009F`, the characters for which `char::is_control` holds.
pub open spec fn is_control_char(c: char) -> bool {
    (c as u32) <= 0x1F || (0x7F <= (c as u32) && (c as u32) <= 0x9F)
}

/// Whether `c` is a control character (`char::is_control`).
pub fn is_control(c: char) -> (r: bool)
    ensures
        r == is_control_char(c),
{
    let v: u32 = c as u32;
    v <= 0x1F || (0x7F <= v && v <= 0x9F)
}

/// Byte length of the UTF-8 encoding of `s`.
pub fn byte_length(s: &Vec<char>) -> (n: usize)
    requires
        byte_len(s@) <= usize::MAX,
    ensures
        n == byte_len(s@),
{
    let mut k: usize = 0;
    let mut n: usize = 0;
    proof {
        lemma_offset_end(s@);
    }
    while k < s.len()
        invariant
            k <= s.len(),
            n == offset(s@, k as int),
            byte_len(s@) <= usize::MAX,
        decreases s.len() - k,
    {
        proof {
            lemma_offset_step(s@, k as int);
            lemma_offset_mono(s@, k + 1, s.len() as int);
            lemma_offset_end(s@);
        }
        n = n + utf8_width(s[k]);
        k = k + 1;
    }
    proof {
        lemma_offset_end(s@);
    }
    n
}

/// The character index `floor_index(s, b)` and its byte position
/// `floor_boundary(s, b)`: the last character boundary at or before `b`.
pub fn floor_position(s: &Vec<char>, b: usize) -> (res: (usize, usize))
    requires
        byte_len(s@) <= usize::MAX,
    ensures
        res.0 == floor_index(s@, b as int),
        res.1 == floor_boundary(s@, b as int),
        res.1 <= b,
{
    let mut k: usize = 0;
    let mut off: usize = 0;
    proof {
        lemma_offset_end(s@);
    }
    while k < s.len()
        invariant
            k <= s.len(),
            off == offset(s@, k as int),
            off <= b,
            byte_len(s@) <= usize::MAX,
        ensures
            k <= s.len(),
            off == offset(s@, k as int),
            off <= b,
            k == s.len() || off + char_width(s@[k as int]) > b,
        decreases s.len() - k,
    {
        proof {
            lemma_offset_step(s@, k as int);
            lemma_offset_mono(s@, k + 1, s.len() as int);
            lemma_offset_end(s@);
        }
        let w = utf8_width(s[k]);
        if off + w > b {
            break;
        }
        off = off + w;
        k = k + 1;
    }
    proof {
        if k < s.len() {
            lemma_offset_step(s@, k as int);
        }
        lemma_floor_index_unique(s@, b as int, k as int);
    }
    (k, off)
}

/// Byte position of character `k` of `s`.
pub fn offset_of(s: &Vec<char>, k: usize) -> (off: usize)
    requires
        k <= s.len(),
        byte_len(s@) <= usize::MAX,
    ensures
        off == offset(s@, k as int),
{
    let mut i: usize = 0;
    let mut off: usize = 0;
    proof {
        lemma_offset_end(s@);
    }
    while i < k
        invariant
            i <= k <= s.len(),
            off == offset(s@, i as int),
            byte_len(s@) <= usize::MAX,
        decreases k - i,
    {
        proof {
            lemma_offset_step(s@, i as int);
            lemma_offset_mono(s@, i + 1, s.len() as int);
            lemma_offset_end(s@);
        }
        off = off + utf8_width(s[i]);
        i = i + 1;
    }
    off
}

} // verus!
