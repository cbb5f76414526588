use vstd::prelude::*;
use vstd::utf8::*;

verus! {

/// How many bytes the UTF-8 encoding of one character takes.
pub open spec fn char_utf8_len(c: char) -> int {
    encode_scalar(c as u32).len() as int
}

/// The byte offset at which the character with index `p` of `s` starts,
/// that is, the UTF-8 length of the first `p` characters.
pub open spec fn byte_index_of(s: Seq<char>, p: int) -> int {
    encode_utf8(s.take(p)).len() as int
}

/// Computes the UTF-8 length of one character from its scalar value.
pub fn utf8_len(c: char) -> (n: usize)
    ensures
        n == char_utf8_len(c),
        1 <= n <= 4,
{
    let u = c as u32;
    if u < 0x80 {
        1
    } else if u < 0x800 {
        2
    } else if u < 0x10000 {
        3
    } else {
        4
    }
}

/// The characters of a string slice, gathered into a vector.
pub fn chars_of(s: &str) -> (v: Vec<char>)
    ensures
        v@ == s@,
{
    let n = s.unicode_len();
    let mut v: Vec<char> = Vec::new();
    let mut i: usize = 0;
    proof {
        assert(v@ =~= s@.take(0));
    }
    while i < n
        invariant
            n == s@.len(),
            i <= n,
            v@ == s@.take(i as int),
        decreases n - i,
    {
        let c = s.get_char(i);
        v.push(c);
        proof {
            assert(s@.take(i as int).push(s@[i as int]) =~= s@.take(i + 1));
        }
        i = i + 1;
    }
    proof {
        assert(s@.take(n as int) =~= s@);
    }
    v
}

/// UTF-8 encoding distributes over concatenation of character sequences.
pub proof fn lemma_encode_utf8_concat(a: Seq<char>, b: Seq<char>)
    ensures
        encode_utf8(a + b) == encode_utf8(a) + encode_utf8(b),
    decreases a.len(),
{
    if a.len() == 0 {
        assert(a + b =~= b);
        assert(encode_utf8(a) + encode_utf8(b) =~= encode_utf8(b));
    } else {
        assert((a + b)[0] == a[0]);
        assert((a + b).drop_first() =~= a.drop_first() + b);
        lemma_encode_utf8_concat(a.drop_first(), b);
        assert(encode_scalar(a[0] as u32) + (encode_utf8(a.drop_first()) + encode_utf8(b)) =~= (
        encode_scalar(a[0] as u32) + encode_utf8(a.drop_first())) + encode_utf8(b));
    }
}

/// Stepping one character forward moves the byte offset by that
/// character's UTF-8 length.
pub proof fn lemma_byte_index_step(s: Seq<char>, j: int)
    requires
        0 <= j < s.len(),
    ensures
        byte_index_of(s, j + 1) == byte_index_of(s, j) + char_utf8_len(s[j]),
{
    let c = s[j];
    let single = seq![c];
    assert(s.take(j + 1) =~= s.take(j) + single);
    lemma_encode_utf8_concat(s.take(j), single);
    assert(single[0] == c);
    assert(single.drop_first() =~= Seq::<char>::empty());
    assert(encode_utf8(Seq::<char>::empty()) =~= Seq::<u8>::empty());
    assert(encode_utf8(single) =~= encode_scalar(c as u32) + Seq::<u8>::empty());
    assert(encode_scalar(c as u32) + Seq::<u8>::empty() =~= encode_scalar(c as u32));
}

/// A byte offset within the text never passes the text's total UTF-8 length.
pub proof fn lemma_byte_index_le_total(s: Seq<char>, p: int)
    requires
        0 <= p <= s.len(),
    ensures
        byte_index_of(s, p) <= encode_utf8(s).len(),
{
    assert(s =~= s.take(p) + s.skip(p));
    lemma_encode_utf8_concat(s.take(p), s.skip(p));
}

/// Byte offsets grow strictly with character positions: an earlier
/// character of the text always starts at a smaller byte offset.
pub proof fn lemma_byte_index_monotone(s: Seq<char>, p1: int, p2: int)
    requires
        0 <= p1 < p2 <= s.len(),
    ensures
        byte_index_of(s, p1) < byte_index_of(s, p2),
    decreases p2 - p1,
{
    lemma_byte_index_step(s, p1);
    if p1 + 1 < p2 {
        lemma_byte_index_monotone(s, p1 + 1, p2);
    }
}

/// Sums the UTF-8 lengths of the first `upto` characters; `total` is
/// the byte length of the whole text and bounds the running sum.
pub fn byte_index(chars: &Vec<char>, upto: usize, total: usize) -> (b: usize)
    requires
        upto <= chars@.len(),
        total == encode_utf8(chars@).len(),
    ensures
        b == byte_index_of(chars@, upto as int),
        b <= total,
{
    let mut b: usize = 0;
    let mut j: usize = 0;
    proof {
        assert(chars@.take(0) =~= Seq::<char>::empty());
        lemma_byte_index_le_total(chars@, 0);
    }
    while j < upto
        invariant
            j <= upto <= chars@.len(),
            total == encode_utf8(chars@).len(),
            b == byte_index_of(chars@, j as int),
            b <= total,
        decreases upto - j,
    {
        let l = utf8_len(chars[j]);
        proof {
            lemma_byte_index_step(chars@, j as int);
            lemma_byte_index_le_total(chars@, j + 1);
        }
        b = b + l;
        j = j + 1;
    }
    b
}

} // verus!
