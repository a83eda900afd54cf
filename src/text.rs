//! Characters and their UTF-8 byte lengths: the bridge between the
//! character view of a `str` and the byte offsets that spans hold.

use vstd::prelude::*;
use vstd::string::*;
use vstd::utf8::*;

verus! {

broadcast use vstd::seq::group_seq_axioms, vstd::seq_lib::group_seq_properties;

/// The number of bytes that the UTF-8 encoding of `s` takes.
pub open spec fn blen(s: Seq<char>) -> nat {
    encode_utf8(s).len()
}

/// The number of bytes that the UTF-8 encoding of `c` takes.
pub open spec fn char_width(c: char) -> nat {
    encode_scalar(c as u32).len()
}

/// Encoding distributes over concatenation.
pub proof fn lemma_encode_concat(a: Seq<char>, b: Seq<char>)
    ensures
        encode_utf8(a + b) == encode_utf8(a) + encode_utf8(b),
    decreases a.len(),
{
    if a.len() == 0 {
        assert(a + b =~= b);
        assert(encode_utf8(a) =~= Seq::<u8>::empty());
        assert(encode_utf8(a) + encode_utf8(b) =~= encode_utf8(b));
    } else {
        lemma_encode_concat(a.drop_first(), b);
        assert((a + b).drop_first() =~= a.drop_first() + b);
        assert((a + b)[0] == a[0]);
        assert(encode_utf8(a + b) =~= encode_scalar(a[0] as u32) + encode_utf8(a.drop_first() + b));
    }
}

/// Byte lengths add up over concatenation.
pub proof fn lemma_blen_concat(a: Seq<char>, b: Seq<char>)
    ensures
        blen(a + b) == blen(a) + blen(b),
{
    lemma_encode_concat(a, b);
}

/// The byte length of a prefix, one character longer.
pub proof fn lemma_blen_take_succ(s: Seq<char>, k: int)
    requires
        0 <= k < s.len(),
    ensures
        blen(s.take(k + 1)) == blen(s.take(k)) + char_width(s[k]),
{
    assert(s.take(k + 1) =~= s.take(k) + seq![s[k]]);
    lemma_blen_concat(s.take(k), seq![s[k]]);
    assert(seq![s[k]].drop_first() =~= Seq::<char>::empty());
    assert(encode_utf8(seq![s[k]]) =~= encode_scalar(s[k] as u32) + encode_utf8(Seq::<char>::empty()));
}

/// A prefix takes no more bytes than the whole.
pub proof fn lemma_blen_take_le(s: Seq<char>, k: int)
    requires
        0 <= k <= s.len(),
    ensures
        blen(s.take(k)) <= blen(s),
        blen(s) == blen(s.take(k)) + blen(s.skip(k)),
{
    assert(s =~= s.take(k) + s.skip(k));
    lemma_blen_concat(s.take(k), s.skip(k));
}

/// Every character takes at least one byte.
pub proof fn lemma_blen_ge_len(s: Seq<char>)
    ensures
        blen(s) >= s.len(),
    decreases s.len(),
{
    if s.len() > 0 {
        lemma_blen_ge_len(s.drop_first());
        assert(s =~= seq![s[0]] + s.drop_first());
        lemma_blen_concat(seq![s[0]], s.drop_first());
        assert(seq![s[0]].drop_first() =~= Seq::<char>::empty());
        assert(encode_utf8(seq![s[0]]) =~= encode_scalar(s[0] as u32) + encode_utf8(Seq::<char>::empty()));
    }
}

/// ASCII characters take one byte each.
pub proof fn lemma_blen_ascii(s: Seq<char>)
    requires
        forall|i: int| 0 <= i < s.len() ==> (#[trigger] s[i] as u32) < 0x80,
    ensures
        blen(s) == s.len(),
    decreases s.len(),
{
    if s.len() > 0 {
        assert forall|i: int| 0 <= i < s.drop_first().len() implies (#[trigger] s.drop_first()[i] as u32) < 0x80 by {
            assert(s.drop_first()[i] == s[i + 1]);
        }
        lemma_blen_ascii(s.drop_first());
        char_is_scalar(s[0]);
        assert(encode_scalar(s[0] as u32).len() == 1);
    }
}

/// A string's characters are determined by its bytes.
pub proof fn lemma_view_from_bytes(s: &str, cs: Seq<char>)
    requires
        s.spec_bytes() == encode_utf8(cs),
    ensures
        s@ == cs,
{
    encode_utf8_decode_utf8(s@);
    encode_utf8_decode_utf8(cs);
}

/// The end of the encoding of a prefix is a character boundary.
pub proof fn lemma_prefix_boundary(p: Seq<char>, q: Seq<char>)
    ensures
        is_char_boundary(encode_utf8(p + q), blen(p) as int),
    decreases p.len(),
{
    broadcast use encode_utf8_valid_utf8;

    if p.len() == 0 {
    } else {
        let bytes = encode_utf8(p + q);
        encode_utf8_first_scalar(p + q);
        assert((p + q)[0] == p[0]);
        assert((p + q).drop_first() =~= p.drop_first() + q);
        lemma_encode_concat(p.drop_first(), q);
        assert(pop_first_scalar(bytes) =~= encode_utf8(p.drop_first() + q));
        lemma_prefix_boundary(p.drop_first(), q);
        assert(encode_utf8(p) =~= encode_scalar(p[0] as u32) + encode_utf8(p.drop_first()));
    }
}

/// The number of bytes that `c` takes in UTF-8.
pub fn char_len(c: char) -> (w: usize)
    ensures
        w == char_width(c),
        1 <= w <= 4,
{
    proof {
        char_is_scalar(c);
    }
    let u = c as u32;
    if u <= 0x7f {
        1
    } else if u <= 0x7ff {
        2
    } else if u <= 0xffff {
        3
    } else {
        4
    }
}

/// Splits `s` after its first `k` characters, which take `n` bytes.
pub fn split_chars<'a>(s: &'a str, n: usize, k: Ghost<int>) -> (r: (&'a str, &'a str))
    requires
        0 <= k@ <= s@.len(),
        n == blen(s@.take(k@)),
    ensures
        r.0@ == s@.take(k@),
        r.1@ == s@.skip(k@),
{
    proof {
        assert(s@ =~= s@.take(k@) + s@.skip(k@));
        lemma_prefix_boundary(s@.take(k@), s@.skip(k@));
        lemma_encode_concat(s@.take(k@), s@.skip(k@));
    }
    let r = s.split_at(n);
    proof {
        let b = s.spec_bytes();
        assert(b.subrange(0, n as int) =~= encode_utf8(s@.take(k@)));
        assert(b.subrange(n as int, b.len() as int) =~= encode_utf8(s@.skip(k@)));
        lemma_view_from_bytes(r.0, s@.take(k@));
        lemma_view_from_bytes(r.1, s@.skip(k@));
    }
    r
}

/// Splits the first character off a non-empty string.
pub fn split_first<'a>(s: &'a str) -> (r: (char, &'a str))
    requires
        s@.len() > 0,
    ensures
        r.0 == s@[0],
        r.1@ == s@.drop_first(),
        blen(s@) == char_width(r.0) + blen(r.1@),
{
    let c = s.get_char(0);
    let w = char_len(c);
    proof {
        assert(s@.take(1) =~= seq![c]);
        lemma_blen_take_succ(s@, 0);
        assert(s@.take(0) =~= Seq::<char>::empty());
        lemma_blen_take_le(s@, 1);
    }
    let (_, rest) = split_chars(s, w, Ghost(1));
    (c, rest)
}

} // verus!
