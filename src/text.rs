//! Character-level views of UTF-8 text: byte offsets of characters and
//! slicing a `&str` by character positions.
use vstd::prelude::*;
use vstd::string::*;
use vstd::utf8::*;

verus! {

broadcast use {vstd::seq::group_seq_axioms, vstd::seq_lib::group_seq_properties};

/// The bytes of the first `i` characters of `cs`.
pub open spec fn prefix_bytes(cs: Seq<char>, i: int) -> nat {
    encode_utf8(cs.subrange(0, i)).len()
}

/// The window of `cs` that starts at character `start` and holds up to `k`
/// characters, clipped at the end of the sequence.
pub open spec fn clipped_window(cs: Seq<char>, start: int, k: int) -> Seq<char> {
    let a = if start < cs.len() { start } else { cs.len() as int };
    let b = if start + k < cs.len() { start + k } else { cs.len() as int };
    cs.subrange(a, b)
}

/// Encoding distributes over concatenation.
pub proof fn lemma_encode_concat(a: Seq<char>, b: Seq<char>)
    ensures
        encode_utf8(a + b) == encode_utf8(a) + encode_utf8(b),
    decreases a.len(),
{
    if a.len() == 0 {
        assert(a + b =~= b);
        assert(encode_utf8(a) =~= Seq::<u8>::empty());
        assert(encode_utf8(a) + encode_utf8(b) =~= encode_utf8(b));
    } else {
        assert((a + b).drop_first() =~= a.drop_first() + b);
        assert((a + b)[0] == a[0]);
        lemma_encode_concat(a.drop_first(), b);
        assert(encode_utf8(a) + encode_utf8(b) =~= encode_scalar(a[0] as u32) + (encode_utf8(
            a.drop_first(),
        ) + encode_utf8(b)));
    }
}

/// The encoding of `cs` splits at the encoding of its first `i` characters.
pub proof fn lemma_encode_split(cs: Seq<char>, i: int)
    requires
        0 <= i <= cs.len(),
    ensures
        encode_utf8(cs) == encode_utf8(cs.subrange(0, i)) + encode_utf8(
            cs.subrange(i, cs.len() as int),
        ),
        encode_utf8(cs).subrange(0, prefix_bytes(cs, i) as int) == encode_utf8(cs.subrange(0, i)),
        encode_utf8(cs).subrange(prefix_bytes(cs, i) as int, encode_utf8(cs).len() as int)
            == encode_utf8(cs.subrange(i, cs.len() as int)),
{
    assert(cs =~= cs.subrange(0, i) + cs.subrange(i, cs.len() as int));
    lemma_encode_concat(cs.subrange(0, i), cs.subrange(i, cs.len() as int));
    let e = encode_utf8(cs);
    let p = encode_utf8(cs.subrange(0, i));
    let q = encode_utf8(cs.subrange(i, cs.len() as int));
    assert(e.subrange(0, p.len() as int) =~= p);
    assert(e.subrange(p.len() as int, e.len() as int) =~= q);
}

/// Prefix offsets grow by the width of each character.
pub proof fn lemma_prefix_bytes_step(cs: Seq<char>, i: int)
    requires
        0 <= i < cs.len(),
    ensures
        prefix_bytes(cs, i + 1) == prefix_bytes(cs, i) + encode_scalar(cs[i] as u32).len(),
{
    let a = cs.subrange(0, i);
    assert(cs.subrange(0, i + 1) =~= a + seq![cs[i]]);
    lemma_encode_concat(a, seq![cs[i]]);
    let one = seq![cs[i]];
    assert(one.drop_first() =~= Seq::<char>::empty());
    assert(encode_utf8(one.drop_first()) =~= Seq::<u8>::empty());
    assert(encode_utf8(one) == encode_scalar(one[0] as u32) + encode_utf8(one.drop_first()));
    assert(encode_utf8(one) =~= encode_scalar(cs[i] as u32));
}

/// Prefix offsets are monotone and bounded by the whole encoding.
pub proof fn lemma_prefix_bytes_mono(cs: Seq<char>, i: int, j: int)
    requires
        0 <= i <= j <= cs.len(),
    ensures
        prefix_bytes(cs, i) <= prefix_bytes(cs, j) <= encode_utf8(cs).len(),
        prefix_bytes(cs, cs.len() as int) == encode_utf8(cs).len(),
        i < j ==> prefix_bytes(cs, i) < prefix_bytes(cs, j),
    decreases j - i,
{
    assert(cs.subrange(0, cs.len() as int) =~= cs);
    lemma_encode_split(cs, j);
    if i < j {
        lemma_prefix_bytes_step(cs, j - 1);
        assert(encode_scalar(cs[j - 1] as u32).len() > 0) by {
            char_is_scalar(cs[j - 1]);
        }
        lemma_prefix_bytes_mono(cs, i, j - 1);
    }
}

/// The end of an encoded prefix is a character boundary.
pub proof fn lemma_prefix_is_boundary(a: Seq<char>, b: Seq<char>)
    ensures
        is_char_boundary(encode_utf8(a + b), encode_utf8(a).len() as int),
    decreases a.len(),
{
    broadcast use encode_utf8_valid_utf8;

    if a.len() == 0 {
    } else {
        let ab = a + b;
        lemma_encode_concat(a, b);
        encode_utf8_first_scalar(ab);
        assert(ab[0] == a[0]);
        assert(ab.drop_first() =~= a.drop_first() + b);
        let bytes = encode_utf8(ab);
        assert(pop_first_scalar(bytes) =~= encode_utf8(ab.drop_first()));
        lemma_prefix_is_boundary(a.drop_first(), b);
        char_is_scalar(a[0]);
    }
}

/// Every prefix offset of a sequence is a character boundary of its encoding.
pub proof fn lemma_prefix_bytes_boundary(cs: Seq<char>, i: int)
    requires
        0 <= i <= cs.len(),
    ensures
        is_char_boundary(encode_utf8(cs), prefix_bytes(cs, i) as int),
{
    assert(cs =~= cs.subrange(0, i) + cs.subrange(i, cs.len() as int));
    lemma_prefix_is_boundary(cs.subrange(0, i), cs.subrange(i, cs.len() as int));
}

/// The bytes between two prefix offsets encode the characters between them.
pub proof fn lemma_window_bytes(cs: Seq<char>, i: int, j: int)
    requires
        0 <= i <= j <= cs.len(),
    ensures
        encode_utf8(cs).subrange(prefix_bytes(cs, i) as int, prefix_bytes(cs, j) as int)
            == encode_utf8(cs.subrange(i, j)),
{
    let pre = cs.subrange(0, j);
    assert(pre.subrange(0, i) =~= cs.subrange(0, i));
    assert(pre.subrange(i, j) =~= cs.subrange(i, j));
    lemma_encode_split(pre, i);
    lemma_encode_split(cs, j);
    assert(pre.subrange(0, pre.len() as int) =~= pre);
    let e = encode_utf8(cs);
    let ep = encode_utf8(pre);
    assert(e.subrange(prefix_bytes(cs, i) as int, prefix_bytes(cs, j) as int) =~= ep.subrange(
        prefix_bytes(cs, i) as int,
        ep.len() as int,
    ));
}

/// Two character sequences are equal exactly when their encodings are.
pub proof fn lemma_encode_injective(a: Seq<char>, b: Seq<char>)
    ensures
        (encode_utf8(a) == encode_utf8(b)) <==> (a == b),
{
    if encode_utf8(a) == encode_utf8(b) {
        encode_utf8_decode_utf8(a);
        encode_utf8_decode_utf8(b);
    }
}

/// The number of bytes that the character starting at `p` takes, read from
/// its leading byte.
pub fn char_width_at(bytes: &[u8], p: usize, Ghost(cs): Ghost<Seq<char>>, Ghost(j): Ghost<int>) -> (w: usize)
    requires
        bytes@ == encode_utf8(cs),
        0 <= j < cs.len(),
        p == prefix_bytes(cs, j),
    ensures
        w == encode_scalar(cs[j] as u32).len(),
        p + w == prefix_bytes(cs, j + 1),
        p + w <= bytes@.len(),
{
    proof {
        lemma_encode_split(cs, j);
        lemma_prefix_bytes_step(cs, j);
        lemma_prefix_bytes_mono(cs, j + 1, cs.len() as int);
        let rest = cs.subrange(j, cs.len() as int);
        encode_utf8_first_scalar(rest);
        assert(rest[0] == cs[j]);
        assert(encode_utf8(rest)[0] == bytes@[p as int]);
    }
    let b = bytes[p];
    if b <= 0x7f {
        1
    } else if b <= 0xdf {
        2
    } else if b <= 0xef {
        3
    } else {
        4
    }
}

/// The part of `s` between two character positions, found from their byte
/// offsets.
pub fn slice_between<'a>(
    s: &'a str,
    start: usize,
    end: usize,
    Ghost(i): Ghost<int>,
    Ghost(j): Ghost<int>,
) -> (r: &'a str)
    requires
        0 <= i <= j <= s@.len(),
        start == prefix_bytes(s@, i),
        end == prefix_bytes(s@, j),
    ensures
        r@ == s@.subrange(i, j),
{
    proof {
        lemma_prefix_bytes_boundary(s@, j);
        lemma_prefix_bytes_mono(s@, i, j);
        lemma_encode_split(s@, j);
    }
    let (head, _) = s.split_at(end);
    proof {
        let pre = s@.subrange(0, j);
        assert(head.spec_bytes() == encode_utf8(pre));
        lemma_encode_injective(head@, pre);
        assert(pre.subrange(0, i) =~= s@.subrange(0, i));
        lemma_prefix_bytes_boundary(pre, i);
    }
    let (_, r) = head.split_at(start);
    proof {
        let pre = s@.subrange(0, j);
        lemma_window_bytes(pre, i, j);
        lemma_prefix_bytes_mono(pre, i, j);
        assert(pre.subrange(0, pre.len() as int) =~= pre);
        assert(pre.subrange(i, j) =~= s@.subrange(i, j));
        lemma_encode_injective(r@, s@.subrange(i, j));
    }
    r
}

} // verus!
