//! Small verified helpers on text.
use vstd::prelude::*;
use vstd::string::StringSliceAdditionalSpecFns;
use vstd::utf8::*;

verus! {

broadcast use vstd::utf8::encode_utf8_decode_utf8, vstd::utf8::encode_utf8_valid_utf8;

/// The text that the UTF-8 bytes of `b` between offsets `lo` and `hi` encode.
pub open spec fn text_of_bytes(b: Seq<u8>, lo: int, hi: int) -> Seq<char> {
    decode_utf8(b.subrange(lo, hi))
}

/// Splits `s` at the byte offset `mid`, which must fall on a character boundary.
pub fn split_text(s: &str, mid: usize) -> (r: (&str, &str))
    requires
        is_char_boundary(s.spec_bytes(), mid as int),
    ensures
        r.0@ + r.1@ == s@,
        mid <= s.spec_bytes().len(),
        r.0@ == text_of_bytes(s.spec_bytes(), 0, mid as int),
        r.1@ == text_of_bytes(s.spec_bytes(), mid as int, s.spec_bytes().len() as int),
        r.0.spec_bytes() == s.spec_bytes().subrange(0, mid as int),
        r.1.spec_bytes() == s.spec_bytes().subrange(mid as int, s.spec_bytes().len() as int),
{
    let ghost b = s.spec_bytes();
    proof {
        if mid > 0 {
            assert(mid <= b.len()) by {
                reveal_with_fuel(is_char_boundary, 2);
            }
        }
        decode_utf8_split(b, mid as int);
        assert(decode_utf8(b) == s@);
    }
    let (x, y) = s.split_at(mid);
    proof {
        assert(decode_utf8(x.spec_bytes()) == x@);
        assert(decode_utf8(y.spec_bytes()) == y@);
    }
    (x, y)
}

/// Whether `s` begins with `p`.
pub fn has_prefix(s: &str, p: &str) -> (r: bool)
    ensures
        r == (p@.len() <= s@.len() && s@.subrange(0, p@.len() as int) == p@),
        r ==> is_char_boundary(s.spec_bytes(), p.spec_bytes().len() as int),
        r ==> s.spec_bytes().subrange(0, p.spec_bytes().len() as int) == p.spec_bytes(),
{
    let n = p.as_bytes().len();
    if !s.is_char_boundary(n) {
        proof {
            lemma_prefix_boundary(s@, p@);
        }
        return false;
    }
    let (head, _tail) = split_text(s, n);
    proof {
        lemma_prefix_boundary(s@, p@);
        if p@.len() <= s@.len() && s@.subrange(0, p@.len() as int) == p@ {
            assert(head.spec_bytes() == p.spec_bytes());
        } else if head@ == p@ {
            assert(s@.subrange(0, p@.len() as int) =~= p@);
        }
    }
    same_text(head, p)
}

/// The UTF-8 encoding of a concatenation is the concatenation of the encodings.
pub proof fn lemma_encode_concat(a: Seq<char>, b: Seq<char>)
    ensures
        encode_utf8(a + b) == encode_utf8(a) + encode_utf8(b),
    decreases a.len(),
{
    if a.len() == 0 {
        assert(a + b =~= b);
    } else {
        assert((a + b).drop_first() =~= a.drop_first() + b);
        lemma_encode_concat(a.drop_first(), b);
    }
}

/// Where `s` begins with `p`, the encoding of `p` ends on a character boundary of the encoding
/// of `s`.
proof fn lemma_prefix_boundary(s: Seq<char>, p: Seq<char>)
    ensures
        p.len() <= s.len() && s.subrange(0, p.len() as int) == p ==> {
            &&& is_char_boundary(encode_utf8(s), encode_utf8(p).len() as int)
            &&& encode_utf8(s).subrange(0, encode_utf8(p).len() as int) == encode_utf8(p)
        },
{
    if p.len() <= s.len() && s.subrange(0, p.len() as int) == p {
        let rest = s.subrange(p.len() as int, s.len() as int);
        assert(s =~= p + rest);
        lemma_encode_concat(p, rest);
        assert(encode_utf8(s).subrange(0, encode_utf8(p).len() as int) =~= encode_utf8(p));
        lemma_boundary_after(p, rest);
    }
}

/// The end of the encoding of `p` is a character boundary of the encoding of `p + q`.
proof fn lemma_boundary_after(p: Seq<char>, q: Seq<char>)
    ensures
        is_char_boundary(encode_utf8(p + q), encode_utf8(p).len() as int),
    decreases p.len(),
{
    lemma_encode_concat(p, q);
    if p.len() > 0 {
        let b = encode_utf8(p + q);
        assert((p + q).drop_first() =~= p.drop_first() + q);
        encode_utf8_first_scalar(p + q);
        assert(pop_first_scalar(b) =~= encode_utf8((p + q).drop_first()));
        lemma_boundary_after(p.drop_first(), q);
        encode_utf8_first_scalar(p);
    }
}

/// Compares two strings by their bytes, which decides equality of their characters.
pub fn same_text(a: &str, b: &str) -> (r: bool)
    ensures
        r == (a@ == b@),
{
    let ab = a.as_bytes();
    let bb = b.as_bytes();
    if ab.len() != bb.len() {
        return false;
    }
    let mut i: usize = 0;
    while i < ab.len()
        invariant
            ab@ == encode_utf8(a@),
            bb@ == encode_utf8(b@),
            ab@.len() == bb@.len(),
            0 <= i <= ab@.len(),
            forall|k: int| 0 <= k < i ==> ab@[k] == bb@[k],
        decreases ab@.len() - i,
    {
        if ab[i] != bb[i] {
            return false;
        }
        i = i + 1;
    }
    assert(ab@ =~= bb@);
    assert(decode_utf8(encode_utf8(a@)) == a@);
    assert(decode_utf8(encode_utf8(b@)) == b@);
    true
}

} // verus!
