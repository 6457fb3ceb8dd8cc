//! The order of relative paths.
//!
//! Paths are compared component by component, and components byte by byte.
//! For paths written with single forward slashes this is the same as
//! comparing the paths' UTF-8 bytes with the slash ranked below every other
//! byte: `a/b` sorts before `a.b`, because `a` is a proper prefix of `a.b`.

use vstd::prelude::*;
use vstd::utf8::encode_utf8;

verus! {

/// The rank of a byte in the order of paths: the separator first, then the
/// other bytes by value.
pub open spec fn spec_rank(byte: u8) -> int {
    if byte == 0x2f {
        0
    } else {
        byte as int + 1
    }
}

/// Computes the rank of a byte.
pub fn rank(byte: u8) -> (r: u16)
    ensures
        r == spec_rank(byte),
{
    if byte == 0x2f {
        0
    } else {
        byte as u16 + 1
    }
}

/// Lexicographic order of byte strings by rank: `a` is a prefix of `b`, or
/// the first byte in which they differ ranks lower in `a`.
pub open spec fn bytes_le(a: Seq<u8>, b: Seq<u8>) -> bool
    decreases a.len(),
{
    if a.len() == 0 {
        true
    } else if b.len() == 0 {
        false
    } else if a[0] != b[0] {
        spec_rank(a[0]) < spec_rank(b[0])
    } else {
        bytes_le(a.skip(1), b.skip(1))
    }
}

/// The order of paths: `a` comes before `b` or is the same path.
pub open spec fn path_le(a: Seq<char>, b: Seq<char>) -> bool {
    bytes_le(encode_utf8(a), encode_utf8(b))
}

/// Any two byte strings are ordered one way or the other.
pub proof fn lemma_bytes_le_total(a: Seq<u8>, b: Seq<u8>)
    ensures
        bytes_le(a, b) || bytes_le(b, a),
    decreases a.len(),
{
    if a.len() > 0 && b.len() > 0 && a[0] == b[0] {
        lemma_bytes_le_total(a.skip(1), b.skip(1));
    }
}

/// The order of byte strings is transitive.
pub proof fn lemma_bytes_le_transitive(a: Seq<u8>, b: Seq<u8>, c: Seq<u8>)
    requires
        bytes_le(a, b),
        bytes_le(b, c),
    ensures
        bytes_le(a, c),
    decreases a.len(),
{
    if a.len() > 0 {
        if a[0] == b[0] && b[0] == c[0] {
            lemma_bytes_le_transitive(a.skip(1), b.skip(1), c.skip(1));
        }
    }
}

/// Two byte strings that are ordered both ways are equal.
pub proof fn lemma_bytes_le_antisymmetric(a: Seq<u8>, b: Seq<u8>)
    requires
        bytes_le(a, b),
        bytes_le(b, a),
    ensures
        a == b,
    decreases a.len(),
{
    if a.len() > 0 {
        lemma_bytes_le_antisymmetric(a.skip(1), b.skip(1));
        assert(a =~= seq![a[0]] + a.skip(1));
        assert(b =~= seq![b[0]] + b.skip(1));
    } else {
        assert(a =~= b);
    }
}

/// The order of paths is total.
pub proof fn lemma_path_le_total(a: Seq<char>, b: Seq<char>)
    ensures
        path_le(a, b) || path_le(b, a),
{
    lemma_bytes_le_total(encode_utf8(a), encode_utf8(b));
}

/// The order of paths is transitive.
pub proof fn lemma_path_le_transitive(a: Seq<char>, b: Seq<char>, c: Seq<char>)
    requires
        path_le(a, b),
        path_le(b, c),
    ensures
        path_le(a, c),
{
    lemma_bytes_le_transitive(encode_utf8(a), encode_utf8(b), encode_utf8(c));
}

/// Decides the order of two byte strings.
pub fn bytes_before_or_equal(a: &[u8], b: &[u8]) -> (le: bool)
    ensures
        le == bytes_le(a@, b@),
{
    let mut i: usize = 0;
    proof {
        assert(a@.skip(0) =~= a@);
        assert(b@.skip(0) =~= b@);
    }
    while i < a.len() && i < b.len()
        invariant
            i <= a@.len(),
            i <= b@.len(),
            bytes_le(a@, b@) == bytes_le(a@.skip(i as int), b@.skip(i as int)),
        decreases a@.len() - i,
    {
        proof {
            assert(a@.skip(i as int)[0] == a@[i as int]);
            assert(b@.skip(i as int)[0] == b@[i as int]);
            assert(a@.skip(i as int).skip(1) =~= a@.skip(i + 1));
            assert(b@.skip(i as int).skip(1) =~= b@.skip(i + 1));
        }
        if a[i] != b[i] {
            return rank(a[i]) < rank(b[i]);
        }
        i += 1;
    }
    i == a.len()
}

/// Decides the order of two paths.
pub fn path_before_or_equal(a: &String, b: &String) -> (le: bool)
    ensures
        le == path_le(a@, b@),
{
    bytes_before_or_equal(a.as_str().as_bytes(), b.as_str().as_bytes())
}

} // verus!
