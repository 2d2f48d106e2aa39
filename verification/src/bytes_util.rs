//! Byte-string helpers shared by the contribution model and the validator
//! directory: big-endian encoding of a view number, byte equality, and the
//! lexicographic order used to canonicalize the participant list.

use vstd::prelude::*;

verus! {

/// The eight big-endian bytes of a 64-bit view number.
pub open spec fn u64_be_bytes(v: u64) -> Seq<u8> {
    seq![
        ((v >> 56) & 0xff) as u8,
        ((v >> 48) & 0xff) as u8,
        ((v >> 40) & 0xff) as u8,
        ((v >> 32) & 0xff) as u8,
        ((v >> 24) & 0xff) as u8,
        ((v >> 16) & 0xff) as u8,
        ((v >> 8) & 0xff) as u8,
        (v & 0xff) as u8,
    ]
}

/// Distinct view numbers have distinct big-endian encodings.
pub proof fn lemma_u64_be_bytes_injective(a: u64, b: u64)
    ensures
        u64_be_bytes(a) == u64_be_bytes(b) ==> a == b,
{
    if u64_be_bytes(a) == u64_be_bytes(b) {
        assert(u64_be_bytes(a)[0] == u64_be_bytes(b)[0]);
        assert(u64_be_bytes(a)[1] == u64_be_bytes(b)[1]);
        assert(u64_be_bytes(a)[2] == u64_be_bytes(b)[2]);
        assert(u64_be_bytes(a)[3] == u64_be_bytes(b)[3]);
        assert(u64_be_bytes(a)[4] == u64_be_bytes(b)[4]);
        assert(u64_be_bytes(a)[5] == u64_be_bytes(b)[5]);
        assert(u64_be_bytes(a)[6] == u64_be_bytes(b)[6]);
        assert(u64_be_bytes(a)[7] == u64_be_bytes(b)[7]);
        assert({
            &&& ((a >> 56) & 0xff) as u8 == ((b >> 56) & 0xff) as u8
            &&& ((a >> 48) & 0xff) as u8 == ((b >> 48) & 0xff) as u8
            &&& ((a >> 40) & 0xff) as u8 == ((b >> 40) & 0xff) as u8
            &&& ((a >> 32) & 0xff) as u8 == ((b >> 32) & 0xff) as u8
            &&& ((a >> 24) & 0xff) as u8 == ((b >> 24) & 0xff) as u8
            &&& ((a >> 16) & 0xff) as u8 == ((b >> 16) & 0xff) as u8
            &&& ((a >> 8) & 0xff) as u8 == ((b >> 8) & 0xff) as u8
            &&& (a & 0xff) as u8 == (b & 0xff) as u8
        } ==> a == b) by (bit_vector);
    }
}

/// Big-endian encoding of a view number, as executable code.
pub fn view_be_bytes(v: u64) -> (r: Vec<u8>)
    ensures
        r@ == u64_be_bytes(v),
{
    let mut r: Vec<u8> = Vec::new();
    r.push(((v >> 56) & 0xff) as u8);
    r.push(((v >> 48) & 0xff) as u8);
    r.push(((v >> 40) & 0xff) as u8);
    r.push(((v >> 32) & 0xff) as u8);
    r.push(((v >> 24) & 0xff) as u8);
    r.push(((v >> 16) & 0xff) as u8);
    r.push(((v >> 8) & 0xff) as u8);
    r.push((v & 0xff) as u8);
    proof {
        assert(r@ =~= u64_be_bytes(v));
    }
    r
}

/// Byte-string equality, decided element by element.
pub fn bytes_eq(a: &Vec<u8>, b: &Vec<u8>) -> (r: bool)
    ensures
        r == (a@ == b@),
{
    if a.len() != b.len() {
        return false;
    }
    let mut i: usize = 0;
    while i < a.len()
        invariant
            i <= a@.len(),
            a@.len() == b@.len(),
            forall|j: int| 0 <= j < i ==> a@[j] == b@[j],
        decreases a@.len() - i,
    {
        if a[i] != b[i] {
            assert(a@ != b@);
            return false;
        }
        i += 1;
    }
    proof {
        assert(a@ =~= b@);
    }
    true
}

/// The byte forms of a list of byte vectors.
pub open spec fn key_views(s: Seq<Vec<u8>>) -> Seq<Seq<u8>> {
    s.map_values(|p: Vec<u8>| p@)
}

/// A copy of a byte vector.
pub fn clone_bytes(v: &Vec<u8>) -> (r: Vec<u8>)
    ensures
        r@ == v@,
{
    let mut r: Vec<u8> = Vec::new();
    let mut i: usize = 0;
    while i < v.len()
        invariant
            i <= v@.len(),
            r@ == v@.take(i as int),
        decreases v@.len() - i,
    {
        r.push(v[i]);
        proof {
            assert(r@ =~= v@.take(i + 1));
        }
        i += 1;
    }
    proof {
        assert(v@.take(v@.len() as int) =~= v@);
    }
    r
}

/// Lexicographic order on byte strings: the order in which the participant
/// list is canonicalized, identical on every process.
pub open spec fn lex_le(a: Seq<u8>, b: Seq<u8>) -> bool
    decreases a.len(),
{
    if a.len() == 0 {
        true
    } else if b.len() == 0 {
        false
    } else if a[0] < b[0] {
        true
    } else if a[0] > b[0] {
        false
    } else {
        lex_le(a.drop_first(), b.drop_first())
    }
}

/// The lexicographic order is total.
pub proof fn lemma_lex_le_total(a: Seq<u8>, b: Seq<u8>)
    ensures
        lex_le(a, b) || lex_le(b, a),
    decreases a.len(),
{
    if a.len() != 0 && b.len() != 0 && a[0] == b[0] {
        lemma_lex_le_total(a.drop_first(), b.drop_first());
    }
}

/// The lexicographic order is transitive.
pub proof fn lemma_lex_le_transitive(a: Seq<u8>, b: Seq<u8>, c: Seq<u8>)
    ensures
        lex_le(a, b) && lex_le(b, c) ==> lex_le(a, c),
    decreases a.len(),
{
    if a.len() != 0 && b.len() != 0 && c.len() != 0 && lex_le(a, b) && lex_le(b, c) {
        if a[0] == b[0] && b[0] == c[0] {
            lemma_lex_le_transitive(a.drop_first(), b.drop_first(), c.drop_first());
        }
    }
}

/// Equal prefixes leave the order to the suffixes.
proof fn lemma_lex_le_common_prefix(a: Seq<u8>, b: Seq<u8>, i: int)
    requires
        0 <= i <= a.len(),
        i <= b.len(),
        forall|j: int| 0 <= j < i ==> a[j] == b[j],
    ensures
        lex_le(a, b) == lex_le(a.skip(i), b.skip(i)),
    decreases i,
{
    if i > 0 {
        assert(a.len() != 0 && b.len() != 0 && a[0] == b[0]);
        lemma_lex_le_common_prefix(a.drop_first(), b.drop_first(), i - 1);
        assert(a.drop_first().skip(i - 1) =~= a.skip(i));
        assert(b.drop_first().skip(i - 1) =~= b.skip(i));
    } else {
        assert(a.skip(0) =~= a);
        assert(b.skip(0) =~= b);
    }
}

/// Lexicographic comparison, decided byte by byte.
pub fn bytes_le(a: &Vec<u8>, b: &Vec<u8>) -> (r: bool)
    ensures
        r == lex_le(a@, b@),
{
    let mut i: usize = 0;
    while i < a.len() && i < b.len()
        invariant
            i <= a@.len(),
            i <= b@.len(),
            forall|j: int| 0 <= j < i ==> a@[j] == b@[j],
        decreases a@.len() - i,
    {
        if a[i] < b[i] {
            proof {
                lemma_lex_le_common_prefix(a@, b@, i as int);
            }
            return true;
        }
        if a[i] > b[i] {
            proof {
                lemma_lex_le_common_prefix(a@, b@, i as int);
            }
            return false;
        }
        i += 1;
    }
    proof {
        lemma_lex_le_common_prefix(a@, b@, i as int);
    }
    a.len() <= b.len()
}

} // verus!
