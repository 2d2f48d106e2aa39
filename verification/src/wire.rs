//! The peer-to-peer wire format: a contribution travels as one
//! length-delimited message holding one opaque byte field, in protocol
//! buffer framing (tag `0x0a`, base-128 varint lengths).
//!
//! The decoder accepts exactly the encoder's output: after parsing it
//! re-encodes what it found and compares, so only canonical frames decode.

use vstd::prelude::*;
use crate::bytes_util::{bytes_eq, clone_bytes};

verus! {

/// The largest payload the wire accepts.
pub const MAX_WIRE_DATA: usize = 0x3FFFFFFF;

/// The base-128 varint encoding of `n`, least significant group first.
pub open spec fn varint(n: nat) -> Seq<u8>
    decreases n,
{
    if n < 128 {
        seq![n as u8]
    } else {
        seq![(128 + (n % 128)) as u8] + varint(n / 128)
    }
}

/// 128 to the power `k`.
pub open spec fn pow128(k: nat) -> nat
    decreases k,
{
    if k == 0 {
        1
    } else {
        128 * pow128((k - 1) as nat)
    }
}

/// A value below `128^k` encodes in at most `k` bytes.
pub proof fn lemma_varint_len_le(n: nat, k: nat)
    requires
        k >= 1,
        n < pow128(k),
    ensures
        varint(n).len() <= k,
    decreases k,
{
    if n >= 128 {
        assert(pow128(k) == 128 * pow128((k - 1) as nat));
        assert(n / 128 < pow128((k - 1) as nat)) by (nonlinear_arith)
            requires
                n < 128 * pow128((k - 1) as nat),
        ;
        assert(k - 1 >= 1) by {
            assert(pow128(0) == 1);
            assert(pow128(1) == 128);
        }
        lemma_varint_len_le(n / 128, (k - 1) as nat);
    }
}

/// What a greedy varint parse of `s` yields: the value and the number of
/// bytes consumed, or nothing when `s` ends inside a varint.
pub open spec fn parse_varint_spec(s: Seq<u8>) -> Option<(nat, nat)>
    decreases s.len(),
{
    if s.len() == 0 {
        None
    } else if s[0] < 128 {
        Some((s[0] as nat, 1nat))
    } else {
        match parse_varint_spec(s.drop_first()) {
            None => None,
            Some((v, c)) => Some(((s[0] - 128) as nat + 128 * v, c + 1)),
        }
    }
}

/// Parsing an encoding, whatever follows it, recovers the encoded value and
/// consumes exactly the encoding.
pub proof fn lemma_parse_of_varint(v: nat, rest: Seq<u8>)
    ensures
        parse_varint_spec(varint(v) + rest) == Some((v, varint(v).len())),
    decreases v,
{
    let s = varint(v) + rest;
    if v < 128 {
        assert(s[0] == v as u8);
    } else {
        assert(s[0] == (128 + (v % 128)) as u8);
        assert(s[0] >= 128);
        lemma_parse_of_varint(v / 128, rest);
        assert(s.drop_first() =~= varint(v / 128) + rest);
        assert((s[0] - 128) as nat + 128 * (v / 128) == v) by (nonlinear_arith)
            requires
                s[0] == (128 + (v % 128)) as u8,
        ;
    }
}

/// Encode `n` as a varint.
pub fn encode_varint(n: usize) -> (r: Vec<u8>)
    ensures
        r@ == varint(n as nat),
{
    let mut r: Vec<u8> = Vec::new();
    let mut m: usize = n;
    #[verifier::loop_isolation(false)]
    while m >= 128
        invariant
            varint(n as nat) == r@ + varint(m as nat),
        decreases m,
    {
        r.push(((m % 128) + 128) as u8);
        proof {
            assert(varint(m as nat) =~= seq![(128 + (m as nat % 128)) as u8] + varint(
                m as nat / 128,
            ));
            assert(r@ + varint(m as nat / 128) =~= varint(n as nat));
        }
        m = m / 128;
    }
    r.push(m as u8);
    proof {
        assert(varint(m as nat) =~= seq![m as u8]);
        assert(r@ =~= varint(n as nat));
    }
    r
}

/// Parse a varint out of `buf` starting at `start`: the value and the
/// position just past it. Rejects varints longer than ten bytes or wider
/// than this machine's word.
fn parse_varint(buf: &Vec<u8>, start: usize) -> (r: Option<(usize, usize)>)
    requires
        start <= buf@.len(),
    ensures
        r matches Some(p) ==> start < p.1 <= buf@.len(),
        parse_varint_spec(buf@.skip(start as int)) matches Some(vc) ==> ((vc.0 <= usize::MAX
            && vc.1 <= 10) ==> (r matches Some(p) && p.0 == vc.0 && p.1 == start + vc.1)),
{
    let ghost outer = parse_varint_spec(buf@.skip(start as int));
    let mut acc: u128 = 0;
    let mut mult: u128 = 1;
    let mut i: usize = 0;
    let ghost mut vi: nat = match outer {
        Some(vc) => vc.0,
        None => 0nat,
    };
    proof {
        assert(pow128(0) == 1);
        assert(pow128(1) == 128);
        assert(pow128(2) == 16384);
        assert(pow128(3) == 2097152);
        assert(pow128(4) == 268435456);
        assert(pow128(5) == 34359738368);
        assert(pow128(6) == 4398046511104);
        assert(pow128(7) == 562949953421312);
        assert(pow128(8) == 72057594037927936);
        assert(pow128(9) == 9223372036854775808);
        assert(pow128(10) == 1180591620717411303424);
        if let Some(vc) = outer {
            assert(acc + mult * vi == vc.0) by (nonlinear_arith)
                requires
                    acc == 0,
                    mult == 1,
                    vi == vc.0,
            ;
        }
    }
    #[verifier::loop_isolation(false)]
    while i < 10
        invariant
            i <= 10,
            start + i <= usize::MAX,
            mult == pow128(i as nat),
            acc < mult,
            mult <= pow128(10),
            outer matches Some(vc) ==> (vc.1 <= 10 ==> {
                &&& i < vc.1
                &&& start + i < buf@.len()
                &&& parse_varint_spec(buf@.skip(start + i)) == Some((vi, (vc.1 - i) as nat))
                &&& vc.0 == acc + mult * vi
            }),
        decreases 10 - i,
    {
        if start + i >= buf.len() {
            proof {
                if let Some(vc) = outer {
                    if vc.1 <= 10 {
                        assert(start + i < buf@.len());
                    }
                }
            }
            return None;
        }
        let b = buf[start + i];
        let ghost tail = buf@.skip(start + i);
        proof {
            assert(tail[0] == b);
            assert(tail.drop_first() =~= buf@.skip(start + i + 1));
        }
        if b < 128 {
            proof {
                assert(acc + mult * (b as u128) < mult * 128 && mult * 128
                    <= 151115727451828646838272) by (nonlinear_arith)
                    requires
                        acc < mult,
                        b < 128,
                        mult <= 1180591620717411303424,
                ;
            }
            let val: u128 = acc + mult * (b as u128);
            proof {
                assert(parse_varint_spec(tail) == Some((b as nat, 1nat)));
                if let Some(vc) = outer {
                    if vc.1 <= 10 {
                        assert(vi == b as nat && vc.1 - i == 1);
                        assert(vc.0 == val);
                    }
                }
            }
            if val > usize::MAX as u128 {
                return None;
            }
            return Some((val as usize, start + i + 1));
        }
        let ghost vi_next: nat = match parse_varint_spec(buf@.skip(start + i + 1)) {
            Some(p) => p.0,
            None => 0nat,
        };
        proof {
            assert(parse_varint_spec(tail) == (match parse_varint_spec(tail.drop_first()) {
                None => None,
                Some((v, c)) => Some(((b - 128) as nat + 128 * v, c + 1)),
            }));
            if let Some(vc) = outer {
                if vc.1 <= 10 {
                    let inner = parse_varint_spec(tail.drop_first());
                    assert(inner is Some);
                    let ivc = inner->0;
                    assert(vi_next == ivc.0);
                    assert(vi == (b - 128) as nat + 128 * vi_next);
                    assert(ivc.1 == (vc.1 - (i + 1)) as nat);
                    let bb: int = b as int - 128;
                    assert((b - 128) as u128 == bb);
                    assert(vc.0 == (acc + mult * bb) + (mult * 128) * vi_next)
                        by (nonlinear_arith)
                        requires
                            vc.0 == acc + mult * vi,
                            vi == bb + 128 * vi_next,
                    ;
                    assert(i + 1 < vc.1) by {
                        if i + 1 == vc.1 {
                            assert(parse_varint_spec(buf@.skip(start + i + 1)) == Some((
                                vi_next,
                                0nat,
                            )));
                            lemma_parse_consumes(buf@.skip(start + i + 1));
                        }
                    }
                    assert(start + i + 1 < buf@.len()) by {
                        lemma_parse_consumes(buf@.skip(start + i + 1));
                    }
                }
            }
            assert(acc + mult * ((b - 128) as u128) < mult * 128) by (nonlinear_arith)
                requires
                    acc < mult,
                    b >= 128,
                    b < 256,
            ;
            assert(mult * 128 <= pow128(9) * 128) by (nonlinear_arith)
                requires
                    mult <= pow128(9),
            ;
        }
        acc = acc + mult * ((b - 128) as u128);
        mult = mult * 128;
        proof {
            vi = vi_next;
        }
        i += 1;
    }
    proof {
        if let Some(vc) = outer {
            if vc.1 <= 10 {
                assert(i < vc.1);
            }
        }
    }
    None
}

/// A successful parse consumes at least one byte, and no more than there
/// are.
proof fn lemma_parse_consumes(s: Seq<u8>)
    ensures
        parse_varint_spec(s) matches Some(vc) ==> 1 <= vc.1 <= s.len(),
    decreases s.len(),
{
    if s.len() > 0 && s[0] >= 128 {
        lemma_parse_consumes(s.drop_first());
    }
}

/// The full frame carrying `data`: an outer length-delimited field holding
/// an inner length-delimited field holding the bytes themselves.
pub open spec fn frame_bytes(data: Seq<u8>) -> Seq<u8> {
    let inner = seq![0x0au8] + varint(data.len()) + data;
    seq![0x0au8] + varint(inner.len()) + inner
}

/// Encode `data` as one wire frame.
pub fn encode_put_mini_block(data: &Vec<u8>) -> (r: Vec<u8>)
    requires
        data@.len() <= MAX_WIRE_DATA,
    ensures
        r@ == frame_bytes(data@),
{
    proof {
        assert(pow128(0) == 1);
        assert(pow128(1) == 128);
        assert(pow128(2) == 16384);
        assert(pow128(3) == 2097152);
        assert(pow128(4) == 268435456);
        assert(pow128(5) == 34359738368);
        lemma_varint_len_le(data@.len(), 5);
    }
    let mut v2 = encode_varint(data.len());
    let inner_len = 1 + v2.len() + data.len();
    proof {
        lemma_varint_len_le(inner_len as nat, 5);
    }
    let mut v1 = encode_varint(inner_len);
    let mut r: Vec<u8> = Vec::new();
    r.push(0x0au8);
    r.append(&mut v1);
    r.push(0x0au8);
    r.append(&mut v2);
    let mut payload = clone_bytes(data);
    r.append(&mut payload);
    proof {
        assert(r@ =~= frame_bytes(data@));
    }
    r
}

/// Where each piece of a frame sits.
proof fn lemma_frame_shape(buf: Seq<u8>, d: Seq<u8>)
    requires
        buf == frame_bytes(d),
    ensures
        ({
            let vlen2 = varint(d.len()).len();
            let inner_len = 1 + vlen2 + d.len();
            let vlen1 = varint(inner_len as nat).len();
            &&& buf.len() == 1 + vlen1 + inner_len
            &&& buf.len() >= 4
            &&& buf[0] == 0x0au8
            &&& parse_varint_spec(buf.skip(1)) == Some((inner_len as nat, vlen1))
            &&& buf[(1 + vlen1) as int] == 0x0au8
            &&& parse_varint_spec(buf.skip((2 + vlen1) as int)) == Some((d.len(), vlen2))
            &&& buf.skip((2 + vlen1 + vlen2) as int) =~= d
        }),
{
    let inner = seq![0x0au8] + varint(d.len()) + d;
    let vlen2 = varint(d.len()).len() as int;
    let inner_len = 1 + vlen2 + d.len();
    let vlen1 = varint(inner_len as nat).len() as int;
    lemma_parse_consumes(varint(d.len()));
    lemma_parse_consumes(varint(inner_len as nat));
    lemma_parse_of_varint(d.len(), seq![0u8]);
    lemma_parse_of_varint(inner_len as nat, seq![0u8]);
    assert(buf.skip(1) =~= varint(inner_len as nat) + inner);
    lemma_parse_of_varint(inner_len as nat, inner);
    assert(buf.skip(2 + vlen1) =~= varint(d.len()) + d);
    lemma_parse_of_varint(d.len(), d);
    assert(buf.skip(2 + vlen1 + vlen2) =~= d);
    assert(buf[1 + vlen1] == inner[0]);
}

/// Decode one wire frame. Exactly the canonical frames of payloads within
/// the size limit decode, to exactly their payload; everything else is
/// rejected.
pub fn decode_put_mini_block(buf: &Vec<u8>) -> (r: Option<Vec<u8>>)
    ensures
        r matches Some(d) ==> buf@ == frame_bytes(d@) && d@.len() <= MAX_WIRE_DATA,
        forall|d: Seq<u8>|
            d.len() <= MAX_WIRE_DATA && buf@ == #[trigger] frame_bytes(d) ==> (r matches Some(d2)
                && d2@ == d),
{
    proof {
        assert(pow128(0) == 1);
        assert(pow128(1) == 128);
        assert(pow128(2) == 16384);
        assert(pow128(3) == 2097152);
        assert(pow128(4) == 268435456);
        assert(pow128(5) == 34359738368);
        assert forall|d: Seq<u8>|
            d.len() <= MAX_WIRE_DATA && buf@ == #[trigger] frame_bytes(d) implies {
            let vlen2 = varint(d.len()).len();
            let inner_len = 1 + vlen2 + d.len();
            let vlen1 = varint(inner_len as nat).len();
            &&& buf@.len() >= 4
            &&& buf@[0] == 0x0au8
            &&& parse_varint_spec(buf@.skip(1)) == Some((inner_len as nat, vlen1))
            &&& vlen1 <= 5
            &&& vlen2 <= 5
            &&& inner_len <= usize::MAX
            &&& buf@.len() == 1 + vlen1 + inner_len
            &&& buf@[(1 + vlen1) as int] == 0x0au8
            &&& parse_varint_spec(buf@.skip((2 + vlen1) as int)) == Some((d.len(), vlen2))
            &&& buf@.skip((2 + vlen1 + vlen2) as int) =~= d
        } by {
            lemma_frame_shape(buf@, d);
            lemma_varint_len_le(d.len(), 5);
            lemma_varint_len_le((1 + varint(d.len()).len() + d.len()) as nat, 5);
        }
    }
    if buf.len() < 4 || *vstd::slice::slice_index_get(buf.as_slice(), 0) != 0x0au8 {
        return None;
    }
    let parsed1 = parse_varint(buf, 1);
    let (len1, p1) = match parsed1 {
        Some(p) => p,
        None => {
            return None;
        },
    };
    if buf.len() - p1 != len1 {
        return None;
    }
    if p1 >= buf.len() {
        return None;
    }
    if *vstd::slice::slice_index_get(buf.as_slice(), p1) != 0x0au8 {
        return None;
    }
    let parsed2 = parse_varint(buf, p1 + 1);
    let (len2, p2) = match parsed2 {
        Some(p) => p,
        None => {
            return None;
        },
    };
    if buf.len() - p2 != len2 {
        return None;
    }
    let data_len = buf.len() - p2;
    if data_len > MAX_WIRE_DATA {
        return None;
    }
    let mut data: Vec<u8> = Vec::new();
    let mut i: usize = p2;
    #[verifier::loop_isolation(false)]
    while i < buf.len()
        invariant
            p2 <= i <= buf@.len(),
            data@ == buf@.subrange(p2 as int, i as int),
        decreases buf@.len() - i,
    {
        data.push(buf[i]);
        proof {
            assert(data@ =~= buf@.subrange(p2 as int, i + 1));
        }
        i += 1;
    }
    proof {
        assert(data@ =~= buf@.skip(p2 as int));
    }
    let reencoded = encode_put_mini_block(&data);
    if bytes_eq(&reencoded, buf) {
        proof {
            assert(buf@ == frame_bytes(data@));
        }
        Some(data)
    } else {
        proof {
            assert forall|d: Seq<u8>|
                d.len() <= MAX_WIRE_DATA && buf@ == #[trigger] frame_bytes(d) implies false by {
                assert(data@ == d);
            }
        }
        None
    }
}

} // verus!
