//! The validator directory: a static, canonically ordered list of validator
//! identities, with leader selection, membership lookup, and the quorum
//! policy.
//!
//! The participant list is sorted lexicographically once at construction, so
//! every process derives the same leader schedule and the same stable index
//! for each validator.

use vstd::prelude::*;
use vstd::seq_lib::lemma_multiset_commutative;
use commonware_utils::Faults;
use crate::bytes_util::{
    bytes_eq, bytes_le, clone_bytes, key_views, lex_le, lemma_lex_le_total,
    lemma_lex_le_transitive,
};

verus! {

/// Whether a sequence of identities is in lexicographic order.
pub open spec fn sorted_keys(s: Seq<Seq<u8>>) -> bool {
    forall|i: int, j: int| 0 <= i < j < s.len() ==> lex_le(s[i], s[j])
}

/// The quorum policy: the smallest number of matching contributions that
/// `n` validators must supply, `n - (n - 1) / 3`, i.e. `2f + 1` when
/// `n == 3f + 1`.
pub open spec fn quorum_of(n: nat) -> nat
    recommends
        n > 0,
{
    (n - ((n - 1) / 3)) as nat
}

/// The quorum policy is monotonic and stays within `1 ..= n`.
pub proof fn lemma_quorum_bounds(n: nat, m: nat)
    requires
        0 < n <= m,
    ensures
        quorum_of(n) <= quorum_of(m),
        0 < quorum_of(n) <= n,
{
    assert(quorum_of(n) <= quorum_of(m) && 0 < quorum_of(n) <= n) by (nonlinear_arith)
        requires
            0 < n <= m,
    ;
}

/// Mapping to byte form commutes with removing one element.
proof fn lemma_key_views_remove(s: Seq<Vec<u8>>, i: int)
    requires
        0 <= i < s.len(),
    ensures
        key_views(s.remove(i)) =~= key_views(s).remove(i),
{
}

/// Mapping to byte form commutes with inserting one element.
proof fn lemma_key_views_insert(s: Seq<Vec<u8>>, p: int, x: Vec<u8>)
    requires
        0 <= p <= s.len(),
    ensures
        key_views(s.insert(p, x)) =~= key_views(s).insert(p, x@),
{
}

/// Inserting anywhere in a sequence inserts into its multiset.
proof fn lemma_to_multiset_insert<A>(s: Seq<A>, p: int, x: A)
    requires
        0 <= p <= s.len(),
    ensures
        s.insert(p, x).to_multiset() =~= s.to_multiset().insert(x),
{
    broadcast use vstd::seq_lib::group_to_multiset_ensures;

    assert(s.insert(p, x) =~= s.take(p).push(x) + s.skip(p));
    assert(s =~= s.take(p) + s.skip(p));
    lemma_multiset_commutative(s.take(p).push(x), s.skip(p));
    lemma_multiset_commutative(s.take(p), s.skip(p));
}

/// Removing an element and inserting it back elsewhere keeps the multiset.
proof fn lemma_to_multiset_move<A>(s: Seq<A>, i: int, p: int)
    requires
        0 <= i < s.len(),
        0 <= p <= s.len() - 1,
    ensures
        s.remove(i).insert(p, s[i]).to_multiset() =~= s.to_multiset(),
{
    broadcast use vstd::seq_lib::group_to_multiset_ensures;

    lemma_to_multiset_insert(s.remove(i), p, s[i]);
    assert(s.to_multiset().contains(s[i])) by {
        assert(s.contains(s[i]));
    }
}

/// Sort a list of identities into lexicographic order, by insertion.
pub fn sort_keys(v: &mut Vec<Vec<u8>>)
    ensures
        final(v)@.len() == old(v)@.len(),
        sorted_keys(key_views(final(v)@)),
        key_views(final(v)@).to_multiset() == key_views(old(v)@).to_multiset(),
{
    if v.len() < 2 {
        return;
    }
    let mut i: usize = 1;
    while i < v.len()
        invariant
            1 <= i <= v@.len(),
            v@.len() == old(v)@.len(),
            sorted_keys(key_views(v@).take(i as int)),
            key_views(v@).to_multiset() == key_views(old(v)@).to_multiset(),
        decreases v@.len() - i,
    {
        let ghost s = key_views(v@);
        proof {
            // The sorted prefix, spelled over `s` directly.
            assert forall|c: int, d: int| 0 <= c < d < i implies lex_le(s[c], s[d]) by {
                assert(s.take(i as int)[c] == s[c]);
                assert(s.take(i as int)[d] == s[d]);
            }
        }
        let mut p: usize = 0;
        while p < i && bytes_le(&v[p], &v[i])
            invariant
                p <= i < v@.len(),
                s == key_views(v@),
                forall|a: int| 0 <= a < p ==> lex_le(s[a], s[i as int]),
            decreases i - p,
        {
            p += 1;
        }
        proof {
            // Everything from p up to i is at least the moved element.
            if p < i {
                assert(!lex_le(s[p as int], s[i as int]));
                lemma_lex_le_total(s[p as int], s[i as int]);
                assert forall|a: int| p <= a < i implies lex_le(s[i as int], s[a]) by {
                    assert(forall|c: int, d: int|
                        0 <= c < d < i ==> lex_le(#[trigger] s[c], #[trigger] s[d]));
                    if a != p {
                        lemma_lex_le_transitive(s[i as int], s[p as int], s[a]);
                    }
                }
            }
        }
        let ghost before = v@;
        let x = v.remove(i);
        let ghost removed = v@;
        v.insert(p, x);
        proof {
            lemma_key_views_remove(before, i as int);
            lemma_key_views_insert(removed, p as int, x);
            let t = s.remove(i as int).insert(p as int, s[i as int]);
            assert(key_views(v@) =~= t);
            lemma_to_multiset_move(s, i as int, p as int);
            assert(key_views(v@).to_multiset() == s.to_multiset());
            // Where each element of the new prefix came from.
            assert forall|k: int| 0 <= k <= i implies #[trigger] t[k] == (if k < p {
                s[k]
            } else if k == p {
                s[i as int]
            } else {
                s[k - 1]
            }) by {
                if k < p {
                } else if k == p {
                } else {
                }
            }
            // The new prefix of length i + 1 is sorted.
            assert forall|a: int, b: int| 0 <= a < b < i + 1 implies lex_le(t[a], t[b]) by {
                assert(forall|c: int, d: int|
                    0 <= c < d < i ==> lex_le(#[trigger] s[c], #[trigger] s[d]));
                assert(forall|c: int| 0 <= c < p ==> lex_le(#[trigger] s[c], s[i as int]));
                assert(forall|c: int| p <= c < i ==> lex_le(s[i as int], #[trigger] s[c]));
            }
            assert forall|a: int, b: int|
                0 <= a < b < i + 1 implies #[trigger] lex_le(
                key_views(v@).take(i + 1)[a],
                key_views(v@).take(i + 1)[b],
            ) by {
                assert(key_views(v@).take(i + 1)[a] == t[a]);
                assert(key_views(v@).take(i + 1)[b] == t[b]);
            }
            assert(sorted_keys(key_views(v@).take(i + 1)));
        }
        i += 1;
    }
    proof {
        assert(key_views(v@).take(v@.len() as int) =~= key_views(v@));
    }
}

/// The static validator directory for one run.
pub struct Supervisor {
    participants: Vec<Vec<u8>>,
}

impl View for Supervisor {
    type V = Seq<Seq<u8>>;

    /// The canonically ordered identities.
    closed spec fn view(&self) -> Seq<Seq<u8>> {
        key_views(self.participants@)
    }
}

impl Supervisor {
    #[verifier::type_invariant]
    spec fn type_inv(self) -> bool {
        &&& 0 < self@.len() <= u32::MAX
        &&& sorted_keys(self@)
    }

    /// Build the directory from the run's validator identities. The list is
    /// sorted into canonical lexicographic order before indexing.
    pub fn new(participants: Vec<Vec<u8>>) -> (r: Supervisor)
        requires
            0 < participants@.len() <= u32::MAX,
        ensures
            sorted_keys(r@),
            r@.to_multiset() == key_views(participants@).to_multiset(),
            r@.len() == participants@.len(),
    {
        let mut participants = participants;
        sort_keys(&mut participants);
        Supervisor { participants }
    }

    /// The number of validators, always positive.
    pub fn participant_count(&self) -> (n: usize)
        ensures
            n == self@.len(),
            0 < n <= u32::MAX,
    {
        proof {
            use_type_invariant(self);
        }
        self.participants.len()
    }

    /// The designated proposer for `view`: round-robin over the canonical
    /// order, a pure function of the view and the fixed set.
    pub fn leader(&self, view: u64) -> (r: Option<Vec<u8>>)
        ensures
            r matches Some(p) && p@ == self@[view as int % self@.len() as int],
    {
        proof {
            use_type_invariant(self);
        }
        let n = self.participants.len() as u64;
        let idx = (view % n) as usize;
        Some(clone_bytes(&self.participants[idx]))
    }

    /// The active validator set for `view` (static for the whole run; the
    /// view parameter allows future epoch changes).
    pub fn participants(&self, view: u64) -> (r: &Vec<Vec<u8>>)
        ensures
            key_views(r@) == self@,
    {
        let _ = view;
        &self.participants
    }

    /// Membership lookup: the stable index of `candidate` in the canonical
    /// order, or `None` when it is not a recognized validator at `view`.
    pub fn is_participant(&self, view: u64, candidate: &Vec<u8>) -> (r: Option<u32>)
        ensures
            r is Some <==> self@.contains(candidate@),
            r matches Some(ix) ==> {
                &&& ix < self@.len()
                &&& self@[ix as int] == candidate@
                &&& forall|j: int| 0 <= j < ix ==> self@[j] != candidate@
            },
    {
        proof {
            use_type_invariant(self);
        }
        let _ = view;
        let mut i: usize = 0;
        while i < self.participants.len()
            invariant
                i <= self@.len() <= u32::MAX,
                self@ == key_views(self.participants@),
                forall|j: int| 0 <= j < i ==> self@[j] != candidate@,
            decreases self@.len() - i,
        {
            if bytes_eq(&self.participants[i], candidate) {
                proof {
                    assert(self@.contains(candidate@)) by {
                        assert(self@[i as int] == candidate@);
                    }
                }
                return Some(i as u32);
            }
            i += 1;
        }
        proof {
            assert(forall|j: int|
                0 <= j < self@.len() ==> #[trigger] self@[j] != candidate@);
        }
        None
    }

    /// The quorum size for `view`: the quorum policy applied to the size of
    /// the active set.
    pub fn quorum_size(&self, view: u64) -> (q: u32)
        ensures
            q as nat == quorum_of(self@.len()),
            0 < q as nat <= self@.len(),
    {
        proof {
            use_type_invariant(self);
        }
        let _ = view;
        let n = self.participants.len() as u32;
        let q = quorum_u32(n);
        proof {
            lemma_quorum_bounds(n as nat, n as nat);
        }
        q
    }
}

/// Relies on `commonware_utils::N3f1::quorum`: for `n > 0` it returns
/// `n - (n - 1) / 3` and does not panic.
#[verifier::external_body]
fn quorum_u32(n: u32) -> (q: u32)
    requires
        n > 0,
    ensures
        q as nat == quorum_of(n as nat),
{
    commonware_utils::N3f1::quorum(n)
}

} // verus!
