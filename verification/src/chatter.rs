//! The aggregator: the per-view contribution cache, proposal construction,
//! and the independent quorum re-check of a received bundle.
//!
//! The cache maps `(view, sender)` to the most recently received contribution
//! (last write wins, with no validity check at ingestion time); signatures
//! and membership are re-checked lazily every time the cache is consumed.

use vstd::prelude::*;
use crate::bytes_util::{bytes_eq, clone_bytes};
use crate::crypto::Keypair;
use crate::mini_block::{counts_for, good_sig, MiniBlock, MiniBlockView, ProtoBlock};
use crate::supervisor::{quorum_of, Supervisor};

verus! {

/// One cached contribution, keyed by the transport-authenticated sender.
pub struct CacheEntry {
    /// The peer the transport delivered the contribution from.
    pub sender: Vec<u8>,
    /// The contribution itself.
    pub block: MiniBlock,
}

/// The mathematical shape of a cache entry.
#[verifier::ext_equal]
pub ghost struct CacheEntryView {
    pub sender: Seq<u8>,
    pub block: MiniBlockView,
}

impl View for CacheEntry {
    type V = CacheEntryView;

    open spec fn view(&self) -> CacheEntryView {
        CacheEntryView { sender: self.sender@, block: self.block@ }
    }
}

/// The key an entry is cached under.
pub open spec fn entry_key(e: CacheEntryView) -> (u64, Seq<u8>) {
    (e.block.view, e.sender)
}

/// No two entries share a `(view, sender)` key.
pub open spec fn entries_unique(s: Seq<CacheEntryView>) -> bool {
    forall|i: int, j: int|
        0 <= i < j < s.len() ==> entry_key(s[i]) != entry_key(s[j])
}

/// The cache contents as a map from `(view, sender)` to the contribution.
pub open spec fn cache_as_map(s: Seq<CacheEntryView>) -> Map<(u64, Seq<u8>), MiniBlockView>
    decreases s.len(),
{
    if s.len() == 0 {
        Map::empty()
    } else {
        cache_as_map(s.drop_last()).insert(entry_key(s.last()), s.last().block)
    }
}

/// A key is in the cache map exactly when some entry carries it.
proof fn lemma_cache_as_map_dom(s: Seq<CacheEntryView>, k: (u64, Seq<u8>))
    ensures
        cache_as_map(s).dom().contains(k) <==> exists|i: int|
            0 <= i < s.len() && entry_key(#[trigger] s[i]) == k,
    decreases s.len(),
{
    if s.len() > 0 {
        lemma_cache_as_map_dom(s.drop_last(), k);
        if entry_key(s.last()) == k {
            assert(entry_key(s[s.len() - 1]) == k);
        } else if cache_as_map(s).dom().contains(k) {
            let i = choose|i: int|
                0 <= i < s.drop_last().len() && entry_key(#[trigger] s.drop_last()[i]) == k;
            assert(entry_key(s[i]) == k);
        } else {
            assert forall|i: int|
                0 <= i < s.len() && entry_key(#[trigger] s[i]) == k implies false by {
                if i < s.len() - 1 {
                    assert(s.drop_last()[i] == s[i]);
                }
            }
        }
    }
}

/// Appending a fresh entry inserts its key into the cache map.
proof fn lemma_cache_as_map_push(s: Seq<CacheEntryView>, e: CacheEntryView)
    ensures
        cache_as_map(s.push(e)) == cache_as_map(s).insert(entry_key(e), e.block),
{
    assert(s.push(e).drop_last() =~= s);
    assert(s.push(e).last() == e);
}

/// Replacing the entry that holds a key overwrites that key in the cache
/// map, provided no other entry shares the key.
proof fn lemma_cache_as_map_update(s: Seq<CacheEntryView>, i: int, e: CacheEntryView)
    requires
        0 <= i < s.len(),
        entries_unique(s),
        entry_key(e) == entry_key(s[i]),
    ensures
        cache_as_map(s.update(i, e)) =~= cache_as_map(s).insert(entry_key(e), e.block),
    decreases s.len(),
{
    let t = s.update(i, e);
    if i == s.len() - 1 {
        assert(t.drop_last() =~= s.drop_last());
        assert(t.last() == e);
    } else {
        assert(t.drop_last() =~= s.drop_last().update(i, e));
        assert(t.last() == s.last());
        assert(entries_unique(s.drop_last())) by {
            assert(forall|a: int, b: int|
                0 <= a < b < s.drop_last().len() ==> s.drop_last()[a] == s[a]
                    && s.drop_last()[b] == s[b]);
        }
        assert(s.drop_last()[i] == s[i]);
        lemma_cache_as_map_update(s.drop_last(), i, e);
        // The overwritten key differs from the last entry's key.
        assert(entry_key(s[i]) != entry_key(s[s.len() - 1]));
    }
}

/// The byte shapes of a list of contributions.
pub open spec fn block_views(s: Seq<MiniBlock>) -> Seq<MiniBlockView> {
    s.map_values(|b: MiniBlock| b@)
}

/// The placeholder payload of a locally built contribution: 32 bytes, with
/// the big-endian view number at offsets 1 through 8 and zeroes elsewhere.
pub open spec fn local_payload_at(view: u64) -> Seq<u8> {
    Seq::new(32, |i: int| if 1 <= i <= 8 { crate::bytes_util::u64_be_bytes(view)[i - 1] } else { 0u8 })
}

/// Build the placeholder payload for a locally produced contribution.
pub fn local_payload(view: u64) -> (r: Vec<u8>)
    ensures
        r@ == local_payload_at(view),
{
    let be = crate::bytes_util::view_be_bytes(view);
    let mut r: Vec<u8> = Vec::new();
    r.push(0u8);
    let mut i: usize = 0;
    #[verifier::loop_isolation(false)]
    while i < 8
        invariant
            i <= 8,
            r@.len() == 1 + i,
            forall|j: int| 0 <= j < r@.len() ==> r@[j] == local_payload_at(view)[j],
        decreases 8 - i,
    {
        r.push(be[i]);
        i += 1;
    }
    #[verifier::loop_isolation(false)]
    while r.len() < 32
        invariant
            9 <= r@.len() <= 32,
            forall|j: int| 0 <= j < r@.len() ==> r@[j] == local_payload_at(view)[j],
        decreases 32 - r@.len(),
    {
        r.push(0u8);
    }
    proof {
        assert(r@ =~= local_payload_at(view));
    }
    r
}

/// The cached contributions picked into a proposal for `view`: walking the
/// cache in arrival order, take each contribution that counts toward the
/// quorum and whose author has not been taken yet.
pub open spec fn selected_blocks(
    cache: Seq<CacheEntryView>,
    view: u64,
    parts: Seq<Seq<u8>>,
    taken: Set<Seq<u8>>,
) -> Seq<MiniBlockView>
    decreases cache.len(),
{
    if cache.len() == 0 {
        Seq::empty()
    } else {
        let b = cache.first().block;
        if counts_for(b, view, parts) && !taken.contains(b.pubkey) {
            seq![b] + selected_blocks(cache.drop_first(), view, parts, taken.insert(b.pubkey))
        } else {
            selected_blocks(cache.drop_first(), view, parts, taken)
        }
    }
}

/// How many distinct, validly signed, participant-authored contributions a
/// freshly built proposal for `view` carries: the picked cached ones, plus
/// the local one when its author is a participant (it is always freshly
/// signed).
pub open spec fn proposal_count(
    cache: Seq<CacheEntryView>,
    view: u64,
    parts: Seq<Seq<u8>>,
    local_pk: Seq<u8>,
) -> nat {
    selected_blocks(cache, view, parts, set![local_pk]).len() + (if parts.contains(local_pk) {
        1nat
    } else {
        0nat
    })
}

/// Whether a freshly built proposal for `view` is sufficiently backed:
/// always at the bootstrap view `1`, otherwise exactly when the distinct
/// valid contribution count meets the quorum.
pub open spec fn proposal_sufficient(
    cache: Seq<CacheEntryView>,
    view: u64,
    parts: Seq<Seq<u8>>,
    local_pk: Seq<u8>,
) -> bool {
    view == 1 || proposal_count(cache, view, parts, local_pk) >= quorum_of(parts.len())
}

/// The distinct authors that back a received bundle for `view`: those with
/// at least one contribution in the bundle that matches the view, comes
/// from a participant, and carries a valid signature.
pub open spec fn valid_authors(
    bundle: Seq<MiniBlockView>,
    view: u64,
    parts: Seq<Seq<u8>>,
) -> Set<Seq<u8>>
    decreases bundle.len(),
{
    if bundle.len() == 0 {
        Set::empty()
    } else {
        let rest = valid_authors(bundle.drop_first(), view, parts);
        if counts_for(bundle.first(), view, parts) {
            rest.insert(bundle.first().pubkey)
        } else {
            rest
        }
    }
}

/// Whether a received bundle is sufficiently backed for `view`: always at
/// the bootstrap view `1`, otherwise exactly when the distinct valid
/// authors meet the quorum.
pub open spec fn bundle_sufficient(
    bundle: Seq<MiniBlockView>,
    view: u64,
    parts: Seq<Seq<u8>>,
) -> bool {
    view == 1 || valid_authors(bundle, view, parts).len() >= quorum_of(parts.len())
}

/// The backing-author set is finite.
pub proof fn lemma_valid_authors_finite(bundle: Seq<MiniBlockView>, view: u64, parts: Seq<Seq<u8>>)
    ensures
        valid_authors(bundle, view, parts).finite(),
    decreases bundle.len(),
{
    if bundle.len() > 0 {
        lemma_valid_authors_finite(bundle.drop_first(), view, parts);
    }
}

/// An author backs a bundle exactly when some contribution of the bundle
/// counts for the view under that author.
pub proof fn lemma_valid_authors_members(
    bundle: Seq<MiniBlockView>,
    view: u64,
    parts: Seq<Seq<u8>>,
    a: Seq<u8>,
)
    ensures
        valid_authors(bundle, view, parts).contains(a) <==> exists|i: int|
            0 <= i < bundle.len() && counts_for(#[trigger] bundle[i], view, parts)
                && bundle[i].pubkey == a,
    decreases bundle.len(),
{
    if bundle.len() > 0 {
        let rest = bundle.drop_first();
        lemma_valid_authors_members(rest, view, parts, a);
        if valid_authors(bundle, view, parts).contains(a) {
            if counts_for(bundle.first(), view, parts) && bundle.first().pubkey == a {
                assert(counts_for(bundle[0], view, parts) && bundle[0].pubkey == a);
            } else {
                let i = choose|i: int|
                    0 <= i < rest.len() && counts_for(#[trigger] rest[i], view, parts)
                        && rest[i].pubkey == a;
                assert(counts_for(bundle[i + 1], view, parts) && bundle[i + 1].pubkey == a);
            }
        }
        if exists|i: int|
            0 <= i < bundle.len() && counts_for(#[trigger] bundle[i], view, parts)
                && bundle[i].pubkey == a {
            let i = choose|i: int|
                0 <= i < bundle.len() && counts_for(#[trigger] bundle[i], view, parts)
                    && bundle[i].pubkey == a;
            if i > 0 {
                assert(counts_for(rest[i - 1], view, parts) && rest[i - 1].pubkey == a);
            }
        }
    }
}

/// Appending one contribution to a bundle adds its author to the backing
/// set exactly when it counts for the view.
pub proof fn lemma_valid_authors_push(
    bundle: Seq<MiniBlockView>,
    b: MiniBlockView,
    view: u64,
    parts: Seq<Seq<u8>>,
)
    ensures
        valid_authors(bundle.push(b), view, parts) == (if counts_for(b, view, parts) {
            valid_authors(bundle, view, parts).insert(b.pubkey)
        } else {
            valid_authors(bundle, view, parts)
        }),
    decreases bundle.len(),
{
    if bundle.len() == 0 {
        assert(bundle.push(b).drop_first() =~= Seq::empty());
        assert(bundle.push(b).first() == b);
        assert(valid_authors(Seq::empty(), view, parts) == Set::<Seq<u8>>::empty());
        assert(bundle =~= Seq::empty());
        if counts_for(b, view, parts) {
            assert(valid_authors(bundle.push(b), view, parts) =~= valid_authors(
                bundle,
                view,
                parts,
            ).insert(b.pubkey));
        } else {
            assert(valid_authors(bundle.push(b), view, parts) =~= valid_authors(
                bundle,
                view,
                parts,
            ));
        }
    } else {
        assert(bundle.push(b).drop_first() =~= bundle.drop_first().push(b));
        assert(bundle.push(b).first() == bundle.first());
        lemma_valid_authors_push(bundle.drop_first(), b, view, parts);
        if counts_for(b, view, parts) {
            if counts_for(bundle.first(), view, parts) {
                assert(valid_authors(bundle.push(b), view, parts) =~= valid_authors(
                    bundle,
                    view,
                    parts,
                ).insert(b.pubkey));
            } else {
                assert(valid_authors(bundle.push(b), view, parts) =~= valid_authors(
                    bundle,
                    view,
                    parts,
                ).insert(b.pubkey));
            }
        }
    }
}

/// The contributions held in a stretch of cache entries, in order.
pub open spec fn cache_blocks(s: Seq<CacheEntryView>) -> Seq<MiniBlockView> {
    s.map_values(|e: CacheEntryView| e.block)
}

/// Every contribution a proposal picks from the cache counts for the view,
/// comes from an author outside the taken set, and no author is picked
/// twice.
pub proof fn lemma_selected_blocks_sound(
    cache: Seq<CacheEntryView>,
    view: u64,
    parts: Seq<Seq<u8>>,
    taken: Set<Seq<u8>>,
)
    ensures
        ({
            let sel = selected_blocks(cache, view, parts, taken);
            &&& forall|k: int| 0 <= k < sel.len() ==> counts_for(#[trigger] sel[k], view, parts)
            &&& forall|k: int| 0 <= k < sel.len() ==> !taken.contains((#[trigger] sel[k]).pubkey)
            &&& forall|k: int, l: int|
                0 <= k < l < sel.len() ==> (#[trigger] sel[k]).pubkey != (#[trigger] sel[l]).pubkey
        }),
    decreases cache.len(),
{
    if cache.len() > 0 {
        let b = cache.first().block;
        let rest = cache.drop_first();
        let sel = selected_blocks(cache, view, parts, taken);
        if counts_for(b, view, parts) && !taken.contains(b.pubkey) {
            lemma_selected_blocks_sound(rest, view, parts, taken.insert(b.pubkey));
            let sel_rest = selected_blocks(rest, view, parts, taken.insert(b.pubkey));
            assert(sel == seq![b] + sel_rest);
            assert(sel[0] == b);
            assert(forall|k: int| 1 <= k < sel.len() ==> #[trigger] sel[k] == sel_rest[k - 1]);
            assert forall|k: int| 0 <= k < sel.len() implies counts_for(
                #[trigger] sel[k],
                view,
                parts,
            ) by {
                if k >= 1 {
                    assert(counts_for(sel_rest[k - 1], view, parts));
                }
            }
            assert forall|k: int| 0 <= k < sel.len() implies !taken.contains(
                (#[trigger] sel[k]).pubkey,
            ) by {
                if k >= 1 {
                    assert(!taken.insert(b.pubkey).contains(sel_rest[k - 1].pubkey));
                }
            }
            assert forall|k: int, l: int| 0 <= k < l < sel.len() implies (
            #[trigger] sel[k]).pubkey != (#[trigger] sel[l]).pubkey by {
                if k == 0 {
                    assert(!taken.insert(b.pubkey).contains(sel_rest[l - 1].pubkey));
                } else {
                    assert(sel_rest[k - 1].pubkey != sel_rest[l - 1].pubkey);
                }
            }
        } else {
            lemma_selected_blocks_sound(rest, view, parts, taken);
            assert(sel == selected_blocks(rest, view, parts, taken));
        }
    } else {
        assert(selected_blocks(cache, view, parts, taken) == Seq::<MiniBlockView>::empty());
    }
}

/// How many contributions a proposal picks from the cache: exactly the
/// number of distinct backing authors of the cached contributions, leaving
/// out the authors already taken.
pub proof fn lemma_selected_blocks_count(
    cache: Seq<CacheEntryView>,
    view: u64,
    parts: Seq<Seq<u8>>,
    taken: Set<Seq<u8>>,
)
    ensures
        selected_blocks(cache, view, parts, taken).len() == valid_authors(
            cache_blocks(cache),
            view,
            parts,
        ).difference(taken).len(),
    decreases cache.len(),
{
    broadcast use vstd::set::axiom_set_insert_len;

    let blocks = cache_blocks(cache);
    if cache.len() == 0 {
        assert(valid_authors(blocks, view, parts).difference(taken) =~= Set::empty());
    } else {
        let b = cache.first().block;
        let rest = cache.drop_first();
        assert(blocks.first() == b);
        assert(blocks.drop_first() =~= cache_blocks(rest));
        lemma_valid_authors_finite(cache_blocks(rest), view, parts);
        let va_rest = valid_authors(cache_blocks(rest), view, parts);
        if counts_for(b, view, parts) && !taken.contains(b.pubkey) {
            lemma_selected_blocks_count(rest, view, parts, taken.insert(b.pubkey));
            assert(valid_authors(blocks, view, parts).difference(taken) =~= va_rest.difference(
                taken.insert(b.pubkey),
            ).insert(b.pubkey));
            assert(!va_rest.difference(taken.insert(b.pubkey)).contains(b.pubkey));
            assert(va_rest.difference(taken.insert(b.pubkey)).finite());
        } else if counts_for(b, view, parts) {
            lemma_selected_blocks_count(rest, view, parts, taken);
            assert(valid_authors(blocks, view, parts).difference(taken) =~= va_rest.difference(
                taken,
            ));
        } else {
            lemma_selected_blocks_count(rest, view, parts, taken);
            assert(valid_authors(blocks, view, parts) == va_rest);
        }
    }
}

/// What a freshly built proposal counts, spelled as a set of authors: the
/// distinct backing authors of the cached contributions, together with the
/// local author when it is a participant (the local contribution is always
/// freshly signed). This is the sense in which `proposal_count` counts
/// "distinct, validly signed, participant-authored contributions".
pub proof fn lemma_proposal_count_distinct_authors(
    cache: Seq<CacheEntryView>,
    view: u64,
    parts: Seq<Seq<u8>>,
    local_pk: Seq<u8>,
)
    ensures
        proposal_count(cache, view, parts, local_pk) == (if parts.contains(local_pk) {
            valid_authors(cache_blocks(cache), view, parts).insert(local_pk).len()
        } else {
            valid_authors(cache_blocks(cache), view, parts).remove(local_pk).len()
        }),
{
    broadcast use vstd::set::axiom_set_insert_len;

    lemma_selected_blocks_count(cache, view, parts, set![local_pk]);
    lemma_valid_authors_finite(cache_blocks(cache), view, parts);
    let va = valid_authors(cache_blocks(cache), view, parts);
    assert(va.difference(set![local_pk]) =~= va.remove(local_pk));
    if parts.contains(local_pk) {
        assert(va.insert(local_pk) =~= va.remove(local_pk).insert(local_pk));
        assert(va.remove(local_pk).finite());
        assert(!va.remove(local_pk).contains(local_pk));
    }
}

/// Permuting a bundle never changes the quorum decision: the backing
/// authors depend only on which contributions the bundle holds, not on
/// their order (and the decision is a pure function of its inputs, so
/// re-checking the same bundle always agrees).
pub proof fn lemma_check_order_independent(
    b1: Seq<MiniBlockView>,
    b2: Seq<MiniBlockView>,
    view: u64,
    parts: Seq<Seq<u8>>,
)
    requires
        b1.to_multiset() == b2.to_multiset(),
    ensures
        bundle_sufficient(b1, view, parts) == bundle_sufficient(b2, view, parts),
{
    broadcast use vstd::seq_lib::group_to_multiset_ensures;

    assert forall|a: Seq<u8>|
        valid_authors(b1, view, parts).contains(a) == valid_authors(b2, view, parts).contains(
            a,
        ) by {
        lemma_valid_authors_members(b1, view, parts, a);
        lemma_valid_authors_members(b2, view, parts, a);
        if exists|i: int|
            0 <= i < b1.len() && counts_for(#[trigger] b1[i], view, parts) && b1[i].pubkey == a {
            let i = choose|i: int|
                0 <= i < b1.len() && counts_for(#[trigger] b1[i], view, parts)
                    && b1[i].pubkey == a;
            assert(b1.contains(b1[i]));
            assert(b2.to_multiset().count(b1[i]) > 0);
            assert(b2.contains(b1[i]));
            let j = choose|j: int| 0 <= j < b2.len() && b2[j] == b1[i];
            assert(counts_for(b2[j], view, parts) && b2[j].pubkey == a);
        }
        if exists|i: int|
            0 <= i < b2.len() && counts_for(#[trigger] b2[i], view, parts) && b2[i].pubkey == a {
            let i = choose|i: int|
                0 <= i < b2.len() && counts_for(#[trigger] b2[i], view, parts)
                    && b2[i].pubkey == a;
            assert(b2.contains(b2[i]));
            assert(b1.to_multiset().count(b2[i]) > 0);
            assert(b1.contains(b2[i]));
            let j = choose|j: int| 0 <= j < b1.len() && b1[j] == b2[i];
            assert(counts_for(b1[j], view, parts) && b1[j].pubkey == a);
        }
    }
    assert(valid_authors(b1, view, parts) =~= valid_authors(b2, view, parts));
}

/// A bundle made of one author's contributions alone, however many copies
/// it holds, never meets a quorum of two or more away from the bootstrap
/// view: duplicate authors cannot inflate the count.
pub proof fn lemma_duplicate_author_rejected(
    bundle: Seq<MiniBlockView>,
    view: u64,
    parts: Seq<Seq<u8>>,
)
    requires
        view != 1,
        bundle.len() > 0,
        forall|i: int| 0 <= i < bundle.len() ==> #[trigger] bundle[i].pubkey == bundle[0].pubkey,
        quorum_of(parts.len()) >= 2,
    ensures
        !bundle_sufficient(bundle, view, parts),
{
    broadcast use vstd::set::axiom_set_insert_len;

    let va = valid_authors(bundle, view, parts);
    lemma_valid_authors_finite(bundle, view, parts);
    let one = set![bundle[0].pubkey];
    assert forall|a: Seq<u8>| va.contains(a) implies one.contains(a) by {
        lemma_valid_authors_members(bundle, view, parts, a);
        let i = choose|i: int|
            0 <= i < bundle.len() && counts_for(#[trigger] bundle[i], view, parts)
                && bundle[i].pubkey == a;
        assert(bundle[i].pubkey == bundle[0].pubkey);
    }
    assert(one.len() == 1);
    vstd::set_lib::lemma_len_subset(va, one);
}

/// A contribution signed for one view never counts toward another view's
/// quorum check: adding it to a bundle checked at a different view leaves
/// the decision unchanged. (Together with order independence this covers
/// insertion at any position.)
pub proof fn lemma_cross_view_rejected(
    bundle: Seq<MiniBlockView>,
    m: MiniBlockView,
    view: u64,
    parts: Seq<Seq<u8>>,
)
    requires
        m.view != view,
    ensures
        bundle_sufficient(bundle.push(m), view, parts) == bundle_sufficient(bundle, view, parts),
{
    lemma_valid_authors_push(bundle, m, view, parts);
}

/// The bootstrap view `1` is always sufficiently backed, both when building
/// a proposal and when checking a received bundle, with however few
/// contributions are at hand.
pub proof fn lemma_bootstrap_view_sufficient(
    cache: Seq<CacheEntryView>,
    bundle: Seq<MiniBlockView>,
    parts: Seq<Seq<u8>>,
    local_pk: Seq<u8>,
)
    ensures
        proposal_sufficient(cache, 1, parts, local_pk),
        bundle_sufficient(bundle, 1, parts),
{
}

/// Ingesting twice under one `(view, sender)` key keeps only the second
/// contribution, and the second ingestion reports that an entry already
/// existed.
pub proof fn lemma_ingest_last_write_wins(
    m: Map<(u64, Seq<u8>), MiniBlockView>,
    k: (u64, Seq<u8>),
    b1: MiniBlockView,
    b2: MiniBlockView,
)
    ensures
        m.insert(k, b1).insert(k, b2) == m.insert(k, b2),
        m.insert(k, b1).dom().contains(k),
{
    assert(m.insert(k, b1).insert(k, b2) =~= m.insert(k, b2));
}

/// Does `authors` already hold the identity `pk`?
fn contains_author(authors: &Vec<Vec<u8>>, pk: &Vec<u8>) -> (r: bool)
    ensures
        r == exists|k: int| 0 <= k < authors@.len() && #[trigger] authors@[k]@ == pk@,
{
    let mut i: usize = 0;
    #[verifier::loop_isolation(false)]
    while i < authors.len()
        invariant
            i <= authors@.len(),
            forall|k: int| 0 <= k < i ==> #[trigger] authors@[k]@ != pk@,
        decreases authors@.len() - i,
    {
        if bytes_eq(&authors[i], pk) {
            return true;
        }
        i += 1;
    }
    false
}

/// The aggregator's state: the contribution cache and the queue of
/// user-submitted payload data awaiting inclusion.
pub struct Chatter {
    entries: Vec<CacheEntry>,
    chats: Vec<(u64, Vec<u8>)>,
}

impl Chatter {
    /// The cached entries, in arrival order.
    pub closed spec fn cache(&self) -> Seq<CacheEntryView> {
        self.entries@.map_values(|e: CacheEntry| e@)
    }

    /// The cache contents as a map from `(view, sender)` to the block.
    pub open spec fn cache_map(&self) -> Map<(u64, Seq<u8>), MiniBlockView> {
        cache_as_map(self.cache())
    }

    /// The queued user payloads, oldest first, each with the view it was
    /// hinted for.
    pub closed spec fn chat_queue(&self) -> Seq<(u64, Seq<u8>)> {
        self.chats@.map_values(|c: (u64, Vec<u8>)| (c.0, c.1@))
    }

    /// The cache never holds two entries under one `(view, sender)` key.
    pub open spec fn wf(&self) -> bool {
        entries_unique(self.cache())
    }

    /// An empty aggregator.
    pub fn new() -> (c: Chatter)
        ensures
            c.wf(),
            c.cache() == Seq::<CacheEntryView>::empty(),
            c.chat_queue() == Seq::<(u64, Seq<u8>)>::empty(),
    {
        let c = Chatter { entries: Vec::new(), chats: Vec::new() };
        proof {
            assert(c.cache() =~= Seq::<CacheEntryView>::empty());
            assert(c.chat_queue() =~= Seq::<(u64, Seq<u8>)>::empty());
        }
        c
    }

    /// Accept one unit of user-submitted payload data for a future local
    /// contribution, queued oldest first with the view it was hinted for.
    pub fn queue_chat(&mut self, view_hint: u64, data: Vec<u8>)
        requires
            old(self).wf(),
        ensures
            final(self).wf(),
            final(self).chat_queue() == old(self).chat_queue().push((view_hint, data@)),
            final(self).cache() == old(self).cache(),
    {
        let ghost q = self.chat_queue();
        self.chats.push((view_hint, data));
        proof {
            assert(final(self).chat_queue() =~= q.push((view_hint, data@)));
            assert(final(self).cache() =~= old(self).cache());
        }
    }

    /// Ingest a contribution delivered by the transport from `sender`,
    /// replacing any earlier contribution cached for the same view and
    /// sender (last write wins, no validity check). Returns whether an
    /// entry for that `(view, sender)` key already existed.
    pub fn ingest(&mut self, sender: Vec<u8>, block: MiniBlock) -> (already: bool)
        requires
            old(self).wf(),
        ensures
            final(self).wf(),
            already == old(self).cache_map().dom().contains((block@.view, sender@)),
            final(self).cache_map() == old(self).cache_map().insert(
                (block@.view, sender@),
                block@,
            ),
            final(self).chat_queue() == old(self).chat_queue(),
    {
        let ghost s = self.cache();
        let ghost k = (block@.view, sender@);
        proof {
            lemma_cache_as_map_dom(s, k);
        }
        let mut i: usize = 0;
        #[verifier::loop_isolation(false)]
        while i < self.entries.len()
            invariant
                i <= s.len(),
                s == self.cache(),
                self.cache() == old(self).cache(),
                self.chat_queue() == old(self).chat_queue(),
                forall|j: int| 0 <= j < i ==> entry_key(#[trigger] s[j]) != k,
            decreases s.len() - i,
        {
            let view_matches = self.entries[i].block.view == block.view;
            let sender_matches = bytes_eq(&self.entries[i].sender, &sender);
            proof {
                assert(s[i as int] == self.entries@[i as int]@);
                assert(view_matches == (s[i as int].block.view == block@.view));
                assert(sender_matches == (s[i as int].sender == sender@));
            }
            if view_matches && sender_matches {
                proof {
                    assert(entry_key(s[i as int]) =~= k);
                    assert(old(self).cache_map().dom().contains(k));
                }
                let ghost before = self.cache();
                let e = CacheEntry { sender, block };
                self.entries[i] = e;
                proof {
                    assert(self.cache() =~= before.update(i as int, e@));
                    lemma_cache_as_map_update(before, i as int, e@);
                    assert(entries_unique(self.cache())) by {
                        assert(forall|a: int|
                            0 <= a < s.len() && a != i ==> self.cache()[a] == s[a]);
                        assert(entry_key(self.cache()[i as int]) == entry_key(s[i as int]));
                    }
                    assert(final(self).chat_queue() =~= old(self).chat_queue());
                }
                return true;
            }
            proof {
                assert(entry_key(s[i as int]) != k) by {
                    if entry_key(s[i as int]) == k {
                        assert(s[i as int].block.view == k.0);
                        assert(s[i as int].sender == k.1);
                    }
                }
            }
            i += 1;
        }
        let ghost before = self.cache();
        let e = CacheEntry { sender, block };
        self.entries.push(e);
        proof {
            assert(self.cache() =~= before.push(e@));
            lemma_cache_as_map_push(before, e@);
            assert(entries_unique(self.cache())) by {
                assert(forall|a: int| 0 <= a < before.len() ==> self.cache()[a] == before[a]);
                assert(forall|a: int|
                    0 <= a < before.len() ==> entry_key(#[trigger] before[a]) != k);
            }
            assert(final(self).chat_queue() =~= old(self).chat_queue());
        }
        false
    }

    /// Answer "what should I propose for `view`?": build and sign this
    /// validator's own contribution, put it first, then append every cached
    /// contribution for `view` that counts toward the quorum, one per
    /// author. Returns the bundle when the distinct valid contribution
    /// count meets the quorum (or at the bootstrap view `1`), and `None`
    /// otherwise, leaving retry policy to the caller.
    pub fn build_proposal(&self, supervisor: &Supervisor, keypair: &Keypair, view: u64) -> (r:
        Option<ProtoBlock>)
        ensures
            (r is Some) == proposal_sufficient(self.cache(), view, supervisor@, keypair.pubkey()),
            r matches Some(pb) ==> {
                &&& pb@.len() >= 1
                &&& pb@[0].view == view
                &&& pb@[0].data == local_payload_at(view)
                &&& pb@[0].pubkey == keypair.pubkey()
                &&& good_sig(pb@[0])
                &&& pb@.drop_first() == selected_blocks(
                    self.cache(),
                    view,
                    supervisor@,
                    set![keypair.pubkey()],
                )
            },
    {
        let ghost parts = supervisor@;
        let pubkey = keypair.public_key();
        let local_is_member = supervisor.is_participant(view, &pubkey).is_some();
        let data = local_payload(view);
        let mut local = MiniBlock::new(view, data, pubkey);
        local.sign(keypair);
        let ghost local_v = local@;
        let ghost taken0: Set<Seq<u8>> = set![keypair.pubkey()];
        let ghost sel_all = selected_blocks(self.cache(), view, parts, taken0);

        let mut authors: Vec<Vec<u8>> = Vec::new();
        authors.push(clone_bytes(&local.pubkey));
        let mut bundle: Vec<MiniBlock> = Vec::new();
        bundle.push(local);
        let ghost mut taken: Set<Seq<u8>> = taken0;

        let ghost s = self.cache();
        proof {
            assert(s.skip(0) =~= s);
            assert(block_views(bundle@).drop_first() =~= Seq::empty());
            assert(Seq::empty() + selected_blocks(s, view, parts, taken0) =~= sel_all);
            assert(authors@[0]@ == keypair.pubkey());
            assert forall|a: Seq<u8>|
                taken.contains(a) == (exists|k: int|
                    0 <= k < authors@.len() && #[trigger] authors@[k]@ == a) by {
                if taken.contains(a) {
                    assert(authors@[0]@ == a);
                }
                if exists|k: int| 0 <= k < authors@.len() && authors@[k]@ == a {
                    let k = choose|k: int| 0 <= k < authors@.len() && authors@[k]@ == a;
                    assert(k == 0);
                    assert(taken.contains(a));
                }
            }
        }
        let mut i: usize = 0;
        #[verifier::loop_isolation(false)]
        while i < self.entries.len()
            invariant
                i <= s.len(),
                s == self.cache(),
                bundle@.len() >= 1,
                bundle@[0]@ == local_v,
                sel_all == block_views(bundle@).drop_first() + selected_blocks(
                    s.skip(i as int),
                    view,
                    parts,
                    taken,
                ),
                forall|a: Seq<u8>|
                    taken.contains(a) <==> exists|k: int|
                        0 <= k < authors@.len() && #[trigger] authors@[k]@ == a,
            decreases s.len() - i,
        {
            let ghost b = s[i as int].block;
            proof {
                assert(s[i as int] == self.entries@[i as int]@);
                assert(s.skip(i as int).first() == s[i as int]);
                assert(s.skip(i as int).drop_first() =~= s.skip(i + 1));
            }
            let keep_view = self.entries[i].block.view == view;
            if keep_view {
                let dup = contains_author(&authors, &self.entries[i].block.pubkey);
                if !dup {
                    let member = self.entries[i].block.is_participant(view, supervisor);
                    let ok = member && self.entries[i].block.verify();
                    if ok {
                        let ghost bundle_before = bundle@;
                        let ghost authors_before = authors@;
                        let ghost taken_before = taken;
                        let ghost n = authors@.len() as int;
                        authors.push(clone_bytes(&self.entries[i].block.pubkey));
                        bundle.push(self.entries[i].block.duplicate());
                        proof {
                            taken = taken.insert(b.pubkey);
                            assert(counts_for(b, view, parts));
                            assert(block_views(bundle@).drop_first() =~= block_views(
                                bundle_before,
                            ).drop_first().push(b));
                            assert(block_views(bundle_before).drop_first().push(b)
                                + selected_blocks(s.skip(i + 1), view, parts, taken)
                                =~= block_views(bundle_before).drop_first() + (seq![b]
                                + selected_blocks(s.skip(i + 1), view, parts, taken)));
                            assert(authors@[n]@ == b.pubkey);
                            assert forall|a: Seq<u8>|
                                taken.contains(a) == (exists|k: int|
                                    0 <= k < authors@.len() && #[trigger] authors@[k]@ == a) by {
                                if taken.contains(a) {
                                    if a == b.pubkey {
                                        assert(authors@[n]@ == a);
                                    } else {
                                        let k = choose|k: int|
                                            0 <= k < authors_before.len()
                                                && #[trigger] authors_before[k]@ == a;
                                        assert(authors@[k]@ == a);
                                    }
                                }
                                if exists|k: int| 0 <= k < authors@.len() && authors@[k]@ == a {
                                    let k = choose|k: int|
                                        0 <= k < authors@.len() && authors@[k]@ == a;
                                    if k == n {
                                        assert(a == b.pubkey);
                                    } else {
                                        assert(authors_before[k]@ == a);
                                        assert(taken_before.contains(a));
                                    }
                                }
                            }
                        }
                    } else {
                        proof {
                            assert(!counts_for(b, view, parts));
                        }
                    }
                } else {
                    proof {
                        assert(taken.contains(b.pubkey));
                    }
                }
            } else {
                proof {
                    assert(!counts_for(b, view, parts));
                }
            }
            i += 1;
        }
        proof {
            assert(s.skip(s.len() as int) =~= Seq::empty());
            assert(sel_all =~= block_views(bundle@).drop_first());
        }

        let count = if local_is_member {
            bundle.len()
        } else {
            bundle.len() - 1
        };
        let quorum = supervisor.quorum_size(view) as usize;
        if view == 1 || count >= quorum {
            let r = ProtoBlock { mini_blocks: bundle };
            proof {
                assert(r@ == block_views(bundle@));
                assert(r@.drop_first() == sel_all);
                assert(r@[0] == local_v);
            }
            Some(r)
        } else {
            None
        }
    }
}

/// Answer "is this proposed bundle backed by a sufficient quorum?": walk the
/// bundle, discard contributions for other views, count each author at most
/// once, and count an author only if one of its contributions comes from a
/// recognized participant and carries a valid signature. True when the
/// count meets the quorum, or always at the bootstrap view `1`.
///
/// The result is a function of the view, the bundle, and the directory
/// alone, so repeated checks of one bundle always agree.
pub fn check_sufficiency(supervisor: &Supervisor, view: u64, bundle: &ProtoBlock) -> (r: bool)
    ensures
        r == bundle_sufficient(bundle@, view, supervisor@),
{
    let ghost parts = supervisor@;
    let ghost bs = bundle@;
    let mut counted: Vec<Vec<u8>> = Vec::new();
    let ghost mut acc: Set<Seq<u8>> = Set::empty();
    let mut i: usize = 0;
    #[verifier::loop_isolation(false)]
    while i < bundle.mini_blocks.len()
        invariant
            i <= bs.len(),
            bs == bundle@,
            acc == valid_authors(bs.take(i as int), view, parts),
            acc.finite(),
            counted@.len() == acc.len(),
            forall|a: Seq<u8>|
                acc.contains(a) <==> exists|k: int|
                    0 <= k < counted@.len() && #[trigger] counted@[k]@ == a,
        decreases bs.len() - i,
    {
        let ghost b = bs[i as int];
        proof {
            broadcast use vstd::set::axiom_set_insert_len;

            assert(b == bundle.mini_blocks@[i as int]@);
            assert(bs.take(i + 1) =~= bs.take(i as int).push(b));
            lemma_valid_authors_push(bs.take(i as int), b, view, parts);
        }
        let view_ok = bundle.mini_blocks[i].view == view;
        if view_ok {
            let dup = contains_author(&counted, &bundle.mini_blocks[i].pubkey);
            if !dup {
                let member = bundle.mini_blocks[i].is_participant(view, supervisor);
                let ok = member && bundle.mini_blocks[i].verify();
                if ok {
                    let ghost counted_before = counted@;
                    let ghost acc_before = acc;
                    let ghost n = counted@.len() as int;
                    counted.push(clone_bytes(&bundle.mini_blocks[i].pubkey));
                    proof {
                        broadcast use vstd::set::axiom_set_insert_len;

                        acc = acc.insert(b.pubkey);
                        assert(counts_for(b, view, parts));
                        assert(!acc_before.contains(b.pubkey));
                        assert(counted@[n]@ == b.pubkey);
                        assert forall|a: Seq<u8>|
                            acc.contains(a) == (exists|k: int|
                                0 <= k < counted@.len() && #[trigger] counted@[k]@ == a) by {
                            if acc.contains(a) {
                                if a == b.pubkey {
                                    assert(counted@[n]@ == a);
                                } else {
                                    let k = choose|k: int|
                                        0 <= k < counted_before.len()
                                            && #[trigger] counted_before[k]@ == a;
                                    assert(counted@[k]@ == a);
                                }
                            }
                            if exists|k: int| 0 <= k < counted@.len() && counted@[k]@ == a {
                                let k = choose|k: int|
                                    0 <= k < counted@.len() && counted@[k]@ == a;
                                if k == n {
                                    assert(a == b.pubkey);
                                } else {
                                    assert(counted_before[k]@ == a);
                                    assert(acc_before.contains(a));
                                }
                            }
                        }
                    }
                } else {
                    proof {
                        assert(!counts_for(b, view, parts));
                    }
                }
            } else {
                proof {
                    assert(acc.contains(b.pubkey));
                    if counts_for(b, view, parts) {
                        assert(acc.insert(b.pubkey) =~= acc);
                    }
                }
            }
        } else {
            proof {
                assert(!counts_for(b, view, parts));
            }
        }
        i += 1;
    }
    proof {
        assert(bs.take(bs.len() as int) =~= bs);
    }
    let quorum = supervisor.quorum_size(view) as usize;
    view == 1 || counted.len() >= quorum
}

} // verus!
