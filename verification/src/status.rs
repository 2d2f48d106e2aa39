//! The state behind the status surface: which bundles reached provisional
//! or final agreement at each view, as updated by the bridge's
//! notifications and read by an out-of-scope HTTP layer.

use vstd::prelude::*;
use crate::mini_block::{MiniBlockView, ProtoBlock};

verus! {

/// How far one view has progressed, as far as the status surface knows.
#[derive(Clone, Copy, PartialEq, Eq, Structural, Debug)]
pub enum ViewState {
    /// Nothing reported for this view yet.
    Empty,
    /// A bundle reached provisional agreement.
    Prepared,
    /// A bundle is final.
    Finalized,
    /// The view failed to make progress (it may still finalize later).
    Nullify,
}

/// One recorded view: its state and, once agreement was reported, its
/// bundle.
pub struct ViewRecord {
    /// The view this record is about.
    pub view: u64,
    /// How far the view has progressed.
    pub state: ViewState,
    /// The agreed bundle, where one was reported.
    pub block: Option<ProtoBlock>,
}

/// The mathematical shape of one recorded view.
#[verifier::ext_equal]
pub ghost struct ViewRecordView {
    pub state: ViewState,
    pub block: Option<Seq<MiniBlockView>>,
}

/// The shape of one record.
pub open spec fn record_view(r: ViewRecord) -> ViewRecordView {
    ViewRecordView {
        state: r.state,
        block: match r.block {
            Some(pb) => Some(pb@),
            None => None,
        },
    }
}

/// The status surface's state: one record per view heard about.
pub struct AppState {
    records: Vec<ViewRecord>,
}

/// The recorded views as a map.
pub open spec fn records_as_map(s: Seq<ViewRecord>) -> Map<u64, ViewRecordView>
    decreases s.len(),
{
    if s.len() == 0 {
        Map::empty()
    } else {
        records_as_map(s.drop_last()).insert(s.last().view, record_view(s.last()))
    }
}

/// A view is recorded exactly when some record carries it.
proof fn lemma_records_as_map_dom(s: Seq<ViewRecord>, view: u64)
    ensures
        records_as_map(s).dom().contains(view) <==> exists|i: int|
            0 <= i < s.len() && (#[trigger] s[i]).view == view,
    decreases s.len(),
{
    if s.len() > 0 {
        lemma_records_as_map_dom(s.drop_last(), view);
        if s.last().view == view {
            assert(s[s.len() - 1].view == view);
        } else if records_as_map(s).dom().contains(view) {
            let i = choose|i: int|
                0 <= i < s.drop_last().len() && (#[trigger] s.drop_last()[i]).view == view;
            assert(s[i].view == view);
        } else {
            assert forall|i: int| 0 <= i < s.len() && (#[trigger] s[i]).view == view implies
                false by {
                if i < s.len() - 1 {
                    assert(s.drop_last()[i] == s[i]);
                }
            }
        }
    }
}

/// With each view recorded once, the map holds each record's shape.
proof fn lemma_records_as_map_at(s: Seq<ViewRecord>, i: int)
    requires
        0 <= i < s.len(),
        forall|a: int, b: int| 0 <= a < b < s.len() ==> s[a].view != s[b].view,
    ensures
        records_as_map(s).dom().contains(s[i].view),
        records_as_map(s)[s[i].view] == record_view(s[i]),
    decreases s.len(),
{
    if i == s.len() - 1 {
        assert(s.last() == s[i]);
    } else {
        assert(s.drop_last()[i] == s[i]);
        lemma_records_as_map_at(s.drop_last(), i);
        assert(s[i].view != s[s.len() - 1].view);
    }
}

/// Replacing the record of a view overwrites that view in the map.
proof fn lemma_records_as_map_update(s: Seq<ViewRecord>, i: int, r: ViewRecord)
    requires
        0 <= i < s.len(),
        forall|a: int, b: int| 0 <= a < b < s.len() ==> s[a].view != s[b].view,
        r.view == s[i].view,
    ensures
        records_as_map(s.update(i, r)) =~= records_as_map(s).insert(r.view, record_view(r)),
    decreases s.len(),
{
    let t = s.update(i, r);
    if i == s.len() - 1 {
        assert(t.drop_last() =~= s.drop_last());
        assert(t.last() == r);
    } else {
        assert(t.drop_last() =~= s.drop_last().update(i, r));
        assert(t.last() == s.last());
        assert(forall|a: int, b: int|
            0 <= a < b < s.drop_last().len() ==> s.drop_last()[a] == s[a] && s.drop_last()[b]
                == s[b]);
        assert(s.drop_last()[i] == s[i]);
        lemma_records_as_map_update(s.drop_last(), i, r);
        assert(r.view != s[s.len() - 1].view);
    }
}

/// Appending a record for a fresh view inserts it into the map.
proof fn lemma_records_as_map_push(s: Seq<ViewRecord>, r: ViewRecord)
    ensures
        records_as_map(s.push(r)) == records_as_map(s).insert(r.view, record_view(r)),
{
    assert(s.push(r).drop_last() =~= s);
    assert(s.push(r).last() == r);
}

impl AppState {
    /// The recorded views.
    pub closed spec fn records(&self) -> Seq<ViewRecord> {
        self.records@
    }

    /// The recorded views as a map.
    pub open spec fn as_map(&self) -> Map<u64, ViewRecordView> {
        records_as_map(self.records())
    }

    /// Each view is recorded at most once.
    pub open spec fn wf(&self) -> bool {
        forall|a: int, b: int|
            0 <= a < b < self.records().len() ==> self.records()[a].view
                != self.records()[b].view
    }

    /// An empty status surface.
    pub fn new() -> (s: AppState)
        ensures
            s.wf(),
            s.as_map() == Map::<u64, ViewRecordView>::empty(),
    {
        let s = AppState { records: Vec::new() };
        proof {
            assert(s.as_map() =~= Map::<u64, ViewRecordView>::empty());
        }
        s
    }

    /// Record `state` and, where given, the agreed bundle for `view`,
    /// replacing whatever was recorded for that view before.
    pub fn record(&mut self, view: u64, state: ViewState, block: Option<ProtoBlock>)
        requires
            old(self).wf(),
        ensures
            final(self).wf(),
            final(self).as_map() == old(self).as_map().insert(
                view,
                ViewRecordView {
                    state,
                    block: match block {
                        Some(pb) => Some(pb@),
                        None => None,
                    },
                },
            ),
    {
        let ghost s = self.records@;
        let r = ViewRecord { view, state, block };
        let ghost rv = record_view(r);
        let mut i: usize = 0;
        #[verifier::loop_isolation(false)]
        while i < self.records.len()
            invariant
                i <= s.len(),
                s == self.records@,
                forall|j: int| 0 <= j < i ==> (#[trigger] s[j]).view != view,
            decreases s.len() - i,
        {
            if self.records[i].view == view {
                self.records[i] = r;
                proof {
                    assert(self.records@ =~= s.update(i as int, r));
                    lemma_records_as_map_update(s, i as int, r);
                    assert(final(self).wf()) by {
                        assert(forall|a: int|
                            0 <= a < s.len() && a != i ==> self.records@[a] == s[a]);
                    }
                }
                return;
            }
            i += 1;
        }
        self.records.push(r);
        proof {
            assert(self.records@ =~= s.push(r));
            lemma_records_as_map_push(s, r);
            assert(final(self).wf()) by {
                assert(forall|a: int| 0 <= a < s.len() ==> self.records@[a] == s[a]);
            }
        }
    }

    /// How far `view` has progressed: its recorded state, or `Empty` when
    /// nothing was reported for it.
    pub fn view_status(&self, view: u64) -> (r: ViewState)
        requires
            self.wf(),
        ensures
            r == (if self.as_map().dom().contains(view) {
                self.as_map()[view].state
            } else {
                ViewState::Empty
            }),
    {
        let ghost s = self.records@;
        let mut i: usize = 0;
        #[verifier::loop_isolation(false)]
        while i < self.records.len()
            invariant
                i <= s.len(),
                s == self.records@,
                forall|j: int| 0 <= j < i ==> (#[trigger] s[j]).view != view,
            decreases s.len() - i,
        {
            if self.records[i].view == view {
                proof {
                    lemma_records_as_map_at(s, i as int);
                }
                return self.records[i].state;
            }
            i += 1;
        }
        proof {
            lemma_records_as_map_dom(s, view);
        }
        ViewState::Empty
    }

    /// The agreed bundle recorded for `view`, where one was reported.
    pub fn block_of(&self, view: u64) -> (r: Option<&ProtoBlock>)
        requires
            self.wf(),
        ensures
            match r {
                Some(pb) => self.as_map().dom().contains(view) && self.as_map()[view].block
                    == Some(pb@),
                None => !self.as_map().dom().contains(view) || self.as_map()[view].block
                    is None,
            },
    {
        let ghost s = self.records@;
        let mut i: usize = 0;
        #[verifier::loop_isolation(false)]
        while i < self.records.len()
            invariant
                i <= s.len(),
                s == self.records@,
                forall|j: int| 0 <= j < i ==> (#[trigger] s[j]).view != view,
            decreases s.len() - i,
        {
            if self.records[i].view == view {
                proof {
                    lemma_records_as_map_at(s, i as int);
                }
                return match &self.records[i].block {
                    Some(pb) => Some(pb),
                    None => None,
                };
            }
            i += 1;
        }
        proof {
            lemma_records_as_map_dom(s, view);
        }
        None
    }
}

} // verus!
