use vstd::prelude::*;

use crate::commit::{gap_of, CommitRecord, CommitView};
use crate::errors::AnalysisError;

verus! {

/// The authorship/commit time-gap finder: an analyzer that records, for each
/// commit whose authored time differs from its recorded time, the gap in
/// seconds and the commit's identifier, indexed by gap magnitude.
///
/// The index maps each non-zero gap to a single identifier: a later commit
/// with the exact same gap overwrites the earlier one.
///
/// Entries are kept sorted by strictly ascending gap; the model is the
/// mapping from gap to identifier.
pub struct GapFinder {
    entries: Vec<(i128, String)>,
}

/// The mapping that a sequence of (gap, identifier) entries denotes.
pub open spec fn gap_map_of(s: Seq<(i128, String)>) -> Map<int, Seq<char>>
    decreases s.len(),
{
    if s.len() == 0 {
        Map::empty()
    } else {
        gap_map_of(s.drop_last()).insert(s.last().0 as int, s.last().1@)
    }
}

/// A gap is in the mapping exactly when some entry carries it.
pub proof fn lemma_gap_map_dom(s: Seq<(i128, String)>, k: int)
    ensures
        gap_map_of(s).dom().contains(k) <==> exists|i: int| 0 <= i < s.len() && s[i].0 == k,
    decreases s.len(),
{
    if s.len() > 0 {
        lemma_gap_map_dom(s.drop_last(), k);
        if s.last().0 == k {
            assert(s[s.len() - 1].0 == k);
        } else if gap_map_of(s).dom().contains(k) {
            let i = choose|i: int| 0 <= i < s.drop_last().len() && s.drop_last()[i].0 == k;
            assert(s[i].0 == k);
        } else if exists|i: int| 0 <= i < s.len() && s[i].0 == k {
            let i = choose|i: int| 0 <= i < s.len() && s[i].0 == k;
            assert(s.drop_last()[i].0 == k);
        }
    }
}

/// With pairwise-distinct gaps, the mapping sends each entry's gap to that
/// entry's identifier.
pub proof fn lemma_gap_map_at(s: Seq<(i128, String)>, i: int)
    requires
        forall|p: int, q: int| 0 <= p < q < s.len() ==> s[p].0 != s[q].0,
        0 <= i < s.len(),
    ensures
        gap_map_of(s).dom().contains(s[i].0 as int),
        gap_map_of(s)[s[i].0 as int] == s[i].1@,
    decreases s.len(),
{
    if i == s.len() - 1 {
        assert(s.last() == s[i]);
    } else {
        lemma_gap_map_at(s.drop_last(), i);
        assert(s.drop_last()[i] == s[i]);
        assert(s[i].0 != s[s.len() - 1].0);
    }
}

/// Updating entry `i` with an entry carrying the same gap updates the
/// mapping at that gap.
pub proof fn lemma_gap_map_update(s: Seq<(i128, String)>, i: int, e: (i128, String))
    requires
        forall|p: int, q: int| 0 <= p < q < s.len() ==> s[p].0 != s[q].0,
        0 <= i < s.len(),
        e.0 == s[i].0,
    ensures
        gap_map_of(s.update(i, e)) =~= gap_map_of(s).insert(e.0 as int, e.1@),
    decreases s.len(),
{
    let t = s.update(i, e);
    if i == s.len() - 1 {
        assert(t.drop_last() =~= s.drop_last());
        assert(t.last() == e);
    } else {
        lemma_gap_map_update(s.drop_last(), i, e);
        assert(t.drop_last() =~= s.drop_last().update(i, e));
        assert(t.last() == s.last());
        assert(s[i].0 != s[s.len() - 1].0);
    }
}

/// Inserting an entry whose gap is absent from `s` adds it to the mapping.
pub proof fn lemma_gap_map_insert(s: Seq<(i128, String)>, i: int, e: (i128, String))
    requires
        0 <= i <= s.len(),
        forall|j: int| 0 <= j < s.len() ==> s[j].0 != e.0,
    ensures
        gap_map_of(s.insert(i, e)) =~= gap_map_of(s).insert(e.0 as int, e.1@),
    decreases s.len(),
{
    let t = s.insert(i, e);
    if i == s.len() {
        assert(t.drop_last() =~= s);
        assert(t.last() == e);
    } else {
        lemma_gap_map_insert(s.drop_last(), i, e);
        assert(t.drop_last() =~= s.drop_last().insert(i, e));
        assert(t.last() == s.last());
        assert(s[s.len() - 1].0 != e.0);
    }
}

/// One ingestion step of the gap-finder model: a non-zero gap is recorded
/// under its value (overwriting any commit already there); a zero gap leaves
/// the index unchanged.
pub open spec fn gap_step(m: Map<int, Seq<char>>, c: CommitView) -> Map<int, Seq<char>> {
    if gap_of(c) != 0 {
        m.insert(gap_of(c), c.id)
    } else {
        m
    }
}

/// The gap index after consuming the commits of `rs`, in order.
pub open spec fn gap_run(m: Map<int, Seq<char>>, rs: Seq<CommitView>) -> Map<int, Seq<char>>
    decreases rs.len(),
{
    if rs.len() == 0 {
        m
    } else {
        gap_run(gap_step(m, rs[0]), rs.drop_first())
    }
}

/// Law: a full run records exactly the non-zero gaps that occur in `rs`:
/// commits whose authored and recorded times agree leave no entry, and every
/// commit with a non-zero gap leaves an entry at that gap value (possibly
/// overwritten by a later commit with the identical gap).
pub proof fn lemma_gap_run_dom(m: Map<int, Seq<char>>, rs: Seq<CommitView>, k: int)
    ensures
        gap_run(m, rs).dom().contains(k) <==> (m.dom().contains(k) || (k != 0 && exists|i: int|
            0 <= i < rs.len() && gap_of(#[trigger] rs[i]) == k)),
    decreases rs.len(),
{
    if rs.len() > 0 {
        lemma_gap_run_dom(gap_step(m, rs[0]), rs.drop_first(), k);
        if gap_run(m, rs).dom().contains(k) && !m.dom().contains(k) {
            if gap_of(rs[0]) == k && k != 0 {
                assert(gap_of(rs[0]) == k);
            } else {
                let i = choose|i: int|
                    0 <= i < rs.drop_first().len() && gap_of(#[trigger] rs.drop_first()[i]) == k;
                assert(gap_of(rs[i + 1]) == k);
            }
        }
        if k != 0 && exists|i: int| 0 <= i < rs.len() && gap_of(#[trigger] rs[i]) == k {
            let i = choose|i: int| 0 <= i < rs.len() && gap_of(#[trigger] rs[i]) == k;
            if i > 0 {
                assert(gap_of(rs.drop_first()[i - 1]) == k);
            }
        }
    }
}

impl View for GapFinder {
    type V = Map<int, Seq<char>>;

    closed spec fn view(&self) -> Map<int, Seq<char>> {
        gap_map_of(self.entries@)
    }
}

impl GapFinder {
    /// Internal invariant: gaps are strictly ascending (hence pairwise
    /// distinct), and only non-zero gaps are recorded.
    pub closed spec fn wf(&self) -> bool {
        &&& forall|p: int, q: int|
            0 <= p < q < self.entries@.len() ==> self.entries@[p].0 < self.entries@[q].0
        &&& forall|i: int| 0 <= i < self.entries@.len() ==> (#[trigger] self.entries@[i]).0 != 0
    }

    /// The recorded entries, as (gap, identifier) pairs in ascending gap
    /// order. This is what a report renders.
    pub closed spec fn rows(&self) -> Seq<(i128, String)> {
        self.entries@
    }

    /// A fresh finder with an empty index.
    pub fn new() -> (r: GapFinder)
        ensures
            r.wf(),
            r@ == Map::<int, Seq<char>>::empty(),
            r.rows() == Seq::<(i128, String)>::empty(),
    {
        GapFinder { entries: Vec::new() }
    }

    /// Consume one commit: record its non-zero authorship/commit gap under
    /// that gap value, overwriting any commit already recorded there; a
    /// commit whose two timestamps agree leaves the index unchanged. Never
    /// fails.
    pub fn ingest(&mut self, c: &CommitRecord) -> (r: Result<(), AnalysisError>)
        requires
            old(self).wf(),
        ensures
            final(self).wf(),
            r is Ok,
            final(self)@ == gap_step(old(self)@, c@),
            gap_of(c@) == 0 ==> final(self)@ == old(self)@,
            gap_of(c@) != 0 ==> final(self)@.dom().contains(gap_of(c@)) && final(self)@[gap_of(
                c@,
            )] == c@.id,
    {
        let gap: i128 = (c.committer_time as i128) - (c.author_time as i128);
        if gap == 0 {
            return Ok(());
        }
        let n = self.entries.len();
        let mut i: usize = 0;
        while i < n
            invariant
                i <= n,
                n == self.entries@.len(),
                forall|j: int| 0 <= j < i ==> self.entries@[j].0 < gap,
            ensures
                i <= n,
                forall|j: int| 0 <= j < i ==> self.entries@[j].0 < gap,
                i < n ==> self.entries@[i as int].0 >= gap,
            decreases n - i,
        {
            if self.entries[i].0 >= gap {
                break ;
            }
            i = i + 1;
        }
        let ghost pre = self.entries@;
        if i < n && self.entries[i].0 == gap {
            let e = (gap, c.id.clone());
            self.entries[i] = e;
            proof {
                lemma_gap_map_update(pre, i as int, e);
            }
        } else {
            let e = (gap, c.id.clone());
            self.entries.insert(i, e);
            proof {
                lemma_gap_map_insert(pre, i as int, e);
            }
        }
        Ok(())
    }

    /// Emit the accumulated findings: every recorded gap with its commit
    /// identifier, in ascending gap order. Read-only, so repeated reports
    /// of the same state are identical.
    pub fn report_rows(&self) -> (r: Vec<(i128, String)>)
        requires
            self.wf(),
        ensures
            r@ == self.rows(),
            forall|p: int, q: int| 0 <= p < q < r@.len() ==> r@[p].0 < r@[q].0,
            forall|i: int| 0 <= i < r@.len() ==> self@.dom().contains((#[trigger] r@[i]).0 as int)
                && self@[r@[i].0 as int] == r@[i].1@,
            forall|k: int| self@.dom().contains(k) ==> exists|i: int|
                0 <= i < r@.len() && r@[i].0 == k,
    {
        proof {
            assert forall|i: int| 0 <= i < self.entries@.len() implies self@.dom().contains(
                (#[trigger] self.entries@[i]).0 as int,
            ) && self@[self.entries@[i].0 as int] == self.entries@[i].1@ by {
                lemma_gap_map_at(self.entries@, i);
            }
            assert forall|k: int| self@.dom().contains(k) implies exists|i: int|
                0 <= i < self.entries@.len() && self.entries@[i].0 == k by {
                lemma_gap_map_dom(self.entries@, k);
            }
        }
        let mut r: Vec<(i128, String)> = Vec::new();
        let n = self.entries.len();
        let mut i: usize = 0;
        while i < n
            invariant
                i <= n,
                n == self.entries@.len(),
                r@ =~= self.entries@.take(i as int),
            decreases n - i,
        {
            let gap = self.entries[i].0;
            let id = self.entries[i].1.clone();
            r.push((gap, id));
            proof {
                assert(r@.drop_last() =~= self.entries@.take(i as int));
                assert(r@ =~= self.entries@.take(i as int + 1));
            }
            i = i + 1;
        }
        proof {
            assert(r@ =~= self.entries@);
        }
        r
    }
}

/// Law: reporting is read-only and deterministic, so two reports of the same
/// gap-finder state, with no ingestion in between, are identical.
pub proof fn lemma_gap_report_idempotent(
    g: &GapFinder,
    r1: Seq<(i128, String)>,
    r2: Seq<(i128, String)>,
)
    requires
        r1 == g.rows(),
        r2 == g.rows(),
    ensures
        r1 == r2,
{
}

} // verus!
