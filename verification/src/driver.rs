use vstd::prelude::*;

use crate::commit::{wf_commit, CommitRecord, CommitView};
use crate::counter::{counter_step, counts_fit, Counter, CountsModel};
use crate::errors::AnalysisError;
use crate::gaps::{gap_step, GapFinder};

verus! {

/// One registered analyzer. The traversal driver holds a collection of these
/// and dispatches each commit to every one of them, without knowing which
/// analysis any of them performs.
pub enum AnyAnalyzer {
    Counter(Counter),
    GapFinder(GapFinder),
}

/// The mathematical model of one analyzer's state.
pub enum AView {
    Counter(Map<Seq<char>, CountsModel>),
    GapFinder(Map<int, Seq<char>>),
}

impl View for AnyAnalyzer {
    type V = AView;

    open spec fn view(&self) -> AView {
        match self {
            AnyAnalyzer::Counter(c) => AView::Counter(c@),
            AnyAnalyzer::GapFinder(g) => AView::GapFinder(g@),
        }
    }
}

/// Whether an analyzer in state `v` ingests `c` successfully: the counter
/// requires the author name and message to be readable; the gap finder never
/// fails.
pub open spec fn aview_accepts(v: AView, c: CommitView) -> bool {
    match v {
        AView::Counter(_) => wf_commit(c),
        AView::GapFinder(_) => true,
    }
}

/// Whether an analyzer in state `v` can take `c` without its stored totals
/// leaving the machine's integer range.
pub open spec fn aview_can(v: AView, c: CommitView) -> bool {
    match v {
        AView::Counter(m) => counts_fit(m, c),
        AView::GapFinder(_) => true,
    }
}

/// The state of an analyzer after a successful ingestion of `c`.
pub open spec fn aview_step(v: AView, c: CommitView) -> AView {
    match v {
        AView::Counter(m) => AView::Counter(counter_step(m, c)),
        AView::GapFinder(m) => AView::GapFinder(gap_step(m, c)),
    }
}

impl AnyAnalyzer {
    pub open spec fn wf(&self) -> bool {
        match self {
            AnyAnalyzer::Counter(c) => c.wf(),
            AnyAnalyzer::GapFinder(g) => g.wf(),
        }
    }

    /// Whether `ingest` may be called on `c` without overflow. Callers
    /// outside verified code can test this before ingesting.
    pub fn can_ingest(&self, c: &CommitRecord) -> (r: bool)
        requires
            self.wf(),
        ensures
            r == aview_can(self@, c@),
    {
        match self {
            AnyAnalyzer::Counter(ct) => ct.can_ingest(c),
            AnyAnalyzer::GapFinder(_) => true,
        }
    }

    /// Dispatch one commit to this analyzer. On success the state advances
    /// by the analyzer's own step; on failure (`MalformedCommit`, from the
    /// counter on an unreadable author name or message) the state is
    /// unchanged.
    pub fn ingest(&mut self, c: &CommitRecord) -> (r: Result<(), AnalysisError>)
        requires
            old(self).wf(),
            aview_can(old(self)@, c@),
        ensures
            final(self).wf(),
            r is Ok <==> aview_accepts(old(self)@, c@),
            aview_accepts(old(self)@, c@) ==> final(self)@ == aview_step(old(self)@, c@),
            !aview_accepts(old(self)@, c@) ==> *final(self) == *old(self) && r == Err::<
                (),
                AnalysisError,
            >(AnalysisError::MalformedCommit),
    {
        match self {
            AnyAnalyzer::Counter(ct) => ct.ingest(c),
            AnyAnalyzer::GapFinder(g) => g.ingest(c),
        }
    }
}

/// The models of a collection of analyzers.
pub open spec fn views(s: Seq<AnyAnalyzer>) -> Seq<AView> {
    s.map_values(|a: AnyAnalyzer| a@)
}

/// The models of a collection of commit records.
pub open spec fn cviews(s: Seq<CommitRecord>) -> Seq<CommitView> {
    s.map_values(|c: CommitRecord| c@)
}

/// Dispatching one commit to a collection of analyzer states, in order,
/// stopping at the first failure: the new states, and whether every analyzer
/// succeeded.
pub open spec fn step_commit(vs: Seq<AView>, c: CommitView) -> (Seq<AView>, bool)
    decreases vs.len(),
{
    if vs.len() == 0 {
        (Seq::empty(), true)
    } else if aview_accepts(vs[0], c) {
        let t = step_commit(vs.drop_first(), c);
        (seq![aview_step(vs[0], c)] + t.0, t.1)
    } else {
        (vs, false)
    }
}

/// What one dispatched commit does to each analyzer: the whole dispatch
/// succeeds exactly when every analyzer accepts the commit, and an analyzer
/// steps exactly when it and all analyzers registered before it accept.
pub proof fn lemma_step_commit(vs: Seq<AView>, c: CommitView)
    ensures
        step_commit(vs, c).0.len() == vs.len(),
        step_commit(vs, c).1 <==> (forall|j: int| 0 <= j < vs.len() ==> aview_accepts(
            #[trigger] vs[j],
            c,
        )),
        forall|j: int| 0 <= j < vs.len() ==> #[trigger] step_commit(vs, c).0[j] == (if (forall|
            l: int,
        |
            0 <= l <= j ==> aview_accepts(#[trigger] vs[l], c)) {
            aview_step(vs[j], c)
        } else {
            vs[j]
        }),
    decreases vs.len(),
{
    if vs.len() > 0 {
        lemma_step_commit(vs.drop_first(), c);
        if aview_accepts(vs[0], c) {
            let t = step_commit(vs.drop_first(), c);
            assert forall|j: int| 0 <= j < vs.len() implies #[trigger] step_commit(vs, c).0[j]
                == (if (forall|l: int| 0 <= l <= j ==> aview_accepts(#[trigger] vs[l], c)) {
                aview_step(vs[j], c)
            } else {
                vs[j]
            }) by {
                if j > 0 {
                    assert(step_commit(vs, c).0[j] == t.0[j - 1]);
                    assert(vs.drop_first()[j - 1] == vs[j]);
                    if forall|l: int| 0 <= l <= j ==> aview_accepts(#[trigger] vs[l], c) {
                        assert(forall|l: int|
                            0 <= l <= j - 1 ==> aview_accepts(
                                #[trigger] vs.drop_first()[l],
                                c,
                            ) == aview_accepts(vs[l + 1], c));
                    } else {
                        let l = choose|l: int| 0 <= l <= j && !aview_accepts(#[trigger] vs[l], c);
                        assert(l > 0);
                        assert(!aview_accepts(vs.drop_first()[l - 1], c));
                    }
                }
            }
            assert forall|j: int| 0 <= j < vs.len() implies aview_accepts(#[trigger] vs[j], c)
                == (if j == 0 {
                true
            } else {
                aview_accepts(vs.drop_first()[j - 1], c)
            }) by {
                if j > 0 {
                    assert(vs.drop_first()[j - 1] == vs[j]);
                }
            }
        }
    }
}

/// Dispatch one commit to every registered analyzer, in registration order,
/// propagating the first failure and leaving the remaining analyzers
/// untouched.
pub fn ingest_commit(analyzers: &mut Vec<AnyAnalyzer>, c: &CommitRecord) -> (r: Result<
    (),
    AnalysisError,
>)
    requires
        forall|j: int| 0 <= j < old(analyzers)@.len() ==> (#[trigger] old(analyzers)@[j]).wf()
            && aview_can(old(analyzers)@[j]@, c@),
    ensures
        final(analyzers)@.len() == old(analyzers)@.len(),
        forall|j: int| 0 <= j < final(analyzers)@.len() ==> (#[trigger] final(analyzers)@[j]).wf(),
        views(final(analyzers)@) == step_commit(views(old(analyzers)@), c@).0,
        (r is Ok) == step_commit(views(old(analyzers)@), c@).1,
        r is Err ==> r == Err::<(), AnalysisError>(AnalysisError::MalformedCommit),
{
    let ghost vs0 = views(old(analyzers)@);
    proof {
        lemma_step_commit(vs0, c@);
    }
    let n = analyzers.len();
    let mut j: usize = 0;
    while j < n
        invariant
            j <= n,
            n == analyzers@.len(),
            vs0 == views(old(analyzers)@),
            vs0.len() == n,
            forall|l: int| 0 <= l < n ==> (#[trigger] analyzers@[l]).wf(),
            forall|l: int| j <= l < n ==> #[trigger] analyzers@[l] == old(analyzers)@[l],
            forall|l: int| 0 <= l < j ==> aview_accepts(#[trigger] vs0[l], c@),
            forall|l: int| 0 <= l < j ==> #[trigger] analyzers@[l]@ == aview_step(vs0[l], c@),
            forall|l: int| 0 <= l < n ==> aview_can(#[trigger] old(analyzers)@[l]@, c@),
        decreases n - j,
    {
        let ghost pre = analyzers@;
        let mut a = analyzers.remove(j);
        let res = a.ingest(c);
        let ghost anew = a;
        analyzers.insert(j, a);
        proof {
            assert(analyzers@ =~= pre.update(j as int, anew));
        }
        if res.is_err() {
            proof {
                lemma_step_commit(vs0, c@);
                assert(!aview_accepts(vs0[j as int], c@));
                assert(analyzers@ =~= pre);
                assert forall|l: int| 0 <= l < n implies #[trigger] views(analyzers@)[l]
                    == step_commit(vs0, c@).0[l] by {
                    if l < j {
                        assert(forall|l2: int| 0 <= l2 <= l ==> aview_accepts(
                            #[trigger] vs0[l2],
                            c@,
                        ));
                    } else {
                        assert(!(forall|l2: int| 0 <= l2 <= l ==> aview_accepts(
                            #[trigger] vs0[l2],
                            c@,
                        )));
                        assert(analyzers@[l] == old(analyzers)@[l]);
                    }
                }
                assert(views(analyzers@) =~= step_commit(vs0, c@).0);
            }
            return Err(AnalysisError::MalformedCommit);
        }
        j = j + 1;
    }
    proof {
        lemma_step_commit(vs0, c@);
        assert(views(analyzers@) =~= step_commit(vs0, c@).0);
    }
    Ok(())
}

/// A full traversal over analyzer states: dispatch each commit of `rs`, in
/// order, to every analyzer, stopping at the first failed dispatch. Yields
/// the final states and whether the whole run succeeded.
pub open spec fn run(vs: Seq<AView>, rs: Seq<CommitView>) -> (Seq<AView>, bool)
    decreases rs.len(),
{
    if rs.len() == 0 {
        (vs, true)
    } else {
        let t = step_commit(vs, rs[0]);
        if t.1 {
            run(t.0, rs.drop_first())
        } else {
            t
        }
    }
}

/// A run over one more commit is the run so far followed by one dispatch,
/// unless the run already failed.
pub proof fn lemma_run_snoc(vs: Seq<AView>, rs: Seq<CommitView>, c: CommitView)
    ensures
        run(vs, rs).1 ==> run(vs, rs.push(c)).0 == step_commit(run(vs, rs).0, c).0 && run(
            vs,
            rs.push(c),
        ).1 == step_commit(run(vs, rs).0, c).1,
        !run(vs, rs).1 ==> run(vs, rs.push(c)).0 == run(vs, rs).0 && run(vs, rs.push(c)).1 == run(
            vs,
            rs,
        ).1,
    decreases rs.len(),
{
    if rs.len() == 0 {
        assert(rs.push(c)[0] == c);
        assert(rs.push(c).drop_first() =~= rs);
        assert(rs.push(c).drop_first() == rs);
        let t = step_commit(vs, c);
        if t.1 {
            assert(run(vs, rs.push(c)) == run(t.0, rs));
            assert(run(t.0, rs).0 == t.0 && run(t.0, rs).1);
        }
    } else {
        assert(rs.push(c)[0] == rs[0]);
        assert(rs.push(c).drop_first() =~= rs.drop_first().push(c));
        assert(rs.push(c).drop_first() == rs.drop_first().push(c));
        let t = step_commit(vs, rs[0]);
        lemma_run_snoc(t.0, rs.drop_first(), c);
        if t.1 {
            assert(run(vs, rs.push(c)) == run(t.0, rs.drop_first().push(c)));
            assert(run(vs, rs).0 == run(t.0, rs.drop_first()).0);
            assert(run(vs, rs).1 == run(t.0, rs.drop_first()).1);
        } else {
            assert(run(vs, rs.push(c)).0 == t.0 && !run(vs, rs.push(c)).1);
            assert(run(vs, rs).0 == t.0 && !run(vs, rs).1);
        }
    }
}

/// Once a run has failed, the remaining commits change nothing.
pub proof fn lemma_run_stops(vs: Seq<AView>, rs: Seq<CommitView>, i: int)
    requires
        0 <= i <= rs.len(),
        !run(vs, rs.take(i)).1,
    ensures
        run(vs, rs).0 == run(vs, rs.take(i)).0,
        run(vs, rs).1 == run(vs, rs.take(i)).1,
    decreases rs.len() - i,
{
    if i == rs.len() {
        assert(rs.take(i) =~= rs);
    } else {
        lemma_run_snoc(vs, rs.take(i), rs[i]);
        assert(rs.take(i + 1) =~= rs.take(i).push(rs[i]));
        lemma_run_stops(vs, rs, i + 1);
    }
}

/// Whether an analyzer starting in state `v` stays within the machine's
/// integer range along the whole run over `rs` (up to the point where it
/// would reject a commit, which aborts the run).
pub open spec fn feasible(v: AView, rs: Seq<CommitView>) -> bool
    decreases rs.len(),
{
    rs.len() == 0 || (aview_can(v, rs[0]) && (aview_accepts(v, rs[0]) ==> feasible(
        aview_step(v, rs[0]),
        rs.drop_first(),
    )))
}

/// Walk the whole history: feed every commit of `records`, in order, to every
/// analyzer, in registration order, aborting the traversal at the first
/// failure and propagating it. On success every commit has been delivered to
/// every analyzer.
pub fn ingest_all(analyzers: &mut Vec<AnyAnalyzer>, records: &Vec<CommitRecord>) -> (r: Result<
    (),
    AnalysisError,
>)
    requires
        forall|j: int| 0 <= j < old(analyzers)@.len() ==> (#[trigger] old(analyzers)@[j]).wf()
            && feasible(old(analyzers)@[j]@, cviews(records@)),
    ensures
        final(analyzers)@.len() == old(analyzers)@.len(),
        forall|j: int| 0 <= j < final(analyzers)@.len() ==> (#[trigger] final(analyzers)@[j]).wf(),
        views(final(analyzers)@) == run(views(old(analyzers)@), cviews(records@)).0,
        (r is Ok) == run(views(old(analyzers)@), cviews(records@)).1,
        r is Err ==> r == Err::<(), AnalysisError>(AnalysisError::MalformedCommit),
{
    let ghost vs0 = views(old(analyzers)@);
    let ghost cvs = cviews(records@);
    proof {
        assert(cvs.skip(0) =~= cvs);
        assert(cvs.take(0) =~= Seq::<CommitView>::empty());
    }
    let n = records.len();
    let mut i: usize = 0;
    while i < n
        invariant
            i <= n,
            n == records@.len(),
            vs0 == views(old(analyzers)@),
            cvs == cviews(records@),
            run(vs0, cvs.take(i as int)).0 == views(analyzers@),
            run(vs0, cvs.take(i as int)).1,
            analyzers@.len() == vs0.len(),
            forall|j: int| 0 <= j < analyzers@.len() ==> (#[trigger] analyzers@[j]).wf()
                && feasible(analyzers@[j]@, cvs.skip(i as int)),
        decreases n - i,
    {
        let ghost pre_views = views(analyzers@);
        proof {
            assert(cvs.skip(i as int)[0] == cvs[i as int]);
            assert forall|j: int| 0 <= j < analyzers@.len() implies aview_can(
                (#[trigger] analyzers@[j])@,
                records@[i as int]@,
            ) by {
                assert(feasible(analyzers@[j]@, cvs.skip(i as int)));
            }
        }
        let res = ingest_commit(analyzers, &records[i]);
        proof {
            lemma_run_snoc(vs0, cvs.take(i as int), cvs[i as int]);
            assert(cvs.take(i as int + 1) =~= cvs.take(i as int).push(cvs[i as int]));
            lemma_step_commit(pre_views, cvs[i as int]);
        }
        if res.is_err() {
            proof {
                lemma_run_stops(vs0, cvs, i as int + 1);
            }
            return Err(AnalysisError::MalformedCommit);
        }
        proof {
            assert(cvs.skip(i as int).drop_first() =~= cvs.skip(i as int + 1));
            assert forall|j: int| 0 <= j < analyzers@.len() implies (#[trigger] analyzers@[j]).wf()
                && feasible(analyzers@[j]@, cvs.skip(i as int + 1)) by {
                assert(views(analyzers@)[j] == aview_step(pre_views[j], cvs[i as int]));
                assert(aview_accepts(pre_views[j], cvs[i as int]));
                assert(feasible(pre_views[j], cvs.skip(i as int)));
            }
        }
        i = i + 1;
    }
    proof {
        assert(cvs.take(n as int) =~= cvs);
    }
    Ok(())
}

/// The state of one analyzer after ingesting every commit of `rs` itself,
/// with no other analyzer in between.
pub open spec fn aview_run(v: AView, rs: Seq<CommitView>) -> AView
    decreases rs.len(),
{
    if rs.len() == 0 {
        v
    } else {
        aview_run(aview_step(v, rs[0]), rs.drop_first())
    }
}

/// Law: in a successful run the analyzers do not interfere — each one ends
/// in exactly the state it would reach ingesting the whole history alone.
pub proof fn lemma_run_componentwise(vs: Seq<AView>, rs: Seq<CommitView>)
    requires
        run(vs, rs).1,
    ensures
        run(vs, rs).0.len() == vs.len(),
        forall|j: int| 0 <= j < vs.len() ==> #[trigger] run(vs, rs).0[j] == aview_run(vs[j], rs),
    decreases rs.len(),
{
    if rs.len() == 0 {
    } else {
        let t = step_commit(vs, rs[0]);
        lemma_step_commit(vs, rs[0]);
        assert(t.1);
        lemma_run_componentwise(t.0, rs.drop_first());
        assert forall|j: int| 0 <= j < vs.len() implies #[trigger] run(vs, rs).0[j] == aview_run(
            vs[j],
            rs,
        ) by {
            assert(t.0[j] == aview_step(vs[j], rs[0]));
            assert(run(vs, rs).0[j] == aview_run(t.0[j], rs.drop_first()));
        }
    }
}

/// A counter analyzer's solo run is the counter model's own fold.
pub proof fn lemma_aview_run_counter(m: Map<Seq<char>, CountsModel>, rs: Seq<CommitView>)
    ensures
        aview_run(AView::Counter(m), rs) == AView::Counter(crate::counter::counter_run(m, rs)),
    decreases rs.len(),
{
    if rs.len() > 0 {
        lemma_aview_run_counter(counter_step(m, rs[0]), rs.drop_first());
    }
}

/// A gap-finder analyzer's solo run is the gap model's own fold.
pub proof fn lemma_aview_run_gaps(m: Map<int, Seq<char>>, rs: Seq<CommitView>)
    ensures
        aview_run(AView::GapFinder(m), rs) == AView::GapFinder(crate::gaps::gap_run(m, rs)),
    decreases rs.len(),
{
    if rs.len() > 0 {
        lemma_aview_run_gaps(gap_step(m, rs[0]), rs.drop_first());
    }
}

/// Law: after a successful traversal, a counter that was registered empty
/// holds, for each author, exactly the number of delivered commits with that
/// author name and the summed word counts of those commits' messages.
pub proof fn lemma_run_counter_totals(vs: Seq<AView>, rs: Seq<CommitView>, j: int, a: Seq<char>)
    requires
        run(vs, rs).1,
        0 <= j < vs.len(),
        vs[j] == AView::Counter(Map::<Seq<char>, CountsModel>::empty()),
        forall|i: int| 0 <= i < rs.len() ==> wf_commit(#[trigger] rs[i]),
    ensures
        run(vs, rs).0[j] == AView::Counter(
            crate::counter::counter_run(Map::empty(), rs),
        ),
        crate::counter::counter_run(Map::<Seq<char>, CountsModel>::empty(), rs).dom().contains(a)
            <==> crate::counter::commits_by(rs, a) > 0,
        crate::counter::counter_run(Map::<Seq<char>, CountsModel>::empty(), rs).dom().contains(a)
            ==> crate::counter::counter_run(Map::<Seq<char>, CountsModel>::empty(), rs)[a]
            == (CountsModel {
            commits: crate::counter::commits_by(rs, a),
            words: crate::counter::words_by(rs, a),
        }),
{
    lemma_run_componentwise(vs, rs);
    lemma_aview_run_counter(Map::empty(), rs);
    crate::counter::lemma_counter_run_totals(Map::empty(), rs, a);
}

/// Law: after a successful traversal, a gap finder that was registered empty
/// holds an entry exactly at each non-zero gap that occurs among the
/// delivered commits; commits whose two timestamps agree leave no entry.
pub proof fn lemma_run_gap_entries(vs: Seq<AView>, rs: Seq<CommitView>, j: int, k: int)
    requires
        run(vs, rs).1,
        0 <= j < vs.len(),
        vs[j] == AView::GapFinder(Map::<int, Seq<char>>::empty()),
    ensures
        run(vs, rs).0[j] == AView::GapFinder(crate::gaps::gap_run(Map::empty(), rs)),
        crate::gaps::gap_run(Map::<int, Seq<char>>::empty(), rs).dom().contains(k) <==> (k != 0
            && exists|i: int| 0 <= i < rs.len() && crate::commit::gap_of(#[trigger] rs[i]) == k),
{
    lemma_run_componentwise(vs, rs);
    lemma_aview_run_gaps(Map::empty(), rs);
    crate::gaps::lemma_gap_run_dom(Map::empty(), rs, k);
}

} // verus!
