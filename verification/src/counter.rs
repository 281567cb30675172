use vstd::prelude::*;

use crate::commit::{author_of, message_of, wf_commit, CommitRecord, CommitView};
use crate::errors::AnalysisError;
use crate::words::{count_words, word_count};

verus! {

/// Accumulated totals for one author.
#[derive(Clone, Copy, Debug)]
pub struct Counts {
    /// How many commits this author has.
    pub commits: usize,
    /// Total whitespace-delimited words over this author's messages.
    pub words: usize,
}

/// The mathematical model of one author's totals.
pub struct CountsModel {
    pub commits: nat,
    pub words: nat,
}

impl Counts {
    pub open spec fn model(self) -> CountsModel {
        CountsModel { commits: self.commits as nat, words: self.words as nat }
    }
}

/// The per-author word/commit counter: an analyzer that aggregates, for each
/// author name (exact, case-sensitive match), the number of commits and the
/// total word count of their messages.
///
/// Entries are kept in first-sighting order; the model is the mapping from
/// author name to totals.
pub struct Counter {
    entries: Vec<(String, Counts)>,
}

/// The mapping that a sequence of (author, totals) entries denotes.
pub open spec fn counts_map_of(s: Seq<(String, Counts)>) -> Map<Seq<char>, CountsModel>
    decreases s.len(),
{
    if s.len() == 0 {
        Map::empty()
    } else {
        counts_map_of(s.drop_last()).insert(s.last().0@, s.last().1.model())
    }
}

/// A key is in the mapping exactly when some entry carries it.
pub proof fn lemma_counts_map_dom(s: Seq<(String, Counts)>, k: Seq<char>)
    ensures
        counts_map_of(s).dom().contains(k) <==> exists|i: int| 0 <= i < s.len() && s[i].0@ == k,
    decreases s.len(),
{
    if s.len() > 0 {
        lemma_counts_map_dom(s.drop_last(), k);
        if s.last().0@ == k {
            assert(s[s.len() - 1].0@ == k);
        } else if counts_map_of(s).dom().contains(k) {
            let i = choose|i: int| 0 <= i < s.drop_last().len() && s.drop_last()[i].0@ == k;
            assert(s[i].0@ == k);
        } else if exists|i: int| 0 <= i < s.len() && s[i].0@ == k {
            let i = choose|i: int| 0 <= i < s.len() && s[i].0@ == k;
            assert(s.drop_last()[i].0@ == k);
        }
    }
}

/// With pairwise-distinct keys, the mapping sends each entry's key to that
/// entry's totals.
pub proof fn lemma_counts_map_at(s: Seq<(String, Counts)>, i: int)
    requires
        forall|p: int, q: int| 0 <= p < q < s.len() ==> s[p].0@ != s[q].0@,
        0 <= i < s.len(),
    ensures
        counts_map_of(s).dom().contains(s[i].0@),
        counts_map_of(s)[s[i].0@] == s[i].1.model(),
    decreases s.len(),
{
    if i == s.len() - 1 {
        assert(s.last() == s[i]);
    } else {
        lemma_counts_map_at(s.drop_last(), i);
        assert(s.drop_last()[i] == s[i]);
        assert(s[i].0@ != s[s.len() - 1].0@);
    }
}

/// One ingestion step of the counter model on a well-formed commit: create or
/// update the author's entry, adding one commit and the message's word count.
pub open spec fn counter_step(m: Map<Seq<char>, CountsModel>, c: CommitView) -> Map<
    Seq<char>,
    CountsModel,
>
    recommends
        wf_commit(c),
{
    let a = author_of(c);
    let wc = word_count(message_of(c));
    if m.dom().contains(a) {
        m.insert(a, CountsModel { commits: m[a].commits + 1, words: m[a].words + wc })
    } else {
        m.insert(a, CountsModel { commits: 1nat, words: wc })
    }
}

/// Whether one more commit can be accumulated without the stored totals
/// leaving the machine's integer range.
pub open spec fn counts_fit(m: Map<Seq<char>, CountsModel>, c: CommitView) -> bool {
    wf_commit(c) && m.dom().contains(author_of(c)) ==> {
        &&& m[author_of(c)].commits + 1 <= usize::MAX
        &&& m[author_of(c)].words + word_count(message_of(c)) <= usize::MAX
    }
}

impl View for Counter {
    type V = Map<Seq<char>, CountsModel>;

    closed spec fn view(&self) -> Map<Seq<char>, CountsModel> {
        counts_map_of(self.entries@)
    }
}

impl Counter {
    /// Internal invariant: author names are pairwise distinct, and every
    /// present entry has at least one commit.
    pub closed spec fn wf(&self) -> bool {
        &&& forall|p: int, q: int|
            0 <= p < q < self.entries@.len() ==> self.entries@[p].0@ != self.entries@[q].0@
        &&& forall|i: int| 0 <= i < self.entries@.len() ==> (#[trigger] self.entries@[i]).1.commits
            >= 1
    }

    /// A fresh counter with no recorded authors.
    pub fn new() -> (r: Counter)
        ensures
            r.wf(),
            r@ == Map::<Seq<char>, CountsModel>::empty(),
    {
        Counter { entries: Vec::new() }
    }

    /// The index of the entry for `name`, if there is one.
    fn find(&self, name: &String) -> (r: Option<usize>)
        requires
            self.wf(),
        ensures
            match r {
                Some(i) => i < self.entries@.len() && self.entries@[i as int].0@ == name@,
                None => forall|i: int| 0 <= i < self.entries@.len() ==> self.entries@[i].0@ != name@,
            },
    {
        let n = self.entries.len();
        let mut i: usize = 0;
        while i < n
            invariant
                i <= n,
                n == self.entries@.len(),
                forall|j: int| 0 <= j < i ==> self.entries@[j].0@ != name@,
            decreases n - i,
        {
            if self.entries[i].0 == *name {
                return Some(i);
            }
            i = i + 1;
        }
        None
    }

    /// Whether `ingest` may be called on `c` without the stored totals
    /// overflowing. Callers outside verified code can test this before
    /// ingesting.
    pub fn can_ingest(&self, c: &CommitRecord) -> (r: bool)
        requires
            self.wf(),
        ensures
            r == counts_fit(self@, c@),
    {
        match (&c.author_name, &c.message) {
            (Some(name), Some(msg)) => {
                match self.find(name) {
                    Some(i) => {
                        proof {
                            lemma_counts_map_at(self.entries@, i as int);
                        }
                        let wc = count_words(msg.as_str());
                        let counts = self.entries[i].1;
                        counts.commits < usize::MAX && counts.words <= usize::MAX - wc
                    },
                    None => {
                        proof {
                            lemma_counts_map_dom(self.entries@, c@.author_name->Some_0);
                        }
                        true
                    },
                }
            },
            _ => true,
        }
    }

    /// Consume one commit: on a well-formed commit, add one commit and the
    /// message's word count to the author's totals, creating the entry on
    /// first sighting; on a malformed commit, fail with `MalformedCommit`
    /// and leave the state unchanged.
    pub fn ingest(&mut self, c: &CommitRecord) -> (r: Result<(), AnalysisError>)
        requires
            old(self).wf(),
            counts_fit(old(self)@, c@),
        ensures
            final(self).wf(),
            r is Ok <==> wf_commit(c@),
            !wf_commit(c@) ==> r == Err::<(), AnalysisError>(AnalysisError::MalformedCommit)
                && *final(self) == *old(self),
            wf_commit(c@) ==> final(self)@ == counter_step(old(self)@, c@),
    {
        let (name, msg) = match (&c.author_name, &c.message) {
            (Some(name), Some(msg)) => (name, msg),
            _ => {
                return Err(AnalysisError::MalformedCommit);
            },
        };
        let wc = count_words(msg.as_str());
        match self.find(name) {
            Some(i) => {
                proof {
                    lemma_counts_map_at(self.entries@, i as int);
                }
                let counts = self.entries[i].1;
                let updated = Counts { commits: counts.commits + 1, words: counts.words + wc };
                let key = self.entries[i].0.clone();
                let ghost pre = self.entries@;
                self.entries[i] = (key, updated);
                proof {
                    lemma_counts_map_update(pre, i as int, (key, updated));
                }
                Ok(())
            },
            None => {
                proof {
                    lemma_counts_map_dom(self.entries@, name@);
                }
                let key = name.clone();
                let entry = (key, Counts { commits: 1, words: wc });
                let ghost pre = self.entries@;
                self.entries.push(entry);
                proof {
                    assert(self.entries@.drop_last() =~= pre);
                }
                Ok(())
            },
        }
    }
}

/// One row of the counter's report: an author with their final totals.
/// `words_per_commit` is the quotient `words / commits`; rows carry the two
/// operands exactly, so renderers derive it from the same totals the counter
/// accumulated.
pub struct CounterRow {
    pub author: String,
    pub commits: usize,
    pub words: usize,
}

/// Whether `a`'s words-per-commit is at least `b`'s. Both sides are scaled
/// by the (positive) product of the commit counts, so this compares the
/// exact rationals `a.words / a.commits >= b.words / b.commits` without
/// division.
pub open spec fn row_ge(a: CounterRow, b: CounterRow) -> bool {
    a.words * b.commits >= b.words * a.commits
}

/// Descending order by words-per-commit between adjacent rows.
pub open spec fn rows_sorted(s: Seq<CounterRow>) -> bool {
    forall|p: int| 0 <= p < s.len() - 1 ==> row_ge(#[trigger] s[p], s[p + 1])
}

/// The report row an entry denotes.
pub open spec fn rows_of(s: Seq<(String, Counts)>) -> Seq<CounterRow> {
    s.map_values(|e: (String, Counts)| CounterRow { author: e.0, commits: e.1.commits, words: e.1.words })
}

/// Where `r` goes when inserted into `s`: before the first row whose
/// words-per-commit it reaches, at the end otherwise. Ties place the
/// incoming row first; the choice is arbitrary but deterministic.
pub open spec fn insert_pos(r: CounterRow, s: Seq<CounterRow>) -> int
    decreases s.len(),
{
    if s.len() == 0 {
        0
    } else if row_ge(r, s[0]) {
        0
    } else {
        1 + insert_pos(r, s.drop_first())
    }
}

/// `insert_pos` is the first index whose row the inserted one reaches.
pub proof fn lemma_insert_pos(r: CounterRow, s: Seq<CounterRow>)
    ensures
        0 <= insert_pos(r, s) <= s.len(),
        forall|k: int| 0 <= k < insert_pos(r, s) ==> !row_ge(r, #[trigger] s[k]),
        insert_pos(r, s) < s.len() ==> row_ge(r, s[insert_pos(r, s)]),
    decreases s.len(),
{
    if s.len() > 0 && !row_ge(r, s[0]) {
        lemma_insert_pos(r, s.drop_first());
        assert forall|k: int| 0 <= k < insert_pos(r, s) implies !row_ge(r, #[trigger] s[k]) by {
            if k > 0 {
                assert(s.drop_first()[k - 1] == s[k]);
            }
        }
        if insert_pos(r, s) < s.len() {
            assert(s.drop_first()[insert_pos(r, s.drop_first())] == s[insert_pos(r, s)]);
        }
    }
}

/// `s` with `r` inserted at its position.
pub open spec fn insert_row(r: CounterRow, s: Seq<CounterRow>) -> Seq<CounterRow> {
    let p = insert_pos(r, s);
    s.take(p) + seq![r] + s.skip(p)
}

/// Inserting keeps the descending order: everything before the position
/// sits above the incoming row (the comparison is total on integers), and
/// everything from the position on sits below it.
pub proof fn lemma_insert_row_sorted(r: CounterRow, s: Seq<CounterRow>)
    requires
        rows_sorted(s),
    ensures
        rows_sorted(insert_row(r, s)),
{
    let p = insert_pos(r, s);
    let t = insert_row(r, s);
    lemma_insert_pos(r, s);
    assert forall|q: int| 0 <= q < t.len() - 1 implies row_ge(#[trigger] t[q], t[q + 1]) by {
        if q + 1 < p {
            assert(t[q] == s[q] && t[q + 1] == s[q + 1]);
        } else if q + 1 == p {
            assert(t[q] == s[q] && t[q + 1] == r);
            assert(!row_ge(r, s[q]));
        } else if q == p {
            assert(t[q] == r && t[q + 1] == s[q]);
        } else {
            assert(t[q] == s[q - 1] && t[q + 1] == s[q]);
        }
    }
}

/// Sorting `s` descending by words-per-commit, one insertion at a time.
pub open spec fn sort_rows(s: Seq<CounterRow>) -> Seq<CounterRow>
    decreases s.len(),
{
    if s.len() == 0 {
        Seq::empty()
    } else {
        insert_row(s.last(), sort_rows(s.drop_last()))
    }
}

/// The sorted rows are exactly as many as the input rows.
pub proof fn lemma_sort_rows_len(s: Seq<CounterRow>)
    ensures
        sort_rows(s).len() == s.len(),
    decreases s.len(),
{
    if s.len() > 0 {
        lemma_sort_rows_len(s.drop_last());
        lemma_insert_pos(s.last(), sort_rows(s.drop_last()));
    }
}

/// The sorted rows are in descending words-per-commit order.
pub proof fn lemma_sort_rows_sorted(s: Seq<CounterRow>)
    ensures
        rows_sorted(sort_rows(s)),
    decreases s.len(),
{
    if s.len() > 0 {
        lemma_sort_rows_sorted(s.drop_last());
        lemma_insert_row_sorted(s.last(), sort_rows(s.drop_last()));
    }
}

/// Every sorted row is one of the input rows.
pub proof fn lemma_sort_rows_from_input(s: Seq<CounterRow>, i: int)
    requires
        0 <= i < sort_rows(s).len(),
    ensures
        exists|j: int| 0 <= j < s.len() && s[j] == sort_rows(s)[i],
    decreases s.len(),
{
    if s.len() > 0 {
        let rest = sort_rows(s.drop_last());
        let p = insert_pos(s.last(), rest);
        lemma_insert_pos(s.last(), rest);
        lemma_sort_rows_len(s.drop_last());
        if i == p {
            assert(sort_rows(s)[i] == s.last());
            assert(s[s.len() - 1] == sort_rows(s)[i]);
        } else {
            let i0: int = if i < p {
                i
            } else {
                i - 1
            };
            assert(rest[i0] == sort_rows(s)[i]);
            lemma_sort_rows_from_input(s.drop_last(), i0);
            let j = choose|j: int| 0 <= j < s.drop_last().len() && s.drop_last()[j] == rest[i0];
            assert(s[j] == sort_rows(s)[i]);
        }
    }
}

/// Every input row appears among the sorted rows.
pub proof fn lemma_sort_rows_complete(s: Seq<CounterRow>, j: int)
    requires
        0 <= j < s.len(),
    ensures
        exists|i: int| 0 <= i < sort_rows(s).len() && sort_rows(s)[i] == s[j],
    decreases s.len(),
{
    let rest = sort_rows(s.drop_last());
    let p = insert_pos(s.last(), rest);
    lemma_insert_pos(s.last(), rest);
    lemma_sort_rows_len(s.drop_last());
    if j == s.len() - 1 {
        assert(sort_rows(s)[p] == s[j]);
    } else {
        lemma_sort_rows_complete(s.drop_last(), j);
        let i0 = choose|i: int| 0 <= i < rest.len() && rest[i] == s.drop_last()[j];
        let i: int = if i0 < p {
            i0
        } else {
            i0 + 1
        };
        assert(sort_rows(s)[i] == rest[i0]);
        assert(s.drop_last()[j] == s[j]);
    }
}

impl Counter {
    /// The report the counter's current state denotes: one row per author,
    /// carrying the final totals, in descending words-per-commit order.
    pub closed spec fn report_model(&self) -> Seq<CounterRow> {
        sort_rows(rows_of(self.entries@))
    }

    /// Emit the accumulated findings: one row per recorded author with
    /// that author's exact final totals, sorted descending by
    /// words-per-commit. Read-only, so repeated reports of the same state
    /// are identical.
    pub fn report_rows(&self) -> (r: Vec<CounterRow>)
        requires
            self.wf(),
        ensures
            r@ == self.report_model(),
            rows_sorted(r@),
            forall|i: int| 0 <= i < r@.len() ==> {
                &&& self@.dom().contains((#[trigger] r@[i]).author@)
                &&& self@[r@[i].author@] == (CountsModel {
                    commits: r@[i].commits as nat,
                    words: r@[i].words as nat,
                })
                &&& r@[i].commits >= 1
            },
            forall|a: Seq<char>| self@.dom().contains(a) ==> exists|i: int|
                0 <= i < r@.len() && (#[trigger] r@[i]).author@ == a,
            r@.len() == self@.dom().len(),
    {
        let ghost all_rows = rows_of(self.entries@);
        let n = self.entries.len();
        let mut out: Vec<CounterRow> = Vec::new();
        let mut i: usize = 0;
        while i < n
            invariant
                i <= n,
                n == self.entries@.len(),
                out@ == sort_rows(all_rows.take(i as int)),
                all_rows == rows_of(self.entries@),
            decreases n - i,
        {
            let row = CounterRow {
                author: self.entries[i].0.clone(),
                commits: self.entries[i].1.commits,
                words: self.entries[i].1.words,
            };
            assert(row == all_rows[i as int]);
            let ghost pre = out@;
            let m = out.len();
            let mut p: usize = 0;
            while p < m
                invariant
                    p <= m,
                    m == out@.len(),
                    out@ == pre,
                    forall|k: int| 0 <= k < p ==> !row_ge(row, #[trigger] out@[k]),
                ensures
                    p <= m,
                    out@ == pre,
                    forall|k: int| 0 <= k < p ==> !row_ge(row, #[trigger] out@[k]),
                    p < m ==> row_ge(row, out@[p as int]),
                decreases m - p,
            {
                if row_ge_exec(&row, &out[p]) {
                    break ;
                }
                p = p + 1;
            }
            proof {
                lemma_insert_pos(row, pre);
                let q = insert_pos(row, pre);
                if p < q {
                    assert(row_ge(row, pre[p as int]));
                    assert(false);
                } else if q < p {
                    assert(row_ge(row, pre[q]));
                    assert(false);
                }
            }
            out.insert(p, row);
            proof {
                assert(out@ =~= pre.take(p as int) + seq![row] + pre.skip(p as int));
                assert(all_rows.take(i as int + 1).drop_last() =~= all_rows.take(i as int));
                assert(all_rows.take(i as int + 1).last() == row);
            }
            i = i + 1;
        }
        proof {
            assert(all_rows.take(n as int) =~= all_rows);
            lemma_sort_rows_sorted(all_rows);
            lemma_sort_rows_len(all_rows);
            assert forall|i2: int| 0 <= i2 < out@.len() implies {
                &&& self@.dom().contains((#[trigger] out@[i2]).author@)
                &&& self@[out@[i2].author@] == (CountsModel {
                    commits: out@[i2].commits as nat,
                    words: out@[i2].words as nat,
                })
                &&& out@[i2].commits >= 1
            } by {
                lemma_sort_rows_from_input(all_rows, i2);
                let j = choose|j: int| 0 <= j < all_rows.len() && all_rows[j] == out@[i2];
                lemma_counts_map_at(self.entries@, j);
            }
            assert forall|a: Seq<char>| self@.dom().contains(a) implies exists|i2: int|
                0 <= i2 < out@.len() && (#[trigger] out@[i2]).author@ == a by {
                lemma_counts_map_dom(self.entries@, a);
                let j = choose|j: int| 0 <= j < self.entries@.len() && self.entries@[j].0@ == a;
                lemma_sort_rows_complete(all_rows, j);
                let i2 = choose|i2: int|
                    0 <= i2 < out@.len() && out@[i2] == all_rows[j];
                assert(out@[i2].author@ == a);
            }
            lemma_counts_map_card(self.entries@);
        }
        out
    }
}

/// The counter state after consuming the commits of `rs`, in order.
pub open spec fn counter_run(m: Map<Seq<char>, CountsModel>, rs: Seq<CommitView>) -> Map<
    Seq<char>,
    CountsModel,
>
    decreases rs.len(),
{
    if rs.len() == 0 {
        m
    } else {
        counter_run(counter_step(m, rs[0]), rs.drop_first())
    }
}

/// How many of the commits of `rs` are by author `a` (exact name match).
pub open spec fn commits_by(rs: Seq<CommitView>, a: Seq<char>) -> nat
    decreases rs.len(),
{
    if rs.len() == 0 {
        0
    } else {
        (if wf_commit(rs[0]) && author_of(rs[0]) == a {
            1nat
        } else {
            0nat
        }) + commits_by(rs.drop_first(), a)
    }
}

/// The sum of the whitespace-token counts of the messages of `rs`'s commits
/// by author `a`.
pub open spec fn words_by(rs: Seq<CommitView>, a: Seq<char>) -> nat
    decreases rs.len(),
{
    if rs.len() == 0 {
        0
    } else {
        (if wf_commit(rs[0]) && author_of(rs[0]) == a {
            word_count(message_of(rs[0]))
        } else {
            0nat
        }) + words_by(rs.drop_first(), a)
    }
}

/// Running the counter adds, to whatever `a` already had in `m`, one commit
/// per commit of `rs` authored by `a` and the word counts of those commits'
/// messages.
pub proof fn lemma_counter_run_totals(
    m: Map<Seq<char>, CountsModel>,
    rs: Seq<CommitView>,
    a: Seq<char>,
)
    requires
        forall|i: int| 0 <= i < rs.len() ==> wf_commit(#[trigger] rs[i]),
    ensures
        counter_run(m, rs).dom().contains(a) <==> (m.dom().contains(a) || commits_by(rs, a) > 0),
        counter_run(m, rs).dom().contains(a) ==> counter_run(m, rs)[a] == (CountsModel {
            commits: (if m.dom().contains(a) {
                m[a].commits
            } else {
                0nat
            }) + commits_by(rs, a),
            words: (if m.dom().contains(a) {
                m[a].words
            } else {
                0nat
            }) + words_by(rs, a),
        }),
    decreases rs.len(),
{
    if rs.len() > 0 {
        assert(wf_commit(rs[0]));
        assert forall|i: int| 0 <= i < rs.drop_first().len() implies wf_commit(
            #[trigger] rs.drop_first()[i],
        ) by {
            assert(rs.drop_first()[i] == rs[i + 1]);
        }
        lemma_counter_run_totals(counter_step(m, rs[0]), rs.drop_first(), a);
    }
}

/// Law: starting from an empty counter and ingesting every commit of `rs`,
/// an author's `commits` total equals the number of commits whose author
/// name equals that author exactly, and an author is present exactly when
/// that number is positive.
pub proof fn lemma_counter_commit_totals(rs: Seq<CommitView>, a: Seq<char>)
    requires
        forall|i: int| 0 <= i < rs.len() ==> wf_commit(#[trigger] rs[i]),
    ensures
        counter_run(Map::empty(), rs).dom().contains(a) <==> commits_by(rs, a) > 0,
        counter_run(Map::empty(), rs).dom().contains(a) ==> counter_run(Map::empty(), rs)[a].commits
            == commits_by(rs, a),
{
    lemma_counter_run_totals(Map::empty(), rs, a);
}

/// Law: starting from an empty counter and ingesting every commit of `rs`,
/// an author's `words` total equals the sum of the whitespace-token counts
/// of that author's messages.
pub proof fn lemma_counter_word_totals(rs: Seq<CommitView>, a: Seq<char>)
    requires
        forall|i: int| 0 <= i < rs.len() ==> wf_commit(#[trigger] rs[i]),
        counter_run(Map::empty(), rs).dom().contains(a),
    ensures
        counter_run(Map::empty(), rs)[a].words == words_by(rs, a),
{
    lemma_counter_run_totals(Map::empty(), rs, a);
}

/// Law: reporting is read-only and deterministic, so two reports of the same
/// counter state, with no ingestion in between, are identical.
pub proof fn lemma_counter_report_idempotent(c: &Counter, r1: Seq<CounterRow>, r2: Seq<CounterRow>)
    requires
        r1 == c.report_model(),
        r2 == c.report_model(),
    ensures
        r1 == r2,
{
}

/// With pairwise-distinct keys the mapping has exactly one element per entry.
pub proof fn lemma_counts_map_card(s: Seq<(String, Counts)>)
    requires
        forall|p: int, q: int| 0 <= p < q < s.len() ==> s[p].0@ != s[q].0@,
    ensures
        counts_map_of(s).dom().finite(),
        counts_map_of(s).dom().len() == s.len(),
    decreases s.len(),
{
    if s.len() > 0 {
        lemma_counts_map_card(s.drop_last());
        lemma_counts_map_dom(s.drop_last(), s.last().0@);
        assert(forall|i: int| 0 <= i < s.drop_last().len() ==> s.drop_last()[i] == s[i]);
        assert(!counts_map_of(s.drop_last()).dom().contains(s.last().0@));
    }
}

/// Exact comparison of two rows' words-per-commit, by cross-multiplying the
/// totals.
fn row_ge_exec(a: &CounterRow, b: &CounterRow) -> (r: bool)
    ensures
        r == row_ge(*a, *b),
{
    let aw = a.words as u128;
    let ac = a.commits as u128;
    let bw = b.words as u128;
    let bc = b.commits as u128;
    proof {
        assert(aw * bc < u128::MAX && bw * ac < u128::MAX) by (nonlinear_arith)
            requires
                aw <= u64::MAX,
                ac <= u64::MAX,
                bw <= u64::MAX,
                bc <= u64::MAX,
        ;
    }
    aw * bc >= bw * ac
}

/// Updating entry `i` with an entry carrying the same key updates the mapping
/// at that key.
pub proof fn lemma_counts_map_update(s: Seq<(String, Counts)>, i: int, e: (String, Counts))
    requires
        forall|p: int, q: int| 0 <= p < q < s.len() ==> s[p].0@ != s[q].0@,
        0 <= i < s.len(),
        e.0@ == s[i].0@,
    ensures
        counts_map_of(s.update(i, e)) =~= counts_map_of(s).insert(e.0@, e.1.model()),
    decreases s.len(),
{
    let t = s.update(i, e);
    if i == s.len() - 1 {
        assert(t.drop_last() =~= s.drop_last());
        assert(t.last() == e);
    } else {
        lemma_counts_map_update(s.drop_last(), i, e);
        assert(t.drop_last() =~= s.drop_last().update(i, e));
        assert(t.last() == s.last());
        assert(s[i].0@ != s[s.len() - 1].0@);
    }
}

} // verus!
