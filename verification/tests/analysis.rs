use commit_stats::commit::CommitRecord;
use commit_stats::counter::Counter;
use commit_stats::driver::{ingest_all, ingest_commit, AnyAnalyzer};
use commit_stats::errors::AnalysisError;
use commit_stats::gaps::GapFinder;
use commit_stats::words::count_words;

fn mk(
    id: &str,
    author: Option<&str>,
    message: Option<&str>,
    author_time: i64,
    committer_time: i64,
) -> CommitRecord {
    CommitRecord {
        id: String::from(id),
        author_name: author.map(String::from),
        author_time,
        committer_time,
        message: message.map(String::from),
    }
}

fn fresh_analyzers() -> Vec<AnyAnalyzer> {
    vec![
        AnyAnalyzer::Counter(Counter::new()),
        AnyAnalyzer::GapFinder(GapFinder::new()),
    ]
}

fn counter_of(analyzers: &[AnyAnalyzer]) -> &Counter {
    for a in analyzers {
        if let AnyAnalyzer::Counter(c) = a {
            return c;
        }
    }
    panic!("no counter registered");
}

fn gaps_of(analyzers: &[AnyAnalyzer]) -> &GapFinder {
    for a in analyzers {
        if let AnyAnalyzer::GapFinder(g) = a {
            return g;
        }
    }
    panic!("no gap finder registered");
}

#[test]
fn two_commits_one_author() {
    let records = vec![
        mk("c1", Some("Alice"), Some("fix bug"), 100, 100),
        mk("c2", Some("Alice"), Some("add feature now"), 200, 205),
    ];
    let mut analyzers = fresh_analyzers();
    let r = ingest_all(&mut analyzers, &records);
    assert!(r.is_ok());

    let rows = counter_of(&analyzers).report_rows();
    assert_eq!(rows.len(), 1);
    assert_eq!(rows[0].author, "Alice");
    assert_eq!(rows[0].commits, 2);
    assert_eq!(rows[0].words, 5);
    let wpc = rows[0].words as f32 / rows[0].commits as f32;
    assert_eq!(wpc, 2.5);

    let gaps = gaps_of(&analyzers).report_rows();
    assert_eq!(gaps.len(), 1);
    assert_eq!(gaps[0].0, 5);
    assert_eq!(gaps[0].1, "c2");
}

#[test]
fn malformed_author_aborts_run() {
    let records = vec![
        mk("c1", Some("Alice"), Some("fine"), 10, 10),
        mk("c2", None, Some("orphaned message"), 20, 25),
        mk("c3", Some("Bob"), Some("never reached"), 30, 30),
    ];
    let mut analyzers = fresh_analyzers();
    let r = ingest_all(&mut analyzers, &records);
    assert_eq!(r, Err(AnalysisError::MalformedCommit));

    // The first commit was delivered, the rest of the history was not.
    let rows = counter_of(&analyzers).report_rows();
    assert_eq!(rows.len(), 1);
    assert_eq!(rows[0].author, "Alice");
    assert_eq!(rows[0].commits, 1);
}

#[test]
fn malformed_message_aborts_run() {
    let records = vec![mk("c1", Some("Alice"), None, 10, 10)];
    let mut analyzers = fresh_analyzers();
    let r = ingest_all(&mut analyzers, &records);
    assert_eq!(r, Err(AnalysisError::MalformedCommit));
    assert_eq!(counter_of(&analyzers).report_rows().len(), 0);
}

#[test]
fn counter_rejects_before_later_analyzers_see_the_commit() {
    // The counter is registered first; when it fails, the gap finder never
    // sees the commit, so the non-zero gap is not recorded.
    let records = vec![mk("c1", None, Some("msg"), 100, 110)];
    let mut analyzers = fresh_analyzers();
    let r = ingest_all(&mut analyzers, &records);
    assert_eq!(r, Err(AnalysisError::MalformedCommit));
    assert_eq!(gaps_of(&analyzers).report_rows().len(), 0);
}

#[test]
fn earlier_analyzers_ingest_the_failing_commit() {
    // With the gap finder registered first, it ingests the commit before the
    // counter rejects it, so the gap is recorded even though the run fails.
    let records = vec![mk("c1", None, Some("msg"), 100, 110)];
    let mut analyzers = vec![
        AnyAnalyzer::GapFinder(GapFinder::new()),
        AnyAnalyzer::Counter(Counter::new()),
    ];
    let r = ingest_all(&mut analyzers, &records);
    assert_eq!(r, Err(AnalysisError::MalformedCommit));
    let gaps = gaps_of(&analyzers).report_rows();
    assert_eq!(gaps.len(), 1);
    assert_eq!(gaps[0].0, 10);
    assert_eq!(gaps[0].1, "c1");
}

#[test]
fn duplicate_gap_keeps_last_commit() {
    let records = vec![
        mk("first", Some("A"), Some("one"), 0, 10),
        mk("second", Some("A"), Some("two"), 50, 60),
    ];
    let mut analyzers = fresh_analyzers();
    assert!(ingest_all(&mut analyzers, &records).is_ok());
    let gaps = gaps_of(&analyzers).report_rows();
    assert_eq!(gaps.len(), 1);
    assert_eq!(gaps[0].0, 10);
    assert_eq!(gaps[0].1, "second");
}

#[test]
fn empty_history_reports_empty() {
    let records: Vec<CommitRecord> = Vec::new();
    let mut analyzers = fresh_analyzers();
    assert!(ingest_all(&mut analyzers, &records).is_ok());
    assert_eq!(counter_of(&analyzers).report_rows().len(), 0);
    assert_eq!(gaps_of(&analyzers).report_rows().len(), 0);
}

#[test]
fn zero_gap_leaves_no_entry() {
    let records = vec![mk("c1", Some("A"), Some("hello"), 123, 123)];
    let mut analyzers = fresh_analyzers();
    assert!(ingest_all(&mut analyzers, &records).is_ok());
    assert_eq!(gaps_of(&analyzers).report_rows().len(), 0);
}

#[test]
fn gaps_are_reported_in_ascending_order() {
    let records = vec![
        mk("a", Some("A"), Some("m"), 100, 107),
        mk("b", Some("A"), Some("m"), 100, 97),
        mk("c", Some("A"), Some("m"), 100, 102),
    ];
    let mut analyzers = fresh_analyzers();
    assert!(ingest_all(&mut analyzers, &records).is_ok());
    let gaps = gaps_of(&analyzers).report_rows();
    let pairs: Vec<(i128, &str)> = gaps.iter().map(|(g, id)| (*g, id.as_str())).collect();
    assert_eq!(pairs, vec![(-3, "b"), (2, "c"), (7, "a")]);
}

#[test]
fn report_is_idempotent() {
    let records = vec![
        mk("c1", Some("Alice"), Some("one two"), 0, 5),
        mk("c2", Some("Bob"), Some("three"), 10, 10),
    ];
    let mut analyzers = fresh_analyzers();
    assert!(ingest_all(&mut analyzers, &records).is_ok());

    let rows1 = counter_of(&analyzers).report_rows();
    let rows2 = counter_of(&analyzers).report_rows();
    assert_eq!(rows1.len(), rows2.len());
    for (a, b) in rows1.iter().zip(rows2.iter()) {
        assert_eq!(a.author, b.author);
        assert_eq!(a.commits, b.commits);
        assert_eq!(a.words, b.words);
    }

    let gaps1 = gaps_of(&analyzers).report_rows();
    let gaps2 = gaps_of(&analyzers).report_rows();
    assert_eq!(gaps1, gaps2);
}

#[test]
fn counter_totals_per_author() {
    let records = vec![
        mk("c1", Some("Alice"), Some("a b c"), 0, 0),
        mk("c2", Some("Bob"), Some("one"), 0, 0),
        mk("c3", Some("Alice"), Some("d e"), 0, 0),
    ];
    let mut analyzers = fresh_analyzers();
    assert!(ingest_all(&mut analyzers, &records).is_ok());
    let rows = counter_of(&analyzers).report_rows();
    assert_eq!(rows.len(), 2);
    for row in &rows {
        match row.author.as_str() {
            "Alice" => {
                assert_eq!(row.commits, 2);
                assert_eq!(row.words, 5);
            }
            "Bob" => {
                assert_eq!(row.commits, 1);
                assert_eq!(row.words, 1);
            }
            other => panic!("unexpected author {}", other),
        }
    }
}

#[test]
fn rows_sorted_descending_by_words_per_commit() {
    let records = vec![
        mk("c1", Some("Low"), Some("one"), 0, 0),
        mk("c2", Some("High"), Some("a b c d e f"), 0, 0),
        mk("c3", Some("Mid"), Some("x y z"), 0, 0),
        mk("c4", Some("Mid"), Some("u v w"), 0, 0),
    ];
    let mut analyzers = fresh_analyzers();
    assert!(ingest_all(&mut analyzers, &records).is_ok());
    let rows = counter_of(&analyzers).report_rows();
    assert_eq!(rows.len(), 3);
    let authors: Vec<&str> = rows.iter().map(|r| r.author.as_str()).collect();
    assert_eq!(authors, vec!["High", "Mid", "Low"]);
    for pair in rows.windows(2) {
        let a = pair[0].words as f32 / pair[0].commits as f32;
        let b = pair[1].words as f32 / pair[1].commits as f32;
        assert!(a >= b);
    }
}

#[test]
fn word_counting_matches_whitespace_tokens() {
    assert_eq!(count_words(""), 0);
    assert_eq!(count_words("   \t\n  "), 0);
    assert_eq!(count_words("one"), 1);
    assert_eq!(count_words("fix bug"), 2);
    assert_eq!(count_words("add feature now"), 3);
    assert_eq!(count_words("  leading and   trailing \t mixed\nlines  "), 5);
    assert_eq!(count_words("a\u{00A0}b\u{3000}c"), 3);
}

#[test]
fn single_commit_dispatch_short_circuits() {
    let good = mk("c1", Some("Ann"), Some("w1 w2"), 1, 4);
    let bad = mk("c2", None, None, 1, 1);
    let mut analyzers = fresh_analyzers();
    assert!(ingest_commit(&mut analyzers, &good).is_ok());
    assert_eq!(
        ingest_commit(&mut analyzers, &bad),
        Err(AnalysisError::MalformedCommit)
    );
    let rows = counter_of(&analyzers).report_rows();
    assert_eq!(rows.len(), 1);
    assert_eq!(rows[0].commits, 1);
    assert_eq!(rows[0].words, 2);
    let gaps = gaps_of(&analyzers).report_rows();
    assert_eq!(gaps.len(), 1);
    assert_eq!(gaps[0].0, 3);
}

#[test]
fn error_descriptions() {
    assert_eq!(
        AnalysisError::RepositoryOpenError.describe(),
        "could not open repository"
    );
    assert_eq!(
        AnalysisError::HeadResolutionError.describe(),
        "could not resolve repository head"
    );
    assert_eq!(
        AnalysisError::CommitResolutionError.describe(),
        "could not resolve a commit"
    );
    assert_eq!(AnalysisError::MalformedCommit.describe(), "malformed commit");
}

#[test]
fn can_ingest_reports_headroom() {
    let c = mk("c1", Some("A"), Some("x"), 0, 0);
    let mut analyzers = fresh_analyzers();
    for a in &analyzers {
        assert!(a.can_ingest(&c));
    }
    assert!(ingest_commit(&mut analyzers, &c).is_ok());
    for a in &analyzers {
        assert!(a.can_ingest(&c));
    }
}
