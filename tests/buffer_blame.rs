use git_blame::blame::{build_hunks, BufferBlame, RawHunk};
use git_blame::hunk::{BlameHunk, Signature};
use git_blame::incremental::UNCOMMITTED_SHA;
use git_blame::position::{BufferSnapshot, LineSnapshot, Point};
use git_blame::time::CommitTime;

const A: &str = "aaaaaaaaaaaaaaaaaaaaaaaaaaaaaaaaaaaaaaaa";
const B: &str = "bbbbbbbbbbbbbbbbbbbbbbbbbbbbbbbbbbbbbbbb";
const C: &str = "cccccccccccccccccccccccccccccccccccccccc";

fn signature(name: &str, seconds: i64) -> Signature {
    Signature {
        name: Some(name.to_string()),
        email: Some(format!("<{}@example.com>", name)),
        time: CommitTime { seconds, offset_seconds: 3600 },
    }
}

fn fact(commit: &str, start: usize, count: usize, sig: Option<Signature>) -> RawHunk {
    RawHunk {
        commit_id: commit.to_string(),
        final_start_line: start,
        lines_in_hunk: count,
        signature: sig,
    }
}

fn ten_lines() -> LineSnapshot {
    LineSnapshot::new(7, vec![10; 10])
}

fn rows(hunks: &[BlameHunk<u32>]) -> Vec<(u32, u32)> {
    hunks
        .iter()
        .map(|h| (h.buffer_range.start, h.buffer_range.end))
        .collect()
}

fn oids(hunks: &[BlameHunk<u32>]) -> Vec<String> {
    hunks.iter().map(|h| h.oid.clone()).collect()
}

fn three_hunks() -> Vec<RawHunk> {
    vec![
        fact(A, 1, 2, Some(signature("ann", 100))),
        fact(B, 3, 1, Some(signature("bob", 200))),
        fact(C, 6, 2, Some(signature("cat", 300))),
    ]
}

#[test]
fn new_index_is_empty() {
    let blame: BufferBlame<Point> = BufferBlame::new();
    assert!(blame.is_empty());
    let buffer = ten_lines();
    assert!(blame.hunks_in_row_range(0..10, &buffer).is_empty());
}

#[test]
fn hunks_come_back_in_order() {
    let buffer = ten_lines();
    let mut blame = BufferBlame::new();
    blame.update(&three_hunks(), &buffer);
    assert!(!blame.is_empty());
    let found = blame.hunks_in_row_range(0..10, &buffer);
    assert_eq!(rows(&found), vec![(0, 2), (2, 3), (5, 7)]);
    assert_eq!(oids(&found), vec![A.to_string(), B.to_string(), C.to_string()]);
    assert_eq!(found[0].name.as_deref(), Some("ann"));
    assert_eq!(found[1].email.as_deref(), Some("<bob@example.com>"));
    assert_eq!(found[2].time, CommitTime { seconds: 300, offset_seconds: 3600 });
}

#[test]
fn many_hunks_keep_their_order() {
    let buffer = LineSnapshot::new(1, vec![3; 200]);
    let commits = [A, B, C];
    let facts: Vec<RawHunk> = (0..100)
        .map(|i| fact(commits[i % 3], 2 * i + 1, 2, Some(signature("x", i as i64))))
        .collect();
    let mut blame = BufferBlame::new();
    blame.update(&facts, &buffer);
    let found = blame.hunks_in_row_range(0..200, &buffer);
    assert_eq!(found.len(), 100);
    for (i, h) in found.iter().enumerate() {
        assert_eq!(h.buffer_range.start, 2 * i as u32);
        assert_eq!(h.buffer_range.end, 2 * i as u32 + 2);
        assert_eq!(h.oid, commits[i % 3]);
    }
    let middle = blame.hunks_in_row_range(41..44, &buffer);
    assert_eq!(rows(&middle), vec![(40, 42), (42, 44), (44, 46)]);
}

#[test]
fn rebuilding_gives_the_same_answers() {
    let buffer = ten_lines();
    let mut first = BufferBlame::new();
    first.update(&three_hunks(), &buffer);
    let mut second = BufferBlame::new();
    second.update(&three_hunks(), &buffer);
    second.update(&three_hunks(), &buffer);
    for (s, e) in [(0, 10), (1, 2), (3, 6), (9, 9)] {
        assert_eq!(
            first.hunks_in_row_range(s..e, &buffer),
            second.hunks_in_row_range(s..e, &buffer)
        );
    }
}

fn gapped() -> BufferBlame<Point> {
    let mut blame = BufferBlame::new();
    blame.update(
        &vec![
            fact(A, 3, 2, Some(signature("ann", 1))),
            fact(B, 7, 2, Some(signature("bob", 2))),
        ],
        &ten_lines(),
    );
    blame
}

#[test]
fn range_before_all_hunks_is_empty() {
    let buffer = ten_lines();
    assert!(gapped().hunks_in_row_range(0..1, &buffer).is_empty());
}

#[test]
fn range_after_all_hunks_is_empty() {
    let buffer = ten_lines();
    assert!(gapped().hunks_in_row_range(9..10, &buffer).is_empty());
}

#[test]
fn range_of_one_hunk_returns_it() {
    let buffer = ten_lines();
    let found = gapped().hunks_in_row_range(2..4, &buffer);
    assert_eq!(rows(&found), vec![(2, 4)]);
    assert_eq!(oids(&found), vec![A.to_string()]);
    let found = gapped().hunks_in_row_range(6..8, &buffer);
    assert_eq!(oids(&found), vec![B.to_string()]);
}

#[test]
fn touching_boundaries_meet() {
    let buffer = ten_lines();
    let mut blame = BufferBlame::new();
    blame.update(&three_hunks(), &buffer);
    let found = blame.hunks_in_row_range(2..3, &buffer);
    assert_eq!(rows(&found), vec![(0, 2), (2, 3)]);
}

#[test]
fn uncommitted_lines_are_left_out() {
    let buffer = ten_lines();
    let mut blame = BufferBlame::new();
    blame.update(&vec![fact(UNCOMMITTED_SHA, 1, 2, Some(signature("me", 5)))], &buffer);
    assert!(blame.is_empty());
    assert!(blame.hunks_in_row_range(0..10, &buffer).is_empty());

    let mut blame = BufferBlame::new();
    blame.update(
        &vec![
            fact(A, 1, 1, Some(signature("ann", 1))),
            fact(UNCOMMITTED_SHA, 2, 3, Some(signature("me", 5))),
            fact(B, 5, 1, Some(signature("bob", 2))),
        ],
        &buffer,
    );
    let found = blame.hunks_in_row_range(0..10, &buffer);
    assert_eq!(oids(&found), vec![A.to_string(), B.to_string()]);
    assert!(found.iter().all(|h| h.oid != UNCOMMITTED_SHA));
}

#[test]
fn unusable_facts_are_skipped() {
    let buffer = ten_lines();
    let facts = vec![
        fact(A, 1, usize::MAX, Some(signature("ann", 1))),
        fact(A, 0, 1, Some(signature("ann", 1))),
        fact(B, 4_294_967_296, 1, Some(signature("bob", 2))),
        fact(C, 2, 1, None),
    ];
    assert!(build_hunks(&facts, &buffer).is_empty());
}

#[test]
fn signature_of_first_fact_is_reused() {
    let buffer = ten_lines();
    let facts = vec![
        fact(A, 1, 1, None),
        fact(A, 2, 1, Some(signature("ann", 1))),
        fact(A, 3, 1, Some(signature("other", 9))),
        fact(A, 4, 1, None),
    ];
    let mut blame = BufferBlame::new();
    blame.update(&facts, &buffer);
    let found = blame.hunks_in_row_range(0..10, &buffer);
    assert_eq!(rows(&found), vec![(1, 2), (2, 3), (3, 4)]);
    for h in &found {
        assert_eq!(h.name.as_deref(), Some("ann"));
        assert_eq!(h.time.seconds, 1);
    }
}

#[test]
fn end_within_a_row_takes_the_row_in() {
    let buffer = LineSnapshot::new(3, vec![5, 5, 5]);
    let mut blame = BufferBlame::new();
    blame.update(&vec![fact(A, 2, 4, Some(signature("ann", 1)))], &buffer);
    let found = blame.hunks_in_row_range(0..3, &buffer);
    assert_eq!(rows(&found), vec![(1, 3)]);
}

#[test]
fn query_by_anchors() {
    let buffer = ten_lines();
    let mut blame = BufferBlame::new();
    blame.update(&three_hunks(), &buffer);
    let start = buffer.anchor_before(Point { row: 4, column: 3 });
    let end = buffer.anchor_after(Point { row: 5, column: 0 });
    let found = blame.hunks_intersecting_range(start..end, &buffer);
    assert_eq!(oids(&found), vec![C.to_string()]);
}

#[test]
fn snapshot_clips_points() {
    let buffer = LineSnapshot::new(11, vec![4, 0]);
    assert_eq!(buffer.version(), 11);
    assert_eq!(buffer.anchor_before(Point { row: 0, column: 9 }), Point { row: 0, column: 4 });
    assert_eq!(buffer.anchor_after(Point { row: 5, column: 0 }), Point { row: 1, column: 0 });
    let points = buffer.points_for_anchors(&vec![Point { row: 0, column: 2 }, Point { row: 3, column: 3 }]);
    assert_eq!(points, vec![Point { row: 0, column: 2 }, Point { row: 1, column: 0 }]);
    assert_eq!(
        buffer.cmp_anchors(&Point { row: 0, column: 9 }, &Point { row: 0, column: 4 }),
        std::cmp::Ordering::Equal
    );
    assert_eq!(
        buffer.cmp_anchors(&Point { row: 1, column: 0 }, &Point { row: 0, column: 4 }),
        std::cmp::Ordering::Greater
    );
    let empty = LineSnapshot::new(0, Vec::new());
    assert_eq!(empty.anchor_before(Point { row: 2, column: 2 }), Point { row: 0, column: 0 });
}

#[test]
fn short_blame_is_six_characters() {
    let buffer = ten_lines();
    let mut blame = BufferBlame::new();
    blame.update(&vec![fact("6ad46b5257ba16d12c5ca9f0d4900320959df7f4", 1, 1, Some(signature("j", 1)))], &buffer);
    let found = blame.hunks_in_row_range(0..1, &buffer);
    assert_eq!(found[0].short_blame(), "6ad46b");
    let short = BlameHunk {
        buffer_range: 0u32..1,
        oid: "abc".to_string(),
        name: None,
        email: None,
        time: CommitTime { seconds: 0, offset_seconds: 0 },
    };
    assert_eq!(short.short_blame(), "abc");
}
