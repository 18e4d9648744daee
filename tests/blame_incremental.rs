use git_blame::error::BlameError;
use git_blame::incremental::{facts_from_entries, parse_git_blame, BlameEntry, UNCOMMITTED_SHA};
use git_blame::time::{commit_time, git_time_to_commit_time, CommitTime};

fn check_author_committer(entry: &BlameEntry, author: &str, mail: &str, time: i64, tz: &str) {
    assert_eq!(entry.author, author);
    assert_eq!(entry.author_mail, mail);
    assert_eq!(entry.author_time, time);
    assert_eq!(entry.author_tz, tz);
    assert_eq!(entry.committer, author);
    assert_eq!(entry.committer_mail, mail);
    assert_eq!(entry.committer_time, time);
    assert_eq!(entry.committer_tz, tz);
}

fn check_uncommitted(entry: &BlameEntry, time: i64, tz: &str) {
    assert_eq!(entry.author, "Not Committed Yet");
    assert_eq!(entry.author_mail, "<not.committed.yet>");
    assert_eq!(entry.author_time, time);
    assert_eq!(entry.author_tz, tz);
    assert_eq!(entry.committer, "Not Committed Yet");
    assert_eq!(entry.committer_mail, "<not.committed.yet>");
    assert_eq!(entry.committer_time, time);
    assert_eq!(entry.committer_tz, tz);
}

#[test]
fn test_parse_incremental_output() {
    let output = r#"
0000000000000000000000000000000000000000 3 3 1
author Not Committed Yet
author-mail <not.committed.yet>
author-time 1709895274
author-tz +0100
committer Not Committed Yet
committer-mail <not.committed.yet>
committer-time 1709895274
committer-tz +0100
summary Version of index.js from index.js
previous a7037b4567dd171bfe563c761354ec9236c803b3 index.js
filename index.js
0000000000000000000000000000000000000000 7 7 2
previous a7037b4567dd171bfe563c761354ec9236c803b3 index.js
filename index.js
c8d34ae30c87e59aaa5eb65f6c64d6206f525d7c 7 6 1
author Thorsten Ball
author-mail <mrnugget@example.com>
author-time 1709808710
author-tz +0100
committer Thorsten Ball
committer-mail <mrnugget@example.com>
committer-time 1709808710
committer-tz +0100
summary Make a commit
previous 6ad46b5257ba16d12c5ca9f0d4900320959df7f4 index.js
filename index.js
6ad46b5257ba16d12c5ca9f0d4900320959df7f4 2 2 1
author Joe Schmoe
author-mail <joe.schmoe@example.com>
author-time 1709741400
author-tz +0100
committer Joe Schmoe
committer-mail <joe.schmoe@example.com>
committer-time 1709741400
committer-tz +0100
summary Joe's cool commit
previous 486c2409237a2c627230589e567024a96751d475 index.js
filename index.js
6ad46b5257ba16d12c5ca9f0d4900320959df7f4 3 4 1
previous 486c2409237a2c627230589e567024a96751d475 index.js
filename index.js
6ad46b5257ba16d12c5ca9f0d4900320959df7f4 13 9 1
previous 486c2409237a2c627230589e567024a96751d475 index.js
filename index.js
486c2409237a2c627230589e567024a96751d475 3 1 1
author Thorsten Ball
author-mail <mrnugget@example.com>
author-time 1709129122
author-tz +0100
committer Thorsten Ball
committer-mail <mrnugget@example.com>
committer-time 1709129122
committer-tz +0100
summary Get to a state where eslint would change code and imports
previous 504065e448b467e79920040f22153e9d2ea0fd6e index.js
filename index.js
504065e448b467e79920040f22153e9d2ea0fd6e 3 5 1
author Thorsten Ball
author-mail <mrnugget@example.com>
author-time 1709128963
author-tz +0100
committer Thorsten Ball
committer-mail <mrnugget@example.com>
committer-time 1709128963
committer-tz +0100
summary Add some stuff
filename index.js
504065e448b467e79920040f22153e9d2ea0fd6e 21 10 1
filename index.js
"#;

    let entries = parse_git_blame(&output).unwrap();
    assert_eq!(entries.len(), 9);

    assert_eq!(entries[0].sha, UNCOMMITTED_SHA);
    assert_eq!(entries[0].original_line_number, 3);
    assert_eq!(entries[0].final_line_number, 3);
    assert_eq!(entries[0].line_count, 1);
    assert_eq!(entries[0].filename, "index.js");
    assert_eq!(entries[0].summary, "Version of index.js from index.js");
    assert_eq!(
        entries[0].previous,
        Some("a7037b4567dd171bfe563c761354ec9236c803b3 index.js".to_owned())
    );
    check_uncommitted(&entries[0], 1709895274, "+0100");

    assert_eq!(entries[1].sha, UNCOMMITTED_SHA);
    assert_eq!(entries[1].original_line_number, 7);
    assert_eq!(entries[1].final_line_number, 7);
    assert_eq!(entries[1].line_count, 2);
    assert_eq!(entries[1].filename, "index.js");
    assert_eq!(entries[1].summary, "Version of index.js from index.js");
    assert_eq!(
        entries[1].previous,
        Some("a7037b4567dd171bfe563c761354ec9236c803b3 index.js".to_owned())
    );
    check_uncommitted(&entries[1], 1709895274, "+0100");

    assert_eq!(entries[2].sha, "c8d34ae30c87e59aaa5eb65f6c64d6206f525d7c");
    assert_eq!(entries[2].original_line_number, 7);
    assert_eq!(entries[2].final_line_number, 6);
    assert_eq!(entries[2].line_count, 1);
    assert_eq!(entries[2].filename, "index.js");
    assert_eq!(entries[2].summary, "Make a commit");
    assert_eq!(
        entries[2].previous,
        Some("6ad46b5257ba16d12c5ca9f0d4900320959df7f4 index.js".to_owned())
    );
    check_author_committer(
        &entries[2],
        "Thorsten Ball",
        "<mrnugget@example.com>",
        1709808710,
        "+0100",
    );

    assert_eq!(entries[3].sha, "6ad46b5257ba16d12c5ca9f0d4900320959df7f4");
    assert_eq!(entries[3].original_line_number, 2);
    assert_eq!(entries[3].final_line_number, 2);
    assert_eq!(entries[3].line_count, 1);
    assert_eq!(entries[3].filename, "index.js");
    assert_eq!(entries[3].summary, "Joe's cool commit");
    assert_eq!(
        entries[3].previous,
        Some("486c2409237a2c627230589e567024a96751d475 index.js".to_owned())
    );
    check_author_committer(
        &entries[3],
        "Joe Schmoe",
        "<joe.schmoe@example.com>",
        1709741400,
        "+0100",
    );

    assert_eq!(entries[4].sha, "6ad46b5257ba16d12c5ca9f0d4900320959df7f4");
    assert_eq!(entries[4].original_line_number, 3);
    assert_eq!(entries[4].final_line_number, 4);
    assert_eq!(entries[4].line_count, 1);
    assert_eq!(
        entries[4].previous,
        Some("486c2409237a2c627230589e567024a96751d475 index.js".to_owned())
    );
    assert_eq!(entries[5].sha, "6ad46b5257ba16d12c5ca9f0d4900320959df7f4");
    assert_eq!(entries[5].original_line_number, 13);
    assert_eq!(entries[5].final_line_number, 9);
    assert_eq!(entries[5].line_count, 1);
    assert_eq!(
        entries[5].previous,
        Some("486c2409237a2c627230589e567024a96751d475 index.js".to_owned())
    );

    assert_eq!(entries[6].sha, "486c2409237a2c627230589e567024a96751d475");
    assert_eq!(entries[6].original_line_number, 3);
    assert_eq!(entries[6].final_line_number, 1);
    assert_eq!(entries[6].line_count, 1);
    assert_eq!(
        entries[6].previous,
        Some("504065e448b467e79920040f22153e9d2ea0fd6e index.js".to_owned())
    );
    check_author_committer(
        &entries[6],
        "Thorsten Ball",
        "<mrnugget@example.com>",
        1709129122,
        "+0100",
    );

    assert_eq!(entries[7].sha, "504065e448b467e79920040f22153e9d2ea0fd6e");
    assert_eq!(entries[7].original_line_number, 3);
    assert_eq!(entries[7].final_line_number, 5);
    assert_eq!(entries[7].line_count, 1);
    check_author_committer(
        &entries[7],
        "Thorsten Ball",
        "<mrnugget@example.com>",
        1709128963,
        "+0100",
    );
    assert_eq!(entries[8].sha, "504065e448b467e79920040f22153e9d2ea0fd6e");
    assert_eq!(entries[8].original_line_number, 21);
    assert_eq!(entries[8].final_line_number, 10);
    assert_eq!(entries[8].line_count, 1);
}

const SHA_A: &str = "abc0000000000000000000000000000000000def";

fn single_record() -> String {
    let mut s = String::new();
    s.push_str(SHA_A);
    s.push_str(" 2 2 1\n");
    s.push_str("author A\nauthor-mail <a@x>\nauthor-time 1000\nauthor-tz +0000\n");
    s.push_str("committer A\ncommitter-mail <a@x>\ncommitter-time 1000\ncommitter-tz +0000\n");
    s.push_str("summary S\nfilename f.txt\n");
    s
}

#[test]
fn single_record_decodes_every_field() {
    let entries = parse_git_blame(&single_record()).unwrap();
    assert_eq!(entries.len(), 1);
    let e = &entries[0];
    assert_eq!(e.sha, SHA_A);
    assert_eq!(e.original_line_number, 2);
    assert_eq!(e.final_line_number, 2);
    assert_eq!(e.line_count, 1);
    assert_eq!(e.author, "A");
    assert_eq!(e.author_mail, "<a@x>");
    assert_eq!(e.author_time, 1000);
    assert_eq!(e.author_tz, "+0000");
    assert_eq!(e.committer, "A");
    assert_eq!(e.committer_mail, "<a@x>");
    assert_eq!(e.committer_time, 1000);
    assert_eq!(e.committer_tz, "+0000");
    assert_eq!(e.summary, "S");
    assert_eq!(e.previous, None);
    assert_eq!(e.filename, "f.txt");
    assert_eq!(
        e.committer_datetime(),
        Ok(CommitTime { seconds: 1000, offset_seconds: 0 })
    );
}

#[test]
fn repeated_commit_inherits_signature() {
    let mut text = single_record();
    text.push_str(SHA_A);
    text.push_str(" 5 7 3\nprevious X f.txt\nfilename f.txt\n");
    let entries = parse_git_blame(&text).unwrap();
    assert_eq!(entries.len(), 2);
    let e = &entries[1];
    assert_eq!(e.sha, SHA_A);
    assert_eq!(e.original_line_number, 5);
    assert_eq!(e.final_line_number, 7);
    assert_eq!(e.line_count, 3);
    assert_eq!(e.author, "A");
    assert_eq!(e.author_mail, "<a@x>");
    assert_eq!(e.author_time, 1000);
    assert_eq!(e.author_tz, "+0000");
    assert_eq!(e.committer, "A");
    assert_eq!(e.committer_mail, "<a@x>");
    assert_eq!(e.committer_time, 1000);
    assert_eq!(e.committer_tz, "+0000");
    assert_eq!(e.summary, "S");
    assert_eq!(e.previous, Some("X f.txt".to_owned()));
    assert_eq!(e.filename, "f.txt");
}

#[test]
fn first_record_of_a_commit_wins() {
    let mut text = single_record();
    text.push_str(SHA_A);
    text.push_str(" 3 3 1\nauthor B\nsummary T\nfilename f.txt\n");
    text.push_str(SHA_A);
    text.push_str(" 4 4 1\nfilename f.txt\n");
    let entries = parse_git_blame(&text).unwrap();
    assert_eq!(entries.len(), 3);
    assert_eq!(entries[1].author, "B");
    assert_eq!(entries[1].summary, "T");
    assert_eq!(entries[2].author, "A");
    assert_eq!(entries[2].summary, "S");
}

#[test]
fn empty_output_has_no_records() {
    assert_eq!(parse_git_blame("").unwrap().len(), 0);
    assert_eq!(parse_git_blame("\n\n").unwrap().len(), 0);
}

#[test]
fn record_without_filename_is_dropped() {
    let mut text = String::new();
    text.push_str(SHA_A);
    text.push_str(" 1 1 1\nauthor A\n");
    assert_eq!(parse_git_blame(&text).unwrap().len(), 0);
}

#[test]
fn unknown_keys_and_short_lines_are_skipped() {
    let mut text = String::new();
    text.push_str(SHA_A);
    text.push_str(" 1 1 1\nboundary\nfuture-key a b\nsummary  two   words \nfilename f.txt");
    let entries = parse_git_blame(&text).unwrap();
    assert_eq!(entries.len(), 1);
    assert_eq!(entries[0].summary, "two words");
    assert_eq!(entries[0].filename, "f.txt");
}

#[test]
fn crlf_lines_decode() {
    let mut text = String::new();
    text.push_str(SHA_A);
    text.push_str(" 1 1 1\r\nauthor A\r\nfilename f.txt\r\n");
    let entries = parse_git_blame(&text).unwrap();
    assert_eq!(entries.len(), 1);
    assert_eq!(entries[0].author, "A");
    assert_eq!(entries[0].filename, "f.txt");
}

#[test]
fn header_with_three_fields_is_refused() {
    let text = "\nabc 1 2\nfilename f.txt\n";
    assert_eq!(
        parse_git_blame(text).unwrap_err(),
        BlameError::MalformedHeader { line: 1 }
    );
}

#[test]
fn header_with_five_fields_is_refused() {
    assert_eq!(
        parse_git_blame("abc 1 2 3 4\n").unwrap_err(),
        BlameError::MalformedHeader { line: 0 }
    );
}

#[test]
fn header_number_must_be_decimal() {
    assert_eq!(
        parse_git_blame("abc 1 x 2\n").unwrap_err(),
        BlameError::InvalidNumber { line: 0 }
    );
    assert_eq!(
        parse_git_blame("abc 1 2 -2\n").unwrap_err(),
        BlameError::InvalidNumber { line: 0 }
    );
    assert_eq!(
        parse_git_blame("abc 1 2 4294967296\n").unwrap_err(),
        BlameError::InvalidNumber { line: 0 }
    );
    let entries = parse_git_blame("abc +1 4294967295 2\nfilename f\n").unwrap();
    assert_eq!(entries[0].original_line_number, 1);
    assert_eq!(entries[0].final_line_number, 4294967295);
}

#[test]
fn author_time_must_be_an_integer() {
    let mut text = String::new();
    text.push_str(SHA_A);
    text.push_str(" 1 1 1\nauthor A\nauthor-time soon\nfilename f.txt\n");
    assert_eq!(
        parse_git_blame(&text).unwrap_err(),
        BlameError::InvalidNumber { line: 2 }
    );
}

#[test]
fn negative_times_are_read() {
    let mut text = String::new();
    text.push_str(SHA_A);
    text.push_str(" 1 1 1\ncommitter-time -9223372036854775808\nfilename f\n");
    let entries = parse_git_blame(&text).unwrap();
    assert_eq!(entries[0].committer_time, i64::MIN);
}

fn entry_with_zone(tz: &str, seconds: i64) -> BlameEntry {
    let mut text = String::new();
    text.push_str(SHA_A);
    text.push_str(" 1 1 1\n");
    text.push_str(&format!("author-time {}\nauthor-tz {}\n", seconds, tz));
    text.push_str(&format!("committer-time {}\ncommitter-tz {}\n", seconds, tz));
    text.push_str("filename f\n");
    parse_git_blame(&text).unwrap().remove(0)
}

#[test]
fn zone_offsets_count_units_of_thirty_six_seconds() {
    let e = entry_with_zone("+0100", 1709741400);
    assert_eq!(
        e.committer_datetime(),
        Ok(CommitTime { seconds: 1709741400, offset_seconds: 3600 })
    );
    let e = entry_with_zone("-0200", 5);
    assert_eq!(
        e.author_datetime(),
        Ok(CommitTime { seconds: 5, offset_seconds: -7200 })
    );
}

#[test]
fn invalid_zone_is_an_error() {
    assert_eq!(
        entry_with_zone("east", 5).committer_datetime(),
        Err(BlameError::InvalidTimezone)
    );
    assert_eq!(
        entry_with_zone("+2400", 5).committer_datetime(),
        Err(BlameError::InvalidTimezone)
    );
    assert_eq!(
        entry_with_zone("+9999999999", 5).committer_datetime(),
        Err(BlameError::InvalidTimezone)
    );
}

#[test]
fn timestamp_out_of_range_is_an_error() {
    assert_eq!(
        entry_with_zone("+0000", i64::MAX).committer_datetime(),
        Err(BlameError::TimestampOutOfRange)
    );
    assert_eq!(commit_time(i64::MIN, 0), Err(BlameError::TimestampOutOfRange));
}

#[test]
fn commit_time_checks_the_offset() {
    assert_eq!(
        commit_time(10, 86_399),
        Ok(CommitTime { seconds: 10, offset_seconds: 86_399 })
    );
    assert_eq!(commit_time(10, 86_400), Err(BlameError::InvalidTimezone));
    assert_eq!(commit_time(10, -86_400), Err(BlameError::InvalidTimezone));
    assert_eq!(commit_time(10, 1 << 40), Err(BlameError::InvalidTimezone));
}

#[test]
fn repository_offsets_are_minutes() {
    assert_eq!(
        git_time_to_commit_time(1000, 90),
        Ok(CommitTime { seconds: 1000, offset_seconds: 5400 })
    );
    assert_eq!(
        git_time_to_commit_time(1000, 1440),
        Err(BlameError::InvalidTimezone)
    );
}

#[test]
fn records_become_facts() {
    let mut text = single_record();
    text.push_str("1230000000000000000000000000000000000abc 1 9 2\nauthor B\nauthor-tz -0100\nauthor-time 7\nfilename f\n");
    let entries = parse_git_blame(&text).unwrap();
    let facts = facts_from_entries(&entries).unwrap();
    assert_eq!(facts.len(), 2);
    assert_eq!(facts[0].commit_id, SHA_A);
    assert_eq!(facts[0].final_start_line, 2);
    assert_eq!(facts[0].lines_in_hunk, 1);
    let sig = facts[0].signature.as_ref().unwrap();
    assert_eq!(sig.name.as_deref(), Some("A"));
    assert_eq!(sig.email.as_deref(), Some("<a@x>"));
    assert_eq!(sig.time, CommitTime { seconds: 1000, offset_seconds: 0 });
    assert_eq!(facts[1].final_start_line, 9);
    assert_eq!(facts[1].lines_in_hunk, 2);
    let sig = facts[1].signature.as_ref().unwrap();
    assert_eq!(sig.name.as_deref(), Some("B"));
    assert_eq!(sig.time, CommitTime { seconds: 7, offset_seconds: -3600 });
}

#[test]
fn unreadable_author_time_fails_the_facts() {
    let mut text = single_record();
    text.push_str("1230000000000000000000000000000000000abc 1 9 2\nauthor-tz bad\nfilename f\n");
    text.push_str("4560000000000000000000000000000000000abc 1 11 1\nauthor-tz +2400\nfilename f\n");
    let entries = parse_git_blame(&text).unwrap();
    assert_eq!(entries.len(), 3);
    assert_eq!(facts_from_entries(&entries).unwrap_err(), BlameError::InvalidTimezone);
    let mut text = single_record();
    text.push_str("4560000000000000000000000000000000000abc 1 11 1\nauthor-time 9223372036854775807\nauthor-tz +0000\nfilename f\n");
    let entries = parse_git_blame(&text).unwrap();
    assert_eq!(
        facts_from_entries(&entries).unwrap_err(),
        BlameError::TimestampOutOfRange
    );
}

#[test]
fn one_word_header_is_refused() {
    assert_eq!(parse_git_blame("x").unwrap_err(), BlameError::MalformedHeader { line: 0 });
    let mut text = single_record();
    text.push_str("\nboundary\n");
    assert_eq!(
        parse_git_blame(&text).unwrap_err(),
        BlameError::MalformedHeader { line: 12 }
    );
}
