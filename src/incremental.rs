use vstd::prelude::*;

use crate::error::BlameError;
use crate::scan::{
    chars_equal, chars_of, integer_of, join_from, join_words, lemma_lines_nonempty, lines_of,
    parse_i32, parse_i64, parse_u32, split_words, string_from_chars, words_of,
};
use crate::blame::RawHunk;
use crate::hunk::Signature;
use crate::time::{commit_time, commit_time_spec, CommitTime};

verus! {

/// The commit id that `git blame` gives lines that are not committed yet.
pub const UNCOMMITTED_SHA: &'static str = "0000000000000000000000000000000000000000";

/// One record of the incremental attribution stream.
///
/// Line numbers count from one.
#[derive(Debug)]
pub struct BlameEntry {
    pub sha: String,
    pub original_line_number: u32,
    pub final_line_number: u32,
    pub line_count: u32,
    pub author: String,
    pub author_mail: String,
    pub author_time: i64,
    pub author_tz: String,
    pub committer: String,
    pub committer_mail: String,
    pub committer_time: i64,
    pub committer_tz: String,
    pub summary: String,
    pub previous: Option<String>,
    pub filename: String,
}

/// The value of a `BlameEntry`, with its texts as character sequences.
pub struct EntryView {
    pub sha: Seq<char>,
    pub original_line_number: u32,
    pub final_line_number: u32,
    pub line_count: u32,
    pub author: Seq<char>,
    pub author_mail: Seq<char>,
    pub author_time: i64,
    pub author_tz: Seq<char>,
    pub committer: Seq<char>,
    pub committer_mail: Seq<char>,
    pub committer_time: i64,
    pub committer_tz: Seq<char>,
    pub summary: Seq<char>,
    pub previous: Option<Seq<char>>,
    pub filename: Seq<char>,
}

impl View for BlameEntry {
    type V = EntryView;

    open spec fn view(&self) -> EntryView {
        EntryView {
            sha: self.sha@,
            original_line_number: self.original_line_number,
            final_line_number: self.final_line_number,
            line_count: self.line_count,
            author: self.author@,
            author_mail: self.author_mail@,
            author_time: self.author_time,
            author_tz: self.author_tz@,
            committer: self.committer@,
            committer_mail: self.committer_mail@,
            committer_time: self.committer_time,
            committer_tz: self.committer_tz@,
            summary: self.summary@,
            previous: match self.previous {
                Some(p) => Some(p@),
                None => None,
            },
            filename: self.filename@,
        }
    }
}

pub open spec fn entries_view(v: Seq<BlameEntry>) -> Seq<EntryView> {
    v.map_values(|e: BlameEntry| e@)
}

/// A record as its header line starts it: every other field empty.
pub open spec fn fresh_entry(sha: Seq<char>, original: u32, last: u32, count: u32) -> EntryView {
    EntryView {
        sha,
        original_line_number: original,
        final_line_number: last,
        line_count: count,
        author: Seq::empty(),
        author_mail: Seq::empty(),
        author_time: 0,
        author_tz: Seq::empty(),
        committer: Seq::empty(),
        committer_mail: Seq::empty(),
        committer_time: 0,
        committer_tz: Seq::empty(),
        summary: Seq::empty(),
        previous: None,
        filename: Seq::empty(),
    }
}

/// The record that a header line, split into words, opens; `line` is its index.
pub open spec fn header_spec(words: Seq<Seq<char>>, line: int) -> Result<EntryView, BlameError> {
    if words.len() != 4 {
        Err(BlameError::MalformedHeader { line: line as usize })
    } else {
        match (
            integer_of(words[1], 0, u32::MAX as int),
            integer_of(words[2], 0, u32::MAX as int),
            integer_of(words[3], 0, u32::MAX as int),
        ) {
            (Some(o), Some(f), Some(c)) => Ok(fresh_entry(words[0], o as u32, f as u32, c as u32)),
            _ => Err(BlameError::InvalidNumber { line: line as usize }),
        }
    }
}

/// The index of the first record of `es` with commit id `sha`.
pub open spec fn first_with_sha(es: Seq<EntryView>, sha: Seq<char>) -> Option<int>
    decreases es.len(),
{
    if es.len() == 0 {
        None
    } else {
        match first_with_sha(es.drop_last(), sha) {
            Some(j) => Some(j),
            None => if es.last().sha == sha {
                Some(es.len() - 1)
            } else {
                None
            },
        }
    }
}

/// `e` with the author, committer and summary of `from`.
pub open spec fn with_signature_of(e: EntryView, from: EntryView) -> EntryView {
    EntryView {
        author: from.author,
        author_mail: from.author_mail,
        author_time: from.author_time,
        author_tz: from.author_tz,
        committer: from.committer,
        committer_mail: from.committer_mail,
        committer_time: from.committer_time,
        committer_tz: from.committer_tz,
        summary: from.summary,
        ..e
    }
}

/// A new record inherits the signature of the first earlier record of its commit.
pub open spec fn backfilled(es: Seq<EntryView>, e: EntryView) -> EntryView {
    match first_with_sha(es, e.sha) {
        Some(j) => with_signature_of(e, es[j]),
        None => e,
    }
}

/// The record `e` after the metadata line `key value`, whose index is `line`.
pub open spec fn apply_field(e: EntryView, key: Seq<char>, value: Seq<char>, line: int) -> Result<
    EntryView,
    BlameError,
> {
    if key == "summary"@ {
        Ok(EntryView { summary: value, ..e })
    } else if key == "previous"@ {
        Ok(EntryView { previous: Some(value), ..e })
    } else if key == "author"@ {
        Ok(EntryView { author: value, ..e })
    } else if key == "author-mail"@ {
        Ok(EntryView { author_mail: value, ..e })
    } else if key == "author-time"@ {
        match integer_of(value, i64::MIN as int, i64::MAX as int) {
            Some(t) => Ok(EntryView { author_time: t as i64, ..e }),
            None => Err(BlameError::InvalidNumber { line: line as usize }),
        }
    } else if key == "author-tz"@ {
        Ok(EntryView { author_tz: value, ..e })
    } else if key == "committer"@ {
        Ok(EntryView { committer: value, ..e })
    } else if key == "committer-mail"@ {
        Ok(EntryView { committer_mail: value, ..e })
    } else if key == "committer-time"@ {
        match integer_of(value, i64::MIN as int, i64::MAX as int) {
            Some(t) => Ok(EntryView { committer_time: t as i64, ..e }),
            None => Err(BlameError::InvalidNumber { line: line as usize }),
        }
    } else if key == "committer-tz"@ {
        Ok(EntryView { committer_tz: value, ..e })
    } else {
        Ok(e)
    }
}

/// The decoder's state: the records completed so far, and the one being read.
pub struct ParserModel {
    pub entries: Seq<EntryView>,
    pub current: Option<EntryView>,
}

/// The decoder's state after one more line, given as its words; `line` is its index.
///
/// Blank lines are passed over. Without an open record any other line is a
/// header; within one, a line of two or more words is a metadata line, and
/// `filename` closes the record, while a line of one word (such as
/// `boundary`) is passed over.
pub open spec fn step_line(st: ParserModel, words: Seq<Seq<char>>, line: int) -> Result<
    ParserModel,
    BlameError,
> {
    if words.len() == 0 || (words.len() == 1 && st.current is Some) {
        Ok(st)
    } else {
        match st.current {
            None => match header_spec(words, line) {
                Ok(e) => Ok(ParserModel { entries: st.entries, current: Some(backfilled(st.entries, e)) }),
                Err(err) => Err(err),
            },
            Some(e) => {
                let value = join_words(words.drop_first());
                if words[0] == "filename"@ {
                    Ok(
                        ParserModel {
                            entries: st.entries.push(EntryView { filename: value, ..e }),
                            current: None,
                        },
                    )
                } else {
                    match apply_field(e, words[0], value, line) {
                        Ok(e2) => Ok(ParserModel { entries: st.entries, current: Some(e2) }),
                        Err(err) => Err(err),
                    }
                }
            },
        }
    }
}

/// The decoder's state after the given lines.
pub open spec fn run_lines(lines: Seq<Seq<char>>) -> Result<ParserModel, BlameError>
    decreases lines.len(),
{
    if lines.len() == 0 {
        Ok(ParserModel { entries: Seq::empty(), current: None })
    } else {
        match run_lines(lines.drop_last()) {
            Ok(st) => step_line(st, words_of(lines.last()), lines.len() - 1),
            Err(e) => Err(e),
        }
    }
}

/// The records that an incremental attribution stream decodes to; a record
/// left without its `filename` line at the end is not one of them.
pub open spec fn parse_spec(output: Seq<char>) -> Result<Seq<EntryView>, BlameError> {
    match run_lines(lines_of(output)) {
        Ok(st) => Ok(st.entries),
        Err(e) => Err(e),
    }
}


proof fn lemma_lines_extend(a: Seq<char>, b: Seq<char>)
    ensures
        lines_of(a + b).len() >= lines_of(a).len(),
        lines_of(a + b).take(lines_of(a).len() - 1) == lines_of(a).drop_last(),
    decreases b.len(),
{
    lemma_lines_nonempty(a);
    if b.len() == 0 {
        assert(a + b =~= a);
    } else {
        let b0 = b.drop_last();
        lemma_lines_extend(a, b0);
        lemma_lines_nonempty(a + b0);
        assert((a + b).drop_last() =~= a + b0);
        assert((a + b).last() == b.last());
        let prev = lines_of(a + b0);
        let k = lines_of(a).len() - 1;
        assert(lines_of(a + b).take(k) =~= prev.take(k));
    }
}

proof fn lemma_run_err(lines: Seq<Seq<char>>, k: int)
    requires
        0 <= k <= lines.len(),
        run_lines(lines.take(k)) is Err,
    ensures
        run_lines(lines) == run_lines(lines.take(k)),
    decreases lines.len(),
{
    if k == lines.len() {
        assert(lines.take(k) =~= lines);
    } else {
        assert(lines.drop_last().take(k) =~= lines.take(k));
        lemma_run_err(lines.drop_last(), k);
    }
}

impl BlameEntry {
    fn fresh(sha: String, original: u32, last: u32, count: u32) -> (r: BlameEntry)
        ensures
            r@ == fresh_entry(sha@, original, last, count),
    {
        BlameEntry {
            sha,
            original_line_number: original,
            final_line_number: last,
            line_count: count,
            author: String::new(),
            author_mail: String::new(),
            author_time: 0,
            author_tz: String::new(),
            committer: String::new(),
            committer_mail: String::new(),
            committer_time: 0,
            committer_tz: String::new(),
            summary: String::new(),
            previous: None,
            filename: String::new(),
        }
    }

    /// Opens a record from the words of its header line (whose index is
    /// `line`): commit id, original line, final line and line count.
    pub fn new_from_first_entry_line(parts: &Vec<Vec<char>>, line: usize) -> (r: Result<
        BlameEntry,
        BlameError,
    >)
        ensures
            match header_spec(parts.deep_view(), line as int) {
                Ok(e) => r matches Ok(x) && x@ == e,
                Err(err) => r matches Err(x) && x == err,
            },
    {
        if parts.len() != 4 {
            return Err(BlameError::MalformedHeader { line });
        }
        let ghost dv = parts.deep_view();
        assert(dv[1] =~= parts[1]@);
        assert(dv[2] =~= parts[2]@);
        assert(dv[3] =~= parts[3]@);
        assert(dv[0] =~= parts[0]@);
        let original = parse_u32(&parts[1]);
        let last = parse_u32(&parts[2]);
        let count = parse_u32(&parts[3]);
        match (original, last, count) {
            (Some(o), Some(f), Some(c)) => Ok(BlameEntry::fresh(string_from_chars(&parts[0]), o, f, c)),
            _ => Err(BlameError::InvalidNumber { line }),
        }
    }

    fn copy_signature_from(&mut self, from: &BlameEntry)
        ensures
            final(self)@ == with_signature_of(old(self)@, from@),
    {
        self.author = from.author.clone();
        self.author_mail = from.author_mail.clone();
        self.author_time = from.author_time;
        self.author_tz = from.author_tz.clone();
        self.committer = from.committer.clone();
        self.committer_mail = from.committer_mail.clone();
        self.committer_time = from.committer_time;
        self.committer_tz = from.committer_tz.clone();
        self.summary = from.summary.clone();
    }

    fn apply_field(&mut self, key: &Vec<char>, value: &Vec<char>, line: usize) -> (r: Result<
        (),
        BlameError,
    >)
        ensures
            match apply_field(old(self)@, key@, value@, line as int) {
                Ok(e) => r is Ok && final(self)@ == e,
                Err(err) => r matches Err(x) && x == err,
            },
    {
        if chars_equal(key, "summary") {
            self.summary = string_from_chars(value);
        } else if chars_equal(key, "previous") {
            self.previous = Some(string_from_chars(value));
        } else if chars_equal(key, "author") {
            self.author = string_from_chars(value);
        } else if chars_equal(key, "author-mail") {
            self.author_mail = string_from_chars(value);
        } else if chars_equal(key, "author-time") {
            match parse_i64(value) {
                Some(t) => self.author_time = t,
                None => return Err(BlameError::InvalidNumber { line }),
            }
        } else if chars_equal(key, "author-tz") {
            self.author_tz = string_from_chars(value);
        } else if chars_equal(key, "committer") {
            self.committer = string_from_chars(value);
        } else if chars_equal(key, "committer-mail") {
            self.committer_mail = string_from_chars(value);
        } else if chars_equal(key, "committer-time") {
            match parse_i64(value) {
                Some(t) => self.committer_time = t,
                None => return Err(BlameError::InvalidNumber { line }),
            }
        } else if chars_equal(key, "committer-tz") {
            self.committer_tz = string_from_chars(value);
        }
        Ok(())
    }
}

/// Finds the first record with the given commit id.
fn first_with_sha_in(entries: &Vec<BlameEntry>, sha: &String) -> (r: Option<usize>)
    ensures
        match r {
            Some(j) => j < entries.len() && first_with_sha(entries_view(entries@), sha@) == Some(
                j as int,
            ),
            None => first_with_sha(entries_view(entries@), sha@) is None,
        },
{
    let ghost es = entries_view(entries@);
    let mut found: Option<usize> = None;
    let mut i: usize = 0;
    while i < entries.len()
        invariant
            i <= entries.len(),
            es == entries_view(entries@),
            match found {
                Some(j) => j < i && first_with_sha(es.take(i as int), sha@) == Some(j as int),
                None => first_with_sha(es.take(i as int), sha@) is None,
            },
        decreases entries.len() - i,
    {
        assert(es.take(i + 1).drop_last() =~= es.take(i as int));
        if found.is_none() && entries[i].sha == *sha {
            found = Some(i);
        }
        i = i + 1;
    }
    assert(es.take(entries.len() as int) =~= es);
    found
}

/// The decoder's state; `model` is its value.
struct Parser {
    entries: Vec<BlameEntry>,
    current: Option<BlameEntry>,
}

impl Parser {
    spec fn model(&self) -> ParserModel {
        ParserModel {
            entries: entries_view(self.entries@),
            current: match self.current {
                Some(e) => Some(e@),
                None => None,
            },
        }
    }

    fn process_line(&mut self, line: &Vec<char>, line_no: usize) -> (r: Result<(), BlameError>)
        ensures
            match step_line(old(self).model(), words_of(line@), line_no as int) {
                Ok(st) => r is Ok && final(self).model() == st,
                Err(err) => r matches Err(x) && x == err,
            },
    {
        let words = split_words(line);
        if words.len() == 0 || (words.len() == 1 && self.current.is_some()) {
            return Ok(());
        }
        let ghost dv = words.deep_view();
        assert(dv[0] =~= words[0]@);
        let cur = self.current.take();
        match cur {
            None => {
                let mut e = match BlameEntry::new_from_first_entry_line(&words, line_no) {
                    Ok(e) => e,
                    Err(err) => return Err(err),
                };
                let ghost e0 = e@;
                let ghost es = entries_view(self.entries@);
                match first_with_sha_in(&self.entries, &e.sha) {
                    Some(j) => {
                        assert(es[j as int] == self.entries@[j as int]@);
                        e.copy_signature_from(&self.entries[j]);
                    },
                    None => {},
                }
                assert(e@ == backfilled(es, e0));
                self.current = Some(e);
                Ok(())
            },
            Some(mut e) => {
                let value = join_from(&words, 1);
                assert(dv.skip(1) =~= dv.drop_first());
                if chars_equal(&words[0], "filename") {
                    e.filename = string_from_chars(&value);
                    let ghost before = entries_view(self.entries@);
                    self.entries.push(e);
                    assert(entries_view(self.entries@) =~= before.push(e@));
                    Ok(())
                } else {
                    let ghost e0 = e@;
                    match e.apply_field(&words[0], &value, line_no) {
                        Ok(()) => {
                            assert(apply_field(e0, dv[0], join_words(dv.drop_first()), line_no as int) == Ok::<EntryView, BlameError>(e@));
                            self.current = Some(e);
                            Ok(())
                        },
                        Err(err) => Err(err),
                    }
                }
            },
        }
    }
}

/// Decodes the output of `git blame --incremental` into its records.
///
/// A record whose commit id was seen before inherits the signature of the
/// first record of that commit.
pub fn parse_git_blame(output: &str) -> (r: Result<Vec<BlameEntry>, BlameError>)
    ensures
        match parse_spec(output@) {
            Ok(es) => r matches Ok(v) && entries_view(v@) == es,
            Err(e) => r matches Err(x) && x == e,
        },
{
    let chars = chars_of(output);
    let mut parser = Parser { entries: Vec::new(), current: None };
    let mut line: Vec<char> = Vec::new();
    let mut line_no: usize = 0;
    let mut i: usize = 0;
    assert(chars@.take(0) =~= Seq::<char>::empty());
    assert(lines_of(Seq::<char>::empty()).drop_last() =~= Seq::<Seq<char>>::empty());
    assert(entries_view(parser.entries@) =~= Seq::<EntryView>::empty());
    while i < chars.len()
        invariant
            i <= chars.len(),
            chars@ == output@,
            line_no as int == lines_of(chars@.take(i as int)).len() - 1,
            line_no <= i,
            lines_of(chars@.take(i as int)).last() == line@,
            run_lines(lines_of(chars@.take(i as int)).drop_last()) == Ok::<ParserModel, BlameError>(parser.model()),
        decreases chars.len() - i,
    {
        let c = chars[i];
        let ghost prefix = chars@.take(i as int);
        let ghost prev = lines_of(prefix);
        proof {
            lemma_lines_nonempty(prefix);
            assert(chars@.take(i + 1).drop_last() =~= prefix);
            assert(chars@.take(i + 1).last() == c);
        }
        if c == '\n' {
            assert(lines_of(chars@.take(i + 1)).drop_last() =~= prev);
            assert(prev.drop_last().push(prev.last()) =~= prev);
            match parser.process_line(&line, line_no) {
                Ok(()) => {},
                Err(e) => {
                    proof {
                        let a = chars@.take(i + 1);
                        let b = chars@.skip(i + 1);
                        assert(a + b =~= output@);
                        lemma_lines_extend(a, b);
                        lemma_run_err(lines_of(output@), prev.len() as int);
                    }
                    return Err(e);
                },
            }
            line = Vec::new();
            line_no = line_no + 1;
        } else {
            line.push(c);
            assert(lines_of(chars@.take(i + 1)).drop_last() =~= prev.drop_last());
        }
        i = i + 1;
    }
    let ghost all = lines_of(output@);
    proof {
        assert(chars@.take(i as int) =~= output@);
        lemma_lines_nonempty(output@);
        assert(all.drop_last().push(all.last()) =~= all);
    }
    match parser.process_line(&line, line_no) {
        Ok(()) => {},
        Err(e) => return Err(e),
    }
    Ok(parser.entries)
}


/// The UTC offset, in seconds, of a zone field such as `+0100`: the signed
/// number it spells, counted in units of 36 seconds.
pub open spec fn zone_offset_of(tz: Seq<char>) -> Option<int> {
    match integer_of(tz, i32::MIN as int, i32::MAX as int) {
        Some(v) => Some(v * 36),
        None => None,
    }
}

/// The time that a timestamp field and a zone field denote together.
pub open spec fn datetime_spec(seconds: i64, tz: Seq<char>) -> Result<CommitTime, BlameError> {
    match zone_offset_of(tz) {
        Some(offset) => commit_time_spec(seconds as int, offset),
        None => Err(BlameError::InvalidTimezone),
    }
}

fn datetime_of(seconds: i64, tz: &String) -> (r: Result<CommitTime, BlameError>)
    ensures
        r == datetime_spec(seconds, tz@),
{
    let chars = chars_of(tz.as_str());
    match parse_i32(&chars) {
        Some(v) => commit_time(seconds, v as i64 * 36),
        None => Err(BlameError::InvalidTimezone),
    }
}

impl BlameEntry {
    /// When the commit was made, in the committer's time zone.
    pub fn committer_datetime(&self) -> (r: Result<CommitTime, BlameError>)
        ensures
            r == datetime_spec(self.committer_time, self.committer_tz@),
    {
        datetime_of(self.committer_time, &self.committer_tz)
    }

    /// When the change was authored, in the author's time zone.
    pub fn author_datetime(&self) -> (r: Result<CommitTime, BlameError>)
        ensures
            r == datetime_spec(self.author_time, self.author_tz@),
    {
        datetime_of(self.author_time, &self.author_tz)
    }
}

/// The attribution fact that a record states: its commit, its final lines,
/// and its author, who wrote them at `time`.
pub open spec fn entry_fact(e: BlameEntry, time: CommitTime) -> RawHunk {
    RawHunk {
        commit_id: e.sha,
        final_start_line: e.final_line_number as usize,
        lines_in_hunk: e.line_count as usize,
        signature: Some(Signature { name: Some(e.author), email: Some(e.author_mail), time }),
    }
}

/// The attribution facts of decoded records, in their order; the first
/// record whose author time cannot be read makes the whole an error.
pub open spec fn facts_spec(entries: Seq<BlameEntry>) -> Result<Seq<RawHunk>, BlameError>
    decreases entries.len(),
{
    if entries.len() == 0 {
        Ok(Seq::empty())
    } else {
        match facts_spec(entries.drop_last()) {
            Err(e) => Err(e),
            Ok(fs) => {
                let e = entries.last();
                match datetime_spec(e.author_time, e.author_tz@) {
                    Ok(t) => Ok(fs.push(entry_fact(e, t))),
                    Err(err) => Err(err),
                }
            },
        }
    }
}

proof fn lemma_facts_err(entries: Seq<BlameEntry>, k: int)
    requires
        0 <= k <= entries.len(),
        facts_spec(entries.take(k)) is Err,
    ensures
        facts_spec(entries) == facts_spec(entries.take(k)),
    decreases entries.len(),
{
    if k == entries.len() {
        assert(entries.take(k) =~= entries);
    } else {
        assert(entries.drop_last().take(k) =~= entries.take(k));
        lemma_facts_err(entries.drop_last(), k);
    }
}

/// The attribution facts of decoded records, in their order.
pub fn facts_from_entries(entries: &Vec<BlameEntry>) -> (r: Result<Vec<RawHunk>, BlameError>)
    ensures
        match facts_spec(entries@) {
            Ok(fs) => r matches Ok(v) && v@ == fs,
            Err(e) => r matches Err(x) && x == e,
        },
{
    let mut out: Vec<RawHunk> = Vec::new();
    let mut i: usize = 0;
    while i < entries.len()
        invariant
            i <= entries.len(),
            facts_spec(entries@.take(i as int)) == Ok::<Seq<RawHunk>, BlameError>(out@),
        decreases entries.len() - i,
    {
        let e = &entries[i];
        assert(entries@.take(i + 1).drop_last() =~= entries@.take(i as int));
        assert(entries@.take(i + 1).last() == *e);
        let time = match e.author_datetime() {
            Ok(t) => t,
            Err(err) => {
                proof {
                    lemma_facts_err(entries@, i + 1);
                }
                return Err(err);
            },
        };
        let signature = Signature {
            name: Some(e.author.clone()),
            email: Some(e.author_mail.clone()),
            time,
        };
        out.push(
            RawHunk {
                commit_id: e.sha.clone(),
                final_start_line: e.final_line_number as usize,
                lines_in_hunk: e.line_count as usize,
                signature: Some(signature),
            },
        );
        i = i + 1;
    }
    assert(entries@.take(entries.len() as int) =~= entries@);
    Ok(out)
}

} // verus!
