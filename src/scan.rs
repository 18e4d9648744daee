use vstd::prelude::*;

verus! {

/// The characters that carry the Unicode `White_Space` property, which is
/// what separates the fields of a line.
pub open spec fn is_space(c: char) -> bool {
    ||| c == ' '
    ||| ('\t' <= c && c <= '\r')
    ||| c == '\u{85}'
    ||| c == '\u{a0}'
    ||| c == '\u{1680}'
    ||| ('\u{2000}' <= c && c <= '\u{200a}')
    ||| c == '\u{2028}'
    ||| c == '\u{2029}'
    ||| c == '\u{202f}'
    ||| c == '\u{205f}'
    ||| c == '\u{3000}'
}

pub fn space(c: char) -> (r: bool)
    ensures
        r == is_space(c),
{
    c == ' ' || ('\t' <= c && c <= '\r') || c == '\u{85}' || c == '\u{a0}' || c == '\u{1680}'
        || ('\u{2000}' <= c && c <= '\u{200a}') || c == '\u{2028}' || c == '\u{2029}' || c
        == '\u{202f}' || c == '\u{205f}' || c == '\u{3000}'
}

/// The pieces of `s` between line feeds; a text with `n` line feeds has `n + 1` pieces.
pub open spec fn lines_of(s: Seq<char>) -> Seq<Seq<char>>
    decreases s.len(),
{
    if s.len() == 0 {
        seq![Seq::empty()]
    } else {
        let prev = lines_of(s.drop_last());
        if s.last() == '\n' {
            prev.push(Seq::empty())
        } else {
            prev.drop_last().push(prev.last().push(s.last()))
        }
    }
}

/// The maximal runs of characters of `s` that are not white space, in order.
pub open spec fn words_of(s: Seq<char>) -> Seq<Seq<char>>
    decreases s.len(),
{
    if s.len() == 0 {
        Seq::empty()
    } else {
        let prev = words_of(s.drop_last());
        let c = s.last();
        if is_space(c) {
            prev
        } else if s.len() > 1 && !is_space(s[s.len() - 2]) {
            prev.drop_last().push(prev.last().push(c))
        } else {
            prev.push(seq![c])
        }
    }
}

/// The words joined with one space between each two.
pub open spec fn join_words(ws: Seq<Seq<char>>) -> Seq<char>
    decreases ws.len(),
{
    if ws.len() == 0 {
        Seq::empty()
    } else if ws.len() == 1 {
        ws[0]
    } else {
        join_words(ws.drop_last()) + seq![' '] + ws.last()
    }
}

pub proof fn lemma_lines_nonempty(s: Seq<char>)
    ensures
        lines_of(s).len() >= 1,
    decreases s.len(),
{
    if s.len() > 0 {
        lemma_lines_nonempty(s.drop_last());
    }
}

/// Copies the characters of a string into a vector.
pub fn chars_of(s: &str) -> (r: Vec<char>)
    ensures
        r@ == s@,
{
    let mut out: Vec<char> = Vec::new();
    for c in it: s.chars()
        invariant
            out@ == it.seq().take(it.index() as int),
            it.seq() == s@,
    {
        out.push(c);
    }
    out
}


/// Splits a line into its white-space separated words.
pub fn split_words(line: &Vec<char>) -> (r: Vec<Vec<char>>)
    ensures
        r.deep_view() == words_of(line@),
{
    let mut words: Vec<Vec<char>> = Vec::new();
    let mut cur: Vec<char> = Vec::new();
    let mut i: usize = 0;
    while i < line.len()
        invariant
            i <= line.len(),
            cur@.len() > 0 <==> (i > 0 && !is_space(line@[i - 1])),
            cur@.len() > 0 ==> words_of(line@.take(i as int)) == words.deep_view().push(cur@),
            cur@.len() == 0 ==> words_of(line@.take(i as int)) == words.deep_view(),
        decreases line.len() - i,
    {
        let c = line[i];
        let ghost prefix = line@.take(i as int);
        let ghost dv = words.deep_view();
        let ghost old_cur = cur@;
        assert(line@.take(i + 1).drop_last() == prefix);
        assert(line@.take(i + 1).last() == c);
        if space(c) {
            if cur.len() > 0 {
                assert(cur.deep_view() =~= old_cur);
                words.push(cur);
                cur = Vec::new();
                assert(words.deep_view() =~= dv.push(old_cur));
            }
        } else {
            cur.push(c);
            proof {
                if old_cur.len() > 0 {
                    assert(prefix.len() > 0 && prefix[prefix.len() - 1] == line@[i - 1]);
                    assert(words_of(line@.take(i + 1)) =~= dv.push(old_cur.push(c)));
                } else {
                    assert(words_of(line@.take(i + 1)) =~= dv.push(seq![c]));
                    assert(cur@ =~= seq![c]);
                }
            }
        }
        i = i + 1;
    }
    let ghost dv = words.deep_view();
    let ghost old_cur = cur@;
    assert(line@.take(line@.len() as int) == line@);
    if cur.len() > 0 {
        assert(cur.deep_view() =~= old_cur);
        words.push(cur);
        assert(words.deep_view() =~= dv.push(old_cur));
    }
    words
}


/// Joins `words[from..]` with one space between each two.
pub fn join_from(words: &Vec<Vec<char>>, from: usize) -> (r: Vec<char>)
    requires
        from <= words.len(),
    ensures
        r@ == join_words(words.deep_view().skip(from as int)),
{
    let ghost dv = words.deep_view();
    let mut out: Vec<char> = Vec::new();
    let mut i: usize = from;
    while i < words.len()
        invariant
            from <= i <= words.len(),
            dv == words.deep_view(),
            out@ == join_words(dv.subrange(from as int, i as int)),
        decreases words.len() - i,
    {
        let ghost before = out@;
        let w = &words[i];
        assert(w.deep_view() =~= w@);
        if i > from {
            out.push(' ');
        }
        let mut j: usize = 0;
        let ghost mid = out@;
        while j < w.len()
            invariant
                j <= w.len(),
                out@ == mid + w@.take(j as int),
            decreases w.len() - j,
        {
            out.push(w[j]);
            j = j + 1;
            assert(out@ =~= mid + w@.take(j as int));
        }
        assert(w@.take(w@.len() as int) =~= w@);
        assert(dv.subrange(from as int, i + 1).drop_last() =~= dv.subrange(from as int, i as int));
        assert(dv.subrange(from as int, i + 1).last() == w@);
        proof {
            if i == from {
                assert(out@ =~= w@);
            } else {
                assert(out@ =~= before + seq![' '] + w@);
            }
        }
        i = i + 1;
    }
    assert(dv.subrange(from as int, words.len() as int) =~= dv.skip(from as int));
    out
}

/// Compares a run of characters with a string.
pub fn chars_equal(k: &Vec<char>, lit: &str) -> (r: bool)
    ensures
        r == (k@ == lit@),
{
    let n = lit.unicode_len();
    if k.len() != n {
        return false;
    }
    let mut i: usize = 0;
    while i < n
        invariant
            n == lit@.len(),
            k@.len() == n,
            i <= n,
            k@.take(i as int) == lit@.take(i as int),
        decreases n - i,
    {
        if k[i] != lit.get_char(i) {
            assert(k@[i as int] != lit@[i as int]);
            return false;
        }
        i = i + 1;
        assert(k@.take(i as int) =~= lit@.take(i as int)) by {
            assert(k@.take(i - 1) == lit@.take(i - 1));
        };
    }
    assert(k@ =~= k@.take(n as int));
    assert(lit@ =~= lit@.take(n as int));
    true
}

/// Relies on std's `FromIterator<&char>` for `String`, which appends the characters in order.
#[verifier::external_body]
pub(crate) fn string_from_chars(v: &Vec<char>) -> (r: String)
    ensures
        r@ == v@,
{
    v.iter().collect::<String>()
}

pub open spec fn is_digit(c: char) -> bool {
    '0' <= c && c <= '9'
}

pub open spec fn digit_value(c: char) -> int {
    (c as u32) as int - ('0' as u32) as int
}

/// The number that a run of decimal digits denotes.
pub open spec fn digits_value(s: Seq<char>) -> int
    decreases s.len(),
{
    if s.len() == 0 {
        0
    } else {
        digits_value(s.drop_last()) * 10 + digit_value(s.last())
    }
}

pub open spec fn all_digits(s: Seq<char>) -> bool {
    forall|i: int| 0 <= i < s.len() ==> is_digit(#[trigger] s[i])
}

/// The value of `s` if it is a non-empty run of decimal digits.
pub open spec fn magnitude_of(s: Seq<char>) -> Option<int> {
    if s.len() > 0 && all_digits(s) {
        Some(digits_value(s))
    } else {
        None
    }
}

/// The integer in `[lo, hi]` that `s` spells, read as Rust reads integers
/// from text: an optional `+` (or `-` where `lo` is negative) and at least one digit.
pub open spec fn integer_of(s: Seq<char>, lo: int, hi: int) -> Option<int> {
    let v = if s.len() > 0 && s[0] == '+' {
        magnitude_of(s.drop_first())
    } else if lo < 0 && s.len() > 0 && s[0] == '-' {
        match magnitude_of(s.drop_first()) {
            Some(m) => Some(-m),
            None => None,
        }
    } else {
        magnitude_of(s)
    };
    match v {
        Some(x) => if lo <= x && x <= hi {
            Some(x)
        } else {
            None
        },
        None => None,
    }
}

/// Reads the digits of `s[start..]` as a number no larger than `max`.
fn magnitude(s: &Vec<char>, start: usize, max: u64) -> (r: Option<u64>)
    requires
        start <= s.len(),
    ensures
        match magnitude_of(s@.skip(start as int)) {
            Some(v) => if v <= max {
                r matches Some(x) && x as int == v
            } else {
                r is None
            },
            None => r is None,
        },
{
    if start == s.len() {
        return None;
    }
    let mut acc: u64 = 0;
    let mut big = false;
    let mut i: usize = start;
    while i < s.len()
        invariant
            start <= i <= s.len(),
            all_digits(s@.subrange(start as int, i as int)),
            big ==> digits_value(s@.subrange(start as int, i as int)) > max,
            !big ==> acc == digits_value(s@.subrange(start as int, i as int)) && acc <= max,
        decreases s.len() - i,
    {
        let c = s[i];
        if !('0' <= c && c <= '9') {
            assert(!all_digits(s@.skip(start as int))) by {
                assert(s@.skip(start as int)[i - start] == c);
            };
            return None;
        }
        let d = (c as u32 - '0' as u32) as u64;
        let ghost sub = s@.subrange(start as int, i as int);
        let ghost next = s@.subrange(start as int, i + 1);
        assert(next.drop_last() =~= sub);
        assert(next.last() == c);
        assert(digits_value(next) == digits_value(sub) * 10 + d);
        if !big {
            if d <= max && acc <= (max - d) / 10 {
                assert(acc * 10 + d <= max) by (nonlinear_arith)
                    requires
                        d <= max,
                        acc <= (max - d) / 10,
                ;
                acc = acc * 10 + d;
            } else {
                assert(acc * 10 + d > max) by (nonlinear_arith)
                    requires
                        d > max || acc > (max - d) / 10,
                        acc >= 0,
                ;
                big = true;
            }
        }
        i = i + 1;
        assert(all_digits(next)) by {
            assert forall|k: int| 0 <= k < next.len() implies is_digit(#[trigger] next[k]) by {
                if k < sub.len() {
                    assert(next[k] == sub[k]);
                }
            }
        };
    }
    assert(s@.subrange(start as int, s@.len() as int) =~= s@.skip(start as int));
    if big {
        None
    } else {
        Some(acc)
    }
}

/// Reads an unsigned 32-bit integer.
pub fn parse_u32(s: &Vec<char>) -> (r: Option<u32>)
    ensures
        match integer_of(s@, 0, u32::MAX as int) {
            Some(v) => r == Some(v as u32),
            None => r is None,
        },
{
    let start: usize = if s.len() > 0 && s[0] == '+' {
        1
    } else {
        0
    };
    assert(s@.skip(0) =~= s@);
    assert(s@.len() > 0 ==> s@.skip(1) =~= s@.drop_first());
    match magnitude(s, start, u32::MAX as u64) {
        Some(v) => Some(v as u32),
        None => None,
    }
}

/// Reads a signed 64-bit integer.
pub fn parse_i64(s: &Vec<char>) -> (r: Option<i64>)
    ensures
        match integer_of(s@, i64::MIN as int, i64::MAX as int) {
            Some(v) => r == Some(v as i64),
            None => r is None,
        },
{
    assert(s@.skip(0) =~= s@);
    assert(s@.len() > 0 ==> s@.skip(1) =~= s@.drop_first());
    if s.len() > 0 && s[0] == '-' {
        match magnitude(s, 1, 0x8000_0000_0000_0000u64) {
            Some(v) => if v == 0x8000_0000_0000_0000u64 {
                Some(i64::MIN)
            } else {
                Some(-(v as i64))
            },
            None => None,
        }
    } else {
        let start: usize = if s.len() > 0 && s[0] == '+' {
            1
        } else {
            0
        };
        match magnitude(s, start, i64::MAX as u64) {
            Some(v) => Some(v as i64),
            None => None,
        }
    }
}

/// Reads a signed 32-bit integer.
pub fn parse_i32(s: &Vec<char>) -> (r: Option<i32>)
    ensures
        match integer_of(s@, i32::MIN as int, i32::MAX as int) {
            Some(v) => r == Some(v as i32),
            None => r is None,
        },
{
    match parse_i64(s) {
        Some(v) => if i32::MIN as i64 <= v && v <= i32::MAX as i64 {
            Some(v as i32)
        } else {
            None
        },
        None => None,
    }
}

} // verus!
