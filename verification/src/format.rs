//! Telling the four formats apart from the beginning of a buffer.

use crate::ascii::{
    CARRIAGE_RETURN, COMMA, DOT, EQUALS, is_alnum, is_alpha, is_ascii_alphabetic,
    is_ascii_alphanumeric, MINUS, NEWLINE, OPEN_BRACE, OPEN_BRACKET, QUOTE, SPACE, TAB, UNDERSCORE,
};
use crate::search::{
    byte_is, byte_is_not, count_where, find_byte, find_quote_end, lemma_quoted_end,
    lemma_scan_until, lemma_scan_until_unique, quoted_end, scan_until, skip_run,
};
use vstd::prelude::*;

verus! {

/// The formats a log can be in.
#[derive(Debug, Clone, Copy, PartialEq, Eq, Hash, Structural)]
pub enum LogFormat {
    PlainText,
    Json,
    Logfmt,
    Csv,
}

/// Detection looks at no more than this many bytes.
pub const DETECT_WINDOW: usize = 4096;

/// Space, tab, carriage return or newline.
pub open spec fn whitespace(b: u8) -> bool {
    b == SPACE || b == TAB || b == CARRIAGE_RETURN || b == NEWLINE
}

/// The stop set of the bytes that are no whitespace.
pub open spec fn not_whitespace() -> spec_fn(u8) -> bool {
    |b: u8| !whitespace(b)
}

/// A byte that a logfmt key may hold: a letter, a digit, `_`, `-` or `.`.
pub open spec fn logfmt_key_char(b: u8) -> bool {
    is_alnum(b) || b == UNDERSCORE || b == MINUS || b == DOT
}

/// The stop set of the bytes that no logfmt key holds.
pub open spec fn not_key_char() -> spec_fn(u8) -> bool {
    |b: u8| !logfmt_key_char(b)
}

/// A letter or `_`.
pub open spec fn word_char() -> spec_fn(u8) -> bool {
    |b: u8| is_alpha(b) || b == UNDERSCORE
}

/// Where the content begins: after a UTF-8 byte order mark, if there is
/// one, and the whitespace that follows.
pub open spec fn content_start(s: Seq<u8>) -> int {
    let after_bom = if s.len() >= 3 && s[0] == 0xEF && s[1] == 0xBB && s[2] == 0xBF {
        3int
    } else {
        0int
    };
    scan_until(s, after_bom, not_whitespace())
}

/// The buffer without a leading byte order mark and leading whitespace.
pub open spec fn content(s: Seq<u8>) -> Seq<u8> {
    s.skip(content_start(s))
}

/// The content of a buffer begins inside the buffer.
pub proof fn lemma_content_start(s: Seq<u8>)
    ensures
        0 <= content_start(s) <= s.len(),
{
    let after_bom = if s.len() >= 3 && s[0] == 0xEF && s[1] == 0xBB && s[2] == 0xBF {
        3int
    } else {
        0int
    };
    lemma_scan_until(s, after_bom, not_whitespace());
}

/// One step over a line in search of `key=value` pairs: whether the word at
/// or after `i` is a pair, and where the next step begins. A pair is a
/// non-empty run of key bytes, `=`, and a value that is quoted or runs up to
/// the next space. A word that is no pair is passed over up to the next
/// space.
pub open spec fn pair_at(line: Seq<u8>, i: int) -> (bool, int) {
    let len = line.len() as int;
    let key_start = scan_until(line, i, byte_is_not(SPACE));
    let key_end = scan_until(line, key_start, not_key_char());
    if key_end == key_start || key_end >= len || line[key_end] != EQUALS {
        (false, scan_until(line, key_end, byte_is(SPACE)))
    } else if key_end + 1 < len && line[key_end + 1] == QUOTE {
        let end = quoted_end(line, key_end + 2);
        (
            true,
            if end < len {
                end + 1
            } else {
                end
            },
        )
    } else {
        (true, scan_until(line, key_end + 1, byte_is(SPACE)))
    }
}

pub proof fn lemma_pair_at(line: Seq<u8>, i: int)
    requires
        0 <= i < line.len(),
    ensures
        i < pair_at(line, i).1 <= line.len(),
{
    let len = line.len() as int;
    lemma_scan_until(line, i, byte_is_not(SPACE));
    let key_start = scan_until(line, i, byte_is_not(SPACE));
    lemma_scan_until(line, key_start, not_key_char());
    let key_end = scan_until(line, key_start, not_key_char());
    if key_end == key_start || key_end >= len || line[key_end] != EQUALS {
        lemma_scan_until(line, key_end, byte_is(SPACE));
        if key_start == i && key_end == key_start {
            assert(byte_is_not(SPACE)(line[i]));
            assert(!byte_is(SPACE)(line[i]));
        }
    } else if key_end + 1 < len && line[key_end + 1] == QUOTE {
        lemma_quoted_end(line, key_end + 2);
    } else {
        lemma_scan_until(line, key_end + 1, byte_is(SPACE));
    }
}

/// There are at least `need` pairs in `line` from position `i` on.
pub open spec fn pairs_found(line: Seq<u8>, i: int, need: nat) -> bool
    decreases line.len() - i,
{
    if need == 0 {
        true
    } else if i < 0 || i >= line.len() {
        false
    } else {
        let (is_pair, next) = pair_at(line, i);
        proof {
            lemma_pair_at(line, i);
        }
        pairs_found(
            line,
            next,
            if is_pair {
                (need - 1) as nat
            } else {
                need
            },
        )
    }
}

/// The line looks like a CSV header and the line after it like one of its
/// rows: the first line of `all` holds at least two commas, at least a third
/// of its bytes are letters or `_`, a second line follows, and that line
/// holds as many commas as the first.
pub open spec fn csv_like(first_line: Seq<u8>, all: Seq<u8>) -> bool {
    let commas = count_where(first_line, byte_is(COMMA));
    let words = count_where(first_line, word_char());
    if commas < 2 || words < first_line.len() / 3 || first_line.len() >= all.len() {
        false
    } else {
        let rest = all.skip(first_line.len() as int);
        let gap = if rest[0] == NEWLINE {
            1int
        } else if rest.len() >= 2 && rest[0] == CARRIAGE_RETURN && rest[1] == NEWLINE {
            2int
        } else {
            0int
        };
        if gap == 0 {
            false
        } else {
            let after = rest.skip(gap);
            let second_line = after.take(scan_until(after, 0, byte_is(NEWLINE)));
            count_where(second_line, byte_is(COMMA)) == commas
        }
    }
}

/// The format that a buffer beginning with `s` is in. Content that begins
/// with `{`, or with `[` and then `{`, is JSON. Otherwise the first line
/// decides: two `key=value` pairs make it logfmt, the shape of a CSV header
/// with a matching second line makes it CSV, and anything else is plain
/// text.
pub open spec fn detect_format(s: Seq<u8>) -> LogFormat {
    let body = content(s);
    if body.len() == 0 {
        LogFormat::PlainText
    } else if body[0] == OPEN_BRACE {
        LogFormat::Json
    } else if body[0] == OPEN_BRACKET && body.len() > 1 && content(body.skip(1)).len() > 0
        && content(body.skip(1))[0] == OPEN_BRACE {
        LogFormat::Json
    } else {
        let first_line = body.take(scan_until(body, 0, byte_is(NEWLINE)));
        if pairs_found(first_line, 0, 2) {
            LogFormat::Logfmt
        } else if csv_like(first_line, body) {
            LogFormat::Csv
        } else {
            LogFormat::PlainText
        }
    }
}

pub fn is_logfmt_key_char(b: u8) -> (r: bool)
    ensures
        r == logfmt_key_char(b),
{
    is_ascii_alphanumeric(b) || b == UNDERSCORE || b == MINUS || b == DOT
}

/// `data` without a leading byte order mark and leading whitespace.
pub fn skip_whitespace_and_bom(data: &[u8]) -> (r: &[u8])
    ensures
        r@ == content(data@),
{
    let len: usize = data.len();
    let mut i: usize = 0;
    if len >= 3 && data[0] == 0xEF && data[1] == 0xBB && data[2] == 0xBF {
        i = 3;
    }
    let ghost after_bom = i;
    while i < len && (data[i] == SPACE || data[i] == TAB || data[i] == CARRIAGE_RETURN || data[i]
        == NEWLINE)
        invariant
            after_bom <= i <= len == data.len(),
            forall|j: int| after_bom <= j < i ==> !not_whitespace()(#[trigger] data@[j]),
        decreases len - i,
    {
        i += 1;
    }
    proof {
        lemma_scan_until_unique(data@, after_bom as int, not_whitespace(), i as int);
    }
    &data[i..len]
}

/// Counts the commas of `line`.
fn count_commas(line: &[u8]) -> (r: usize)
    ensures
        r == count_where(line@, byte_is(COMMA)),
{
    let mut count: usize = 0;
    let mut k: usize = 0;
    proof {
        assert(line@.take(0) =~= Seq::<u8>::empty());
    }
    while k < line.len()
        invariant
            k <= line.len(),
            count == count_where(line@.take(k as int), byte_is(COMMA)),
            count <= k,
        decreases line.len() - k,
    {
        proof {
            assert(line@.take(k + 1).drop_last() =~= line@.take(k as int));
        }
        if line[k] == COMMA {
            count += 1;
        }
        k += 1;
    }
    proof {
        assert(line@.take(line.len() as int) =~= line@);
    }
    count
}

/// Counts the letters and underscores of `line`.
fn count_word_chars(line: &[u8]) -> (r: usize)
    ensures
        r == count_where(line@, word_char()),
{
    let mut count: usize = 0;
    let mut k: usize = 0;
    proof {
        assert(line@.take(0) =~= Seq::<u8>::empty());
    }
    while k < line.len()
        invariant
            k <= line.len(),
            count == count_where(line@.take(k as int), word_char()),
            count <= k,
        decreases line.len() - k,
    {
        proof {
            assert(line@.take(k + 1).drop_last() =~= line@.take(k as int));
        }
        if is_ascii_alphabetic(line[k]) || line[k] == UNDERSCORE {
            count += 1;
        }
        k += 1;
    }
    proof {
        assert(line@.take(line.len() as int) =~= line@);
    }
    count
}

/// Whether `line` holds at least two `key=value` pairs.
pub fn detect_logfmt(line: &[u8]) -> (r: bool)
    ensures
        r == pairs_found(line@, 0, 2),
{
    let len: usize = line.len();
    let mut i: usize = 0;
    let mut kv_count: usize = 0;
    while i < len
        invariant
            i <= len == line.len(),
            kv_count < 2,
            pairs_found(line@, 0, 2) == pairs_found(line@, i as int, (2 - kv_count) as nat),
        decreases len - i,
    {
        proof {
            lemma_pair_at(line@, i as int);
        }
        let ghost at = i;
        let key_start: usize = skip_run(line, i, SPACE);
        let mut key_end: usize = key_start;
        while key_end < len && is_logfmt_key_char(line[key_end])
            invariant
                key_start <= key_end <= len == line.len(),
                forall|j: int| key_start <= j < key_end ==> !not_key_char()(#[trigger] line@[j]),
            decreases len - key_end,
        {
            key_end += 1;
        }
        proof {
            lemma_scan_until_unique(line@, key_start as int, not_key_char(), key_end as int);
        }
        if key_end == key_start || key_end >= len || line[key_end] != EQUALS {
            i = find_byte(line, key_end, SPACE);
        } else {
            let after: usize = key_end + 1;
            if after < len && line[after] == QUOTE {
                let end: usize = find_quote_end(line, after + 1);
                i = if end < len {
                    end + 1
                } else {
                    end
                };
            } else {
                i = find_byte(line, after, SPACE);
            }
            kv_count += 1;
            if kv_count >= 2 {
                proof {
                    assert(pair_at(line@, at as int) == (true, i as int));
                    assert(pairs_found(line@, i as int, 0));
                }
                return true;
            }
        }
    }
    false
}

/// Whether `first_line`, the first line of `all_data`, looks like a CSV
/// header that its second line matches.
pub fn detect_csv(first_line: &[u8], all_data: &[u8]) -> (r: bool)
    ensures
        r == csv_like(first_line@, all_data@),
{
    let comma_count: usize = count_commas(first_line);
    if comma_count < 2 {
        return false;
    }
    let alpha_count: usize = count_word_chars(first_line);
    if alpha_count < first_line.len() / 3 {
        return false;
    }
    if first_line.len() >= all_data.len() {
        return false;
    }
    let rest: &[u8] = &all_data[first_line.len()..all_data.len()];
    let start: usize = if rest[0] == NEWLINE {
        1
    } else if rest.len() >= 2 && rest[0] == CARRIAGE_RETURN && rest[1] == NEWLINE {
        2
    } else {
        return false;
    };
    let after_first: &[u8] = &rest[start..rest.len()];
    let second_line_end: usize = find_byte(after_first, 0, NEWLINE);
    let second_line: &[u8] = &after_first[0..second_line_end];
    let second_comma_count: usize = count_commas(second_line);
    proof {
        assert(rest@ =~= all_data@.skip(first_line@.len() as int));
        assert(after_first@ =~= rest@.skip(start as int));
        assert(second_line@ =~= after_first@.take(second_line_end as int));
    }
    second_comma_count == comma_count
}

impl LogFormat {
    /// The format of a buffer, told from its first `DETECT_WINDOW` bytes.
    pub fn detect(data: &[u8]) -> (r: LogFormat)
        ensures
            r == detect_format(
                data@.take(
                    if data@.len() < DETECT_WINDOW {
                        data@.len() as int
                    } else {
                        DETECT_WINDOW as int
                    },
                ),
            ),
    {
        let window_len: usize = if data.len() < DETECT_WINDOW {
            data.len()
        } else {
            DETECT_WINDOW
        };
        let window: &[u8] = &data[0..window_len];
        assert(window@ =~= data@.take(window_len as int));
        let trimmed: &[u8] = skip_whitespace_and_bom(window);
        if trimmed.len() == 0 {
            return LogFormat::PlainText;
        }
        if trimmed[0] == OPEN_BRACE {
            return LogFormat::Json;
        }
        if trimmed[0] == OPEN_BRACKET && trimmed.len() > 1 {
            let tail: &[u8] = &trimmed[1..trimmed.len()];
            assert(tail@ =~= trimmed@.skip(1));
            let inner: &[u8] = skip_whitespace_and_bom(tail);
            if inner.len() > 0 && inner[0] == OPEN_BRACE {
                return LogFormat::Json;
            }
        }
        let first_line_end: usize = find_byte(trimmed, 0, NEWLINE);
        let first_line: &[u8] = &trimmed[0..first_line_end];
        assert(first_line@ =~= trimmed@.take(first_line_end as int));
        if detect_logfmt(first_line) {
            return LogFormat::Logfmt;
        }
        if detect_csv(first_line, trimmed) {
            return LogFormat::Csv;
        }
        LogFormat::PlainText
    }

    /// The name of the format.
    pub open spec fn name(self) -> Seq<char> {
        match self {
            LogFormat::PlainText => "plain-text"@,
            LogFormat::Json => "json"@,
            LogFormat::Logfmt => "logfmt"@,
            LogFormat::Csv => "csv"@,
        }
    }

    pub fn as_str(self) -> (r: &'static str)
        ensures
            r@ == self.name(),
    {
        match self {
            LogFormat::PlainText => "plain-text",
            LogFormat::Json => "json",
            LogFormat::Logfmt => "logfmt",
            LogFormat::Csv => "csv",
        }
    }
}

/// A buffer whose content begins with `{` is JSON, whatever follows.
pub proof fn lemma_brace_is_json(s: Seq<u8>)
    requires
        content(s).len() > 0,
        content(s)[0] == OPEN_BRACE,
    ensures
        detect_format(s) == LogFormat::Json,
{
}

/// A buffer without content is plain text.
pub proof fn lemma_empty_is_plain(s: Seq<u8>)
    requires
        content(s).len() == 0,
    ensures
        detect_format(s) == LogFormat::PlainText,
{
}

} // verus!
