//! Forward and backward search in byte strings.

use crate::ascii::{BACKSLASH, QUOTE};
use crate::bits::{bit_set, set_bits};
use vstd::prelude::*;

verus! {

/// The stop set holding the single byte `needle`.
pub open spec fn byte_is(needle: u8) -> spec_fn(u8) -> bool {
    |b: u8| b == needle
}

/// The stop set holding every byte but `needle`.
pub open spec fn byte_is_not(needle: u8) -> spec_fn(u8) -> bool {
    |b: u8| b != needle
}

/// The stop set of the two bytes `a` and `b`.
pub open spec fn byte_in2(a: u8, b: u8) -> spec_fn(u8) -> bool {
    |x: u8| x == a || x == b
}

/// The stop set of the three bytes `a`, `b` and `c`.
pub open spec fn byte_in3(a: u8, b: u8, c: u8) -> spec_fn(u8) -> bool {
    |x: u8| x == a || x == b || x == c
}

/// The least index `r >= from` with `stop(s[r])`, or `s.len()` when no byte
/// at or after `from` is in the stop set.
pub open spec fn scan_until(s: Seq<u8>, from: int, stop: spec_fn(u8) -> bool) -> int
    decreases s.len() - from,
{
    if from >= s.len() {
        s.len() as int
    } else if from >= 0 && stop(s[from]) {
        from
    } else {
        scan_until(s, from + 1, stop)
    }
}

/// `scan_until` returns a position in `from..=len`, skips only bytes outside
/// the stop set, and rests on a byte of the stop set unless it ran off the end.
pub proof fn lemma_scan_until(s: Seq<u8>, from: int, stop: spec_fn(u8) -> bool)
    requires
        0 <= from <= s.len(),
    ensures
        from <= scan_until(s, from, stop) <= s.len(),
        forall|j: int| from <= j < scan_until(s, from, stop) ==> !stop(#[trigger] s[j]),
        scan_until(s, from, stop) < s.len() ==> stop(s[scan_until(s, from, stop)]),
    decreases s.len() - from,
{
    if from < s.len() && !stop(s[from]) {
        lemma_scan_until(s, from + 1, stop);
    }
}

/// Any position with the three properties of `lemma_scan_until` is the one
/// `scan_until` returns.
pub proof fn lemma_scan_until_unique(s: Seq<u8>, from: int, stop: spec_fn(u8) -> bool, r: int)
    requires
        0 <= from <= r <= s.len(),
        forall|j: int| from <= j < r ==> !stop(#[trigger] s[j]),
        r < s.len() ==> stop(s[r]),
    ensures
        scan_until(s, from, stop) == r,
    decreases r - from,
{
    if from < r {
        assert(!stop(s[from]));
        lemma_scan_until_unique(s, from + 1, stop, r);
    }
}

/// Scanning a prefix that already contains the stopping position gives the
/// same position as scanning the whole string.
pub proof fn lemma_scan_until_prefix(
    s: Seq<u8>,
    from: int,
    stop: spec_fn(u8) -> bool,
    end: int,
)
    requires
        0 <= from <= end <= s.len(),
    ensures
        scan_until(s.subrange(0, end), from, stop) == if scan_until(s, from, stop) < end {
            scan_until(s, from, stop)
        } else {
            end
        },
{
    let p = s.subrange(0, end);
    let r = scan_until(s, from, stop);
    lemma_scan_until(s, from, stop);
    if r < end {
        assert forall|j: int| from <= j < r implies !stop(#[trigger] p[j]) by {
            assert(p[j] == s[j]);
        }
        assert(p[r] == s[r]);
        lemma_scan_until_unique(p, from, stop, r);
    } else {
        assert forall|j: int| from <= j < end implies !stop(#[trigger] p[j]) by {
            assert(p[j] == s[j]);
        }
        lemma_scan_until_unique(p, from, stop, end);
    }
}

/// The number of positions of `s` whose byte satisfies `pred`.
pub open spec fn count_where(s: Seq<u8>, pred: spec_fn(u8) -> bool) -> nat
    decreases s.len(),
{
    if s.len() == 0 {
        0
    } else {
        count_where(s.drop_last(), pred) + if pred(s.last()) {
            1nat
        } else {
            0nat
        }
    }
}

pub proof fn lemma_count_where_bound(s: Seq<u8>, pred: spec_fn(u8) -> bool)
    ensures
        count_where(s, pred) <= s.len(),
    decreases s.len(),
{
    if s.len() > 0 {
        lemma_count_where_bound(s.drop_last(), pred);
    }
}

/// `memchr::memchr` returns the index of the first occurrence of `needle` in
/// `haystack`, and `None` when the byte does not occur.
pub assume_specification[ memchr::memchr ](needle: u8, haystack: &[u8]) -> (r: Option<usize>)
    ensures
        match r {
            Some(i) => i < haystack@.len() && haystack@[i as int] == needle && forall|j: int|
                0 <= j < i ==> haystack@[j] != needle,
            None => forall|j: int| 0 <= j < haystack@.len() ==> haystack@[j] != needle,
        },
;

/// `memchr::memrchr` returns the index of the last occurrence of `needle` in
/// `haystack`, and `None` when the byte does not occur.
pub assume_specification[ memchr::memrchr ](needle: u8, haystack: &[u8]) -> (r: Option<usize>)
    ensures
        match r {
            Some(i) => i < haystack@.len() && haystack@[i as int] == needle && forall|j: int|
                i < j < haystack@.len() ==> haystack@[j] != needle,
            None => forall|j: int| 0 <= j < haystack@.len() ==> haystack@[j] != needle,
        },
;

/// The first position at or after `from` that holds `needle`, or `data.len()`.
pub fn find_byte(data: &[u8], from: usize, needle: u8) -> (r: usize)
    requires
        from <= data.len(),
    ensures
        r == scan_until(data@, from as int, byte_is(needle)),
        from <= r <= data.len(),
{
    let tail: &[u8] = &data[from..data.len()];
    let r: usize = match memchr::memchr(needle, tail) {
        Some(i) => from + i,
        None => data.len(),
    };
    proof {
        assert forall|j: int| from <= j < r implies !byte_is(needle)(#[trigger] data@[j]) by {
            assert(tail@[j - from] == data@[j]);
        }
        if r < data.len() {
            assert(tail@[r - from] == data@[r as int]);
        }
        lemma_scan_until_unique(data@, from as int, byte_is(needle), r as int);
    }
    r
}

/// The position just past the last `needle` in `data`, or `None` when the
/// byte does not occur.
pub fn end_of_last(data: &[u8], needle: u8) -> (r: Option<usize>)
    ensures
        match r {
            Some(e) => 0 < e <= data.len() && data@[e - 1] == needle && forall|j: int|
                e <= j < data.len() ==> data@[j] != needle,
            None => forall|j: int| 0 <= j < data.len() ==> data@[j] != needle,
        },
{
    let len: usize = data.len();
    match memchr::memrchr(needle, data) {
        Some(i) => {
            assert(i < len);
            Some(i + 1)
        },
        None => None,
    }
}

/// The first position at or after `from` that holds `a` or `b`, or
/// `data.len()`.
pub fn find_either(data: &[u8], from: usize, a: u8, b: u8) -> (r: usize)
    requires
        from <= data.len(),
    ensures
        r == scan_until(data@, from as int, byte_in2(a, b)),
        from <= r <= data.len(),
{
    let mut i: usize = from;
    while i < data.len() && data[i] != a && data[i] != b
        invariant
            from <= i <= data.len(),
            forall|j: int| from <= j < i ==> !byte_in2(a, b)(#[trigger] data@[j]),
        decreases data.len() - i,
    {
        i += 1;
    }
    proof {
        lemma_scan_until_unique(data@, from as int, byte_in2(a, b), i as int);
    }
    i
}

/// The first position at or after `from` that holds `a`, `b` or `c`, or
/// `data.len()`.
pub fn find_any3(data: &[u8], from: usize, a: u8, b: u8, c: u8) -> (r: usize)
    requires
        from <= data.len(),
    ensures
        r == scan_until(data@, from as int, byte_in3(a, b, c)),
        from <= r <= data.len(),
{
    let mut i: usize = from;
    while i < data.len() && data[i] != a && data[i] != b && data[i] != c
        invariant
            from <= i <= data.len(),
            forall|j: int| from <= j < i ==> !byte_in3(a, b, c)(#[trigger] data@[j]),
        decreases data.len() - i,
    {
        i += 1;
    }
    proof {
        lemma_scan_until_unique(data@, from as int, byte_in3(a, b, c), i as int);
    }
    i
}

/// The first position at or after `from` that does not hold `byte`, or
/// `data.len()`.
pub fn skip_run(data: &[u8], from: usize, byte: u8) -> (r: usize)
    requires
        from <= data.len(),
    ensures
        r == scan_until(data@, from as int, byte_is_not(byte)),
        from <= r <= data.len(),
{
    let mut i: usize = from;
    while i < data.len() && data[i] == byte
        invariant
            from <= i <= data.len(),
            forall|j: int| from <= j < i ==> !byte_is_not(byte)(#[trigger] data@[j]),
        decreases data.len() - i,
    {
        i += 1;
    }
    proof {
        lemma_scan_until_unique(data@, from as int, byte_is_not(byte), i as int);
    }
    i
}

/// Where the quoted string that is open at `from` ends: the position of the
/// first quote at or after `from` that no backslash escapes, or `s.len()` for
/// a string that is not closed. A backslash makes the scan pass over the
/// byte after it, whatever it is; nothing is decoded.
pub open spec fn quoted_end(s: Seq<u8>, from: int) -> int
    decreases s.len() - from,
{
    if from >= s.len() || from < 0 {
        s.len() as int
    } else if s[from] == QUOTE {
        from
    } else if s[from] == BACKSLASH {
        if from + 2 <= s.len() {
            quoted_end(s, from + 2)
        } else {
            s.len() as int
        }
    } else {
        quoted_end(s, from + 1)
    }
}

/// The end of a quoted string lies in `from..=len`, and rests on a quote
/// unless the string is not closed.
pub proof fn lemma_quoted_end(s: Seq<u8>, from: int)
    requires
        0 <= from <= s.len(),
    ensures
        from <= quoted_end(s, from) <= s.len(),
        quoted_end(s, from) < s.len() ==> s[quoted_end(s, from)] == QUOTE,
    decreases s.len() - from,
{
    if from < s.len() && s[from] != QUOTE {
        if s[from] == BACKSLASH {
            if from + 2 <= s.len() {
                lemma_quoted_end(s, from + 2);
            }
        } else {
            lemma_quoted_end(s, from + 1);
        }
    }
}

/// A string without backslashes ends at its first quote.
pub proof fn lemma_quoted_end_plain(s: Seq<u8>, from: int)
    requires
        0 <= from <= s.len(),
        forall|j: int|
            from <= j < scan_until(s, from, byte_is(QUOTE)) ==> #[trigger] s[j] != BACKSLASH,
    ensures
        quoted_end(s, from) == scan_until(s, from, byte_is(QUOTE)),
    decreases s.len() - from,
{
    if from < s.len() && s[from] != QUOTE {
        lemma_scan_until(s, from + 1, byte_is(QUOTE));
        assert(scan_until(s, from, byte_is(QUOTE)) == scan_until(s, from + 1, byte_is(QUOTE)));
        assert(s[from] != BACKSLASH);
        lemma_quoted_end_plain(s, from + 1);
    }
}

/// The length of the run of backslashes that ends right before position `i`,
/// counted no further back than `from`.
pub open spec fn run_before(s: Seq<u8>, from: int, i: int) -> nat
    decreases i - from,
{
    if i <= from || i > s.len() || s[i - 1] != BACKSLASH {
        0
    } else {
        1 + run_before(s, from, i - 1)
    }
}

/// The quote at `i` closes the string that is open at `from`: it is a quote,
/// and the run of backslashes before it is even, so that none of them
/// escapes it.
pub open spec fn closes(s: Seq<u8>, from: int, i: int) -> bool {
    from <= i < s.len() && s[i] == QUOTE && run_before(s, from, i) % 2 == 0
}

/// Between `at` and the end of the string no quote closes it: the scan that
/// stands at `at`, with an even run of backslashes behind it, ends at the
/// first quote that closes.
proof fn lemma_quoted_end_from(s: Seq<u8>, from: int, at: int)
    requires
        0 <= from <= at <= s.len(),
        run_before(s, from, at) % 2 == 0,
    ensures
        at <= quoted_end(s, at) <= s.len(),
        quoted_end(s, at) < s.len() ==> closes(s, from, quoted_end(s, at)),
        forall|i: int| at <= i < quoted_end(s, at) ==> !closes(s, from, i),
    decreases s.len() - at,
{
    if at < s.len() && s[at] != QUOTE {
        if s[at] == BACKSLASH {
            assert(run_before(s, from, at + 1) == 1 + run_before(s, from, at));
            if at + 2 <= s.len() {
                if s[at + 1] == BACKSLASH {
                    assert(run_before(s, from, at + 2) == 1 + run_before(s, from, at + 1));
                } else {
                    assert(run_before(s, from, at + 2) == 0);
                }
                lemma_quoted_end_from(s, from, at + 2);
            }
        } else {
            assert(run_before(s, from, at + 1) == 0);
            lemma_quoted_end_from(s, from, at + 1);
        }
    }
}

/// A quoted string ends at the first quote with an even run of backslashes
/// before it, or with the buffer if there is no such quote.
pub proof fn lemma_quoted_end_closes(s: Seq<u8>, from: int)
    requires
        0 <= from <= s.len(),
    ensures
        from <= quoted_end(s, from) <= s.len(),
        quoted_end(s, from) < s.len() ==> closes(s, from, quoted_end(s, from)),
        forall|i: int| from <= i < quoted_end(s, from) ==> !closes(s, from, i),
{
    lemma_quoted_end_from(s, from, from);
}

/// The scan can be taken up again at any place that it passes: where no quote
/// before `at` closes the string and the run of backslashes before `at` is
/// even, the string ends where the string open at `at` ends.
pub proof fn lemma_quoted_end_resumes(s: Seq<u8>, from: int, at: int)
    requires
        0 <= from <= at <= s.len(),
        run_before(s, from, at) % 2 == 0,
        forall|i: int| from <= i < at ==> !closes(s, from, i),
    ensures
        quoted_end(s, from) == quoted_end(s, at),
{
    lemma_quoted_end_closes(s, from);
    lemma_quoted_end_from(s, from, at);
    let whole = quoted_end(s, from);
    let rest = quoted_end(s, at);
    if whole < rest {
        assert(whole >= at);
        assert(closes(s, from, whole));
    } else if rest < whole {
        assert(closes(s, from, rest));
    }
}

/// The end of the quoted string that is open at `from`.
pub fn find_quote_end(data: &[u8], from: usize) -> (r: usize)
    ensures
        r == quoted_end(data@, from as int),
        from <= data.len() ==> from <= r,
        r <= data.len(),
{
    let len: usize = data.len();
    let mut pos: usize = from;
    while pos < len
        invariant
            len == data.len(),
            from <= pos,
            quoted_end(data@, from as int) == quoted_end(data@, pos as int),
        decreases len - pos,
    {
        let byte: u8 = data[pos];
        if byte == QUOTE {
            return pos;
        } else if byte == BACKSLASH {
            if len - pos < 2 {
                return len;
            }
            pos += 2;
        } else {
            pos += 1;
        }
    }
    len
}

/// Where `needle` stands in `s`, in increasing order, each place counted
/// from `base`: `base + i` for every `i` with `s[i] == needle`.
pub open spec fn places_of(s: Seq<u8>, needle: u8, base: int) -> Seq<int>
    decreases s.len(),
{
    if s.len() == 0 {
        Seq::empty()
    } else {
        let before = places_of(s.drop_last(), needle, base);
        if s.last() == needle {
            before.push(base + s.len() - 1)
        } else {
            before
        }
    }
}

/// One more byte: the places in the first `upto + 1` bytes are those in the
/// first `upto`, and `upto` itself if the needle stands there.
pub proof fn lemma_places_step(s: Seq<u8>, needle: u8, base: int, upto: int)
    requires
        0 <= upto < s.len(),
    ensures
        places_of(s.take(upto + 1), needle, base) == if s[upto] == needle {
            places_of(s.take(upto), needle, base).push(base + upto)
        } else {
            places_of(s.take(upto), needle, base)
        },
{
    assert(s.take(upto + 1).drop_last() =~= s.take(upto));
}

/// The places are as many as the bytes that are the needle, each is a place
/// of the needle, and they increase.
pub proof fn lemma_places(s: Seq<u8>, needle: u8, base: int)
    ensures
        places_of(s, needle, base).len() == count_where(s, byte_is(needle)),
        forall|k: int|
            0 <= k < places_of(s, needle, base).len() ==> {
                let p = #[trigger] places_of(s, needle, base)[k];
                base <= p < base + s.len() && s[p - base] == needle
            },
        forall|j: int, k: int|
            0 <= j < k < places_of(s, needle, base).len() ==> places_of(s, needle, base)[j]
                < places_of(s, needle, base)[k],
    decreases s.len(),
{
    if s.len() > 0 {
        lemma_places(s.drop_last(), needle, base);
    }
}

/// The set bits of the mask of a block are the places of the needle in the
/// block.
pub proof fn lemma_block_places(
    s: Seq<u8>,
    offset: int,
    needle: u8,
    mask: u64,
    base: int,
    bits: int,
)
    requires
        0 <= offset,
        0 <= bits <= 64,
        offset + bits <= s.len(),
        forall|j: int| 0 <= j < bits ==> (#[trigger] bit_set(mask, j) <==> s[offset + j] == needle),
    ensures
        places_of(s.take(offset + bits), needle, base) == places_of(s.take(offset), needle, base)
            + set_bits(mask, base + offset, bits),
    decreases bits,
{
    let before = places_of(s.take(offset), needle, base);
    if bits == 0 {
        assert(before + set_bits(mask, base + offset, 0) =~= before);
    } else {
        lemma_block_places(s, offset, needle, mask, base, bits - 1);
        lemma_places_step(s, needle, base, offset + bits - 1);
        assert(bit_set(mask, bits - 1) <==> s[offset + (bits - 1)] == needle);
        let low = set_bits(mask, base + offset, bits - 1);
        if bit_set(mask, bits - 1) {
            assert((before + low).push(base + offset + bits - 1) =~= before + low.push(
                base + offset + bits - 1,
            ));
        }
    }
}

} // verus!
