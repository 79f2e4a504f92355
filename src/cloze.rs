//! The cloze micro-grammar, over the bytes of a cloze passage.
//!
//! At every position the scanner tries, in this order: a deletion `||...||`,
//! a fenced code block, block math `$$...$$`, inline math `$...$`, inline
//! code, and a plain run. A byte where none of them matches (a stray
//! delimiter) is dropped, and scanning goes on after it.
use vstd::prelude::*;
use vstd::utf8::valid_utf8;
use crate::text::ascii_edge;
use crate::text::lemma_ascii_slice_valid;

verus! {

pub const BACKSLASH: u8 = 0x5c;

pub const DOLLAR: u8 = 0x24;

pub const TICK: u8 = 0x60;

pub const PIPE: u8 = 0x7c;

pub const LF: u8 = 0x0a;

pub const CR: u8 = 0x0d;

/// `b` holds byte `c` at position `i`.
pub open spec fn at(b: Seq<u8>, i: int, c: u8) -> bool {
    0 <= i < b.len() && b[i] == c
}

/// How many bytes one step of a plain run takes at `j`: an escaped `$$`,
/// `$`, `` ` `` or `||`, or one ordinary byte; zero where the run stops.
pub open spec fn plain_step(b: Seq<u8>, j: int) -> int {
    if at(b, j, BACKSLASH) && at(b, j + 1, DOLLAR) && at(b, j + 2, DOLLAR) {
        3
    } else if at(b, j, BACKSLASH) && at(b, j + 1, DOLLAR) {
        2
    } else if at(b, j, BACKSLASH) && at(b, j + 1, TICK) {
        2
    } else if at(b, j, BACKSLASH) && at(b, j + 1, PIPE) && at(b, j + 2, PIPE) {
        3
    } else if 0 <= j < b.len() && b[j] != DOLLAR && b[j] != TICK && b[j] != PIPE {
        1
    } else {
        0
    }
}

/// Where the longest plain run from `j` ends.
pub open spec fn plain_end(b: Seq<u8>, j: int) -> int
    decreases b.len() - j,
{
    if j < 0 || j >= b.len() {
        j
    } else {
        let k = plain_step(b, j);
        if k <= 0 || j + k > b.len() {
            j
        } else {
            plain_end(b, j + k)
        }
    }
}

/// The position after the first backtick at or after `j`, provided no line
/// break comes before it.
pub open spec fn code_close(b: Seq<u8>, j: int) -> Option<int>
    decreases b.len() - j,
{
    if j < 0 || j >= b.len() {
        None
    } else if b[j] == TICK {
        Some(j + 1)
    } else if b[j] == LF || b[j] == CR {
        None
    } else {
        code_close(b, j + 1)
    }
}

/// End of inline code starting at `i`, or `i` where there is none.
pub open spec fn inline_code_end(b: Seq<u8>, i: int) -> int {
    if at(b, i, TICK) {
        match code_close(b, i + 1) {
            Some(e) => e,
            None => i,
        }
    } else {
        i
    }
}

/// The first unescaped `$` at or after `j`. In block math (`wide`) a
/// backslash escapes `$$`; in inline math it escapes `$`.
pub open spec fn math_stop(b: Seq<u8>, j: int, wide: bool) -> Option<int>
    decreases b.len() - j,
{
    if j < 0 || j >= b.len() {
        None
    } else if wide && at(b, j, BACKSLASH) && at(b, j + 1, DOLLAR) && at(b, j + 2, DOLLAR) {
        math_stop(b, j + 3, wide)
    } else if !wide && at(b, j, BACKSLASH) && at(b, j + 1, DOLLAR) {
        math_stop(b, j + 2, wide)
    } else if b[j] == DOLLAR {
        Some(j)
    } else {
        math_stop(b, j + 1, wide)
    }
}

/// End of block math `$$...$$` starting at `i`, or `i`; the inside is not empty.
pub open spec fn block_math_end(b: Seq<u8>, i: int) -> int {
    if at(b, i, DOLLAR) && at(b, i + 1, DOLLAR) {
        match math_stop(b, i + 2, true) {
            Some(p) => if p > i + 2 && at(b, p + 1, DOLLAR) {
                p + 2
            } else {
                i
            },
            None => i,
        }
    } else {
        i
    }
}

/// End of inline math `$...$` starting at `i`, or `i`; the inside is not empty.
pub open spec fn inline_math_end(b: Seq<u8>, i: int) -> int {
    if at(b, i, DOLLAR) {
        match math_stop(b, i + 1, false) {
            Some(p) => if p > i + 1 {
                p + 1
            } else {
                i
            },
            None => i,
        }
    } else {
        i
    }
}

/// Where the run of backticks from `j` ends.
pub open spec fn tick_run_end(b: Seq<u8>, j: int) -> int
    decreases b.len() - j,
{
    if j < 0 || j >= b.len() {
        j
    } else if b[j] == TICK {
        tick_run_end(b, j + 1)
    } else {
        j
    }
}

/// Length of the line ending (`\n` or `\r\n`) at `j`; zero where there is none.
pub open spec fn line_end_len(b: Seq<u8>, j: int) -> int {
    if at(b, j, LF) {
        1
    } else if at(b, j, CR) && at(b, j + 1, LF) {
        2
    } else {
        0
    }
}

/// A line of exactly `n` backticks starts at `p`.
pub open spec fn is_fence_close(b: Seq<u8>, p: int, n: int) -> bool {
    at(b, p - 1, LF) && tick_run_end(b, p) == p + n && (p + n == b.len() || line_end_len(
        b,
        p + n,
    ) > 0)
}

/// The first closing fence of `n` backticks at or after `p`.
pub open spec fn fence_search(b: Seq<u8>, p: int, n: int) -> Option<int>
    decreases b.len() - p,
{
    if p < 0 || p > b.len() {
        None
    } else if is_fence_close(b, p, n) {
        Some(p)
    } else if p == b.len() {
        None
    } else {
        fence_search(b, p + 1, n)
    }
}

/// End of a fenced code block starting at `i`, or `i`: a run of `n`
/// backticks at the start of a line, a line ending, any content, a line of
/// exactly `n` backticks, and an optional line ending.
pub open spec fn fenced_end(b: Seq<u8>, i: int) -> int {
    if (i == 0 || at(b, i - 1, LF)) && at(b, i, TICK) {
        let n = tick_run_end(b, i) - i;
        let le = line_end_len(b, i + n);
        if le > 0 {
            match fence_search(b, i + n + le, n) {
                Some(p) => p + n + line_end_len(b, p + n),
                None => i,
            }
        } else {
            i
        }
    } else {
        i
    }
}

/// End of the first of fenced code, block math, inline math, inline code and
/// plain run that matches at `i`; `i` where none does.
pub open spec fn piece_end(b: Seq<u8>, i: int) -> int {
    if fenced_end(b, i) > i {
        fenced_end(b, i)
    } else if block_math_end(b, i) > i {
        block_math_end(b, i)
    } else if inline_math_end(b, i) > i {
        inline_math_end(b, i)
    } else if inline_code_end(b, i) > i {
        inline_code_end(b, i)
    } else {
        plain_end(b, i)
    }
}

/// Where the longest sequence of pieces from `j` ends.
pub open spec fn pieces_end(b: Seq<u8>, j: int) -> int
    decreases b.len() - j,
{
    if j < 0 || j >= b.len() {
        j
    } else {
        let e = piece_end(b, j);
        if e > j && e <= b.len() {
            pieces_end(b, e)
        } else {
            j
        }
    }
}

/// End of a deletion `||...||` starting at `i`, or `i`: its inside is a
/// sequence of pieces, so it holds no deletion of its own.
pub open spec fn deletion_end(b: Seq<u8>, i: int) -> int {
    if at(b, i, PIPE) && at(b, i + 1, PIPE) {
        let q = pieces_end(b, i + 2);
        if at(b, q, PIPE) && at(b, q + 1, PIPE) {
            q + 2
        } else {
            i
        }
    } else {
        i
    }
}

/// The tokens from `i` on: `(start, end, deleted)`, where a deletion's range
/// is its inside, without the delimiters.
pub open spec fn tokens_from(b: Seq<u8>, i: int) -> Seq<(int, int, bool)>
    decreases b.len() - i,
{
    if i < 0 || i >= b.len() {
        seq![]
    } else {
        let d = deletion_end(b, i);
        let e = piece_end(b, i);
        if d > i && d <= b.len() {
            seq![(i + 2, d - 2, true)] + tokens_from(b, d)
        } else if e > i && e <= b.len() {
            seq![(i, e, false)] + tokens_from(b, e)
        } else {
            tokens_from(b, i + 1)
        }
    }
}

/// The tokens of a whole passage.
pub open spec fn tokens(b: Seq<u8>) -> Seq<(int, int, bool)> {
    tokens_from(b, 0)
}

/// The tokens' bytes, one after the other.
pub open spec fn clean_of(b: Seq<u8>, toks: Seq<(int, int, bool)>) -> Seq<u8>
    decreases toks.len(),
{
    if toks.len() == 0 {
        seq![]
    } else {
        clean_of(b, toks.drop_last()) + b.subrange(toks.last().0, toks.last().1)
    }
}

/// Where each deletion lands in the clean text: `(start, end)`, end exclusive.
pub open spec fn spans_of(b: Seq<u8>, toks: Seq<(int, int, bool)>) -> Seq<(int, int)>
    decreases toks.len(),
{
    if toks.len() == 0 {
        seq![]
    } else {
        let prev = toks.drop_last();
        let t = toks.last();
        let start = clean_of(b, prev).len() as int;
        if t.2 {
            spans_of(b, prev).push((start, start + (t.1 - t.0)))
        } else {
            spans_of(b, prev)
        }
    }
}

/// The text of a passage with the deletion delimiters taken out.
pub open spec fn clean_text(b: Seq<u8>) -> Seq<u8> {
    clean_of(b, tokens(b))
}

/// The deletions of a passage, as spans of its clean text.
pub open spec fn deletion_spans(b: Seq<u8>) -> Seq<(int, int)> {
    spans_of(b, tokens(b))
}

/// Spans as integers.
pub open spec fn spans_view(v: Seq<(usize, usize)>) -> Seq<(int, int)> {
    v.map_values(|p: (usize, usize)| (p.0 as int, p.1 as int))
}

/// An optional position as an integer.
pub open spec fn opt_int(o: Option<usize>) -> Option<int> {
    match o {
        Some(x) => Some(x as int),
        None => None,
    }
}

fn byte_at(b: &[u8], i: usize, k: usize, c: u8) -> (r: bool)
    ensures
        r == at(b@, i + k, c),
        b@.len() <= usize::MAX,
{
    i < b.len() && k < b.len() - i && b[i + k] == c
}

fn plain_step_exec(b: &[u8], j: usize) -> (r: usize)
    requires
        j <= b@.len(),
    ensures
        r as int == plain_step(b@, j as int),
        j + r <= b@.len(),
{
    if byte_at(b, j, 0, BACKSLASH) && byte_at(b, j, 1, DOLLAR) && byte_at(b, j, 2, DOLLAR) {
        3
    } else if byte_at(b, j, 0, BACKSLASH) && byte_at(b, j, 1, DOLLAR) {
        2
    } else if byte_at(b, j, 0, BACKSLASH) && byte_at(b, j, 1, TICK) {
        2
    } else if byte_at(b, j, 0, BACKSLASH) && byte_at(b, j, 1, PIPE) && byte_at(b, j, 2, PIPE) {
        3
    } else if j < b.len() && b[j] != DOLLAR && b[j] != TICK && b[j] != PIPE {
        1
    } else {
        0
    }
}

fn plain_end_exec(b: &[u8], i: usize) -> (r: usize)
    requires
        i <= b@.len(),
    ensures
        r as int == plain_end(b@, i as int),
        i <= r <= b@.len(),
{
    let mut j = i;
    while j < b.len()
        invariant
            i <= j <= b@.len(),
            plain_end(b@, i as int) == plain_end(b@, j as int),
        decreases b@.len() - j,
    {
        let k = plain_step_exec(b, j);
        if k == 0 {
            return j;
        }
        j = j + k;
    }
    j
}

fn code_close_exec(b: &[u8], j0: usize) -> (r: Option<usize>)
    requires
        j0 <= b@.len(),
    ensures
        opt_int(r) == code_close(b@, j0 as int),
        r matches Some(e) ==> e <= b@.len(),
{
    let mut j = j0;
    while j < b.len()
        invariant
            j0 <= j <= b@.len(),
            code_close(b@, j0 as int) == code_close(b@, j as int),
        decreases b@.len() - j,
    {
        if b[j] == TICK {
            return Some(j + 1);
        } else if b[j] == LF || b[j] == CR {
            return None;
        }
        j = j + 1;
    }
    None
}

fn inline_code_end_exec(b: &[u8], i: usize) -> (r: usize)
    requires
        i <= b@.len(),
    ensures
        r as int == inline_code_end(b@, i as int),
        r <= b@.len(),
{
    if byte_at(b, i, 0, TICK) {
        match code_close_exec(b, i + 1) {
            Some(e) => e,
            None => i,
        }
    } else {
        i
    }
}

fn math_stop_exec(b: &[u8], j0: usize, wide: bool) -> (r: Option<usize>)
    requires
        j0 <= b@.len(),
    ensures
        opt_int(r) == math_stop(b@, j0 as int, wide),
        r matches Some(p) ==> p < b@.len(),
{
    let mut j = j0;
    while j < b.len()
        invariant
            j0 <= j <= b@.len(),
            math_stop(b@, j0 as int, wide) == math_stop(b@, j as int, wide),
        decreases b@.len() - j,
    {
        if wide && byte_at(b, j, 0, BACKSLASH) && byte_at(b, j, 1, DOLLAR) && byte_at(b, j, 2, DOLLAR) {
            j = j + 3;
        } else if !wide && byte_at(b, j, 0, BACKSLASH) && byte_at(b, j, 1, DOLLAR) {
            j = j + 2;
        } else if b[j] == DOLLAR {
            return Some(j);
        } else {
            j = j + 1;
        }
    }
    None
}

fn block_math_end_exec(b: &[u8], i: usize) -> (r: usize)
    requires
        i <= b@.len(),
    ensures
        r as int == block_math_end(b@, i as int),
        r <= b@.len(),
{
    if byte_at(b, i, 0, DOLLAR) && byte_at(b, i, 1, DOLLAR) {
        match math_stop_exec(b, i + 2, true) {
            Some(p) => if p > i + 2 && byte_at(b, p, 1, DOLLAR) {
                p + 2
            } else {
                i
            },
            None => i,
        }
    } else {
        i
    }
}

fn inline_math_end_exec(b: &[u8], i: usize) -> (r: usize)
    requires
        i <= b@.len(),
    ensures
        r as int == inline_math_end(b@, i as int),
        r <= b@.len(),
{
    if byte_at(b, i, 0, DOLLAR) {
        match math_stop_exec(b, i + 1, false) {
            Some(p) => if p > i + 1 {
                p + 1
            } else {
                i
            },
            None => i,
        }
    } else {
        i
    }
}

fn tick_run_end_exec(b: &[u8], j0: usize) -> (r: usize)
    requires
        j0 <= b@.len(),
    ensures
        r as int == tick_run_end(b@, j0 as int),
        j0 <= r <= b@.len(),
{
    let mut j = j0;
    while j < b.len() && b[j] == TICK
        invariant
            j0 <= j <= b@.len(),
            tick_run_end(b@, j0 as int) == tick_run_end(b@, j as int),
        decreases b@.len() - j,
    {
        j = j + 1;
    }
    j
}

fn line_end_len_exec(b: &[u8], j: usize) -> (r: usize)
    requires
        j <= b@.len(),
    ensures
        r as int == line_end_len(b@, j as int),
        j + r <= b@.len(),
{
    if byte_at(b, j, 0, LF) {
        1
    } else if byte_at(b, j, 0, CR) && byte_at(b, j, 1, LF) {
        2
    } else {
        0
    }
}

fn is_fence_close_exec(b: &[u8], p: usize, n: usize) -> (r: bool)
    requires
        1 <= p <= b@.len(),
        n <= b@.len(),
    ensures
        r == is_fence_close(b@, p as int, n as int),
        r ==> p + n <= b@.len(),
{
    if !byte_at(b, p - 1, 0, LF) {
        return false;
    }
    let t = tick_run_end_exec(b, p);
    if t - p != n {
        return false;
    }
    t == b.len() || line_end_len_exec(b, t) > 0
}

fn fence_search_exec(b: &[u8], p0: usize, n: usize) -> (r: Option<usize>)
    requires
        1 <= p0 <= b@.len(),
        n <= b@.len(),
    ensures
        opt_int(r) == fence_search(b@, p0 as int, n as int),
        r matches Some(p) ==> p0 <= p && p + n <= b@.len(),
{
    let mut p = p0;
    loop
        invariant
            1 <= p0 <= p <= b@.len(),
            n <= b@.len(),
            fence_search(b@, p0 as int, n as int) == fence_search(b@, p as int, n as int),
        decreases b@.len() - p,
    {
        if is_fence_close_exec(b, p, n) {
            return Some(p);
        }
        if p == b.len() {
            return None;
        }
        p = p + 1;
    }
}

fn fenced_end_exec(b: &[u8], i: usize) -> (r: usize)
    requires
        i <= b@.len(),
    ensures
        r as int == fenced_end(b@, i as int),
        r <= b@.len(),
{
    if (i == 0 || byte_at(b, i - 1, 0, LF)) && byte_at(b, i, 0, TICK) {
        let t = tick_run_end_exec(b, i);
        let n = t - i;
        let le = line_end_len_exec(b, t);
        if le > 0 {
            match fence_search_exec(b, t + le, n) {
                Some(p) => {
                    let tail = line_end_len_exec(b, p + n);
                    p + n + tail
                },
                None => i,
            }
        } else {
            i
        }
    } else {
        i
    }
}

fn piece_end_exec(b: &[u8], i: usize) -> (r: usize)
    requires
        i <= b@.len(),
    ensures
        r as int == piece_end(b@, i as int),
        r <= b@.len(),
{
    let f = fenced_end_exec(b, i);
    if f > i {
        return f;
    }
    let bm = block_math_end_exec(b, i);
    if bm > i {
        return bm;
    }
    let im = inline_math_end_exec(b, i);
    if im > i {
        return im;
    }
    let ic = inline_code_end_exec(b, i);
    if ic > i {
        return ic;
    }
    plain_end_exec(b, i)
}

fn pieces_end_exec(b: &[u8], j0: usize) -> (r: usize)
    requires
        j0 <= b@.len(),
    ensures
        r as int == pieces_end(b@, j0 as int),
        j0 <= r <= b@.len(),
{
    let mut j = j0;
    while j < b.len()
        invariant
            j0 <= j <= b@.len(),
            pieces_end(b@, j0 as int) == pieces_end(b@, j as int),
        decreases b@.len() - j,
    {
        let e = piece_end_exec(b, j);
        if e > j {
            j = e;
        } else {
            return j;
        }
    }
    j
}

fn deletion_end_exec(b: &[u8], i: usize) -> (r: usize)
    requires
        i <= b@.len(),
    ensures
        r as int == deletion_end(b@, i as int),
        r <= b@.len(),
{
    if byte_at(b, i, 0, PIPE) && byte_at(b, i, 1, PIPE) {
        let q = pieces_end_exec(b, i + 2);
        if byte_at(b, q, 0, PIPE) && byte_at(b, q, 1, PIPE) {
            q + 2
        } else {
            i
        }
    } else {
        i
    }
}


proof fn lemma_pieces_end_ge(b: Seq<u8>, j: int)
    ensures
        pieces_end(b, j) >= j,
    decreases b.len() - j,
{
    if 0 <= j < b.len() {
        let e = piece_end(b, j);
        if e > j && e <= b.len() {
            lemma_pieces_end_ge(b, e);
        }
    }
}

/// Tokens from `i` on lie between `i` and the end, in order.
pub proof fn lemma_tokens_bounded(b: Seq<u8>, i: int)
    requires
        0 <= i,
    ensures
        forall|k: int|
            0 <= k < tokens_from(b, i).len() ==> {
                let t = #[trigger] tokens_from(b, i)[k];
                i <= t.0 <= t.1 <= b.len()
            },
    decreases b.len() - i,
{
    if i < b.len() {
        let d = deletion_end(b, i);
        let e = piece_end(b, i);
        let all = tokens_from(b, i);
        if d > i && d <= b.len() {
            lemma_tokens_bounded(b, d);
            lemma_pieces_end_ge(b, i + 2);
            assert(i + 2 <= d - 2);
            let rest = tokens_from(b, d);
            assert(all == seq![(i + 2, d - 2, true)] + rest);
            assert forall|k: int| 0 <= k < all.len() implies {
                let t = #[trigger] all[k];
                i <= t.0 <= t.1 <= b.len()
            } by {
                if k > 0 {
                    assert(all[k] == rest[k - 1]);
                }
            }
        } else if e > i && e <= b.len() {
            lemma_tokens_bounded(b, e);
            let rest = tokens_from(b, e);
            assert(all == seq![(i, e, false)] + rest);
            assert forall|k: int| 0 <= k < all.len() implies {
                let t = #[trigger] all[k];
                i <= t.0 <= t.1 <= b.len()
            } by {
                if k > 0 {
                    assert(all[k] == rest[k - 1]);
                }
            }
        } else {
            lemma_tokens_bounded(b, i + 1);
            assert(all == tokens_from(b, i + 1));
        }
    }
}

proof fn lemma_clean_push(b: Seq<u8>, toks: Seq<(int, int, bool)>, t: (int, int, bool))
    ensures
        clean_of(b, toks.push(t)) == clean_of(b, toks) + b.subrange(t.0, t.1),
        spans_of(b, toks.push(t)) == (if t.2 {
            spans_of(b, toks).push(
                (clean_of(b, toks).len() as int, clean_of(b, toks).len() + (t.1 - t.0)),
            )
        } else {
            spans_of(b, toks)
        }),
{
    assert(toks.push(t).drop_last() =~= toks);
}

/// Scans a cloze passage: its clean text, and the span of each deletion in
/// it, in order (start inclusive, end exclusive).
pub fn scan_passage(b: &[u8]) -> (r: (Vec<u8>, Vec<(usize, usize)>))
    ensures
        r.0@ == clean_text(b@),
        spans_view(r.1@) == deletion_spans(b@),
{
    let mut clean: Vec<u8> = Vec::new();
    let mut spans: Vec<(usize, usize)> = Vec::new();
    let ghost mut done: Seq<(int, int, bool)> = seq![];
    let mut i: usize = 0;
    proof {
        lemma_tokens_bounded(b@, 0);
        assert(done + tokens_from(b@, 0) =~= tokens_from(b@, 0));
    }
    while i < b.len()
        invariant
            i <= b@.len(),
            clean@.len() <= i,
            done + tokens_from(b@, i as int) == tokens(b@),
            clean@ == clean_of(b@, done),
            spans_view(spans@) == spans_of(b@, done),
        decreases b@.len() - i,
    {
        let d = deletion_end_exec(b, i);
        if d > i {
            let inner_start = i + 2;
            let inner_end = d - 2;
            let start = clean.len();
            proof {
                lemma_tokens_bounded(b@, i as int);
                assert(tokens_from(b@, i as int)[0] == (i + 2, d - 2, true));
            }
            clean.extend_from_slice(&b[inner_start..inner_end]);
            let t = Ghost((inner_start as int, inner_end as int, true));
            proof {
                lemma_clean_push(b@, done, t@);
                assert(tokens_from(b@, i as int) =~= seq![t@] + tokens_from(b@, d as int));
                assert(done.push(t@) + tokens_from(b@, d as int) =~= done + tokens_from(b@, i as int));
            }
            spans.push((start, clean.len()));
            proof {
                assert(spans_view(spans@) =~= spans_of(b@, done.push(t@)));
                done = done.push(t@);
            }
            i = d;
        } else {
            let e = piece_end_exec(b, i);
            if e > i {
                clean.extend_from_slice(&b[i..e]);
                let t = Ghost((i as int, e as int, false));
                proof {
                    lemma_clean_push(b@, done, t@);
                    assert(tokens_from(b@, i as int) =~= seq![t@] + tokens_from(b@, e as int));
                    assert(done.push(t@) + tokens_from(b@, e as int) =~= done + tokens_from(b@, i as int));
                    done = done.push(t@);
                }
                i = e;
            } else {
                proof {
                    assert(tokens_from(b@, i as int) == tokens_from(b@, i + 1));
                }
                i = i + 1;
            }
        }
    }
    proof {
        assert(done =~= tokens(b@));
    }
    (clean, spans)
}

proof fn lemma_tick_run(b: Seq<u8>, j: int)
    requires
        0 <= j <= b.len(),
    ensures
        j <= tick_run_end(b, j) <= b.len(),
        forall|k: int| j <= k < tick_run_end(b, j) ==> b[k] == TICK,
    decreases b.len() - j,
{
    if j < b.len() && b[j] == TICK {
        lemma_tick_run(b, j + 1);
    }
}

proof fn lemma_code_close(b: Seq<u8>, j: int)
    requires
        0 <= j,
    ensures
        code_close(b, j) matches Some(e) ==> j < e <= b.len() && b[e - 1] == TICK,
    decreases b.len() - j,
{
    if 0 <= j < b.len() && b[j] != TICK && b[j] != LF && b[j] != CR {
        lemma_code_close(b, j + 1);
    }
}

proof fn lemma_math_stop(b: Seq<u8>, j: int, wide: bool)
    requires
        0 <= j,
    ensures
        math_stop(b, j, wide) matches Some(p) ==> j <= p < b.len() && b[p] == DOLLAR,
    decreases b.len() - j,
{
    if 0 <= j < b.len() {
        if wide && at(b, j, BACKSLASH) && at(b, j + 1, DOLLAR) && at(b, j + 2, DOLLAR) {
            lemma_math_stop(b, j + 3, wide);
        } else if !wide && at(b, j, BACKSLASH) && at(b, j + 1, DOLLAR) {
            lemma_math_stop(b, j + 2, wide);
        } else if b[j] != DOLLAR {
            lemma_math_stop(b, j + 1, wide);
        }
    }
}

proof fn lemma_fence_search(b: Seq<u8>, p: int, n: int)
    requires
        0 <= p,
    ensures
        fence_search(b, p, n) matches Some(q) ==> p <= q <= b.len() && is_fence_close(b, q, n),
    decreases b.len() - p,
{
    if 0 <= p < b.len() && !is_fence_close(b, p, n) {
        lemma_fence_search(b, p + 1, n);
    }
}

proof fn lemma_plain_end(b: Seq<u8>, j: int)
    requires
        0 <= j <= b.len(),
    ensures
        j <= plain_end(b, j) <= b.len(),
        plain_end(b, j) < b.len() ==> ascii_edge(b, plain_end(b, j)),
        plain_end(b, j) == j && j < b.len() ==> (b[j] == DOLLAR || b[j] == TICK || b[j] == PIPE),
    decreases b.len() - j,
{
    if j < b.len() {
        let k = plain_step(b, j);
        if k > 0 && j + k <= b.len() {
            lemma_plain_end(b, j + k);
        }
    }
}

/// Where a piece that matches ends, the bytes are at an ASCII edge.
proof fn lemma_piece_end(b: Seq<u8>, i: int)
    requires
        0 <= i <= b.len(),
    ensures
        i <= piece_end(b, i) <= b.len(),
        piece_end(b, i) > i ==> ascii_edge(b, piece_end(b, i)),
        piece_end(b, i) == i && i < b.len() ==> (b[i] == DOLLAR || b[i] == TICK || b[i] == PIPE),
{
    lemma_plain_end(b, i);
    if fenced_end(b, i) > i {
        lemma_tick_run(b, i);
        let n = tick_run_end(b, i) - i;
        let le = line_end_len(b, i + n);
        lemma_fence_search(b, i + n + le, n);
        let q = fence_search(b, i + n + le, n)->Some_0;
        lemma_tick_run(b, q);
        assert(b[q + n - 1] == TICK);
    } else if block_math_end(b, i) > i {
        lemma_math_stop(b, i + 2, true);
    } else if inline_math_end(b, i) > i {
        lemma_math_stop(b, i + 1, false);
    } else if inline_code_end(b, i) > i {
        lemma_code_close(b, i + 1);
    }
}

/// Every token of a scan from an ASCII edge starts and ends at ASCII edges.
pub proof fn lemma_token_edges(b: Seq<u8>, i: int)
    requires
        0 <= i <= b.len(),
        ascii_edge(b, i),
    ensures
        forall|k: int|
            0 <= k < tokens_from(b, i).len() ==> {
                let t = #[trigger] tokens_from(b, i)[k];
                ascii_edge(b, t.0) && ascii_edge(b, t.1)
            },
    decreases b.len() - i,
{
    if i < b.len() {
        let d = deletion_end(b, i);
        let e = piece_end(b, i);
        let all = tokens_from(b, i);
        lemma_piece_end(b, i);
        if d > i && d <= b.len() {
            lemma_pieces_end_ge(b, i + 2);
            lemma_token_edges(b, d);
            let rest = tokens_from(b, d);
            assert(all == seq![(i + 2, d - 2, true)] + rest);
            assert forall|k: int| 0 <= k < all.len() implies {
                let t = #[trigger] all[k];
                ascii_edge(b, t.0) && ascii_edge(b, t.1)
            } by {
                if k > 0 {
                    assert(all[k] == rest[k - 1]);
                }
            }
        } else if e > i && e <= b.len() {
            lemma_token_edges(b, e);
            let rest = tokens_from(b, e);
            assert(all == seq![(i, e, false)] + rest);
            assert forall|k: int| 0 <= k < all.len() implies {
                let t = #[trigger] all[k];
                ascii_edge(b, t.0) && ascii_edge(b, t.1)
            } by {
                if k > 0 {
                    assert(all[k] == rest[k - 1]);
                }
            }
        } else {
            lemma_token_edges(b, i + 1);
            assert(all == tokens_from(b, i + 1));
        }
    }
}

proof fn lemma_clean_of_valid(b: Seq<u8>, toks: Seq<(int, int, bool)>)
    requires
        valid_utf8(b),
        forall|k: int| 0 <= k < toks.len() ==> 0 <= (#[trigger] toks[k]).0 <= toks[k].1 <= b.len(),
        forall|k: int| 0 <= k < toks.len() ==> ascii_edge(b, (#[trigger] toks[k]).0) && ascii_edge(b, toks[k].1),
    ensures
        valid_utf8(clean_of(b, toks)),
    decreases toks.len(),
{
    if toks.len() > 0 {
        let prev = toks.drop_last();
        assert forall|k: int| 0 <= k < prev.len() implies 0 <= (#[trigger] prev[k]).0 <= prev[k].1 <= b.len() && ascii_edge(b, prev[k].0) && ascii_edge(b, prev[k].1) by {
            assert(prev[k] == toks[k]);
        }
        lemma_clean_of_valid(b, prev);
        let t = toks[toks.len() - 1];
        lemma_ascii_slice_valid(b, t.0, t.1);
        vstd::utf8::valid_utf8_concat(clean_of(b, prev), b.subrange(t.0, t.1));
    }
}

/// The clean text of a valid UTF-8 passage is valid UTF-8.
pub proof fn lemma_clean_text_valid(b: Seq<u8>)
    requires
        valid_utf8(b),
    ensures
        valid_utf8(clean_text(b)),
{
    lemma_tokens_bounded(b, 0);
    lemma_token_edges(b, 0);
    lemma_clean_of_valid(b, tokens(b));
}

} // verus!
