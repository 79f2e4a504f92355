use vstd::prelude::*;
use vstd::utf8::encode_utf8;
use vstd::utf8::decode_utf8;
use vstd::string::StringSliceAdditionalSpecFns;
use vstd::string::StrSliceExecFns;
use vstd::utf8::valid_utf8;
use vstd::utf8::is_char_boundary;
use vstd::utf8::length_of_first_scalar;
use vstd::utf8::pop_first_scalar;

verus! {

/// An optional string, as characters.
pub open spec fn string_opt_view(o: Option<String>) -> Option<Seq<char>> {
    match o {
        Some(s) => Some(s@),
        None => None,
    }
}

/// The characters with the Unicode White_Space property, which `char::is_whitespace`
/// tests and `str::trim` strips.
pub open spec fn is_white_space(c: char) -> bool {
    ('\u{9}' <= c && c <= '\u{d}') || c == ' ' || c == '\u{85}' || c == '\u{a0}' || c == '\u{1680}'
        || ('\u{2000}' <= c && c <= '\u{200a}') || c == '\u{2028}' || c == '\u{2029}' || c == '\u{202f}'
        || c == '\u{205f}' || c == '\u{3000}'
}

/// `s` without its leading white space.
pub open spec fn trim_start_spec(s: Seq<char>) -> Seq<char>
    decreases s.len(),
{
    if s.len() > 0 && is_white_space(s[0]) {
        trim_start_spec(s.drop_first())
    } else {
        s
    }
}

/// `s` without its trailing white space.
pub open spec fn trim_end_spec(s: Seq<char>) -> Seq<char>
    decreases s.len(),
{
    if s.len() > 0 && is_white_space(s.last()) {
        trim_end_spec(s.drop_last())
    } else {
        s
    }
}

/// `s` without leading and trailing white space.
pub open spec fn trim_spec(s: Seq<char>) -> Seq<char> {
    trim_end_spec(trim_start_spec(s))
}

/// Relies on `str::trim`, which strips leading and trailing characters with
/// the Unicode White_Space property.
#[verifier::external_body]
pub(crate) fn trim(s: &str) -> (r: &str)
    ensures
        r@ == trim_spec(s@),
{
    s.trim()
}

/// Relies on `String::from_utf8`, which accepts valid UTF-8 bytes and keeps
/// them as they are.
#[verifier::external_body]
pub(crate) fn string_from_utf8(v: Vec<u8>) -> (r: String)
    requires
        valid_utf8(v@),
    ensures
        encode_utf8(r@) == v@,
{
    String::from_utf8(v).unwrap()
}

/// The line is a delimiter: it trims to `---`.
pub open spec fn is_delimiter(l: Seq<char>) -> bool {
    trim_spec(l) == seq!['-', '-', '-']
}

/// Whether a line trims to `---`.
pub(crate) fn is_delimiter_line(line: &str) -> (r: bool)
    ensures
        r == is_delimiter(line@),
{
    let t = trim(line);
    if t.unicode_len() == 3 && t.get_char(0) == '-' && t.get_char(1) == '-' && t.get_char(2) == '-' {
        assert(t@ =~= seq!['-', '-', '-']);
        true
    } else {
        false
    }
}

/// After a byte below 0x80, a valid UTF-8 sequence is at a character boundary.
pub proof fn lemma_boundary_after_ascii(b: Seq<u8>, p: int)
    requires
        valid_utf8(b),
        0 < p <= b.len(),
        b[p - 1] <= 0x7f,
    ensures
        is_char_boundary(b, p),
    decreases b.len(),
{
    let l = length_of_first_scalar(b);
    let rest = pop_first_scalar(b);
    if p > l {
        assert(rest[p - l - 1] == b[p - 1]);
        lemma_boundary_after_ascii(rest, p - l);
    } else if p == l {
        assert(is_char_boundary(rest, 0));
    }
}

/// Next to a byte below 0x80, or at either end, a valid UTF-8 sequence is
/// at a character boundary.
pub open spec fn ascii_edge(b: Seq<u8>, p: int) -> bool {
    p == 0 || p == b.len() || (0 < p <= b.len() && b[p - 1] <= 0x7f) || (0 <= p < b.len() && b[p] <= 0x7f)
}

/// At an ASCII edge a valid UTF-8 sequence is at a character boundary.
pub proof fn lemma_ascii_edge_boundary(b: Seq<u8>, p: int)
    requires
        valid_utf8(b),
        0 <= p <= b.len(),
        ascii_edge(b, p),
    ensures
        is_char_boundary(b, p),
{
    vstd::utf8::is_char_boundary_start_end_of_seq(b);
    if p == 0 || p == b.len() {
    } else if b[p - 1] <= 0x7f {
        lemma_boundary_after_ascii(b, p);
    } else {
        vstd::utf8::is_char_boundary_iff_not_is_continuation_byte(b, p);
    }
}

/// The bytes between two ASCII edges of a valid UTF-8 sequence are valid UTF-8.
pub proof fn lemma_ascii_slice_valid(b: Seq<u8>, s: int, e: int)
    requires
        valid_utf8(b),
        0 <= s <= e <= b.len(),
        ascii_edge(b, s),
        ascii_edge(b, e),
    ensures
        valid_utf8(b.subrange(s, e)),
{
    lemma_ascii_edge_boundary(b, e);
    vstd::utf8::valid_utf8_split(b, e);
    let c = b.subrange(0, e);
    assert(ascii_edge(c, s));
    lemma_ascii_edge_boundary(c, s);
    vstd::utf8::valid_utf8_split(c, s);
    assert(c.subrange(s, e) =~= b.subrange(s, e));
}

/// The position of the first line feed at or after `j`, or the length.
pub open spec fn next_line_feed(b: Seq<u8>, j: int) -> int
    decreases b.len() - j,
{
    if j < 0 || j >= b.len() {
        b.len() as int
    } else if b[j] == 0x0a {
        j
    } else {
        next_line_feed(b, j + 1)
    }
}

/// Where the line starting at `j` ends: before its line feed, or before the
/// carriage return of a `\r\n`.
pub open spec fn line_end(b: Seq<u8>, j: int) -> int {
    let e = next_line_feed(b, j);
    if e < b.len() && e > j && b[e - 1] == 0x0d {
        e - 1
    } else {
        e
    }
}

/// The lines from `j` on: split at `\n` or `\r\n`, without the line
/// endings; a final line ending adds no empty line.
pub open spec fn lines_from(b: Seq<u8>, j: int) -> Seq<Seq<u8>>
    decreases b.len() - j,
{
    if j < 0 || j >= b.len() {
        seq![]
    } else {
        let e = next_line_feed(b, j);
        if j <= e < b.len() {
            seq![b.subrange(j, line_end(b, j))] + lines_from(b, e + 1)
        } else {
            seq![b.subrange(j, line_end(b, j))]
        }
    }
}

/// The lines of a text, as `str::lines` documents them.
pub open spec fn text_lines(text: Seq<char>) -> Seq<Seq<char>> {
    lines_from(encode_utf8(text), 0).map_values(|l: Seq<u8>| decode_utf8(l))
}

proof fn lemma_next_line_feed(b: Seq<u8>, j: int)
    requires
        0 <= j <= b.len(),
    ensures
        j <= next_line_feed(b, j) <= b.len(),
        next_line_feed(b, j) < b.len() ==> b[next_line_feed(b, j)] == 0x0a,
    decreases b.len() - j,
{
    if j < b.len() && b[j] != 0x0a {
        lemma_next_line_feed(b, j + 1);
    }
}

/// The part of `s` between two byte positions at ASCII edges.
fn slice_str(s: &str, from: usize, to: usize) -> (r: &str)
    requires
        from <= to <= encode_utf8(s@).len(),
        ascii_edge(encode_utf8(s@), from as int),
        ascii_edge(encode_utf8(s@), to as int),
    ensures
        encode_utf8(r@) == encode_utf8(s@).subrange(from as int, to as int),
{
    let ghost b = encode_utf8(s@);
    proof {
        vstd::utf8::encode_utf8_valid_utf8(s@);
        lemma_ascii_edge_boundary(b, from as int);
        vstd::utf8::valid_utf8_split(b, from as int);
    }
    let (_, rest) = s.split_at(from);
    let ghost rb = b.subrange(from as int, b.len() as int);
    proof {
        assert(rest.spec_bytes() =~= rb);
        assert(ascii_edge(rb, to - from));
        lemma_ascii_edge_boundary(rb, to - from);
    }
    let (line, _) = rest.split_at(to - from);
    assert(line.spec_bytes() =~= b.subrange(from as int, to as int));
    line
}

/// The lines of `s`, split at `\n` or `\r\n` without the line endings, as
/// `str::lines` splits them.
pub(crate) fn split_lines(s: &str) -> (r: Vec<&str>)
    ensures
        r@.len() == text_lines(s@).len(),
        forall|i: int| 0 <= i < r@.len() ==> #[trigger] r@[i]@ == text_lines(s@)[i],
{
    let b = s.as_bytes();
    let n = b.len();
    let ghost all = lines_from(b@, 0);
    let ghost mut done: Seq<Seq<u8>> = seq![];
    let mut out: Vec<&str> = Vec::new();
    let mut j: usize = 0;
    assert(done + lines_from(b@, 0) =~= all);
    while j < n
        invariant
            n == b@.len(),
            b@ == encode_utf8(s@),
            j <= n,
            j == 0 || j == n || b@[j - 1] == 0x0a,
            done + lines_from(b@, j as int) == all,
            out@.len() == done.len(),
            forall|i: int| 0 <= i < out@.len() ==> encode_utf8(#[trigger] out@[i]@) == done[i],
        decreases n - j,
    {
        let mut e = j;
        while e < n && b[e] != 0x0a
            invariant
                j <= e <= n,
                n == b@.len(),
                next_line_feed(b@, j as int) == next_line_feed(b@, e as int),
            decreases n - e,
        {
            e = e + 1;
        }
        proof {
            lemma_next_line_feed(b@, e as int);
        }
        let end = if e < n && e > j && b[e - 1] == 0x0d { e - 1 } else { e };
        let line = slice_str(s, j, end);
        let ghost l = b@.subrange(j as int, end as int);
        out.push(line);
        proof {
            if e < n {
                assert(lines_from(b@, j as int) == seq![l] + lines_from(b@, e + 1));
                assert(done.push(l) + lines_from(b@, e + 1) =~= done + lines_from(b@, j as int));
            } else {
                assert(lines_from(b@, j as int) == seq![l]);
                assert(done.push(l) + lines_from(b@, n as int) =~= done + lines_from(b@, j as int));
            }
            done = done.push(l);
        }
        j = if e < n { e + 1 } else { n };
    }
    proof {
        assert(done =~= all);
        assert forall|i: int| 0 <= i < out@.len() implies #[trigger] out@[i]@ == text_lines(s@)[i] by {
            vstd::utf8::encode_utf8_decode_utf8(out@[i]@);
        }
    }
    out
}

} // verus!
