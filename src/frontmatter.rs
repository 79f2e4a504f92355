//! The optional header of a deck file: a `---` line, TOML lines, and a
//! closing `---` line.
use vstd::prelude::*;
use vstd::string::StrSliceExecFns;
use vstd::string::StringExecFns;
use vstd::utf8::encode_utf8;
use crate::cloze::LF;
use crate::cloze::opt_int;
use crate::text::lemma_boundary_after_ascii;
use crate::text::text_lines;
use crate::text::string_opt_view;
use crate::text::split_lines;
use crate::text::is_delimiter;
use crate::text::is_delimiter_line;

verus! {

/// What TOML makes of the document `doc`: the parser's message if it is
/// malformed; otherwise each top-level key, in the table's order, with its
/// value if that is a string.
pub uninterp spec fn toml_entries(doc: Seq<char>) -> Result<Seq<(Seq<char>, Option<Seq<char>>)>, Seq<char>>;

/// The entries of a TOML reading, as character sequences.
pub type EntriesView = Result<Seq<(Seq<char>, Option<Seq<char>>)>, Seq<char>>;

/// A TOML reading, as character sequences.
pub open spec fn entries_view(r: Result<Vec<(String, Option<String>)>, String>) -> EntriesView {
    match r {
        Ok(v) => Ok(
            v@.map_values(
                |e: (String, Option<String>)|
                    (
                        e.0@,
                        match e.1 {
                            Some(s) => Some(s@),
                            None => None,
                        },
                    ),
            ),
        ),
        Err(m) => Err(m@),
    }
}

/// Relies on `toml::from_str` into a `toml::Table`: the top-level entries
/// of the document, each value kept only where it is a string, or the
/// parser's message.
#[verifier::external_body]
fn read_toml(doc: &str) -> (r: Result<Vec<(String, Option<String>)>, String>)
    ensures
        entries_view(r) == toml_entries(doc@),
{
    match toml::from_str::<toml::Table>(doc) {
        Ok(table) => {
            let mut entries = Vec::new();
            for (key, value) in table {
                match value {
                    toml::Value::String(s) => entries.push((key, Some(s))),
                    _ => entries.push((key, None)),
                }
            }
            Ok(entries)
        },
        Err(e) => Err(e.to_string()),
    }
}

/// A malformed or unterminated header.
#[derive(Debug)]
pub struct ConfigError {
    pub message: String,
}

impl ConfigError {
    /// The error's message.
    pub fn to_string(&self) -> (r: String)
        ensures
            r@ == self.message@,
    {
        self.message.clone()
    }
}

/// What the header of a deck file says.
#[derive(Debug)]
pub struct DeckMetadata {
    pub name: Option<String>,
}

/// The index of the first delimiter line at or after `i`.
pub open spec fn first_delimiter(ls: Seq<Seq<char>>, i: int) -> Option<int>
    decreases ls.len() - i,
{
    if i < 0 || i >= ls.len() {
        None
    } else if is_delimiter(ls[i]) {
        Some(i)
    } else {
        first_delimiter(ls, i + 1)
    }
}

/// Lines joined with line feeds.
pub open spec fn join_lines(ls: Seq<Seq<char>>) -> Seq<char>
    decreases ls.len(),
{
    if ls.len() == 0 {
        seq![]
    } else if ls.len() == 1 {
        ls[0]
    } else {
        join_lines(ls.drop_last()) + seq!['\n'] + ls.last()
    }
}

/// The position just after the `m`-th line feed found from `from` on.
pub open spec fn after_line_feeds(b: Seq<u8>, from: int, m: int) -> Option<int>
    decreases b.len() - from,
{
    if from < 0 || from >= b.len() {
        None
    } else if b[from] == LF {
        if m <= 1 {
            Some(from + 1)
        } else {
            after_line_feeds(b, from + 1, m - 1)
        }
    } else {
        after_line_feeds(b, from + 1, m)
    }
}

/// How a text splits into header and body.
pub enum Split {
    /// The first line is no delimiter: all of the text is body.
    NoHeader,
    /// The opening delimiter has no closing one.
    Unclosed,
    /// The header's TOML document, and the bytes of the body.
    Header { doc: Seq<char>, body: Seq<u8> },
}

/// How `text` splits: the body begins just after the closing delimiter's
/// line, and is empty when nothing follows that line.
pub open spec fn split_spec(text: Seq<char>) -> Split {
    let ls = text_lines(text);
    let b = encode_utf8(text);
    if ls.len() == 0 || !is_delimiter(ls[0]) {
        Split::NoHeader
    } else {
        match first_delimiter(ls, 1) {
            None => Split::Unclosed,
            Some(c) => Split::Header {
                doc: join_lines(ls.subrange(1, c)),
                body: match after_line_feeds(b, 0, c + 1) {
                    Some(p) => b.subrange(p, b.len() as int),
                    None => seq![],
                },
            },
        }
    }
}

/// The message for a header that is never closed.
pub open spec fn unclosed_message() -> Seq<char> {
    "Frontmatter opening '---' found but no closing '---'"@
}

/// The prefix of messages about malformed TOML.
pub open spec fn toml_prefix() -> Seq<char> {
    "Failed to parse TOML frontmatter: "@
}

/// The message for a `name` that is not a string.
pub open spec fn name_type_message() -> Seq<char> {
    "Failed to parse TOML frontmatter: `name` must be a string"@
}

/// The value of the first entry named `key`: absent, or present with its
/// string value if it has one.
pub open spec fn entry_value(es: Seq<(Seq<char>, Option<Seq<char>>)>, key: Seq<char>) -> Option<Option<Seq<char>>>
    decreases es.len(),
{
    if es.len() == 0 {
        None
    } else if es[0].0 == key {
        Some(es[0].1)
    } else {
        entry_value(es.drop_first(), key)
    }
}

/// The deck name that a TOML reading of a header gives: the `name` entry
/// if it is a string, nothing if there is none, an error if the document
/// is malformed or the name is something else.
pub open spec fn metadata_spec(f: EntriesView) -> Result<Option<Seq<char>>, Seq<char>> {
    match f {
        Err(m) => Err(toml_prefix() + m),
        Ok(es) => match entry_value(es, "name"@) {
            None => Ok(None),
            Some(Some(n)) => Ok(Some(n)),
            Some(None) => Err(name_type_message()),
        },
    }
}

fn starts_with_delimiter(ls: &Vec<&str>) -> (r: bool)
    ensures
        r == (ls@.len() > 0 && is_delimiter(ls@[0]@)),
{
    ls.len() > 0 && is_delimiter_line(ls[0])
}

fn is_name(key: &str) -> (r: bool)
    ensures
        r == (key@ == "name"@),
{
    proof {
        reveal_strlit("name");
    }
    if key.unicode_len() == 4 && key.get_char(0) == 'n' && key.get_char(1) == 'a' && key.get_char(2) == 'm'
        && key.get_char(3) == 'e' {
        assert(key@ =~= "name"@);
        true
    } else {
        false
    }
}

/// The metadata of a header from what TOML read of it.
pub fn metadata_from_toml(entries: Result<Vec<(String, Option<String>)>, String>) -> (r: Result<DeckMetadata, ConfigError>)
    ensures
        match metadata_spec(entries_view(entries)) {
            Ok(n) => r matches Ok(m) && string_opt_view(m.name) == n,
            Err(msg) => r matches Err(e) && e.message@ == msg,
        },
{
    let ghost ev = entries_view(entries);
    match entries {
        Err(m) => {
            let mut message = "Failed to parse TOML frontmatter: ".to_owned();
            message.append(m.as_str());
            Err(ConfigError { message })
        },
        Ok(es) => {
            let ghost esv = ev->Ok_0;
            assert(esv.subrange(0, esv.len() as int) =~= esv);
            assert forall|k: int| 0 <= k < es@.len() implies #[trigger] esv[k] == (es@[k].0@, string_opt_view(es@[k].1)) by {
                match es@[k].1 {
                    Some(_) => {},
                    None => {},
                }
            }
            let mut i: usize = 0;
            while i < es.len()
                invariant
                    i <= es@.len(),
                    ev is Ok && ev->Ok_0 == esv,
                    ev == entries_view(entries),
                    esv.len() == es@.len(),
                    forall|k: int| 0 <= k < es@.len() ==> #[trigger] esv[k] == (es@[k].0@, string_opt_view(es@[k].1)),
                    entry_value(esv, "name"@) == entry_value(esv.subrange(i as int, esv.len() as int), "name"@),
                decreases es@.len() - i,
            {
                let ghost rest = esv.subrange(i as int, esv.len() as int);
                assert(rest.drop_first() =~= esv.subrange(i + 1, esv.len() as int));
                assert(rest[0] == esv[i as int]);
                if is_name(es[i].0.as_str()) {
                    assert(entry_value(rest, "name"@) == Some(esv[i as int].1));
                    assert(metadata_spec(ev) == match esv[i as int].1 {
                        None => Err(name_type_message()),
                        Some(n) => Ok::<Option<Seq<char>>, Seq<char>>(Some(n)),
                    });
                    match &es[i].1 {
                        Some(n) => {
                            let name = n.clone();
                            assert(esv[i as int].1 == Some(name@));
                            return Ok(DeckMetadata { name: Some(name) });
                        },
                        None => {
                            let message = "Failed to parse TOML frontmatter: `name` must be a string".to_owned();
                            return Err(ConfigError { message });
                        },
                    }
                }
                i = i + 1;
            }
            Ok(DeckMetadata { name: None })
        },
    }
}

fn find_after_line_feeds(b: &[u8], m0: usize) -> (r: Option<usize>)
    requires
        m0 >= 1,
    ensures
        opt_int(r) == after_line_feeds(b@, 0, m0 as int),
        r matches Some(p) ==> 0 < p <= b@.len() && b@[p - 1] == LF,
{
    let mut k: usize = 0;
    let mut m = m0;
    while k < b.len()
        invariant
            k <= b@.len(),
            m >= 1,
            after_line_feeds(b@, 0, m0 as int) == after_line_feeds(b@, k as int, m as int),
        decreases b@.len() - k,
    {
        if b[k] == LF {
            if m <= 1 {
                return Some(k + 1);
            }
            m = m - 1;
        }
        k = k + 1;
    }
    None
}

/// Splits an optional header off a deck file: its metadata, and the text
/// that follows the closing delimiter's line.
pub fn extract_frontmatter(text: &str) -> (r: Result<(DeckMetadata, &str), ConfigError>)
    ensures
        match split_spec(text@) {
            Split::NoHeader => r matches Ok((m, c)) && m.name is None && c@ == text@,
            Split::Unclosed => r matches Err(e) && e.message@ == unclosed_message(),
            Split::Header { doc, body } => match metadata_spec(toml_entries(doc)) {
                Ok(n) => r matches Ok((m, c)) && string_opt_view(m.name) == n && encode_utf8(c@) == body,
                Err(msg) => r matches Err(e) && e.message@ == msg,
            },
        },
{
    let ls = split_lines(text);
    let ghost lsv = text_lines(text@);
    if !starts_with_delimiter(&ls) {
        proof {
            if ls@.len() > 0 {
                assert(ls@[0]@ == lsv[0]);
            }
        }
        return Ok((DeckMetadata { name: None }, text));
    }
    assert(ls@[0]@ == lsv[0]);
    let n = ls.len();
    let mut i: usize = 1;
    while i < n && !is_delimiter_line(ls[i])
        invariant
            1 <= i <= n,
            n == ls@.len(),
            n == lsv.len(),
            forall|k: int| 0 <= k < n ==> #[trigger] ls@[k]@ == lsv[k],
            first_delimiter(lsv, 1) == first_delimiter(lsv, i as int),
        decreases n - i,
    {
        i = i + 1;
    }
    if i == n {
        return Err(ConfigError { message: "Frontmatter opening '---' found but no closing '---'".to_owned() });
    }
    assert(first_delimiter(lsv, 1) == Some(i as int));
    let mut doc = String::new();
    let mut j: usize = 1;
    while j < i
        invariant
            1 <= j <= i < n,
            n == ls@.len(),
            n == lsv.len(),
            forall|k: int| 0 <= k < n ==> #[trigger] ls@[k]@ == lsv[k],
            j == 1 ==> doc@.len() == 0,
            j > 1 ==> doc@ == join_lines(lsv.subrange(1, j as int)),
        decreases i - j,
    {
        if j > 1 {
            doc.append("\n");
        }
        doc.append(ls[j]);
        proof {
            reveal_strlit("\n");
            let prev = lsv.subrange(1, j as int);
            let next = lsv.subrange(1, j + 1);
            assert(next.drop_last() =~= prev);
            assert(next.last() == ls@[j as int]@);
            if j == 1 {
                assert(next.len() == 1);
                assert(doc@ =~= next[0]);
            } else {
                assert(doc@ =~= join_lines(prev) + seq!['\n'] + next.last());
            }
        }
        j = j + 1;
    }
    proof {
        if i == 1 {
            assert(lsv.subrange(1, 1).len() == 0);
            assert(doc@ =~= join_lines(lsv.subrange(1, 1)));
        }
    }
    let entries = read_toml(doc.as_str());
    let metadata = match metadata_from_toml(entries) {
        Ok(m) => m,
        Err(e) => {
            return Err(e);
        },
    };
    let b = text.as_bytes();
    let body = match find_after_line_feeds(b, i + 1) {
        Some(p) => {
            proof {
                vstd::utf8::encode_utf8_valid_utf8(text@);
                lemma_boundary_after_ascii(b@, p as int);
            }
            let (_, rest) = text.split_at(p);
            proof {
                vstd::utf8::encode_utf8_decode_utf8(rest@);
            }
            rest
        },
        None => {
            proof {
                reveal_strlit("");
            }
            assert(encode_utf8(""@) =~= seq![]);
            ""
        },
    };
    Ok((metadata, body))
}

} // verus!
