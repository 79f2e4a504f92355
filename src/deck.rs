//! A deck: the cards of each file, then one card per hash over all files,
//! ordered by hash.
use std::path::PathBuf;
use vstd::prelude::*;
use vstd::utf8::decode_utf8;
use crate::card::Card;
use crate::card::content_hash;
use crate::card::bytes_lt;
use crate::card::lemma_bytes_lt_total;
use crate::card::lemma_bytes_lt_transitive;
use crate::frontmatter::ConfigError;
use crate::frontmatter::Split;
use crate::frontmatter::extract_frontmatter;
use crate::frontmatter::metadata_spec;
use crate::frontmatter::split_spec;
use crate::frontmatter::toml_entries;
use crate::frontmatter::unclosed_message;
use crate::parser::Emitted;
use crate::parser::Parser;
use crate::parser::ParserError;
use crate::parser::card_from;
use crate::parser::message_of;
use crate::parser::parse_text;
use crate::text::string_opt_view;

verus! {

/// Why a deck file could not be loaded.
#[derive(Debug)]
pub enum DeckError {
    Config(ConfigError),
    Parser(ParserError),
}

impl DeckError {
    /// The error's message, with its location where it has one.
    pub fn message(&self) -> (r: String)
        ensures
            r@ == match self {
                DeckError::Config(e) => e.message@,
                DeckError::Parser(e) => e.message@,
            },
    {
        match self {
            DeckError::Config(e) => e.message.clone(),
            DeckError::Parser(e) => e.message.clone(),
        }
    }
}

/// The deck name of a file: the header's name unless it is absent or
/// empty, else the file's stem, else `None`.
pub open spec fn deck_name_spec(name: Option<Seq<char>>, stem: Option<Seq<char>>) -> Seq<char> {
    match name {
        Some(n) if n.len() > 0 => n,
        _ => match stem {
            Some(s) => s,
            None => "None"@,
        },
    }
}

/// Picks the deck name of a file.
pub fn resolve_deck_name(name: Option<String>, stem: Option<String>) -> (r: String)
    ensures
        r@ == deck_name_spec(string_opt_view(name), string_opt_view(stem)),
{
    match name {
        Some(n) if !n.as_str().is_empty() => n,
        _ => match stem {
            Some(s) => s,
            None => "None".to_owned(),
        },
    }
}

/// `c` is one of the cards `xs`.
pub open spec fn from_input(xs: Seq<Card>, c: Card) -> bool {
    exists|i: int| 0 <= i < xs.len() && xs[i] == c
}

/// Some card of `cs` has the hash `h`.
pub open spec fn has_hash(cs: Seq<Card>, h: Seq<u8>) -> bool {
    exists|k: int| 0 <= k < cs.len() && #[trigger] cs[k].spec_hash() == h
}

/// The cards are in strictly ascending order of hash: no hash twice.
pub open spec fn strictly_sorted(cs: Seq<Card>) -> bool {
    forall|i: int, j: int| 0 <= i < j < cs.len() ==> bytes_lt(#[trigger] cs[i].spec_hash(), #[trigger] cs[j].spec_hash())
}

/// `r` holds one card of each hash of `xs`, each one of the cards of `xs`,
/// in ascending order of hash.
pub open spec fn merged(xs: Seq<Card>, r: Seq<Card>) -> bool {
    &&& forall|k: int| 0 <= k < r.len() ==> (#[trigger] r[k]).wf()
    &&& strictly_sorted(r)
    &&& forall|k: int| 0 <= k < r.len() ==> from_input(xs, #[trigger] r[k])
    &&& forall|i: int| 0 <= i < xs.len() ==> has_hash(r, (#[trigger] xs[i]).spec_hash())
}

proof fn lemma_insert_keeps_hashes(cs: Seq<Card>, j: int, c: Card, h: Seq<u8>)
    requires
        0 <= j <= cs.len(),
        has_hash(cs, h),
    ensures
        has_hash(cs.insert(j, c), h),
{
    let k = choose|k: int| 0 <= k < cs.len() && #[trigger] cs[k].spec_hash() == h;
    let n = cs.insert(j, c);
    if k < j {
        assert(n[k] == cs[k]);
    } else {
        assert(n[k + 1] == cs[k]);
    }
}

/// Merges the cards of several files: sorted by hash, one card per hash.
pub fn merge_cards(cards: Vec<Card>) -> (r: Vec<Card>)
    ensures
        merged(cards@, r@),
{
    let ghost xs = cards@;
    let mut rest = cards;
    let mut out: Vec<Card> = Vec::new();
    while rest.len() > 0
        invariant
            rest@ == xs.subrange(0, rest@.len() as int),
            rest@.len() <= xs.len(),
            forall|k: int| 0 <= k < out@.len() ==> (#[trigger] out@[k]).wf(),
            strictly_sorted(out@),
            forall|k: int| 0 <= k < out@.len() ==> from_input(xs, #[trigger] out@[k]),
            forall|i: int| rest@.len() <= i < xs.len() ==> has_hash(out@, (#[trigger] xs[i]).spec_hash()),
        decreases rest@.len(),
    {
        let ghost m = rest@.len() - 1;
        let c = rest.pop().unwrap();
        assert(c == xs[m]);
        proof {
            use_type_invariant(&c);
        }
        let h = c.hash();
        proof {
            c.lemma_hash_len();
        }
        let mut lo: usize = 0;
        let mut hi: usize = out.len();
        while lo < hi
            invariant
                lo <= hi <= out@.len(),
                h@ == c.spec_hash(),
                c.wf(),
                strictly_sorted(out@),
                forall|i: int| 0 <= i < lo ==> bytes_lt((#[trigger] out@[i]).spec_hash(), h@),
                forall|i: int| hi <= i < out@.len() ==> !bytes_lt((#[trigger] out@[i]).spec_hash(), h@),
            decreases hi - lo,
        {
            let mid = lo + (hi - lo) / 2;
            if out[mid].hash().less_than(&h) {
                proof {
                    assert forall|i: int| 0 <= i < mid + 1 implies bytes_lt((#[trigger] out@[i]).spec_hash(), h@) by {
                        if i < mid {
                            lemma_bytes_lt_transitive(out@[i].spec_hash(), out@[mid as int].spec_hash(), h@);
                        }
                    }
                }
                lo = mid + 1;
            } else {
                proof {
                    assert forall|i: int| mid <= i < out@.len() implies !bytes_lt((#[trigger] out@[i]).spec_hash(), h@) by {
                        if i > mid && bytes_lt(out@[i].spec_hash(), h@) {
                            lemma_bytes_lt_transitive(out@[mid as int].spec_hash(), out@[i].spec_hash(), h@);
                        }
                    }
                }
                hi = mid;
            }
        }
        let j = lo;
        if j < out.len() && out[j].hash().same(&h) {
            assert(out@[j as int].spec_hash() == c.spec_hash());
        } else {
            let ghost old_out = out@;
            proof {
                if j < old_out.len() {
                    old_out[j as int].lemma_hash_len();
                    lemma_bytes_lt_total(old_out[j as int].spec_hash(), h@);
                    assert(bytes_lt(h@, old_out[j as int].spec_hash()));
                }
            }
            out.insert(j, c);
            proof {
                let n = out@;
                assert(n == old_out.insert(j as int, c));
                assert forall|a: int, b: int| 0 <= a < b < n.len() implies bytes_lt(#[trigger] n[a].spec_hash(), #[trigger] n[b].spec_hash()) by {
                    if b < j {
                        assert(n[a] == old_out[a] && n[b] == old_out[b]);
                    } else if b == j {
                        assert(n[a] == old_out[a]);
                    } else if a == j {
                        assert(n[b] == old_out[b - 1]);
                        if b - 1 > j {
                            assert(bytes_lt(old_out[j as int].spec_hash(), old_out[b - 1].spec_hash()));
                            lemma_bytes_lt_transitive(h@, old_out[j as int].spec_hash(), old_out[b - 1].spec_hash());
                        }
                    } else if a < j {
                        assert(n[a] == old_out[a] && n[b] == old_out[b - 1]);
                        if b - 1 > j {
                            assert(bytes_lt(old_out[j as int].spec_hash(), old_out[b - 1].spec_hash()));
                            lemma_bytes_lt_transitive(h@, old_out[j as int].spec_hash(), old_out[b - 1].spec_hash());
                        }
                        lemma_bytes_lt_transitive(old_out[a].spec_hash(), h@, old_out[b - 1].spec_hash());
                    } else {
                        assert(n[a] == old_out[a - 1] && n[b] == old_out[b - 1]);
                    }
                }
                assert forall|k: int| 0 <= k < n.len() implies from_input(xs, #[trigger] n[k]) by {
                    if k < j {
                        assert(n[k] == old_out[k]);
                    } else if k > j {
                        assert(n[k] == old_out[k - 1]);
                    } else {
                        assert(xs[m] == n[k]);
                    }
                }
                assert forall|k: int| 0 <= k < n.len() implies (#[trigger] n[k]).wf() by {
                    if k < j {
                        assert(n[k] == old_out[k]);
                    } else if k > j {
                        assert(n[k] == old_out[k - 1]);
                    }
                }
                assert forall|i: int| m <= i < xs.len() implies has_hash(n, (#[trigger] xs[i]).spec_hash()) by {
                    if i == m {
                        assert(n[j as int] == c);
                    } else {
                        lemma_insert_keeps_hashes(old_out, j as int, c, xs[i].spec_hash());
                    }
                }
            }
        }
        assert(rest@ =~= xs.subrange(0, rest@.len() as int));
    }
    out
}

/// What a file's header gives: its deck name and the text of its body, or
/// the message of the header's error.
pub open spec fn file_outcome(text: Seq<char>, stem: Option<Seq<char>>) -> Result<(Seq<char>, Seq<char>), Seq<char>> {
    match split_spec(text) {
        Split::NoHeader => Ok((deck_name_spec(None, stem), text)),
        Split::Unclosed => Err(unclosed_message()),
        Split::Header { doc, body } => match metadata_spec(toml_entries(doc)) {
            Ok(n) => Ok((deck_name_spec(n, stem), decode_utf8(body))),
            Err(m) => Err(m),
        },
    }
}

/// The cards of one deck file, given its text, the stem of its name and
/// its path. Line numbers, in card ranges and in errors, count from the
/// first line after the header, not from the top of the file: a header
/// shifts them by its own length.
pub fn parse_file(text: &str, stem: Option<String>, file_path: PathBuf) -> (r: Result<Vec<Card>, DeckError>)
    ensures
        match file_outcome(text@, string_opt_view(stem)) {
            Err(m) => r matches Err(DeckError::Config(e)) && e.message@ == m,
            Ok((name, body)) => match parse_text(body) {
                Ok(es) => r matches Ok(cs) && cs@.len() == es.len() && forall|i: int|
                    0 <= i < es.len() ==> card_from(#[trigger] cs@[i], es[i], name, file_path),
                Err(f) => r matches Err(DeckError::Parser(e)) && e.kind == f.0 && e.line_num == f.1
                    && e.message@ == message_of(f.0) && e.file_path == file_path,
            },
        },
        r matches Ok(cs) ==> file_cards(text@, string_opt_view(stem), file_path, cs@),
{
    let (metadata, content) = match extract_frontmatter(text) {
        Ok(x) => x,
        Err(e) => {
            return Err(DeckError::Config(e));
        },
    };
    proof {
        vstd::utf8::encode_utf8_decode_utf8(content@);
    }
    let name = resolve_deck_name(metadata.name, stem);
    let parser = Parser::new(name, file_path);
    match parser.parse(content) {
        Ok(cs) => Ok(cs),
        Err(e) => Err(DeckError::Parser(e)),
    }
}

/// Cards of one hash, from however many files, merge into a single card.
pub proof fn lemma_merge_one_per_hash(xs: Seq<Card>, r: Seq<Card>)
    requires
        merged(xs, r),
        xs.len() > 0,
        forall|i: int, j: int| 0 <= i < xs.len() && 0 <= j < xs.len() ==> (#[trigger] xs[i]).spec_hash() == (#[trigger] xs[j]).spec_hash(),
    ensures
        r.len() == 1,
{
    assert(has_hash(r, xs[0].spec_hash()));
    if r.len() > 1 {
        assert(from_input(xs, r[0]));
        assert(from_input(xs, r[1]));
        let a = choose|i: int| 0 <= i < xs.len() && xs[i] == r[0];
        let b = choose|i: int| 0 <= i < xs.len() && xs[i] == r[1];
        assert(xs[a].spec_hash() == xs[b].spec_hash());
        assert(bytes_lt(r[0].spec_hash(), r[1].spec_hash()));
        crate::card::lemma_bytes_lt_irreflexive(r[0].spec_hash());
    }
}

/// The cards `parse_file` gives for a file with text `text`, stem `stem`
/// and path `path`, when the file is read without error.
pub open spec fn file_cards(text: Seq<char>, stem: Option<Seq<char>>, path: PathBuf, cs: Seq<Card>) -> bool {
    match file_outcome(text, stem) {
        Err(_) => false,
        Ok((name, body)) => match parse_text(body) {
            Err(_) => false,
            Ok(es) => cs.len() == es.len() && forall|i: int| 0 <= i < es.len() ==> card_from(#[trigger] cs[i], es[i], name, path),
        },
    }
}

/// Two files with the same text, holding a single card, make a deck of a
/// single card, whatever their names and paths.
pub proof fn lemma_identical_files_merge_to_one(
    text: Seq<char>,
    stem1: Option<Seq<char>>,
    stem2: Option<Seq<char>>,
    path1: PathBuf,
    path2: PathBuf,
    cs1: Seq<Card>,
    cs2: Seq<Card>,
    r: Seq<Card>,
)
    requires
        file_cards(text, stem1, path1, cs1),
        file_cards(text, stem2, path2, cs2),
        cs1.len() == 1,
        merged(cs1 + cs2, r),
    ensures
        r.len() == 1,
{
    let xs = cs1 + cs2;
    let body1 = file_outcome(text, stem1)->Ok_0.1;
    let body2 = file_outcome(text, stem2)->Ok_0.1;
    assert(body1 == body2);
    let es = parse_text(body1)->Ok_0;
    assert(card_from(cs1[0], es[0], file_outcome(text, stem1)->Ok_0.0, path1));
    assert(card_from(cs2[0], es[0], file_outcome(text, stem2)->Ok_0.0, path2));
    assert(xs[0] == cs1[0] && xs[1] == cs2[0]);
    assert forall|i: int, j: int| 0 <= i < xs.len() && 0 <= j < xs.len() implies (#[trigger] xs[i]).spec_hash() == (#[trigger] xs[j]).spec_hash() by {
        assert(xs[i].spec_hash() == content_hash(es[0].0));
        assert(xs[j].spec_hash() == content_hash(es[0].0));
    }
    lemma_merge_one_per_hash(xs, r);
}

} // verus!
