use std::path::PathBuf;
use vstd::prelude::*;
use vstd::utf8::encode_utf8;
use crate::text::trim;
use crate::text::trim_spec;

verus! {

/// Declares std's owned path type so that cards can carry the file they came from.
#[verifier::external_type_specification]
#[verifier::external_body]
pub struct ExPathBuf(PathBuf);

/// Relies on `PathBuf::clone`: the clone is the same path.
pub assume_specification[ <PathBuf as Clone>::clone ](p: &PathBuf) -> (r: PathBuf)
    ensures
        r == *p,
;

/// The BLAKE3 digest of a byte sequence.
pub uninterp spec fn blake3_digest(input: Seq<u8>) -> Seq<u8>;

/// Relies on `blake3::hash`: the 32-byte digest of `input`, a function of the input alone.
#[verifier::external_body]
fn blake3_hash(input: &[u8]) -> (r: [u8; 32])
    ensures
        r@ == blake3_digest(input@),
{
    *blake3::hash(input).as_bytes()
}

/// A fixed-width content digest, used as the identity of a card.
#[derive(Clone, Copy, Debug, PartialEq, Eq, Hash, PartialOrd, Ord)]
pub struct CardHash {
    bytes: [u8; 32],
}

impl View for CardHash {
    type V = Seq<u8>;

    closed spec fn view(&self) -> Seq<u8> {
        self.bytes@
    }
}

/// Lexicographic order on byte sequences.
pub open spec fn bytes_lt(a: Seq<u8>, b: Seq<u8>) -> bool
    decreases a.len(),
{
    if b.len() == 0 {
        false
    } else if a.len() == 0 {
        true
    } else if a[0] != b[0] {
        a[0] < b[0]
    } else {
        bytes_lt(a.drop_first(), b.drop_first())
    }
}

/// No sequence sorts before itself.
pub proof fn lemma_bytes_lt_irreflexive(a: Seq<u8>)
    ensures
        !bytes_lt(a, a),
    decreases a.len(),
{
    if a.len() > 0 {
        lemma_bytes_lt_irreflexive(a.drop_first());
    }
}

/// The byte order is transitive.
pub proof fn lemma_bytes_lt_transitive(a: Seq<u8>, b: Seq<u8>, c: Seq<u8>)
    requires
        bytes_lt(a, b),
        bytes_lt(b, c),
    ensures
        bytes_lt(a, c),
    decreases a.len(),
{
    if a.len() > 0 && b.len() > 0 && c.len() > 0 && a[0] == b[0] && b[0] == c[0] {
        lemma_bytes_lt_transitive(a.drop_first(), b.drop_first(), c.drop_first());
    }
}

/// Of two sequences of one length, one sorts first unless they are equal.
pub proof fn lemma_bytes_lt_total(a: Seq<u8>, b: Seq<u8>)
    requires
        a.len() == b.len(),
    ensures
        a == b || bytes_lt(a, b) || bytes_lt(b, a),
    decreases a.len(),
{
    if a.len() == 0 {
        assert(a =~= b);
    } else if a[0] == b[0] {
        lemma_bytes_lt_total(a.drop_first(), b.drop_first());
        if a.drop_first() == b.drop_first() {
            assert(a =~= seq![a[0]] + a.drop_first());
            assert(b =~= seq![b[0]] + b.drop_first());
        }
    }
}

impl CardHash {
    /// The digest of an arbitrary byte string.
    pub fn hash_bytes(input: &[u8]) -> (r: CardHash)
        ensures
            r@ == blake3_digest(input@),
    {
        CardHash { bytes: blake3_hash(input) }
    }

    /// The raw digest bytes.
    pub fn as_bytes(&self) -> (r: &[u8; 32])
        ensures
            r@ == self@,
    {
        &self.bytes
    }

    /// Whether two digests are byte-for-byte equal.
    pub fn same(&self, other: &CardHash) -> (r: bool)
        ensures
            r == (self@ == other@),
    {
        let mut i: usize = 0;
        while i < 32
            invariant
                i <= 32,
                self@.len() == 32,
                other@.len() == 32,
                forall|j: int| 0 <= j < i ==> self@[j] == other@[j],
            decreases 32 - i,
        {
            if self.bytes[i] != other.bytes[i] {
                return false;
            }
            i = i + 1;
        }
        assert(self@ =~= other@);
        true
    }

    /// Whether `self` sorts strictly before `other`, comparing raw bytes.
    pub fn less_than(&self, other: &CardHash) -> (r: bool)
        ensures
            r == bytes_lt(self@, other@),
    {
        assert(self@.subrange(0, 32) =~= self@);
        assert(other@.subrange(0, 32) =~= other@);
        let mut i: usize = 0;
        while i < 32
            invariant
                i <= 32,
                self@.len() == 32,
                other@.len() == 32,
                forall|j: int| 0 <= j < i ==> self@[j] == other@[j],
                bytes_lt(self@, other@) == bytes_lt(self@.subrange(i as int, 32), other@.subrange(i as int, 32)),
            decreases 32 - i,
        {
            let a = self.bytes[i];
            let b = other.bytes[i];
            proof {
                let sa = self@.subrange(i as int, 32);
                let sb = other@.subrange(i as int, 32);
                assert(sa.drop_first() =~= self@.subrange(i + 1, 32));
                assert(sb.drop_first() =~= other@.subrange(i + 1, 32));
                assert(sa[0] == a && sb[0] == b);
            }
            if a != b {
                return a < b;
            }
            i = i + 1;
        }
        assert(self@.subrange(32, 32).len() == 0);
        false
    }
}


/// The text of a card.
#[derive(Debug)]
pub enum CardContent {
    /// A question and its answer, both trimmed.
    Basic { question: String, answer: String },
    /// A passage with one deletion: `start` and `end` are the inclusive byte
    /// offsets of the deleted span within `text`.
    Cloze { text: String, start: usize, end: usize },
}

/// What a [`CardContent`] holds, as sequences of characters.
pub enum ContentView {
    Basic { question: Seq<char>, answer: Seq<char> },
    Cloze { text: Seq<char>, start: usize, end: usize },
}

impl View for CardContent {
    type V = ContentView;

    open spec fn view(&self) -> ContentView {
        match self {
            CardContent::Basic { question, answer } => ContentView::Basic {
                question: question@,
                answer: answer@,
            },
            CardContent::Cloze { text, start, end } => ContentView::Cloze {
                text: text@,
                start: *start,
                end: *end,
            },
        }
    }
}

/// The kind of a card.
#[derive(Clone, Copy, Debug, PartialEq, Eq, Structural)]
pub enum CardType {
    Basic,
    Cloze,
}

/// The bytes of the tag `Basic`.
pub open spec fn basic_tag() -> Seq<u8> {
    seq![0x42u8, 0x61, 0x73, 0x69, 0x63]
}

/// The bytes of the tag `Cloze`.
pub open spec fn cloze_tag() -> Seq<u8> {
    seq![0x43u8, 0x6c, 0x6f, 0x7a, 0x65]
}

/// The eight little-endian bytes of `x`.
pub open spec fn le_bytes(x: u64) -> Seq<u8> {
    seq![
        (x & 0xff) as u8,
        ((x >> 8u64) & 0xff) as u8,
        ((x >> 16u64) & 0xff) as u8,
        ((x >> 24u64) & 0xff) as u8,
        ((x >> 32u64) & 0xff) as u8,
        ((x >> 40u64) & 0xff) as u8,
        ((x >> 48u64) & 0xff) as u8,
        ((x >> 56u64) & 0xff) as u8,
    ]
}

/// The bytes that identify a content: a type tag, then the fields in order.
pub open spec fn identity_bytes(c: ContentView) -> Seq<u8> {
    match c {
        ContentView::Basic { question, answer } => basic_tag() + encode_utf8(question)
            + encode_utf8(answer),
        ContentView::Cloze { text, start, end } => cloze_tag() + encode_utf8(text) + le_bytes(
            start as u64,
        ) + le_bytes(end as u64),
    }
}

/// The hash of a content.
pub open spec fn content_hash(c: ContentView) -> Seq<u8> {
    blake3_digest(identity_bytes(c))
}

/// The hash shared by every deletion of one cloze passage; basic cards have none.
pub open spec fn family_hash_of(c: ContentView) -> Option<Seq<u8>> {
    match c {
        ContentView::Basic { .. } => None,
        ContentView::Cloze { text, .. } => Some(blake3_digest(cloze_tag() + encode_utf8(text))),
    }
}

fn push_tag_basic(v: &mut Vec<u8>)
    ensures
        final(v)@ == old(v)@ + basic_tag(),
{
    v.push(0x42);
    v.push(0x61);
    v.push(0x73);
    v.push(0x69);
    v.push(0x63);
    assert(final(v)@ =~= old(v)@ + basic_tag());
}

fn push_tag_cloze(v: &mut Vec<u8>)
    ensures
        final(v)@ == old(v)@ + cloze_tag(),
{
    v.push(0x43);
    v.push(0x6c);
    v.push(0x6f);
    v.push(0x7a);
    v.push(0x65);
    assert(final(v)@ =~= old(v)@ + cloze_tag());
}

fn push_le(v: &mut Vec<u8>, x: u64)
    ensures
        final(v)@ == old(v)@ + le_bytes(x),
{
    v.push((x & 0xff) as u8);
    v.push(((x >> 8u64) & 0xff) as u8);
    v.push(((x >> 16u64) & 0xff) as u8);
    v.push(((x >> 24u64) & 0xff) as u8);
    v.push(((x >> 32u64) & 0xff) as u8);
    v.push(((x >> 40u64) & 0xff) as u8);
    v.push(((x >> 48u64) & 0xff) as u8);
    v.push(((x >> 56u64) & 0xff) as u8);
    assert(final(v)@ =~= old(v)@ + le_bytes(x));
}

fn push_str(v: &mut Vec<u8>, s: &str)
    ensures
        final(v)@ == old(v)@ + encode_utf8(s@),
{
    v.extend_from_slice(s.as_bytes());
}

impl Clone for CardContent {
    fn clone(&self) -> (r: CardContent)
        ensures
            r@ == self@,
    {
        match self {
            CardContent::Basic { question, answer } => CardContent::Basic {
                question: question.clone(),
                answer: answer.clone(),
            },
            CardContent::Cloze { text, start, end } => CardContent::Cloze {
                text: text.clone(),
                start: *start,
                end: *end,
            },
        }
    }
}

impl CardContent {
    /// A basic card; question and answer are trimmed of surrounding whitespace.
    pub fn new_basic(question: &str, answer: &str) -> (r: CardContent)
        ensures
            r@ == (ContentView::Basic { question: trim_spec(question@), answer: trim_spec(answer@) }),
    {
        CardContent::Basic { question: trim(question).to_owned(), answer: trim(answer).to_owned() }
    }

    /// A cloze card: `prompt` with the deletion `start..=end` (byte offsets).
    pub fn new_cloze(prompt: &str, start: usize, end: usize) -> (r: CardContent)
        ensures
            r@ == (ContentView::Cloze { text: prompt@, start, end }),
    {
        CardContent::Cloze { text: prompt.to_owned(), start, end }
    }

    /// The content's hash: the digest of its type tag and fields.
    pub fn hash(&self) -> (r: CardHash)
        ensures
            r@ == content_hash(self@),
    {
        let mut input: Vec<u8> = Vec::new();
        match self {
            CardContent::Basic { question, answer } => {
                push_tag_basic(&mut input);
                push_str(&mut input, question.as_str());
                push_str(&mut input, answer.as_str());
            },
            CardContent::Cloze { text, start, end } => {
                push_tag_cloze(&mut input);
                push_str(&mut input, text.as_str());
                push_le(&mut input, *start as u64);
                push_le(&mut input, *end as u64);
            },
        }
        assert(input@ =~= identity_bytes(self@));
        CardHash::hash_bytes(input.as_slice())
    }

    /// The hash shared by all deletions of one cloze passage; `None` for basic cards.
    pub fn family_hash(&self) -> (r: Option<CardHash>)
        ensures
            r matches Some(h) ==> family_hash_of(self@) == Some(h@),
            r is None <==> family_hash_of(self@) is None,
    {
        match self {
            CardContent::Basic { .. } => None,
            CardContent::Cloze { text, .. } => {
                let mut input: Vec<u8> = Vec::new();
                push_tag_cloze(&mut input);
                push_str(&mut input, text.as_str());
                Some(CardHash::hash_bytes(input.as_slice()))
            },
        }
    }
}

/// One flashcard: its content, where it came from, and its cached hash.
#[derive(Debug)]
pub struct Card {
    deck_name: String,
    file_path: PathBuf,
    range: (usize, usize),
    content: CardContent,
    hash: CardHash,
}

impl Clone for Card {
    fn clone(&self) -> (r: Card)
        ensures
            r.spec_deck_name() == self.spec_deck_name(),
            r.spec_file_path() == self.spec_file_path(),
            r.spec_range() == self.spec_range(),
            r.spec_content() == self.spec_content(),
            r.spec_hash() == self.spec_hash(),
            r.wf(),
    {
        proof {
            use_type_invariant(self);
        }
        Card {
            deck_name: self.deck_name.clone(),
            file_path: self.file_path.clone(),
            range: self.range,
            content: self.content.clone(),
            hash: self.hash,
        }
    }
}

impl Card {
    /// The card's stored hash is the hash of its content.
    pub open spec fn wf(&self) -> bool {
        self.spec_hash() == content_hash(self.spec_content())
    }

    /// Every card's stored hash is the hash of its content.
    #[verifier::type_invariant]
    pub open spec fn hash_matches(&self) -> bool {
        self.wf()
    }

    /// The hash stored in the card.
    pub closed spec fn spec_hash(&self) -> Seq<u8> {
        self.hash@
    }

    /// The deck name, as characters.
    pub closed spec fn spec_deck_name(&self) -> Seq<char> {
        self.deck_name@
    }

    /// The file the card was read from.
    pub closed spec fn spec_file_path(&self) -> PathBuf {
        self.file_path
    }

    /// The card's line range.
    pub closed spec fn spec_range(&self) -> (usize, usize) {
        self.range
    }

    /// The card's content, as characters.
    pub closed spec fn spec_content(&self) -> ContentView {
        self.content@
    }

    /// A card's hash has 32 bytes.
    pub proof fn lemma_hash_len(&self)
        ensures
            self.spec_hash().len() == 32,
    {
    }

    /// A card from its provenance and content; the hash is computed once here.
    pub fn new(deck_name: String, file_path: PathBuf, range: (usize, usize), content: CardContent) -> (r: Card)
        ensures
            r.wf(),
            r.spec_deck_name() == deck_name@,
            r.spec_file_path() == file_path,
            r.spec_range() == range,
            r.spec_content() == content@,
    {
        let hash = content.hash();
        Card { deck_name, file_path, range, content, hash }
    }

    /// The name of the deck the card belongs to.
    pub fn deck_name(&self) -> (r: &String)
        ensures
            r@ == self.spec_deck_name(),
    {
        &self.deck_name
    }

    /// The card's content.
    pub fn content(&self) -> (r: &CardContent)
        ensures
            r@ == self.spec_content(),
    {
        &self.content
    }

    /// The hash computed when the card was made.
    pub fn hash(&self) -> (r: CardHash)
        ensures
            r@ == self.spec_hash(),
            r@ == content_hash(self.spec_content()),
    {
        proof {
            use_type_invariant(self);
        }
        self.hash
    }

    /// The family hash of the card's content.
    pub fn family_hash(&self) -> (r: Option<CardHash>)
        ensures
            r matches Some(h) ==> family_hash_of(self.spec_content()) == Some(h@),
            r is None <==> family_hash_of(self.spec_content()) is None,
    {
        self.content.family_hash()
    }

    /// The file the card was read from.
    pub fn file_path(&self) -> (r: &PathBuf)
        ensures
            *r == self.spec_file_path(),
    {
        &self.file_path
    }

    /// The card's first and last line, 0-indexed.
    pub fn range(&self) -> (r: (usize, usize))
        ensures
            r == self.spec_range(),
    {
        self.range
    }

    /// Whether the card is basic or cloze.
    pub fn card_type(&self) -> (r: CardType)
        ensures
            r == (match self.spec_content() {
                ContentView::Basic { .. } => CardType::Basic,
                ContentView::Cloze { .. } => CardType::Cloze,
            }),
    {
        match &self.content {
            CardContent::Basic { .. } => CardType::Basic,
            CardContent::Cloze { .. } => CardType::Cloze,
        }
    }
}

/// Hashing depends on the content alone: two contents with the same type
/// and fields have the same hash, however often it is computed.
pub proof fn lemma_hash_pure(a: CardContent, b: CardContent)
    requires
        a@ == b@,
    ensures
        content_hash(a@) == content_hash(b@),
        family_hash_of(a@) == family_hash_of(b@),
{
}

} // verus!
