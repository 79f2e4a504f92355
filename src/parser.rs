//! The deck state machine: classifies each line of a deck file and
//! assembles basic and cloze cards from the lines.
use std::path::PathBuf;
use vstd::prelude::*;
use vstd::string::StrSliceExecFns;
use vstd::string::StringExecFns;
use vstd::utf8::decode_utf8;
use vstd::utf8::encode_utf8;
use crate::card::Card;
use crate::card::CardContent;
use crate::card::ContentView;
use crate::card::content_hash;
use crate::cloze::clean_text;
use crate::cloze::deletion_spans;
use crate::cloze::scan_passage;
use crate::cloze::spans_view;
use crate::cloze::spans_of;
use crate::cloze::clean_of;
use crate::cloze::tokens;
use crate::cloze::lemma_tokens_bounded;
use crate::cloze::lemma_clean_text_valid;
use crate::text::text_lines;
use crate::text::split_lines;
use crate::text::string_from_utf8;
use crate::text::trim;
use crate::text::trim_spec;
use crate::text::is_delimiter;
use crate::text::is_delimiter_line;

verus! {

/// Why a deck file was rejected.
#[derive(Clone, Copy, Debug, PartialEq, Eq, Structural)]
pub enum ParseErrorKind {
    AnswerWithoutQuestion,
    QuestionWithoutAnswer,
    ClozeInQuestion,
    SeparatorInQuestion,
    AnswerInAnswer,
    AnswerInCloze,
    UnfinishedQuestion,
    NoDeletion,
    EmptyDeletion,
}

impl ParseErrorKind {
    /// The human-readable cause.
    pub fn message(&self) -> (r: &'static str)
        ensures
            r@ == message_of(*self),
    {
        match self {
            ParseErrorKind::AnswerWithoutQuestion => "Found answer tag without a question.",
            ParseErrorKind::QuestionWithoutAnswer => "New question without answer.",
            ParseErrorKind::ClozeInQuestion => "Found cloze tag while reading a question.",
            ParseErrorKind::SeparatorInQuestion => "Found flashcard separator while reading a question.",
            ParseErrorKind::AnswerInAnswer => "Found answer tag while reading an answer.",
            ParseErrorKind::AnswerInCloze => "Found answer tag while reading a cloze card.",
            ParseErrorKind::UnfinishedQuestion => "File ended while reading a question without answer.",
            ParseErrorKind::NoDeletion => "Cloze card must contain at least one cloze deletion.",
            ParseErrorKind::EmptyDeletion => "Cloze deletion must not be empty.",
        }
    }
}

/// The message of each kind of error.
pub open spec fn message_of(k: ParseErrorKind) -> Seq<char> {
    match k {
        ParseErrorKind::AnswerWithoutQuestion => "Found answer tag without a question."@,
        ParseErrorKind::QuestionWithoutAnswer => "New question without answer."@,
        ParseErrorKind::ClozeInQuestion => "Found cloze tag while reading a question."@,
        ParseErrorKind::SeparatorInQuestion => "Found flashcard separator while reading a question."@,
        ParseErrorKind::AnswerInAnswer => "Found answer tag while reading an answer."@,
        ParseErrorKind::AnswerInCloze => "Found answer tag while reading a cloze card."@,
        ParseErrorKind::UnfinishedQuestion => "File ended while reading a question without answer."@,
        ParseErrorKind::NoDeletion => "Cloze card must contain at least one cloze deletion."@,
        ParseErrorKind::EmptyDeletion => "Cloze deletion must not be empty."@,
    }
}

/// A structural error in a deck file, with the 0-indexed line it was found on.
#[derive(Debug)]
pub struct ParserError {
    pub kind: ParseErrorKind,
    pub message: String,
    pub file_path: PathBuf,
    pub line_num: usize,
}

impl ParserError {
    fn new(kind: ParseErrorKind, file_path: PathBuf, line_num: usize) -> (r: ParserError)
        ensures
            r.kind == kind,
            r.message@ == message_of(kind),
            r.file_path == file_path,
            r.line_num == line_num,
    {
        ParserError { kind, message: kind.message().to_owned(), file_path, line_num }
    }
}

/// Relies on `Path::display`: the path as text.
#[verifier::external_body]
pub(crate) fn path_text(path: &PathBuf) -> (r: String) {
    path.display().to_string()
}

/// The decimal digit `d`.
pub open spec fn digit_char(d: nat) -> char {
    if d == 0 {
        '0'
    } else if d == 1 {
        '1'
    } else if d == 2 {
        '2'
    } else if d == 3 {
        '3'
    } else if d == 4 {
        '4'
    } else if d == 5 {
        '5'
    } else if d == 6 {
        '6'
    } else if d == 7 {
        '7'
    } else if d == 8 {
        '8'
    } else {
        '9'
    }
}

/// The decimal numeral of `n`, without leading zeros.
pub open spec fn decimal(n: nat) -> Seq<char>
    decreases n,
{
    if n < 10 {
        seq![digit_char(n)]
    } else {
        decimal(n / 10).push(digit_char(n % 10))
    }
}

fn digit_str(d: u128) -> (r: &'static str)
    requires
        d < 10,
    ensures
        r@ == seq![digit_char(d as nat)],
{
    proof {
        reveal_strlit("0");
        reveal_strlit("1");
        reveal_strlit("2");
        reveal_strlit("3");
        reveal_strlit("4");
        reveal_strlit("5");
        reveal_strlit("6");
        reveal_strlit("7");
        reveal_strlit("8");
        reveal_strlit("9");
    }
    if d == 0 {
        "0"
    } else if d == 1 {
        "1"
    } else if d == 2 {
        "2"
    } else if d == 3 {
        "3"
    } else if d == 4 {
        "4"
    } else if d == 5 {
        "5"
    } else if d == 6 {
        "6"
    } else if d == 7 {
        "7"
    } else if d == 8 {
        "8"
    } else {
        "9"
    }
}

/// The decimal numeral of `n`.
pub fn decimal_string(n: u128) -> (r: String)
    ensures
        r@ == decimal(n as nat),
    decreases n,
{
    if n < 10 {
        digit_str(n).to_owned()
    } else {
        let mut r = decimal_string(n / 10);
        r.append(digit_str(n % 10));
        r
    }
}

impl ParserError {
    /// The message, then ` Location: `, the file, `:` and the 1-indexed line.
    pub fn to_string(&self) -> (r: String)
        ensures
            exists|path: Seq<char>|
                r@ == self.message@ + " Location: "@ + path + ":"@ + decimal(self.line_num as nat + 1),
    {
        let mut r = self.message.clone();
        r.append(" Location: ");
        let path = path_text(&self.file_path);
        r.append(path.as_str());
        r.append(":");
        let line = decimal_string(self.line_num as u128 + 1);
        r.append(line.as_str());
        assert(r@ =~= self.message@ + " Location: "@ + path@ + ":"@ + decimal(self.line_num as nat + 1));
        r
    }
}

/// What a line of a deck file is.
pub enum LineKind {
    Question(Seq<char>),
    Answer(Seq<char>),
    Cloze(Seq<char>),
    Separator,
    Text(Seq<char>),
}

/// `l` starts with the character `c` followed by a colon.
pub open spec fn tagged(l: Seq<char>, c: char) -> bool {
    l.len() >= 2 && l[0] == c && l[1] == ':'
}

/// Classifies one line: `Q:`, `A:` and `C:` start a block and keep the rest
/// of the line trimmed; a line that trims to `---` separates cards; any other
/// line is text, kept as it is.
pub open spec fn classify(l: Seq<char>) -> LineKind {
    if tagged(l, 'Q') {
        LineKind::Question(trim_spec(l.subrange(2, l.len() as int)))
    } else if tagged(l, 'A') {
        LineKind::Answer(trim_spec(l.subrange(2, l.len() as int)))
    } else if tagged(l, 'C') {
        LineKind::Cloze(trim_spec(l.subrange(2, l.len() as int)))
    } else if is_delimiter(l) {
        LineKind::Separator
    } else {
        LineKind::Text(l)
    }
}

/// A classified line.
enum Line {
    StartQuestion(String),
    StartAnswer(String),
    StartCloze(String),
    Separator,
    Text(String),
}

impl View for Line {
    type V = LineKind;

    closed spec fn view(&self) -> LineKind {
        match self {
            Line::StartQuestion(s) => LineKind::Question(s@),
            Line::StartAnswer(s) => LineKind::Answer(s@),
            Line::StartCloze(s) => LineKind::Cloze(s@),
            Line::Separator => LineKind::Separator,
            Line::Text(s) => LineKind::Text(s@),
        }
    }
}

fn rest_trimmed(line: &str) -> (r: String)
    requires
        line@.len() >= 2,
    ensures
        r@ == trim_spec(line@.subrange(2, line@.len() as int)),
{
    let n = line.unicode_len();
    trim(line.substring_char(2, n)).to_owned()
}

impl Line {
    fn read(line: &str) -> (r: Line)
        ensures
            r@ == classify(line@),
    {
        let n = line.unicode_len();
        if n >= 2 && line.get_char(1) == ':' {
            let c = line.get_char(0);
            if c == 'Q' {
                return Line::StartQuestion(rest_trimmed(line));
            } else if c == 'A' {
                return Line::StartAnswer(rest_trimmed(line));
            } else if c == 'C' {
                return Line::StartCloze(rest_trimmed(line));
            }
        }
        if is_delimiter_line(line) {
            Line::Separator
        } else {
            Line::Text(line.to_owned())
        }
    }
}

/// The state of the machine between lines.
pub enum StateView {
    Initial,
    ReadingQuestion { question: Seq<char>, start_line: int },
    ReadingAnswer { question: Seq<char>, answer: Seq<char>, start_line: int },
    ReadingCloze { text: Seq<char>, start_line: int },
}

enum State {
    Initial,
    ReadingQuestion { question: String, start_line: usize },
    ReadingAnswer { question: String, answer: String, start_line: usize },
    ReadingCloze { text: String, start_line: usize },
}

impl View for State {
    type V = StateView;

    closed spec fn view(&self) -> StateView {
        match self {
            State::Initial => StateView::Initial,
            State::ReadingQuestion { question, start_line } => StateView::ReadingQuestion {
                question: question@,
                start_line: *start_line as int,
            },
            State::ReadingAnswer { question, answer, start_line } => StateView::ReadingAnswer {
                question: question@,
                answer: answer@,
                start_line: *start_line as int,
            },
            State::ReadingCloze { text, start_line } => StateView::ReadingCloze {
                text: text@,
                start_line: *start_line as int,
            },
        }
    }
}

/// A card as the machine emits it: its content and its line range.
pub type Emitted = (ContentView, int, int);

/// A located error: its kind and 0-indexed line.
pub type Failure = (ParseErrorKind, int);

/// `a`, a line feed, then `b`.
pub open spec fn join(a: Seq<char>, b: Seq<char>) -> Seq<char> {
    a + seq!['\n'] + b
}

/// The basic card of a question and answer.
pub open spec fn basic_card(q: Seq<char>, a: Seq<char>, start: int, end: int) -> Emitted {
    (ContentView::Basic { question: trim_spec(q), answer: trim_spec(a) }, start, end)
}

/// The bytes of a cloze block, as the tokenizer reads them.
pub open spec fn passage_bytes(text: Seq<char>) -> Seq<u8> {
    encode_utf8(trim_spec(text))
}

/// The cards of a cloze block spanning lines `start..=end`: one per
/// deletion, in order, or the error that rejects the block.
pub open spec fn cloze_cards(text: Seq<char>, start: int, end: int) -> Result<Seq<Emitted>, Failure> {
    let b = passage_bytes(text);
    let spans = deletion_spans(b);
    let clean = clean_text(b);
    if spans.len() == 0 {
        Err((ParseErrorKind::NoDeletion, start))
    } else if exists|k: int| 0 <= k < spans.len() && #[trigger] spans[k].0 == spans[k].1 {
        Err((ParseErrorKind::EmptyDeletion, start))
    } else {
        Ok(
            spans.map_values(
                |sp: (int, int)|
                    (
                        ContentView::Cloze {
                            text: decode_utf8(clean),
                            start: sp.0 as usize,
                            end: (sp.1 - 1) as usize,
                        },
                        start,
                        end,
                    ),
            ),
        )
    }
}

/// One transition of the machine on the line `l` at index `n`: the next
/// state and the cards it emits, or the error.
pub open spec fn step(s: StateView, l: LineKind, n: int) -> Result<(StateView, Seq<Emitted>), Failure> {
    match s {
        StateView::Initial => match l {
            LineKind::Question(q) => Ok((StateView::ReadingQuestion { question: q, start_line: n }, seq![])),
            LineKind::Answer(_) => Err((ParseErrorKind::AnswerWithoutQuestion, n)),
            LineKind::Cloze(t) => Ok((StateView::ReadingCloze { text: t, start_line: n }, seq![])),
            LineKind::Separator => Ok((StateView::Initial, seq![])),
            LineKind::Text(_) => Ok((StateView::Initial, seq![])),
        },
        StateView::ReadingQuestion { question, start_line } => match l {
            LineKind::Question(_) => Err((ParseErrorKind::QuestionWithoutAnswer, n)),
            LineKind::Answer(a) => Ok(
                (StateView::ReadingAnswer { question, answer: a, start_line }, seq![]),
            ),
            LineKind::Cloze(_) => Err((ParseErrorKind::ClozeInQuestion, n)),
            LineKind::Separator => Err((ParseErrorKind::SeparatorInQuestion, n)),
            LineKind::Text(t) => Ok(
                (StateView::ReadingQuestion { question: join(question, t), start_line }, seq![]),
            ),
        },
        StateView::ReadingAnswer { question, answer, start_line } => match l {
            LineKind::Question(q) => Ok(
                (
                    StateView::ReadingQuestion { question: q, start_line: n },
                    seq![basic_card(question, answer, start_line, n)],
                ),
            ),
            LineKind::Answer(_) => Err((ParseErrorKind::AnswerInAnswer, n)),
            LineKind::Cloze(t) => Ok(
                (
                    StateView::ReadingCloze { text: t, start_line: n },
                    seq![basic_card(question, answer, start_line, n)],
                ),
            ),
            LineKind::Separator => Ok(
                (StateView::Initial, seq![basic_card(question, answer, start_line, n)]),
            ),
            LineKind::Text(t) => Ok(
                (
                    StateView::ReadingAnswer { question, answer: join(answer, t), start_line },
                    seq![],
                ),
            ),
        },
        StateView::ReadingCloze { text, start_line } => match l {
            LineKind::Question(q) => match cloze_cards(text, start_line, n) {
                Ok(cs) => Ok((StateView::ReadingQuestion { question: q, start_line: n }, cs)),
                Err(e) => Err(e),
            },
            LineKind::Answer(_) => Err((ParseErrorKind::AnswerInCloze, n)),
            LineKind::Cloze(t) => match cloze_cards(text, start_line, n) {
                Ok(cs) => Ok((StateView::ReadingCloze { text: t, start_line: n }, cs)),
                Err(e) => Err(e),
            },
            LineKind::Separator => match cloze_cards(text, start_line, n) {
                Ok(cs) => Ok((StateView::Initial, cs)),
                Err(e) => Err(e),
            },
            LineKind::Text(t) => Ok(
                (StateView::ReadingCloze { text: join(text, t), start_line }, seq![]),
            ),
        },
    }
}

/// What the end of the file does in state `s`, `last` being the index of
/// the last line.
pub open spec fn finish(s: StateView, last: int) -> Result<Seq<Emitted>, Failure> {
    match s {
        StateView::Initial => Ok(seq![]),
        StateView::ReadingQuestion { .. } => Err((ParseErrorKind::UnfinishedQuestion, last)),
        StateView::ReadingAnswer { question, answer, start_line } => Ok(
            seq![basic_card(question, answer, start_line, last)],
        ),
        StateView::ReadingCloze { text, start_line } => cloze_cards(text, start_line, last),
    }
}

/// The machine after the first `k` lines: its state and the cards emitted.
pub open spec fn run(lines: Seq<LineKind>, k: int) -> Result<(StateView, Seq<Emitted>), Failure>
    decreases k,
{
    if k <= 0 {
        Ok((StateView::Initial, seq![]))
    } else {
        match run(lines, k - 1) {
            Err(e) => Err(e),
            Ok((s, out)) => match step(s, lines[k - 1], k - 1) {
                Err(e) => Err(e),
                Ok((s2, more)) => Ok((s2, out + more)),
            },
        }
    }
}

/// The cards in emission order, of each hash only the first.
pub open spec fn dedup(cs: Seq<Emitted>) -> Seq<Emitted>
    decreases cs.len(),
{
    if cs.len() == 0 {
        seq![]
    } else {
        let d = dedup(cs.drop_last());
        if exists|j: int| 0 <= j < d.len() && content_hash(#[trigger] d[j].0) == content_hash(cs.last().0) {
            d
        } else {
            d.push(cs.last())
        }
    }
}

/// The classified lines of a text.
pub open spec fn line_kinds(text: Seq<char>) -> Seq<LineKind> {
    text_lines(text).map_values(|l: Seq<char>| classify(l))
}

/// The cards of a deck text, or the first error in it.
pub open spec fn parse_text(text: Seq<char>) -> Result<Seq<Emitted>, Failure> {
    let lines = line_kinds(text);
    let last = if lines.len() == 0 { 0 } else { lines.len() - 1 };
    match run(lines, lines.len() as int) {
        Err(e) => Err(e),
        Ok((s, out)) => match finish(s, last) {
            Err(e) => Err(e),
            Ok(more) => Ok(dedup(out + more)),
        },
    }
}

/// `c` is the emitted card `e` of deck `deck` and file `path`.
pub open spec fn card_from(c: Card, e: Emitted, deck: Seq<char>, path: PathBuf) -> bool {
    &&& c.wf()
    &&& c.spec_content() == e.0
    &&& c.spec_range() == (e.1 as usize, e.2 as usize)
    &&& c.spec_deck_name() == deck
    &&& c.spec_file_path() == path
}

/// Reads deck text for one deck and one file.
pub struct Parser {
    deck_name: String,
    file_path: PathBuf,
}

impl Parser {
    pub closed spec fn spec_deck_name(&self) -> Seq<char> {
        self.deck_name@
    }

    pub closed spec fn spec_file_path(&self) -> PathBuf {
        self.file_path
    }

    /// `c` is the card `e` of this parser's deck and file.
    pub open spec fn made(&self, c: Card, e: Emitted) -> bool {
        card_from(c, e, self.spec_deck_name(), self.spec_file_path())
    }

    /// `cs` are the cards `es`, in order.
    pub open spec fn made_all(&self, cs: Seq<Card>, es: Seq<Emitted>) -> bool {
        &&& cs.len() == es.len()
        &&& forall|i: int| 0 <= i < cs.len() ==> self.made(#[trigger] cs[i], es[i])
    }

    pub fn new(deck_name: String, file_path: PathBuf) -> (r: Parser)
        ensures
            r.spec_deck_name() == deck_name@,
            r.spec_file_path() == file_path,
    {
        Parser { deck_name, file_path }
    }

    fn error(&self, kind: ParseErrorKind, line_num: usize) -> (r: ParserError)
        ensures
            r.kind == kind,
            r.message@ == message_of(kind),
            r.file_path == self.spec_file_path(),
            r.line_num == line_num,
    {
        ParserError::new(kind, self.file_path.clone(), line_num)
    }

    fn card(&self, range: (usize, usize), content: CardContent) -> (r: Card)
        ensures
            r.wf(),
            r.spec_content() == content@,
            r.spec_range() == range,
            r.spec_deck_name() == self.spec_deck_name(),
            r.spec_file_path() == self.spec_file_path(),
    {
        Card::new(self.deck_name.clone(), self.file_path.clone(), range, content)
    }
}


proof fn lemma_spans_ordered(b: Seq<u8>, toks: Seq<(int, int, bool)>)
    requires
        forall|k: int| 0 <= k < toks.len() ==> (#[trigger] toks[k]).0 <= toks[k].1,
    ensures
        forall|k: int|
            0 <= k < spans_of(b, toks).len() ==> 0 <= (#[trigger] spans_of(b, toks)[k]).0 <= spans_of(b, toks)[k].1,
    decreases toks.len(),
{
    if toks.len() > 0 {
        let prev = toks.drop_last();
        assert forall|k: int| 0 <= k < prev.len() implies (#[trigger] prev[k]).0 <= prev[k].1 by {
            assert(prev[k] == toks[k]);
        }
        lemma_spans_ordered(b, prev);
        assert(toks.last() == toks[toks.len() - 1]);
        let sp = spans_of(b, prev);
        let t = toks.last();
        if t.2 {
            let all = spans_of(b, toks);
            assert forall|k: int| 0 <= k < all.len() implies 0 <= (#[trigger] all[k]).0 <= all[k].1 by {
                if k < sp.len() {
                    assert(all[k] == sp[k]);
                }
            }
        }
    }
}

proof fn lemma_passage_spans_ordered(b: Seq<u8>)
    ensures
        forall|k: int|
            0 <= k < deletion_spans(b).len() ==> 0 <= (#[trigger] deletion_spans(b)[k]).0 <= deletion_spans(b)[k].1,
{
    lemma_tokens_bounded(b, 0);
    lemma_spans_ordered(b, tokens(b));
}

proof fn lemma_run_err(lines: Seq<LineKind>, k: int, m: int, f: Failure)
    requires
        0 <= k <= m,
        run(lines, k) == Err::<(StateView, Seq<Emitted>), Failure>(f),
    ensures
        run(lines, m) == Err::<(StateView, Seq<Emitted>), Failure>(f),
    decreases m - k,
{
    if k < m {
        lemma_run_err(lines, k + 1, m, f);
    }
}

fn append_line(a: String, b: &str) -> (r: String)
    ensures
        r@ == join(a@, b@),
{
    let mut r = a;
    r.append("\n");
    r.append(b);
    proof {
        reveal_strlit("\n");
    }
    assert(r@ =~= join(a@, b@));
    r
}

impl Parser {
    /// `e` is the error `f` of this parser's file.
    pub open spec fn reports(&self, e: ParserError, f: Failure) -> bool {
        &&& e.kind == f.0
        &&& e.line_num == f.1
        &&& e.message@ == message_of(f.0)
        &&& e.file_path == self.spec_file_path()
    }

    /// `cs` is `old` with the cards `es` after it.
    pub open spec fn extends(&self, cs: Seq<Card>, old: Seq<Card>, es: Seq<Emitted>) -> bool {
        &&& cs.len() == old.len() + es.len()
        &&& forall|i: int| 0 <= i < old.len() ==> cs[i] == old[i]
        &&& forall|i: int| 0 <= i < es.len() ==> self.made(#[trigger] cs[old.len() + i], es[i])
    }

    fn push_basic(&self, question: String, answer: String, start: usize, end: usize, cards: &mut Vec<Card>)
        ensures
            self.extends(final(cards)@, old(cards)@, seq![basic_card(question@, answer@, start as int, end as int)]),
    {
        let c = self.card((start, end), CardContent::new_basic(question.as_str(), answer.as_str()));
        cards.push(c);
        assert(cards@[old(cards)@.len() as int] == c);
    }

    fn parse_cloze_cards(&self, text: String, start_line: usize, end_line: usize, cards: &mut Vec<Card>) -> (r: Result<(), ParserError>)
        ensures
            match cloze_cards(text@, start_line as int, end_line as int) {
                Ok(es) => r is Ok && self.extends(final(cards)@, old(cards)@, es),
                Err(f) => r matches Err(e) && self.reports(e, f) && final(cards)@ == old(cards)@,
            },
    {
        let t = trim(text.as_str());
        let b = t.as_bytes();
        let (clean, spans) = scan_passage(b);
        let ghost sp = deletion_spans(b@);
        proof {
            lemma_passage_spans_ordered(b@);
            assert(b@ == passage_bytes(text@));
        }
        if spans.len() == 0 {
            return Err(self.error(ParseErrorKind::NoDeletion, start_line));
        }
        let mut k: usize = 0;
        while k < spans.len()
            invariant
                k <= spans@.len(),
                spans_view(spans@) == sp,
                sp == deletion_spans(passage_bytes(text@)),
                sp.len() > 0,
                forall|j: int| 0 <= j < k ==> (#[trigger] sp[j]).0 != sp[j].1,
            decreases spans@.len() - k,
        {
            let (s0, e0) = spans[k];
            assert(sp[k as int] == (s0 as int, e0 as int));
            if s0 == e0 {
                assert(sp[k as int].0 == sp[k as int].1);
                return Err(self.error(ParseErrorKind::EmptyDeletion, start_line));
            }
            k = k + 1;
        }
        assert(!exists|j: int| 0 <= j < sp.len() && #[trigger] sp[j].0 == sp[j].1);
        proof {
            vstd::utf8::encode_utf8_valid_utf8(t@);
            lemma_clean_text_valid(b@);
        }
        let text_out = string_from_utf8(clean);
        proof {
            vstd::utf8::encode_utf8_decode_utf8(text_out@);
        }
        let ghost es = cloze_cards(text@, start_line as int, end_line as int)->Ok_0;
        let ghost old_cards = cards@;
        let mut k: usize = 0;
        while k < spans.len()
            invariant
                k <= spans@.len(),
                spans_view(spans@) == sp,
                es.len() == sp.len(),
                forall|j: int| 0 <= j < sp.len() ==> 0 <= (#[trigger] sp[j]).0 < sp[j].1,
                forall|j: int| 0 <= j < sp.len() ==> #[trigger] es[j] == (
                    ContentView::Cloze {
                        text: text_out@,
                        start: sp[j].0 as usize,
                        end: (sp[j].1 - 1) as usize,
                    },
                    start_line as int,
                    end_line as int,
                ),
                self.extends(cards@, old_cards, es.subrange(0, k as int)),
            decreases spans@.len() - k,
        {
            let (s0, e0) = spans[k];
            assert(sp[k as int] == (s0 as int, e0 as int));
            let c = self.card((start_line, end_line), CardContent::Cloze { text: text_out.clone(), start: s0, end: e0 - 1 });
            let ghost before = cards@;
            cards.push(c);
            proof {
                let es2 = es.subrange(0, k + 1);
                assert forall|i: int| 0 <= i < es2.len() implies self.made(#[trigger] cards@[old_cards.len() + i], es2[i]) by {
                    if i < k {
                        assert(es2[i] == es.subrange(0, k as int)[i]);
                        assert(cards@[old_cards.len() + i] == before[old_cards.len() + i]);
                    } else {
                        assert(es2[i] == es[k as int]);
                    }
                }
            }
            k = k + 1;
        }
        assert(es.subrange(0, k as int) =~= es);
        Ok(())
    }

    fn parse_line(&self, state: State, line: Line, line_num: usize, cards: &mut Vec<Card>) -> (r: Result<State, ParserError>)
        ensures
            match step(state@, line@, line_num as int) {
                Ok((s2, more)) => r matches Ok(ns) && ns@ == s2 && self.extends(final(cards)@, old(cards)@, more),
                Err(f) => r matches Err(e) && self.reports(e, f) && final(cards)@ == old(cards)@,
            },
    {
        proof {
            assert(self.extends(cards@, cards@, seq![]));
        }
        match state {
            State::Initial => match line {
                Line::StartQuestion(q) => Ok(State::ReadingQuestion { question: q, start_line: line_num }),
                Line::StartAnswer(_) => Err(self.error(ParseErrorKind::AnswerWithoutQuestion, line_num)),
                Line::StartCloze(t) => Ok(State::ReadingCloze { text: t, start_line: line_num }),
                Line::Separator => Ok(State::Initial),
                Line::Text(_) => Ok(State::Initial),
            },
            State::ReadingQuestion { question, start_line } => match line {
                Line::StartQuestion(_) => Err(self.error(ParseErrorKind::QuestionWithoutAnswer, line_num)),
                Line::StartAnswer(a) => Ok(State::ReadingAnswer { question, answer: a, start_line }),
                Line::StartCloze(_) => Err(self.error(ParseErrorKind::ClozeInQuestion, line_num)),
                Line::Separator => Err(self.error(ParseErrorKind::SeparatorInQuestion, line_num)),
                Line::Text(t) => Ok(State::ReadingQuestion { question: append_line(question, t.as_str()), start_line }),
            },
            State::ReadingAnswer { question, answer, start_line } => match line {
                Line::StartQuestion(q) => {
                    self.push_basic(question, answer, start_line, line_num, cards);
                    Ok(State::ReadingQuestion { question: q, start_line: line_num })
                },
                Line::StartAnswer(_) => Err(self.error(ParseErrorKind::AnswerInAnswer, line_num)),
                Line::StartCloze(t) => {
                    self.push_basic(question, answer, start_line, line_num, cards);
                    Ok(State::ReadingCloze { text: t, start_line: line_num })
                },
                Line::Separator => {
                    self.push_basic(question, answer, start_line, line_num, cards);
                    Ok(State::Initial)
                },
                Line::Text(t) => Ok(State::ReadingAnswer { question, answer: append_line(answer, t.as_str()), start_line }),
            },
            State::ReadingCloze { text, start_line } => match line {
                Line::StartQuestion(q) => {
                    self.parse_cloze_cards(text, start_line, line_num, cards)?;
                    Ok(State::ReadingQuestion { question: q, start_line: line_num })
                },
                Line::StartAnswer(_) => Err(self.error(ParseErrorKind::AnswerInCloze, line_num)),
                Line::StartCloze(t) => {
                    self.parse_cloze_cards(text, start_line, line_num, cards)?;
                    Ok(State::ReadingCloze { text: t, start_line: line_num })
                },
                Line::Separator => {
                    self.parse_cloze_cards(text, start_line, line_num, cards)?;
                    Ok(State::Initial)
                },
                Line::Text(t) => Ok(State::ReadingCloze { text: append_line(text, t.as_str()), start_line }),
            },
        }
    }

    fn finalize(&self, state: State, last_line: usize, cards: &mut Vec<Card>) -> (r: Result<(), ParserError>)
        ensures
            match finish(state@, last_line as int) {
                Ok(more) => r is Ok && self.extends(final(cards)@, old(cards)@, more),
                Err(f) => r matches Err(e) && self.reports(e, f) && final(cards)@ == old(cards)@,
            },
    {
        proof {
            assert(self.extends(cards@, cards@, seq![]));
        }
        match state {
            State::Initial => Ok(()),
            State::ReadingQuestion { .. } => Err(self.error(ParseErrorKind::UnfinishedQuestion, last_line)),
            State::ReadingAnswer { question, answer, start_line } => {
                self.push_basic(question, answer, start_line, last_line, cards);
                Ok(())
            },
            State::ReadingCloze { text, start_line } => self.parse_cloze_cards(text, start_line, last_line, cards),
        }
    }
}

impl Parser {
    /// Keeps, of each hash, the first card.
    fn dedup_cards(&self, cards: Vec<Card>, Ghost(es): Ghost<Seq<Emitted>>) -> (r: Vec<Card>)
        requires
            self.made_all(cards@, es),
        ensures
            self.made_all(r@, dedup(es)),
    {
        let total = cards.len();
        let mut rest = cards;
        let mut unique: Vec<Card> = Vec::new();
        let ghost n = es.len() as int;
        let mut k: usize = 0;
        while rest.len() > 0
            invariant
                n == es.len(),
                n == total,
                k <= n,
                rest@.len() == n - k,
                forall|i: int| 0 <= i < rest@.len() ==> self.made(#[trigger] rest@[i], es[k + i]),
                self.made_all(unique@, dedup(es.subrange(0, k as int))),
            decreases rest@.len(),
        {
            let ghost before = rest@;
            assert(self.made(before[0], es[k + 0]));
            let c = rest.remove(0);
            let h = c.hash();
            let ghost d = dedup(es.subrange(0, k as int));
            let mut seen = false;
            let mut j: usize = 0;
            while j < unique.len()
                invariant
                    j <= unique@.len(),
                    self.made_all(unique@, d),
                    h@ == content_hash(es[k as int].0),
                    seen == exists|i: int| 0 <= i < j && content_hash(#[trigger] d[i].0) == content_hash(es[k as int].0),
                decreases unique@.len() - j,
            {
                assert(self.made(unique@[j as int], d[j as int]));
                if unique[j].hash().same(&h) {
                    seen = true;
                }
                j = j + 1;
            }
            proof {
                let s2 = es.subrange(0, k + 1);
                assert(s2.drop_last() =~= es.subrange(0, k as int));
                assert(s2.last() == es[k as int]);
            }
            if !seen {
                unique.push(c);
            }
            proof {
                assert forall|i: int| 0 <= i < rest@.len() implies self.made(#[trigger] rest@[i], es[k + 1 + i]) by {
                    assert(rest@[i] == before[i + 1]);
                    assert(self.made(before[i + 1], es[k + (i + 1)]));
                }
            }
            k = k + 1;
        }
        assert(es.subrange(0, n) =~= es);
        unique
    }
}

impl Parser {
    /// Parses all the cards in `text`: the cards in the order the file gives
    /// them, of each hash only the first, or the first error.
    pub fn parse(&self, text: &str) -> (r: Result<Vec<Card>, ParserError>)
        ensures
            match parse_text(text@) {
                Ok(es) => r matches Ok(cs) && self.made_all(cs@, es),
                Err(f) => r matches Err(e) && self.reports(e, f),
            },
    {
        let lines = split_lines(text);
        let ghost kinds = line_kinds(text@);
        let n = lines.len();
        let last_line: usize = if n == 0 { 0 } else { n - 1 };
        let mut cards: Vec<Card> = Vec::new();
        let mut state = State::Initial;
        let ghost mut out: Seq<Emitted> = seq![];
        let mut k: usize = 0;
        while k < n
            invariant
                n == lines@.len(),
                kinds.len() == n,
                kinds == line_kinds(text@),
                forall|i: int| 0 <= i < n ==> #[trigger] lines@[i]@ == text_lines(text@)[i],
                k <= n,
                run(kinds, k as int) == Ok::<(StateView, Seq<Emitted>), Failure>((state@, out)),
                self.made_all(cards@, out),
            decreases n - k,
        {
            let line = Line::read(lines[k]);
            assert(line@ == kinds[k as int]);
            let ghost before = cards@;
            match self.parse_line(state, line, k, &mut cards) {
                Ok(s) => {
                    proof {
                        let more = step(out_state(run(kinds, k as int)), kinds[k as int], k as int)->Ok_0.1;
                        assert forall|i: int| 0 <= i < cards@.len() implies self.made(#[trigger] cards@[i], (out + more)[i]) by {
                            if i >= before.len() {
                                assert(cards@[before.len() + (i - before.len())] == cards@[i]);
                            }
                        }
                        out = out + more;
                    }
                    state = s;
                },
                Err(e) => {
                    proof {
                        lemma_run_err(kinds, k + 1, n as int, (e.kind, e.line_num as int));
                    }
                    return Err(e);
                },
            }
            k = k + 1;
        }
        let ghost before = cards@;
        match self.finalize(state, last_line, &mut cards) {
            Ok(()) => {},
            Err(e) => {
                return Err(e);
            },
        }
        let ghost all = out + finish(out_state(run(kinds, n as int)), last_line as int)->Ok_0;
        proof {
            assert forall|i: int| 0 <= i < cards@.len() implies self.made(#[trigger] cards@[i], all[i]) by {
                if i >= before.len() {
                    assert(cards@[before.len() + (i - before.len())] == cards@[i]);
                }
            }
        }
        Ok(self.dedup_cards(cards, Ghost(all)))
    }
}

/// The state in a successful run.
pub open spec fn out_state(r: Result<(StateView, Seq<Emitted>), Failure>) -> StateView {
    match r {
        Ok((s, _)) => s,
        Err(_) => StateView::Initial,
    }
}

/// After the per-file deduplication no two cards share a hash, and every
/// hash of the emitted cards is still there.
pub proof fn lemma_dedup_unique(cs: Seq<Emitted>)
    ensures
        forall|i: int, j: int|
            0 <= i < j < dedup(cs).len() ==> content_hash((#[trigger] dedup(cs)[i]).0) != content_hash(
                (#[trigger] dedup(cs)[j]).0,
            ),
        forall|i: int|
            0 <= i < cs.len() ==> exists|k: int|
                0 <= k < dedup(cs).len() && content_hash((#[trigger] dedup(cs)[k]).0) == content_hash(
                    (#[trigger] cs[i]).0,
                ),
    decreases cs.len(),
{
    if cs.len() > 0 {
        let prev = cs.drop_last();
        lemma_dedup_unique(prev);
        let d = dedup(prev);
        let r = dedup(cs);
        let last = cs.last();
        assert forall|i: int| 0 <= i < cs.len() implies exists|k: int|
            0 <= k < r.len() && content_hash((#[trigger] r[k]).0) == content_hash((#[trigger] cs[i]).0) by {
            if i < prev.len() {
                assert(cs[i] == prev[i]);
                let k = choose|k: int| 0 <= k < d.len() && content_hash((#[trigger] d[k]).0) == content_hash((#[trigger] prev[i]).0);
                assert(r[k] == d[k]);
            } else if exists|j: int| 0 <= j < d.len() && content_hash(#[trigger] d[j].0) == content_hash(last.0) {
                let k = choose|j: int| 0 <= j < d.len() && content_hash(#[trigger] d[j].0) == content_hash(last.0);
                assert(r[k] == d[k]);
            } else {
                assert(r[d.len() as int] == last);
            }
        }
    }
}

proof fn lemma_spans_within(b: Seq<u8>, toks: Seq<(int, int, bool)>)
    requires
        forall|k: int| 0 <= k < toks.len() ==> 0 <= (#[trigger] toks[k]).0 <= toks[k].1 <= b.len(),
    ensures
        forall|k: int| 0 <= k < spans_of(b, toks).len() ==> (#[trigger] spans_of(b, toks)[k]).1 <= clean_of(b, toks).len(),
    decreases toks.len(),
{
    if toks.len() > 0 {
        let prev = toks.drop_last();
        assert forall|k: int| 0 <= k < prev.len() implies 0 <= (#[trigger] prev[k]).0 <= prev[k].1 <= b.len() by {
            assert(prev[k] == toks[k]);
        }
        lemma_spans_within(b, prev);
        let t = toks.last();
        assert(t == toks[toks.len() - 1]);
        let sp = spans_of(b, prev);
        let all = spans_of(b, toks);
        assert(clean_of(b, toks).len() == clean_of(b, prev).len() + (t.1 - t.0));
        assert forall|k: int| 0 <= k < all.len() implies (#[trigger] all[k]).1 <= clean_of(b, toks).len() by {
            if k < sp.len() {
                assert(all[k] == sp[k]);
            }
        }
    }
}

/// Each card of a cloze block marks a deletion inside its own text: start
/// at most end, and end before the text's last byte.
pub proof fn lemma_cloze_spans_in_text(text: Seq<char>, start: int, end: int)
    requires
        clean_text(passage_bytes(text)).len() <= usize::MAX,
    ensures
        cloze_cards(text, start, end) matches Ok(cs) ==> forall|i: int|
            0 <= i < cs.len() ==> match (#[trigger] cs[i]).0 {
                ContentView::Cloze { text: t, start: s, end: e } => s <= e && (e as int) < encode_utf8(t).len(),
                ContentView::Basic { .. } => false,
            },
{
    let b = passage_bytes(text);
    let spans = deletion_spans(b);
    let clean = clean_text(b);
    if cloze_cards(text, start, end) is Ok {
        lemma_tokens_bounded(b, 0);
        lemma_spans_ordered(b, tokens(b));
        lemma_spans_within(b, tokens(b));
        vstd::utf8::encode_utf8_valid_utf8(trim_spec(text));
        lemma_clean_text_valid(b);
        vstd::utf8::decode_utf8_encode_utf8(clean);
        let cs = cloze_cards(text, start, end)->Ok_0;
        assert forall|i: int| 0 <= i < cs.len() implies match (#[trigger] cs[i]).0 {
            ContentView::Cloze { text: t, start: s, end: e } => s <= e && (e as int) < encode_utf8(t).len(),
            ContentView::Basic { .. } => false,
        } by {
            assert(spans[i].0 != spans[i].1);
            assert(cs[i] == (
                ContentView::Cloze {
                    text: decode_utf8(clean),
                    start: spans[i].0 as usize,
                    end: (spans[i].1 - 1) as usize,
                },
                start,
                end,
            ));
            assert(0 <= spans[i].0 < spans[i].1 <= clean.len());
        }
    }
}

} // verus!
