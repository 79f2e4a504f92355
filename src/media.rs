//! The media files that cards refer to: the image destinations in their
//! Markdown text, each with the card it came from.
use std::path::PathBuf;
use vstd::prelude::*;
use vstd::string::StrSliceExecFns;
use crate::card::Card;
use crate::card::CardContent;
use crate::card::ContentView;
use crate::parser::decimal;
use crate::parser::decimal_string;
use crate::parser::path_text;

verus! {

/// The destination of each image in a Markdown text, in document order, as
/// CommonMark reads the text.
pub uninterp spec fn image_destinations(markdown: Seq<char>) -> Seq<Seq<char>>;

/// Relies on `pulldown_cmark::Parser`: of its events, the start of each
/// image, whose destination is taken.
#[verifier::external_body]
fn extract_media_paths(markdown: &str) -> (r: Vec<String>)
    ensures
        r@.len() == image_destinations(markdown@).len(),
        forall|i: int| 0 <= i < r@.len() ==> #[trigger] r@[i]@ == image_destinations(markdown@)[i],
{
    let mut paths = Vec::new();
    for event in pulldown_cmark::Parser::new(markdown) {
        if let pulldown_cmark::Event::Start(pulldown_cmark::Tag::Image { dest_url, .. }) = event {
            paths.push(dest_url.to_string());
        }
    }
    paths
}

/// A media file named by a card: the name as written, and the card's file
/// and lines.
#[derive(Debug)]
pub struct MissingMedia {
    pub file_path: String,
    pub card_file: PathBuf,
    pub card_lines: (usize, usize),
}

/// The Markdown texts of a card: question and answer, or the cloze passage.
pub open spec fn card_texts(c: ContentView) -> Seq<Seq<char>> {
    match c {
        ContentView::Basic { question, answer } => seq![question, answer],
        ContentView::Cloze { text, .. } => seq![text],
    }
}

/// The image destinations of some texts, one text after another.
pub open spec fn destinations_of(texts: Seq<Seq<char>>) -> Seq<Seq<char>>
    decreases texts.len(),
{
    if texts.len() == 0 {
        seq![]
    } else {
        destinations_of(texts.drop_last()) + image_destinations(texts.last())
    }
}

/// The references of some cards: for each card in order, each image
/// destination of its texts, with the card's file and lines.
pub open spec fn references_of(cards: Seq<Card>) -> Seq<(Seq<char>, PathBuf, (usize, usize))>
    decreases cards.len(),
{
    if cards.len() == 0 {
        seq![]
    } else {
        let c = cards.last();
        references_of(cards.drop_last()) + destinations_of(card_texts(c.spec_content())).map_values(
            |d: Seq<char>| (d, c.spec_file_path(), c.spec_range()),
        )
    }
}

/// A reference as characters, file and lines.
pub open spec fn reference_view(m: MissingMedia) -> (Seq<char>, PathBuf, (usize, usize)) {
    (m.file_path@, m.card_file, m.card_lines)
}

fn push_references(out: &mut Vec<MissingMedia>, markdown: &str, card: &Card)
    ensures
        final(out)@.map_values(|m: MissingMedia| reference_view(m)) == old(out)@.map_values(
            |m: MissingMedia| reference_view(m),
        ) + image_destinations(markdown@).map_values(
            |d: Seq<char>| (d, card.spec_file_path(), card.spec_range()),
        ),
{
    let paths = extract_media_paths(markdown);
    let ghost ds = image_destinations(markdown@);
    let ghost start = out@.map_values(|m: MissingMedia| reference_view(m));
    let mut i: usize = 0;
    while i < paths.len()
        invariant
            i <= paths@.len(),
            paths@.len() == ds.len(),
            forall|k: int| 0 <= k < paths@.len() ==> #[trigger] paths@[k]@ == ds[k],
            out@.map_values(|m: MissingMedia| reference_view(m)) == start + ds.subrange(0, i as int).map_values(
                |d: Seq<char>| (d, card.spec_file_path(), card.spec_range()),
            ),
        decreases paths@.len() - i,
    {
        let m = MissingMedia {
            file_path: paths[i].clone(),
            card_file: card.file_path().clone(),
            card_lines: card.range(),
        };
        let ghost before = out@;
        out.push(m);
        assert(out@.map_values(|m: MissingMedia| reference_view(m)) =~= before.map_values(
            |m: MissingMedia| reference_view(m),
        ).push(reference_view(m)));
        assert(ds.subrange(0, i + 1).map_values(|d: Seq<char>| (d, card.spec_file_path(), card.spec_range()))
            =~= ds.subrange(0, i as int).map_values(|d: Seq<char>| (d, card.spec_file_path(), card.spec_range())).push(
            (ds[i as int], card.spec_file_path(), card.spec_range()),
        ));
        i = i + 1;
    }
    assert(ds.subrange(0, i as int) =~= ds);
}

/// Every media reference of the cards, in card order, each with its card's
/// file and lines.
pub fn media_references(cards: &[Card]) -> (r: Vec<MissingMedia>)
    ensures
        r@.map_values(|m: MissingMedia| reference_view(m)) == references_of(cards@),
{
    let mut out: Vec<MissingMedia> = Vec::new();
    let mut k: usize = 0;
    assert(out@.map_values(|m: MissingMedia| reference_view(m)) =~= references_of(cards@.subrange(0, 0)));
    while k < cards.len()
        invariant
            k <= cards@.len(),
            out@.map_values(|m: MissingMedia| reference_view(m)) == references_of(cards@.subrange(0, k as int)),
        decreases cards@.len() - k,
    {
        let card = &cards[k];
        let ghost texts = card_texts(card.spec_content());
        let ghost f = |d: Seq<char>| (d, card.spec_file_path(), card.spec_range());
        match card.content() {
            CardContent::Basic { question, answer } => {
                push_references(&mut out, question.as_str(), card);
                push_references(&mut out, answer.as_str(), card);
                proof {
                    let t1 = texts.drop_last();
                    assert(t1.drop_last() =~= Seq::<Seq<char>>::empty());
                    assert(destinations_of(t1.drop_last()) == Seq::<Seq<char>>::empty());
                    assert(destinations_of(t1) == destinations_of(t1.drop_last()) + image_destinations(t1.last()));
                    assert(t1.last() == texts[0]);
                    assert(destinations_of(t1) =~= image_destinations(texts[0]));
                    assert(destinations_of(texts) == destinations_of(t1) + image_destinations(texts.last()));
                    assert(destinations_of(texts) =~= image_destinations(texts[0]) + image_destinations(texts[1]));
                    assert((image_destinations(texts[0]) + image_destinations(texts[1])).map_values(f) =~= image_destinations(texts[0]).map_values(f) + image_destinations(texts[1]).map_values(f));
                }
            },
            CardContent::Cloze { text, .. } => {
                push_references(&mut out, text.as_str(), card);
                proof {
                    assert(texts.drop_last() =~= Seq::<Seq<char>>::empty());
                    assert(destinations_of(texts.drop_last()) == Seq::<Seq<char>>::empty());
                    assert(destinations_of(texts) == destinations_of(texts.drop_last()) + image_destinations(texts.last()));
                    assert(destinations_of(texts) =~= image_destinations(texts[0]));
                }
            },
        }
        proof {
            let next = cards@.subrange(0, k + 1);
            assert(next.drop_last() =~= cards@.subrange(0, k as int));
            assert(next.last() == cards@[k as int]);
        }
        k = k + 1;
    }
    assert(cards@.subrange(0, k as int) =~= cards@);
    out
}

/// A reference names an external resource: it holds a scheme separator `://`.
pub open spec fn is_external_spec(path: Seq<char>) -> bool {
    exists|i: int| 0 <= i && i + 3 <= path.len() && #[trigger] path[i] == ':' && path[i + 1] == '/' && path[i + 2] == '/'
}

/// Whether a media reference is a URL rather than a file of the collection.
pub fn is_external(path: &str) -> (r: bool)
    ensures
        r == is_external_spec(path@),
{
    let n = path.unicode_len();
    if n < 3 {
        return false;
    }
    let mut i: usize = 0;
    while i <= n - 3
        invariant
            n == path@.len(),
            n >= 3,
            forall|j: int| 0 <= j < i && j + 3 <= n ==> !(#[trigger] path@[j] == ':' && path@[j + 1] == '/' && path@[j + 2] == '/'),
        decreases n - i,
    {
        if path.get_char(i) == ':' && path.get_char(i + 1) == '/' && path.get_char(i + 2) == '/' {
            return true;
        }
        i = i + 1;
    }
    false
}

/// The line of the report for one missing file, given how its card's file
/// path reads.
pub open spec fn report_line(m: MissingMedia, path: Seq<char>) -> Seq<char> {
    "  - "@ + m.file_path@ + " (referenced in "@ + path + ":"@ + decimal(m.card_lines.0 as nat) + ")\n"@
}

/// The report lines of the missing files, in order.
pub open spec fn report_lines(ms: Seq<MissingMedia>, paths: Seq<Seq<char>>) -> Seq<char>
    decreases ms.len(),
{
    if ms.len() == 0 || paths.len() == 0 {
        seq![]
    } else {
        report_lines(ms.drop_last(), paths.drop_last()) + report_line(ms.last(), paths.last())
    }
}

/// The report of media files that are missing: nothing if none is, else a
/// heading and one line per file, in the order given.
pub fn missing_media_report(missing: &[MissingMedia]) -> (r: Option<String>)
    ensures
        r is None <==> missing@.len() == 0,
        r matches Some(msg) ==> exists|paths: Seq<Seq<char>>|
            paths.len() == missing@.len() && msg@ == "Missing media files referenced in cards:\n"@ + report_lines(
                missing@,
                paths,
            ),
{
    if missing.len() == 0 {
        return None;
    }
    let mut msg = "Missing media files referenced in cards:\n".to_owned();
    let ghost head = msg@;
    let ghost mut paths: Seq<Seq<char>> = seq![];
    let mut i: usize = 0;
    while i < missing.len()
        invariant
            i <= missing@.len(),
            paths.len() == i,
            msg@ == head + report_lines(missing@.subrange(0, i as int), paths),
        decreases missing@.len() - i,
    {
        let m = &missing[i];
        msg.append("  - ");
        msg.append(m.file_path.as_str());
        msg.append(" (referenced in ");
        let path = path_text(&m.card_file);
        msg.append(path.as_str());
        msg.append(":");
        let line = decimal_string(m.card_lines.0 as u128);
        msg.append(line.as_str());
        msg.append(")\n");
        proof {
            let next = missing@.subrange(0, i + 1);
            let np = paths.push(path@);
            assert(next.drop_last() =~= missing@.subrange(0, i as int));
            assert(np.drop_last() =~= paths);
            assert(next.last() == missing@[i as int]);
            assert(msg@ =~= head + report_lines(next, np));
            paths = np;
        }
        i = i + 1;
    }
    assert(missing@.subrange(0, i as int) =~= missing@);
    Some(msg)
}

} // verus!
