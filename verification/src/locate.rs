//! The verse-content locator: walks a forward-only stream of verse events —
//! a boundary carrying a verse identifier such as `John.3.16`, or text
//! content — and collects the text of every verse a resolved reference asks
//! for, in document order and in a single pass.

use vstd::prelude::*;

use crate::parse::{Reference, ReferenceParseResult, ReferenceParseResultType};
use crate::text;

verus! {

/// One event of a verse-tagged source document, in document order.
#[derive(Debug, PartialEq)]
pub enum VerseEvent {
    /// A verse boundary with the verse's identifier.
    VerseStart(String),
    /// Text content; a verse's text immediately follows its boundary.
    Content(String),
}

/// The identifier a verse is expected to carry:
/// `{book}.{chapter}.{number}`.
pub open spec fn verse_id_chars(book: Seq<char>, chapter: u8, number: u8) -> Seq<char> {
    book + seq!['.'] + text::dec_chars(chapter as nat) + seq!['.'] + text::dec_chars(number as nat)
}

/// The error reported when a verse boundary is not immediately followed by
/// its content.
pub open spec fn content_missing_msg() -> Seq<char> {
    "Failed to parse verse content. Expected verse content to follow verse start element."@
}

/// The error reported when the stream ends before every expected verse was
/// found.
pub open spec fn stream_ended_msg() -> Seq<char> {
    "Failed to find all expected verses before the source ended."@
}

/// Walking the stream from `idx` for the verses `n` to `to` of the given
/// book and chapter: events are skipped until a boundary carries the next
/// expected identifier; its content must follow immediately and is
/// collected; the walk ends once every expected verse was found, and fails
/// if content is missing or the stream ends first.
pub open spec fn walk_spec(
    events: Seq<VerseEvent>,
    idx: int,
    book: Seq<char>,
    chapter: u8,
    n: int,
    to: int,
) -> Result<Seq<(u8, u8, Seq<char>)>, Seq<char>>
    decreases events.len() - idx,
{
    if n > to {
        Ok(Seq::empty())
    } else if idx < 0 || idx >= events.len() {
        Err(stream_ended_msg())
    } else {
        match events[idx] {
            VerseEvent::VerseStart(id) => if id@ == verse_id_chars(book, chapter, n as u8) {
                if idx + 1 < events.len() {
                    match events[idx + 1] {
                        VerseEvent::Content(c) => match walk_spec(
                            events,
                            idx + 2,
                            book,
                            chapter,
                            n + 1,
                            to,
                        ) {
                            Ok(rest) => Ok(seq![(chapter, n as u8, c@)] + rest),
                            Err(e) => Err(e),
                        },
                        _ => Err(content_missing_msg()),
                    }
                } else {
                    Err(content_missing_msg())
                }
            } else {
                walk_spec(events, idx + 1, book, chapter, n, to)
            },
            _ => walk_spec(events, idx + 1, book, chapter, n, to),
        }
    }
}

/// What locating a reference's content in a stream yields: only a verse
/// range reads the stream; every other reference shape yields no verses.
pub open spec fn locate_spec(events: Seq<VerseEvent>, p: ReferenceParseResult) -> Result<
    Seq<(u8, u8, Seq<char>)>,
    Seq<char>,
> {
    match p.reference_type {
        ReferenceParseResultType::VerseFromTo { number_from, number_to } => walk_spec(
            events,
            0,
            p.book_name@,
            p.chapter,
            number_from as int,
            number_to as int,
        ),
        _ => Ok(Seq::empty()),
    }
}

/// The view of collected verses, for stating what the locator returned.
pub open spec fn refs_view(list: Seq<Reference>) -> Seq<(u8, u8, Seq<char>)> {
    list.map_values(|r: Reference| (r.chapter, r.number, r.content@))
}

/// A successful walk is complete: one verse for every expected number, in
/// ascending order, never a partial list.
pub proof fn lemma_walk_complete(
    events: Seq<VerseEvent>,
    idx: int,
    book: Seq<char>,
    chapter: u8,
    n: int,
    to: int,
)
    requires
        to <= 255,
    ensures
        walk_spec(events, idx, book, chapter, n, to) matches Ok(rest) ==> {
            &&& rest.len() == if n > to {
                0
            } else {
                to - n + 1
            }
            &&& forall|m: int|
                0 <= m < rest.len() ==> #[trigger] rest[m] == (
                    chapter,
                    (n + m) as u8,
                    rest[m].2,
                )
        },
    decreases events.len() - idx,
{
    if n > to {
    } else if idx < 0 || idx >= events.len() {
    } else {
        match events[idx] {
            VerseEvent::VerseStart(id) => {
                if id@ == verse_id_chars(book, chapter, n as u8) {
                    if idx + 1 < events.len() {
                        match events[idx + 1] {
                            VerseEvent::Content(c) => {
                                lemma_walk_complete(events, idx + 2, book, chapter, n + 1, to);
                            },
                            _ => {},
                        }
                    }
                } else {
                    lemma_walk_complete(events, idx + 1, book, chapter, n, to);
                }
            },
            _ => {
                lemma_walk_complete(events, idx + 1, book, chapter, n, to);
            },
        }
    }
}

/// Builds the identifier a verse is expected to carry.
fn make_verse_id(book: &str, chapter: u8, number: u8) -> (r: String)
    ensures
        r@ == verse_id_chars(book@, chapter, number),
{
    let mut v = text::str_chars(book);
    v.push('.');
    let c = text::u8_to_dec_chars(chapter);
    text::push_all(&mut v, &c);
    v.push('.');
    let n = text::u8_to_dec_chars(number);
    text::push_all(&mut v, &n);
    proof {
        assert(v@ =~= verse_id_chars(book@, chapter, number));
    }
    text::chars_to_string(&v)
}

/// Finds the verse content a resolved reference asks for in a verse-tagged
/// event stream.
///
/// Only a verse-range reference reads the stream: its verses are collected
/// in document order, each boundary's content expected to follow it
/// immediately. Every other reference shape yields an empty result. A
/// stream that ends before all expected verses were found is an error, not
/// a partial list.
pub fn find_content_in_source(events: &Vec<VerseEvent>, parse_result: &ReferenceParseResult) -> (r:
    Result<Vec<Reference>, String>)
    ensures
        match r {
            Ok(list) => locate_spec(events@, *parse_result) == Ok::<_, Seq<char>>(
                refs_view(list@),
            ),
            Err(e) => locate_spec(events@, *parse_result) == Err::<Seq<(u8, u8, Seq<char>)>, _>(
                e@,
            ),
        },
{
    let (number_from, number_to) = match parse_result.reference_type {
        ReferenceParseResultType::VerseFromTo { number_from, number_to } => (
            number_from,
            number_to,
        ),
        _ => {
            proof {
                assert(refs_view(Seq::<Reference>::empty()) =~= Seq::<(u8, u8, Seq<char>)>::empty());
            }
            return Ok(Vec::new());
        },
    };
    let book = parse_result.book_name;
    let chapter = parse_result.chapter;
    let mut collected: Vec<Reference> = Vec::new();
    let mut idx: usize = 0;
    let mut n = number_from;
    proof {
        assert(refs_view(Seq::<Reference>::empty()) =~= Seq::<(u8, u8, Seq<char>)>::empty());
    }
    if n > number_to {
        return Ok(collected);
    }
    proof {
        match walk_spec(events@, 0, book@, chapter, n as int, number_to as int) {
            Ok(rest) => {
                assert(refs_view(collected@) + rest =~= rest);
            },
            Err(e) => {},
        }
    }
    loop
        invariant
            number_from <= n <= number_to,
            idx <= events@.len(),
            book@ == parse_result.book_name@,
            chapter == parse_result.chapter,
            parse_result.reference_type == (ReferenceParseResultType::VerseFromTo {
                number_from,
                number_to,
            }),
            match walk_spec(events@, idx as int, book@, chapter, n as int, number_to as int) {
                Ok(rest) => locate_spec(events@, *parse_result) == Ok::<_, Seq<char>>(
                    refs_view(collected@) + rest,
                ),
                Err(e) => locate_spec(events@, *parse_result) == Err::<
                    Seq<(u8, u8, Seq<char>)>,
                    _,
                >(e),
            },
        decreases events@.len() - idx,
    {
        if idx >= events.len() {
            return Err(stream_ended_message());
        }
        let is_match = match &events[idx] {
            VerseEvent::VerseStart(id) => {
                let expected = make_verse_id(book, chapter, n);
                text::str_eq(id.as_str(), expected.as_str())
            },
            _ => false,
        };
        if is_match {
            if idx + 1 >= events.len() {
                return Err(content_missing_message());
            }
            let content = match &events[idx + 1] {
                VerseEvent::Content(c) => c.clone(),
                _ => {
                    return Err(content_missing_message());
                },
            };
            let ghost prior = collected@;
            let ghost t = (chapter, n, content@);
            collected.push(Reference { chapter, number: n, content });
            proof {
                assert(refs_view(collected@) =~= refs_view(prior) + seq![t]);
            }
            if n == number_to {
                proof {
                    let rest2 = walk_spec(
                        events@,
                        idx + 2,
                        book@,
                        chapter,
                        n as int + 1,
                        number_to as int,
                    );
                    assert(rest2 == Ok::<Seq<(u8, u8, Seq<char>)>, Seq<char>>(Seq::empty()));
                    assert(seq![t] + Seq::<(u8, u8, Seq<char>)>::empty() =~= seq![t]);
                    assert(refs_view(prior) + seq![t] =~= refs_view(collected@));
                }
                return Ok(collected);
            }
            proof {
                match walk_spec(
                    events@,
                    idx + 2,
                    book@,
                    chapter,
                    n as int + 1,
                    number_to as int,
                ) {
                    Ok(rest) => {
                        assert(refs_view(prior) + (seq![t] + rest) =~= refs_view(collected@)
                            + rest);
                    },
                    Err(e) => {},
                }
            }
            n = n + 1;
            idx = idx + 2;
        } else {
            idx = idx + 1;
        }
    }
}

/// The owned form of [`content_missing_msg`].
fn content_missing_message() -> (r: String)
    ensures
        r@ == content_missing_msg(),
{
    String::from_str(
        "Failed to parse verse content. Expected verse content to follow verse start element.",
    )
}

/// The owned form of [`stream_ended_msg`].
fn stream_ended_message() -> (r: String)
    ensures
        r@ == stream_ended_msg(),
{
    String::from_str("Failed to find all expected verses before the source ended.")
}

} // verus!
