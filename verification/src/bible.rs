//! The book registry and the strict, registry-validating reference parser:
//! book identifiers, text (locale) identifiers, resolved references and their
//! rendering, and discovery of reference-shaped substrings in free text.

use vstd::prelude::*;

use crate::books;
use crate::text;

pub use crate::scan::ReferenceMatch;
pub use crate::scan::find_reference_matches_in;
pub use crate::scan::replace_reference_matches_in;

verus! {

/// A canonical book of the Bible, in canonical order from the Old Testament
/// to the New Testament.
#[derive(Clone, Copy, Debug, Hash, Eq, PartialEq, Structural)]
pub enum BookId {
    Genesis,
    Exodus,
    Leviticus,
    Numbers,
    Deuteronomy,
    Matthew,
    John,
}

/// A text containing Bible content: a specific published edition or
/// translation. It determines which book abbreviations and chapter counts
/// apply.
#[derive(Clone, Copy, Debug, Eq, Hash, PartialEq, Structural)]
pub enum TextId {
    EnLSB,
    FiR1933_38,
}

/// Per-text book information: lookup of the canonical abbreviation and the
/// chapter count, and the sanitize rule applied before abbreviation lookups.
pub struct BookInfo;

impl BookId {
    /// Resolves a sanitized abbreviation to a book identifier for the given
    /// text, by exact match on the sanitized key.
    pub fn find_by_sanitized_abbreviation(text: &TextId, abbreviation: &String) -> (r: Option<
        BookId,
    >)
        ensures
            r == books::book_for_abbrev(*text, abbreviation@),
    {
        let chars = text::str_chars(abbreviation.as_str());
        books::find_book(text, &chars)
    }
}

/// Represents a reference to a Bible passage via a chapter and zero, one or
/// a range of verse numbers, resolved against the registry.
#[derive(Debug)]
pub enum Reference {
    BookChapter(BookId, u8),
    BookChapterNumber(BookId, u8, u8),
    BookChapterNumberFromTo(BookId, u8, u8, u8),
}

impl Reference {
    /// The book this reference points into.
    pub open spec fn spec_book(self) -> BookId {
        match self {
            Reference::BookChapter(b, _) => b,
            Reference::BookChapterNumber(b, _, _) => b,
            Reference::BookChapterNumberFromTo(b, _, _, _) => b,
        }
    }

    /// The chapter this reference points into.
    pub open spec fn spec_chapter(self) -> u8 {
        match self {
            Reference::BookChapter(_, c) => c,
            Reference::BookChapterNumber(_, c, _) => c,
            Reference::BookChapterNumberFromTo(_, c, _, _) => c,
        }
    }

    /// The single verse number of the reference, when it has one.
    pub open spec fn spec_number(self) -> Option<u8> {
        match self {
            Reference::BookChapterNumber(_, _, n) => Some(n),
            _ => None,
        }
    }
}

/// How a reference is displayed under a given text: the book's canonical
/// abbreviation, a space and the chapter, then `:verse` for a single verse
/// and `:from-to` for a verse range.
pub open spec fn render_chars(r: Reference, text: TextId) -> Seq<char> {
    match r {
        Reference::BookChapter(b, c) => books::abbrev_chars(text, b) + seq![' '] + text::dec_chars(
            c as nat,
        ),
        Reference::BookChapterNumber(b, c, n) => books::abbrev_chars(text, b) + seq![' ']
            + text::dec_chars(c as nat) + seq![':'] + text::dec_chars(n as nat),
        Reference::BookChapterNumberFromTo(b, c, f, t) => books::abbrev_chars(text, b) + seq![' ']
            + text::dec_chars(c as nat) + seq![':'] + text::dec_chars(f as nat) + seq!['-']
            + text::dec_chars(t as nat),
    }
}

impl Reference {
    /// The canonical abbreviation of this reference's book in the given text.
    pub fn get_book_abbreviation(&self, text: &TextId) -> (r: &'static str)
        ensures
            r@ == books::abbrev_chars(*text, self.spec_book()),
    {
        let book_id = match self {
            Self::BookChapter(book_id, _) => book_id.clone(),
            Self::BookChapterNumber(book_id, _, _) => book_id.clone(),
            Self::BookChapterNumberFromTo(book_id, _, _, _) => book_id.clone(),
        };
        let book_info = BookInfo::get_by_book_id_and_text(&book_id, text);
        // Book info is always found: the registry holds every book.
        book_info.unwrap().0
    }

    /// The chapter the reference points into.
    #[inline]
    pub fn get_chapter(&self) -> (r: u8)
        ensures
            r == self.spec_chapter(),
    {
        match self {
            Self::BookChapter(_, chapter) => *chapter,
            Self::BookChapterNumber(_, chapter, _) => *chapter,
            Self::BookChapterNumberFromTo(_, chapter, _, _) => *chapter,
        }
    }

    /// The single verse number, if the reference is to one verse.
    #[inline]
    pub fn get_number(&self) -> (r: Option<u8>)
        ensures
            r == self.spec_number(),
    {
        match self {
            Self::BookChapterNumber(_, _, number) => Some(*number),
            _ => None,
        }
    }

    /// Renders the reference as it is displayed under the given text.
    pub fn to_string(&self, text: &TextId) -> (r: String)
        ensures
            r@ == render_chars(*self, *text),
    {
        let v = render_vec(self, text);
        text::chars_to_string(&v)
    }
}

/// Renders a reference into a character vector.
fn render_vec(r: &Reference, text: &TextId) -> (v: Vec<char>)
    ensures
        v@ == render_chars(*r, *text),
{
    let abbreviation = r.get_book_abbreviation(text);
    let mut out = text::str_chars(abbreviation);
    out.push(' ');
    match r {
        Reference::BookChapter(_, chapter) => {
            let d = text::u8_to_dec_chars(*chapter);
            text::push_all(&mut out, &d);
        },
        Reference::BookChapterNumber(_, chapter, number) => {
            let d = text::u8_to_dec_chars(*chapter);
            text::push_all(&mut out, &d);
            out.push(':');
            let n = text::u8_to_dec_chars(*number);
            text::push_all(&mut out, &n);
        },
        Reference::BookChapterNumberFromTo(_, chapter, number_from, number_to) => {
            let d = text::u8_to_dec_chars(*chapter);
            text::push_all(&mut out, &d);
            out.push(':');
            let f = text::u8_to_dec_chars(*number_from);
            text::push_all(&mut out, &f);
            out.push('-');
            let t = text::u8_to_dec_chars(*number_to);
            text::push_all(&mut out, &t);
        },
    }
    proof {
        assert(out@ =~= render_chars(*r, *text));
    }
    out
}

/// What the strict parser makes of a raw reference string under a given
/// text. The trimmed input must consist of exactly two space-separated
/// parts: an abbreviation that the text's sanitized table resolves, and a
/// chapter selector `c`, `c:v`, or `c:v-w`. The chapter must lie within the
/// book's chapter count and a verse range must not be inverted; otherwise
/// the parse yields nothing.
pub open spec fn parse_by_text_spec(s: Seq<char>, t: TextId) -> Option<Reference> {
    let w = text::trim_chars(s);
    let i = text::find_char(w, ' ');
    if i < 0 {
        None
    } else {
        let part0 = w.take(i);
        let part1 = w.skip(i + 1);
        if text::find_char(part1, ' ') >= 0 {
            None
        } else {
            match books::book_for_abbrev(t, text::sanitize_chars(part0)) {
                None => None,
                Some(book) => parse_selector_spec(part1, t, book),
            }
        }
    }
}

/// What the strict parser makes of the chapter-and-verse selector that
/// follows the book name: `c`, `c:v`, or `c:v-w`.
pub open spec fn parse_selector_spec(part1: Seq<char>, t: TextId, book: BookId) -> Option<
    Reference,
> {
    let j = text::find_char(part1, ':');
    if j < 0 {
        match text::parse_u8_chars(part1) {
            None => None,
            Some(c) => if 1 <= c && c <= books::chapter_count(t, book) {
                Some(Reference::BookChapter(book, c))
            } else {
                None
            },
        }
    } else {
        let cpart = part1.take(j);
        let vpart = part1.skip(j + 1);
        if text::find_char(vpart, ':') >= 0 {
            None
        } else {
            match text::parse_u8_chars(cpart) {
                None => None,
                Some(c) => if !(1 <= c && c <= books::chapter_count(t, book)) {
                    None
                } else {
                    let k = text::find_char(vpart, '-');
                    if k < 0 {
                        match text::parse_u8_chars(vpart) {
                            None => None,
                            Some(n) => Some(Reference::BookChapterNumber(book, c, n)),
                        }
                    } else {
                        let fpart = vpart.take(k);
                        let tpart = vpart.skip(k + 1);
                        if text::find_char(tpart, '-') >= 0 {
                            None
                        } else {
                            match (text::parse_u8_chars(fpart), text::parse_u8_chars(tpart)) {
                                (Some(f), Some(to)) => if to >= f {
                                    Some(Reference::BookChapterNumberFromTo(book, c, f, to))
                                } else {
                                    None
                                },
                                _ => None,
                            }
                        }
                    }
                },
            }
        }
    }
}

/// Parses a single reference from a string for a given text of the Bible.
///
/// Parsing takes the number of chapters of the book into consideration: if
/// the given chapter exceeds the number of chapters, or is zero, parsing
/// fails. A verse range whose end is below its start fails as well.
pub fn parse_reference_by_text(reference: &str, text: &TextId) -> (r: Option<Reference>)
    ensures
        r == parse_by_text_spec(reference@, *text),
{
    let chars = text::str_chars(reference);
    parse_reference_by_text_chars(&chars, text)
}

/// Parses one reference given as characters; the working form behind
/// [`parse_reference_by_text`] and [`parse_references_by_text`].
pub(crate) fn parse_reference_by_text_chars(part: &Vec<char>, text: &TextId) -> (r: Option<Reference>)
    ensures
        r == parse_by_text_spec(part@, *text),
{
    let (start, end) = text::trim_bounds(part);
    let w = text::subvec(part, start, end);
    let ghost ws = text::trim_chars(part@);
    proof {
        assert(w@ == ws);
    }
    let sp = text::find_char_from(&w, 0, ' ');
    if sp == w.len() {
        proof {
            text::lemma_find_char_absent(ws, ' ');
        }
        return None;
    }
    proof {
        text::lemma_find_char_at(ws, ' ', sp as int);
    }
    let ghost part1 = ws.skip(sp + 1);
    let sp2 = text::find_char_from(&w, sp + 1, ' ');
    if sp2 < w.len() {
        proof {
            text::lemma_find_char_props(part1, ' ');
            assert(part1[sp2 - sp - 1] == ' ');
        }
        return None;
    }
    proof {
        assert(forall|j: int| 0 <= j < part1.len() ==> #[trigger] part1[j] == ws[j + sp + 1]);
        text::lemma_find_char_absent(part1, ' ');
    }
    let part0 = text::subvec(&w, 0, sp);
    proof {
        assert(part0@ =~= ws.take(sp as int));
    }
    let sanitized = text::sanitize_vec(&part0);
    let book = match books::find_book(text, &sanitized) {
        None => {
            return None;
        },
        Some(b) => b,
    };
    let info = books::book_info(text, &book);
    let count = info.1;
    parse_selector(&w, sp + 1, text, book, count)
}

/// Parses the chapter-and-verse selector in `w` from `from` to the end.
fn parse_selector(w: &Vec<char>, from: usize, text: &TextId, book: BookId, count: u8) -> (r:
    Option<Reference>)
    requires
        from <= w@.len(),
        count == books::chapter_count(*text, book),
    ensures
        r == parse_selector_spec(w@.skip(from as int), *text, book),
{
    let ghost part1 = w@.skip(from as int);
    proof {
        assert(forall|j: int| 0 <= j < part1.len() ==> #[trigger] part1[j] == w@[j + from]);
    }
    let co = text::find_char_from(w, from, ':');
    if co == w.len() {
        // No colon: a chapter-only reference.
        proof {
            text::lemma_find_char_absent(part1, ':');
            assert(part1 =~= w@.subrange(from as int, w@.len() as int));
        }
        let chapter = match text::parse_u8_range(w, from, w.len()) {
            None => {
                return None;
            },
            Some(c) => c,
        };
        if chapter < 1 || chapter > count {
            return None;
        }
        Some(Reference::BookChapter(book, chapter))
    } else {
        proof {
            text::lemma_find_char_at(part1, ':', co - from);
            assert(part1.take(co - from) =~= w@.subrange(from as int, co as int));
        }
        let ghost vpart = part1.skip(co - from + 1);
        proof {
            assert(forall|j: int| 0 <= j < vpart.len() ==> #[trigger] vpart[j] == w@[j + co + 1]);
        }
        let co2 = text::find_char_from(w, co + 1, ':');
        if co2 < w.len() {
            proof {
                text::lemma_find_char_props(vpart, ':');
                assert(vpart[co2 - co - 1] == ':');
            }
            return None;
        }
        proof {
            text::lemma_find_char_absent(vpart, ':');
        }
        let chapter = match text::parse_u8_range(w, from, co) {
            None => {
                return None;
            },
            Some(c) => c,
        };
        if chapter < 1 || chapter > count {
            return None;
        }
        let da = text::find_char_from(w, co + 1, '-');
        if da == w.len() {
            // No dash: a single verse.
            proof {
                text::lemma_find_char_absent(vpart, '-');
                assert(vpart =~= w@.subrange(co + 1, w@.len() as int));
            }
            let number = match text::parse_u8_range(w, co + 1, w.len()) {
                None => {
                    return None;
                },
                Some(n) => n,
            };
            Some(Reference::BookChapterNumber(book, chapter, number))
        } else {
            proof {
                text::lemma_find_char_at(vpart, '-', da - co - 1);
                assert(vpart.take(da - co - 1) =~= w@.subrange(co + 1, da as int));
            }
            let ghost tpart = vpart.skip(da - co);
            proof {
                assert(forall|j: int|
                    0 <= j < tpart.len() ==> #[trigger] tpart[j] == w@[j + da + 1]);
            }
            let da2 = text::find_char_from(w, da + 1, '-');
            if da2 < w.len() {
                proof {
                    text::lemma_find_char_props(tpart, '-');
                    assert(tpart[da2 - da - 1] == '-');
                }
                return None;
            }
            proof {
                text::lemma_find_char_absent(tpart, '-');
                assert(tpart =~= w@.subrange(da + 1, w@.len() as int));
            }
            let number_from = match text::parse_u8_range(w, co + 1, da) {
                None => {
                    return None;
                },
                Some(n) => n,
            };
            let number_to = match text::parse_u8_range(w, da + 1, w.len()) {
                None => {
                    return None;
                },
                Some(n) => n,
            };
            if number_to >= number_from {
                Some(Reference::BookChapterNumberFromTo(book, chapter, number_from, number_to))
            } else {
                None
            }
        }
    }
}

impl BookInfo {
    /// Looks up the canonical abbreviation and the chapter count of a book in
    /// a given text. Every book is present in every text's registry.
    pub fn get_by_book_id_and_text(book_id: &BookId, text: &TextId) -> (r: Option<
        (&'static str, u8),
    >)
        ensures
            r is Some,
            r.unwrap().0@ == books::abbrev_chars(*text, *book_id),
            r.unwrap().1 == books::chapter_count(*text, *book_id),
    {
        Some(books::book_info(text, book_id))
    }

    /// Sanitizes raw abbreviation text for a registry lookup: lower-case,
    /// with every `.` stripped.
    pub fn sanitize(value: &str) -> (r: String)
        ensures
            r@ == text::sanitize_chars(value@),
    {
        let chars = text::str_chars(value);
        let clean = text::sanitize_vec(&chars);
        text::chars_to_string(&clean)
    }
}

} // verus!


verus! {

/// True when a verse-range reference is not inverted; references of the
/// other shapes carry no range and are always valid in this respect.
pub open spec fn range_valid(r: Reference) -> bool {
    match r {
        Reference::BookChapterNumberFromTo(_, _, f, t) => t >= f,
        _ => true,
    }
}

/// The selector part of a rendered reference: what follows the book
/// abbreviation and the separating space.
spec fn selector_chars(r: Reference) -> Seq<char> {
    match r {
        Reference::BookChapter(_, c) => text::dec_chars(c as nat),
        Reference::BookChapterNumber(_, c, n) => text::dec_chars(c as nat) + seq![':']
            + text::dec_chars(n as nat),
        Reference::BookChapterNumberFromTo(_, c, f, t) => text::dec_chars(c as nat) + seq![':']
            + text::dec_chars(f as nat) + seq!['-'] + text::dec_chars(t as nat),
    }
}

/// A rendered reference is the abbreviation, a space, and the selector.
proof fn lemma_render_decomposition(r: Reference, t: TextId)
    ensures
        render_chars(r, t) == books::abbrev_chars(t, r.spec_book()) + seq![' ']
            + selector_chars(r),
{
    match r {
        Reference::BookChapter(b, c) => {
            assert(render_chars(r, t) =~= books::abbrev_chars(t, b) + seq![' ']
                + selector_chars(r));
        },
        Reference::BookChapterNumber(b, c, n) => {
            assert(render_chars(r, t) =~= books::abbrev_chars(t, b) + seq![' ']
                + selector_chars(r));
        },
        Reference::BookChapterNumberFromTo(b, c, f, to) => {
            assert(render_chars(r, t) =~= books::abbrev_chars(t, b) + seq![' ']
                + selector_chars(r));
        },
    }
}

/// The selector of a rendered reference is non-empty, contains no space,
/// and ends in a digit.
proof fn lemma_selector_shape(r: Reference)
    ensures
        selector_chars(r).len() >= 1,
        forall|j: int| 0 <= j < selector_chars(r).len() ==> #[trigger] selector_chars(r)[j] != ' ',
        text::is_digit_char(selector_chars(r).last()),
{
    let sel = selector_chars(r);
    match r {
        Reference::BookChapter(b, c) => {
            text::lemma_dec_chars_val(c as nat);
            text::lemma_digits_ne(sel, ' ');
        },
        Reference::BookChapterNumber(b, c, n) => {
            let d1 = text::dec_chars(c as nat);
            let d2 = text::dec_chars(n as nat);
            text::lemma_dec_chars_val(c as nat);
            text::lemma_dec_chars_val(n as nat);
            assert(sel.last() == d2.last());
            assert forall|j: int| 0 <= j < sel.len() implies sel[j] != ' ' by {
                if j < d1.len() {
                    assert(sel[j] == d1[j]);
                    assert(text::is_digit_char(d1[j]));
                } else if j == d1.len() {
                    assert(sel[j] == ':');
                } else {
                    assert(sel[j] == d2[j - d1.len() - 1]);
                    assert(text::is_digit_char(d2[j - d1.len() - 1]));
                }
            }
        },
        Reference::BookChapterNumberFromTo(b, c, f, to) => {
            let d1 = text::dec_chars(c as nat);
            let d2 = text::dec_chars(f as nat);
            let d3 = text::dec_chars(to as nat);
            text::lemma_dec_chars_val(c as nat);
            text::lemma_dec_chars_val(f as nat);
            text::lemma_dec_chars_val(to as nat);
            assert(sel.last() == d3.last());
            assert forall|j: int| 0 <= j < sel.len() implies sel[j] != ' ' by {
                if j < d1.len() {
                    assert(sel[j] == d1[j]);
                    assert(text::is_digit_char(d1[j]));
                } else if j == d1.len() {
                    assert(sel[j] == ':');
                } else if j < d1.len() + 1 + d2.len() {
                    assert(sel[j] == d2[j - d1.len() - 1]);
                    assert(text::is_digit_char(d2[j - d1.len() - 1]));
                } else if j == d1.len() + 1 + d2.len() {
                    assert(sel[j] == '-');
                } else {
                    assert(sel[j] == d3[j - d1.len() - d2.len() - 2]);
                    assert(text::is_digit_char(d3[j - d1.len() - d2.len() - 2]));
                }
            }
        },
    }
}

/// Parsing the selector of a rendered reference succeeds exactly when the
/// chapter is within the book's bounds and a range is not inverted, and then
/// yields the reference itself.
proof fn lemma_parse_selector_of_rendered(t: TextId, book: BookId, r: Reference)
    requires
        r.spec_book() == book,
    ensures
        parse_selector_spec(selector_chars(r), t, book) == (if 1 <= r.spec_chapter()
            && r.spec_chapter() <= books::chapter_count(t, book) && range_valid(r) {
            Some(r)
        } else {
            None
        }),
{
    let sel = selector_chars(r);
    match r {
        Reference::BookChapter(b, c) => {
            text::lemma_dec_chars_val(c as nat);
            text::lemma_digits_ne(sel, ':');
            text::lemma_find_char_absent(sel, ':');
            text::lemma_parse_dec_roundtrip(c);
        },
        Reference::BookChapterNumber(b, c, n) => {
            let d1 = text::dec_chars(c as nat);
            let d2 = text::dec_chars(n as nat);
            text::lemma_dec_chars_val(c as nat);
            text::lemma_dec_chars_val(n as nat);
            assert(sel[d1.len() as int] == ':');
            assert forall|j: int| 0 <= j < d1.len() implies sel[j] != ':' by {
                assert(sel[j] == d1[j]);
                assert(text::is_digit_char(d1[j]));
            }
            text::lemma_find_char_at(sel, ':', d1.len() as int);
            assert(sel.take(d1.len() as int) =~= d1);
            assert(sel.skip(d1.len() as int + 1) =~= d2);
            text::lemma_digits_ne(d2, ':');
            text::lemma_find_char_absent(d2, ':');
            text::lemma_digits_ne(d2, '-');
            text::lemma_find_char_absent(d2, '-');
            text::lemma_parse_dec_roundtrip(c);
            text::lemma_parse_dec_roundtrip(n);
        },
        Reference::BookChapterNumberFromTo(b, c, f, to) => {
            let d1 = text::dec_chars(c as nat);
            let d2 = text::dec_chars(f as nat);
            let d3 = text::dec_chars(to as nat);
            text::lemma_dec_chars_val(c as nat);
            text::lemma_dec_chars_val(f as nat);
            text::lemma_dec_chars_val(to as nat);
            assert(sel[d1.len() as int] == ':');
            assert forall|j: int| 0 <= j < d1.len() implies sel[j] != ':' by {
                assert(sel[j] == d1[j]);
                assert(text::is_digit_char(d1[j]));
            }
            text::lemma_find_char_at(sel, ':', d1.len() as int);
            assert(sel.take(d1.len() as int) =~= d1);
            let vpart = sel.skip(d1.len() as int + 1);
            assert(vpart =~= d2 + seq!['-'] + d3);
            assert forall|j: int| 0 <= j < vpart.len() implies vpart[j] != ':' by {
                if j < d2.len() {
                    assert(vpart[j] == d2[j]);
                    assert(text::is_digit_char(d2[j]));
                } else if j == d2.len() {
                    assert(vpart[j] == '-');
                } else {
                    assert(vpart[j] == d3[j - d2.len() - 1]);
                    assert(text::is_digit_char(d3[j - d2.len() - 1]));
                }
            }
            text::lemma_find_char_absent(vpart, ':');
            text::lemma_parse_dec_roundtrip(c);
            assert(vpart[d2.len() as int] == '-');
            assert forall|j: int| 0 <= j < d2.len() implies vpart[j] != '-' by {
                assert(vpart[j] == d2[j]);
                assert(text::is_digit_char(d2[j]));
            }
            text::lemma_find_char_at(vpart, '-', d2.len() as int);
            assert(vpart.take(d2.len() as int) =~= d2);
            assert(vpart.skip(d2.len() as int + 1) =~= d3);
            text::lemma_digits_ne(d3, '-');
            text::lemma_find_char_absent(d3, '-');
            text::lemma_parse_dec_roundtrip(f);
            text::lemma_parse_dec_roundtrip(to);
        },
    }
}

/// Parsing a rendered reference under the text it was rendered for succeeds
/// exactly when the chapter lies within the book's chapter count and a verse
/// range is not inverted, and then yields the rendered reference itself.
/// This holds for books whose abbreviation is a single word; an interior
/// space in the abbreviation splits the rendering into more than two parts,
/// which the strict grammar rejects.
pub proof fn lemma_parse_of_rendered(r: Reference, t: TextId)
    requires
        books::single_word_abbrev(t, r.spec_book()),
    ensures
        parse_by_text_spec(render_chars(r, t), t) == (if 1 <= r.spec_chapter()
            && r.spec_chapter() <= books::chapter_count(t, r.spec_book()) && range_valid(r) {
            Some(r)
        } else {
            None
        }),
{
    let book = r.spec_book();
    let ab = books::abbrev_chars(t, book);
    let sel = selector_chars(r);
    let s = render_chars(r, t);
    lemma_render_decomposition(r, t);
    books::lemma_abbrev_shape(t, book);
    lemma_selector_shape(r);
    // Trimming leaves the rendering unchanged.
    assert(s[0] == ab[0]);
    assert(!text::is_ws_char(s[0]));
    assert(text::trim_front(s) == s);
    assert(s.last() == sel.last());
    assert(!text::is_ws_char(s.last()));
    assert(text::trim_back(s) == s);
    assert(text::trim_chars(s) == s);
    // The first space stands right after the abbreviation.
    assert(s[ab.len() as int] == ' ');
    assert forall|j: int| 0 <= j < ab.len() implies s[j] != ' ' by {
        assert(s[j] == ab[j]);
    }
    text::lemma_find_char_at(s, ' ', ab.len() as int);
    assert(s.take(ab.len() as int) =~= ab);
    assert(s.skip(ab.len() as int + 1) =~= sel);
    text::lemma_find_char_absent(sel, ' ');
    books::lemma_canonical_abbrev_resolves(t, book);
    lemma_parse_selector_of_rendered(t, book, r);
}

/// Render/parse round trip: for a book whose abbreviation is a single word
/// and a chapter within the book's chapter count, parsing the rendering of a
/// chapter reference yields that reference back.
pub proof fn lemma_render_parse_roundtrip(book: BookId, chapter: u8, text: TextId)
    requires
        books::single_word_abbrev(text, book),
        1 <= chapter <= books::chapter_count(text, book),
    ensures
        parse_by_text_spec(render_chars(Reference::BookChapter(book, chapter), text), text)
            == Some(Reference::BookChapter(book, chapter)),
{
    lemma_parse_of_rendered(Reference::BookChapter(book, chapter), text);
}

/// A chapter below one or beyond the book's chapter count never parses: the
/// strict parser rejects the rendering of such a reference.
pub proof fn lemma_parse_rejects_out_of_bounds_chapter(book: BookId, chapter: u8, text: TextId)
    requires
        books::single_word_abbrev(text, book),
        chapter < 1 || chapter > books::chapter_count(text, book),
    ensures
        parse_by_text_spec(render_chars(Reference::BookChapter(book, chapter), text), text)
            is None,
{
    lemma_parse_of_rendered(Reference::BookChapter(book, chapter), text);
}

/// A verse range whose end lies below its start never parses: the strict
/// parser rejects the rendering of an inverted range.
pub proof fn lemma_parse_rejects_inverted_range(
    book: BookId,
    chapter: u8,
    number_from: u8,
    number_to: u8,
    text: TextId,
)
    requires
        books::single_word_abbrev(text, book),
        number_to < number_from,
    ensures
        parse_by_text_spec(
            render_chars(
                Reference::BookChapterNumberFromTo(book, chapter, number_from, number_to),
                text,
            ),
            text,
        ) is None,
{
    lemma_parse_of_rendered(
        Reference::BookChapterNumberFromTo(book, chapter, number_from, number_to),
        text,
    );
}

/// Whatever the strict parser accepts is well formed: the chapter lies
/// within the book's chapter count and a verse range is never inverted.
pub proof fn lemma_parse_result_valid(s: Seq<char>, t: TextId)
    ensures
        parse_by_text_spec(s, t) matches Some(r) ==> {
            &&& 1 <= r.spec_chapter()
            &&& r.spec_chapter() <= books::chapter_count(t, r.spec_book())
            &&& range_valid(r)
        },
{
}

} // verus!

verus! {

/// What parsing a semicolon-separated list of references yields: each part
/// between semicolons is parsed independently by the strict parser, a failed
/// part standing as `None` without aborting its siblings.
pub open spec fn parse_many_by_text_spec(s: Seq<char>, t: TextId) -> Seq<Option<Reference>> {
    text::split_semi(s).map_values(|p: Seq<char>| parse_by_text_spec(p, t))
}

/// The same as [`parse_reference_by_text`] except it parses and returns
/// multiple references separated by a semicolon character (`;`), one result
/// per part.
pub fn parse_references_by_text(reference: &str, text: &TextId) -> (r: Vec<Option<Reference>>)
    ensures
        r@ == parse_many_by_text_spec(reference@, *text),
{
    let chars = text::str_chars(reference);
    let mut out: Vec<Option<Reference>> = Vec::new();
    let mut from: usize = 0;
    proof {
        assert(chars@.skip(0) =~= chars@);
        assert(parse_many_by_text_spec(reference@, *text) =~= out@ + text::split_semi(
            chars@.skip(0),
        ).map_values(|p: Seq<char>| parse_by_text_spec(p, *text)));
    }
    loop
        invariant
            from <= chars@.len(),
            chars@ == reference@,
            parse_many_by_text_spec(reference@, *text) == out@ + text::split_semi(
                chars@.skip(from as int),
            ).map_values(|p: Seq<char>| parse_by_text_spec(p, *text)),
        decreases chars@.len() - from + 1,
    {
        let ghost rest = chars@.skip(from as int);
        let k = text::find_char_from(&chars, from, ';');
        let part = text::subvec(&chars, from, k);
        let parsed = parse_reference_by_text_chars(&part, text);
        out.push(parsed);
        if k == chars.len() {
            proof {
                text::lemma_find_char_absent(rest, ';');
                assert(part@ =~= rest);
                assert(text::split_semi(rest) == seq![rest]);
                assert(text::split_semi(rest).map_values(
                    |p: Seq<char>| parse_by_text_spec(p, *text),
                ) =~= seq![parse_by_text_spec(rest, *text)]);
                assert(parse_many_by_text_spec(reference@, *text) =~= out@);
            }
            return out;
        }
        proof {
            assert(forall|j: int| 0 <= j < rest.len() ==> #[trigger] rest[j] == chars@[j + from]);
            text::lemma_find_char_at(rest, ';', k - from);
            assert(rest.take(k - from) =~= part@);
            assert(rest.skip(k - from + 1) =~= chars@.skip(k as int + 1));
            assert(text::split_semi(rest) == seq![part@] + text::split_semi(
                chars@.skip(k as int + 1),
            ));
            assert(out@ + text::split_semi(chars@.skip(k as int + 1)).map_values(
                |p: Seq<char>| parse_by_text_spec(p, *text),
            ) =~= parse_many_by_text_spec(reference@, *text));
        }
        from = k + 1;
    }
}

} // verus!
