//! The permissive reference grammar parser: a single left-to-right scan that
//! turns a raw string such as `"John 3:16-18"` into a structured parse
//! result, carrying the raw book-name token forward without consulting the
//! registry. Malformed input yields a typed error code, never a panic.

use vstd::prelude::*;

use crate::text;

verus! {

/// The locale an error message is rendered in.
pub enum Locale {
    En,
}

/// A verse with its chapter, number and text content, as the verse locator
/// collects them.
#[derive(Debug, PartialEq)]
pub struct Reference {
    pub chapter: u8,
    pub number: u8,
    pub content: String,
}

/// A parsed reference: the raw book-name token, the chapter, and the verse
/// selector.
#[derive(Debug, PartialEq)]
pub struct ReferenceParseResult<'a> {
    pub book_name: &'a str,
    pub chapter: u8,
    pub reference_type: ReferenceParseResultType,
}

/// The verse selector of a parsed reference.
#[derive(Debug, PartialEq, Eq, Structural)]
pub enum ReferenceParseResultType {
    /// Bible verse reference to a chapter.
    Chapter,
    /// Bible verse reference to a verse.
    Verse { number: u8 },
    /// Bible verse reference to a verse and all verses onwards in a chapter.
    VerseFromOnwards { number_from: u8 },
    /// Bible verse reference to a range of verses.
    VerseFromTo { number_from: u8, number_to: u8 },
}

/// The ways parsing a reference can fail.
#[derive(Debug, PartialEq, Eq, Structural)]
pub enum ReferenceParseErrorCode {
    BookNameNeverEnds,
    InvalidChapterFormat,
    InvalidRangeBetweenVerseNumbers,
    InvalidVerseNumberFormat,
    UnknownError,
}

/// The message displayed for a parse error under a locale.
pub open spec fn error_message(locale: Locale, e: ReferenceParseErrorCode) -> Seq<char> {
    match locale {
        Locale::En => match e {
            ReferenceParseErrorCode::BookNameNeverEnds => "Book name never ends."@,
            ReferenceParseErrorCode::InvalidChapterFormat => "Invalid chapter format."@,
            ReferenceParseErrorCode::InvalidRangeBetweenVerseNumbers => "Invalid range between verse numbers."@,
            ReferenceParseErrorCode::InvalidVerseNumberFormat => "Invalid verse number format."@,
            ReferenceParseErrorCode::UnknownError => "Unknown error."@,
        },
    }
}

impl ReferenceParseErrorCode {
    /// The error message displayed for this code under the given locale.
    pub fn to_string(&self, locale: Locale) -> (r: &'static str)
        ensures
            r@ == error_message(locale, *self),
    {
        match locale {
            Locale::En => match self {
                ReferenceParseErrorCode::BookNameNeverEnds => "Book name never ends.",
                ReferenceParseErrorCode::InvalidChapterFormat => "Invalid chapter format.",
                ReferenceParseErrorCode::InvalidRangeBetweenVerseNumbers => {
                    "Invalid range between verse numbers."
                },
                ReferenceParseErrorCode::InvalidVerseNumberFormat => "Invalid verse number format.",
                ReferenceParseErrorCode::UnknownError => "Unknown error.",
            },
        }
    }
}

/// The index of the first decimal digit in `s` at or after `i`, or `s.len()`
/// when none follows.
pub open spec fn find_digit_from(s: Seq<char>, i: int) -> int
    decreases s.len() - i,
{
    if i < 0 || i >= s.len() {
        s.len() as int
    } else if text::is_digit_char(s[i]) {
        i
    } else {
        find_digit_from(s, i + 1)
    }
}

/// Where `find_digit_from` lands: on the first digit at or after `i`, with
/// no digit in between, or at the end when no digit follows.
pub proof fn lemma_find_digit_from(s: Seq<char>, i: int)
    requires
        0 <= i <= s.len(),
    ensures
        i <= find_digit_from(s, i) <= s.len(),
        find_digit_from(s, i) < s.len() ==> text::is_digit_char(s[find_digit_from(s, i)]),
        forall|m: int| i <= m < find_digit_from(s, i) ==> !text::is_digit_char(#[trigger] s[m]),
    decreases s.len() - i,
{
    if i < s.len() && !text::is_digit_char(s[i]) {
        lemma_find_digit_from(s, i + 1);
    }
}

/// The index right after the run of decimal digits beginning at `i`:
/// the first index at or after `i` holding no digit, or `s.len()`.
pub open spec fn digit_run_end(s: Seq<char>, i: int) -> int
    decreases s.len() - i,
{
    if i < 0 || i >= s.len() {
        s.len() as int
    } else if text::is_digit_char(s[i]) {
        digit_run_end(s, i + 1)
    } else {
        i
    }
}

/// Where `digit_run_end` lands: after a run of digits, on a non-digit or at
/// the end.
pub proof fn lemma_digit_run_end(s: Seq<char>, i: int)
    requires
        0 <= i <= s.len(),
    ensures
        i <= digit_run_end(s, i) <= s.len(),
        digit_run_end(s, i) < s.len() ==> !text::is_digit_char(s[digit_run_end(s, i)]),
        forall|m: int| i <= m < digit_run_end(s, i) ==> text::is_digit_char(#[trigger] s[m]),
    decreases s.len() - i,
{
    if i < s.len() && text::is_digit_char(s[i]) {
        lemma_digit_run_end(s, i + 1);
    }
}

/// The number of consecutive spaces immediately before index `j`.
pub open spec fn space_run_before(s: Seq<char>, j: int) -> int
    decreases j,
{
    if j > 0 && j <= s.len() && s[j - 1] == ' ' {
        1 + space_run_before(s, j - 1)
    } else {
        0
    }
}

/// The space run before `j` consists of spaces and is preceded by a
/// non-space (or the start); when some earlier character is no space, the
/// run stays behind it.
pub proof fn lemma_space_run_before(s: Seq<char>, j: int)
    requires
        0 <= j <= s.len(),
    ensures
        0 <= space_run_before(s, j) <= j,
        forall|m: int| j - space_run_before(s, j) <= m < j ==> s[m] == ' ',
        j - space_run_before(s, j) > 0 ==> s[j - space_run_before(s, j) - 1] != ' ',
    decreases j,
{
    if j > 0 && s[j - 1] == ' ' {
        lemma_space_run_before(s, j - 1);
    }
}

/// A character before `j` that is no space bounds the space run before `j`.
pub proof fn lemma_space_run_stops(s: Seq<char>, j: int, i: int)
    requires
        0 <= i < j <= s.len(),
        s[i] != ' ',
    ensures
        i < j - space_run_before(s, j),
    decreases j,
{
    lemma_space_run_before(s, j);
    if i >= j - space_run_before(s, j) {
        assert(s[i] == ' ');
    }
}

/// One step or one outcome of the scan: the state is the position `i`, the
/// book-name token found so far, and the chapter and verse numbers found so
/// far, a zero standing for "not yet found", as in the grammar every chapter
/// and verse token of interest parses to a positive number.
///
/// * On a letter, everything up to the next digit — minus trailing spaces —
///   becomes the book-name token; if no digit ever follows, the book name
///   never ends.
/// * On a digit: with a verse number already at hand the digit run is the
///   range's end; with a chapter at hand it is a verse number, continued
///   after `-` (range), closed by `+` (onwards) or alone (single verse);
///   with a book name at hand it is the chapter, continued after `:`;
///   with nothing at hand the digit is skipped.
/// * Any other character is skipped.
/// * A digit run that does not fit in a byte is a format error for the token
///   being scanned; the end of the input without an outcome is the unknown
///   error.
pub open spec fn scan_spec(
    s: Seq<char>,
    i: int,
    book: Seq<char>,
    chapter: u8,
    number: u8,
) -> Result<(Seq<char>, u8, ReferenceParseResultType), ReferenceParseErrorCode>
    decreases s.len() - i,
    via scan_spec_decreases
{
    if i < 0 || i >= s.len() {
        Err(ReferenceParseErrorCode::UnknownError)
    } else if text::is_alpha_char(s[i]) {
        let j = find_digit_from(s, i + 1);
        if j >= s.len() {
            Err(ReferenceParseErrorCode::BookNameNeverEnds)
        } else {
            scan_spec(s, j, s.subrange(i, j - space_run_before(s, j)), chapter, number)
        }
    } else if text::is_digit_char(s[i]) {
        let k = digit_run_end(s, i + 1);
        let token = s.subrange(i, k);
        if number != 0 {
            match text::parse_u8_chars(token) {
                None => Err(ReferenceParseErrorCode::InvalidVerseNumberFormat),
                Some(end) => if end < number {
                    Err(ReferenceParseErrorCode::InvalidRangeBetweenVerseNumbers)
                } else {
                    Ok(
                        (
                            book,
                            chapter,
                            ReferenceParseResultType::VerseFromTo {
                                number_from: number,
                                number_to: end,
                            },
                        ),
                    )
                },
            }
        } else if chapter != 0 {
            if k < s.len() && s[k] == '-' {
                match text::parse_u8_chars(token) {
                    None => Err(ReferenceParseErrorCode::InvalidVerseNumberFormat),
                    Some(n) => scan_spec(s, k + 1, book, chapter, n),
                }
            } else if k < s.len() && s[k] == '+' {
                match text::parse_u8_chars(token) {
                    None => Err(ReferenceParseErrorCode::InvalidVerseNumberFormat),
                    Some(n) => Ok(
                        (
                            book,
                            chapter,
                            ReferenceParseResultType::VerseFromOnwards { number_from: n },
                        ),
                    ),
                }
            } else {
                match text::parse_u8_chars(token) {
                    None => Err(ReferenceParseErrorCode::InvalidVerseNumberFormat),
                    Some(n) => Ok((book, chapter, ReferenceParseResultType::Verse { number: n })),
                }
            }
        } else if book.len() != 0 {
            if k < s.len() && s[k] == ':' {
                match text::parse_u8_chars(token) {
                    None => Err(ReferenceParseErrorCode::InvalidChapterFormat),
                    Some(c) => scan_spec(s, k + 1, book, c, number),
                }
            } else {
                match text::parse_u8_chars(token) {
                    None => Err(ReferenceParseErrorCode::InvalidChapterFormat),
                    Some(c) => Ok((book, c, ReferenceParseResultType::Chapter)),
                }
            }
        } else {
            scan_spec(s, i + 1, book, chapter, number)
        }
    } else {
        scan_spec(s, i + 1, book, chapter, number)
    }
}

#[via_fn]
proof fn scan_spec_decreases(s: Seq<char>, i: int, book: Seq<char>, chapter: u8, number: u8) {
    if 0 <= i < s.len() {
        lemma_find_digit_from(s, i + 1);
        lemma_digit_run_end(s, i + 1);
    }
}

/// What the permissive parser makes of a raw string: the scan started at the
/// beginning with nothing at hand.
pub open spec fn parse_spec(s: Seq<char>) -> Result<
    (Seq<char>, u8, ReferenceParseResultType),
    ReferenceParseErrorCode,
> {
    scan_spec(s, 0, Seq::<char>::empty(), 0, 0)
}

/// Parses a Bible reference string into a parse result object.
///
/// The book-name token is carried forward raw, for the caller to resolve;
/// the verse selector follows the grammar `c`, `c:v`, `c:v+`, or `c:v-w`,
/// and a range whose end lies below its start fails with the range error.
pub fn parse_reference<'a>(value: &'a str) -> (r: Result<
    ReferenceParseResult<'a>,
    ReferenceParseErrorCode,
>)
    ensures
        match r {
            Ok(p) => parse_spec(value@) == Ok::<_, ReferenceParseErrorCode>(
                (p.book_name@, p.chapter, p.reference_type),
            ),
            Err(e) => parse_spec(value@) == Err::<(Seq<char>, u8, ReferenceParseResultType), _>(e),
        },
{
    let v = text::str_chars(value);
    let ghost s = value@;
    let mut i: usize = 0;
    let mut book_lo: usize = 0;
    let mut book_hi: usize = 0;
    let mut chapter: u8 = 0;
    let mut number: u8 = 0;
    proof {
        assert(s.subrange(0, 0) =~= Seq::<char>::empty());
    }
    loop
        invariant
            v@ == s,
            value@ == s,
            i <= s.len(),
            book_lo <= book_hi <= s.len(),
            parse_spec(s) == scan_spec(s, i as int, s.subrange(book_lo as int, book_hi as int), chapter, number),
        decreases s.len() - i,
    {
        let ghost book = s.subrange(book_lo as int, book_hi as int);
        if i >= v.len() {
            return Err(ReferenceParseErrorCode::UnknownError);
        }
        let c = v[i];
        if text::alpha_char(c) {
            let j = find_digit_pos(&v, i + 1);
            proof {
                lemma_find_digit_from(s, i + 1);
            }
            if j >= v.len() {
                return Err(ReferenceParseErrorCode::BookNameNeverEnds);
            }
            let run = space_run_len(&v, j);
            proof {
                lemma_space_run_stops(s, j as int, i as int);
            }
            book_lo = i;
            book_hi = j - run;
            i = j;
        } else if text::digit_char(c) {
            let k = digit_run_pos(&v, i + 1);
            proof {
                lemma_digit_run_end(s, i + 1);
            }
            let ghost token = s.subrange(i as int, k as int);
            if number != 0 {
                let end = match text::parse_u8_range(&v, i, k) {
                    None => {
                        return Err(ReferenceParseErrorCode::InvalidVerseNumberFormat);
                    },
                    Some(n) => n,
                };
                if end < number {
                    return Err(ReferenceParseErrorCode::InvalidRangeBetweenVerseNumbers);
                }
                return Ok(
                    ReferenceParseResult {
                        book_name: value.substring_char(book_lo, book_hi),
                        chapter,
                        reference_type: ReferenceParseResultType::VerseFromTo {
                            number_from: number,
                            number_to: end,
                        },
                    },
                );
            } else if chapter != 0 {
                if k < v.len() && v[k] == '-' {
                    let n = match text::parse_u8_range(&v, i, k) {
                        None => {
                            return Err(ReferenceParseErrorCode::InvalidVerseNumberFormat);
                        },
                        Some(n) => n,
                    };
                    number = n;
                    i = k + 1;
                } else if k < v.len() && v[k] == '+' {
                    let n = match text::parse_u8_range(&v, i, k) {
                        None => {
                            return Err(ReferenceParseErrorCode::InvalidVerseNumberFormat);
                        },
                        Some(n) => n,
                    };
                    return Ok(
                        ReferenceParseResult {
                            book_name: value.substring_char(book_lo, book_hi),
                            chapter,
                            reference_type: ReferenceParseResultType::VerseFromOnwards {
                                number_from: n,
                            },
                        },
                    );
                } else {
                    let n = match text::parse_u8_range(&v, i, k) {
                        None => {
                            return Err(ReferenceParseErrorCode::InvalidVerseNumberFormat);
                        },
                        Some(n) => n,
                    };
                    return Ok(
                        ReferenceParseResult {
                            book_name: value.substring_char(book_lo, book_hi),
                            chapter,
                            reference_type: ReferenceParseResultType::Verse { number: n },
                        },
                    );
                }
            } else if book_hi > book_lo {
                if k < v.len() && v[k] == ':' {
                    let c2 = match text::parse_u8_range(&v, i, k) {
                        None => {
                            return Err(ReferenceParseErrorCode::InvalidChapterFormat);
                        },
                        Some(n) => n,
                    };
                    chapter = c2;
                    i = k + 1;
                } else {
                    let c2 = match text::parse_u8_range(&v, i, k) {
                        None => {
                            return Err(ReferenceParseErrorCode::InvalidChapterFormat);
                        },
                        Some(n) => n,
                    };
                    return Ok(
                        ReferenceParseResult {
                            book_name: value.substring_char(book_lo, book_hi),
                            chapter: c2,
                            reference_type: ReferenceParseResultType::Chapter,
                        },
                    );
                }
            } else {
                i += 1;
            }
        } else {
            i += 1;
        }
    }
}

/// Finds the first decimal digit in `v` at or after `from`.
fn find_digit_pos(v: &Vec<char>, from: usize) -> (r: usize)
    requires
        from <= v@.len(),
    ensures
        r == find_digit_from(v@, from as int),
{
    let mut i: usize = from;
    while i < v.len()
        invariant
            from <= i <= v@.len(),
            find_digit_from(v@, from as int) == find_digit_from(v@, i as int),
        decreases v@.len() - i,
    {
        if text::digit_char(v[i]) {
            return i;
        }
        i += 1;
    }
    i
}

/// Finds the end of the run of decimal digits beginning at `from`.
pub(crate) fn digit_run_pos(v: &Vec<char>, from: usize) -> (r: usize)
    requires
        from <= v@.len(),
    ensures
        r == digit_run_end(v@, from as int),
{
    let mut i: usize = from;
    while i < v.len()
        invariant
            from <= i <= v@.len(),
            digit_run_end(v@, from as int) == digit_run_end(v@, i as int),
        decreases v@.len() - i,
    {
        if !text::digit_char(v[i]) {
            return i;
        }
        i += 1;
    }
    i
}

/// Counts the consecutive spaces immediately before index `j`.
fn space_run_len(v: &Vec<char>, j: usize) -> (r: usize)
    requires
        j <= v@.len(),
    ensures
        r == space_run_before(v@, j as int),
        r <= j,
{
    proof {
        lemma_space_run_before(v@, j as int);
    }
    let mut r: usize = 0;
    while j - r > 0 && v[j - r - 1] == ' '
        invariant
            r <= j <= v@.len(),
            space_run_before(v@, j as int) == r + space_run_before(v@, (j - r) as int),
        decreases j - r,
    {
        r += 1;
    }
    r
}

} // verus!

verus! {

/// Parsing a list of parts: each part parsed in order, the first failure
/// aborting the whole list.
pub open spec fn parse_parts_spec(parts: Seq<Seq<char>>) -> Result<
    Seq<(Seq<char>, u8, ReferenceParseResultType)>,
    ReferenceParseErrorCode,
>
    decreases parts.len(),
{
    if parts.len() == 0 {
        Ok(Seq::empty())
    } else {
        match parse_spec(parts[0]) {
            Err(e) => Err(e),
            Ok(t) => match parse_parts_spec(parts.drop_first()) {
                Err(e) => Err(e),
                Ok(rest) => Ok(seq![t] + rest),
            },
        }
    }
}

/// What parsing a semicolon-separated list of references yields: the parts
/// between semicolons parsed left to right, the first failure short-circuiting.
pub open spec fn parse_many_spec(s: Seq<char>) -> Result<
    Seq<(Seq<char>, u8, ReferenceParseResultType)>,
    ReferenceParseErrorCode,
> {
    parse_parts_spec(text::split_semi(s))
}

/// The view of a list of parse results, for stating what a parse of many
/// references returned.
pub open spec fn results_view<'a>(list: Seq<ReferenceParseResult<'a>>) -> Seq<
    (Seq<char>, u8, ReferenceParseResultType),
> {
    list.map_values(|p: ReferenceParseResult<'a>| (p.book_name@, p.chapter, p.reference_type))
}

/// Parses references separated by a semicolon character (`;`), left to
/// right; the first part that fails to parse fails the whole call with its
/// error.
pub fn parse_references<'a>(value: &'a str) -> (r: Result<
    Vec<ReferenceParseResult<'a>>,
    ReferenceParseErrorCode,
>)
    ensures
        match r {
            Ok(list) => parse_many_spec(value@) == Ok::<_, ReferenceParseErrorCode>(
                results_view(list@),
            ),
            Err(e) => parse_many_spec(value@) == Err::<
                Seq<(Seq<char>, u8, ReferenceParseResultType)>,
                _,
            >(e),
        },
{
    let ghost s = value@;
    let chars = text::str_chars(value);
    let mut references: Vec<ReferenceParseResult<'a>> = Vec::new();
    let mut from: usize = 0;
    proof {
        assert(chars@.skip(0) =~= chars@);
    }
    loop
        invariant
            chars@ == s,
            value@ == s,
            from <= s.len(),
            match parse_parts_spec(text::split_semi(s.skip(from as int))) {
                Err(e) => parse_many_spec(s) == Err::<
                    Seq<(Seq<char>, u8, ReferenceParseResultType)>,
                    _,
                >(e),
                Ok(ts) => parse_many_spec(s) == Ok::<_, ReferenceParseErrorCode>(
                    results_view(references@) + ts,
                ),
            },
        decreases s.len() - from + 1,
    {
        let ghost rest = s.skip(from as int);
        let k = text::find_char_from(&chars, from, ';');
        let part = value.substring_char(from, k);
        proof {
            assert(part@ == rest.take(k - from)) by {
                assert(part@ =~= rest.take(k - from));
            }
        }
        let parsed = match parse_reference(part) {
            Err(e) => {
                proof {
                    if k == chars@.len() {
                        text::lemma_find_char_absent(rest, ';');
                        assert(rest.take(k - from) =~= rest);
                        assert(text::split_semi(rest) == seq![rest]);
                    } else {
                        assert(forall|j: int|
                            0 <= j < rest.len() ==> #[trigger] rest[j] == s[j + from]);
                        text::lemma_find_char_at(rest, ';', k - from);
                        assert(text::split_semi(rest) == seq![rest.take(k - from)]
                            + text::split_semi(rest.skip(k - from + 1)));
                        assert(text::split_semi(rest)[0] == part@);
                        assert(text::split_semi(rest).drop_first() =~= text::split_semi(
                            rest.skip(k - from + 1),
                        ));
                    }
                }
                return Err(e);
            },
            Ok(p) => p,
        };
        let ghost prior = references@;
        let ghost t = (parsed.book_name@, parsed.chapter, parsed.reference_type);
        references.push(parsed);
        proof {
            assert(results_view(references@) =~= results_view(prior) + seq![t]);
        }
        if k == chars.len() {
            proof {
                text::lemma_find_char_absent(rest, ';');
                assert(rest.take(k - from) =~= rest);
                assert(parse_spec(rest) == Ok::<_, ReferenceParseErrorCode>(t));
                assert(text::split_semi(rest) == seq![rest]);
                assert(seq![rest].drop_first() =~= Seq::<Seq<char>>::empty());
                assert(parse_parts_spec(Seq::<Seq<char>>::empty()) == Ok::<
                    _,
                    ReferenceParseErrorCode,
                >(Seq::<(Seq<char>, u8, ReferenceParseResultType)>::empty()));
                assert(parse_parts_spec(seq![rest]) == Ok::<_, ReferenceParseErrorCode>(
                    seq![t] + Seq::<(Seq<char>, u8, ReferenceParseResultType)>::empty(),
                ));
                assert(seq![t] + Seq::<(Seq<char>, u8, ReferenceParseResultType)>::empty()
                    =~= seq![t]);
                assert(results_view(prior) + seq![t] =~= results_view(references@));
            }
            return Ok(references);
        }
        proof {
            assert(forall|j: int| 0 <= j < rest.len() ==> #[trigger] rest[j] == s[j + from]);
            text::lemma_find_char_at(rest, ';', k - from);
            assert(rest.skip(k - from + 1) =~= s.skip(k as int + 1));
            assert(text::split_semi(rest) == seq![rest.take(k - from)] + text::split_semi(
                s.skip(k as int + 1),
            ));
            assert(text::split_semi(rest)[0] == part@);
            assert(text::split_semi(rest).drop_first() =~= text::split_semi(s.skip(k as int + 1)));
            match parse_parts_spec(text::split_semi(s.skip(k as int + 1))) {
                Err(e) => {},
                Ok(ts) => {
                    assert(results_view(prior) + (seq![t] + ts) =~= results_view(references@)
                        + ts);
                },
            }
        }
        from = k + 1;
    }
}

} // verus!

verus! {

/// Helper: when `p` is the first digit position at or after `i`,
/// `find_digit_from` returns `p`.
proof fn lemma_find_digit_from_at(s: Seq<char>, i: int, p: int)
    requires
        0 <= i <= p < s.len(),
        text::is_digit_char(s[p]),
        forall|m: int| i <= m < p ==> !text::is_digit_char(#[trigger] s[m]),
    ensures
        find_digit_from(s, i) == p,
{
    lemma_find_digit_from(s, i);
    let r = find_digit_from(s, i);
    if r < p {
        assert(!text::is_digit_char(s[r]));
    } else if r > p {
        assert(!text::is_digit_char(s[p]));
    }
}

/// Helper: when digits run from `i` up to `p` and `p` holds none (or is the
/// end), `digit_run_end` returns `p`.
proof fn lemma_digit_run_end_at(s: Seq<char>, i: int, p: int)
    requires
        0 <= i <= p <= s.len(),
        p < s.len() ==> !text::is_digit_char(s[p]),
        forall|m: int| i <= m < p ==> text::is_digit_char(#[trigger] s[m]),
    ensures
        digit_run_end(s, i) == p,
{
    lemma_digit_run_end(s, i);
    let r = digit_run_end(s, i);
    if r < p {
        assert(text::is_digit_char(s[r]));
    } else if r > p {
        assert(!text::is_digit_char(s[p]));
        assert(text::is_digit_char(s[p]));
    }
}

/// In every successful scan outcome that is a verse range, the range's end
/// is at least its start.
proof fn lemma_scan_range_ordered(s: Seq<char>, i: int, book: Seq<char>, chapter: u8, number: u8)
    ensures
        scan_spec(s, i, book, chapter, number) matches Ok((_, _, t)) ==> match t {
            ReferenceParseResultType::VerseFromTo { number_from, number_to } => number_to
                >= number_from,
            _ => true,
        },
    decreases s.len() - i,
{
    if i < 0 || i >= s.len() {
    } else if text::is_alpha_char(s[i]) {
        let j = find_digit_from(s, i + 1);
        if j < s.len() {
            lemma_find_digit_from(s, i + 1);
            lemma_scan_range_ordered(
                s,
                j,
                s.subrange(i, j - space_run_before(s, j)),
                chapter,
                number,
            );
        }
    } else if text::is_digit_char(s[i]) {
        let k = digit_run_end(s, i + 1);
        lemma_digit_run_end(s, i + 1);
        if number != 0 {
        } else if chapter != 0 {
            if k < s.len() && s[k] == '-' {
                match text::parse_u8_chars(s.subrange(i, k)) {
                    None => {},
                    Some(n) => {
                        lemma_scan_range_ordered(s, k + 1, book, chapter, n);
                    },
                }
            }
        } else if book.len() != 0 {
            if k < s.len() && s[k] == ':' {
                match text::parse_u8_chars(s.subrange(i, k)) {
                    None => {},
                    Some(c) => {
                        lemma_scan_range_ordered(s, k + 1, book, c, number);
                    },
                }
            }
        } else {
            lemma_scan_range_ordered(s, i + 1, book, chapter, number);
        }
    } else {
        lemma_scan_range_ordered(s, i + 1, book, chapter, number);
    }
}

/// In every successful parse of a verse range, the range's end is at least
/// its start: the grammar rejects an inverted range before producing a
/// result.
pub proof fn lemma_parse_range_ordered(s: Seq<char>)
    ensures
        parse_spec(s) matches Ok((_, _, t)) ==> match t {
            ReferenceParseResultType::VerseFromTo { number_from, number_to } => number_to
                >= number_from,
            _ => true,
        },
{
    lemma_scan_range_ordered(s, 0, Seq::<char>::empty(), 0, 0);
}

/// A reference written with an inverted verse range — its end below its
/// start — always fails with the range-order error. The book token must
/// begin with a letter, contain no digit, and not end in a space; the
/// chapter and the range's start must be positive, as the grammar's scan
/// treats a zero as "not yet found".
pub proof fn lemma_inverted_range_errs(
    book: Seq<char>,
    chapter: u8,
    number_from: u8,
    number_to: u8,
)
    requires
        book.len() >= 1,
        text::is_alpha_char(book[0]),
        book.last() != ' ',
        forall|m: int| 0 <= m < book.len() ==> !text::is_digit_char(#[trigger] book[m]),
        chapter >= 1,
        number_from >= 1,
        number_to < number_from,
    ensures
        parse_spec(
            book + seq![' '] + text::dec_chars(chapter as nat) + seq![':'] + text::dec_chars(
                number_from as nat,
            ) + seq!['-'] + text::dec_chars(number_to as nat),
        ) == Err::<(Seq<char>, u8, ReferenceParseResultType), _>(
            ReferenceParseErrorCode::InvalidRangeBetweenVerseNumbers,
        ),
{
    let d1 = text::dec_chars(chapter as nat);
    let d2 = text::dec_chars(number_from as nat);
    let d3 = text::dec_chars(number_to as nat);
    text::lemma_dec_chars_val(chapter as nat);
    text::lemma_dec_chars_val(number_from as nat);
    text::lemma_dec_chars_val(number_to as nat);
    let a = book.len() as int;
    let s = book + seq![' '] + d1 + seq![':'] + d2 + seq!['-'] + d3;
    let p1 = a + 1;
    let q1 = p1 + d1.len() as int;
    let p2 = q1 + 1;
    let q2 = p2 + d2.len() as int;
    let p3 = q2 + 1;
    let q3 = p3 + d3.len() as int;
    assert(s.len() == q3);
    assert(forall|m: int| 0 <= m < a ==> #[trigger] s[m] == book[m]);
    assert(s[a] == ' ');
    assert(forall|m: int| p1 <= m < q1 ==> #[trigger] s[m] == d1[m - p1]);
    assert(s[q1] == ':');
    assert(forall|m: int| p2 <= m < q2 ==> #[trigger] s[m] == d2[m - p2]);
    assert(s[q2] == '-');
    assert(forall|m: int| p3 <= m < q3 ==> #[trigger] s[m] == d3[m - p3]);
    // The scan starts on the book token's first letter and finds the first
    // digit right after the separating space.
    assert(text::is_alpha_char(s[0]));
    assert(forall|m: int| 1 <= m < p1 ==> !text::is_digit_char(#[trigger] s[m]));
    assert(text::is_digit_char(s[p1]));
    lemma_find_digit_from_at(s, 1, p1);
    // Exactly the separating space is trimmed from the book token.
    assert(space_run_before(s, a) == 0);
    assert(space_run_before(s, p1) == 1);
    assert(s.subrange(0, a) =~= book);
    assert(scan_spec(s, 0, Seq::<char>::empty(), 0, 0) == scan_spec(s, p1, book, 0, 0));
    // The chapter token runs up to the colon.
    assert(forall|m: int| p1 + 1 <= m < q1 ==> text::is_digit_char(#[trigger] s[m]));
    lemma_digit_run_end_at(s, p1 + 1, q1);
    assert(s.subrange(p1, q1) =~= d1);
    assert(scan_spec(s, p1, book, 0, 0) == scan_spec(s, p2, book, chapter, 0));
    // The range's start runs up to the dash.
    assert(text::is_digit_char(s[p2]));
    assert(forall|m: int| p2 + 1 <= m < q2 ==> text::is_digit_char(#[trigger] s[m]));
    lemma_digit_run_end_at(s, p2 + 1, q2);
    assert(s.subrange(p2, q2) =~= d2);
    assert(scan_spec(s, p2, book, chapter, 0) == scan_spec(s, p3, book, chapter, number_from));
    // The range's end reaches the end of the input and is below the start.
    assert(text::is_digit_char(s[p3]));
    assert(forall|m: int| p3 + 1 <= m < q3 ==> text::is_digit_char(#[trigger] s[m]));
    lemma_digit_run_end_at(s, p3 + 1, q3);
    assert(s.subrange(p3, q3) =~= d3);
    assert(scan_spec(s, p3, book, chapter, number_from) == Err::<
        (Seq<char>, u8, ReferenceParseResultType),
        _,
    >(ReferenceParseErrorCode::InvalidRangeBetweenVerseNumbers));
}

} // verus!
