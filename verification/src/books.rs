//! The registry data: per-text canonical abbreviations, chapter counts, the
//! sanitized abbreviation table, and the surface abbreviation variants the
//! free-text scanner recognizes.

use vstd::prelude::*;

use crate::bible::{BookId, TextId};
use crate::text;

verus! {

/// The canonical display abbreviation of a book in a given text.
pub open spec fn abbrev_chars(text: TextId, book: BookId) -> Seq<char> {
    match text {
        TextId::EnLSB => match book {
            BookId::Genesis => "Genesis"@,
            BookId::Exodus => "Exodus"@,
            BookId::Leviticus => "Leviticus"@,
            BookId::Numbers => "Numbers"@,
            BookId::Deuteronomy => "Deuteronomy"@,
            BookId::Matthew => "Matthew"@,
            BookId::John => "John"@,
        },
        TextId::FiR1933_38 => match book {
            BookId::Genesis => "1. Moos."@,
            BookId::Exodus => "2. Moos."@,
            BookId::Leviticus => "3. Moos."@,
            BookId::Numbers => "4. Moos."@,
            BookId::Deuteronomy => "5. Moos."@,
            BookId::Matthew => "Matt."@,
            BookId::John => "Joh."@,
        },
    }
}

/// The number of chapters of a book, as the given text counts them.
pub open spec fn chapter_count(text: TextId, book: BookId) -> u8 {
    match book {
        BookId::Genesis => 50,
        BookId::Exodus => 40,
        BookId::Leviticus => 27,
        BookId::Numbers => 36,
        BookId::Deuteronomy => 34,
        BookId::Matthew => 28,
        BookId::John => 21,
    }
}

/// The sanitized abbreviation table of a text: which book a sanitized
/// abbreviation string resolves to. Many strings may resolve to one book;
/// lookups are exact matches on the sanitized key.
pub open spec fn book_for_abbrev(text: TextId, s: Seq<char>) -> Option<BookId> {
    match text {
        TextId::EnLSB => if s == "gen"@ || s == "genesis"@ || s == "gn"@ {
            Some(BookId::Genesis)
        } else if s == "ex"@ || s == "exo"@ || s == "exodus"@ {
            Some(BookId::Exodus)
        } else if s == "lev"@ || s == "leviticus"@ || s == "lv"@ {
            Some(BookId::Leviticus)
        } else if s == "nm"@ || s == "num"@ || s == "numbers"@ {
            Some(BookId::Numbers)
        } else if s == "de"@ || s == "deu"@ || s == "deuteronomy"@ || s == "dt"@ {
            Some(BookId::Deuteronomy)
        } else if s == "matt"@ || s == "matthew"@ || s == "mt"@ {
            Some(BookId::Matthew)
        } else if s == "jh"@ || s == "john"@ {
            Some(BookId::John)
        } else {
            None
        },
        TextId::FiR1933_38 => if s == "1mo"@ || s == "1 moos"@ || s == "1 mooses"@ {
            Some(BookId::Genesis)
        } else if s == "2mo"@ || s == "2 moos"@ || s == "2 mooses"@ {
            Some(BookId::Exodus)
        } else if s == "3mo"@ || s == "3 moos"@ || s == "3 mooses"@ {
            Some(BookId::Leviticus)
        } else if s == "4mo"@ || s == "4 moos"@ || s == "4 mooses"@ {
            Some(BookId::Numbers)
        } else if s == "5mo"@ || s == "5 moos"@ || s == "5 mooses"@ {
            Some(BookId::Deuteronomy)
        } else if s == "matt"@ || s == "matteus"@ {
            Some(BookId::Matthew)
        } else if s == "joh"@ || s == "johannes"@ {
            Some(BookId::John)
        } else {
            None
        },
    }
}

/// Looks up the canonical abbreviation and chapter count of a book.
pub fn book_info(text: &TextId, book: &BookId) -> (r: (&'static str, u8))
    ensures
        r.0@ == abbrev_chars(*text, *book),
        r.1 == chapter_count(*text, *book),
{
    match text {
        TextId::EnLSB => match book {
            BookId::Genesis => ("Genesis", 50),
            BookId::Exodus => ("Exodus", 40),
            BookId::Leviticus => ("Leviticus", 27),
            BookId::Numbers => ("Numbers", 36),
            BookId::Deuteronomy => ("Deuteronomy", 34),
            BookId::Matthew => ("Matthew", 28),
            BookId::John => ("John", 21),
        },
        TextId::FiR1933_38 => match book {
            BookId::Genesis => ("1. Moos.", 50),
            BookId::Exodus => ("2. Moos.", 40),
            BookId::Leviticus => ("3. Moos.", 27),
            BookId::Numbers => ("4. Moos.", 36),
            BookId::Deuteronomy => ("5. Moos.", 34),
            BookId::Matthew => ("Matt.", 28),
            BookId::John => ("Joh.", 21),
        },
    }
}

/// Resolves a sanitized abbreviation, given as characters, to a book.
pub fn find_book(text: &TextId, s: &Vec<char>) -> (r: Option<BookId>)
    ensures
        r == book_for_abbrev(*text, s@),
{
    match text {
        TextId::EnLSB => if text::chars_eq_str(s, "gen") || text::chars_eq_str(s, "genesis")
            || text::chars_eq_str(s, "gn") {
            Some(BookId::Genesis)
        } else if text::chars_eq_str(s, "ex") || text::chars_eq_str(s, "exo") || text::chars_eq_str(
            s,
            "exodus",
        ) {
            Some(BookId::Exodus)
        } else if text::chars_eq_str(s, "lev") || text::chars_eq_str(s, "leviticus")
            || text::chars_eq_str(s, "lv") {
            Some(BookId::Leviticus)
        } else if text::chars_eq_str(s, "nm") || text::chars_eq_str(s, "num") || text::chars_eq_str(
            s,
            "numbers",
        ) {
            Some(BookId::Numbers)
        } else if text::chars_eq_str(s, "de") || text::chars_eq_str(s, "deu") || text::chars_eq_str(
            s,
            "deuteronomy",
        ) || text::chars_eq_str(s, "dt") {
            Some(BookId::Deuteronomy)
        } else if text::chars_eq_str(s, "matt") || text::chars_eq_str(s, "matthew")
            || text::chars_eq_str(s, "mt") {
            Some(BookId::Matthew)
        } else if text::chars_eq_str(s, "jh") || text::chars_eq_str(s, "john") {
            Some(BookId::John)
        } else {
            None
        },
        TextId::FiR1933_38 => if text::chars_eq_str(s, "1mo") || text::chars_eq_str(s, "1 moos")
            || text::chars_eq_str(s, "1 mooses") {
            Some(BookId::Genesis)
        } else if text::chars_eq_str(s, "2mo") || text::chars_eq_str(s, "2 moos")
            || text::chars_eq_str(s, "2 mooses") {
            Some(BookId::Exodus)
        } else if text::chars_eq_str(s, "3mo") || text::chars_eq_str(s, "3 moos")
            || text::chars_eq_str(s, "3 mooses") {
            Some(BookId::Leviticus)
        } else if text::chars_eq_str(s, "4mo") || text::chars_eq_str(s, "4 moos")
            || text::chars_eq_str(s, "4 mooses") {
            Some(BookId::Numbers)
        } else if text::chars_eq_str(s, "5mo") || text::chars_eq_str(s, "5 moos")
            || text::chars_eq_str(s, "5 mooses") {
            Some(BookId::Deuteronomy)
        } else if text::chars_eq_str(s, "matt") || text::chars_eq_str(s, "matteus") {
            Some(BookId::Matthew)
        } else if text::chars_eq_str(s, "joh") || text::chars_eq_str(s, "johannes") {
            Some(BookId::John)
        } else {
            None
        },
    }
}

/// True when a book's canonical abbreviation in a text is a single word,
/// with no interior space. The render/parse round trip holds exactly for
/// such abbreviations: a space inside a rendered book name would split into
/// more than two parts under the strict parser's grammar.
pub open spec fn single_word_abbrev(text: TextId, book: BookId) -> bool {
    forall|i: int|
        0 <= i < abbrev_chars(text, book).len() ==> #[trigger] abbrev_chars(text, book)[i] != ' '
}

/// Canonical abbreviations are never empty and never begin or end with
/// trimmable whitespace.
pub proof fn lemma_abbrev_shape(text: TextId, book: BookId)
    ensures
        abbrev_chars(text, book).len() >= 1,
        !text::is_ws_char(abbrev_chars(text, book)[0]),
        !text::is_ws_char(abbrev_chars(text, book).last()),
{
    reveal_strlit("Genesis");
    reveal_strlit("Exodus");
    reveal_strlit("Leviticus");
    reveal_strlit("Numbers");
    reveal_strlit("Deuteronomy");
    reveal_strlit("Matthew");
    reveal_strlit("John");
    reveal_strlit("1. Moos.");
    reveal_strlit("2. Moos.");
    reveal_strlit("3. Moos.");
    reveal_strlit("4. Moos.");
    reveal_strlit("5. Moos.");
    reveal_strlit("Matt.");
    reveal_strlit("Joh.");
}

/// Sanitizing a book's canonical abbreviation and looking it up in the same
/// text's abbreviation table resolves to that very book.
pub proof fn lemma_canonical_abbrev_resolves(text: TextId, book: BookId)
    ensures
        book_for_abbrev(text, text::sanitize_chars(abbrev_chars(text, book))) == Some(book),
{
    reveal_strlit("Genesis");
    reveal_strlit("Exodus");
    reveal_strlit("Leviticus");
    reveal_strlit("Numbers");
    reveal_strlit("Deuteronomy");
    reveal_strlit("Matthew");
    reveal_strlit("John");
    reveal_strlit("1. Moos.");
    reveal_strlit("2. Moos.");
    reveal_strlit("3. Moos.");
    reveal_strlit("4. Moos.");
    reveal_strlit("5. Moos.");
    reveal_strlit("Matt.");
    reveal_strlit("Joh.");
    reveal_strlit("gen");
    reveal_strlit("genesis");
    reveal_strlit("gn");
    reveal_strlit("ex");
    reveal_strlit("exo");
    reveal_strlit("exodus");
    reveal_strlit("lev");
    reveal_strlit("leviticus");
    reveal_strlit("lv");
    reveal_strlit("nm");
    reveal_strlit("num");
    reveal_strlit("numbers");
    reveal_strlit("de");
    reveal_strlit("deu");
    reveal_strlit("deuteronomy");
    reveal_strlit("dt");
    reveal_strlit("matt");
    reveal_strlit("matthew");
    reveal_strlit("mt");
    reveal_strlit("jh");
    reveal_strlit("john");
    reveal_strlit("1mo");
    reveal_strlit("1 moos");
    reveal_strlit("1 mooses");
    reveal_strlit("2mo");
    reveal_strlit("2 moos");
    reveal_strlit("2 mooses");
    reveal_strlit("3mo");
    reveal_strlit("3 moos");
    reveal_strlit("3 mooses");
    reveal_strlit("4mo");
    reveal_strlit("4 moos");
    reveal_strlit("4 mooses");
    reveal_strlit("5mo");
    reveal_strlit("5 moos");
    reveal_strlit("5 mooses");
    reveal_strlit("matteus");
    reveal_strlit("joh");
    reveal_strlit("johannes");
    reveal_with_fuel(text::sanitize_chars, 13);
    match text {
        TextId::EnLSB => match book {
            BookId::Genesis => {
                assert(text::sanitize_chars("Genesis"@) =~= "genesis"@);
                assert(book_for_abbrev(TextId::EnLSB, "genesis"@) == Some(BookId::Genesis));
            },
            BookId::Exodus => {
                assert(text::sanitize_chars("Exodus"@) =~= "exodus"@);
                assert(book_for_abbrev(TextId::EnLSB, "exodus"@) == Some(BookId::Exodus));
            },
            BookId::Leviticus => {
                assert(text::sanitize_chars("Leviticus"@) =~= "leviticus"@);
                assert(book_for_abbrev(TextId::EnLSB, "leviticus"@) == Some(BookId::Leviticus));
            },
            BookId::Numbers => {
                assert(text::sanitize_chars("Numbers"@) =~= "numbers"@);
                assert("numbers"@[0] != "genesis"@[0]);
                assert(book_for_abbrev(TextId::EnLSB, "numbers"@) == Some(BookId::Numbers));
            },
            BookId::Deuteronomy => {
                assert(text::sanitize_chars("Deuteronomy"@) =~= "deuteronomy"@);
                assert(book_for_abbrev(TextId::EnLSB, "deuteronomy"@) == Some(BookId::Deuteronomy));
            },
            BookId::Matthew => {
                assert(text::sanitize_chars("Matthew"@) =~= "matthew"@);
                assert("matthew"@[0] != "genesis"@[0]);
                assert("matthew"@[0] != "numbers"@[0]);
                assert(book_for_abbrev(TextId::EnLSB, "matthew"@) == Some(BookId::Matthew));
            },
            BookId::John => {
                assert(text::sanitize_chars("John"@) =~= "john"@);
                assert("john"@[0] != "matt"@[0]);
                assert(book_for_abbrev(TextId::EnLSB, "john"@) == Some(BookId::John));
            },
        },
        TextId::FiR1933_38 => match book {
            BookId::Genesis => {
                assert(text::sanitize_chars("1. Moos."@) =~= "1 moos"@);
                assert(book_for_abbrev(TextId::FiR1933_38, "1 moos"@) == Some(BookId::Genesis));
            },
            BookId::Exodus => {
                assert(text::sanitize_chars("2. Moos."@) =~= "2 moos"@);
                assert("2 moos"@[0] != "1 moos"@[0]);
                assert(book_for_abbrev(TextId::FiR1933_38, "2 moos"@) == Some(BookId::Exodus));
            },
            BookId::Leviticus => {
                assert(text::sanitize_chars("3. Moos."@) =~= "3 moos"@);
                assert("3 moos"@[0] != "1 moos"@[0]);
                assert("3 moos"@[0] != "2 moos"@[0]);
                assert(book_for_abbrev(TextId::FiR1933_38, "3 moos"@) == Some(BookId::Leviticus));
            },
            BookId::Numbers => {
                assert(text::sanitize_chars("4. Moos."@) =~= "4 moos"@);
                assert("4 moos"@[0] != "1 moos"@[0]);
                assert("4 moos"@[0] != "2 moos"@[0]);
                assert("4 moos"@[0] != "3 moos"@[0]);
                assert(book_for_abbrev(TextId::FiR1933_38, "4 moos"@) == Some(BookId::Numbers));
            },
            BookId::Deuteronomy => {
                assert(text::sanitize_chars("5. Moos."@) =~= "5 moos"@);
                assert("5 moos"@[0] != "1 moos"@[0]);
                assert("5 moos"@[0] != "2 moos"@[0]);
                assert("5 moos"@[0] != "3 moos"@[0]);
                assert("5 moos"@[0] != "4 moos"@[0]);
                assert(book_for_abbrev(TextId::FiR1933_38, "5 moos"@) == Some(BookId::Deuteronomy));
            },
            BookId::Matthew => {
                assert(text::sanitize_chars("Matt."@) =~= "matt"@);
                assert(book_for_abbrev(TextId::FiR1933_38, "matt"@) == Some(BookId::Matthew));
            },
            BookId::John => {
                assert(text::sanitize_chars("Joh."@) =~= "joh"@);
                assert("joh"@[0] != "1mo"@[0]);
                assert("joh"@[0] != "2mo"@[0]);
                assert("joh"@[0] != "3mo"@[0]);
                assert("joh"@[0] != "4mo"@[0]);
                assert("joh"@[0] != "5mo"@[0]);
                assert(book_for_abbrev(TextId::FiR1933_38, "joh"@) == Some(BookId::John));
            },
        },
    }
}

} // verus!

verus! {

/// The number of abbreviation variants the free-text scanner recognizes for
/// a text.
pub open spec fn scan_key_count(text: TextId) -> int {
    match text {
        TextId::EnLSB => 21,
        TextId::FiR1933_38 => 26,
    }
}

/// The abbreviation variants the free-text scanner recognizes for a text,
/// in lower case: every abbreviation the text's table resolves, in its
/// sanitized form and, where the display form carries periods, in that
/// dotted form as well.
pub open spec fn scan_key(text: TextId, j: int) -> Seq<char> {
    match text {
        TextId::EnLSB =>
        if j == 0 {
            "gen"@
        } else if j == 1 {
            "genesis"@
        } else if j == 2 {
            "gn"@
        } else if j == 3 {
            "ex"@
        } else if j == 4 {
            "exo"@
        } else if j == 5 {
            "exodus"@
        } else if j == 6 {
            "lev"@
        } else if j == 7 {
            "leviticus"@
        } else if j == 8 {
            "lv"@
        } else if j == 9 {
            "nm"@
        } else if j == 10 {
            "num"@
        } else if j == 11 {
            "numbers"@
        } else if j == 12 {
            "de"@
        } else if j == 13 {
            "deu"@
        } else if j == 14 {
            "deuteronomy"@
        } else if j == 15 {
            "dt"@
        } else if j == 16 {
            "matt"@
        } else if j == 17 {
            "matthew"@
        } else if j == 18 {
            "mt"@
        } else if j == 19 {
            "jh"@
        } else {
            "john"@
        },
        TextId::FiR1933_38 =>
        if j == 0 {
            "1mo"@
        } else if j == 1 {
            "1 moos"@
        } else if j == 2 {
            "1 mooses"@
        } else if j == 3 {
            "1. moos."@
        } else if j == 4 {
            "2mo"@
        } else if j == 5 {
            "2 moos"@
        } else if j == 6 {
            "2 mooses"@
        } else if j == 7 {
            "2. moos."@
        } else if j == 8 {
            "3mo"@
        } else if j == 9 {
            "3 moos"@
        } else if j == 10 {
            "3 mooses"@
        } else if j == 11 {
            "3. moos."@
        } else if j == 12 {
            "4mo"@
        } else if j == 13 {
            "4 moos"@
        } else if j == 14 {
            "4 mooses"@
        } else if j == 15 {
            "4. moos."@
        } else if j == 16 {
            "5mo"@
        } else if j == 17 {
            "5 moos"@
        } else if j == 18 {
            "5 mooses"@
        } else if j == 19 {
            "5. moos."@
        } else if j == 20 {
            "matt"@
        } else if j == 21 {
            "matt."@
        } else if j == 22 {
            "matteus"@
        } else if j == 23 {
            "joh"@
        } else if j == 24 {
            "joh."@
        } else {
            "johannes"@
        },
    }
}

/// The `j`-th scanner abbreviation variant of a text.
pub fn scan_key_str(text: &TextId, j: usize) -> (r: &'static str)
    requires
        j < scan_key_count(*text),
    ensures
        r@ == scan_key(*text, j as int),
{
    match text {
        TextId::EnLSB =>
        if j == 0 {
            "gen"
        } else if j == 1 {
            "genesis"
        } else if j == 2 {
            "gn"
        } else if j == 3 {
            "ex"
        } else if j == 4 {
            "exo"
        } else if j == 5 {
            "exodus"
        } else if j == 6 {
            "lev"
        } else if j == 7 {
            "leviticus"
        } else if j == 8 {
            "lv"
        } else if j == 9 {
            "nm"
        } else if j == 10 {
            "num"
        } else if j == 11 {
            "numbers"
        } else if j == 12 {
            "de"
        } else if j == 13 {
            "deu"
        } else if j == 14 {
            "deuteronomy"
        } else if j == 15 {
            "dt"
        } else if j == 16 {
            "matt"
        } else if j == 17 {
            "matthew"
        } else if j == 18 {
            "mt"
        } else if j == 19 {
            "jh"
        } else {
            "john"
        },
        TextId::FiR1933_38 =>
        if j == 0 {
            "1mo"
        } else if j == 1 {
            "1 moos"
        } else if j == 2 {
            "1 mooses"
        } else if j == 3 {
            "1. moos."
        } else if j == 4 {
            "2mo"
        } else if j == 5 {
            "2 moos"
        } else if j == 6 {
            "2 mooses"
        } else if j == 7 {
            "2. moos."
        } else if j == 8 {
            "3mo"
        } else if j == 9 {
            "3 moos"
        } else if j == 10 {
            "3 mooses"
        } else if j == 11 {
            "3. moos."
        } else if j == 12 {
            "4mo"
        } else if j == 13 {
            "4 moos"
        } else if j == 14 {
            "4 mooses"
        } else if j == 15 {
            "4. moos."
        } else if j == 16 {
            "5mo"
        } else if j == 17 {
            "5 moos"
        } else if j == 18 {
            "5 mooses"
        } else if j == 19 {
            "5. moos."
        } else if j == 20 {
            "matt"
        } else if j == 21 {
            "matt."
        } else if j == 22 {
            "matteus"
        } else if j == 23 {
            "joh"
        } else if j == 24 {
            "joh."
        } else {
            "johannes"
        },
    }
}

/// How many abbreviation variants the scanner tries for a text.
pub fn scan_key_len(text: &TextId) -> (r: usize)
    ensures
        r == scan_key_count(*text),
{
    match text {
        TextId::EnLSB => 21,
        TextId::FiR1933_38 => 26,
    }
}

} // verus!
