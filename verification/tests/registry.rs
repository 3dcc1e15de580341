use raqiya_bible_reference::bible::{
    find_reference_matches_in, parse_reference_by_text, replace_reference_matches_in, BookId,
    BookInfo, Reference, TextId,
};

#[test]
fn sanitize_lower_cases_and_strips_periods() {
    assert_eq!(BookInfo::sanitize("Matt."), "matt");
    assert_eq!(BookInfo::sanitize("1. Moos."), "1 moos");
    assert_eq!(BookInfo::sanitize("JOHN"), "john");
    assert_eq!(BookInfo::sanitize(""), "");
}

#[test]
fn find_by_sanitized_abbreviation_resolves_exact_keys_only() {
    let found =
        BookId::find_by_sanitized_abbreviation(&TextId::FiR1933_38, &String::from("joh"));
    assert_eq!(found, Some(BookId::John));

    let missing =
        BookId::find_by_sanitized_abbreviation(&TextId::FiR1933_38, &String::from("xyz"));
    assert_eq!(missing, None);

    // Lookups are exact: the unsanitized, dotted form is not a key.
    let dotted =
        BookId::find_by_sanitized_abbreviation(&TextId::FiR1933_38, &String::from("Joh."));
    assert_eq!(dotted, None);
}

#[test]
fn book_info_lookup_yields_abbreviation_and_chapter_count() {
    let info = BookInfo::get_by_book_id_and_text(&BookId::Genesis, &TextId::EnLSB).unwrap();
    assert_eq!(info.0, "Genesis");
    assert_eq!(info.1, 50);

    let info = BookInfo::get_by_book_id_and_text(&BookId::John, &TextId::FiR1933_38).unwrap();
    assert_eq!(info.0, "Joh.");
    assert_eq!(info.1, 21);
}

#[test]
fn reference_getters_expose_book_chapter_and_number() {
    let reference = parse_reference_by_text("Joh. 1:15", &TextId::FiR1933_38).unwrap();
    assert_eq!(reference.get_book_abbreviation(&TextId::FiR1933_38), "Joh.");
    assert_eq!(reference.get_chapter(), 1);
    assert_eq!(reference.get_number(), Some(15));

    let chapter_only = parse_reference_by_text("Joh. 2", &TextId::FiR1933_38).unwrap();
    assert_eq!(chapter_only.get_number(), None);
}

#[test]
fn render_then_parse_yields_the_same_reference() {
    let text = TextId::EnLSB;
    let reference = Reference::BookChapter(BookId::John, 21);
    let rendered = reference.to_string(&text);
    assert_eq!(rendered, "John 21");

    match parse_reference_by_text(&rendered, &text).unwrap() {
        Reference::BookChapter(book_id, chapter) => {
            assert_eq!(book_id, BookId::John);
            assert_eq!(chapter, 21);
        }
        _ => panic!("expected a chapter reference"),
    }

    let range = Reference::BookChapterNumberFromTo(BookId::Genesis, 50, 1, 26);
    let rendered = range.to_string(&text);
    assert_eq!(rendered, "Genesis 50:1-26");

    match parse_reference_by_text(&rendered, &text).unwrap() {
        Reference::BookChapterNumberFromTo(book_id, chapter, from, to) => {
            assert_eq!(book_id, BookId::Genesis);
            assert_eq!(chapter, 50);
            assert_eq!(from, 1);
            assert_eq!(to, 26);
        }
        _ => panic!("expected a verse range reference"),
    }
}

#[test]
fn render_then_parse_fails_for_a_many_word_abbreviation() {
    // The Finnish display abbreviation of Genesis has interior spaces, so
    // its rendering splits into more than two parts and does not parse back.
    let text = TextId::FiR1933_38;
    let rendered = Reference::BookChapter(BookId::Genesis, 2).to_string(&text);
    assert_eq!(rendered, "1. Moos. 2");
    assert!(parse_reference_by_text(&rendered, &text).is_none());
}

#[test]
fn strict_parse_rejects_out_of_bounds_chapters() {
    let text = TextId::EnLSB;
    assert!(parse_reference_by_text("John 0", &text).is_none());
    assert!(parse_reference_by_text("John 22", &text).is_none());
    assert!(parse_reference_by_text("John 21", &text).is_some());
}

#[test]
fn strict_parse_rejects_an_inverted_verse_range() {
    let text = TextId::EnLSB;
    assert!(parse_reference_by_text("John 3:5-2", &text).is_none());
    assert!(parse_reference_by_text("John 3:2-5", &text).is_some());
}

#[test]
fn find_reference_matches_in_text_without_references_finds_nothing() {
    let matches = find_reference_matches_in("no citations in this sentence", &TextId::FiR1933_38);
    assert!(matches.is_empty());
}

#[test]
fn find_reference_matches_in_text_with_one_reference_finds_exactly_it() {
    let matches = find_reference_matches_in("see Joh 3:16 for more", &TextId::FiR1933_38);
    assert_eq!(matches.len(), 1);
    assert_eq!(matches[0].content, "Joh 3:16");
    assert_eq!(matches[0].position, 4);
}

#[test]
fn replace_rewrites_each_parsable_match_with_its_rendering() {
    let replaced = replace_reference_matches_in(
        "Example Matt. 3 (Joh 12:24)",
        &TextId::FiR1933_38,
        |reference: &Reference| reference.to_string(&TextId::EnLSB),
    );
    assert_eq!(replaced, "Example Matthew 3 (John 12:24)");
}

#[test]
fn replace_keeps_an_unparsable_match_unchanged() {
    // The chapter is beyond the chapter count of John, so the match does not
    // re-parse and the original text stands.
    let replaced = replace_reference_matches_in(
        "see Joh 22 for more",
        &TextId::FiR1933_38,
        |reference: &Reference| reference.to_string(&TextId::EnLSB),
    );
    assert_eq!(replaced, "see Joh 22 for more");
}

#[test]
fn replace_is_idempotent_when_replacements_render_to_themselves() {
    let text = TextId::FiR1933_38;
    let render = |reference: &Reference| reference.to_string(&TextId::FiR1933_38);

    let once = replace_reference_matches_in("Example Matt. 3 (Joh 12:24)", &text, render);
    assert_eq!(once, "Example Matt. 3 (Joh. 12:24)");

    let twice = replace_reference_matches_in(&once, &text, render);
    assert_eq!(twice, once);
}
