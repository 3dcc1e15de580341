use raqiya_bible_reference::{
    parse_reference, Locale, ReferenceParseErrorCode, ReferenceParseResult,
    ReferenceParseResultType,
};

#[test]
fn fail_parse_reference_to_many_verses_with_invalid_range_between_verse_numbers() {
    // The end verse number is less than the start verse number,
    // which doesn't make sense and should fail.
    let parse_result = parse_reference("John 3:2-1");
    assert_eq!(
        parse_result,
        Err(ReferenceParseErrorCode::InvalidRangeBetweenVerseNumbers)
    );
}

#[test]
fn parse_reference_to_chapter_with_one_word_book_name() {
    let parse_result = parse_reference("John 3").unwrap();
    assert_eq!(
        parse_result,
        ReferenceParseResult {
            book_name: "John",
            chapter: 3,
            reference_type: ReferenceParseResultType::Chapter
        }
    );
}

#[test]
fn parse_reference_to_chapter_with_two_word_book_name() {
    let parse_result = parse_reference("1 John 3").unwrap();
    assert_eq!(
        parse_result,
        ReferenceParseResult {
            book_name: "John",
            chapter: 3,
            reference_type: ReferenceParseResultType::Chapter
        }
    );

    let parse_result = parse_reference("1 John 15").unwrap();
    assert_eq!(
        parse_result,
        ReferenceParseResult {
            book_name: "John",
            chapter: 15,
            reference_type: ReferenceParseResultType::Chapter
        }
    );
}

#[test]
fn parse_reference_to_one_verse() {
    let parse_result = parse_reference("John 3:1").unwrap();
    assert_eq!(
        parse_result,
        ReferenceParseResult {
            book_name: "John",
            chapter: 3,
            reference_type: ReferenceParseResultType::Verse { number: 1 }
        }
    );

    let parse_result = parse_reference("John 3:16").unwrap();
    assert_eq!(
        parse_result,
        ReferenceParseResult {
            book_name: "John",
            chapter: 3,
            reference_type: ReferenceParseResultType::Verse { number: 16 }
        }
    );
}

#[test]
fn parse_reference_to_one_verse_and_onwards() {
    let parse_result = parse_reference("John 3:1+").unwrap();
    assert_eq!(
        parse_result,
        ReferenceParseResult {
            book_name: "John",
            chapter: 3,
            reference_type: ReferenceParseResultType::VerseFromOnwards { number_from: 1 }
        }
    );
}

#[test]
fn parse_reference_to_many_verses_in_range() {
    let parse_result = parse_reference("John 3:1-2").unwrap();
    assert_eq!(
        parse_result,
        ReferenceParseResult {
            book_name: "John",
            chapter: 3,
            reference_type: ReferenceParseResultType::VerseFromTo {
                number_from: 1,
                number_to: 2
            }
        }
    );
}

#[test]
fn parse_references() {
    let parse_result = raqiya_bible_reference::parse_references("John 3:1-2; John 3:4-5").unwrap();
    assert_eq!(
        parse_result,
        &[
            ReferenceParseResult {
                book_name: "John",
                chapter: 3,
                reference_type: ReferenceParseResultType::VerseFromTo {
                    number_from: 1,
                    number_to: 2
                }
            },
            ReferenceParseResult {
                book_name: "John",
                chapter: 3,
                reference_type: ReferenceParseResultType::VerseFromTo {
                    number_from: 4,
                    number_to: 5
                }
            }
        ]
    );
}

#[test]
fn fail_parse_reference_without_any_digit() {
    let parse_result = parse_reference("John");
    assert_eq!(parse_result, Err(ReferenceParseErrorCode::BookNameNeverEnds));
}

#[test]
fn fail_parse_reference_of_empty_input() {
    let parse_result = parse_reference("");
    assert_eq!(parse_result, Err(ReferenceParseErrorCode::UnknownError));
}

#[test]
fn fail_parse_reference_with_chapter_beyond_byte_range() {
    let parse_result = parse_reference("John 1000");
    assert_eq!(parse_result, Err(ReferenceParseErrorCode::InvalidChapterFormat));
}

#[test]
fn fail_parse_reference_with_verse_beyond_byte_range() {
    let parse_result = parse_reference("John 3:1000");
    assert_eq!(
        parse_result,
        Err(ReferenceParseErrorCode::InvalidVerseNumberFormat)
    );
}

#[test]
fn fail_parse_references_stops_at_first_bad_part() {
    let parse_result = raqiya_bible_reference::parse_references("John 3:1-2; John");
    assert_eq!(parse_result, Err(ReferenceParseErrorCode::BookNameNeverEnds));
}

#[test]
fn parse_reference_with_largest_verse_number() {
    let parse_result = parse_reference("John 3:255").unwrap();
    assert_eq!(
        parse_result,
        ReferenceParseResult {
            book_name: "John",
            chapter: 3,
            reference_type: ReferenceParseResultType::Verse { number: 255 }
        }
    );
}

#[test]
fn error_codes_render_to_english_messages() {
    assert_eq!(
        ReferenceParseErrorCode::BookNameNeverEnds.to_string(Locale::En),
        "Book name never ends."
    );
    assert_eq!(
        ReferenceParseErrorCode::InvalidChapterFormat.to_string(Locale::En),
        "Invalid chapter format."
    );
    assert_eq!(
        ReferenceParseErrorCode::InvalidRangeBetweenVerseNumbers.to_string(Locale::En),
        "Invalid range between verse numbers."
    );
    assert_eq!(
        ReferenceParseErrorCode::InvalidVerseNumberFormat.to_string(Locale::En),
        "Invalid verse number format."
    );
    assert_eq!(
        ReferenceParseErrorCode::UnknownError.to_string(Locale::En),
        "Unknown error."
    );
}
