use raqiya_bible_reference::{
    find_content_in_source, Reference, ReferenceParseResult, ReferenceParseResultType, VerseEvent,
};

fn sample_stream() -> Vec<VerseEvent> {
    vec![
        VerseEvent::VerseStart(String::from("John.3.1")),
        VerseEvent::Content(String::from("A")),
        VerseEvent::VerseStart(String::from("John.3.2")),
        VerseEvent::Content(String::from("B")),
    ]
}

#[test]
fn locate_verse_range_collects_each_verse_in_order() {
    let parse_result = ReferenceParseResult {
        book_name: "John",
        chapter: 3,
        reference_type: ReferenceParseResultType::VerseFromTo {
            number_from: 1,
            number_to: 2,
        },
    };

    let content = find_content_in_source(&sample_stream(), &parse_result).unwrap();
    assert_eq!(
        content,
        vec![
            Reference {
                chapter: 3,
                number: 1,
                content: String::from("A")
            },
            Reference {
                chapter: 3,
                number: 2,
                content: String::from("B")
            }
        ]
    );
}

#[test]
fn locate_fails_when_stream_ends_before_all_verses_are_found() {
    let parse_result = ReferenceParseResult {
        book_name: "John",
        chapter: 3,
        reference_type: ReferenceParseResultType::VerseFromTo {
            number_from: 1,
            number_to: 2,
        },
    };
    let truncated = vec![
        VerseEvent::VerseStart(String::from("John.3.1")),
        VerseEvent::Content(String::from("A")),
    ];

    let result = find_content_in_source(&truncated, &parse_result);
    assert!(result.is_err());
}

#[test]
fn locate_fails_when_content_does_not_follow_a_verse_boundary() {
    let parse_result = ReferenceParseResult {
        book_name: "John",
        chapter: 3,
        reference_type: ReferenceParseResultType::VerseFromTo {
            number_from: 1,
            number_to: 1,
        },
    };
    let stream = vec![
        VerseEvent::VerseStart(String::from("John.3.1")),
        VerseEvent::VerseStart(String::from("John.3.2")),
    ];

    let result = find_content_in_source(&stream, &parse_result);
    assert!(result.is_err());
}

#[test]
fn locate_skips_unrelated_events_before_the_expected_verse() {
    let parse_result = ReferenceParseResult {
        book_name: "John",
        chapter: 3,
        reference_type: ReferenceParseResultType::VerseFromTo {
            number_from: 2,
            number_to: 2,
        },
    };
    let stream = vec![
        VerseEvent::Content(String::from("prologue")),
        VerseEvent::VerseStart(String::from("John.2.2")),
        VerseEvent::Content(String::from("wrong chapter")),
        VerseEvent::VerseStart(String::from("John.3.2")),
        VerseEvent::Content(String::from("the one asked for")),
    ];

    let content = find_content_in_source(&stream, &parse_result).unwrap();
    assert_eq!(
        content,
        vec![Reference {
            chapter: 3,
            number: 2,
            content: String::from("the one asked for")
        }]
    );
}

#[test]
fn locate_chapter_reference_reads_nothing() {
    let parse_result = ReferenceParseResult {
        book_name: "John",
        chapter: 3,
        reference_type: ReferenceParseResultType::Chapter,
    };

    let content = find_content_in_source(&sample_stream(), &parse_result).unwrap();
    assert!(content.is_empty());
}

#[test]
fn locate_single_verse_reference_reads_nothing() {
    let parse_result = ReferenceParseResult {
        book_name: "John",
        chapter: 3,
        reference_type: ReferenceParseResultType::Verse { number: 1 },
    };

    let content = find_content_in_source(&sample_stream(), &parse_result).unwrap();
    assert!(content.is_empty());
}
