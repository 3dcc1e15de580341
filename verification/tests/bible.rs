use raqiya_bible_reference::bible::{
    find_reference_matches_in, parse_reference_by_text, parse_references_by_text, BookId,
    Reference, TextId,
};

#[test]
fn convert_valid_reference_from_one_text_to_another() {
    let reference = parse_reference_by_text("Joh 1", &TextId::FiR1933_38).unwrap();
    let result = reference.to_string(&TextId::EnLSB);
    assert_eq!(result, "John 1");
}

#[test]
fn fail_parse_reference_with_book_and_chapter_when_reference_is_contains_chapter_that_does_not_exist(
) {
    let text = TextId::FiR1933_38;

    let reference = parse_reference_by_text("Joh 0", &text);
    assert!(reference.is_none());

    let reference = parse_reference_by_text("Joh 22", &text);
    assert!(reference.is_none());
}

#[test]
fn fail_parse_reference_with_book_and_chapter_when_reference_is_incorrect() {
    let text = TextId::FiR1933_38;

    let reference = parse_reference_by_text("1", &text);
    assert!(reference.is_none());

    let reference = parse_reference_by_text("Nothing", &text);
    assert!(reference.is_none());

    let reference = parse_reference_by_text("Matt", &text);
    assert!(reference.is_none());

    let reference = parse_reference_by_text("Mat. 1", &text);
    assert!(reference.is_none());
}

#[test]
fn find_references_in_str() {
    let matches = find_reference_matches_in("Example Matt. 3 (Joh 12:24)", &TextId::FiR1933_38);

    assert_eq!(matches.len(), 2);

    assert_eq!(matches[0].content, "Matt. 3");
    assert_eq!(matches[0].position, 8);

    assert_eq!(matches[1].content, "Joh 12:24");
    assert_eq!(matches[1].position, 17);
}

#[test]
fn parse_multiple_references_with_book_and_chapter_when_references_are_correct() {
    let references = parse_references_by_text("Matt 1; Joh. 1", &TextId::FiR1933_38);

    match references[0].as_ref().unwrap() {
        Reference::BookChapter(book_id, chapter) => {
            assert_eq!(*book_id, BookId::Matthew);
            assert_eq!(*chapter, 1);
        }
        _ => panic!("Given pattern does not match!"),
    }
    match references[1].as_ref().unwrap() {
        Reference::BookChapter(book_id, chapter) => {
            assert_eq!(*book_id, BookId::John);
            assert_eq!(*chapter, 1);
        }
        _ => panic!("Given pattern does not match!"),
    }
}

#[test]
fn parse_multiple_references_with_book_and_chapter_and_number_when_references_are_correct() {
    let references = parse_references_by_text("Matt 19:18; Joh. 11:12", &TextId::FiR1933_38);

    match references[0].as_ref().unwrap() {
        Reference::BookChapterNumber(book_id, chapter, number) => {
            assert_eq!(*book_id, BookId::Matthew);
            assert_eq!(*chapter, 19);
            assert_eq!(*number, 18);
        }
        _ => panic!("Given pattern does not match!"),
    }
    match references[1].as_ref().unwrap() {
        Reference::BookChapterNumber(book_id, chapter, number) => {
            assert_eq!(*book_id, BookId::John);
            assert_eq!(*chapter, 11);
            assert_eq!(*number, 12);
        }
        _ => panic!("Given pattern does not match!"),
    }
}

#[test]
fn parse_reference_with_book_and_chapter_when_reference_is_correct() {
    let text = TextId::FiR1933_38;

    match parse_reference_by_text("matt 1", &text).unwrap() {
        Reference::BookChapter(book_id, chapter) => {
            assert_eq!(book_id, BookId::Matthew);
            assert_eq!(chapter, 1);
        }
        _ => panic!("Given pattern does not match!"),
    }
    match parse_reference_by_text("Matt. 1", &text).unwrap() {
        Reference::BookChapter(book_id, chapter) => {
            assert_eq!(book_id, BookId::Matthew);
            assert_eq!(chapter, 1);
        }
        _ => panic!("Given pattern does not match!"),
    }
    match parse_reference_by_text("Matt. 10", &text).unwrap() {
        Reference::BookChapter(book_id, chapter) => {
            assert_eq!(book_id, BookId::Matthew);
            assert_eq!(chapter, 10);
        }
        _ => panic!("Given pattern does not match!"),
    }
    match parse_reference_by_text("Joh. 1", &text).unwrap() {
        Reference::BookChapter(book_id, chapter) => {
            assert_eq!(book_id, BookId::John);
            assert_eq!(chapter, 1);
        }
        _ => panic!("Given pattern does not match!"),
    }
}

#[test]
fn parse_reference_with_book_and_chapter_and_number_when_reference_is_correct() {
    let text = TextId::FiR1933_38;

    let reference = parse_reference_by_text("Joh 1:1", &text);
    match reference.unwrap() {
        Reference::BookChapterNumber(book_id, chapter, number) => {
            assert_eq!(book_id, BookId::John);
            assert_eq!(chapter, 1);
            assert_eq!(number, 1);
        }
        _ => panic!("Given pattern does not match!"),
    }

    let reference = parse_reference_by_text("Joh 20:23", &text);
    match reference.unwrap() {
        Reference::BookChapterNumber(book_id, chapter, number) => {
            assert_eq!(book_id, BookId::John);
            assert_eq!(chapter, 20);
            assert_eq!(number, 23);
        }
        _ => panic!("Given pattern does not match!"),
    }
}

#[test]
fn parse_reference_with_book_and_chapter_and_number_from_and_number_to_when_reference_is_correct() {
    let text = TextId::FiR1933_38;

    let reference = parse_reference_by_text("Joh 1:3-8", &text);
    match reference.unwrap() {
        Reference::BookChapterNumberFromTo(book_id, chapter, number_from, number_to) => {
            assert_eq!(book_id, BookId::John);
            assert_eq!(chapter, 1);
            assert_eq!(number_from, 3);
            assert_eq!(number_to, 8);
        }
        _ => panic!("Given pattern does not match!"),
    }

    let reference = parse_reference_by_text("Joh 20:15-27", &text);
    match reference.unwrap() {
        Reference::BookChapterNumberFromTo(book_id, chapter, number_from, number_to) => {
            assert_eq!(book_id, BookId::John);
            assert_eq!(chapter, 20);
            assert_eq!(number_from, 15);
            assert_eq!(number_to, 27);
        }
        _ => panic!("Given pattern does not match!"),
    }
}
