use stockroom::catalog::ErrorKind;
use stockroom::catalog::Library;
use stockroom::catalog::Media;
use stockroom::catalog::MediaType;
use stockroom::catalog::is_isbn13;

fn book(id: u64, title: &str, author: &str, isbn: u64, keywords: Vec<String>) -> Media {
    Media::new(
        id,
        title.to_string(),
        author.to_string(),
        Some(1990),
        MediaType::new_book(Some(isbn), None),
        keywords,
    )
}

#[test]
fn isbn_lengths_are_told_apart() {
    assert!(is_isbn13(9780306406157));
    assert!(!is_isbn13(306406152));
    // fourteen digits are not an ISBN-13 either
    assert!(!is_isbn13(10_000_000_000_000));
    assert!(is_isbn13(1_000_000_000_000));
    let t = MediaType::new_book(Some(9780306406157), Some(306406152));
    match t {
        MediaType::Book { isbn10, isbn13 } => {
            assert_eq!(isbn10, Some(306406152));
            assert_eq!(isbn13, Some(9780306406157));
        },
        _ => panic!("expected a book"),
    }
}

#[test]
fn duplicate_isbns_are_refused() {
    let mut lib = Library::new("town", "unused");
    assert!(lib.add(book(1, "Dune", "Frank Herbert", 9780441172719, vec![])).is_ok());
    let twin = book(2, "Dune again", "Somebody", 9780441172719, vec![]);
    assert!(matches!(lib.add(twin), Err(ErrorKind::BookIsbnAlreadyExists)));
    let painting = Media::new(
        3,
        "Nighthawks".to_string(),
        "Edward Hopper".to_string(),
        Some(1942),
        MediaType::new_painting(84, 152, Some("oil".to_string())),
        vec![],
    );
    assert!(lib.add(painting).is_ok());
    let twin_painting = Media::new(
        4,
        "Nighthawks".to_string(),
        "Edward Hopper".to_string(),
        None,
        MediaType::new_painting(10, 10, None),
        vec![],
    );
    assert!(matches!(
        lib.add(twin_painting),
        Err(ErrorKind::MediaAlreadyExists(_))
    ));
}

#[test]
fn borrow_and_return_toggle_availability() {
    let mut lib = Library::new("town", "unused");
    assert!(lib.add(book(1, "Dune", "Frank Herbert", 9780441172719, vec![])).is_ok());
    assert!(lib.borrow(1).is_ok());
    assert!(matches!(lib.borrow(1), Err(ErrorKind::MediaNotAvailable(1))));
    assert_eq!(lib.list_borrowed().len(), 1);
    assert!(lib.return_media(1).is_ok());
    assert!(matches!(lib.return_media(1), Err(ErrorKind::MediaAlreadyAvailable(1))));
    assert_eq!(lib.list_available().len(), 1);
    assert!(matches!(lib.borrow(9), Err(ErrorKind::MediaNotFound(9))));
}

#[test]
fn search_is_case_insensitive() {
    let mut lib = Library::new("town", "unused");
    assert!(lib.add(book(1, "The Left Hand of Darkness", "Ursula K. Le Guin", 9780441478125,
        vec!["SCIENCE".to_string()])).is_ok());
    let hits = lib.search_title(vec!["left HAND".to_string()]).unwrap();
    assert_eq!(hits.len(), 1);
    assert_eq!(hits[0].id, 1);
    let hits = lib.search_author(vec!["le guin".to_string()]).unwrap();
    assert_eq!(hits.len(), 1);
    let hits = lib.search_keywords(vec!["science".to_string()]).unwrap();
    assert_eq!(hits.len(), 1);
    assert!(matches!(
        lib.search_title(vec!["dune".to_string()]),
        Err(ErrorKind::TitleNotFound(_))
    ));
    assert!(matches!(
        lib.search_author(vec!["herbert".to_string()]),
        Err(ErrorKind::AuthorNotFound(_))
    ));
    assert!(matches!(
        lib.search_keywords(vec!["cooking".to_string()]),
        Err(ErrorKind::KeywordNotFound(_))
    ));
}

#[test]
fn get_by_title_folds_case() {
    let mut lib = Library::new("town", "unused");
    assert!(lib.add(book(1, "Dune", "Frank Herbert", 9780441172719, vec![])).is_ok());
    let found = lib.get_by_title("DUNE", "frank herbert").unwrap();
    assert_eq!(found.id, 1);
    assert!(matches!(
        lib.get_by_title("Dune", "Nobody"),
        Err(ErrorKind::TitleByAuthorNotFound(_, _))
    ));
}

#[test]
fn changes_land_on_the_right_entry() {
    let mut lib = Library::new("town", "unused");
    assert!(lib.add(book(1, "Dune", "Frank Herbert", 9780441172719, vec![])).is_ok());
    assert!(lib.add(book(2, "Hyperion", "Dan Simmons", 9780553283686, vec![])).is_ok());
    assert!(lib.change_title(2, "Hyperion Cantos").is_ok());
    assert!(lib.change_author(2, "D. Simmons").is_ok());
    assert!(lib.change_year(2, 1989).is_ok());
    assert!(lib.add_keyword(2, "Poetry").is_ok());
    let m = lib.get(2).unwrap();
    assert_eq!(m.title, "Hyperion Cantos");
    assert_eq!(m.author, "D. Simmons");
    assert_eq!(m.year, Some(1989));
    assert_eq!(m.keywords, vec!["poetry".to_string()]);
    assert!(lib.remove_keyword(2, "POETRY").is_ok());
    assert!(lib.get(2).unwrap().keywords.is_empty());
    assert!(matches!(lib.change_title(9, "x"), Err(ErrorKind::MediaNotFound(9))));
    // the other entry is untouched
    assert_eq!(lib.get(1).unwrap().title, "Dune");
}

#[test]
fn isbn_changes_pick_their_slot() {
    let mut lib = Library::new("town", "unused");
    assert!(lib.add(book(1, "Dune", "Frank Herbert", 9780441172719, vec![])).is_ok());
    assert!(lib.change_isbn(1, 441172717).is_ok());
    let m = lib.get(1).unwrap();
    match &m.media_type {
        MediaType::Book { isbn10, isbn13 } => {
            assert_eq!(*isbn10, Some(441172717));
            assert_eq!(*isbn13, Some(9780441172719));
        },
        _ => panic!("expected a book"),
    }
    let found = lib.get_by_isbn(441172717).unwrap();
    assert_eq!(found.id, 1);
    let sculpture = Media::new(
        2,
        "David".to_string(),
        "Michelangelo".to_string(),
        None,
        MediaType::new_sculpture(517, 199, 199, 5560000, Some("marble".to_string())),
        vec![],
    );
    assert!(lib.add(sculpture).is_ok());
    assert!(matches!(lib.change_isbn(2, 12345), Err(ErrorKind::MediaDoesntHaveIsbn(_))));
}

#[test]
fn kind_accessors_answer_by_kind() {
    let audio = Media::new(
        1,
        "Dune".to_string(),
        "Frank Herbert".to_string(),
        None,
        MediaType::new_audio_book(75600, Some(9780441172719), None),
        vec![],
    );
    assert_eq!(audio.duration().unwrap(), 75600);
    assert_eq!(audio.isbn().unwrap(), (None, Some(9780441172719)));
    assert_eq!(audio.type_as_str(), "Audio Book");
    assert!(audio.dimensions().is_err());
    let sculpture = Media::new(
        2,
        "David".to_string(),
        "Michelangelo".to_string(),
        None,
        MediaType::new_sculpture(517, 199, 199, 5560000, Some("marble".to_string())),
        vec![],
    );
    assert_eq!(sculpture.dimensions().unwrap(), (517, 199, Some((199, 5560000))));
    assert_eq!(sculpture.material().unwrap(), "marble");
    assert!(sculpture.duration().is_err());
    assert!(sculpture.media_type.check_isbn(1) == false);
    assert_eq!(sculpture.type_to_string(), "Sculpture");
}

#[test]
fn kind_queries_ignore_blanks() {
    let mut lib = Library::new("town", "unused");
    let audio = Media::new(
        1,
        "Dune".to_string(),
        "Frank Herbert".to_string(),
        None,
        MediaType::new_audio_book(75600, Some(9780441172719), None),
        vec![],
    );
    assert!(lib.add(audio).is_ok());
    assert_eq!(lib.list_media_type("audiobook").len(), 1);
    assert_eq!(lib.list_media_type("Audio Book").len(), 1);
    assert_eq!(lib.list_media_type("book").len(), 0);
}

#[test]
fn adding_under_a_held_id_replaces_the_entry() {
    let mut lib = Library::new("town", "unused");
    assert!(lib.add(book(1, "Dune", "Frank Herbert", 9780441172719, vec![])).is_ok());
    assert!(lib.add(book(1, "Hyperion", "Dan Simmons", 9780553283686, vec![])).is_ok());
    assert_eq!(lib.list().len(), 1);
    assert_eq!(lib.get(1).unwrap().title, "Hyperion");
}

#[test]
fn listing_filters_by_kind_and_state() {
    let mut lib = Library::new("town", "unused");
    assert!(lib.add(book(1, "Dune", "Frank Herbert", 9780441172719, vec![])).is_ok());
    let painting = Media::new(
        2,
        "Nighthawks".to_string(),
        "Edward Hopper".to_string(),
        Some(1942),
        MediaType::new_painting(84, 152, None),
        vec![],
    );
    assert!(lib.add(painting).is_ok());
    assert_eq!(lib.list().len(), 2);
    assert_eq!(lib.list_media_type("book").len(), 1);
    assert_eq!(lib.list_media_type("PAINTING").len(), 1);
    assert!(lib.borrow(2).is_ok());
    assert_eq!(lib.list_available().len(), 1);
    assert_eq!(lib.list_borrowed_from_type("Painting").len(), 1);
    assert_eq!(lib.list_available_from_type("painting").len(), 0);
    assert!(lib.remove(2).is_ok());
    assert!(matches!(lib.remove(2), Err(ErrorKind::MediaNotFound(2))));
    assert_eq!(lib.list().len(), 1);
}
