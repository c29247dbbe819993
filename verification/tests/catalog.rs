use rust_exercises::catalog::{AudioBook, Base, Book, Item, Library, LibraryError, Painting, Statue};

fn base(title: &str, author: &str, keywords: &[&str]) -> Base {
    Base {
        title: title.to_string(),
        author: author.to_string(),
        keywords: keywords.iter().map(|k| k.to_string()).collect(),
        copies: 2,
    }
}

fn book(title: &str, isbn: &str) -> Item {
    Item::Book(Book { base: base(title, "Eca", &["novel", "classic", "novel"]), isbn: isbn.to_string() })
}

#[test]
fn add_and_search() {
    let mut l = Library::new();
    assert!(l.add_item(book("Os Maias", "111")).is_ok());
    assert!(l.add_item(Item::AudioBook(AudioBook { base: base("Sermao", "Vieira", &["classic"]), duration: 90 })).is_ok());
    assert_eq!(l.search_by_isbn("111").ok().and_then(|i| i.get_title()), Some("Os Maias".to_string()));
    assert_eq!(l.search_by_title("Sermao").ok().and_then(|i| i.get_duration()), Some(90));
    assert_eq!(l.search_by_keyword("classic").map(|v| v.len()).ok(), Some(2));
    assert_eq!(l.search_by_keyword("novel").map(|v| v.len()).ok(), Some(1));
    assert_eq!(l.search_by_author("Eca").map(|v| v.len()).ok(), Some(1));
}

#[test]
fn search_errors() {
    let mut l = Library::new();
    assert!(matches!(l.search_by_isbn("1"), Err(LibraryError::ItemNotFound)));
    assert!(matches!(l.search_by_title("T"), Err(LibraryError::TitleDoesNotExist)));
    assert!(matches!(l.search_by_keyword("k"), Err(LibraryError::KeywordDoesNotExist)));
    assert!(matches!(l.search_by_author("A"), Err(LibraryError::ItemNotFound)));
}

#[test]
fn repeated_isbn_and_title_are_refused() {
    let mut l = Library::new();
    assert!(l.add_item(book("A", "111")).is_ok());
    assert_eq!(l.add_item(book("B", "111")), Err(LibraryError::BookAlreadyExists));
    // A refused ISBN leaves the indexes alone.
    assert!(matches!(l.search_by_title("B"), Err(LibraryError::TitleDoesNotExist)));
    assert_eq!(l.search_by_author("Eca").map(|v| v.len()).ok(), Some(1));
    assert_eq!(l.add_item(book("A", "222")), Err(LibraryError::TitleAlreadyExists));
    // A refused title has already been filed by ISBN and author.
    assert!(l.search_by_isbn("222").is_ok());
    assert_eq!(l.search_by_author("Eca").map(|v| v.len()).ok(), Some(2));
    assert_eq!(l.search_by_keyword("novel").map(|v| v.len()).ok(), Some(1));
}

#[test]
fn item_getters() {
    let b = book("Os Maias", "111");
    assert_eq!(b.get_author(), Some("Eca".to_string()));
    assert_eq!(b.get_keywords(), Some(vec!["novel".to_string(), "classic".to_string()]));
    assert_eq!(b.get_copies(), Some(2));
    assert_eq!(b.get_isbn(), Some("111".to_string()));
    assert_eq!(b.get_duration(), None);
    assert_eq!(b.get_dimension_statue(), None);
    let s = Item::Statue(Statue { base: base("David", "M", &[]), dimensions: (1.0f32.to_bits(), 2.0f32.to_bits(), 5.0f32.to_bits()) });
    let d = s.get_dimension_statue().unwrap();
    assert_eq!((f32::from_bits(d.0), f32::from_bits(d.1), f32::from_bits(d.2)), (1.0, 2.0, 5.0));
    assert_eq!(s.get_isbn(), None);
    let p = Item::Painting(Painting { base: base("Mona", "L", &["art"]), dimensions: (3.0f32.to_bits(), 4.0f32.to_bits()) });
    assert_eq!(p.get_dimension_painting(), Some((3.0f32.to_bits(), 4.0f32.to_bits())));
    assert_eq!(p.get_dimension_statue(), None);
    assert_eq!(p.get_title(), Some("Mona".to_string()));
}
