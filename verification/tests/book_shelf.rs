use rust_exercises::book_shelf::{read_loan_number, Book, Library, LibraryAction, LibraryOp};

fn book(isbn: &str, title: &str) -> Book {
    Book {
        isbn: isbn.to_string(),
        title: title.to_string(),
        author: "Andre Silva".to_string(),
        keywords: vec!["teste1".to_string(), "teste2".to_string()],
    }
}

fn shelf(l: &Library) -> Vec<(String, u32)> {
    l.list_books().into_iter().map(|(b, c)| (b.isbn, c)).collect()
}

#[test]
fn add_book_counts_copies() {
    let mut l = Library::new();
    l.add_book(book("123", "Teste123"));
    l.add_book(book("123", "Teste123"));
    l.add_book(book("234", "Teste234"));
    assert_eq!(shelf(&l), vec![("123".to_string(), 2), ("234".to_string(), 1)]);
}

#[test]
fn delete_book_undoes_add_book() {
    let mut l = Library::new();
    l.add_book(book("123", "Teste123"));
    l.add_book(book("234", "Teste234"));
    l.delete_book(&"234".to_string());
    assert_eq!(shelf(&l), vec![("123".to_string(), 1)]);
    l.add_book(book("123", "Teste123"));
    l.delete_book(&"123".to_string());
    assert_eq!(shelf(&l), vec![("123".to_string(), 1)]);
    l.delete_book(&"999".to_string());
    assert_eq!(shelf(&l), vec![("123".to_string(), 1)]);
}

#[test]
fn add_action_checks_fields() {
    let mut l = Library::new();
    let ok = l.apply(LibraryAction::Add {
        isbn: "1".to_string(),
        title: "T".to_string(),
        author: "A".to_string(),
        keywords: "a,b,,c".to_string(),
    });
    assert!(ok);
    let books = l.list_books();
    assert_eq!(books[0].0.keywords, vec!["a".to_string(), "b".to_string(), "".to_string(), "c".to_string()]);
    let refused = l.apply(LibraryAction::Add {
        isbn: "".to_string(),
        title: "T".to_string(),
        author: "A".to_string(),
        keywords: "".to_string(),
    });
    assert!(!refused);
    assert_eq!(shelf(&l), vec![("1".to_string(), 1)]);
}

#[test]
fn remove_action() {
    let mut l = Library::new();
    l.add_book(book("345", "Teste345"));
    l.add_book(book("345", "Teste345"));
    assert!(l.apply(LibraryAction::Remove { isbn: "345".to_string() }));
    assert_eq!(shelf(&l), vec![("345".to_string(), 1)]);
    // The last copy goes, and the answer is false: no entry with 0 copies is left.
    assert!(!l.apply(LibraryAction::Remove { isbn: "345".to_string() }));
    assert!(shelf(&l).is_empty());
    assert!(!l.apply(LibraryAction::Remove { isbn: "345".to_string() }));
}

#[test]
fn request_and_return() {
    let mut l = Library::new();
    l.add_book(book("123", "Teste123"));
    assert!(l.apply(LibraryAction::Request { isbn: "123".to_string(), name: "Ana".to_string() }));
    assert_eq!(shelf(&l), vec![("123".to_string(), 0)]);
    assert_eq!(l.requested().len(), 1);
    assert_eq!(l.requested()[0].1, "Ana");
    assert!(!l.apply(LibraryAction::Request { isbn: "123".to_string(), name: "Rui".to_string() }));
    assert!(!l.apply(LibraryAction::Request { isbn: "999".to_string(), name: "Rui".to_string() }));
    assert!(!l.apply(LibraryAction::Remove { isbn: "123".to_string() }));
    assert!(l.apply(LibraryAction::Return { number: 1 }));
    assert_eq!(shelf(&l), vec![("123".to_string(), 1)]);
    assert!(l.requested().is_empty());
}

#[test]
fn return_of_a_book_no_longer_shelved() {
    let mut l = Library::new();
    l.add_book(book("1", "One"));
    l.add_book(book("1", "One"));
    assert!(l.apply(LibraryAction::Request { isbn: "1".to_string(), name: "Ana".to_string() }));
    l.delete_book(&"1".to_string());
    assert!(shelf(&l).is_empty());
    assert!(!l.apply(LibraryAction::Return { number: 1 }));
    assert!(l.requested().is_empty());
}

#[test]
fn list_and_unknown() {
    let mut l = Library::new();
    assert!(l.apply(LibraryAction::List));
    assert!(!l.apply(LibraryAction::Unknown));
}

#[test]
fn operations_by_name() {
    assert_eq!(LibraryOp::parse("add"), LibraryOp::Add);
    assert_eq!(LibraryOp::parse("remove"), LibraryOp::Remove);
    assert_eq!(LibraryOp::parse("list"), LibraryOp::List);
    assert_eq!(LibraryOp::parse("request"), LibraryOp::Request);
    assert_eq!(LibraryOp::parse("return"), LibraryOp::Return);
    assert_eq!(LibraryOp::parse("Add"), LibraryOp::Unknown);
}

#[test]
fn loan_numbers() {
    assert_eq!(read_loan_number(" 2\n", 3), Ok(2));
    assert_eq!(read_loan_number("0", 3), Err("Out of Bounds"));
    assert_eq!(read_loan_number("4", 3), Err("Out of Bounds"));
    assert_eq!(read_loan_number("two", 3), Err("Invalid ID"));
}

#[test]
fn book_description() {
    assert_eq!(book("123", "Teste123").describe(), "ISBN: 123 | TITLE: Teste123 | AUTHOR: Andre Silva");
    let b = book("1", "x");
    let c = b.duplicate();
    assert_eq!(c.isbn, b.isbn);
    assert_eq!(c.keywords, b.keywords);
}

#[test]
fn action_completes_checks_loans_and_counts() {
    let mut l = Library::new();
    assert!(!l.action_completes(&LibraryAction::Return { number: 1 }));
    l.add_book(book("1", "One"));
    assert!(l.apply(LibraryAction::Request { isbn: "1".to_string(), name: "Ana".to_string() }));
    assert!(l.action_completes(&LibraryAction::Return { number: 1 }));
    assert!(!l.action_completes(&LibraryAction::Return { number: 2 }));
    assert!(l.action_completes(&LibraryAction::Add { isbn: "1".to_string(), title: "One".to_string(), author: "A".to_string(), keywords: "k".to_string() }));
}
