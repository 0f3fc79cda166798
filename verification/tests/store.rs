use library_store::store::Library;
use library_store::types::Book;

fn setup() -> Library {
    let mut lib = Library::new();
    let add_book_calls = vec![
        ("The Great Gatsby", "F. Scott Fitzgerald"),
        ("1984", "G. Orwell"),
        ("Le Petit Prince", "A. de Saint-Exupéry"),
    ];
    for (title, author) in add_book_calls {
        lib.add_book(title.to_string(), author.to_string());
    }
    lib
}

#[test]
fn test_borrow_book() {
    let mut lib = setup();
    let b = lib.borrow_book(&"1984".to_string());
    assert_eq!(b, true);
}

#[test]
fn test_get_book() {
    let lib = setup();
    let book: Option<Book> = lib.get_book(&"1984".to_string());
    if let Some(book) = book {
        assert_eq!(book.title, "1984");
        assert_eq!(book.author, "G. Orwell");
        assert_eq!(book.is_borrowed, false);
    } else {
        panic!("Expected Some(Book), got None.");
    }
}

#[test]
fn test_get_all_books() {
    let lib = setup();
    let books = lib.get_all_books();
    assert_eq!(books.len(), 3);
}

#[test]
fn test_get_borrowed_books() {
    let mut lib = setup();
    let borrow = lib.borrow_book(&"1984".to_string());
    assert_eq!(borrow, true);
    let borrowed_books = lib.get_borrowed_books();
    assert_eq!(borrowed_books.len(), 1);
    assert_eq!(borrowed_books[0].title, "1984");
}

#[test]
fn test_get_available_books() {
    let mut lib = setup();
    let borrow = lib.borrow_book(&"1984".to_string());
    assert_eq!(borrow, true);
    let available_books = lib.get_available_books();
    assert_eq!(available_books.len(), 2);
}

#[test]
fn test_add_book() {
    let mut lib = setup();
    lib.add_book("Le Rouge et le Noir".to_string(), "Stendhal".to_string());
    let book: Option<Book> = lib.get_book(&"Le Rouge et le Noir".to_string());
    if let Some(book) = book {
        assert_eq!(book.title, "Le Rouge et le Noir");
        assert_eq!(book.author, "Stendhal");
        assert_eq!(book.is_borrowed, false);
    } else {
        panic!("Expected Some(Book), got None.");
    }
}

#[test]
fn test_add_confirmation_text() {
    let mut lib = Library::new();
    let msg = lib.add_book("1984".to_string(), "G. Orwell".to_string());
    assert_eq!(msg, "Book '1984' added.");
}

#[test]
fn test_add_then_get_fresh_record() {
    let mut lib = Library::new();
    lib.add_book("Dune".to_string(), "F. Herbert".to_string());
    let book = lib.get_book(&"Dune".to_string()).expect("record must exist");
    assert_eq!(book.title, "Dune");
    assert_eq!(book.author, "F. Herbert");
    assert!(!book.is_borrowed);
}

#[test]
fn test_readd_overwrites_and_resets() {
    let mut lib = Library::new();
    lib.add_book("Dune".to_string(), "F. Herbert".to_string());
    assert!(lib.borrow_book(&"Dune".to_string()));
    lib.add_book("Dune".to_string(), "Frank Herbert".to_string());
    let book = lib.get_book(&"Dune".to_string()).expect("record must exist");
    assert_eq!(book.author, "Frank Herbert");
    assert!(!book.is_borrowed);
    assert_eq!(lib.get_all_books().len(), 1);
}

#[test]
fn test_borrow_absent_creates_nothing() {
    let mut lib = setup();
    assert_eq!(lib.borrow_book(&"Nonexistent".to_string()), false);
    assert_eq!(lib.get_all_books().len(), 3);
    assert!(lib.get_book(&"Nonexistent".to_string()).is_none());
}

#[test]
fn test_borrow_twice_fails_second_time() {
    let mut lib = setup();
    assert!(lib.borrow_book(&"1984".to_string()));
    assert!(!lib.borrow_book(&"1984".to_string()));
}

#[test]
fn test_return_book_transitions() {
    let mut lib = setup();
    assert!(!lib.return_book(&"1984".to_string()));
    assert!(lib.borrow_book(&"1984".to_string()));
    assert!(lib.return_book(&"1984".to_string()));
    let book = lib.get_book(&"1984".to_string()).expect("record must exist");
    assert!(!book.is_borrowed);
    assert!(!lib.return_book(&"1984".to_string()));
    assert_eq!(lib.return_book(&"Nonexistent".to_string()), false);
}

#[test]
fn test_counts_without_borrows() {
    let mut lib = Library::new();
    let titles = ["a", "b", "c", "d"];
    for t in titles {
        lib.add_book(t.to_string(), "author".to_string());
    }
    assert_eq!(lib.get_all_books().len(), 4);
    assert_eq!(lib.get_available_books().len(), 4);
    assert_eq!(lib.get_borrowed_books().len(), 0);
}

#[test]
fn test_empty_store() {
    let lib = Library::new();
    assert_eq!(lib.get_all_books().len(), 0);
    assert_eq!(lib.get_available_books().len(), 0);
    assert_eq!(lib.get_borrowed_books().len(), 0);
    assert!(lib.get_book(&"1984".to_string()).is_none());
}

#[test]
fn test_scenario_borrow_partitions_listings() {
    let mut lib = Library::new();
    lib.add_book("Gatsby".to_string(), "F.S.F.".to_string());
    lib.add_book("1984".to_string(), "G.O.".to_string());
    lib.add_book("Prince".to_string(), "A.S.E".to_string());
    assert!(lib.borrow_book(&"1984".to_string()));

    let borrowed = lib.get_borrowed_books();
    assert_eq!(borrowed.len(), 1);
    assert_eq!(borrowed[0].title, "1984");

    let available = lib.get_available_books();
    assert_eq!(available.len(), 2);
    let titles: Vec<&str> = available.iter().map(|b| b.title.as_str()).collect();
    assert!(titles.contains(&"Gatsby"));
    assert!(titles.contains(&"Prince"));
    assert!(!titles.contains(&"1984"));

    let book = lib.get_book(&"1984".to_string()).expect("record must exist");
    assert!(book.is_borrowed);
}
