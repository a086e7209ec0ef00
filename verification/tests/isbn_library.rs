use lending::isbn::{create_sample_book, Book, Library, Member};

#[test]
fn test_book_creation() {
    let book = Book::new(
        "Test Book".to_string(),
        "Test Author".to_string(),
        "123456789".to_string(),
    );
    assert_eq!(book.title, "Test Book");
    assert_eq!(book.author, "Test Author");
    assert_eq!(book.isbn, "123456789");
}

#[test]
fn test_member_creation() {
    let member = Member::new("Alice".to_string(), 1);
    assert_eq!(member.name, "Alice");
    assert_eq!(member.id, 1);
    assert_eq!(member.borrowed_books.len(), 0);
}

#[test]
fn test_library_add_book() {
    let mut library = Library::new();
    let book = create_sample_book();

    library.add_book(book);
    assert_eq!(library.book_count(), 1);
}

#[test]
fn test_lending_and_returning() {
    let mut library = Library::new();
    let mut member = Member::new("Bob".to_string(), 2);

    let book = create_sample_book();
    let isbn = book.isbn.clone();
    library.add_book(book);

    assert!(library.lend_book(&isbn, &mut member).is_ok());
    assert_eq!(library.book_count(), 0);
    assert_eq!(member.borrowed_books.len(), 1);
    assert!(member.has_book(&isbn));

    assert!(library.return_book(&isbn, &mut member).is_ok());
    assert_eq!(library.book_count(), 1);
    assert_eq!(member.borrowed_books.len(), 0);
    assert!(!member.has_book(&isbn));
}

#[test]
fn test_lending_nonexistent_book() {
    let mut library = Library::new();
    let mut member = Member::new("Charlie".to_string(), 3);

    let result = library.lend_book("nonexistent", &mut member);
    assert!(result.is_err());
    assert_eq!(result.unwrap_err(), "Book not found");
}

#[test]
fn test_returning_book_not_borrowed() {
    let mut library = Library::new();
    let mut member = Member::new("Dave".to_string(), 4);

    let result = library.return_book("123456789", &mut member);
    assert!(result.is_err());
    assert_eq!(result.unwrap_err(), "Member doesn't have this book");
}

#[test]
fn test_search_by_title() {
    let mut library = Library::new();

    let book1 = Book::new("Rust Book".to_string(), "Author1".to_string(), "111".to_string());
    let book2 = Book::new("Python Book".to_string(), "Author2".to_string(), "222".to_string());
    let book3 = Book::new("Rust Book".to_string(), "Author3".to_string(), "333".to_string());

    library.add_book(book1);
    library.add_book(book2);
    library.add_book(book3);

    let rust_books = library.search_by_title("Rust Book");
    assert_eq!(rust_books.len(), 2);

    let python_books = library.search_by_title("Python Book");
    assert_eq!(python_books.len(), 1);
    assert_eq!(python_books[0].author, "Author2");
}

#[test]
fn test_available_books_reference() {
    let mut library = Library::new();
    library.add_book(create_sample_book());

    let books_ref = library.available_books();
    assert_eq!(books_ref.len(), 1);

    let books_ref2 = library.available_books();
    assert_eq!(books_ref2.len(), 1);

    assert_eq!(books_ref.len(), books_ref2.len());
}

#[test]
fn test_member_book_operations() {
    let mut member = Member::new("Eve".to_string(), 5);
    let book = create_sample_book();
    let isbn = book.isbn.clone();

    member.borrow_book(book);
    assert!(member.has_book(&isbn));
    assert_eq!(member.borrowed_books.len(), 1);

    let returned_book = member.return_book(&isbn);
    assert!(returned_book.is_some());
    assert!(!member.has_book(&isbn));
    assert_eq!(member.borrowed_books.len(), 0);

    let book = returned_book.unwrap();
    assert_eq!(book.isbn, isbn);
}

fn book(title: &str, author: &str, isbn: &str) -> Book {
    Book::new(title.to_string(), author.to_string(), isbn.to_string())
}

fn isbns(books: &[Book]) -> Vec<String> {
    books.iter().map(|b| b.isbn.clone()).collect()
}

#[test]
fn sample_book_has_its_three_texts() {
    let b = create_sample_book();
    assert_eq!(b.title, "The Rust Programming Language");
    assert_eq!(b.author, "Steve Klabnik");
    assert_eq!(b.isbn, "978-1718500440");
    assert_eq!(
        b,
        book("The Rust Programming Language", "Steve Klabnik", "978-1718500440")
    );
}

#[test]
fn new_library_is_empty() {
    let library = Library::new();
    assert_eq!(library.book_count(), 0);
    assert!(library.available_books().is_empty());
    assert!(library.search_by_title("Rust Book").is_empty());
}

#[test]
fn add_book_appends_in_arrival_order() {
    let mut library = Library::new();
    library.add_book(book("A", "x", "1"));
    library.add_book(book("B", "y", "2"));
    library.add_book(book("C", "z", "3"));
    assert_eq!(isbns(library.available_books()), vec!["1", "2", "3"]);
}

#[test]
fn lend_moves_the_first_match_to_the_end_of_the_members_books() {
    let mut library = Library::new();
    library.add_book(book("A", "x", "1"));
    library.add_book(book("B", "first", "2"));
    library.add_book(book("C", "second", "2"));
    library.add_book(book("D", "z", "3"));
    let mut member = Member::new("Ann".to_string(), 7);
    member.borrow_book(book("E", "w", "9"));

    assert_eq!(library.lend_book("2", &mut member), Ok(()));
    assert_eq!(isbns(library.available_books()), vec!["1", "2", "3"]);
    assert_eq!(library.available_books()[1].author, "second");
    assert_eq!(isbns(&member.borrowed_books), vec!["9", "2"]);
    assert_eq!(member.borrowed_books[1].author, "first");
    assert_eq!(member.name, "Ann");
    assert_eq!(member.id, 7);
}

#[test]
fn return_moves_the_first_match_to_the_end_of_the_shelf() {
    let mut library = Library::new();
    library.add_book(book("A", "x", "1"));
    let mut member = Member::new("Ann".to_string(), 7);
    member.borrow_book(book("B", "first", "2"));
    member.borrow_book(book("C", "y", "3"));
    member.borrow_book(book("D", "second", "2"));

    assert_eq!(library.return_book("2", &mut member), Ok(()));
    assert_eq!(isbns(library.available_books()), vec!["1", "2"]);
    assert_eq!(library.available_books()[1].author, "first");
    assert_eq!(isbns(&member.borrowed_books), vec!["3", "2"]);
    assert_eq!(member.borrowed_books[1].author, "second");
}

#[test]
fn failed_lend_changes_nothing() {
    let mut library = Library::new();
    library.add_book(book("A", "x", "1"));
    let mut member = Member::new("Ann".to_string(), 7);
    member.borrow_book(book("B", "y", "2"));

    assert_eq!(
        library.lend_book("2", &mut member),
        Err("Book not found".to_string())
    );
    assert_eq!(isbns(library.available_books()), vec!["1"]);
    assert_eq!(isbns(&member.borrowed_books), vec!["2"]);
}

#[test]
fn failed_return_changes_nothing() {
    let mut library = Library::new();
    library.add_book(book("A", "x", "1"));
    let mut member = Member::new("Ann".to_string(), 7);
    member.borrow_book(book("B", "y", "2"));

    assert_eq!(
        library.return_book("1", &mut member),
        Err("Member doesn't have this book".to_string())
    );
    assert_eq!(library.book_count(), 1);
    assert_eq!(isbns(library.available_books()), vec!["1"]);
    assert_eq!(isbns(&member.borrowed_books), vec!["2"]);
}

#[test]
fn return_of_a_book_never_taken_leaves_the_count() {
    let mut library = Library::new();
    library.add_book(create_sample_book());
    let mut member = Member::new("Dave".to_string(), 4);
    let before = library.book_count();
    let result = library.return_book("123456789", &mut member);
    assert_eq!(result.unwrap_err(), "Member doesn't have this book");
    assert_eq!(library.book_count(), before);
    assert_eq!(member.borrowed_books.len(), 0);
}

#[test]
fn second_return_of_the_same_isbn_fails() {
    let mut library = Library::new();
    library.add_book(book("A", "x", "1"));
    let mut member = Member::new("Ann".to_string(), 7);
    assert!(library.lend_book("1", &mut member).is_ok());
    assert!(library.return_book("1", &mut member).is_ok());
    assert_eq!(
        library.return_book("1", &mut member),
        Err("Member doesn't have this book".to_string())
    );
    assert_eq!(library.book_count(), 1);
}

#[test]
fn second_lend_of_the_same_isbn_fails() {
    let mut library = Library::new();
    library.add_book(book("A", "x", "1"));
    let mut ann = Member::new("Ann".to_string(), 7);
    let mut ben = Member::new("Ben".to_string(), 8);
    assert!(library.lend_book("1", &mut ann).is_ok());
    assert_eq!(
        library.lend_book("1", &mut ben),
        Err("Book not found".to_string())
    );
    assert!(ann.has_book("1"));
    assert!(!ben.has_book("1"));
    assert!(ben.borrowed_books.is_empty());
}

#[test]
fn lend_then_return_restores_count_and_search() {
    let mut library = Library::new();
    library.add_book(book("Rust Book", "Author1", "111"));
    library.add_book(book("Python Book", "Author2", "222"));
    library.add_book(book("Rust Book", "Author3", "333"));
    let mut member = Member::new("Ann".to_string(), 7);

    assert!(library.lend_book("111", &mut member).is_ok());
    assert_eq!(library.book_count(), 2);
    assert!(library.return_book("111", &mut member).is_ok());

    assert_eq!(library.book_count(), 3);
    let mut authors: Vec<String> = library
        .search_by_title("Rust Book")
        .iter()
        .map(|b| b.author.clone())
        .collect();
    authors.sort();
    assert_eq!(authors, vec!["Author1", "Author3"]);
    assert_eq!(library.search_by_title("Python Book").len(), 1);
    assert!(member.borrowed_books.is_empty());
}

#[test]
fn search_leaves_out_a_book_that_is_lent() {
    let mut library = Library::new();
    library.add_book(book("Rust Book", "Author1", "111"));
    library.add_book(book("Python Book", "Author2", "222"));
    library.add_book(book("Rust Book", "Author3", "333"));
    assert_eq!(library.search_by_title("Rust Book").len(), 2);

    let mut member = Member::new("Ann".to_string(), 7);
    assert!(library.lend_book("111", &mut member).is_ok());
    let left = library.search_by_title("Rust Book");
    assert_eq!(left.len(), 1);
    assert_eq!(left[0].author, "Author3");
}

#[test]
fn search_is_exact_and_keeps_shelf_order() {
    let mut library = Library::new();
    library.add_book(book("Rust", "a", "1"));
    library.add_book(book("Rust Book", "b", "2"));
    library.add_book(book("Rust", "c", "3"));
    library.add_book(book("rust", "d", "4"));
    let found = library.search_by_title("Rust");
    let authors: Vec<&str> = found.iter().map(|b| b.author.as_str()).collect();
    assert_eq!(authors, vec!["a", "c"]);
    assert!(library.search_by_title("").is_empty());
    assert!(library.search_by_title("Rus").is_empty());
}

#[test]
fn every_book_is_on_the_shelf_or_with_a_member() {
    let mut library = Library::new();
    library.add_book(book("A", "x", "1"));
    library.add_book(book("B", "y", "2"));
    library.add_book(book("C", "z", "3"));
    let mut ann = Member::new("Ann".to_string(), 7);
    let mut ben = Member::new("Ben".to_string(), 8);

    let all = |l: &Library, a: &Member, b: &Member| {
        let mut v = isbns(l.available_books());
        v.extend(isbns(&a.borrowed_books));
        v.extend(isbns(&b.borrowed_books));
        v.sort();
        v
    };
    assert_eq!(all(&library, &ann, &ben), vec!["1", "2", "3"]);
    assert!(library.lend_book("2", &mut ann).is_ok());
    assert_eq!(all(&library, &ann, &ben), vec!["1", "2", "3"]);
    assert!(library.lend_book("3", &mut ben).is_ok());
    assert_eq!(all(&library, &ann, &ben), vec!["1", "2", "3"]);
    assert!(library.lend_book("3", &mut ann).is_err());
    assert_eq!(all(&library, &ann, &ben), vec!["1", "2", "3"]);
    assert!(library.return_book("2", &mut ben).is_err());
    assert_eq!(all(&library, &ann, &ben), vec!["1", "2", "3"]);
    assert!(library.return_book("2", &mut ann).is_ok());
    assert_eq!(all(&library, &ann, &ben), vec!["1", "2", "3"]);
    assert_eq!(isbns(library.available_books()), vec!["1", "2"]);
    assert_eq!(isbns(&ben.borrowed_books), vec!["3"]);
}

#[test]
fn lending_one_book_leaves_the_others_where_they_are() {
    let mut library = Library::new();
    library.add_book(book("A", "x", "1"));
    library.add_book(book("B", "y", "2"));
    library.add_book(book("C", "z", "3"));
    let mut member = Member::new("Ann".to_string(), 7);
    assert_eq!(isbns(library.available_books()), vec!["1", "2", "3"]);
    assert!(library.lend_book("2", &mut member).is_ok());
    assert_eq!(isbns(library.available_books()), vec!["1", "3"]);
    library.add_book(book("D", "w", "4"));
    assert_eq!(isbns(library.available_books()), vec!["1", "3", "4"]);
}

#[test]
fn member_return_gives_none_for_an_unknown_isbn() {
    let mut member = Member::new("Ann".to_string(), 7);
    member.borrow_book(book("A", "x", "1"));
    assert!(member.return_book("2").is_none());
    assert!(member.return_book("").is_none());
    assert_eq!(member.borrowed_books.len(), 1);
    assert!(member.has_book("1"));
    assert!(!member.has_book("2"));
    assert!(!member.has_book("11"));
}
