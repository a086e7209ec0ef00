//! Books keyed by an ISBN that the caller supplies, lent to members.
//!
//! The library and each member own their books in a vector. Lending moves
//! the first book with the requested ISBN from the library to the end of
//! the member's vector; returning moves it back the same way.

use crate::text::same_text;
use vstd::prelude::*;

verus! {

/// What a [`Book`] says: its three texts as character sequences.
pub struct BookView {
    pub title: Seq<char>,
    pub author: Seq<char>,
    pub isbn: Seq<char>,
}

/// What a [`Member`] is: its name, its number and the books it holds, in
/// the order in which it took them.
pub struct MemberView {
    pub name: Seq<char>,
    pub id: u32,
    pub held: Seq<BookView>,
}

/// A book, known by the ISBN that its owner gave it.
#[derive(Debug, PartialEq)]
pub struct Book {
    pub title: String,
    pub author: String,
    pub isbn: String,
}

/// Someone who borrows books, and owns each book for as long as it is
/// borrowed.
#[derive(Debug)]
pub struct Member {
    pub name: String,
    pub id: u32,
    pub borrowed_books: Vec<Book>,
}

/// The shelf: the books that are there to be lent.
#[derive(Debug)]
pub struct Library {
    books: Vec<Book>,
}

impl View for Book {
    type V = BookView;

    open spec fn view(&self) -> BookView {
        BookView { title: self.title@, author: self.author@, isbn: self.isbn@ }
    }
}

impl View for Member {
    type V = MemberView;

    open spec fn view(&self) -> MemberView {
        MemberView { name: self.name@, id: self.id, held: views_of(self.borrowed_books@) }
    }
}

impl View for Library {
    type V = Seq<BookView>;

    /// The books on the shelf, in the order in which they arrived.
    closed spec fn view(&self) -> Seq<BookView> {
        views_of(self.books@)
    }
}

/// The views of a run of books.
pub open spec fn views_of(books: Seq<Book>) -> Seq<BookView> {
    books.map_values(|b: Book| b@)
}

/// The views of a run of borrowed books.
pub open spec fn views_of_refs(books: Seq<&Book>) -> Seq<BookView> {
    books.map_values(|b: &Book| b@)
}

/// Whether some book among `books` carries `isbn`.
pub open spec fn holds_isbn(books: Seq<BookView>, isbn: Seq<char>) -> bool {
    exists|i: int| 0 <= i < books.len() && #[trigger] books[i].isbn == isbn
}

/// Whether `i` is the position of the first book among `books` that
/// carries `isbn`.
pub open spec fn is_first_with_isbn(books: Seq<BookView>, isbn: Seq<char>, i: int) -> bool {
    &&& 0 <= i < books.len()
    &&& books[i].isbn == isbn
    &&& forall|j: int| 0 <= j < i ==> #[trigger] books[j].isbn != isbn
}

/// The position of the first book among `books` that carries `isbn`;
/// meaningful where `holds_isbn(books, isbn)`.
pub open spec fn first_with_isbn(books: Seq<BookView>, isbn: Seq<char>) -> int {
    choose|i: int| is_first_with_isbn(books, isbn, i)
}

/// The books among `books` whose title is exactly `title`, in their order.
pub open spec fn titled(books: Seq<BookView>, title: Seq<char>) -> Seq<BookView> {
    books.filter(|b: BookView| b.title == title)
}

/// Moving the first book that carries `isbn` out of `from` and to the end
/// of `to`: the two collections afterwards. Where `from` has no such book,
/// both stay as they are.
pub open spec fn hand_over(from: Seq<BookView>, to: Seq<BookView>, isbn: Seq<char>) -> (
    Seq<BookView>,
    Seq<BookView>,
) {
    if holds_isbn(from, isbn) {
        let i = first_with_isbn(from, isbn);
        (from.remove(i), to.push(from[i]))
    } else {
        (from, to)
    }
}

/// The text of the error for lending a book that is not on the shelf.
pub open spec fn book_not_found() -> Seq<char> {
    "Book not found"@
}

/// The text of the error for returning a book that the member does not hold.
pub open spec fn book_not_held() -> Seq<char> {
    "Member doesn't have this book"@
}

/// There is at most one first position.
pub proof fn lemma_first_is_unique(books: Seq<BookView>, isbn: Seq<char>, i: int)
    requires
        is_first_with_isbn(books, isbn, i),
    ensures
        holds_isbn(books, isbn),
        first_with_isbn(books, isbn) == i,
{
    let k = first_with_isbn(books, isbn);
    assert(is_first_with_isbn(books, isbn, k));
    if k < i {
        assert(books[k].isbn != isbn);
    }
    if i < k {
        assert(books[i].isbn != isbn);
    }
}

/// Where some book carries `isbn`, there is a first one.
pub proof fn lemma_first_exists(books: Seq<BookView>, isbn: Seq<char>)
    requires
        holds_isbn(books, isbn),
    ensures
        is_first_with_isbn(books, isbn, first_with_isbn(books, isbn)),
{
    let w = choose|i: int| 0 <= i < books.len() && #[trigger] books[i].isbn == isbn;
    lemma_first_below(books, isbn, w);
}

/// Below any position that carries `isbn` stands a first one.
proof fn lemma_first_below(books: Seq<BookView>, isbn: Seq<char>, w: int)
    requires
        0 <= w < books.len(),
        books[w].isbn == isbn,
    ensures
        is_first_with_isbn(books, isbn, first_with_isbn(books, isbn)),
    decreases w,
{
    if forall|j: int| 0 <= j < w ==> #[trigger] books[j].isbn != isbn {
        assert(is_first_with_isbn(books, isbn, w));
    } else {
        let j = choose|j: int| 0 <= j < w && #[trigger] books[j].isbn == isbn;
        lemma_first_below(books, isbn, j);
    }
}

/// Taking views commutes with appending a book.
proof fn lemma_views_push(books: Seq<Book>, book: Book)
    ensures
        views_of(books.push(book)) == views_of(books).push(book@),
{
    assert(views_of(books.push(book)) =~= views_of(books).push(book@));
}

/// Taking views commutes with removing the book at a position.
proof fn lemma_views_remove(books: Seq<Book>, i: int)
    requires
        0 <= i < books.len(),
    ensures
        views_of(books.remove(i)) == views_of(books).remove(i),
{
    assert(views_of(books.remove(i)) =~= views_of(books).remove(i));
}

/// Taking views commutes with appending a borrowed book.
proof fn lemma_ref_views_push(books: Seq<&Book>, book: &Book)
    ensures
        views_of_refs(books.push(book)) == views_of_refs(books).push(book@),
{
    assert(views_of_refs(books.push(book)) =~= views_of_refs(books).push(book@));
}

/// Selecting by title among the first `i + 1` books: what was selected
/// among the first `i`, and the book at `i` where its title matches.
proof fn lemma_titled_step(books: Seq<Book>, i: int, title: Seq<char>)
    requires
        0 <= i < books.len(),
    ensures
        titled(views_of(books.take(i + 1)), title) == if books[i]@.title == title {
            titled(views_of(books.take(i)), title).push(books[i]@)
        } else {
            titled(views_of(books.take(i)), title)
        },
{
    reveal(Seq::filter);
    let upto = views_of(books.take(i + 1));
    assert(upto.drop_last() =~= views_of(books.take(i)));
    assert(upto.last() == books[i]@);
}

/// The position of the first of `books` that carries `isbn`, if any.
fn position_of(books: &Vec<Book>, isbn: &str) -> (r: Option<usize>)
    ensures
        match r {
            Some(i) => is_first_with_isbn(views_of(books@), isbn@, i as int),
            None => !holds_isbn(views_of(books@), isbn@),
        },
{
    let key: String = isbn.to_owned();
    let mut i: usize = 0;
    while i < books.len()
        invariant
            i <= books.len(),
            key@ == isbn@,
            forall|j: int| 0 <= j < i ==> #[trigger] views_of(books@)[j].isbn != isbn@,
        decreases books.len() - i,
    {
        if same_text(&books[i].isbn, &key) {
            return Some(i);
        }
        i += 1;
    }
    None
}

impl Book {
    /// A book with these three texts.
    pub fn new(title: String, author: String, isbn: String) -> (book: Self)
        ensures
            book.title == title,
            book.author == author,
            book.isbn == isbn,
    {
        Book { title, author, isbn }
    }
}

impl Member {
    /// A member that holds no book yet.
    pub fn new(name: String, id: u32) -> (member: Self)
        ensures
            member.name == name,
            member.id == id,
            member.borrowed_books@ == Seq::<Book>::empty(),
            member@.held == Seq::<BookView>::empty(),
    {
        Member { name, id, borrowed_books: Vec::new() }
    }

    /// Takes `book`: it becomes the last of the books held.
    pub fn borrow_book(&mut self, book: Book)
        ensures
            final(self)@ == (MemberView { held: old(self)@.held.push(book@), ..old(self)@ }),
    {
        proof {
            lemma_views_push(self.borrowed_books@, book);
        }
        self.borrowed_books.push(book);
    }

    /// Gives up the first book held that carries `isbn`, or nothing where
    /// no book held carries it.
    pub fn return_book(&mut self, isbn: &str) -> (r: Option<Book>)
        ensures
            r is Some <==> holds_isbn(old(self)@.held, isbn@),
            r matches Some(book) ==> {
                let i = first_with_isbn(old(self)@.held, isbn@);
                &&& is_first_with_isbn(old(self)@.held, isbn@, i)
                &&& book@ == old(self)@.held[i]
                &&& final(self)@ == (MemberView { held: old(self)@.held.remove(i), ..old(self)@ })
            },
            r is None ==> final(self)@ == old(self)@,
    {
        match position_of(&self.borrowed_books, isbn) {
            Some(index) => {
                proof {
                    lemma_first_is_unique(self@.held, isbn@, index as int);
                    lemma_views_remove(self.borrowed_books@, index as int);
                }
                let book = self.borrowed_books.remove(index);
                Some(book)
            },
            None => None,
        }
    }

    /// Whether the member holds a book that carries `isbn`.
    pub fn has_book(&self, isbn: &str) -> (r: bool)
        ensures
            r == holds_isbn(self@.held, isbn@),
    {
        match position_of(&self.borrowed_books, isbn) {
            Some(_) => true,
            None => false,
        }
    }
}

impl Library {
    /// A library with an empty shelf.
    pub fn new() -> (library: Self)
        ensures
            library@ == Seq::<BookView>::empty(),
    {
        Library { books: Vec::new() }
    }

    /// Puts `book` on the shelf, behind the books that are there.
    pub fn add_book(&mut self, book: Book)
        ensures
            final(self)@ == old(self)@.push(book@),
    {
        proof {
            lemma_views_push(self.books@, book);
        }
        self.books.push(book);
    }

    /// Lends the first book on the shelf that carries `isbn` to `member`.
    /// Where the shelf has no such book, the call fails and changes nothing.
    pub fn lend_book(&mut self, isbn: &str, member: &mut Member) -> (r: Result<(), String>)
        ensures
            r is Ok <==> holds_isbn(old(self)@, isbn@),
            r matches Err(message) ==> message@ == book_not_found(),
            r is Err ==> final(self)@ == old(self)@ && final(member)@ == old(member)@,
            (final(self)@, final(member)@.held) == hand_over(old(self)@, old(member)@.held, isbn@),
            final(member)@ == (MemberView { held: final(member)@.held, ..old(member)@ }),
    {
        if let Some(index) = position_of(&self.books, isbn) {
            proof {
                lemma_first_is_unique(self@, isbn@, index as int);
                lemma_views_remove(self.books@, index as int);
            }
            let book = self.books.remove(index);
            member.borrow_book(book);
            return Ok(());
        }
        Err("Book not found".to_owned())
    }

    /// Takes the first book that `member` holds and that carries `isbn`
    /// back onto the shelf. Where the member holds no such book, the call
    /// fails and changes nothing.
    pub fn return_book(&mut self, isbn: &str, member: &mut Member) -> (r: Result<(), String>)
        ensures
            r is Ok <==> holds_isbn(old(member)@.held, isbn@),
            r matches Err(message) ==> message@ == book_not_held(),
            r is Err ==> final(self)@ == old(self)@ && final(member)@ == old(member)@,
            (final(member)@.held, final(self)@) == hand_over(old(member)@.held, old(self)@, isbn@),
            final(member)@ == (MemberView { held: final(member)@.held, ..old(member)@ }),
    {
        if let Some(book) = member.return_book(isbn) {
            self.add_book(book);
            return Ok(());
        }
        Err("Member doesn't have this book".to_owned())
    }

    /// The books on the shelf whose title is exactly `title`, in shelf
    /// order. A book that is lent out is not on the shelf.
    pub fn search_by_title(&self, title: &str) -> (found: Vec<&Book>)
        ensures
            views_of_refs(found@) == titled(self@, title@),
    {
        let key: String = title.to_owned();
        let mut found: Vec<&Book> = Vec::new();
        let mut i: usize = 0;
        while i < self.books.len()
            invariant
                i <= self.books.len(),
                key@ == title@,
                views_of_refs(found@) == titled(views_of(self.books@.take(i as int)), title@),
            decreases self.books.len() - i,
        {
            let book = &self.books[i];
            proof {
                lemma_titled_step(self.books@, i as int, title@);
            }
            if same_text(&book.title, &key) {
                proof {
                    lemma_ref_views_push(found@, book);
                }
                found.push(book);
            }
            i += 1;
        }
        assert(self.books@.take(i as int) == self.books@);
        found
    }

    /// The books on the shelf, as they stand now.
    pub fn available_books(&self) -> (books: &Vec<Book>)
        ensures
            views_of(books@) == self@,
    {
        &self.books
    }

    /// How many books are on the shelf.
    pub fn book_count(&self) -> (count: usize)
        ensures
            count == self@.len(),
    {
        self.books.len()
    }
}

/// A book to try things with.
pub fn create_sample_book() -> (book: Book)
    ensures
        book@ == (BookView {
            title: "The Rust Programming Language"@,
            author: "Steve Klabnik"@,
            isbn: "978-1718500440"@,
        }),
{
    Book::new(
        "The Rust Programming Language".to_owned(),
        "Steve Klabnik".to_owned(),
        "978-1718500440".to_owned(),
    )
}

} // verus!
