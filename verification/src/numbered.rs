//! Books that the library numbers itself, lent out as free-standing records.
//!
//! The library keeps the books that are on the shelf in a map from book
//! number to book, and the number that the next new book will get.
//! Checking a book out takes it off the shelf and wraps it in a
//! [`CheckedOutBook`]; returning that record puts the book back under its
//! number.

use crate::text::{chars_of, contains_chars, contains_text};
use std::collections::HashMap;
use vstd::prelude::*;
use vstd::std_specs::hash::spec_hash_map_iter;
use vstd::std_specs::iter::IteratorSpec;

verus! {

broadcast use vstd::std_specs::hash::group_hash_axioms;

/// What a [`Book`] says: its number and its three texts.
pub struct BookView {
    pub id: u32,
    pub title: Seq<char>,
    pub author: Seq<char>,
    pub isbn: Seq<char>,
}

/// What a [`CheckedOutBook`] says: the book and the two texts of the loan.
pub struct LoanView {
    pub book: BookView,
    pub borrower_name: Seq<char>,
    pub due_date: Seq<char>,
}

/// What a [`Library`] is: the books on the shelf by number, and the number
/// that the next new book gets.
pub struct CatalogView {
    pub books: Map<u32, BookView>,
    pub next_id: nat,
}

/// A book, with the number that the library gave it.
#[derive(Debug, Clone, PartialEq)]
pub struct Book {
    pub id: u32,
    pub title: String,
    pub author: String,
    pub isbn: String,
}

/// A loan: the book itself, owned by whoever holds the record, with the
/// borrower's name and the date on which the book is due.
#[derive(Debug)]
pub struct CheckedOutBook {
    pub book: Book,
    pub borrower_name: String,
    pub due_date: String,
}

/// The books that are on the shelf, and the number for the next new book.
#[derive(Debug)]
pub struct Library {
    books: HashMap<u32, Book>,
    next_id: u32,
}

impl View for Book {
    type V = BookView;

    open spec fn view(&self) -> BookView {
        BookView { id: self.id, title: self.title@, author: self.author@, isbn: self.isbn@ }
    }
}

impl View for CheckedOutBook {
    type V = LoanView;

    open spec fn view(&self) -> LoanView {
        LoanView {
            book: self.book@,
            borrower_name: self.borrower_name@,
            due_date: self.due_date@,
        }
    }
}

impl View for Library {
    type V = CatalogView;

    closed spec fn view(&self) -> CatalogView {
        CatalogView { books: self.books@.map_values(|b: Book| b@), next_id: self.next_id as nat }
    }
}

/// The views of a run of borrowed books.
pub open spec fn views_of_refs(books: Seq<&Book>) -> Seq<BookView> {
    books.map_values(|b: &Book| b@)
}

impl CatalogView {
    /// The catalog before any book was added: an empty shelf, and 1 as the
    /// first number to give out.
    pub open spec fn empty() -> CatalogView {
        CatalogView { books: Map::empty(), next_id: 1 }
    }

    /// The catalog's invariant: the numbers on the shelf were all given out
    /// already, and each book stands under its own number.
    pub open spec fn wf(self) -> bool {
        &&& 1 <= self.next_id <= u32::MAX
        &&& self.books.dom().finite()
        &&& forall|id: u32| #[trigger]
            self.books.contains_key(id) ==> 1 <= id < self.next_id && self.books[id].id == id
    }

    /// Whether a number is left for one more book.
    pub open spec fn has_room(self) -> bool {
        self.next_id < u32::MAX
    }

    /// Whether `id` was given to a book already.
    pub open spec fn issued(self, id: u32) -> bool {
        1 <= id < self.next_id
    }

    /// The book that the next call of `add` creates.
    pub open spec fn next_book(self, title: Seq<char>, author: Seq<char>, isbn: Seq<char>)
        -> BookView {
        BookView { id: self.next_id as u32, title, author, isbn }
    }

    /// The catalog after a new book with these texts was added.
    pub open spec fn add(self, title: Seq<char>, author: Seq<char>, isbn: Seq<char>)
        -> CatalogView {
        CatalogView {
            books: self.books.insert(self.next_id as u32, self.next_book(title, author, isbn)),
            next_id: self.next_id + 1,
        }
    }

    /// The record that checking out `id` hands over, if the book is on the
    /// shelf.
    pub open spec fn loan(self, id: u32, borrower_name: Seq<char>, due_date: Seq<char>)
        -> Option<LoanView> {
        if self.books.contains_key(id) {
            Some(LoanView { book: self.books[id], borrower_name, due_date })
        } else {
            None
        }
    }

    /// The catalog after `id` was checked out: without that book, or
    /// unchanged where the book was not on the shelf.
    pub open spec fn checkout(self, id: u32) -> CatalogView {
        CatalogView { books: self.books.remove(id), next_id: self.next_id }
    }

    /// Whether `loan` can come back: its book's number was given out by
    /// this catalog and no book stands under it on the shelf.
    pub open spec fn lent_out(self, loan: LoanView) -> bool {
        &&& self.issued(loan.book.id)
        &&& !self.books.contains_key(loan.book.id)
    }

    /// The catalog with the book of `loan` back under its number.
    pub open spec fn take_back(self, loan: LoanView) -> CatalogView {
        CatalogView { books: self.books.insert(loan.book.id, loan.book), next_id: self.next_id }
    }

    /// The catalog after `loan` was returned: with its book back on the
    /// shelf where the loan was out, and unchanged where it was not.
    pub open spec fn give_back(self, loan: LoanView) -> CatalogView {
        if self.lent_out(loan) {
            self.take_back(loan)
        } else {
            self
        }
    }

    /// The books on the shelf whose title contains `query`.
    pub open spec fn matching(self, query: Seq<char>) -> Set<BookView> {
        self.books.values().filter(|b: BookView| contains_text(b.title, query))
    }
}

impl CheckedOutBook {
    /// The book that this record holds.
    pub fn get_book_info(&self) -> (book: &Book)
        ensures
            *book == self.book,
            book@ == self@.book,
    {
        &self.book
    }

    /// Sets a new due date. The book and the borrower stay as they are.
    pub fn extend_due_date(&mut self, new_due_date: String)
        ensures
            final(self)@ == (LoanView { due_date: new_due_date@, ..old(self)@ }),
            final(self).book == old(self).book,
            final(self).borrower_name == old(self).borrower_name,
    {
        self.due_date = new_due_date;
    }
}

impl Library {
    /// The invariant that every library keeps, at every moment: each book
    /// stands under its own number, and that number was given out. It is
    /// why every method can promise a well-formed catalog, before and
    /// after, without asking for one.
    #[verifier::type_invariant]
    spec fn inv(&self) -> bool {
        &&& 1 <= self.next_id
        &&& forall|id: u32| #[trigger]
            self.books@.contains_key(id) ==> 1 <= id < self.next_id && self.books@[id].id == id
    }

    /// A library that keeps its invariant shows a well-formed catalog.
    proof fn lemma_view_wf(&self)
        requires
            self.inv(),
        ensures
            self@.wf(),
    {
        assert(self@.books.dom() =~= self.books@.dom());
    }

    /// An empty library, whose first book will get the number 1.
    pub fn new() -> (library: Self)
        ensures
            library@ == CatalogView::empty(),
            library@.wf(),
    {
        let library = Library { books: HashMap::new(), next_id: 1 };
        assert(library@.books =~= Map::<u32, BookView>::empty());
        library
    }

    /// Whether a number is left for one more book.
    pub fn has_room(&self) -> (r: bool)
        ensures
            r == self@.has_room(),
    {
        self.next_id < u32::MAX
    }

    /// Adds a new book with these texts and returns the number it got.
    pub fn add_book(&mut self, title: String, author: String, isbn: String) -> (id: u32)
        requires
            old(self)@.has_room(),
        ensures
            id == old(self)@.next_id,
            final(self)@ == old(self)@.add(title@, author@, isbn@),
            old(self)@.wf(),
            final(self)@.wf(),
    {
        proof {
            use_type_invariant(&*self);
            self.lemma_view_wf();
        }
        let id = self.next_id;
        // The map leaves the library while it changes, so that the library
        // keeps its invariant at every step.
        let mut books = HashMap::new();
        std::mem::swap(&mut books, &mut self.books);
        books.insert(id, Book { id, title, author, isbn });
        self.next_id = id + 1;
        self.books = books;
        proof {
            assert(self@.books =~= old(self)@.add(title@, author@, isbn@).books);
            self.lemma_view_wf();
        }
        id
    }

    /// Takes the book with number `book_id` off the shelf and hands it over
    /// in a record for this borrower. Where no such book is on the shelf,
    /// returns `None` and changes nothing.
    pub fn checkout_book(&mut self, book_id: u32, borrower_name: String, due_date: String) -> (r:
        Option<CheckedOutBook>)
        ensures
            r is Some <==> old(self)@.books.contains_key(book_id),
            match r {
                Some(record) => Some(record@),
                None => None,
            } == old(self)@.loan(book_id, borrower_name@, due_date@),
            final(self)@ == old(self)@.checkout(book_id),
            r is None ==> final(self)@ == old(self)@,
            old(self)@.wf(),
            final(self)@.wf(),
    {
        proof {
            use_type_invariant(&*self);
            self.lemma_view_wf();
        }
        let mut books = HashMap::new();
        std::mem::swap(&mut books, &mut self.books);
        let taken = books.remove(&book_id);
        self.books = books;
        proof {
            assert(self@.books =~= old(self)@.checkout(book_id).books);
            self.lemma_view_wf();
        }
        match taken {
            Some(book) => Some(CheckedOutBook { book, borrower_name, due_date }),
            None => {
                assert(self@.books =~= old(self)@.books);
                None
            },
        }
    }

    /// Puts the book of a record back on the shelf, under its number. A
    /// record that this library cannot have handed out, because its number
    /// was never given to a book or because a book stands under that number
    /// on the shelf, is dropped and changes nothing.
    pub fn return_book(&mut self, checked_out_book: CheckedOutBook)
        ensures
            final(self)@ == old(self)@.give_back(checked_out_book@),
            old(self)@.wf(),
            final(self)@.wf(),
    {
        proof {
            use_type_invariant(&*self);
            self.lemma_view_wf();
        }
        let book = checked_out_book.book;
        if 1 <= book.id && book.id < self.next_id && !self.books.contains_key(&book.id) {
            let mut books = HashMap::new();
            std::mem::swap(&mut books, &mut self.books);
            books.insert(book.id, book);
            self.books = books;
            proof {
                assert(self@.books =~= old(self)@.take_back(checked_out_book@).books);
                self.lemma_view_wf();
            }
        }
    }

    /// The book with number `book_id`, if it is on the shelf.
    pub fn get_book_info(&self, book_id: u32) -> (r: Option<&Book>)
        ensures
            r is Some <==> self@.books.contains_key(book_id),
            r matches Some(book) ==> book@ == self@.books[book_id],
            self@.wf(),
    {
        proof {
            use_type_invariant(self);
            self.lemma_view_wf();
        }
        self.books.get(&book_id)
    }

    /// The books on the shelf whose title contains `title_query`, each
    /// once, in the order in which the shelf is walked. A book that is
    /// checked out is not on the shelf.
    pub fn find_books_by_title(&self, title_query: &str) -> (found: Vec<&Book>)
        ensures
            views_of_refs(found@).no_duplicates(),
            views_of_refs(found@).to_set() == self@.matching(title_query@),
            self@.wf(),
    {
        proof {
            use_type_invariant(self);
            self.lemma_view_wf();
        }
        let query = chars_of(title_query);
        let mut found: Vec<&Book> = Vec::new();
        let ghost mut picked: Seq<int> = Seq::empty();
        let ghost mut walked: int = 0;
        for entry in it: self.books.iter()
            invariant
                query@ == title_query@,
                it.seq() == spec_hash_map_iter(&self.books).remaining(),
                walked == it.index(),
                picked_in_walk(
                    spec_hash_map_iter(&self.books).remaining(),
                    walked,
                    picked,
                    found@,
                    title_query@,
                ),
        {
            let book: &Book = entry.1;
            let title = chars_of(book.title.as_str());
            let ghost before = picked;
            if contains_chars(&title, &query) {
                found.push(book);
                proof {
                    picked = picked.push(walked);
                }
            }
            proof {
                assert forall|i: int|
                    0 <= i < walked + 1 && contains_text(
                        (#[trigger] it.seq()[i]).1.title@,
                        title_query@,
                    ) implies picked.contains(i) by {
                    if i < walked {
                        let j = choose|j: int| 0 <= j < before.len() && before[j] == i;
                        assert(picked[j] == i);
                    } else {
                        assert(picked[picked.len() - 1] == i);
                    }
                }
                walked = walked + 1;
            }
        }
        proof {
            self.lemma_picked_are_matching(
                spec_hash_map_iter(&self.books).remaining(),
                picked,
                found@,
                title_query@,
            );
        }
        found
    }

    /// The books on the shelf as they stand now, each once, handed out one
    /// by one in the order in which the shelf is walked.
    pub fn get_available_books(&self) -> (books: impl Iterator<Item = &Book>)
        ensures
            books.obeys_prophetic_iter_laws(),
            books.decrease() is Some,
            books.remaining().len() == self@.books.len(),
            views_of_refs(books.remaining()).no_duplicates(),
            views_of_refs(books.remaining()).to_set() == self@.books.values(),
            self@.wf(),
    {
        proof {
            use_type_invariant(self);
            self.lemma_view_wf();
        }
        let books = self.books.values();
        proof {
            self.lemma_walk_shows_each_once(books.remaining());
        }
        books
    }

    /// A walk that shows as many books as the shelf has, and exactly the
    /// books of the shelf, shows each of them once.
    proof fn lemma_walk_shows_each_once(&self, walk: Seq<&Book>)
        requires
            self.inv(),
            walk.len() == self.books@.dom().len(),
            walk.unref().to_set() == self.books@.values(),
        ensures
            walk.len() == self@.books.len(),
            views_of_refs(walk).no_duplicates(),
            views_of_refs(walk).to_set() == self@.books.values(),
    {
        let shelf = self.books@;
        let shown = walk.unref();
        assert(self@.books.dom() =~= shelf.dom());
        assert(shelf.is_injective()) by {
            assert forall|x: u32, y: u32|
                x != y && shelf.dom().contains(x) && shelf.dom().contains(y) implies #[trigger] shelf[x]
                != #[trigger] shelf[y] by {
                assert(shelf.contains_key(x) && shelf.contains_key(y));
                assert(shelf[x].id == x && shelf[y].id == y);
            }
        }
        shelf.lemma_injective_values_len();
        shown.lemma_no_dup_set_cardinality();
        let views = views_of_refs(walk);
        assert forall|i: int| 0 <= i < walk.len() implies shelf.contains_key(
            (#[trigger] walk[i]).id,
        ) && shelf[walk[i].id] == *walk[i] by {
            assert(shown[i] == *walk[i]);
            assert(shown.to_set().contains(shown[i]));
            assert(shelf.values().contains(*walk[i]));
            let k = choose|k: u32| shelf.contains_key(k) && shelf[k] == *walk[i];
            assert(shelf[k].id == k);
        }
        assert forall|i: int, j: int|
            0 <= i < views.len() && 0 <= j < views.len() && i != j implies views[i] != views[j] by {
            assert(shown[i] == *walk[i] && shown[j] == *walk[j]);
            assert(shown[i] != shown[j]);
            assert(shelf[walk[i].id] == *walk[i]);
            assert(shelf[walk[j].id] == *walk[j]);
            assert(walk[i].id != walk[j].id);
        }
        assert forall|b: BookView| views.to_set().contains(b) implies self@.books.values().contains(
            b,
        ) by {
            let i = choose|i: int| 0 <= i < views.len() && views[i] == b;
            assert(shelf.contains_key(walk[i].id));
            assert(self@.books.contains_key(walk[i].id) && self@.books[walk[i].id] == b);
        }
        assert forall|b: BookView| self@.books.values().contains(b) implies views.to_set().contains(
            b,
        ) by {
            let k = choose|k: u32| self@.books.contains_key(k) && self@.books[k] == b;
            assert(shelf.contains_key(k));
            assert(shelf.values().contains(shelf[k]));
            assert(shown.to_set().contains(shelf[k]));
            let i = choose|i: int| 0 <= i < shown.len() && shown[i] == shelf[k];
            assert(views[i] == b);
        }
        assert(views.to_set() =~= self@.books.values());
    }

    /// What a walk over the shelf that picks the books whose title contains
    /// `query` has found when it is through: each such book once.
    proof fn lemma_picked_are_matching(
        &self,
        all: Seq<(&u32, &Book)>,
        picked: Seq<int>,
        found: Seq<&Book>,
        query: Seq<char>,
    )
        requires
            self.inv(),
            all.no_duplicates(),
            forall|i: int|
                0 <= i < all.len() ==> self.books@.contains_key(*(#[trigger] all[i]).0)
                    && self.books@[*all[i].0] == *all[i].1,
            forall|k: u32| #[trigger]
                self.books@.contains_key(k) ==> all.contains((&k, &self.books@[k])),
            picked_in_walk(all, all.len() as int, picked, found, query),
        ensures
            views_of_refs(found).no_duplicates(),
            views_of_refs(found).to_set() == self@.matching(query),
    {
        let views = views_of_refs(found);
        assert forall|j: int, k: int| 0 <= j < views.len() && 0 <= k < views.len() && j != k implies views[j] != views[k] by {
            assert(picked[j] != picked[k]) by {
                if j < k {
                    assert(picked[j] < picked[k]);
                } else {
                    assert(picked[k] < picked[j]);
                }
            }
            let a = all[picked[j]];
            let b = all[picked[k]];
            assert(a != b);
            assert(self.books@.contains_key(*a.0) && self.books@[*a.0] == *a.1);
            assert(self.books@.contains_key(*b.0) && self.books@[*b.0] == *b.1);
            assert(*a.0 != *b.0);
            assert(views[j].id == *a.0);
            assert(views[k].id == *b.0);
        }
        assert forall|b: BookView| views.to_set().contains(b) implies self@.matching(query).contains(
            b,
        ) by {
            let j = choose|j: int| 0 <= j < views.len() && views[j] == b;
            let e = all[picked[j]];
            assert(self.books@.contains_key(*e.0) && self.books@[*e.0] == *e.1);
            assert(self@.books.contains_key(*e.0) && self@.books[*e.0] == b);
            assert(self@.books.values().contains(b));
        }
        assert forall|b: BookView| self@.matching(query).contains(b) implies views.to_set().contains(
            b,
        ) by {
            assert(self@.books.values().contains(b));
            let k = choose|k: u32| self@.books.contains_key(k) && self@.books[k] == b;
            assert(self.books@.contains_key(k));
            let pair = (&k, &self.books@[k]);
            assert(all.contains(pair));
            let i = choose|i: int| 0 <= i < all.len() && all[i] == pair;
            assert(contains_text(all[i].1.title@, query));
            assert(picked.contains(i));
            let j = choose|j: int| 0 <= j < picked.len() && picked[j] == i;
            assert(views[j] == b);
        }
        assert(views.to_set() =~= self@.matching(query));
    }
}

/// The state of a walk over `all`, the entries of the shelf, after `walked`
/// of them: `picked` holds, in rising order, the positions of those whose
/// title contains `query`, and `found` the books at these positions.
spec fn picked_in_walk(
    all: Seq<(&u32, &Book)>,
    walked: int,
    picked: Seq<int>,
    found: Seq<&Book>,
    query: Seq<char>,
) -> bool {
    &&& 0 <= walked <= all.len()
    &&& picked.len() == found.len()
    &&& forall|j: int| 0 <= j < picked.len() ==> 0 <= #[trigger] picked[j] < walked
    &&& forall|j: int, k: int| 0 <= j < k < picked.len() ==> picked[j] < picked[k]
    &&& forall|j: int| 0 <= j < picked.len() ==> *found[j] == *all[#[trigger] picked[j]].1
    &&& forall|j: int|
        0 <= j < picked.len() ==> contains_text((#[trigger] found[j]).title@, query)
    &&& forall|i: int|
        0 <= i < walked && contains_text((#[trigger] all[i]).1.title@, query)
            ==> picked.contains(i)
}

} // verus!
