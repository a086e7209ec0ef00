//! What holds of every numbered catalog, and of every course of events at
//! a lending desk that works with one.
//!
//! The first part speaks of single steps of a [`CatalogView`]. The second
//! part follows a whole desk, the catalog together with the records that
//! are out, through any sequence of events, and shows that no book is ever
//! lost or doubled.

use crate::numbered::{BookView, CatalogView, LoanView};
use crate::text::contains_text;
use vstd::prelude::*;

verus! {

/// The empty catalog is well formed.
pub proof fn law_empty_is_well_formed()
    ensures
        CatalogView::empty().wf(),
{
}

/// Adding a book keeps the catalog well formed.
pub proof fn law_add_keeps_well_formed(
    c: CatalogView,
    title: Seq<char>,
    author: Seq<char>,
    isbn: Seq<char>,
)
    requires
        c.wf(),
        c.has_room(),
    ensures
        c.add(title, author, isbn).wf(),
{
}

/// Checking a book out keeps the catalog well formed.
pub proof fn law_checkout_keeps_well_formed(c: CatalogView, id: u32)
    requires
        c.wf(),
    ensures
        c.checkout(id).wf(),
{
}

/// Taking a record back keeps the catalog well formed, whatever the record.
pub proof fn law_give_back_keeps_well_formed(c: CatalogView, loan: LoanView)
    requires
        c.wf(),
    ensures
        c.give_back(loan).wf(),
{
}

/// The number that a new book gets is the next one, it was on no book of
/// the shelf before, it is above every number on the shelf, and the number
/// after it comes next.
pub proof fn law_new_number_is_fresh(
    c: CatalogView,
    title: Seq<char>,
    author: Seq<char>,
    isbn: Seq<char>,
)
    requires
        c.wf(),
        c.has_room(),
    ensures
        c.next_book(title, author, isbn).id == c.next_id,
        !c.books.contains_key(c.next_book(title, author, isbn).id),
        forall|id: u32| c.books.contains_key(id) ==> id < c.next_book(title, author, isbn).id,
        c.add(title, author, isbn).next_id == c.next_id + 1,
        c.add(title, author, isbn).books.len() == c.books.len() + 1,
{
}

/// Neither checking out nor taking back changes the number that the next
/// new book gets.
pub proof fn law_lending_keeps_next_number(c: CatalogView, id: u32, loan: LoanView)
    ensures
        c.checkout(id).next_id == c.next_id,
        c.give_back(loan).next_id == c.next_id,
{
}

/// A number that was never given to a book is not on the shelf: checking
/// it out hands over nothing and leaves the catalog as it is.
pub proof fn law_unissued_number_is_not_found(
    c: CatalogView,
    id: u32,
    borrower_name: Seq<char>,
    due_date: Seq<char>,
)
    requires
        c.wf(),
        !c.issued(id),
    ensures
        !c.books.contains_key(id),
        c.loan(id, borrower_name, due_date) is None,
        c.checkout(id) == c,
{
    law_absent_book_is_not_found(c, id, borrower_name, due_date);
}

/// Checking out a book that is not on the shelf hands over nothing and
/// leaves the catalog, and with it the number of books, as it is.
pub proof fn law_absent_book_is_not_found(
    c: CatalogView,
    id: u32,
    borrower_name: Seq<char>,
    due_date: Seq<char>,
)
    requires
        !c.books.contains_key(id),
    ensures
        c.loan(id, borrower_name, due_date) is None,
        c.checkout(id) == c,
        c.checkout(id).books.len() == c.books.len(),
{
    assert(c.checkout(id).books =~= c.books);
}

/// Checking a book out and returning the record at once gives back the
/// catalog as it was: the same books under the same numbers, so the same
/// count and the same answer to every search. The due date may have been
/// extended in between.
pub proof fn law_checkout_then_return_restores(
    c: CatalogView,
    id: u32,
    borrower_name: Seq<char>,
    due_date: Seq<char>,
    new_due_date: Seq<char>,
    query: Seq<char>,
)
    requires
        c.wf(),
    ensures
        match c.loan(id, borrower_name, due_date) {
            Some(loan) => {
                let back = c.checkout(id).give_back(LoanView { due_date: new_due_date, ..loan });
                &&& c.checkout(id).give_back(loan) == c
                &&& back == c
                &&& back.books.len() == c.books.len()
                &&& back.matching(query) == c.matching(query)
            },
            None => c.checkout(id) == c,
        },
{
    match c.loan(id, borrower_name, due_date) {
        Some(loan) => {
            assert(c.checkout(id).lent_out(loan));
            assert(c.checkout(id).take_back(loan).books =~= c.books);
        },
        None => {
            assert(c.checkout(id).books =~= c.books);
        },
    }
}

/// A book that was checked out cannot be checked out again: the second
/// call hands over nothing and changes nothing.
pub proof fn law_second_checkout_is_not_found(
    c: CatalogView,
    id: u32,
    borrower_name: Seq<char>,
    due_date: Seq<char>,
)
    ensures
        c.checkout(id).loan(id, borrower_name, due_date) is None,
        c.checkout(id).checkout(id) == c.checkout(id),
{
    assert(c.checkout(id).checkout(id).books =~= c.checkout(id).books);
}

/// A record that was returned cannot be returned again: the second call
/// changes nothing.
pub proof fn law_second_return_changes_nothing(c: CatalogView, loan: LoanView)
    ensures
        !c.give_back(loan).lent_out(loan),
        c.give_back(loan).give_back(loan) == c.give_back(loan),
{
}

/// A step that concerns one number leaves every other number as it was:
/// on the shelf or not, and with the same book.
pub proof fn law_steps_leave_other_numbers(
    c: CatalogView,
    id: u32,
    loan: LoanView,
    texts: (Seq<char>, Seq<char>, Seq<char>),
    other: u32,
)
    requires
        c.wf(),
    ensures
        other != id ==> c.checkout(id).books.contains_key(other) == c.books.contains_key(other),
        other != id && c.books.contains_key(other) ==> c.checkout(id).books[other]
            == c.books[other],
        other != loan.book.id ==> c.give_back(loan).books.contains_key(other)
            == c.books.contains_key(other),
        other != loan.book.id && c.books.contains_key(other) ==> c.give_back(loan).books[other]
            == c.books[other],
        other != c.next_id ==> c.add(texts.0, texts.1, texts.2).books.contains_key(other)
            == c.books.contains_key(other),
        c.books.contains_key(other) ==> c.add(texts.0, texts.1, texts.2).books[other]
            == c.books[other],
{
}

/// A book that is checked out is in no search result, and every other book
/// that was found before is still found.
pub proof fn law_checked_out_book_is_not_found(c: CatalogView, id: u32, query: Seq<char>)
    requires
        c.wf(),
        c.books.contains_key(id),
    ensures
        !c.checkout(id).books.values().contains(c.books[id]),
        c.checkout(id).matching(query) == c.matching(query).remove(c.books[id]),
{
    let after = c.checkout(id);
    let gone = c.books[id];
    assert forall|b: BookView| after.books.values().contains(b) <==> c.books.values().contains(b)
        && b != gone by {
        if after.books.values().contains(b) {
            let k = choose|k: u32| after.books.contains_key(k) && after.books[k] == b;
            assert(c.books.contains_key(k) && c.books[k] == b);
            assert(b.id == k);
        }
        if c.books.values().contains(b) && b != gone {
            let k = choose|k: u32| c.books.contains_key(k) && c.books[k] == b;
            assert(after.books.contains_key(k) && after.books[k] == b);
        }
    }
    assert(after.matching(query) =~= c.matching(query).remove(gone));
}

/// A lending desk: the catalog, the records that are out, and every book
/// that was ever added, in the order in which they were added.
pub struct Desk {
    pub catalog: CatalogView,
    pub loans: Seq<LoanView>,
    pub added: Seq<BookView>,
}

/// What can happen at a desk. A record that is out is named by its place
/// among the records that are out.
pub enum Event {
    /// A new book with these texts is added to the catalog.
    Add { title: Seq<char>, author: Seq<char>, isbn: Seq<char> },
    /// Someone asks to check out the book with this number.
    Checkout { id: u32, borrower_name: Seq<char>, due_date: Seq<char> },
    /// The record at this place is returned.
    Return { slot: int },
    /// The record at this place gets a new due date.
    Extend { slot: int, due_date: Seq<char> },
}

impl Desk {
    /// The desk of a new library: nothing added, nothing out.
    pub open spec fn start() -> Desk {
        Desk { catalog: CatalogView::empty(), loans: Seq::empty(), added: Seq::empty() }
    }

    /// Whether a record is out at place `slot`.
    pub open spec fn has_slot(self, slot: int) -> bool {
        0 <= slot < self.loans.len()
    }

    /// Whether the book with number `id` is on the shelf.
    pub open spec fn on_shelf(self, id: u32) -> bool {
        self.catalog.books.contains_key(id)
    }

    /// Whether the record at place `slot` holds the book with number `id`.
    pub open spec fn on_loan_at(self, id: u32, slot: int) -> bool {
        self.has_slot(slot) && self.loans[slot].book.id == id
    }

    /// Whether some record that is out holds the book with number `id`.
    pub open spec fn on_loan(self, id: u32) -> bool {
        exists|slot: int| self.on_loan_at(id, slot)
    }

    /// Whether the book with number `id` is in exactly one place: on the
    /// shelf or in one record that is out, never in both, never in neither,
    /// never in two records.
    pub open spec fn in_one_place(self, id: u32) -> bool {
        &&& self.on_shelf(id) != self.on_loan(id)
        &&& forall|s: int, t: int|
            self.on_loan_at(id, s) && self.on_loan_at(id, t) ==> s == t
    }

    /// The desk after `event`. An event that cannot take place, adding a
    /// book when the numbers have run out or naming a place where no record
    /// is out, leaves the desk as it is. A record that is handed out is
    /// kept behind the records that are out already; a record that is
    /// returned leaves its place.
    pub open spec fn step(self, event: Event) -> Desk {
        match event {
            Event::Add { title, author, isbn } => if self.catalog.has_room() {
                Desk {
                    catalog: self.catalog.add(title, author, isbn),
                    loans: self.loans,
                    added: self.added.push(self.catalog.next_book(title, author, isbn)),
                }
            } else {
                self
            },
            Event::Checkout { id, borrower_name, due_date } => Desk {
                catalog: self.catalog.checkout(id),
                loans: match self.catalog.loan(id, borrower_name, due_date) {
                    Some(loan) => self.loans.push(loan),
                    None => self.loans,
                },
                added: self.added,
            },
            Event::Return { slot } => if self.has_slot(slot) {
                Desk {
                    catalog: self.catalog.give_back(self.loans[slot]),
                    loans: self.loans.remove(slot),
                    added: self.added,
                }
            } else {
                self
            },
            Event::Extend { slot, due_date } => if self.has_slot(slot) {
                Desk {
                    catalog: self.catalog,
                    loans: self.loans.update(slot, LoanView { due_date, ..self.loans[slot] }),
                    added: self.added,
                }
            } else {
                self
            },
        }
    }

    /// The desk after the `events`, one after the other.
    pub open spec fn run(self, events: Seq<Event>) -> Desk
        decreases events.len(),
    {
        if events.len() == 0 {
            self
        } else {
            self.run(events.drop_last()).step(events.last())
        }
    }

    /// What holds of a desk at every moment: the catalog is well formed;
    /// the books added got the numbers 1, 2, 3 and so on; each of them is
    /// in exactly one place; and wherever a book is, on the shelf or in a
    /// record, it is the book that was added under its number.
    pub open spec fn sound(self) -> bool {
        &&& self.catalog.wf()
        &&& self.added.len() + 1 == self.catalog.next_id
        &&& forall|k: int| 0 <= k < self.added.len() ==> (#[trigger] self.added[k]).id == k + 1
        &&& forall|id: u32| self.catalog.issued(id) ==> #[trigger] self.in_one_place(id)
        &&& forall|id: u32| #[trigger]
            self.on_shelf(id) ==> self.catalog.books[id] == self.added[id - 1]
        &&& forall|slot: int| #[trigger]
            self.has_slot(slot) ==> self.catalog.issued(self.loans[slot].book.id)
                && self.loans[slot].book == self.added[self.loans[slot].book.id - 1]
    }
}

/// The desk of a new library is sound.
pub proof fn law_start_is_sound()
    ensures
        Desk::start().sound(),
{
    let d = Desk::start();
    assert forall|id: u32| d.catalog.issued(id) implies #[trigger] d.in_one_place(id) by {}
}

/// No event makes a sound desk unsound.
pub proof fn law_step_keeps_sound(desk: Desk, event: Event)
    requires
        desk.sound(),
    ensures
        desk.step(event).sound(),
{
    match event {
        Event::Add { title, author, isbn } => {
            lemma_add_keeps_sound(desk, title, author, isbn);
        },
        Event::Checkout { id, borrower_name, due_date } => {
            lemma_checkout_keeps_sound(desk, id, borrower_name, due_date);
        },
        Event::Return { slot } => {
            lemma_return_keeps_sound(desk, slot);
        },
        Event::Extend { slot, due_date } => {
            lemma_extend_keeps_sound(desk, slot, due_date);
        },
    }
}

/// Adding a book keeps a sound desk sound.
proof fn lemma_add_keeps_sound(desk: Desk, title: Seq<char>, author: Seq<char>, isbn: Seq<char>)
    requires
        desk.sound(),
    ensures
        desk.step(Event::Add { title, author, isbn }).sound(),
{
    let next = desk.step(Event::Add { title, author, isbn });
    if desk.catalog.has_room() {
        let new_id = desk.catalog.next_id as u32;
        assert forall|id: u32| next.catalog.issued(id) implies #[trigger] next.in_one_place(
            id,
        ) by {
            if id == new_id {
                assert(next.on_shelf(id));
                assert forall|s: int| !next.on_loan_at(id, s) by {
                    if next.has_slot(s) {
                        assert(desk.has_slot(s));
                    }
                }
            } else {
                assert(desk.in_one_place(id));
                lemma_same_loans_same_places(desk, next, id);
            }
        }
        assert forall|slot: int| #[trigger] next.has_slot(slot) implies next.catalog.issued(
            next.loans[slot].book.id,
        ) && next.loans[slot].book == next.added[next.loans[slot].book.id - 1] by {
            assert(desk.has_slot(slot));
        }
        assert forall|id: u32| #[trigger] next.on_shelf(id) implies next.catalog.books[id]
            == next.added[id - 1] by {
            if id != new_id {
                assert(desk.on_shelf(id));
            }
        }
        assert forall|k: int| 0 <= k < next.added.len() implies (#[trigger] next.added[k]).id == k
            + 1 by {
            if k < desk.added.len() {
                assert(next.added[k] == desk.added[k]);
            }
        }
    }
}

/// Checking a book out keeps a sound desk sound.
proof fn lemma_checkout_keeps_sound(
    desk: Desk,
    id: u32,
    borrower_name: Seq<char>,
    due_date: Seq<char>,
)
    requires
        desk.sound(),
    ensures
        desk.step(Event::Checkout { id, borrower_name, due_date }).sound(),
{
    let next = desk.step(Event::Checkout { id, borrower_name, due_date });
    if desk.on_shelf(id) {
        let last = desk.loans.len() as int;
        assert(desk.in_one_place(id));
        assert forall|other: u32| next.catalog.issued(other) implies #[trigger] next.in_one_place(
            other,
        ) by {
            assert(desk.in_one_place(other));
            if other == id {
                assert(!desk.on_loan(id));
                assert(next.on_loan_at(id, last));
                assert forall|s: int| next.on_loan_at(id, s) implies s == last by {
                    if s != last {
                        assert(desk.on_loan_at(id, s));
                    }
                }
            } else {
                assert forall|s: int| next.on_loan_at(other, s) == desk.on_loan_at(other, s) by {}
                lemma_same_loan_places(desk, next, other);
            }
        }
        assert forall|slot: int| #[trigger] next.has_slot(slot) implies next.catalog.issued(
            next.loans[slot].book.id,
        ) && next.loans[slot].book == next.added[next.loans[slot].book.id - 1] by {
            if slot != last {
                assert(desk.has_slot(slot));
            }
        }
        assert forall|other: u32| #[trigger] next.on_shelf(other) implies next.catalog.books[other]
            == next.added[other - 1] by {
            assert(desk.on_shelf(other));
        }
    } else {
        law_absent_book_is_not_found(desk.catalog, id, borrower_name, due_date);
        assert(next == desk);
    }
}

/// The place before the return of `slot` of the record that stands at
/// place `s` after it.
spec fn place_before(slot: int, s: int) -> int {
    if s < slot {
        s
    } else {
        s + 1
    }
}

/// Returning a record keeps a sound desk sound.
proof fn lemma_return_keeps_sound(desk: Desk, slot: int)
    requires
        desk.sound(),
    ensures
        desk.step(Event::Return { slot }).sound(),
{
    let next = desk.step(Event::Return { slot });
    if desk.has_slot(slot) {
        let loan = desk.loans[slot];
        let id = loan.book.id;
        assert(desk.catalog.issued(id));
        assert(desk.in_one_place(id));
        assert(desk.on_loan_at(id, slot));
        assert(desk.catalog.lent_out(loan));
        assert forall|other: u32, s: int|
            next.on_loan_at(other, s) == desk.on_loan_at(other, place_before(slot, s)) by {}
        assert forall|other: u32| next.catalog.issued(other) implies #[trigger] next.in_one_place(
            other,
        ) by {
            assert(desk.in_one_place(other));
            if other == id {
                assert(next.on_shelf(id));
                assert forall|s: int| !next.on_loan_at(id, s) by {
                    if next.on_loan_at(id, s) {
                        assert(desk.on_loan_at(id, place_before(slot, s)));
                    }
                }
            } else {
                assert(next.on_shelf(other) == desk.on_shelf(other));
                if desk.on_loan(other) {
                    let s = choose|s: int| desk.on_loan_at(other, s);
                    let t = if s < slot {
                        s
                    } else {
                        s - 1
                    };
                    assert(place_before(slot, t) == s);
                    assert(next.on_loan_at(other, t));
                }
                if next.on_loan(other) {
                    let s = choose|s: int| next.on_loan_at(other, s);
                    assert(desk.on_loan_at(other, place_before(slot, s)));
                }
                assert forall|s: int, t: int|
                    next.on_loan_at(other, s) && next.on_loan_at(other, t) implies s == t by {
                    assert(desk.on_loan_at(other, place_before(slot, s)));
                    assert(desk.on_loan_at(other, place_before(slot, t)));
                }
            }
        }
        assert forall|s: int| #[trigger] next.has_slot(s) implies next.catalog.issued(
            next.loans[s].book.id,
        ) && next.loans[s].book == next.added[next.loans[s].book.id - 1] by {
            assert(desk.has_slot(place_before(slot, s)));
        }
        assert forall|other: u32| #[trigger] next.on_shelf(other) implies next.catalog.books[other]
            == next.added[other - 1] by {
            if other != id {
                assert(desk.on_shelf(other));
            }
        }
    }
}

/// A new due date keeps a sound desk sound.
proof fn lemma_extend_keeps_sound(desk: Desk, slot: int, due_date: Seq<char>)
    requires
        desk.sound(),
    ensures
        desk.step(Event::Extend { slot, due_date }).sound(),
{
    let next = desk.step(Event::Extend { slot, due_date });
    if desk.has_slot(slot) {
        assert forall|id: u32| next.catalog.issued(id) implies #[trigger] next.in_one_place(
            id,
        ) by {
            assert(desk.in_one_place(id));
            assert forall|s: int| next.on_loan_at(id, s) == desk.on_loan_at(id, s) by {}
            lemma_same_loan_places(desk, next, id);
        }
        assert forall|s: int| #[trigger] next.has_slot(s) implies next.catalog.issued(
            next.loans[s].book.id,
        ) && next.loans[s].book == next.added[next.loans[s].book.id - 1] by {
            assert(desk.has_slot(s));
        }
        assert forall|id: u32| #[trigger] next.on_shelf(id) implies next.catalog.books[id]
            == next.added[id - 1] by {
            assert(desk.on_shelf(id));
        }
    }
}

/// Two desks with the same records out have each book on loan at the same
/// places.
proof fn lemma_same_loans_same_places(a: Desk, b: Desk, id: u32)
    requires
        a.loans == b.loans,
        a.in_one_place(id),
        a.on_shelf(id) == b.on_shelf(id),
    ensures
        b.in_one_place(id),
{
    assert forall|s: int| b.on_loan_at(id, s) == a.on_loan_at(id, s) by {}
    lemma_same_loan_places(a, b, id);
}

/// Two desks on which a book is on loan at the same places, and on the
/// shelf of both or of neither, have it in one place together.
proof fn lemma_same_loan_places(a: Desk, b: Desk, id: u32)
    requires
        forall|s: int| b.on_loan_at(id, s) == a.on_loan_at(id, s),
        a.in_one_place(id),
        a.on_shelf(id) == b.on_shelf(id),
    ensures
        b.in_one_place(id),
{
    if a.on_loan(id) {
        let s = choose|s: int| a.on_loan_at(id, s);
        assert(b.on_loan_at(id, s));
    }
    if b.on_loan(id) {
        let s = choose|s: int| b.on_loan_at(id, s);
        assert(a.on_loan_at(id, s));
    }
}

/// No sequence of events makes a sound desk unsound.
pub proof fn law_run_keeps_sound(desk: Desk, events: Seq<Event>)
    requires
        desk.sound(),
    ensures
        desk.run(events).sound(),
    decreases events.len(),
{
    if events.len() > 0 {
        law_run_keeps_sound(desk, events.drop_last());
        law_step_keeps_sound(desk.run(events.drop_last()), events.last());
    }
}

/// After any sequence of events at the desk of a new library, every book
/// that was added is in exactly one place, on the shelf or in one record
/// that is out, and is there as it was added.
pub proof fn law_every_book_is_in_one_place(events: Seq<Event>, k: int)
    requires
        0 <= k < Desk::start().run(events).added.len(),
    ensures
        ({
            let desk = Desk::start().run(events);
            let book = desk.added[k];
            &&& desk.in_one_place(book.id)
            &&& desk.on_shelf(book.id) ==> desk.catalog.books[book.id] == book
            &&& forall|slot: int| desk.on_loan_at(book.id, slot) ==> desk.loans[slot].book == book
        }),
{
    law_start_is_sound();
    law_run_keeps_sound(Desk::start(), events);
    let desk = Desk::start().run(events);
    let book = desk.added[k];
    assert(book.id == k + 1);
    assert(desk.catalog.issued(book.id));
    assert forall|slot: int| desk.on_loan_at(book.id, slot) implies desk.loans[slot].book
        == book by {
        assert(desk.has_slot(slot));
    }
}

/// After any sequence of events at the desk of a new library, the books
/// that were added bear the numbers 1, 2, 3 and so on in the order in
/// which they were added: a later book has a higher number, and no two
/// books have the same.
pub proof fn law_numbers_rise(events: Seq<Event>, j: int, k: int)
    requires
        0 <= j < k < Desk::start().run(events).added.len(),
    ensures
        ({
            let added = Desk::start().run(events).added;
            &&& added[j].id == j + 1
            &&& added[k].id == k + 1
            &&& added[j].id < added[k].id
        }),
{
    law_start_is_sound();
    law_run_keeps_sound(Desk::start(), events);
}

} // verus!
