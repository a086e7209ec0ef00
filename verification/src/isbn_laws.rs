//! What holds of every library that is keyed by ISBN, and of every course
//! of moves between its shelf and its members.
//!
//! A collection of books is a sequence of [`BookView`]; what counts for
//! ownership is the multiset of its books, since lending and returning
//! change the order in which books stand.

use crate::isbn::{
    first_with_isbn, hand_over, holds_isbn, is_first_with_isbn, lemma_first_exists,
    lemma_first_is_unique, titled, BookView,
};
use vstd::multiset::Multiset;
use vstd::prelude::*;
use vstd::seq_lib::{
    lemma_multiset_commutative, to_multiset_build, to_multiset_contains, to_multiset_len,
    to_multiset_remove,
};

verus! {

/// Handing a book over moves exactly one book, the first that carries the
/// ISBN, and neither loses nor doubles any: the two collections together
/// hold the same books before and after. Where no book carries the ISBN,
/// both collections stay as they are.
pub proof fn law_hand_over_moves_one_book(from: Seq<BookView>, to: Seq<BookView>, isbn: Seq<char>)
    ensures
        ({
            let (from2, to2) = hand_over(from, to, isbn);
            &&& from2.to_multiset().add(to2.to_multiset()) == from.to_multiset().add(
                to.to_multiset(),
            )
            &&& from2.len() + to2.len() == from.len() + to.len()
            &&& holds_isbn(from, isbn) ==> {
                &&& from2.len() == from.len() - 1
                &&& to2.len() == to.len() + 1
                &&& to2.last().isbn == isbn
                &&& to2.last() == from[first_with_isbn(from, isbn)]
                &&& to2.drop_last() == to
            }
            &&& !holds_isbn(from, isbn) ==> from2 == from && to2 == to
        }),
{
    broadcast use vstd::multiset::group_multiset_axioms;

    if holds_isbn(from, isbn) {
        lemma_first_exists(from, isbn);
        let i = first_with_isbn(from, isbn);
        to_multiset_remove(from, i);
        to_multiset_build(to, from[i]);
        to_multiset_len(from);
        assert(from.to_multiset().count(from[i]) > 0) by {
            to_multiset_contains(from, from[i]);
            assert(from.contains(from[i]));
        }
        assert(from.remove(i).to_multiset().add(to.push(from[i]).to_multiset())
            =~= from.to_multiset().add(to.to_multiset()));
        assert(to.push(from[i]).drop_last() =~= to);
    }
}

/// Putting a book on the shelf adds that one book to it and nothing else.
pub proof fn law_add_puts_one_book(shelf: Seq<BookView>, book: BookView)
    ensures
        shelf.push(book).to_multiset() == shelf.to_multiset().insert(book),
        shelf.push(book).len() == shelf.len() + 1,
        shelf.push(book).drop_last() == shelf,
{
    to_multiset_build(shelf, book);
    assert(shelf.push(book).drop_last() =~= shelf);
}

/// Lending a book and taking it back at once, from a member that held no
/// book with that ISBN before, restores the member's books exactly and the
/// shelf up to the order of its books: the same count, the same books, and
/// for every title the same books found.
pub proof fn law_lend_then_return_restores(
    shelf: Seq<BookView>,
    held: Seq<BookView>,
    isbn: Seq<char>,
    title: Seq<char>,
)
    requires
        !holds_isbn(held, isbn),
    ensures
        ({
            let (shelf1, held1) = hand_over(shelf, held, isbn);
            let (held2, shelf2) = hand_over(held1, shelf1, isbn);
            &&& held2 == held
            &&& shelf2.len() == shelf.len()
            &&& shelf2.to_multiset() == shelf.to_multiset()
            &&& titled(shelf2, title).to_multiset() == titled(shelf, title).to_multiset()
            &&& titled(shelf2, title).len() == titled(shelf, title).len()
        }),
{
    broadcast use vstd::multiset::group_multiset_axioms;

    let (shelf1, held1) = hand_over(shelf, held, isbn);
    let (held2, shelf2) = hand_over(held1, shelf1, isbn);
    if holds_isbn(shelf, isbn) {
        lemma_first_exists(shelf, isbn);
        let i = first_with_isbn(shelf, isbn);
        let book = shelf[i];
        let last = held.len() as int;
        assert(held1 == held.push(book));
        assert(is_first_with_isbn(held1, isbn, last)) by {
            assert forall|j: int| 0 <= j < last implies #[trigger] held1[j].isbn != isbn by {
                assert(held[j] == held1[j]);
            }
        }
        lemma_first_is_unique(held1, isbn, last);
        assert(held2 =~= held);
        assert(shelf2 == shelf.remove(i).push(book));
        lemma_moved_to_end_is_same_books(shelf, i, title);
    }
}

/// Moving the book at position `i` to the end of a collection keeps its
/// books, and the books found under any title.
proof fn lemma_moved_to_end_is_same_books(books: Seq<BookView>, i: int, title: Seq<char>)
    requires
        0 <= i < books.len(),
    ensures
        books.remove(i).push(books[i]).len() == books.len(),
        books.remove(i).push(books[i]).to_multiset() == books.to_multiset(),
        titled(books.remove(i).push(books[i]), title).to_multiset() == titled(
            books,
            title,
        ).to_multiset(),
        titled(books.remove(i).push(books[i]), title).len() == titled(books, title).len(),
{
    broadcast use vstd::multiset::group_multiset_axioms;

    let wanted = |b: BookView| b.title == title;
    let front = books.subrange(0, i);
    let one = seq![books[i]];
    let back = books.subrange(i + 1, books.len() as int);
    let moved = books.remove(i).push(books[i]);
    assert(books =~= front + one + back);
    assert(moved =~= front + back + one);
    lemma_multiset_commutative(front, one);
    lemma_multiset_commutative(front + one, back);
    lemma_multiset_commutative(front, back);
    lemma_multiset_commutative(front + back, one);
    assert(moved.to_multiset() =~= books.to_multiset());
    Seq::filter_distributes_over_add(front, one, wanted);
    Seq::filter_distributes_over_add(front + one, back, wanted);
    Seq::filter_distributes_over_add(front, back, wanted);
    Seq::filter_distributes_over_add(front + back, one, wanted);
    let f = front.filter(wanted);
    let o = one.filter(wanted);
    let b = back.filter(wanted);
    assert(titled(books, title) == f + o + b);
    assert(titled(moved, title) == f + b + o);
    lemma_multiset_commutative(f, o);
    lemma_multiset_commutative(f + o, b);
    lemma_multiset_commutative(f, b);
    lemma_multiset_commutative(f + b, o);
    assert((f + b + o).to_multiset() =~= (f + o + b).to_multiset());
    to_multiset_len(f + b + o);
    to_multiset_len(f + o + b);
}

/// Where at most one book of a collection carries an ISBN, handing that
/// book over leaves none behind: a second attempt finds nothing, fails and
/// changes nothing.
pub proof fn law_second_hand_over_fails(from: Seq<BookView>, to: Seq<BookView>, isbn: Seq<char>)
    requires
        forall|i: int, j: int|
            0 <= i < from.len() && 0 <= j < from.len() && #[trigger] from[i].isbn == isbn
                && #[trigger] from[j].isbn == isbn ==> i == j,
    ensures
        ({
            let (from1, to1) = hand_over(from, to, isbn);
            &&& !holds_isbn(from1, isbn)
            &&& hand_over(from1, to1, isbn) == (from1, to1)
        }),
{
    let (from1, to1) = hand_over(from, to, isbn);
    if holds_isbn(from, isbn) {
        lemma_first_exists(from, isbn);
        let i = first_with_isbn(from, isbn);
        assert forall|k: int| 0 <= k < from1.len() implies #[trigger] from1[k].isbn != isbn by {
            let before = if k < i {
                k
            } else {
                k + 1
            };
            assert(from1[k] == from[before]);
            if from[before].isbn == isbn {
                assert(from[i].isbn == isbn);
                assert(before == i);
            }
        }
    }
}

/// Handing over the book with one ISBN leaves the books with every other
/// ISBN where they are, in their order, in both collections.
pub proof fn law_hand_over_leaves_other_books(
    from: Seq<BookView>,
    to: Seq<BookView>,
    isbn: Seq<char>,
)
    ensures
        ({
            let (from2, to2) = hand_over(from, to, isbn);
            let others = |b: BookView| b.isbn != isbn;
            &&& from2.filter(others) == from.filter(others)
            &&& to2.filter(others) == to.filter(others)
        }),
{
    let others = |b: BookView| b.isbn != isbn;
    if holds_isbn(from, isbn) {
        lemma_first_exists(from, isbn);
        let i = first_with_isbn(from, isbn);
        let front = from.subrange(0, i);
        let one = seq![from[i]];
        let back = from.subrange(i + 1, from.len() as int);
        assert(from =~= front + one + back);
        assert(from.remove(i) =~= front + back);
        Seq::filter_distributes_over_add(front, one, others);
        Seq::filter_distributes_over_add(front + one, back, others);
        Seq::filter_distributes_over_add(front, back, others);
        lemma_select_of_one(from[i], others);
        assert(front.filter(others) + one.filter(others) =~= front.filter(others));
        assert(to.push(from[i]) =~= to + one);
        Seq::filter_distributes_over_add(to, one, others);
        assert(to.filter(others) + one.filter(others) =~= to.filter(others));
    }
}

/// A book that is lent is no longer found on the shelf: under its title
/// one book fewer is found, the lent one, and under every other title the
/// same books as before.
pub proof fn law_lent_book_is_not_found(
    shelf: Seq<BookView>,
    held: Seq<BookView>,
    isbn: Seq<char>,
    title: Seq<char>,
)
    requires
        holds_isbn(shelf, isbn),
    ensures
        ({
            let lent = shelf[first_with_isbn(shelf, isbn)];
            let shelf2 = hand_over(shelf, held, isbn).0;
            if lent.title == title {
                &&& titled(shelf2, title).len() == titled(shelf, title).len() - 1
                &&& titled(shelf2, title).to_multiset() == titled(shelf, title).to_multiset().remove(
                    lent,
                )
            } else {
                titled(shelf2, title) == titled(shelf, title)
            }
        }),
{
    broadcast use vstd::multiset::group_multiset_axioms;

    let wanted = |b: BookView| b.title == title;
    lemma_first_exists(shelf, isbn);
    let i = first_with_isbn(shelf, isbn);
    let front = shelf.subrange(0, i);
    let one = seq![shelf[i]];
    let back = shelf.subrange(i + 1, shelf.len() as int);
    assert(shelf =~= front + one + back);
    assert(shelf.remove(i) =~= front + back);
    Seq::filter_distributes_over_add(front, one, wanted);
    Seq::filter_distributes_over_add(front + one, back, wanted);
    Seq::filter_distributes_over_add(front, back, wanted);
    let f = front.filter(wanted);
    let b = back.filter(wanted);
    lemma_select_of_one(shelf[i], wanted);
    if shelf[i].title == title {
        assert(titled(shelf, title) == f + one + b);
        assert(titled(shelf.remove(i), title) == f + b);
        to_multiset_remove(f + one + b, f.len() as int);
        assert((f + one + b).remove(f.len() as int) =~= f + b);
        to_multiset_len(f + b);
        to_multiset_len(f + one + b);
    } else {
        assert(f + one.filter(wanted) =~= f);
    }
}

/// Selecting from a single book gives that book or nothing.
proof fn lemma_select_of_one(book: BookView, wanted: spec_fn(BookView) -> bool)
    ensures
        seq![book].filter(wanted) == if wanted(book) {
            seq![book]
        } else {
            Seq::<BookView>::empty()
        },
{
    reveal_with_fuel(Seq::filter, 2);
    assert(seq![book].drop_last() =~= Seq::<BookView>::empty());
    assert(Seq::<BookView>::empty().push(book) =~= seq![book]);
}

/// A library floor: the shelf, and what each member holds.
pub struct Floor {
    pub shelf: Seq<BookView>,
    pub members: Seq<Seq<BookView>>,
}

/// What can happen on a floor. A member is named by its place among the
/// members.
pub enum Move {
    /// A book is put on the shelf.
    Add { book: BookView },
    /// A new member, holding nothing, joins.
    Join,
    /// The library is asked to lend the book with this ISBN to a member.
    Lend { isbn: Seq<char>, member: int },
    /// The library is asked to take the book with this ISBN back from a
    /// member.
    Return { isbn: Seq<char>, member: int },
}

/// The books that the members hold, all together.
pub open spec fn held_by_all(members: Seq<Seq<BookView>>) -> Multiset<BookView>
    decreases members.len(),
{
    if members.len() == 0 {
        Multiset::empty()
    } else {
        held_by_all(members.drop_last()).add(members.last().to_multiset())
    }
}

/// The books that `moves` put on the shelf.
pub open spec fn added_by(moves: Seq<Move>) -> Multiset<BookView>
    decreases moves.len(),
{
    if moves.len() == 0 {
        Multiset::empty()
    } else {
        match moves.last() {
            Move::Add { book } => added_by(moves.drop_last()).insert(book),
            _ => added_by(moves.drop_last()),
        }
    }
}

impl Floor {
    /// Whether `member` names a member.
    pub open spec fn has_member(self, member: int) -> bool {
        0 <= member < self.members.len()
    }

    /// Every book on the floor, on the shelf or with a member, as often as
    /// it is there.
    pub open spec fn holdings(self) -> Multiset<BookView> {
        self.shelf.to_multiset().add(held_by_all(self.members))
    }

    /// The floor after `mv`. A move that names no member leaves the floor
    /// as it is, and so does one that fails.
    pub open spec fn step(self, mv: Move) -> Floor {
        match mv {
            Move::Add { book } => Floor { shelf: self.shelf.push(book), members: self.members },
            Move::Join => Floor { shelf: self.shelf, members: self.members.push(Seq::empty()) },
            Move::Lend { isbn, member } => if self.has_member(member) {
                let (shelf, held) = hand_over(self.shelf, self.members[member], isbn);
                Floor { shelf, members: self.members.update(member, held) }
            } else {
                self
            },
            Move::Return { isbn, member } => if self.has_member(member) {
                let (held, shelf) = hand_over(self.members[member], self.shelf, isbn);
                Floor { shelf, members: self.members.update(member, held) }
            } else {
                self
            },
        }
    }

    /// The floor after the `moves`, one after the other.
    pub open spec fn run(self, moves: Seq<Move>) -> Floor
        decreases moves.len(),
    {
        if moves.len() == 0 {
            self
        } else {
            self.run(moves.drop_last()).step(moves.last())
        }
    }
}

/// Where one member's books change, the books of all members together
/// change by the same books.
proof fn lemma_held_by_all_update(members: Seq<Seq<BookView>>, member: int, held: Seq<BookView>)
    requires
        0 <= member < members.len(),
    ensures
        held_by_all(members.update(member, held)).add(members[member].to_multiset())
            == held_by_all(members).add(held.to_multiset()),
    decreases members.len(),
{
    broadcast use vstd::multiset::group_multiset_axioms;

    let updated = members.update(member, held);
    let rest = held_by_all(members.drop_last());
    if member == members.len() - 1 {
        assert(updated.drop_last() =~= members.drop_last());
        assert(held_by_all(updated) == rest.add(held.to_multiset()));
        assert(held_by_all(members) == rest.add(members[member].to_multiset()));
    } else {
        lemma_held_by_all_update(members.drop_last(), member, held);
        assert(updated.drop_last() =~= members.drop_last().update(member, held));
        assert(updated.last() == members.last());
        assert(members.drop_last()[member] == members[member]);
        assert(held_by_all(updated) == held_by_all(updated.drop_last()).add(
            members.last().to_multiset(),
        ));
        assert(held_by_all(members) == rest.add(members.last().to_multiset()));
    }
    assert forall|b: BookView|
        held_by_all(updated).add(members[member].to_multiset()).count(b) == held_by_all(
            members,
        ).add(held.to_multiset()).count(b) by {
        if member != members.len() - 1 {
            let inner = held_by_all(updated.drop_last());
            assert(inner.add(members[member].to_multiset()).count(b) == rest.add(
                held.to_multiset(),
            ).count(b));
        }
    }
    assert(held_by_all(updated).add(members[member].to_multiset()) =~= held_by_all(members).add(
        held.to_multiset(),
    ));
}

/// A move changes the books on the floor only by the book that it adds: no
/// lending and no return loses a book or doubles one.
pub proof fn law_step_conserves_books(floor: Floor, mv: Move)
    ensures
        floor.step(mv).holdings() == match mv {
            Move::Add { book } => floor.holdings().insert(book),
            _ => floor.holdings(),
        },
{
    broadcast use vstd::multiset::group_multiset_axioms;

    let next = floor.step(mv);
    match mv {
        Move::Add { book } => {
            to_multiset_build(floor.shelf, book);
            assert(next.holdings() =~= floor.holdings().insert(book));
        },
        Move::Join => {
            assert(next.members.drop_last() =~= floor.members);
            assert(Seq::<BookView>::empty().to_multiset() =~= Multiset::empty()) by {
                to_multiset_len(Seq::<BookView>::empty());
            }
            assert(next.holdings() =~= floor.holdings());
        },
        Move::Lend { isbn, member } => {
            if floor.has_member(member) {
                let held = floor.members[member];
                law_hand_over_moves_one_book(floor.shelf, held, isbn);
                lemma_held_by_all_update(
                    floor.members,
                    member,
                    hand_over(floor.shelf, held, isbn).1,
                );
                lemma_swap_conserves(
                    floor.shelf.to_multiset(),
                    held.to_multiset(),
                    next.shelf.to_multiset(),
                    next.members[member].to_multiset(),
                    held_by_all(floor.members),
                    held_by_all(next.members),
                );
            }
        },
        Move::Return { isbn, member } => {
            if floor.has_member(member) {
                let held = floor.members[member];
                law_hand_over_moves_one_book(held, floor.shelf, isbn);
                lemma_held_by_all_update(
                    floor.members,
                    member,
                    hand_over(held, floor.shelf, isbn).0,
                );
                lemma_add_commutes(next.shelf.to_multiset(), next.members[member].to_multiset());
                lemma_add_commutes(floor.shelf.to_multiset(), held.to_multiset());
                lemma_swap_conserves(
                    floor.shelf.to_multiset(),
                    held.to_multiset(),
                    next.shelf.to_multiset(),
                    next.members[member].to_multiset(),
                    held_by_all(floor.members),
                    held_by_all(next.members),
                );
            }
        },
    }
}

/// Putting two collections together gives the same books in either order.
proof fn lemma_add_commutes(a: Multiset<BookView>, b: Multiset<BookView>)
    ensures
        a.add(b) == b.add(a),
{
    broadcast use vstd::multiset::group_multiset_axioms;

    assert forall|x: BookView| a.add(b).count(x) == b.add(a).count(x) by {
        assert(a.add(b).count(x) == a.count(x) + b.count(x));
        assert(b.add(a).count(x) == b.count(x) + a.count(x));
    }
    assert(a.add(b) =~= b.add(a));
}

/// Where a shelf and one member together hold the same books before and
/// after, and all members change by what that member changes, shelf and
/// all members together hold the same books before and after.
proof fn lemma_swap_conserves(
    shelf: Multiset<BookView>,
    held: Multiset<BookView>,
    shelf2: Multiset<BookView>,
    held2: Multiset<BookView>,
    all: Multiset<BookView>,
    all2: Multiset<BookView>,
)
    requires
        shelf2.add(held2) == shelf.add(held),
        all2.add(held) == all.add(held2),
    ensures
        shelf2.add(all2) == shelf.add(all),
{
    broadcast use vstd::multiset::group_multiset_axioms;

    assert forall|b: BookView| shelf2.add(all2).count(b) == shelf.add(all).count(b) by {
        assert(shelf2.add(held2).count(b) == shelf2.count(b) + held2.count(b));
        assert(shelf.add(held).count(b) == shelf.count(b) + held.count(b));
        assert(all2.add(held).count(b) == all2.count(b) + held.count(b));
        assert(all.add(held2).count(b) == all.count(b) + held2.count(b));
    }
    assert(shelf2.add(all2) =~= shelf.add(all));
}

/// After any sequence of moves, the floor holds the books that it held at
/// the start and the books that were added since, each as often as it came
/// in: every book is on the shelf or with one member, none is lost and
/// none is doubled.
pub proof fn law_run_conserves_books(floor: Floor, moves: Seq<Move>)
    ensures
        floor.run(moves).holdings() == floor.holdings().add(added_by(moves)),
    decreases moves.len(),
{
    broadcast use vstd::multiset::group_multiset_axioms;

    if moves.len() == 0 {
        assert(floor.holdings().add(added_by(moves)) =~= floor.holdings());
    } else {
        law_run_conserves_books(floor, moves.drop_last());
        law_step_conserves_books(floor.run(moves.drop_last()), moves.last());
        assert(floor.run(moves).holdings() =~= floor.holdings().add(added_by(moves)));
    }
}

/// Whether no two of `books` carry the same ISBN.
pub open spec fn isbns_are_unique(books: Multiset<BookView>) -> bool {
    &&& forall|a: BookView| books.count(a) <= 1
    &&& forall|a: BookView, b: BookView|
        books.count(a) > 0 && books.count(b) > 0 && a.isbn == b.isbn ==> a == b
}

/// On a floor where no two books carry the same ISBN, this stays so after
/// every move but the adding of a book whose ISBN is on the floor already.
pub proof fn law_step_keeps_isbns_unique(floor: Floor, mv: Move)
    requires
        isbns_are_unique(floor.holdings()),
        mv matches Move::Add { book } ==> forall|b: BookView|
            floor.holdings().count(b) > 0 ==> b.isbn != book.isbn,
    ensures
        isbns_are_unique(floor.step(mv).holdings()),
{
    broadcast use vstd::multiset::group_multiset_axioms;

    law_step_conserves_books(floor, mv);
    match mv {
        Move::Add { book } => {
            let before = floor.holdings();
            let after = before.insert(book);
            assert forall|a: BookView| after.count(a) == before.count(a) + if a == book {
                1int
            } else {
                0int
            } by {
                assert(after == before.add(Multiset::singleton(book)));
            }
            assert(before.count(book) == 0);
        },
        _ => {},
    }
}

} // verus!
