//! A small lending catalog: books that are added to a library, looked up,
//! lent out and returned, with every transfer of a book stated and proved.
//!
//! Two ways of keying the books are offered. In [`isbn`] the caller supplies
//! each book's key and a [`isbn::Member`] holds what was lent to it; in
//! [`numbered`] the library numbers the books itself and hands out a
//! free-standing [`numbered::CheckedOutBook`] for each loan. What holds of
//! each of them over any course of lending is proved in [`isbn_laws`] and
//! [`numbered_laws`]. Titles are matched as [`text`] says: exactly in the
//! first, by a part of the title in the second.

pub mod isbn;
pub mod isbn_laws;
pub mod numbered;
pub mod numbered_laws;
pub mod text;
