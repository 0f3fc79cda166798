use vstd::prelude::*;

verus! {

/// One library item. The title acts as the unique key of the store;
/// the author is free-form text; `is_borrowed` tells whether the book
/// is currently checked out.
#[derive(Clone, Debug)]
pub struct Book {
    pub title: String,
    pub author: String,
    pub is_borrowed: bool,
}

/// The mathematical abstraction of a [`Book`]: its fields as plain
/// sequences of characters and a boolean.
pub ghost struct BookView {
    pub title: Seq<char>,
    pub author: Seq<char>,
    pub is_borrowed: bool,
}

impl View for Book {
    type V = BookView;

    open spec fn view(&self) -> BookView {
        BookView { title: self.title@, author: self.author@, is_borrowed: self.is_borrowed }
    }
}

} // verus!
