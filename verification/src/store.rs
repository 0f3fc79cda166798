use vstd::prelude::*;
use vstd::string::StringExecFns;

use crate::types::{Book, BookView};

verus! {

/// True when no two records in `s` carry the same title.
pub open spec fn distinct_titles(s: Seq<Book>) -> bool {
    forall|i: int, j: int| 0 <= i < j < s.len() ==> s[i]@.title != s[j]@.title
}

/// The record store folded into a map from title to record.
/// A later record with the same title overwrites an earlier one.
pub open spec fn map_of(s: Seq<Book>) -> Map<Seq<char>, BookView>
    decreases s.len(),
{
    if s.len() == 0 {
        Map::empty()
    } else {
        map_of(s.drop_last()).insert(s.last()@.title, s.last()@)
    }
}

/// The titles whose records are not borrowed.
pub open spec fn available_titles(m: Map<Seq<char>, BookView>) -> Set<Seq<char>> {
    m.dom().filter(|k: Seq<char>| !m[k].is_borrowed)
}

/// The titles whose records are borrowed.
pub open spec fn borrowed_titles(m: Map<Seq<char>, BookView>) -> Set<Seq<char>> {
    m.dom().filter(|k: Seq<char>| m[k].is_borrowed)
}

/// A sequence of records whose titles are distinct, all drawn from a
/// finite set of titles and covering it, has exactly as many records
/// as the set has titles.
proof fn lemma_distinct_cover_len(r: Seq<Book>, ks: Set<Seq<char>>)
    requires
        ks.finite(),
        forall|t1: int, t2: int| 0 <= t1 < t2 < r.len() ==> r[t1]@.title != r[t2]@.title,
        forall|t: int| 0 <= t < r.len() ==> ks.contains(#[trigger] r[t]@.title),
        forall|k: Seq<char>| #[trigger]
            ks.contains(k) ==> exists|t: int| 0 <= t < r.len() && r[t]@.title == k,
    ensures
        r.len() == ks.len(),
    decreases r.len(),
{
    if r.len() == 0 {
        if ks.len() != 0 {
            vstd::set::axiom_set_choose_len(ks);
            assert(ks.contains(ks.choose()));
            assert(false);
        }
    } else {
        let k0 = r.last()@.title;
        let rp = r.drop_last();
        let ksp = ks.remove(k0);
        assert(ks.contains(r[r.len() - 1]@.title));
        vstd::set::axiom_set_remove_finite(ks, k0);
        vstd::set::axiom_set_remove_len(ks, k0);
        assert forall|t: int| 0 <= t < rp.len() implies ksp.contains(#[trigger] rp[t]@.title) by {
            assert(r[t]@.title != k0);
            assert(ks.contains(r[t]@.title));
        }
        assert forall|k: Seq<char>| #[trigger]
            ksp.contains(k) implies exists|t: int| 0 <= t < rp.len() && rp[t]@.title == k by {
            let t = choose|t: int| 0 <= t < r.len() && r[t]@.title == k;
            assert(t != r.len() - 1);
            assert(rp[t]@.title == k);
        }
        lemma_distinct_cover_len(rp, ksp);
    }
}

/// The in-memory store of books, keyed by title.
pub struct Library {
    books: Vec<Book>,
}

impl View for Library {
    type V = Map<Seq<char>, BookView>;

    closed spec fn view(&self) -> Map<Seq<char>, BookView> {
        map_of(self.books@)
    }
}

/// With distinct titles, the folded map carries exactly one entry per
/// record, the entry of each record is that record, and every key of
/// the map is the title of some record.
proof fn lemma_map_of_distinct(s: Seq<Book>)
    requires
        distinct_titles(s),
    ensures
        map_of(s).dom().finite(),
        map_of(s).dom().len() == s.len(),
        forall|i: int|
            0 <= i < s.len() ==> map_of(s).contains_key(#[trigger] s[i]@.title) && map_of(s)[s[i]@.title]
                == s[i]@,
        forall|k: Seq<char>| #[trigger]
            map_of(s).contains_key(k) ==> exists|i: int| 0 <= i < s.len() && s[i]@.title == k,
    decreases s.len(),
{
    if s.len() > 0 {
        let pre = s.drop_last();
        let last = s.last();
        lemma_map_of_distinct(pre);
        assert forall|i: int|
            0 <= i < s.len() implies map_of(s).contains_key(#[trigger] s[i]@.title) && map_of(s)[s[i]@.title]
            == s[i]@ by {
            if i < s.len() - 1 {
                assert(pre[i] == s[i]);
                assert(s[i]@.title != last@.title);
            }
        }
        assert forall|k: Seq<char>| #[trigger]
            map_of(s).contains_key(k) implies exists|i: int| 0 <= i < s.len() && s[i]@.title
            == k by {
            if k == last@.title {
                assert(s[s.len() - 1]@.title == k);
            } else {
                let i = choose|i: int| 0 <= i < pre.len() && pre[i]@.title == k;
                assert(s[i]@.title == k);
            }
        }
        assert(!map_of(pre).contains_key(last@.title));
        vstd::set::axiom_set_insert_len(map_of(pre).dom(), last@.title);
        assert(map_of(s).dom() =~= map_of(pre).dom().insert(last@.title));
    }
}

/// Overwriting the record at position `i` with one of the same title
/// is, on the folded map, an insert under that title.
proof fn lemma_map_of_update(s: Seq<Book>, i: int, b: Book)
    requires
        distinct_titles(s),
        0 <= i < s.len(),
        b@.title == s[i]@.title,
    ensures
        map_of(s.update(i, b)) == map_of(s).insert(b@.title, b@),
        distinct_titles(s.update(i, b)),
    decreases s.len(),
{
    let s2 = s.update(i, b);
    assert(distinct_titles(s2)) by {
        assert forall|p: int, q: int| 0 <= p < q < s2.len() implies s2[p]@.title != s2[q]@.title by {
            assert(s[p]@.title != s[q]@.title);
        }
    }
    if i == s.len() - 1 {
        assert(s2.drop_last() =~= s.drop_last());
        assert(map_of(s2) =~= map_of(s).insert(b@.title, b@));
    } else {
        let pre = s.drop_last();
        assert(distinct_titles(pre));
        lemma_map_of_update(pre, i, b);
        assert(s2.drop_last() =~= pre.update(i, b));
        assert(s2.last() == s.last());
        assert(s[i]@.title != s.last()@.title);
        assert(map_of(s2) == map_of(pre).insert(b@.title, b@).insert(s.last()@.title, s.last()@));
        assert(map_of(pre).insert(b@.title, b@).insert(s.last()@.title, s.last()@) =~= map_of(
            pre,
        ).insert(s.last()@.title, s.last()@).insert(b@.title, b@));
    }
}

impl Library {
    /// Every stored title occurs once; the store behaves as a map.
    #[verifier::type_invariant]
    spec fn wf(&self) -> bool {
        distinct_titles(self.books@)
    }

    /// Creates an empty store.
    pub fn new() -> (r: Library)
        ensures
            r@ == Map::<Seq<char>, BookView>::empty(),
    {
        Library { books: Vec::new() }
    }

    /// Position of the record with the given title, if any.
    fn find_index(books: &Vec<Book>, title: &String) -> (r: Option<usize>)
        ensures
            match r {
                Some(i) => i < books@.len() && books@[i as int]@.title == title@,
                None => forall|i: int| 0 <= i < books@.len() ==> books@[i]@.title != title@,
            },
    {
        let n = books.len();
        let mut i: usize = 0;
        while i < n
            invariant
                i <= n,
                n == books@.len(),
                forall|j: int| 0 <= j < i ==> books@[j]@.title != title@,
            decreases n - i,
        {
            if books[i].title == *title {
                return Some(i);
            }
            i = i + 1;
        }
        None
    }

    /// Inserts a new, not-borrowed record for the title, overwriting
    /// whatever record held that title before, and reports the insertion.
    pub fn add_book(&mut self, title: String, author: String) -> (r: String)
        ensures
            final(self)@ == old(self)@.insert(
                title@,
                BookView { title: title@, author: author@, is_borrowed: false },
            ),
            r@ == "Book '"@ + title@ + "' added."@,
    {
        proof {
            use_type_invariant(&*self);
        }
        let msg = "Book '".to_owned().concat(title.as_str()).concat("' added.");
        let mut books: Vec<Book> = Vec::new();
        core::mem::swap(&mut books, &mut self.books);
        let ghost prior = books@;
        let idx = Self::find_index(&books, &title);
        let fresh = Book { title, author, is_borrowed: false };
        match idx {
            Some(i) => {
                proof {
                    lemma_map_of_update(prior, i as int, fresh);
                }
                books[i] = fresh;
            },
            None => {
                books.push(fresh);
                proof {
                    assert(books@.drop_last() =~= prior);
                    assert(distinct_titles(books@)) by {
                        assert forall|p: int, q: int|
                            0 <= p < q < books@.len() implies books@[p]@.title
                            != books@[q]@.title by {
                            if q < books@.len() - 1 {
                                assert(prior[p]@.title != prior[q]@.title);
                            }
                        }
                    }
                }
            },
        }
        self.books = books;
        msg
    }

    /// Checks the book out. Succeeds exactly when a record with the
    /// title exists and is not yet borrowed; then its flag turns true.
    /// In every other case nothing changes and the call reports `false`.
    pub fn borrow_book(&mut self, title: &String) -> (r: bool)
        ensures
            r == (old(self)@.contains_key(title@) && !old(self)@[title@].is_borrowed),
            r ==> final(self)@ == old(self)@.insert(
                title@,
                BookView {
                    title: title@,
                    author: old(self)@[title@].author,
                    is_borrowed: true,
                },
            ),
            !r ==> final(self)@ == old(self)@,
    {
        proof {
            use_type_invariant(&*self);
            lemma_map_of_distinct(self.books@);
        }
        let mut books: Vec<Book> = Vec::new();
        core::mem::swap(&mut books, &mut self.books);
        let ghost prior = books@;
        let mut r = false;
        match Self::find_index(&books, title) {
            Some(i) => {
                let found = &books[i];
                if !found.is_borrowed {
                    let flagged = Book {
                        title: found.title.clone(),
                        author: found.author.clone(),
                        is_borrowed: true,
                    };
                    proof {
                        lemma_map_of_update(prior, i as int, flagged);
                    }
                    books[i] = flagged;
                    r = true;
                }
            },
            None => {},
        }
        self.books = books;
        r
    }

    /// Takes the book back. Succeeds exactly when a record with the
    /// title exists and is currently borrowed; then its flag turns false.
    /// In every other case nothing changes and the call reports `false`.
    pub fn return_book(&mut self, title: &String) -> (r: bool)
        ensures
            r == (old(self)@.contains_key(title@) && old(self)@[title@].is_borrowed),
            r ==> final(self)@ == old(self)@.insert(
                title@,
                BookView {
                    title: title@,
                    author: old(self)@[title@].author,
                    is_borrowed: false,
                },
            ),
            !r ==> final(self)@ == old(self)@,
    {
        proof {
            use_type_invariant(&*self);
            lemma_map_of_distinct(self.books@);
        }
        let mut books: Vec<Book> = Vec::new();
        core::mem::swap(&mut books, &mut self.books);
        let ghost prior = books@;
        let mut r = false;
        match Self::find_index(&books, title) {
            Some(i) => {
                let found = &books[i];
                if found.is_borrowed {
                    let cleared = Book {
                        title: found.title.clone(),
                        author: found.author.clone(),
                        is_borrowed: false,
                    };
                    proof {
                        lemma_map_of_update(prior, i as int, cleared);
                    }
                    books[i] = cleared;
                    r = true;
                }
            },
            None => {},
        }
        self.books = books;
        r
    }

    /// Looks a title up and hands back a copy of its record, or `None`
    /// where no record carries that title.
    pub fn get_book(&self, title: &String) -> (r: Option<Book>)
        ensures
            match r {
                Some(b) => self@.contains_key(title@) && b@ == self@[title@] && b@.title == title@,
                None => !self@.contains_key(title@),
            },
    {
        proof {
            use_type_invariant(self);
            lemma_map_of_distinct(self.books@);
        }
        match Self::find_index(&self.books, title) {
            Some(i) => {
                let b = &self.books[i];
                Some(Book { title: b.title.clone(), author: b.author.clone(), is_borrowed: b.is_borrowed })
            },
            None => None,
        }
    }

    /// Copies of every record, one per stored title, in no promised order.
    pub fn get_all_books(&self) -> (r: Vec<Book>)
        ensures
            r@.len() == self@.dom().len(),
            forall|t: int|
                0 <= t < r@.len() ==> self@.contains_key(#[trigger] r@[t]@.title) && r@[t]@
                    == self@[r@[t]@.title],
            forall|t1: int, t2: int| 0 <= t1 < t2 < r@.len() ==> r@[t1]@.title != r@[t2]@.title,
            forall|k: Seq<char>| #[trigger]
                self@.contains_key(k) ==> exists|t: int| 0 <= t < r@.len() && r@[t]@.title == k,
    {
        proof {
            use_type_invariant(self);
            lemma_map_of_distinct(self.books@);
        }
        let n = self.books.len();
        let mut r: Vec<Book> = Vec::new();
        let mut i: usize = 0;
        while i < n
            invariant
                i <= n,
                n == self.books@.len(),
                r@.len() == i,
                forall|t: int| 0 <= t < i ==> r@[t] == self.books@[t],
            decreases n - i,
        {
            let b = &self.books[i];
            r.push(Book { title: b.title.clone(), author: b.author.clone(), is_borrowed: b.is_borrowed });
            i = i + 1;
        }
        proof {
            assert(r@ =~= self.books@);
            lemma_distinct_cover_len(r@, self@.dom());
        }
        r
    }

    /// Copies of every record that is not borrowed, in no promised order.
    pub fn get_available_books(&self) -> (r: Vec<Book>)
        ensures
            r@.len() == available_titles(self@).len(),
            forall|t: int|
                0 <= t < r@.len() ==> self@.contains_key(#[trigger] r@[t]@.title) && r@[t]@
                    == self@[r@[t]@.title] && !r@[t]@.is_borrowed,
            forall|t1: int, t2: int| 0 <= t1 < t2 < r@.len() ==> r@[t1]@.title != r@[t2]@.title,
            forall|k: Seq<char>|
                self@.contains_key(k) && !self@[k].is_borrowed ==> exists|t: int|
                    0 <= t < r@.len() && #[trigger] r@[t]@.title == k,
    {
        proof {
            use_type_invariant(self);
            lemma_map_of_distinct(self.books@);
        }
        let n = self.books.len();
        let mut r: Vec<Book> = Vec::new();
        let mut i: usize = 0;
        while i < n
            invariant
                i <= n,
                n == self.books@.len(),
                distinct_titles(self.books@),
                forall|t: int|
                    0 <= t < r@.len() ==> exists|j: int|
                        0 <= j < i && #[trigger] r@[t] == self.books@[j]
                            && !self.books@[j]@.is_borrowed,
                forall|j: int|
                    0 <= j < i && !self.books@[j]@.is_borrowed ==> exists|t: int|
                        0 <= t < r@.len() && #[trigger] r@[t]@.title == self.books@[j]@.title,
                forall|t1: int, t2: int| 0 <= t1 < t2 < r@.len() ==> r@[t1]@.title != r@[t2]@.title,
            decreases n - i,
        {
            let b = &self.books[i];
            if !b.is_borrowed {
                let c = Book { title: b.title.clone(), author: b.author.clone(), is_borrowed: b.is_borrowed };
                let ghost r0 = r@;
                r.push(c);
                proof {
                    assert(c == self.books@[i as int]);
                    assert forall|t1: int, t2: int|
                        0 <= t1 < t2 < r@.len() implies r@[t1]@.title != r@[t2]@.title by {
                        if t2 == r@.len() - 1 {
                            let j = choose|j: int|
                                0 <= j < i && r0[t1] == self.books@[j]
                                    && !self.books@[j]@.is_borrowed;
                            assert(self.books@[j]@.title != self.books@[i as int]@.title);
                        }
                    }
                    assert forall|t: int|
                        0 <= t < r@.len() implies exists|j: int|
                        0 <= j < i + 1 && #[trigger] r@[t] == self.books@[j]
                            && !self.books@[j]@.is_borrowed by {
                        if t == r@.len() - 1 {
                            assert(r@[t] == self.books@[i as int]);
                        } else {
                            let j = choose|j: int|
                                0 <= j < i && r0[t] == self.books@[j]
                                    && !self.books@[j]@.is_borrowed;
                            assert(r@[t] == self.books@[j]);
                        }
                    }
                    assert forall|j: int|
                        0 <= j < i + 1 && !self.books@[j]@.is_borrowed implies exists|t: int|
                        0 <= t < r@.len() && #[trigger] r@[t]@.title == self.books@[j]@.title by {
                        if j == i {
                            assert(r@[r@.len() - 1]@.title == self.books@[j]@.title);
                        } else {
                            let t = choose|t: int|
                                0 <= t < r0.len() && r0[t]@.title == self.books@[j]@.title;
                            assert(r@[t]@.title == self.books@[j]@.title);
                        }
                    }
                }
            }
            i = i + 1;
        }
        proof {
            let m = self@;
            assert forall|t: int|
                0 <= t < r@.len() implies m.contains_key(#[trigger] r@[t]@.title) && r@[t]@
                == m[r@[t]@.title] && !r@[t]@.is_borrowed by {
                let j = choose|j: int|
                    0 <= j < n && r@[t] == self.books@[j] && !self.books@[j]@.is_borrowed;
                assert(m.contains_key(self.books@[j]@.title));
            }
            assert forall|k: Seq<char>|
                m.contains_key(k) && !m[k].is_borrowed implies exists|t: int|
                0 <= t < r@.len() && #[trigger] r@[t]@.title == k by {
                let j = choose|j: int| 0 <= j < self.books@.len() && self.books@[j]@.title == k;
                assert(m[k] == self.books@[j]@);
            }
            m.dom().lemma_len_filter(|k: Seq<char>| !m[k].is_borrowed);
            assert forall|t: int|
                0 <= t < r@.len() implies available_titles(m).contains(#[trigger] r@[t]@.title) by {
                assert(m.dom().contains(r@[t]@.title) && !m[r@[t]@.title].is_borrowed);
            }
            assert forall|k: Seq<char>| #[trigger]
                available_titles(m).contains(k) implies exists|t: int|
                0 <= t < r@.len() && r@[t]@.title == k by {
                assert(m.contains_key(k) && !m[k].is_borrowed);
            }
            lemma_distinct_cover_len(r@, available_titles(m));
        }
        r
    }

    /// Copies of every record that is borrowed, in no promised order.
    pub fn get_borrowed_books(&self) -> (r: Vec<Book>)
        ensures
            r@.len() == borrowed_titles(self@).len(),
            forall|t: int|
                0 <= t < r@.len() ==> self@.contains_key(#[trigger] r@[t]@.title) && r@[t]@
                    == self@[r@[t]@.title] && r@[t]@.is_borrowed,
            forall|t1: int, t2: int| 0 <= t1 < t2 < r@.len() ==> r@[t1]@.title != r@[t2]@.title,
            forall|k: Seq<char>|
                self@.contains_key(k) && self@[k].is_borrowed ==> exists|t: int|
                    0 <= t < r@.len() && #[trigger] r@[t]@.title == k,
    {
        proof {
            use_type_invariant(self);
            lemma_map_of_distinct(self.books@);
        }
        let n = self.books.len();
        let mut r: Vec<Book> = Vec::new();
        let mut i: usize = 0;
        while i < n
            invariant
                i <= n,
                n == self.books@.len(),
                distinct_titles(self.books@),
                forall|t: int|
                    0 <= t < r@.len() ==> exists|j: int|
                        0 <= j < i && #[trigger] r@[t] == self.books@[j]
                            && self.books@[j]@.is_borrowed,
                forall|j: int|
                    0 <= j < i && self.books@[j]@.is_borrowed ==> exists|t: int|
                        0 <= t < r@.len() && #[trigger] r@[t]@.title == self.books@[j]@.title,
                forall|t1: int, t2: int| 0 <= t1 < t2 < r@.len() ==> r@[t1]@.title != r@[t2]@.title,
            decreases n - i,
        {
            let b = &self.books[i];
            if b.is_borrowed {
                let c = Book { title: b.title.clone(), author: b.author.clone(), is_borrowed: b.is_borrowed };
                let ghost r0 = r@;
                r.push(c);
                proof {
                    assert(c == self.books@[i as int]);
                    assert forall|t1: int, t2: int|
                        0 <= t1 < t2 < r@.len() implies r@[t1]@.title != r@[t2]@.title by {
                        if t2 == r@.len() - 1 {
                            let j = choose|j: int|
                                0 <= j < i && r0[t1] == self.books@[j]
                                    && self.books@[j]@.is_borrowed;
                            assert(self.books@[j]@.title != self.books@[i as int]@.title);
                        }
                    }
                    assert forall|t: int|
                        0 <= t < r@.len() implies exists|j: int|
                        0 <= j < i + 1 && #[trigger] r@[t] == self.books@[j]
                            && self.books@[j]@.is_borrowed by {
                        if t == r@.len() - 1 {
                            assert(r@[t] == self.books@[i as int]);
                        } else {
                            let j = choose|j: int|
                                0 <= j < i && r0[t] == self.books@[j]
                                    && self.books@[j]@.is_borrowed;
                            assert(r@[t] == self.books@[j]);
                        }
                    }
                    assert forall|j: int|
                        0 <= j < i + 1 && self.books@[j]@.is_borrowed implies exists|t: int|
                        0 <= t < r@.len() && #[trigger] r@[t]@.title == self.books@[j]@.title by {
                        if j == i {
                            assert(r@[r@.len() - 1]@.title == self.books@[j]@.title);
                        } else {
                            let t = choose|t: int|
                                0 <= t < r0.len() && r0[t]@.title == self.books@[j]@.title;
                            assert(r@[t]@.title == self.books@[j]@.title);
                        }
                    }
                }
            }
            i = i + 1;
        }
        proof {
            let m = self@;
            assert forall|t: int|
                0 <= t < r@.len() implies m.contains_key(#[trigger] r@[t]@.title) && r@[t]@
                == m[r@[t]@.title] && r@[t]@.is_borrowed by {
                let j = choose|j: int|
                    0 <= j < n && r@[t] == self.books@[j] && self.books@[j]@.is_borrowed;
                assert(m.contains_key(self.books@[j]@.title));
            }
            assert forall|k: Seq<char>|
                m.contains_key(k) && m[k].is_borrowed implies exists|t: int|
                0 <= t < r@.len() && #[trigger] r@[t]@.title == k by {
                let j = choose|j: int| 0 <= j < self.books@.len() && self.books@[j]@.title == k;
                assert(m[k] == self.books@[j]@);
            }
            m.dom().lemma_len_filter(|k: Seq<char>| m[k].is_borrowed);
            assert forall|t: int|
                0 <= t < r@.len() implies borrowed_titles(m).contains(#[trigger] r@[t]@.title) by {
                assert(m.dom().contains(r@[t]@.title) && m[r@[t]@.title].is_borrowed);
            }
            assert forall|k: Seq<char>| #[trigger]
                borrowed_titles(m).contains(k) implies exists|t: int|
                0 <= t < r@.len() && r@[t]@.title == k by {
                assert(m.contains_key(k) && m[k].is_borrowed);
            }
            lemma_distinct_cover_len(r@, borrowed_titles(m));
        }
        r
    }
}

/// Adding a title installs a fresh record under it: the record carries
/// the given title and author and is not borrowed — whatever record,
/// borrowed or not, held that title before. Together with the contract
/// of [`Library::get_book`], a lookup right after an add therefore
/// returns exactly the added record.
pub proof fn lemma_add_resets_record(
    m: Map<Seq<char>, BookView>,
    title: Seq<char>,
    author: Seq<char>,
)
    ensures
        ({
            let m2 = m.insert(title, BookView { title, author, is_borrowed: false });
            &&& m2.contains_key(title)
            &&& m2[title].title == title
            &&& m2[title].author == author
            &&& !m2[title].is_borrowed
            &&& forall|k: Seq<char>| k != title ==> m2.contains_key(k) == m.contains_key(k)
            &&& forall|k: Seq<char>|
                k != title && m.contains_key(k) ==> #[trigger] m2[k] == m[k]
        }),
{
}

/// A borrow that succeeds leaves the record borrowed, so a second
/// borrow of the same title finds `is_borrowed` already true and, by
/// the contract of [`Library::borrow_book`], reports `false` — failure
/// repeats, success does not.
pub proof fn lemma_borrow_twice(m: Map<Seq<char>, BookView>, title: Seq<char>)
    requires
        m.contains_key(title),
        !m[title].is_borrowed,
    ensures
        ({
            let m2 = m.insert(
                title,
                BookView { title, author: m[title].author, is_borrowed: true },
            );
            m2.contains_key(title) && m2[title].is_borrowed
        }),
{
}

/// Returning a borrowed book makes its record available again: a
/// successful borrow followed by a successful return restores the
/// store to exactly the map it held before, provided the record was
/// keyed by its own title.
pub proof fn lemma_borrow_then_return(m: Map<Seq<char>, BookView>, title: Seq<char>)
    requires
        m.contains_key(title),
        !m[title].is_borrowed,
        m[title].title == title,
    ensures
        ({
            let m2 = m.insert(
                title,
                BookView { title, author: m[title].author, is_borrowed: true },
            );
            let m3 = m2.insert(
                title,
                BookView { title, author: m2[title].author, is_borrowed: false },
            );
            &&& m2.contains_key(title) && m2[title].is_borrowed
            &&& m3 == m
        }),
{
    let m2 = m.insert(title, BookView { title, author: m[title].author, is_borrowed: true });
    let m3 = m2.insert(
        title,
        BookView { title, author: m2[title].author, is_borrowed: false },
    );
    assert(m3 =~= m);
}

/// In a store where no record is borrowed, every stored title is
/// available and none is borrowed: a listing of all records, one of
/// the available ones and one of the borrowed ones have, by the
/// contracts of the three listing operations, the lengths N, N and 0.
pub proof fn lemma_no_borrows_counts(m: Map<Seq<char>, BookView>)
    requires
        m.dom().finite(),
        forall|k: Seq<char>| m.contains_key(k) ==> !(#[trigger] m[k]).is_borrowed,
    ensures
        available_titles(m) == m.dom(),
        available_titles(m).len() == m.dom().len(),
        borrowed_titles(m) == Set::<Seq<char>>::empty(),
        borrowed_titles(m).len() == 0,
{
    broadcast use vstd::set::axiom_set_empty_len;

    assert(available_titles(m) =~= m.dom());
    assert(borrowed_titles(m) =~= Set::<Seq<char>>::empty());
}

} // verus!
