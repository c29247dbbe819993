//! A small lending library: books with their number of copies on the
//! shelf, and the loans made to readers.
use vstd::prelude::*;
use vstd::string::StringExecFns;
use vstd::string::StrSliceExecFns;

use crate::text::{spells, chars_of, split_chars, split_on, string_from_chars, trim, trim_chars, spec_parse_unsigned, parse_usize};

verus! {

pub struct Book {
    pub isbn: String,
    pub title: String,
    pub author: String,
    pub keywords: Vec<String>,
}

/// A book's fields as text.
pub struct BookRecord {
    pub isbn: Seq<char>,
    pub title: Seq<char>,
    pub author: Seq<char>,
    pub keywords: Seq<Seq<char>>,
}

impl View for Book {
    type V = BookRecord;

    open spec fn view(&self) -> BookRecord {
        BookRecord {
            isbn: self.isbn@,
            title: self.title@,
            author: self.author@,
            keywords: self.keywords@.map_values(|k: String| k@),
        }
    }
}

impl Book {
    /// A copy of the book.
    pub fn duplicate(&self) -> (b: Book)
        ensures
            b@ == self@,
    {
        let mut keywords: Vec<String> = Vec::new();
        let mut i: usize = 0;
        while i < self.keywords.len()
            invariant
                i <= self.keywords@.len(),
                keywords@.len() == i,
                forall|q: int| 0 <= q < i ==> (#[trigger] keywords@[q])@ == self.keywords@[q]@,
            decreases self.keywords@.len() - i,
        {
            keywords.push(self.keywords[i].clone());
            i = i + 1;
        }
        let b = Book { isbn: self.isbn.clone(), title: self.title.clone(), author: self.author.clone(), keywords };
        assert(b@.keywords =~= self@.keywords);
        b
    }

    /// `ISBN: <isbn> | TITLE: <title> | AUTHOR: <author>`.
    pub fn describe(&self) -> (s: String)
        ensures
            s@ == "ISBN: "@ + self.isbn@ + " | TITLE: "@ + self.title@ + " | AUTHOR: "@ + self.author@,
    {
        let mut s = String::from_str("ISBN: ");
        s.append(self.isbn.as_str());
        s.append(" | TITLE: ");
        s.append(self.title.as_str());
        s.append(" | AUTHOR: ");
        s.append(self.author.as_str());
        s
    }
}

/// The books on the shelf, each with its number of copies, and the loans,
/// each the book lent and the reader's name.
pub struct Library {
    lib: Vec<(Book, u32)>,
    requested: Vec<(Book, String)>,
}

pub type Shelf = Seq<(BookRecord, u32)>;

pub type Loans = Seq<(BookRecord, Seq<char>)>;

/// Entry `i` is the first on the shelf with this ISBN.
pub open spec fn first_with_isbn(s: Shelf, isbn: Seq<char>, i: int) -> bool {
    &&& 0 <= i < s.len()
    &&& s[i].0.isbn == isbn
    &&& forall|j: int| 0 <= j < i ==> (#[trigger] s[j]).0.isbn != isbn
}

/// Where the first entry with this ISBN stands on the shelf.
pub open spec fn isbn_position(s: Shelf, isbn: Seq<char>) -> Option<int> {
    if exists|i: int| first_with_isbn(s, isbn, i) {
        Some(choose|i: int| first_with_isbn(s, isbn, i))
    } else {
        None
    }
}

/// The shelf after adding one copy of `b`.
pub open spec fn shelf_after_add(s: Shelf, b: BookRecord) -> Shelf {
    match isbn_position(s, b.isbn) {
        Some(i) => s.update(i, (s[i].0, (s[i].1 + 1) as u32)),
        None => s.push((b, 1u32)),
    }
}

/// The shelf after taking one copy with this ISBN away: the entry goes
/// when its last copy does.
pub open spec fn shelf_after_delete(s: Shelf, isbn: Seq<char>) -> Shelf {
    match isbn_position(s, isbn) {
        Some(i) => if s[i].1 == 1 {
            s.remove(i)
        } else {
            s.update(i, (s[i].0, (s[i].1 - 1) as u32))
        },
        None => s,
    }
}

/// Number of entries with this ISBN and `count` copies.
pub open spec fn entries_with(s: Shelf, isbn: Seq<char>, count: int) -> nat
    decreases s.len(),
{
    if s.len() == 0 {
        0
    } else {
        entries_with(s.drop_last(), isbn, count) + if s.last().0.isbn == isbn && s.last().1 == count {
            1nat
        } else {
            0nat
        }
    }
}

proof fn lemma_first_with_isbn_unique(s: Shelf, isbn: Seq<char>, i: int)
    requires
        first_with_isbn(s, isbn, i),
    ensures
        isbn_position(s, isbn) == Some(i),
{
    let w = choose|k: int| first_with_isbn(s, isbn, k);
    if w < i {
        assert(s[w].0.isbn != isbn);
    } else if w > i {
        assert(s[i].0.isbn != isbn);
    }
}

/// One of the library's operations, with the answers it was given.
pub enum LibraryAction {
    /// A new book's fields; keywords are separated by commas.
    Add { isbn: String, title: String, author: String, keywords: String },
    Remove { isbn: String },
    List,
    Request { isbn: String, name: String },
    /// Give back loan number `number`, counted from 1.
    Return { number: usize },
    Unknown,
}

/// The operation names.
#[derive(PartialEq, Eq, Structural, Debug, Clone, Copy)]
pub enum LibraryOp {
    Add,
    Remove,
    List,
    Request,
    Return,
    Unknown,
}

impl LibraryOp {
    /// The operation a name stands for.
    pub fn parse(op: &str) -> (r: LibraryOp)
        ensures
            r == (if op@ == "add"@ {
                LibraryOp::Add
            } else if op@ == "remove"@ {
                LibraryOp::Remove
            } else if op@ == "list"@ {
                LibraryOp::List
            } else if op@ == "request"@ {
                LibraryOp::Request
            } else if op@ == "return"@ {
                LibraryOp::Return
            } else {
                LibraryOp::Unknown
            }),
    {
        let cs = chars_of(op);
        if spells(cs.as_slice(), "add") {
            LibraryOp::Add
        } else if spells(cs.as_slice(), "remove") {
            LibraryOp::Remove
        } else if spells(cs.as_slice(), "list") {
            LibraryOp::List
        } else if spells(cs.as_slice(), "request") {
            LibraryOp::Request
        } else if spells(cs.as_slice(), "return") {
            LibraryOp::Return
        } else {
            LibraryOp::Unknown
        }
    }
}

/// Same ISBN.
fn same_isbn(a: &String, b: &String) -> (r: bool)
    ensures
        r == (a@ == b@),
{
    a.eq(b)
}

/// What the loan-number prompt accepts: a number from 1 to the number of
/// loans, after trimming.
pub open spec fn loan_number_answer(input: Seq<char>, loans: int) -> Result<usize, &'static str> {
    match spec_parse_unsigned(trim_chars(input), usize::MAX as int) {
        None => Err("Invalid ID"),
        Some(n) => if n == 0 || n > loans {
            Err("Out of Bounds")
        } else {
            Ok(n as usize)
        },
    }
}

/// Reads a loan number, from 1 to `loans`.
pub fn read_loan_number(input: &str, loans: usize) -> (r: Result<usize, &'static str>)
    ensures
        r == loan_number_answer(input@, loans as int),
{
    let t = trim(input);
    match parse_usize(t.as_str()) {
        None => Err("Invalid ID"),
        Some(n) => if n == 0 || n > loans {
            Err("Out of Bounds")
        } else {
            Ok(n)
        },
    }
}


/// The book an `add` builds: keywords are the pieces between commas.
pub open spec fn new_book(isbn: Seq<char>, title: Seq<char>, author: Seq<char>, keywords: Seq<char>) -> BookRecord {
    BookRecord { isbn, title, author, keywords: split_chars(keywords, ',') }
}

/// The inputs on which an action runs to its end (the others overflow a
/// copy count, or name a loan that does not exist).
pub open spec fn action_defined(s: Shelf, l: Loans, a: LibraryAction) -> bool {
    match a {
        LibraryAction::Add { isbn, title, author, keywords } => (isbn@.len() > 0 && title@.len() > 0
            && author@.len() > 0) ==> (isbn_position(s, isbn@) matches Some(i) ==> s[i].1 < u32::MAX),
        LibraryAction::Return { number } => {
            &&& 1 <= number <= l.len()
            &&& isbn_position(s, l[number - 1].0.isbn) matches Some(i) ==> s[i].1 < u32::MAX
        },
        _ => true,
    }
}

/// The shelf and loans an action leaves, and whether it succeeded.
pub open spec fn action_outcome(s: Shelf, l: Loans, a: LibraryAction) -> (Shelf, Loans, bool) {
    match a {
        LibraryAction::Add { isbn, title, author, keywords } => {
            let b = new_book(isbn@, title@, author@, keywords@);
            if b.isbn.len() == 0 || b.title.len() == 0 || b.author.len() == 0 || b.keywords.len() == 0 {
                (s, l, false)
            } else {
                (shelf_after_add(s, b), l, true)
            }
        },
        LibraryAction::Remove { isbn } => match isbn_position(s, isbn@) {
            None => (s, l, false),
            Some(i) => if s[i].1 == 0 {
                (s, l, false)
            } else {
                let s2 = shelf_after_delete(s, isbn@);
                (s2, l, entries_with(s2, isbn@, s[i].1 - 1) == 1)
            },
        },
        LibraryAction::List => (s, l, true),
        LibraryAction::Request { isbn, name } => match isbn_position(s, isbn@) {
            None => (s, l, false),
            Some(i) => if s[i].1 == 0 {
                (s, l, false)
            } else {
                (s.update(i, (s[i].0, (s[i].1 - 1) as u32)), l.push((s[i].0, name@)), true)
            },
        },
        LibraryAction::Return { number } => {
            let loan = l[number - 1];
            let l2 = l.remove(number - 1);
            match isbn_position(s, loan.0.isbn) {
                None => (s, l2, false),
                Some(i) => (s.update(i, (s[i].0, (s[i].1 + 1) as u32)), l2, true),
            }
        },
        LibraryAction::Unknown => (s, l, false),
    }
}

/// Taking a copy away right after adding it gives back the same shelf,
/// unless the book's entry was there with no copies left (the entry then
/// goes).
pub proof fn lemma_delete_undoes_add(s: Shelf, b: BookRecord)
    requires
        isbn_position(s, b.isbn) matches Some(i) ==> 0 < s[i].1 < u32::MAX,
    ensures
        shelf_after_delete(shelf_after_add(s, b), b.isbn) == s,
{
    match isbn_position(s, b.isbn) {
        Some(i) => {
            let w = choose|k: int| first_with_isbn(s, b.isbn, k);
            assert(first_with_isbn(s, b.isbn, w));
            assert(w == i);
            let s1 = s.update(i, (s[i].0, (s[i].1 + 1) as u32));
            assert(first_with_isbn(s1, b.isbn, i)) by {
                assert forall|j: int| 0 <= j < i implies (#[trigger] s1[j]).0.isbn != b.isbn by {
                    assert(s1[j] == s[j]);
                }
            }
            lemma_first_with_isbn_unique(s1, b.isbn, i);
            assert(s1.update(i, (s1[i].0, (s1[i].1 - 1) as u32)) =~= s);
        },
        None => {
            let s1 = s.push((b, 1u32));
            let n = s.len() as int;
            assert(first_with_isbn(s1, b.isbn, n)) by {
                assert forall|j: int| 0 <= j < n implies (#[trigger] s1[j]).0.isbn != b.isbn by {
                    assert(s1[j] == s[j]);
                    if s[j].0.isbn == b.isbn {
                        if exists|k: int| 0 <= k < j && (#[trigger] s[k]).0.isbn == b.isbn {
                            let k0 = choose|k: int| 0 <= k < j && (#[trigger] s[k]).0.isbn == b.isbn;
                            lemma_first_isbn_before(s, b.isbn, k0);
                        } else {
                            assert(first_with_isbn(s, b.isbn, j));
                        }
                    }
                }
            }
            lemma_first_with_isbn_unique(s1, b.isbn, n);
            assert(s1.remove(n) =~= s);
        },
    }
}

/// An entry with this ISBN at `k` means some entry is the first with it.
proof fn lemma_first_isbn_before(s: Shelf, isbn: Seq<char>, k: int)
    requires
        0 <= k < s.len(),
        s[k].0.isbn == isbn,
    ensures
        isbn_position(s, isbn) is Some,
    decreases k,
{
    if exists|j: int| 0 <= j < k && (#[trigger] s[j]).0.isbn == isbn {
        let j = choose|j: int| 0 <= j < k && (#[trigger] s[j]).0.isbn == isbn;
        lemma_first_isbn_before(s, isbn, j);
    } else {
        assert(first_with_isbn(s, isbn, k));
    }
}

/// Requesting a book lends one copy of it: when the first shelf entry with
/// the ISBN has a copy left, that entry loses one copy, every other entry
/// stays as it was, and the loan of that entry's book to the reader is
/// added at the end of the loan list. Otherwise nothing changes and the
/// request fails.
pub proof fn lemma_request_lends_one_copy(s: Shelf, l: Loans, isbn: String, name: String)
    ensures
        ({
            let (s2, l2, ok) = action_outcome(s, l, LibraryAction::Request { isbn, name });
            let lendable = exists|j: int| first_with_isbn(s, isbn@, j) && s[j].1 > 0;
            &&& ok <==> lendable
            &&& !lendable ==> s2 == s && l2 == l
            &&& lendable ==> {
                &&& s2.len() == s.len()
                &&& forall|j: int|
                    0 <= j < s.len() ==> (#[trigger] s2[j]).0 == s[j].0 && s2[j].1 == if first_with_isbn(s, isbn@, j) {
                        s[j].1 - 1
                    } else {
                        s[j].1 as int
                    }
                &&& l2.len() == l.len() + 1
                &&& forall|k: int| 0 <= k < l.len() ==> #[trigger] l2[k] == l[k]
                &&& l2[l.len() as int].0.isbn == isbn@
                &&& l2[l.len() as int].1 == name@
            }
        }),
{
    match isbn_position(s, isbn@) {
        Some(i) => {
            let w = choose|k: int| first_with_isbn(s, isbn@, k);
            assert(first_with_isbn(s, isbn@, w));
            assert(w == i);
            assert forall|j: int| first_with_isbn(s, isbn@, j) implies j == i by {
                lemma_first_with_isbn_unique(s, isbn@, j);
            }
        },
        None => {
            assert forall|j: int| !first_with_isbn(s, isbn@, j) by {
                if first_with_isbn(s, isbn@, j) {
                    lemma_first_with_isbn_unique(s, isbn@, j);
                }
            }
        },
    }
}

/// Returning loan number `n` (counted from 1) takes exactly the `n`-th
/// loan off the list, the loans before and after it keeping their order,
/// and puts one more copy of that loan's book back: the first shelf entry
/// with the book's ISBN gains a copy and every other entry stays as it
/// was. It succeeds exactly when some shelf entry has that ISBN.
pub proof fn lemma_return_restocks_nth_loan(s: Shelf, l: Loans, number: usize)
    requires
        action_defined(s, l, LibraryAction::Return { number }),
    ensures
        ({
            let (s2, l2, ok) = action_outcome(s, l, LibraryAction::Return { number });
            let isbn = l[number - 1].0.isbn;
            &&& l2.len() == l.len() - 1
            &&& forall|k: int| 0 <= k < number - 1 ==> #[trigger] l2[k] == l[k]
            &&& forall|k: int| number - 1 <= k < l2.len() ==> #[trigger] l2[k] == l[k + 1]
            &&& ok <==> exists|j: int| 0 <= j < s.len() && (#[trigger] s[j]).0.isbn == isbn
            &&& s2.len() == s.len()
            &&& forall|j: int|
                0 <= j < s.len() ==> (#[trigger] s2[j]).0 == s[j].0 && s2[j].1 == if first_with_isbn(s, isbn, j) {
                    s[j].1 + 1
                } else {
                    s[j].1 as int
                }
        }),
{
    let isbn = l[number - 1].0.isbn;
    let (s2, l2, ok) = action_outcome(s, l, LibraryAction::Return { number });
    assert(l2 == l.remove(number - 1));
    match isbn_position(s, isbn) {
        Some(i) => {
            let w = choose|k: int| first_with_isbn(s, isbn, k);
            assert(first_with_isbn(s, isbn, w));
            assert(w == i);
            assert forall|j: int| 0 <= j < s.len() && first_with_isbn(s, isbn, j) implies j == i by {
                lemma_first_with_isbn_unique(s, isbn, j);
            }
            assert(s[i].0.isbn == isbn);
        },
        None => {
            assert forall|j: int| 0 <= j < s.len() implies (#[trigger] s[j]).0.isbn != isbn by {
                if s[j].0.isbn == isbn {
                    lemma_first_isbn_before(s, isbn, j);
                }
            }
            assert forall|j: int| 0 <= j < s.len() implies !first_with_isbn(s, isbn, j) by {
                assert(s[j].0.isbn != isbn);
            }
        },
    }
}

/// Giving back the loan just made returns the copy: shelf and loans are as
/// they were before the request.
pub proof fn lemma_return_undoes_request(s: Shelf, l: Loans, isbn: String, name: String)
    requires
        isbn_position(s, isbn@) matches Some(i) && s[i].1 > 0,
        l.len() + 1 <= usize::MAX,
    ensures
        ({
            let (s1, l1, ok) = action_outcome(s, l, LibraryAction::Request { isbn, name });
            let back = LibraryAction::Return { number: (l.len() + 1) as usize };
            &&& ok
            &&& action_defined(s1, l1, back)
            &&& action_outcome(s1, l1, back) == (s, l, true)
        }),
{
    let i = isbn_position(s, isbn@)->0;
    let w = choose|k: int| first_with_isbn(s, isbn@, k);
    assert(first_with_isbn(s, isbn@, w));
    let s1 = s.update(i, (s[i].0, (s[i].1 - 1) as u32));
    let l1 = l.push((s[i].0, name@));
    assert(l1[l.len() as int] == (s[i].0, name@));
    assert(first_with_isbn(s1, isbn@, i)) by {
        assert forall|j: int| 0 <= j < i implies (#[trigger] s1[j]).0.isbn != isbn@ by {
            assert(s1[j] == s[j]);
        }
    }
    lemma_first_with_isbn_unique(s1, isbn@, i);
    assert(l1.remove(l.len() as int) =~= l);
    assert(s1.update(i, (s1[i].0, (s1[i].1 + 1) as u32)) =~= s);
}

impl Library {
    pub closed spec fn shelf(&self) -> Shelf {
        self.lib@.map_values(|e: (Book, u32)| (e.0@, e.1))
    }

    pub closed spec fn loans(&self) -> Loans {
        self.requested@.map_values(|e: (Book, String)| (e.0@, e.1@))
    }

    pub fn new() -> (l: Library)
        ensures
            l.shelf() == Seq::<(BookRecord, u32)>::empty(),
            l.loans() == Seq::<(BookRecord, Seq<char>)>::empty(),
    {
        let l = Library { lib: Vec::new(), requested: Vec::new() };
        assert(l.shelf() =~= Seq::<(BookRecord, u32)>::empty());
        assert(l.loans() =~= Seq::<(BookRecord, Seq<char>)>::empty());
        l
    }

    /// The position of the first entry with this ISBN.
    fn position_of(&self, isbn: &String) -> (r: Option<usize>)
        ensures
            match r {
                Some(i) => isbn_position(self.shelf(), isbn@) == Some(i as int),
                None => isbn_position(self.shelf(), isbn@) is None,
            },
    {
        let ghost s = self.shelf();
        let mut i: usize = 0;
        while i < self.lib.len()
            invariant
                s == self.shelf(),
                i <= s.len(),
                forall|j: int| 0 <= j < i ==> (#[trigger] s[j]).0.isbn != isbn@,
            decreases s.len() - i,
        {
            if same_isbn(&self.lib[i].0.isbn, isbn) {
                proof {
                    assert(first_with_isbn(s, isbn@, i as int));
                    lemma_first_with_isbn_unique(s, isbn@, i as int);
                }
                return Some(i);
            }
            assert(s[i as int].0.isbn == self.lib@[i as int].0.isbn@);
            i = i + 1;
        }
        proof {
            if exists|k: int| first_with_isbn(s, isbn@, k) {
                let w = choose|k: int| first_with_isbn(s, isbn@, k);
                assert(s[w].0.isbn != isbn@);
            }
        }
        None
    }

    /// Adds one copy of a book: to its entry if the shelf has its ISBN,
    /// else as a new entry at the end.
    pub fn add_book(&mut self, book: Book)
        requires
            isbn_position(old(self).shelf(), book@.isbn) matches Some(i) ==> old(self).shelf()[i].1 < u32::MAX,
        ensures
            final(self).shelf() == shelf_after_add(old(self).shelf(), book@),
            final(self).loans() == old(self).loans(),
    {
        match self.position_of(&book.isbn) {
            Some(i) => {
                self.lib[i].1 = self.lib[i].1 + 1;
                assert(self.shelf() =~= shelf_after_add(old(self).shelf(), book@));
            },
            None => {
                self.lib.push((book, 1));
                assert(self.shelf() =~= shelf_after_add(old(self).shelf(), book@));
            },
        }
    }

    /// Takes one copy with this ISBN away; the entry goes with its last copy.
    pub fn delete_book(&mut self, isbn: &String)
        requires
            isbn_position(old(self).shelf(), isbn@) matches Some(i) ==> old(self).shelf()[i].1 > 0,
        ensures
            final(self).shelf() == shelf_after_delete(old(self).shelf(), isbn@),
            final(self).loans() == old(self).loans(),
    {
        match self.position_of(isbn) {
            Some(i) => {
                self.lib[i].1 = self.lib[i].1 - 1;
                if self.lib[i].1 == 0 {
                    self.lib.remove(i);
                    assert(self.shelf() =~= shelf_after_delete(old(self).shelf(), isbn@));
                } else {
                    assert(self.shelf() =~= shelf_after_delete(old(self).shelf(), isbn@));
                }
            },
            None => {},
        }
    }

    /// A copy of the shelf.
    pub fn list_books(&self) -> (r: Vec<(Book, u32)>)
        ensures
            r@.map_values(|e: (Book, u32)| (e.0@, e.1)) == self.shelf(),
    {
        let mut r: Vec<(Book, u32)> = Vec::new();
        let mut i: usize = 0;
        while i < self.lib.len()
            invariant
                i <= self.lib@.len(),
                r@.len() == i,
                forall|q: int| 0 <= q < i ==> (#[trigger] r@[q]).0@ == self.lib@[q].0@ && r@[q].1 == self.lib@[q].1,
            decreases self.lib@.len() - i,
        {
            let entry = (self.lib[i].0.duplicate(), self.lib[i].1);
            r.push(entry);
            i = i + 1;
        }
        assert(r@.map_values(|e: (Book, u32)| (e.0@, e.1)) =~= self.shelf());
        r
    }

    /// The loans, in the order they were made.
    pub fn requested(&self) -> (r: &Vec<(Book, String)>)
        ensures
            r@.map_values(|e: (Book, String)| (e.0@, e.1@)) == self.loans(),
    {
        &self.requested
    }

    /// Number of entries with this ISBN and `count` copies.
    fn count_entries(&self, isbn: &String, count: u32) -> (n: usize)
        ensures
            n == entries_with(self.shelf(), isbn@, count as int),
    {
        let ghost s = self.shelf();
        let mut n: usize = 0;
        let mut i: usize = 0;
        while i < self.lib.len()
            invariant
                s == self.shelf(),
                i <= s.len(),
                n == entries_with(s.subrange(0, i as int), isbn@, count as int),
                n <= i,
            decreases s.len() - i,
        {
            proof {
                assert(s.subrange(0, i + 1).drop_last() =~= s.subrange(0, i as int));
            }
            if same_isbn(&self.lib[i].0.isbn, isbn) && self.lib[i].1 == count {
                n = n + 1;
            }
            i = i + 1;
        }
        assert(s.subrange(0, s.len() as int) =~= s);
        n
    }

    /// Whether `apply` runs `action` to its end (`action_defined`).
    pub fn action_completes(&self, action: &LibraryAction) -> (b: bool)
        ensures
            b == action_defined(self.shelf(), self.loans(), *action),
    {
        match action {
            LibraryAction::Add { isbn, title, author, .. } => {
                if isbn.as_str().unicode_len() == 0 || title.as_str().unicode_len() == 0
                    || author.as_str().unicode_len() == 0 {
                    return true;
                }
                match self.position_of(isbn) {
                    Some(i) => self.lib[i].1 < u32::MAX,
                    None => true,
                }
            },
            LibraryAction::Return { number } => {
                if *number < 1 || *number > self.requested.len() {
                    return false;
                }
                assert(self.loans()[*number - 1].0.isbn == self.requested@[*number - 1].0.isbn@);
                match self.position_of(&self.requested[*number - 1].0.isbn) {
                    Some(i) => self.lib[i].1 < u32::MAX,
                    None => true,
                }
            },
            _ => true,
        }
    }

    /// Carries out an action, as `action_outcome` describes.
    pub fn apply(&mut self, action: LibraryAction) -> (ok: bool)
        requires
            action_defined(old(self).shelf(), old(self).loans(), action),
        ensures
            (final(self).shelf(), final(self).loans(), ok) == action_outcome(old(self).shelf(), old(self).loans(), action),
    {
        match action {
            LibraryAction::Add { isbn, title, author, keywords } => {
                let cs = chars_of(keywords.as_str());
                let pieces = split_on(cs.as_slice(), ',');
                let mut kws: Vec<String> = Vec::new();
                let mut i: usize = 0;
                while i < pieces.len()
                    invariant
                        i <= pieces@.len(),
                        kws@.len() == i,
                        forall|q: int| 0 <= q < i ==> (#[trigger] kws@[q])@ == pieces@[q]@,
                    decreases pieces@.len() - i,
                {
                    kws.push(string_from_chars(pieces[i].as_slice()));
                    i = i + 1;
                }
                let book = Book { isbn, title, author, keywords: kws };
                assert(book@.keywords =~= split_chars(keywords@, ','));
                if book.isbn.as_str().unicode_len() == 0 || book.title.as_str().unicode_len() == 0
                    || book.author.as_str().unicode_len() == 0 || book.keywords.len() == 0 {
                    return false;
                }
                self.add_book(book);
                true
            },
            LibraryAction::Remove { isbn } => {
                let count = match self.position_of(&isbn) {
                    None => return false,
                    Some(i) => {
                        if self.lib[i].1 == 0 {
                            return false;
                        }
                        self.lib[i].1
                    },
                };
                self.delete_book(&isbn);
                self.count_entries(&isbn, count - 1) == 1
            },
            LibraryAction::List => true,
            LibraryAction::Request { isbn, name } => {
                match self.position_of(&isbn) {
                    None => false,
                    Some(i) => {
                        if self.lib[i].1 == 0 {
                            return false;
                        }
                        let copy = self.lib[i].0.duplicate();
                        self.lib[i].1 = self.lib[i].1 - 1;
                        self.requested.push((copy, name));
                        assert(self.shelf() =~= old(self).shelf().update(i as int, (old(self).shelf()[i as int].0, (old(self).shelf()[i as int].1 - 1) as u32)));
                        assert(self.loans() =~= old(self).loans().push((old(self).shelf()[i as int].0, name@)));
                        true
                    },
                }
            },
            LibraryAction::Return { number } => {
                let loan = self.requested.remove(number - 1);
                assert(self.loans() =~= old(self).loans().remove(number - 1));
                match self.position_of(&loan.0.isbn) {
                    None => false,
                    Some(i) => {
                        self.lib[i].1 = self.lib[i].1 + 1;
                        assert(self.shelf() =~= old(self).shelf().update(i as int, (old(self).shelf()[i as int].0, (old(self).shelf()[i as int].1 + 1) as u32)));
                        true
                    },
                }
            },
            LibraryAction::Unknown => false,
        }
    }
}

} // verus!
