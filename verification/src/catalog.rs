//! A library catalogue of items (books, audio books, statues and
//! paintings), indexed by title, author, keyword and ISBN.
//!
//! A statue's and a painting's dimensions are floating-point numbers, which
//! the verified library does not handle: they are carried as the IEEE-754
//! bit patterns of their `f32` values.
use vstd::prelude::*;
use vstd::string::StringExecFns;

use crate::index::{SortedIndex, filed, index_push};

verus! {

/// What every item has.
pub struct Base {
    pub title: String,
    pub author: String,
    /// The keywords; an item is filed once under each distinct keyword.
    pub keywords: Vec<String>,
    pub copies: usize,
}

pub struct Book {
    pub base: Base,
    pub isbn: String,
}

pub struct AudioBook {
    pub base: Base,
    pub duration: u32,
}

pub struct Statue {
    pub base: Base,
    /// Bit patterns of three `f32` values.
    pub dimensions: (u32, u32, u32),
}

pub struct Painting {
    pub base: Base,
    /// Bit patterns of two `f32` values.
    pub dimensions: (u32, u32),
}

pub enum Item {
    Book(Book),
    AudioBook(AudioBook),
    Statue(Statue),
    Painting(Painting),
}

#[derive(PartialEq, Eq, Structural, Debug, Clone, Copy)]
pub enum LibraryError {
    CriticalError,
    TitleAlreadyExists,
    ItemNotFound,
    BookAlreadyExists,
    KeywordDoesNotExist,
    TitleDoesNotExist,
}

/// The keywords as text.
pub open spec fn words(v: Seq<String>) -> Seq<Seq<char>> {
    v.map_values(|k: String| k@)
}

/// `s` with repeated entries dropped, first occurrences kept in order.
pub open spec fn distinct_words(s: Seq<Seq<char>>) -> Seq<Seq<char>>
    decreases s.len(),
{
    if s.len() == 0 {
        s
    } else if s.drop_last().contains(s.last()) {
        distinct_words(s.drop_last())
    } else {
        distinct_words(s.drop_last()).push(s.last())
    }
}

/// `m` after filing `t` under each of `ks`, in order.
pub open spec fn file_under_all(m: Map<Seq<char>, Seq<usize>>, ks: Seq<Seq<char>>, t: usize) -> Map<Seq<char>, Seq<usize>>
    decreases ks.len(),
{
    if ks.len() == 0 {
        m
    } else {
        index_push(file_under_all(m, ks.drop_last(), t), ks.last(), t)
    }
}

impl Item {
    pub open spec fn base_of(&self) -> &Base {
        match self {
            Item::Book(b) => &b.base,
            Item::AudioBook(a) => &a.base,
            Item::Statue(s) => &s.base,
            Item::Painting(p) => &p.base,
        }
    }

    /// The part every item has.
    pub fn get_base(&self) -> (b: &Base)
        ensures
            b == self.base_of(),
    {
        match self {
            Item::Book(b) => &b.base,
            Item::AudioBook(a) => &a.base,
            Item::Statue(s) => &s.base,
            Item::Painting(p) => &p.base,
        }
    }

    pub fn get_title(&self) -> (r: Option<String>)
        ensures
            r matches Some(t) && t@ == self.base_of().title@,
    {
        Some(self.get_base().title.clone())
    }

    pub fn get_author(&self) -> (r: Option<String>)
        ensures
            r matches Some(t) && t@ == self.base_of().author@,
    {
        Some(self.get_base().author.clone())
    }

    /// The distinct keywords.
    pub fn get_keywords(&self) -> (r: Option<Vec<String>>)
        ensures
            r matches Some(v) && words(v@) == distinct_words(words(self.base_of().keywords@)),
    {
        let ks = &self.get_base().keywords;
        let mut out: Vec<String> = Vec::new();
        let mut i: usize = 0;
        while i < ks.len()
            invariant
                i <= ks@.len(),
                words(out@) == distinct_words(words(ks@).subrange(0, i as int)),
            decreases ks@.len() - i,
        {
            let seen = seen_before(ks, i);
            proof {
                let p = words(ks@).subrange(0, i + 1);
                assert(p.drop_last() =~= words(ks@).subrange(0, i as int));
                assert(p.last() == ks@[i as int]@);
            }
            if !seen {
                out.push(ks[i].clone());
                assert(words(out@) =~= distinct_words(words(ks@).subrange(0, i + 1)));
            }
            i = i + 1;
        }
        assert(words(ks@).subrange(0, ks@.len() as int) =~= words(ks@));
        Some(out)
    }

    pub fn get_copies(&self) -> (r: Option<usize>)
        ensures
            r == Some(self.base_of().copies),
    {
        Some(self.get_base().copies)
    }

    /// A book's ISBN.
    pub fn get_isbn(&self) -> (r: Option<String>)
        ensures
            match self {
                Item::Book(b) => r matches Some(s) && s@ == b.isbn@,
                _ => r is None,
            },
    {
        if let Item::Book(b) = self {
            Some(b.isbn.clone())
        } else {
            None
        }
    }

    /// An audio book's duration.
    pub fn get_duration(&self) -> (r: Option<u32>)
        ensures
            r == (match self {
                Item::AudioBook(a) => Some(a.duration),
                _ => None,
            }),
    {
        if let Item::AudioBook(a) = self {
            Some(a.duration)
        } else {
            None
        }
    }

    /// A statue's dimensions (bit patterns of `f32` values).
    pub fn get_dimension_statue(&self) -> (r: Option<(u32, u32, u32)>)
        ensures
            r == (match self {
                Item::Statue(s) => Some(s.dimensions),
                _ => None,
            }),
    {
        if let Item::Statue(s) = self {
            Some(s.dimensions)
        } else {
            None
        }
    }

    /// A painting's dimensions (bit patterns of `f32` values).
    pub fn get_dimension_painting(&self) -> (r: Option<(u32, u32)>)
        ensures
            r == (match self {
                Item::Painting(p) => Some(p.dimensions),
                _ => None,
            }),
    {
        if let Item::Painting(p) = self {
            Some(p.dimensions)
        } else {
            None
        }
    }
}

/// Keyword `i` already occurs before position `i`.
fn seen_before(ks: &Vec<String>, i: usize) -> (b: bool)
    requires
        i < ks@.len(),
    ensures
        b == words(ks@).subrange(0, i as int).contains(ks@[i as int]@),
{
    let mut j: usize = 0;
    while j < i
        invariant
            i < ks@.len(),
            j <= i,
            forall|q: int| 0 <= q < j ==> ks@[q]@ != ks@[i as int]@,
        decreases i - j,
    {
        if ks[j].eq(&ks[i]) {
            assert(words(ks@).subrange(0, i as int)[j as int] == ks@[i as int]@);
            return true;
        }
        j = j + 1;
    }
    proof {
        if words(ks@).subrange(0, i as int).contains(ks@[i as int]@) {
            let q = choose|q: int| 0 <= q < i && words(ks@).subrange(0, i as int)[q] == ks@[i as int]@;
            assert(ks@[q]@ != ks@[i as int]@);
        }
    }
    false
}


/// The catalogue: the items in the order they were added, and the indexes
/// from title, author, keyword and ISBN to item positions.
pub struct Library {
    items: Vec<Item>,
    title_to_work: SortedIndex<String, usize>,
    author_to_work: SortedIndex<String, usize>,
    keywords_to_work: SortedIndex<String, usize>,
    isbn_to_work: SortedIndex<String, usize>,
}

/// The catalogue as values: items and the four indexes.
pub struct Catalogue {
    pub items: Seq<Item>,
    pub titles: Map<Seq<char>, Seq<usize>>,
    pub authors: Map<Seq<char>, Seq<usize>>,
    pub keywords: Map<Seq<char>, Seq<usize>>,
    pub isbns: Map<Seq<char>, Seq<usize>>,
}

/// The catalogue after `add_item`, and its answer. The item is stored
/// first; a repeated ISBN stops before any index changes, a repeated title
/// after the ISBN and author indexes have changed.
pub open spec fn add_outcome(c: Catalogue, item: Item) -> (Catalogue, Result<(), LibraryError>) {
    let idx = c.items.len() as usize;
    let items = c.items.push(item);
    let b = item.base_of();
    let dup_isbn = match item {
        Item::Book(bk) => c.isbns.contains_key(bk.isbn@),
        _ => false,
    };
    let isbns = match item {
        Item::Book(bk) => index_push(c.isbns, bk.isbn@, idx),
        _ => c.isbns,
    };
    let authors = index_push(c.authors, b.author@, idx);
    if dup_isbn {
        (Catalogue { items, ..c }, Err(LibraryError::BookAlreadyExists))
    } else if c.titles.contains_key(b.title@) {
        (Catalogue { items, isbns, authors, ..c }, Err(LibraryError::TitleAlreadyExists))
    } else {
        (
            Catalogue {
                items,
                isbns,
                authors,
                titles: index_push(c.titles, b.title@, idx),
                keywords: file_under_all(c.keywords, distinct_words(words(b.keywords@)), idx),
            },
            Ok(()),
        )
    }
}

/// The item an index holds first under `k`, or `missing` where it has no
/// such key (`CriticalError` for a position past the items).
pub open spec fn lookup_one(c: Catalogue, m: Map<Seq<char>, Seq<usize>>, k: Seq<char>, missing: LibraryError) -> Result<Item, LibraryError> {
    if !m.contains_key(k) {
        Err(missing)
    } else if m[k][0] < c.items.len() {
        Ok(c.items[m[k][0] as int])
    } else {
        Err(LibraryError::CriticalError)
    }
}

/// The items an index holds under `k`, or `missing` where it has no such
/// key (`CriticalError` for a position past the items).
pub open spec fn lookup_all(c: Catalogue, m: Map<Seq<char>, Seq<usize>>, k: Seq<char>, missing: LibraryError) -> Result<Seq<Item>, LibraryError> {
    if !m.contains_key(k) {
        Err(missing)
    } else if forall|j: int| 0 <= j < m[k].len() ==> #[trigger] m[k][j] < c.items.len() {
        Ok(m[k].map_values(|i: usize| c.items[i as int]))
    } else {
        Err(LibraryError::CriticalError)
    }
}

/// Every position an index holds names an item.
pub open spec fn positions_in(m: Map<Seq<char>, Seq<usize>>, n: int) -> bool {
    forall|k: Seq<char>, j: int| m.contains_key(k) && 0 <= j < m[k].len() ==> #[trigger] m[k][j] < n
}

proof fn lemma_positions_push(m: Map<Seq<char>, Seq<usize>>, b: int, k: Seq<char>, t: usize)
    requires
        positions_in(m, b),
        t < b,
    ensures
        positions_in(index_push(m, k, t), b),
{
    let m2 = index_push(m, k, t);
    assert forall|k2: Seq<char>, j: int| m2.contains_key(k2) && 0 <= j < m2[k2].len() implies #[trigger] m2[k2][j] < b by {
        if k2 != k {
            assert(m2[k2] == m[k2]);
        } else if j < filed(m, k).len() {
            assert(m2[k2][j] == filed(m, k)[j]);
        }
    }
}

proof fn lemma_positions_grow(m: Map<Seq<char>, Seq<usize>>, n: int, k: Seq<char>, t: usize)
    requires
        positions_in(m, n),
        t < n + 1,
    ensures
        positions_in(m, n + 1),
        positions_in(index_push(m, k, t), n + 1),
{
    let m2 = index_push(m, k, t);
    assert forall|k2: Seq<char>, j: int| m2.contains_key(k2) && 0 <= j < m2[k2].len() implies #[trigger] m2[k2][j] < n + 1 by {
        if k2 != k {
            assert(m2[k2] == m[k2]);
        } else if j < filed(m, k).len() {
            assert(m2[k2][j] == filed(m, k)[j]);
        }
    }
}

/// An item just added is found by its title, and a book by its ISBN.
pub proof fn lemma_added_item_found(c: Catalogue, item: Item)
    requires
        c.items.len() < usize::MAX,
        add_outcome(c, item).1 is Ok,
    ensures
        lookup_one(add_outcome(c, item).0, add_outcome(c, item).0.titles, item.base_of().title@, LibraryError::TitleDoesNotExist)
            == Ok::<Item, LibraryError>(item),
        item matches Item::Book(b) ==> lookup_one(add_outcome(c, item).0, add_outcome(c, item).0.isbns, b.isbn@, LibraryError::ItemNotFound)
            == Ok::<Item, LibraryError>(item),
{
    let c2 = add_outcome(c, item).0;
    let idx = c.items.len() as usize;
    assert(c2.items[idx as int] == item);
    assert(c2.titles[item.base_of().title@] =~= seq![idx]);
    if let Item::Book(b) = item {
        assert(c2.isbns[b.isbn@] =~= seq![idx]);
    }
}

/// An item that was stored and filed, whatever its kind, is found by its
/// author: after `add_item` succeeds, or is refused only for a repeated
/// title, the items filed under the item's author are those filed there
/// before, followed by the item itself.
pub proof fn lemma_added_item_found_by_author(c: Catalogue, item: Item)
    requires
        c.items.len() < usize::MAX,
        positions_in(c.authors, c.items.len() as int),
        add_outcome(c, item).1 != Err::<(), LibraryError>(LibraryError::BookAlreadyExists),
    ensures
        ({
            let c2 = add_outcome(c, item).0;
            let a = item.base_of().author@;
            &&& lookup_all(c2, c2.authors, a, LibraryError::ItemNotFound) matches Ok(its)
            &&& its.last() == item
            &&& its.contains(item)
            &&& its.drop_last() == match lookup_all(c, c.authors, a, LibraryError::ItemNotFound) {
                Ok(before) => before,
                Err(_) => Seq::<Item>::empty(),
            }
        }),
{
    let c2 = add_outcome(c, item).0;
    let a = item.base_of().author@;
    let idx = c.items.len() as usize;
    let dup_isbn = match item {
        Item::Book(bk) => c.isbns.contains_key(bk.isbn@),
        _ => false,
    };
    assert(!dup_isbn);
    assert(c2.authors == index_push(c.authors, a, idx));
    assert(c2.items == c.items.push(item));
    let l = c2.authors[a];
    assert(l == filed(c.authors, a).push(idx));
    assert forall|j: int| 0 <= j < l.len() implies #[trigger] l[j] < c2.items.len() by {
        if j < filed(c.authors, a).len() {
            assert(c.authors.contains_key(a));
            assert(l[j] == c.authors[a][j]);
        }
    }
    let its = l.map_values(|i: usize| c2.items[i as int]);
    assert(lookup_all(c2, c2.authors, a, LibraryError::ItemNotFound) == Ok::<Seq<Item>, LibraryError>(its));
    assert(its[its.len() - 1] == item);
    assert(its.contains(item)) by {
        assert(its[its.len() - 1] == item);
    }
    if c.authors.contains_key(a) {
        assert forall|j: int| 0 <= j < c.authors[a].len() implies #[trigger] c.authors[a][j] < c.items.len() by {
        }
        let before = c.authors[a].map_values(|i: usize| c.items[i as int]);
        assert(lookup_all(c, c.authors, a, LibraryError::ItemNotFound) == Ok::<Seq<Item>, LibraryError>(before));
        assert forall|j: int| 0 <= j < before.len() implies #[trigger] its.drop_last()[j] == before[j] by {
            assert(l[j] == c.authors[a][j]);
            assert(c2.items[l[j] as int] == c.items[l[j] as int]);
        }
        assert(its.drop_last() =~= before);
    } else {
        assert(its.drop_last() =~= Seq::<Item>::empty());
    }
}

proof fn lemma_distinct_words(s: Seq<Seq<char>>)
    ensures
        forall|x: Seq<char>| distinct_words(s).contains(x) <==> s.contains(x),
        distinct_words(s).no_duplicates(),
    decreases s.len(),
{
    if s.len() > 0 {
        let p = s.drop_last();
        lemma_distinct_words(p);
        assert forall|x: Seq<char>| s.contains(x) <==> (p.contains(x) || x == s.last()) by {
            if s.contains(x) {
                let i = choose|i: int| 0 <= i < s.len() && s[i] == x;
                if i < s.len() - 1 {
                    assert(p[i] == x);
                }
            }
            if p.contains(x) {
                let i = choose|i: int| 0 <= i < p.len() && p[i] == x;
                assert(s[i] == x);
            }
            if x == s.last() {
                assert(s[s.len() - 1] == x);
            }
        }
        if !p.contains(s.last()) {
            let d = distinct_words(p);
            let e = d.push(s.last());
            assert forall|x: Seq<char>| e.contains(x) <==> (d.contains(x) || x == s.last()) by {
                if e.contains(x) {
                    let i = choose|i: int| 0 <= i < e.len() && e[i] == x;
                    if i < d.len() {
                        assert(d[i] == x);
                    }
                }
                if d.contains(x) {
                    let i = choose|i: int| 0 <= i < d.len() && d[i] == x;
                    assert(e[i] == x);
                }
                if x == s.last() {
                    assert(e[d.len() as int] == x);
                }
            }
            assert forall|i: int, j: int| 0 <= i < e.len() && 0 <= j < e.len() && i != j implies e[i] != e[j] by {
                if i < d.len() && j < d.len() {
                } else if i < d.len() {
                    assert(d.contains(e[i]));
                } else {
                    assert(d.contains(e[j]));
                }
            }
        }
    }
}

proof fn lemma_file_under_all(m: Map<Seq<char>, Seq<usize>>, ks: Seq<Seq<char>>, t: usize, k: Seq<char>)
    requires
        ks.no_duplicates(),
    ensures
        ks.contains(k) ==> file_under_all(m, ks, t).contains_key(k) && file_under_all(m, ks, t)[k] == filed(m, k).push(t),
        !ks.contains(k) ==> filed(file_under_all(m, ks, t), k) == filed(m, k),
    decreases ks.len(),
{
    if ks.len() > 0 {
        let p = ks.drop_last();
        assert(p.no_duplicates()) by {
            assert forall|i: int, j: int| 0 <= i < p.len() && 0 <= j < p.len() && i != j implies p[i] != p[j] by {
                assert(ks[i] != ks[j]);
            }
        }
        lemma_file_under_all(m, p, t, k);
        if k == ks.last() {
            assert(!p.contains(k)) by {
                if p.contains(k) {
                    let i = choose|i: int| 0 <= i < p.len() && p[i] == k;
                    assert(ks[i] == ks[ks.len() - 1]);
                }
            }
        } else {
            assert(ks.contains(k) <==> p.contains(k)) by {
                if ks.contains(k) {
                    let i = choose|i: int| 0 <= i < ks.len() && ks[i] == k;
                    assert(p[i] == k);
                }
                if p.contains(k) {
                    let i = choose|i: int| 0 <= i < p.len() && p[i] == k;
                    assert(ks[i] == k);
                }
            }
        }
    }
}

/// An item that was added is found under each of its keywords: after
/// `add_item` succeeds, the items filed under any keyword of the item are
/// those filed there before, followed by the item itself, once.
pub proof fn lemma_added_item_found_by_keyword(c: Catalogue, item: Item, w: Seq<char>)
    requires
        c.items.len() < usize::MAX,
        positions_in(c.keywords, c.items.len() as int),
        add_outcome(c, item).1 is Ok,
        words(item.base_of().keywords@).contains(w),
    ensures
        ({
            let c2 = add_outcome(c, item).0;
            &&& lookup_all(c2, c2.keywords, w, LibraryError::KeywordDoesNotExist) matches Ok(its)
            &&& its.last() == item
            &&& its.drop_last() == match lookup_all(c, c.keywords, w, LibraryError::KeywordDoesNotExist) {
                Ok(before) => before,
                Err(_) => Seq::<Item>::empty(),
            }
        }),
{
    let c2 = add_outcome(c, item).0;
    let idx = c.items.len() as usize;
    let ks = distinct_words(words(item.base_of().keywords@));
    lemma_distinct_words(words(item.base_of().keywords@));
    lemma_file_under_all(c.keywords, ks, idx, w);
    assert(c2.keywords == file_under_all(c.keywords, ks, idx));
    assert(c2.items == c.items.push(item));
    let l = c2.keywords[w];
    assert(l == filed(c.keywords, w).push(idx));
    assert forall|j: int| 0 <= j < l.len() implies #[trigger] l[j] < c2.items.len() by {
        if j < filed(c.keywords, w).len() {
            assert(c.keywords.contains_key(w));
            assert(l[j] == c.keywords[w][j]);
        }
    }
    let its = l.map_values(|i: usize| c2.items[i as int]);
    assert(lookup_all(c2, c2.keywords, w, LibraryError::KeywordDoesNotExist) == Ok::<Seq<Item>, LibraryError>(its));
    assert(its[its.len() - 1] == item);
    if c.keywords.contains_key(w) {
        assert forall|j: int| 0 <= j < c.keywords[w].len() implies #[trigger] c.keywords[w][j] < c.items.len() by {
        }
        let before = c.keywords[w].map_values(|i: usize| c.items[i as int]);
        assert(lookup_all(c, c.keywords, w, LibraryError::KeywordDoesNotExist) == Ok::<Seq<Item>, LibraryError>(before));
        assert forall|j: int| 0 <= j < before.len() implies #[trigger] its.drop_last()[j] == before[j] by {
            assert(l[j] == c.keywords[w][j]);
            assert(c2.items[l[j] as int] == c.items[l[j] as int]);
        }
        assert(its.drop_last() =~= before);
    } else {
        assert(its.drop_last() =~= Seq::<Item>::empty());
    }
}

impl Library {
    pub closed spec fn catalogue(&self) -> Catalogue {
        Catalogue {
            items: self.items@,
            titles: self.title_to_work.view(),
            authors: self.author_to_work.view(),
            keywords: self.keywords_to_work.view(),
            isbns: self.isbn_to_work.view(),
        }
    }

    /// The indexes are well formed and name only stored items.
    pub closed spec fn wf(&self) -> bool {
        &&& self.title_to_work.wf()
        &&& self.author_to_work.wf()
        &&& self.keywords_to_work.wf()
        &&& self.isbn_to_work.wf()
        &&& positions_in(self.title_to_work.view(), self.items@.len() as int)
        &&& positions_in(self.author_to_work.view(), self.items@.len() as int)
        &&& positions_in(self.keywords_to_work.view(), self.items@.len() as int)
        &&& positions_in(self.isbn_to_work.view(), self.items@.len() as int)
    }

    pub fn new() -> (l: Self)
        ensures
            l.wf(),
            l.catalogue().items == Seq::<Item>::empty(),
            l.catalogue().titles == Map::<Seq<char>, Seq<usize>>::empty(),
            l.catalogue().authors == Map::<Seq<char>, Seq<usize>>::empty(),
            l.catalogue().keywords == Map::<Seq<char>, Seq<usize>>::empty(),
            l.catalogue().isbns == Map::<Seq<char>, Seq<usize>>::empty(),
    {
        Library {
            items: Vec::new(),
            title_to_work: SortedIndex::new(),
            author_to_work: SortedIndex::new(),
            keywords_to_work: SortedIndex::new(),
            isbn_to_work: SortedIndex::new(),
        }
    }

    /// The item filed under this ISBN.
    pub fn search_by_isbn(&mut self, isbn: &str) -> (r: Result<&Item, LibraryError>)
        requires
            old(self).wf(),
        ensures
            *final(self) == *old(self),
            match lookup_one(old(self).catalogue(), old(self).catalogue().isbns, isbn@, LibraryError::ItemNotFound) {
                Ok(it) => r matches Ok(x) && *x == it,
                Err(e) => r == Err::<&Item, LibraryError>(e),
            },
    {
        let key = String::from_str(isbn);
        let l = match self.isbn_to_work.get(&key) {
            Some(l) => l,
            None => return Err(LibraryError::ItemNotFound),
        };
        proof {
            self.isbn_to_work.lemma_lists_nonempty(isbn@);
        }
        let i = l[0];
        if i < self.items.len() {
            Ok(&self.items[i])
        } else {
            Err(LibraryError::CriticalError)
        }
    }

    /// The item filed under this title.
    pub fn search_by_title(&mut self, title: &str) -> (r: Result<&Item, LibraryError>)
        requires
            old(self).wf(),
        ensures
            *final(self) == *old(self),
            match lookup_one(old(self).catalogue(), old(self).catalogue().titles, title@, LibraryError::TitleDoesNotExist) {
                Ok(it) => r matches Ok(x) && *x == it,
                Err(e) => r == Err::<&Item, LibraryError>(e),
            },
    {
        let key = String::from_str(title);
        let l = match self.title_to_work.get(&key) {
            Some(l) => l,
            None => return Err(LibraryError::TitleDoesNotExist),
        };
        proof {
            self.title_to_work.lemma_lists_nonempty(title@);
        }
        let i = l[0];
        if i < self.items.len() {
            Ok(&self.items[i])
        } else {
            Err(LibraryError::CriticalError)
        }
    }

    /// The items at the positions of `l`, in order.
    fn items_at(&self, l: &Vec<usize>) -> (r: Result<Vec<&Item>, LibraryError>)
        ensures
            (forall|j: int| 0 <= j < l@.len() ==> #[trigger] l@[j] < self.items@.len()) ==> (r matches Ok(v)
                && v@.map_values(|x: &Item| *x) == l@.map_values(|i: usize| self.items@[i as int])),
            !(forall|j: int| 0 <= j < l@.len() ==> #[trigger] l@[j] < self.items@.len()) ==> r
                == Err::<Vec<&Item>, LibraryError>(LibraryError::CriticalError),
    {
        let mut v: Vec<&Item> = Vec::new();
        let mut j: usize = 0;
        while j < l.len()
            invariant
                j <= l@.len(),
                forall|q: int| 0 <= q < j ==> #[trigger] l@[q] < self.items@.len(),
                v@.len() == j,
                forall|q: int| 0 <= q < j ==> *(#[trigger] v@[q]) == self.items@[l@[q] as int],
            decreases l@.len() - j,
        {
            let i = l[j];
            if i >= self.items.len() {
                return Err(LibraryError::CriticalError);
            }
            v.push(&self.items[i]);
            j = j + 1;
        }
        assert(v@.map_values(|x: &Item| *x) =~= l@.map_values(|i: usize| self.items@[i as int]));
        Ok(v)
    }

    /// The items filed under this keyword.
    pub fn search_by_keyword(&mut self, keyword: &str) -> (r: Result<Vec<&Item>, LibraryError>)
        requires
            old(self).wf(),
        ensures
            *final(self) == *old(self),
            match lookup_all(old(self).catalogue(), old(self).catalogue().keywords, keyword@, LibraryError::KeywordDoesNotExist) {
                Ok(its) => r matches Ok(v) && v@.map_values(|x: &Item| *x) == its,
                Err(e) => r == Err::<Vec<&Item>, LibraryError>(e),
            },
    {
        let key = String::from_str(keyword);
        match self.keywords_to_work.get(&key) {
            Some(l) => self.items_at(l),
            None => Err(LibraryError::KeywordDoesNotExist),
        }
    }

    /// The items filed under this author.
    pub fn search_by_author(&mut self, author: &str) -> (r: Result<Vec<&Item>, LibraryError>)
        requires
            old(self).wf(),
        ensures
            *final(self) == *old(self),
            match lookup_all(old(self).catalogue(), old(self).catalogue().authors, author@, LibraryError::ItemNotFound) {
                Ok(its) => r matches Ok(v) && v@.map_values(|x: &Item| *x) == its,
                Err(e) => r == Err::<Vec<&Item>, LibraryError>(e),
            },
    {
        let key = String::from_str(author);
        match self.author_to_work.get(&key) {
            Some(l) => self.items_at(l),
            None => Err(LibraryError::ItemNotFound),
        }
    }

    /// Adds an item, then files it by ISBN (books), author, title and each
    /// distinct keyword, as `add_outcome` describes: a repeated ISBN or
    /// title is refused after the item has been stored.
    pub fn add_item(&mut self, item: Item) -> (r: Result<(), LibraryError>)
        requires
            old(self).wf(),
        ensures
            final(self).wf(),
            final(self).catalogue() == add_outcome(old(self).catalogue(), item).0,
            r == add_outcome(old(self).catalogue(), item).1,
    {
        let ghost c0 = self.catalogue();
        let ghost n = self.items@.len() as int;
        let title = item.get_base().title.clone();
        let author = item.get_base().author.clone();
        let kws = match item.get_keywords() {
            Some(v) => v,
            None => Vec::new(),
        };
        let isbn: Option<String> = match &item {
            Item::Book(b) => Some(b.isbn.clone()),
            _ => None,
        };
        let idx = self.items.len();
        self.items.push(item);
        proof {
            lemma_positions_grow(c0.titles, n, title@, idx);
            lemma_positions_grow(c0.keywords, n, title@, idx);
            lemma_positions_grow(c0.authors, n, author@, idx);
            lemma_positions_grow(c0.isbns, n, title@, idx);
        }
        match isbn {
            Some(i) => {
                if self.isbn_to_work.get(&i).is_some() {
                    return Err(LibraryError::BookAlreadyExists);
                }
                self.isbn_to_work.push(&i, idx);
                proof {
                    lemma_positions_grow(c0.isbns, n, i@, idx);
                }
            },
            None => {},
        }
        self.author_to_work.push(&author, idx);
        if self.title_to_work.get(&title).is_some() {
            return Err(LibraryError::TitleAlreadyExists);
        }
        self.title_to_work.push(&title, idx);
        let ghost ks = words(kws@);
        let ghost items1 = self.items@;
        let ghost t1 = self.title_to_work.view();
        let ghost a1 = self.author_to_work.view();
        let ghost i1 = self.isbn_to_work.view();
        proof {
            lemma_positions_push(c0.titles, n + 1, title@, idx);
            lemma_positions_push(c0.authors, n + 1, author@, idx);
        }
        let mut i: usize = 0;
        assert(ks.subrange(0, 0) =~= Seq::<Seq<char>>::empty());
        while i < kws.len()
            invariant
                ks == words(kws@),
                i <= kws@.len(),
                self.keywords_to_work.wf(),
                self.keywords_to_work.view() == file_under_all(c0.keywords, ks.subrange(0, i as int), idx),
                positions_in(self.keywords_to_work.view(), n + 1),
                idx == n,
                self.items@ == items1,
                items1.len() == n + 1,
                self.title_to_work.wf(),
                self.author_to_work.wf(),
                self.isbn_to_work.wf(),
                self.title_to_work.view() == t1,
                self.author_to_work.view() == a1,
                self.isbn_to_work.view() == i1,
                positions_in(t1, n + 1),
                positions_in(a1, n + 1),
                positions_in(i1, n + 1),
            decreases kws@.len() - i,
        {
            proof {
                lemma_positions_push(self.keywords_to_work.view(), n + 1, kws@[i as int]@, idx);
                assert(ks.subrange(0, i + 1).drop_last() =~= ks.subrange(0, i as int));
            }
            self.keywords_to_work.push(&kws[i], idx);
            i = i + 1;
        }
        assert(ks.subrange(0, ks.len() as int) =~= ks);
        Ok(())
    }
}

} // verus!
