//! Ordered multi-indexes: each key maps to the non-empty list of values
//! filed under it, in the order they were filed, and keys are kept in
//! ascending order.

use vstd::prelude::*;
use crate::warehouse::coords::StoreCoords;
use crate::text::chars_of;

verus! {

/// Keys with a strict total order on their views.
pub trait IndexKey: View + Sized {
    spec fn key_lt(a: Self::V, b: Self::V) -> bool;

    proof fn lemma_key_order(a: Self::V, b: Self::V, c: Self::V)
        ensures
            !Self::key_lt(a, a),
            Self::key_lt(a, b) && Self::key_lt(b, c) ==> Self::key_lt(a, c),
            Self::key_lt(a, b) || Self::key_lt(b, a) || a == b,
    ;

    fn key_less(&self, other: &Self) -> (r: bool)
        ensures
            r == Self::key_lt(self@, other@),
    ;

    fn key_same(&self, other: &Self) -> (r: bool)
        ensures
            r == (self@ == other@),
    ;

    fn key_copy(&self) -> (r: Self)
        ensures
            r@ == self@,
    ;
}

/// Values that can be compared and copied exactly.
pub trait IndexValue: Sized {
    fn value_same(&self, other: &Self) -> (r: bool)
        ensures
            r == (*self == *other),
    ;

    fn value_copy(&self) -> (r: Self)
        ensures
            r == *self,
    ;
}

impl IndexKey for i64 {
    open spec fn key_lt(a: i64, b: i64) -> bool {
        a < b
    }

    proof fn lemma_key_order(a: i64, b: i64, c: i64) {
    }

    fn key_less(&self, other: &Self) -> (r: bool) {
        *self < *other
    }

    fn key_same(&self, other: &Self) -> (r: bool) {
        *self == *other
    }

    fn key_copy(&self) -> (r: Self) {
        *self
    }
}

impl IndexKey for i32 {
    open spec fn key_lt(a: i32, b: i32) -> bool {
        a < b
    }

    proof fn lemma_key_order(a: i32, b: i32, c: i32) {
    }

    fn key_less(&self, other: &Self) -> (r: bool) {
        *self < *other
    }

    fn key_same(&self, other: &Self) -> (r: bool) {
        *self == *other
    }

    fn key_copy(&self) -> (r: Self) {
        *self
    }
}

/// Strings ordered as `String`'s `Ord` orders them: lexicographically by
/// code point (which is the byte order of their UTF-8 encodings).
pub open spec fn chars_lt(a: Seq<char>, b: Seq<char>) -> bool
    decreases a.len(),
{
    if a.len() == 0 {
        b.len() > 0
    } else if b.len() == 0 {
        false
    } else if a[0] < b[0] {
        true
    } else if a[0] == b[0] {
        chars_lt(a.drop_first(), b.drop_first())
    } else {
        false
    }
}

proof fn lemma_chars_lt_order(a: Seq<char>, b: Seq<char>, c: Seq<char>)
    ensures
        !chars_lt(a, a),
        chars_lt(a, b) && chars_lt(b, c) ==> chars_lt(a, c),
        chars_lt(a, b) || chars_lt(b, a) || a == b,
    decreases a.len(),
{
    if a.len() > 0 && b.len() > 0 {
        lemma_chars_lt_order(a.drop_first(), b.drop_first(), c.drop_first());
        if a[0] == b[0] {
            if !chars_lt(a.drop_first(), b.drop_first()) && !chars_lt(
                b.drop_first(),
                a.drop_first(),
            ) {
                assert(a.drop_first() == b.drop_first());
                assert(a =~= seq![a[0]] + a.drop_first());
                assert(b =~= seq![b[0]] + b.drop_first());
            }
        }
    } else if a.len() == 0 && b.len() == 0 {
        assert(a =~= b);
    }
    lemma_chars_lt_irreflexive(a);
}

proof fn lemma_chars_lt_irreflexive(a: Seq<char>)
    ensures
        !chars_lt(a, a),
    decreases a.len(),
{
    if a.len() > 0 {
        lemma_chars_lt_irreflexive(a.drop_first());
    }
}

/// Lexicographic comparison of two character sequences from position `i` on.
fn chars_less_from(a: &Vec<char>, b: &Vec<char>, i: usize) -> (r: bool)
    requires
        i <= a@.len(),
        i <= b@.len(),
    ensures
        r == chars_lt(a@.subrange(i as int, a@.len() as int), b@.subrange(i as int, b@.len() as int)),
    decreases a@.len() - i,
{
    let ghost sa = a@.subrange(i as int, a@.len() as int);
    let ghost sb = b@.subrange(i as int, b@.len() as int);
    if i == a.len() {
        return i < b.len();
    }
    if i == b.len() {
        return false;
    }
    let x = a[i];
    let y = b[i];
    assert(sa[0] == x && sb[0] == y);
    if x < y {
        true
    } else if x == y {
        assert(sa.drop_first() =~= a@.subrange(i + 1, a@.len() as int));
        assert(sb.drop_first() =~= b@.subrange(i + 1, b@.len() as int));
        chars_less_from(a, b, i + 1)
    } else {
        false
    }
}

impl IndexKey for String {
    open spec fn key_lt(a: Seq<char>, b: Seq<char>) -> bool {
        chars_lt(a, b)
    }

    proof fn lemma_key_order(a: Seq<char>, b: Seq<char>, c: Seq<char>) {
        lemma_chars_lt_order(a, b, c);
    }

    fn key_less(&self, other: &Self) -> (r: bool) {
        let a = chars_of(self.as_str());
        let b = chars_of(other.as_str());
        assert(a@.subrange(0, a@.len() as int) =~= a@);
        assert(b@.subrange(0, b@.len() as int) =~= b@);
        chars_less_from(&a, &b, 0)
    }

    fn key_same(&self, other: &Self) -> (r: bool) {
        *self == *other
    }

    fn key_copy(&self) -> (r: Self) {
        self.clone()
    }
}

impl IndexValue for i64 {
    fn value_same(&self, other: &Self) -> (r: bool) {
        *self == *other
    }

    fn value_copy(&self) -> (r: Self) {
        *self
    }
}

impl IndexValue for usize {
    fn value_same(&self, other: &Self) -> (r: bool) {
        *self == *other
    }

    fn value_copy(&self) -> (r: Self) {
        *self
    }
}

impl IndexValue for StoreCoords {
    fn value_same(&self, other: &Self) -> (r: bool) {
        *self == *other
    }

    fn value_copy(&self) -> (r: Self) {
        self.copy()
    }
}

/// Position of the first occurrence of `t` in `s`.
pub open spec fn first_index<T>(s: Seq<T>, t: T) -> int {
    choose|j: int| 0 <= j < s.len() && s[j] == t && forall|q: int| 0 <= q < j ==> s[q] != t
}

/// `s` without the first occurrence of `t`.
pub open spec fn remove_first<T>(s: Seq<T>, t: T) -> Seq<T> {
    s.remove(first_index(s, t))
}

/// The list filed under `k`, or the empty list.
pub open spec fn filed<K, T>(m: Map<K, Seq<T>>, k: K) -> Seq<T> {
    if m.contains_key(k) {
        m[k]
    } else {
        Seq::empty()
    }
}

/// `m` after filing `t` under `k` (`entry(k).or_default().push(t)`).
pub open spec fn index_push<K, T>(m: Map<K, Seq<T>>, k: K, t: T) -> Map<K, Seq<T>> {
    m.insert(k, filed(m, k).push(t))
}

/// `m` after taking the first `t` out of the list under `k`, dropping the
/// key when its list becomes empty.
pub open spec fn index_remove<K, T>(m: Map<K, Seq<T>>, k: K, t: T) -> Map<K, Seq<T>> {
    let l = remove_first(m[k], t);
    if l.len() == 0 {
        m.remove(k)
    } else {
        m.insert(k, l)
    }
}

pub proof fn lemma_first_index<T>(s: Seq<T>, t: T, j: int)
    requires
        0 <= j < s.len(),
        s[j] == t,
        forall|q: int| 0 <= q < j ==> s[q] != t,
    ensures
        first_index(s, t) == j,
{
    let f = first_index(s, t);
    assert(0 <= f < s.len() && s[f] == t && forall|q: int| 0 <= q < f ==> s[q] != t);
}

/// `t` occurs in `s` at `k`, so its first occurrence is at or before `k`.
pub proof fn lemma_first_index_exists<T>(s: Seq<T>, t: T, k: int)
    requires
        0 <= k < s.len(),
        s[k] == t,
    ensures
        0 <= first_index(s, t) <= k,
        s[first_index(s, t)] == t,
        forall|q: int| 0 <= q < first_index(s, t) ==> s[q] != t,
    decreases k,
{
    if forall|q: int| 0 <= q < k ==> s[q] != t {
        lemma_first_index(s, t, k);
    } else {
        let q = choose|q: int| 0 <= q < k && s[q] == t;
        lemma_first_index_exists(s, t, q);
    }
}

/// Taking out a value just filed, that was not filed under its key
/// before, gives back the same index.
pub proof fn lemma_remove_undoes_push<K, T>(m: Map<K, Seq<T>>, k: K, t: T)
    requires
        m.contains_key(k) ==> m[k].len() > 0 && !m[k].contains(t),
    ensures
        index_remove(index_push(m, k, t), k, t) == m,
{
    let f = filed(m, k);
    let l = f.push(t);
    assert(forall|q: int| 0 <= q < f.len() ==> l[q] == f[q]);
    assert forall|q: int| 0 <= q < l.len() - 1 implies l[q] != t by {
        assert(l[q] == f[q]);
        if m.contains_key(k) {
            assert(f.contains(f[q]));
        }
    }
    lemma_first_index(l, t, l.len() - 1);
    assert(l.remove(l.len() - 1) =~= f);
    if m.contains_key(k) {
        assert(index_push(m, k, t)[k] == l);
        assert(m.insert(k, f) =~= m);
    } else {
        assert(index_push(m, k, t).remove(k) =~= m);
    }
}

/// Keys of an index, ascending, with the list filed under each.
pub open spec fn keys_ascending<K: IndexKey, T>(s: Seq<(K, Vec<T>)>) -> bool {
    forall|i: int, j: int|
        #![trigger s[i], s[j]]
        0 <= i < j < s.len() ==> K::key_lt(s[i].0@, s[j].0@)
}

/// A multi-index from keys to non-empty lists of values.
pub struct SortedIndex<K: IndexKey, T> {
    entries: Vec<(K, Vec<T>)>,
    model: Ghost<Map<K::V, Seq<T>>>,
}

impl<K: IndexKey, T: IndexValue> SortedIndex<K, T> {
    /// The lists filed under each key.
    pub closed spec fn view(&self) -> Map<K::V, Seq<T>> {
        self.model@
    }

    /// The entries in key order.
    pub closed spec fn spec_entries(&self) -> Seq<(K, Vec<T>)> {
        self.entries@
    }

    pub closed spec fn wf(&self) -> bool {
        &&& keys_ascending(self.entries@)
        &&& forall|i: int|
            #![trigger self.entries@[i]]
            0 <= i < self.entries@.len() ==> self.model@.contains_key(self.entries@[i].0@)
                && self.model@[self.entries@[i].0@] == self.entries@[i].1@
                && self.entries@[i].1@.len() > 0
        &&& forall|k: K::V| #[trigger]
            self.model@.contains_key(k) ==> exists|i: int|
                0 <= i < self.entries@.len() && #[trigger] self.entries@[i].0@ == k
    }

    /// Every list is non-empty.
    pub proof fn lemma_lists_nonempty(&self, k: K::V)
        requires
            self.wf(),
            self.view().contains_key(k),
        ensures
            self.view()[k].len() > 0,
    {
        let i = choose|i: int| 0 <= i < self.entries@.len() && #[trigger] self.entries@[i].0@ == k;
        assert(self.model@.contains_key(self.entries@[i].0@));
    }

    /// The entries list the keys in ascending order, each with its list.
    pub proof fn lemma_entries(&self)
        requires
            self.wf(),
        ensures
            keys_ascending(self.spec_entries()),
            forall|i: int|
                #![trigger self.spec_entries()[i]]
                0 <= i < self.spec_entries().len() ==> self.view().contains_key(
                    self.spec_entries()[i].0@,
                ) && self.view()[self.spec_entries()[i].0@] == self.spec_entries()[i].1@,
            forall|k: K::V| #[trigger]
                self.view().contains_key(k) ==> exists|i: int|
                    0 <= i < self.spec_entries().len() && #[trigger] self.spec_entries()[i].0@ == k,
    {
        assert forall|i: int| #![trigger self.spec_entries()[i]] 0 <= i < self.spec_entries().len() implies self.view().contains_key(
            self.spec_entries()[i].0@,
        ) && self.view()[self.spec_entries()[i].0@] == self.spec_entries()[i].1@ by {
            assert(self.model@.contains_key(self.entries@[i].0@));
        }
        assert forall|k: K::V| #[trigger] self.view().contains_key(k) implies exists|i: int|
            0 <= i < self.spec_entries().len() && #[trigger] self.spec_entries()[i].0@ == k by {
            assert(self.model@.contains_key(k));
            let i = choose|i: int| 0 <= i < self.entries@.len() && #[trigger] self.entries@[i].0@ == k;
            assert(self.spec_entries()[i].0@ == k);
        }
    }

    pub fn new() -> (r: Self)
        ensures
            r.wf(),
            r.view() == Map::<K::V, Seq<T>>::empty(),
    {
        SortedIndex { entries: Vec::new(), model: Ghost(Map::empty()) }
    }

    /// Where `k` is or would go: every earlier key is smaller.
    fn position(&self, k: &K) -> (r: (bool, usize))
        requires
            self.wf(),
        ensures
            r.1 <= self.entries@.len(),
            forall|j: int| 0 <= j < r.1 ==> K::key_lt(#[trigger] self.entries@[j].0@, k@),
            r.0 <==> self.model@.contains_key(k@),
            r.0 ==> r.1 < self.entries@.len() && self.entries@[r.1 as int].0@ == k@,
            !r.0 && r.1 < self.entries@.len() ==> K::key_lt(k@, self.entries@[r.1 as int].0@),
    {
        let n = self.entries.len();
        let mut i: usize = 0;
        while i < n && self.entries[i].0.key_less(k)
            invariant
                self.wf(),
                n == self.entries@.len(),
                i <= n,
                forall|j: int| 0 <= j < i ==> K::key_lt(#[trigger] self.entries@[j].0@, k@),
            decreases n - i,
        {
            i = i + 1;
        }
        let found = i < n && self.entries[i].0.key_same(k);
        proof {
            if i < n && !found {
                K::lemma_key_order(k@, self.entries@[i as int].0@, k@);
            }
            if !found && self.model@.contains_key(k@) {
                let q = choose|q: int| 0 <= q < self.entries@.len() && #[trigger] self.entries@[q].0@
                    == k@;
                if q < i {
                    K::lemma_key_order(k@, k@, k@);
                } else if q > i {
                    assert(K::key_lt(self.entries@[i as int].0@, self.entries@[q].0@));
                    K::lemma_key_order(k@, self.entries@[i as int].0@, k@);
                }
            }
            if found {
                assert(self.model@.contains_key(self.entries@[i as int].0@));
            }
        }
        (found, i)
    }

    /// The list filed under `k`, if any.
    pub fn get(&self, k: &K) -> (r: Option<&Vec<T>>)
        requires
            self.wf(),
        ensures
            match r {
                Some(v) => self.view().contains_key(k@) && v@ == self.view()[k@],
                None => !self.view().contains_key(k@),
            },
    {
        let (found, i) = self.position(k);
        if found {
            proof {
                assert(self.model@.contains_key(self.entries@[i as int].0@));
            }
            Some(&self.entries[i].1)
        } else {
            None
        }
    }

    /// Files `t` under `k`, after the values already there.
    pub fn push(&mut self, k: &K, t: T)
        requires
            old(self).wf(),
        ensures
            final(self).wf(),
            final(self).view() == index_push(old(self).view(), k@, t),
    {
        let (found, i) = self.position(k);
        let ghost old_entries = self.entries@;
        let ghost new_model = index_push(self.model@, k@, t);
        if found {
            let mut e = self.entries.remove(i);
            e.1.push(t);
            self.entries.insert(i, e);
            proof {
                assert(self.entries@ =~= old_entries.update(i as int, self.entries@[i as int]));
                assert(old(self).model@.contains_key(old_entries[i as int].0@));
            }
        } else {
            let mut l: Vec<T> = Vec::new();
            l.push(t);
            let key = k.key_copy();
            self.entries.insert(i, (key, l));
            proof {
                assert(self.entries@ =~= old_entries.insert(i as int, self.entries@[i as int]));
            }
        }
        self.model = Ghost(new_model);
        proof {
            K::lemma_key_order(k@, k@, k@);
            let e = self.entries@;
            assert forall|a: int, b: int| 0 <= a < b < e.len() implies K::key_lt(
                #[trigger] e[a].0@,
                #[trigger] e[b].0@,
            ) by {
                if found {
                    assert(old_entries[a].0@ == e[a].0@);
                    assert(old_entries[b].0@ == e[b].0@);
                } else {
                    if a < i && b > i {
                        assert(old_entries[b - 1].0@ == e[b].0@);
                        assert(i < old_entries.len() ==> K::key_lt(k@, old_entries[i as int].0@));
                        if b - 1 > i {
                            assert(K::key_lt(old_entries[i as int].0@, old_entries[b - 1].0@));
                            K::lemma_key_order(k@, old_entries[i as int].0@, old_entries[b - 1].0@);
                        }
                        K::lemma_key_order(e[a].0@, k@, e[b].0@);
                    } else if a == i {
                        if b - 1 > i {
                            assert(K::key_lt(old_entries[i as int].0@, old_entries[b - 1].0@));
                            K::lemma_key_order(k@, old_entries[i as int].0@, old_entries[b - 1].0@);
                        }
                    } else if b == i {
                    } else if a > i {
                        assert(old_entries[a - 1].0@ == e[a].0@);
                        assert(old_entries[b - 1].0@ == e[b].0@);
                    }
                }
            }
            assert forall|q: int| 0 <= q < e.len() implies #[trigger] self.model@.contains_key(
                e[q].0@,
            ) && self.model@[e[q].0@] == e[q].1@ && e[q].1@.len() > 0 by {
                if found {
                    if q != i {
                        assert(old(self).model@.contains_key(old_entries[q].0@));
                        assert(old_entries[q].0@ != k@) by {
                            if q < i {
                            } else {
                                assert(K::key_lt(old_entries[i as int].0@, old_entries[q].0@));
                                K::lemma_key_order(k@, k@, k@);
                            }
                        }
                    }
                } else {
                    if q < i {
                        assert(old(self).model@.contains_key(old_entries[q].0@));
                        K::lemma_key_order(k@, k@, k@);
                    } else if q > i {
                        assert(old(self).model@.contains_key(old_entries[q - 1].0@));
                        if q - 1 > i {
                            assert(K::key_lt(old_entries[i as int].0@, old_entries[q - 1].0@));
                            K::lemma_key_order(k@, old_entries[i as int].0@, old_entries[q - 1].0@);
                        }
                        K::lemma_key_order(k@, k@, k@);
                    }
                }
            }
            assert forall|kk: K::V| #[trigger] self.model@.contains_key(kk) implies exists|q: int|
                0 <= q < e.len() && #[trigger] e[q].0@ == kk by {
                if kk == k@ {
                    assert(e[i as int].0@ == kk);
                } else {
                    let q = choose|q: int|
                        0 <= q < old_entries.len() && #[trigger] old_entries[q].0@ == kk;
                    if found || q < i {
                        assert(e[q].0@ == kk);
                    } else {
                        assert(e[q + 1].0@ == kk);
                    }
                }
            }
        }
    }

    /// Takes the first `t` out of the list under `k`, and drops `k` when
    /// its list becomes empty.
    pub fn remove_value(&mut self, k: &K, t: &T)
        requires
            old(self).wf(),
            old(self).view().contains_key(k@),
            old(self).view()[k@].contains(*t),
        ensures
            final(self).wf(),
            final(self).view() == index_remove(old(self).view(), k@, *t),
    {
        let (found, i) = self.position(k);
        let ghost old_entries = self.entries@;
        let mut e = self.entries.remove(i);
        let ghost l = e.1@;
        assert(l == old(self).model@[k@]);
        let mut j: usize = 0;
        while j < e.1.len() && !e.1[j].value_same(t)
            invariant
                e.1@ == l,
                l.contains(*t),
                j <= l.len(),
                forall|q: int| 0 <= q < j ==> l[q] != *t,
            decreases l.len() - j,
        {
            j = j + 1;
        }
        proof {
            if j == l.len() {
                let q = choose|q: int| 0 <= q < l.len() && l[q] == *t;
                assert(false);
            }
            lemma_first_index(l, *t, j as int);
        }
        let _ = e.1.remove(j);
        let ghost new_model = index_remove(self.model@, k@, *t);
        if e.1.len() == 0 {
            proof {
                assert(self.entries@ =~= old_entries.remove(i as int));
            }
        } else {
            self.entries.insert(i, e);
            proof {
                assert(self.entries@ =~= old_entries.update(i as int, self.entries@[i as int]));
            }
        }
        self.model = Ghost(new_model);
        proof {
            let en = self.entries@;
            let gone = l.len() == 1;
            assert(remove_first(l, *t) == l.remove(j as int));
            assert forall|a: int, b: int| 0 <= a < b < en.len() implies K::key_lt(
                #[trigger] en[a].0@,
                #[trigger] en[b].0@,
            ) by {
                if !gone || a < i && b < i {
                    if gone {
                        assert(en[a] == old_entries[a] && en[b] == old_entries[b]);
                    } else {
                        assert(en[a].0@ == old_entries[a].0@ && en[b].0@ == old_entries[b].0@);
                    }
                } else if a < i {
                    assert(en[a] == old_entries[a] && en[b] == old_entries[b + 1]);
                } else {
                    assert(en[a] == old_entries[a + 1] && en[b] == old_entries[b + 1]);
                }
            }
            assert forall|q: int| 0 <= q < en.len() implies #[trigger] self.model@.contains_key(
                en[q].0@,
            ) && self.model@[en[q].0@] == en[q].1@ && en[q].1@.len() > 0 by {
                let oq = if gone && q >= i {
                    q + 1
                } else {
                    q
                };
                assert(en[q].0@ == old_entries[oq].0@);
                assert(old(self).model@.contains_key(old_entries[oq].0@));
                if oq != i {
                    assert(old_entries[oq].0@ != k@) by {
                        if oq < i {
                        } else {
                            assert(K::key_lt(old_entries[i as int].0@, old_entries[oq].0@));
                        }
                        K::lemma_key_order(k@, k@, k@);
                    }
                }
            }
            assert forall|kk: K::V| #[trigger] self.model@.contains_key(kk) implies exists|q: int|
                0 <= q < en.len() && #[trigger] en[q].0@ == kk by {
                let q = choose|q: int|
                    0 <= q < old_entries.len() && #[trigger] old_entries[q].0@ == kk;
                if q == i {
                    assert(en[q].0@ == kk);
                } else if !gone || q < i {
                    assert(en[q].0@ == kk);
                } else {
                    assert(en[q - 1].0@ == kk);
                }
            }
        }
    }

    /// The entries in ascending key order.
    pub fn entries(&self) -> (r: &Vec<(K, Vec<T>)>)
        requires
            self.wf(),
        ensures
            r@ == self.spec_entries(),
    {
        &self.entries
    }
}

} // verus!
