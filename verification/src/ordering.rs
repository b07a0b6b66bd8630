//! Ordered lists of identifiers: taking an item out, and moving one item to a
//! new position while the others keep their order.

use crate::ids::{BucketId, CardId, NotePageId};
use vstd::prelude::*;
use vstd::seq_lib::lemma_seq_contains_after_push;

verus! {

/// Values that can be compared for equality of their values.
pub trait SameValue: Copy + Sized {
    /// Whether the two values are equal.
    fn same(&self, other: &Self) -> (r: bool)
        ensures
            r == (*self == *other),
    ;
}

impl SameValue for u128 {
    fn same(&self, other: &Self) -> (r: bool) {
        *self == *other
    }
}

impl SameValue for u64 {
    fn same(&self, other: &Self) -> (r: bool) {
        *self == *other
    }
}

impl SameValue for u32 {
    fn same(&self, other: &Self) -> (r: bool) {
        *self == *other
    }
}

impl SameValue for usize {
    fn same(&self, other: &Self) -> (r: bool) {
        *self == *other
    }
}

impl SameValue for i32 {
    fn same(&self, other: &Self) -> (r: bool) {
        *self == *other
    }
}

impl SameValue for i64 {
    fn same(&self, other: &Self) -> (r: bool) {
        *self == *other
    }
}

impl SameValue for CardId {
    fn same(&self, other: &Self) -> (r: bool) {
        self.0 == other.0
    }
}

impl SameValue for BucketId {
    fn same(&self, other: &Self) -> (r: bool) {
        self.0 == other.0
    }
}

impl SameValue for NotePageId {
    fn same(&self, other: &Self) -> (r: bool) {
        self.0 == other.0
    }
}

/// Whether `v` holds `x`.
pub fn contains_value<T: SameValue>(v: &[T], x: T) -> (r: bool)
    ensures
        r == v@.contains(x),
{
    let mut i: usize = 0;
    while i < v.len()
        invariant
            i <= v@.len(),
            forall|j: int| 0 <= j < i ==> v@[j] != x,
        decreases v@.len() - i,
    {
        if v[i].same(&x) {
            return true;
        }
        i = i + 1;
    }
    false
}

/// Whether the first `n` entries of `v` hold `x`.
pub fn prefix_contains_value<T: SameValue>(v: &[T], n: usize, x: T) -> (r: bool)
    requires
        n <= v@.len(),
    ensures
        r == v@.subrange(0, n as int).contains(x),
{
    let mut i: usize = 0;
    while i < n
        invariant
            i <= n <= v@.len(),
            forall|j: int| 0 <= j < i ==> v@[j] != x,
        decreases n - i,
    {
        if v[i].same(&x) {
            assert(v@.subrange(0, n as int)[i as int] == x);
            return true;
        }
        i = i + 1;
    }
    assert forall|j: int| 0 <= j < n implies v@.subrange(0, n as int)[j] != x by {}
    false
}

/// A copy of `v` without any occurrence of `x`.
pub fn remove_value<T: SameValue>(v: &[T], x: T) -> (r: Vec<T>)
    ensures
        r@ == remove_all(v@, x),
{
    let mut r: Vec<T> = Vec::new();
    let mut i: usize = 0;
    while i < v.len()
        invariant
            i <= v@.len(),
            r@ == remove_all(v@.subrange(0, i as int), x),
        decreases v@.len() - i,
    {
        assert(v@.subrange(0, i + 1).drop_last() =~= v@.subrange(0, i as int));
        if !v[i].same(&x) {
            r.push(v[i]);
        }
        i = i + 1;
    }
    assert(v@.subrange(0, v@.len() as int) =~= v@);
    r
}

/// `s` with every occurrence of `x` taken out, the rest in order.
pub open spec fn remove_all<T>(s: Seq<T>, x: T) -> Seq<T>
    decreases s.len(),
{
    if s.len() == 0 {
        s
    } else if s.last() == x {
        remove_all(s.drop_last(), x)
    } else {
        remove_all(s.drop_last(), x).push(s.last())
    }
}

/// The position at which a moved item lands in a list of `len` other items:
/// the target, or the end when the target lies beyond it.
pub open spec fn landing(target: int, len: int) -> int {
    if target < len {
        target
    } else {
        len
    }
}

/// `s` with `x` taken out and put back in at `target` (or at the end when the
/// target lies beyond the end).
pub open spec fn moved<T>(s: Seq<T>, x: T, target: int) -> Seq<T> {
    let w = remove_all(s, x);
    w.insert(landing(target, w.len() as int), x)
}

/// What taking `x` out of `s` keeps.
pub proof fn lemma_remove_all<T>(s: Seq<T>, x: T)
    ensures
        forall|y: T| #[trigger] remove_all(s, x).contains(y) <==> s.contains(y) && y != x,
        remove_all(s, x).len() <= s.len(),
        !s.contains(x) ==> remove_all(s, x) == s,
        s.no_duplicates() ==> remove_all(s, x).no_duplicates(),
        s.no_duplicates() && s.contains(x) ==> remove_all(s, x).len() + 1 == s.len(),
    decreases s.len(),
{
    if s.len() > 0 {
        let init = s.drop_last();
        let l = s.last();
        lemma_remove_all(init, x);
        assert(init.push(l) =~= s);
        assert forall|y: T| #[trigger] remove_all(s, x).contains(y) <==> s.contains(y) && y != x by {
            lemma_seq_contains_after_push(init, l, y);
            lemma_seq_contains_after_push(remove_all(init, x), l, y);
        }
        if s.no_duplicates() {
            assert(init.no_duplicates()) by {
                assert forall|i: int, j: int| 0 <= i < init.len() && 0 <= j < init.len() && i != j implies init[i] != init[j] by {
                    assert(s[i] == init[i] && s[j] == init[j]);
                }
            }
            assert(!init.contains(l)) by {
                if init.contains(l) {
                    let i = choose|i: int| 0 <= i < init.len() && init[i] == l;
                    assert(s[i] == s[s.len() - 1]);
                }
            }
            if l != x {
                let w = remove_all(init, x);
                assert(!w.contains(l));
                assert forall|i: int, j: int| 0 <= i < w.push(l).len() && 0 <= j < w.push(l).len() && i != j implies w.push(l)[i] != w.push(l)[j] by {
                    if i < w.len() && j < w.len() {
                    } else if i < w.len() {
                        assert(w.contains(w[i]));
                    } else if j < w.len() {
                        assert(w.contains(w[j]));
                    }
                }
            }
        }
        if !s.contains(x) {
            assert(!init.contains(x)) by {
                if init.contains(x) {
                    let i = choose|i: int| 0 <= i < init.len() && init[i] == x;
                    assert(s[i] == x);
                }
            }
            assert(l != x) by {
                assert(s[s.len() - 1] == l);
            }
        }
        if s.no_duplicates() && s.contains(x) && l == x {
            assert(!init.contains(x));
        }
        if s.no_duplicates() && s.contains(x) && l != x {
            assert(init.contains(x)) by {
                lemma_seq_contains_after_push(init, l, x);
            }
        }
    }
}

/// Taking `x` out of a concatenation takes it out of each part.
pub proof fn lemma_remove_all_concat<T>(a: Seq<T>, b: Seq<T>, x: T)
    ensures
        remove_all(a + b, x) == remove_all(a, x) + remove_all(b, x),
    decreases b.len(),
{
    if b.len() == 0 {
        assert(a + b =~= a);
        assert(remove_all(a, x) + remove_all(b, x) =~= remove_all(a, x));
    } else {
        let bi = b.drop_last();
        lemma_remove_all_concat(a, bi, x);
        assert((a + b).drop_last() =~= a + bi);
        assert((a + b).last() == b.last());
        if b.last() != x {
            assert(remove_all(a, x) + remove_all(bi, x).push(b.last()) =~= (remove_all(a, x)
                + remove_all(bi, x)).push(b.last()));
        }
    }
}

/// Moving an item of a list without repeats rearranges the list: the same
/// items, each once, the moved one at its landing position, the others in
/// their former order.
pub proof fn lemma_moved<T>(s: Seq<T>, x: T, target: int)
    requires
        s.no_duplicates(),
        s.contains(x),
        target >= 0,
    ensures
        moved(s, x, target).len() == s.len(),
        moved(s, x, target).no_duplicates(),
        forall|y: T| #[trigger] moved(s, x, target).contains(y) <==> s.contains(y),
        moved(s, x, target)[landing(target, s.len() - 1)] == x,
        remove_all(moved(s, x, target), x) == remove_all(s, x),
{
    let w = remove_all(s, x);
    lemma_remove_all(s, x);
    let i = landing(target, w.len() as int);
    let r = w.insert(i, x);
    assert(!w.contains(x));
    assert forall|y: T| #[trigger] r.contains(y) <==> s.contains(y) by {
        if r.contains(y) && y != x {
            let j = choose|j: int| 0 <= j < r.len() && r[j] == y;
            if j < i {
                assert(w[j] == y);
            } else if j > i {
                assert(w[j - 1] == y);
            }
            assert(w.contains(y));
        }
        if s.contains(y) && y != x {
            assert(w.contains(y));
            let j = choose|j: int| 0 <= j < w.len() && w[j] == y;
            if j < i {
                assert(r[j] == y);
            } else {
                assert(r[j + 1] == y);
            }
        }
        if y == x {
            assert(r[i] == x);
        }
    }
    assert forall|a: int, b: int| 0 <= a < r.len() && 0 <= b < r.len() && a != b implies r[a] != r[b] by {
        if a != i && b != i {
            let wa = if a < i { a } else { a - 1 };
            let wb = if b < i { b } else { b - 1 };
            assert(r[a] == w[wa] && r[b] == w[wb]);
        } else if a == i {
            let wb = if b < i { b } else { b - 1 };
            assert(r[b] == w[wb]);
            assert(w.contains(w[wb]));
        } else {
            let wa = if a < i { a } else { a - 1 };
            assert(r[a] == w[wa]);
            assert(w.contains(w[wa]));
        }
    }
    assert(r =~= w.take(i) + seq![x] + w.skip(i));
    lemma_remove_all_concat(w.take(i) + seq![x], w.skip(i), x);
    lemma_remove_all_concat(w.take(i), seq![x], x);
    assert(seq![x].drop_last() =~= Seq::<T>::empty());
    assert(remove_all(seq![x], x) =~= Seq::<T>::empty()) by {
        reveal_with_fuel(remove_all, 2);
    }
    assert(!w.take(i).contains(x)) by {
        if w.take(i).contains(x) {
            let j = choose|j: int| 0 <= j < i && w.take(i)[j] == x;
            assert(w[j] == x);
        }
    }
    assert(!w.skip(i).contains(x)) by {
        if w.skip(i).contains(x) {
            let j = choose|j: int| 0 <= j < w.skip(i).len() && w.skip(i)[j] == x;
            assert(w[j + i] == x);
        }
    }
    lemma_remove_all(w.take(i), x);
    lemma_remove_all(w.skip(i), x);
    assert(w.take(i) + w.skip(i) =~= w);
}


/// Taking `x` out of a list where it was moved gives what taking it out of
/// the list gives.
pub proof fn lemma_remove_all_moved<T>(s: Seq<T>, x: T, target: int)
    requires
        target >= 0,
    ensures
        remove_all(moved(s, x, target), x) == remove_all(s, x),
{
    let w = remove_all(s, x);
    lemma_remove_all(s, x);
    let i = landing(target, w.len() as int);
    let r = w.insert(i, x);
    assert(!w.contains(x));
    assert(r =~= w.take(i) + seq![x] + w.skip(i));
    lemma_remove_all_concat(w.take(i) + seq![x], w.skip(i), x);
    lemma_remove_all_concat(w.take(i), seq![x], x);
    assert(seq![x].drop_last() =~= Seq::<T>::empty());
    assert(remove_all(seq![x], x) =~= Seq::<T>::empty()) by {
        reveal_with_fuel(remove_all, 2);
    }
    assert(!w.take(i).contains(x)) by {
        if w.take(i).contains(x) {
            let j = choose|j: int| 0 <= j < i && w.take(i)[j] == x;
            assert(w[j] == x);
        }
    }
    assert(!w.skip(i).contains(x)) by {
        if w.skip(i).contains(x) {
            let j = choose|j: int| 0 <= j < w.skip(i).len() && w.skip(i)[j] == x;
            assert(w[j + i] == x);
        }
    }
    lemma_remove_all(w.take(i), x);
    lemma_remove_all(w.skip(i), x);
    assert(w.take(i) + w.skip(i) =~= w);
}

/// Moving an item a second time to the same target changes nothing.
pub proof fn lemma_moved_idempotent<T>(s: Seq<T>, x: T, target: int)
    requires
        target >= 0,
    ensures
        moved(moved(s, x, target), x, target) == moved(s, x, target),
{
    lemma_remove_all_moved(s, x, target);
}

/// How often each item occurs once `x` is taken out: `x` never, every other
/// item as often as before.
pub proof fn lemma_remove_all_counts<T>(s: Seq<T>, x: T)
    ensures
        forall|y: T| #[trigger] remove_all(s, x).to_multiset().count(y) == if y == x {
            0
        } else {
            s.to_multiset().count(y)
        },
    decreases s.len(),
{
    broadcast use vstd::seq_lib::group_to_multiset_ensures;

    if s.len() == 0 {
        assert(s.to_multiset() =~= vstd::multiset::Multiset::<T>::empty());
    } else {
        let init = s.drop_last();
        lemma_remove_all_counts(init, x);
        assert(init.push(s.last()) =~= s);
        let w = remove_all(init, x);
        if s.last() == x {
            assert(remove_all(s, x) == w);
        } else {
            assert(remove_all(s, x) == w.push(s.last()));
        }
    }
}

/// Moving an item that a list holds exactly once rearranges the list: every
/// item occurs as often as before, whatever repeats the other items have.
pub proof fn lemma_moved_permutation<T>(s: Seq<T>, x: T, target: int)
    requires
        target >= 0,
        s.to_multiset().count(x) == 1,
    ensures
        moved(s, x, target).to_multiset() == s.to_multiset(),
{
    let w = remove_all(s, x);
    lemma_remove_all(s, x);
    lemma_remove_all_counts(s, x);
    let i = landing(target, w.len() as int);
    vstd::seq_lib::to_multiset_insert(w, i, x);
    assert(moved(s, x, target).to_multiset() =~= s.to_multiset());
}

} // verus!
