//! Lazy enumeration of the k-combinations of a slice, in lexicographic order of
//! their index tuples.
//!
//! Items are never copied: each combination is a vector of references into the
//! borrowed slice. Items are not checked for uniqueness; equal items at distinct
//! positions count as distinct.
use vstd::prelude::*;

pub mod combinatorics;

use combinatorics::{
    first_tuple, has_room, is_active, is_combination, last_room, lemma_last_room, lemma_successor,
    lex_less, pick, successor,
};

verus! {

/// The integers that a vector of indices holds.
pub open spec fn as_ints(v: Seq<usize>) -> Seq<int> {
    v.map_values(|x: usize| x as int)
}

/// Moves the cursor `indices` over `n` items to its successor, in place.
fn advance(indices: &mut Vec<usize>, n: usize)
    requires
        is_combination(as_ints(old(indices)@), n as int),
        is_active(as_ints(old(indices)@), n as int),
    ensures
        as_ints(final(indices)@) == successor(as_ints(old(indices)@), n as int),
{
    let ghost t = as_ints(indices@);
    let k = indices.len();
    let mut i: usize = k;
    while i > 0
        invariant
            i <= k,
            k == t.len(),
            t == as_ints(old(indices)@),
            as_ints(indices@) == t,
            is_combination(t, n as int),
            is_active(t, n as int),
            forall|j: int| i <= j < k ==> !has_room(t, n as int, j),
        decreases i,
    {
        i = i - 1;
        assert(t[i as int] == indices@[i as int]);
        if indices[i] < n - (k - i) {
            proof {
                lemma_last_room(t, n as int, k as nat);
                let r = last_room(t, n as int, k as nat);
                if r > i {
                    assert(!has_room(t, n as int, r));
                }
                if r < i {
                    assert(!has_room(t, n as int, i as int));
                }
            }
            assert(last_room(t, n as int, k as nat) == i);
            let base = indices[i] + 1;
            let mut j: usize = i;
            while j < k
                invariant
                    i <= j <= k,
                    k == t.len(),
                    t == as_ints(old(indices)@),
                    base == t[i as int] + 1,
                    base + (k - 1 - i) < n,
                    indices@.len() == k,
                    forall|p: int| 0 <= p < i ==> indices@[p] == t[p],
                    forall|p: int| i <= p < j ==> indices@[p] == base + (p - i),
                decreases k - j,
            {
                indices[j] = base + (j - i);
                j = j + 1;
            }
            assert(as_ints(indices@) =~= successor(t, n as int));
            return;
        }
    }
    proof {
        lemma_last_room(t, n as int, k as nat);
    }
    indices.clear();
    assert(as_ints(indices@) =~= successor(t, n as int));
}

/// Iterates over all combinations of a fixed size of the borrowed items.
pub struct CombinationIterator<'a, T> {
    items: &'a [T],
    indices: Vec<usize>,
}

impl<'a, T> CombinationIterator<'a, T> {
    /// The items that combinations are drawn from.
    pub closed spec fn items(&self) -> Seq<T> {
        self.items@
    }

    /// The index tuple of the combination that the next call will produce;
    /// empty once the enumeration is over.
    pub closed spec fn cursor(&self) -> Seq<int> {
        as_ints(self.indices@)
    }

    #[verifier::type_invariant]
    closed spec fn cursor_is_combination(self) -> bool {
        is_active(self.cursor(), self.items@.len() as int) ==> is_combination(
            self.cursor(),
            self.items@.len() as int,
        )
    }

    /// Creates an iterator over the combinations of `items` with `n` elements.
    ///
    /// If `n` is 0 or greater than `items.len()`, the iterator produces nothing.
    pub fn new(items: &'a [T], n: usize) -> (r: CombinationIterator<'a, T>)
        ensures
            r.items() == items@,
            r.cursor() == first_tuple(n as int),
            is_active(r.cursor(), items@.len() as int) <==> 0 < n <= items@.len(),
    {
        let mut indices: Vec<usize> = Vec::with_capacity(n);
        let mut i: usize = 0;
        while i < n
            invariant
                i <= n,
                indices@.len() == i,
                forall|j: int| 0 <= j < i ==> indices@[j] == j,
            decreases n - i,
        {
            indices.push(i);
            i = i + 1;
        }
        let r = CombinationIterator { items, indices };
        assert(r.cursor() =~= first_tuple(n as int));
        r
    }

    /// Produces the combination under the cursor and moves the cursor to the
    /// next one, or returns `None` once there is none.
    ///
    /// The combination holds references to the items at the cursor's indices,
    /// in index order. Exhaustion is final: a call that returns `None` leaves
    /// the iterator as it was.
    pub fn next(&mut self) -> (r: Option<Vec<&'a T>>)
        ensures
            final(self).items() == old(self).items(),
            r is Some <==> is_active(old(self).cursor(), old(self).items().len() as int),
            r is Some ==> {
                &&& is_combination(old(self).cursor(), old(self).items().len() as int)
                &&& r->0@.map_values(|x: &T| *x) == pick(old(self).items(), old(self).cursor())
                &&& final(self).cursor() == successor(
                    old(self).cursor(),
                    old(self).items().len() as int,
                )
            },
            r is None ==> final(self).cursor() == old(self).cursor(),
            is_active(final(self).cursor(), final(self).items().len() as int) ==> {
                &&& final(self).cursor().len() == old(self).cursor().len()
                &&& lex_less(old(self).cursor(), final(self).cursor())
            },
    {
        proof {
            use_type_invariant(&*self);
        }
        let n = self.items.len();
        if self.indices.len() == 0 || self.indices.len() > n {
            return None;
        }
        let ghost t = self.cursor();
        proof {
            lemma_successor(t, n as int);
        }
        let items: &'a [T] = self.items;
        let mut ret: Vec<&'a T> = Vec::with_capacity(self.indices.len());
        let mut p: usize = 0;
        while p < self.indices.len()
            invariant
                p <= self.indices@.len(),
                t == self.cursor(),
                items@ == self.items@,
                is_combination(t, n as int),
                n == items@.len(),
                ret@.len() == p,
                forall|q: int| 0 <= q < p ==> *ret@[q] == items@[t[q]],
            decreases self.indices@.len() - p,
        {
            assert(0 <= t[p as int] < n);
            ret.push(&items[self.indices[p]]);
            p = p + 1;
        }
        assert(ret@.map_values(|x: &T| *x) =~= pick(items@, t));
        let mut indices: Vec<usize> = Vec::new();
        std::mem::swap(&mut self.indices, &mut indices);
        advance(&mut indices, n);
        self.indices = indices;
        Some(ret)
    }
}

} // verus!
