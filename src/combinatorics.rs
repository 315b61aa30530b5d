//! The mathematics of combinations as strictly increasing index tuples: the
//! lexicographic successor, the number of combinations, and the facts that tie
//! them together.
use vstd::prelude::*;

verus! {

/// `t` is strictly increasing.
pub open spec fn strictly_increasing(t: Seq<int>) -> bool {
    forall|a: int, b: int| 0 <= a < b < t.len() ==> t[a] < t[b]
}

/// `t` is the index tuple of a combination of `n` items: strictly increasing,
/// each entry in `[0, n)`.
pub open spec fn is_combination(t: Seq<int>, n: int) -> bool {
    &&& strictly_increasing(t)
    &&& forall|a: int| 0 <= a < t.len() ==> 0 <= #[trigger] t[a] < n
}

/// The run `(s, s + 1, ..., s + len - 1)`.
pub open spec fn run(s: int, len: nat) -> Seq<int> {
    Seq::new(len, |j: int| s + j)
}

/// The first tuple `(0, 1, ..., k - 1)`.
pub open spec fn first_tuple(k: int) -> Seq<int> {
    run(0, k as nat)
}

/// A cursor over `n` items still has a combination to produce: it is neither
/// empty nor longer than `n`.
pub open spec fn is_active(t: Seq<int>, n: int) -> bool {
    0 < t.len() <= n
}

/// The items that the index tuple `t` picks out of `items`, in index order.
pub open spec fn pick<T>(items: Seq<T>, t: Seq<int>) -> Seq<T> {
    t.map_values(|i: int| items[i])
}

/// `a` comes strictly before `b` in lexicographic order: both have the same
/// length, and at the first position where they differ `a` is smaller.
pub open spec fn lex_less(a: Seq<int>, b: Seq<int>) -> bool {
    &&& a.len() == b.len()
    &&& exists|i: int| 0 <= i < a.len() && a.take(i) == b.take(i) && a[i] < b[i]
}

/// Position `i` of `t` can be raised by one while every later position still
/// fits below `n`.
pub open spec fn has_room(t: Seq<int>, n: int, i: int) -> bool {
    t[i] < n - (t.len() - i)
}

/// The rightmost position below `m` that has room, or -1 if there is none.
pub open spec fn last_room(t: Seq<int>, n: int, m: nat) -> int
    decreases m,
{
    if m == 0 {
        -1
    } else if has_room(t, n, m - 1) {
        m - 1
    } else {
        last_room(t, n, (m - 1) as nat)
    }
}

/// The cursor that follows `t` over `n` items: the rightmost position with room
/// is raised by one and every later position is packed right after it; if no
/// position has room, `t` was the last combination and the cursor becomes empty.
pub open spec fn successor(t: Seq<int>, n: int) -> Seq<int> {
    let i = last_room(t, n, t.len());
    if i < 0 {
        Seq::empty()
    } else {
        t.take(i) + run(t[i] + 1, (t.len() - i) as nat)
    }
}

/// The cursor after `m` steps from `t`.
pub open spec fn after(t: Seq<int>, n: int, m: nat) -> Seq<int>
    decreases m,
{
    if m == 0 {
        t
    } else {
        after(successor(t, n), n, (m - 1) as nat)
    }
}

/// The binomial coefficient `C(n, k)`, by Pascal's rule.
pub open spec fn binom(n: nat, k: nat) -> nat
    decreases n,
{
    if k == 0 {
        1
    } else if n == 0 {
        0
    } else {
        binom((n - 1) as nat, (k - 1) as nat) + binom((n - 1) as nat, k)
    }
}

/// For a combination `t` of `n` items, the number of combinations of the same
/// size that come after it in lexicographic order: the sum over positions `a`
/// of `C(n - 1 - t[a], len - a)`.
pub open spec fn later_count(t: Seq<int>, n: int) -> nat
    decreases t.len(),
{
    if t.len() == 0 {
        0
    } else {
        binom((n - 1 - t[0]) as nat, t.len()) + later_count(t.drop_first(), n)
    }
}

proof fn lemma_binom_above(m: nat, k: nat)
    requires
        m < k,
    ensures
        binom(m, k) == 0,
    decreases m,
{
    if m > 0 {
        lemma_binom_above((m - 1) as nat, (k - 1) as nat);
        lemma_binom_above((m - 1) as nat, k);
    }
}

proof fn lemma_binom_diagonal(m: nat)
    ensures
        binom(m, m) == 1,
    decreases m,
{
    if m > 0 {
        lemma_binom_diagonal((m - 1) as nat);
        lemma_binom_above((m - 1) as nat, m);
    }
}

proof fn lemma_later_count_run(s: int, len: nat, n: int)
    requires
        0 <= s,
        s + len <= n,
    ensures
        later_count(run(s, len), n) + 1 == binom((n - s) as nat, len),
    decreases len,
{
    if len > 0 {
        assert(run(s, len).drop_first() =~= run(s + 1, (len - 1) as nat));
        lemma_later_count_run(s + 1, (len - 1) as nat, n);
    }
}

proof fn lemma_later_count_common_prefix(t: Seq<int>, u: Seq<int>, i: int, n: int)
    requires
        t.len() == u.len(),
        0 <= i <= t.len(),
        t.take(i) == u.take(i),
    ensures
        later_count(t, n) + later_count(u.skip(i), n) == later_count(u, n) + later_count(
            t.skip(i),
            n,
        ),
    decreases i,
{
    if i == 0 {
        assert(t.skip(0) =~= t);
        assert(u.skip(0) =~= u);
    } else {
        assert(t[0] == t.take(i)[0]);
        assert(u[0] == u.take(i)[0]);
        assert(t.drop_first().take(i - 1) =~= t.take(i).drop_first());
        assert(u.drop_first().take(i - 1) =~= u.take(i).drop_first());
        assert(t.drop_first().skip(i - 1) =~= t.skip(i));
        assert(u.drop_first().skip(i - 1) =~= u.skip(i));
        lemma_later_count_common_prefix(t.drop_first(), u.drop_first(), i - 1, n);
    }
}

proof fn lemma_spread(t: Seq<int>, a: int, b: int)
    requires
        strictly_increasing(t),
        0 <= a <= b < t.len(),
    ensures
        t[b] - t[a] >= b - a,
    decreases b - a,
{
    if a < b {
        lemma_spread(t, a, b - 1);
    }
}

/// Where no position from `i` on has room, those positions hold their largest
/// values.
proof fn lemma_packed_tail(t: Seq<int>, n: int, i: int)
    requires
        is_combination(t, n),
        0 < t.len(),
        0 <= i,
        forall|j: int| i <= j < t.len() ==> !has_room(t, n, j),
    ensures
        forall|j: int| i <= j < t.len() ==> t[j] == n - t.len() + j,
{
    assert forall|j: int| i <= j < t.len() implies t[j] == n - t.len() + j by {
        assert(!has_room(t, n, j));
        lemma_spread(t, j, t.len() - 1);
        assert(0 <= t[t.len() - 1] < n);
    }
}

/// `last_room` finds the rightmost position below `m` with room, if any.
pub proof fn lemma_last_room(t: Seq<int>, n: int, m: nat)
    requires
        m <= t.len(),
    ensures
        -1 <= last_room(t, n, m) < m,
        last_room(t, n, m) >= 0 ==> has_room(t, n, last_room(t, n, m)),
        forall|j: int| last_room(t, n, m) < j < m ==> !has_room(t, n, j),
    decreases m,
{
    if m > 0 && !has_room(t, n, m - 1) {
        lemma_last_room(t, n, (m - 1) as nat);
    }
}

/// One step from an active combination: the successor is empty exactly when no
/// combination comes later; otherwise it is a combination of the same size,
/// lexicographically greater, with one fewer combination after it.
pub proof fn lemma_successor(t: Seq<int>, n: int)
    requires
        is_combination(t, n),
        is_active(t, n),
    ensures
        successor(t, n).len() == 0 <==> later_count(t, n) == 0,
        successor(t, n).len() != 0 ==> {
            &&& successor(t, n).len() == t.len()
            &&& is_combination(successor(t, n), n)
            &&& lex_less(t, successor(t, n))
            &&& later_count(successor(t, n), n) + 1 == later_count(t, n)
        },
{
    let k = t.len();
    let r = last_room(t, n, k);
    lemma_last_room(t, n, k);
    if r < 0 {
        lemma_packed_tail(t, n, 0);
        assert(t =~= run(n - k, k));
        lemma_later_count_run(n - k, k, n);
        lemma_binom_diagonal(k);
    } else {
        let s = successor(t, n);
        lemma_packed_tail(t, n, r + 1);
        let l = (k - r) as nat;
        assert(s.take(r) =~= t.take(r));
        assert(s.skip(r) =~= run(t[r] + 1, l));
        lemma_later_count_common_prefix(s, t, r, n);
        lemma_later_count_run(t[r] + 1, l, n);
        assert(t.skip(r).drop_first() =~= run(n - k + r + 1, (l - 1) as nat));
        lemma_later_count_run(n - k + r + 1, (l - 1) as nat, n);
        lemma_binom_diagonal((l - 1) as nat);
        assert(later_count(t.skip(r), n) == binom((n - 1 - t[r]) as nat, l));
        assert(later_count(s, n) + 1 == later_count(t, n));
        assert(s.take(r) == t.take(r));
        assert(lex_less(t, s));
        assert(is_combination(s, n)) by {
            assert forall|a: int, b: int| 0 <= a < b < s.len() implies s[a] < s[b] by {
                if b < r {
                    assert(t[a] < t[b]);
                } else if a < r {
                    assert(t[a] < t[r]);
                }
            }
            assert forall|a: int| 0 <= a < s.len() implies 0 <= #[trigger] s[a] < n by {
                if a < r {
                    assert(0 <= t[a]);
                }
            }
        }
    }
}

proof fn lemma_steps_from(t: Seq<int>, n: int, g: nat)
    requires
        is_combination(t, n),
        is_active(t, n),
        later_count(t, n) == g,
    ensures
        forall|m: nat|
            m <= g ==> {
                &&& is_active(#[trigger] after(t, n, m), n)
                &&& is_combination(after(t, n, m), n)
                &&& after(t, n, m).len() == t.len()
            },
        forall|m: nat| m < g ==> lex_less(#[trigger] after(t, n, m), after(t, n, m + 1)),
        after(t, n, g + 1).len() == 0,
    decreases g,
{
    lemma_successor(t, n);
    let s = successor(t, n);
    assert(after(t, n, 0) == t);
    assert(after(t, n, 1) == after(s, n, 0));
    if g > 0 {
        lemma_steps_from(s, n, (g - 1) as nat);
        assert forall|m: nat| m <= g implies {
            &&& is_active(#[trigger] after(t, n, m), n)
            &&& is_combination(after(t, n, m), n)
            &&& after(t, n, m).len() == t.len()
        } by {
            if m > 0 {
                assert(after(t, n, m) == after(s, n, (m - 1) as nat));
            }
        }
        assert forall|m: nat| m < g implies lex_less(
            #[trigger] after(t, n, m),
            after(t, n, m + 1),
        ) by {
            assert(after(t, n, m + 1) == after(s, n, m));
            if m > 0 {
                assert(after(t, n, m) == after(s, n, (m - 1) as nat));
            }
        }
        assert(after(t, n, g + 1) == after(s, n, g));
    }
}

/// From the first tuple of size `k`, with `0 < k <= n`, the cursor stays on a
/// combination of size `k` for exactly `C(n, k)` steps, and is empty after them:
/// the enumeration produces exactly `C(n, k)` combinations.
pub proof fn lemma_combination_count(n: nat, k: nat)
    requires
        0 < k <= n,
    ensures
        forall|m: nat|
            m < binom(n, k) ==> {
                &&& is_active(#[trigger] after(first_tuple(k as int), n as int, m), n as int)
                &&& is_combination(after(first_tuple(k as int), n as int, m), n as int)
                &&& after(first_tuple(k as int), n as int, m).len() == k
            },
        forall|m: nat|
            m + 1 < binom(n, k) ==> lex_less(
                #[trigger] after(first_tuple(k as int), n as int, m),
                after(first_tuple(k as int), n as int, m + 1),
            ),
        after(first_tuple(k as int), n as int, binom(n, k)).len() == 0,
{
    let t = first_tuple(k as int);
    lemma_later_count_run(0, k, n as int);
    lemma_steps_from(t, n as int, later_count(t, n as int));
}

proof fn lemma_lex_less_transitive(a: Seq<int>, b: Seq<int>, c: Seq<int>)
    requires
        lex_less(a, b),
        lex_less(b, c),
    ensures
        lex_less(a, c),
{
    let i = choose|i: int| 0 <= i < a.len() && a.take(i) == b.take(i) && a[i] < b[i];
    let j = choose|j: int| 0 <= j < b.len() && b.take(j) == c.take(j) && b[j] < c[j];
    let w = if i < j { i } else { j };
    assert(a.take(w) =~= a.take(i).take(w));
    assert(b.take(w) =~= b.take(i).take(w));
    assert(b.take(w) =~= b.take(j).take(w));
    assert(c.take(w) =~= c.take(j).take(w));
    if i < j {
        assert(b[i] == b.take(j)[i]);
        assert(c[i] == c.take(j)[i]);
    } else if j < i {
        assert(a[j] == a.take(i)[j]);
        assert(b[j] == b.take(i)[j]);
    }
    assert(a.take(w) == c.take(w));
    assert(a[w] < c[w]);
}

/// Any two combinations of one enumeration come in strictly increasing
/// lexicographic order: the one produced earlier is the smaller.
pub proof fn lemma_enumeration_increasing(n: nat, k: nat, i: nat, j: nat)
    requires
        0 < k <= n,
        i < j < binom(n, k),
    ensures
        lex_less(
            after(first_tuple(k as int), n as int, i),
            after(first_tuple(k as int), n as int, j),
        ),
    decreases j - i,
{
    let t = first_tuple(k as int);
    lemma_combination_count(n, k);
    assert(lex_less(after(t, n as int, (j - 1) as nat), after(t, n as int, j)));
    if i + 1 < j {
        lemma_enumeration_increasing(n, k, i, (j - 1) as nat);
        lemma_lex_less_transitive(
            after(t, n as int, i),
            after(t, n as int, (j - 1) as nat),
            after(t, n as int, j),
        );
    }
}

/// A combination of size `k` is bounded above position by position by the
/// last one, `(n - k, ..., n - 1)`.
proof fn lemma_combination_bound(u: Seq<int>, n: int, j: int)
    requires
        is_combination(u, n),
        0 <= j < u.len(),
    ensures
        u[j] <= n - u.len() + j,
{
    lemma_spread(u, j, u.len() - 1);
    assert(u[u.len() - 1] < n);
}

/// Two tuples of one length that share a prefix of length `i` and are ordered
/// position by position after it are equal or lexicographically ordered.
proof fn lemma_pointwise_le(a: Seq<int>, b: Seq<int>, i: int)
    requires
        a.len() == b.len(),
        0 <= i <= a.len(),
        a.take(i) == b.take(i),
        forall|j: int| i <= j < a.len() ==> a[j] <= b[j],
    ensures
        a == b || lex_less(a, b),
    decreases a.len() - i,
{
    if i == a.len() {
        assert(a =~= a.take(i));
        assert(b =~= b.take(i));
    } else if a[i] < b[i] {
        assert(lex_less(a, b));
    } else {
        assert(a.take(i + 1) =~= a.take(i).push(a[i]));
        assert(b.take(i + 1) =~= b.take(i).push(b[i]));
        lemma_pointwise_le(a, b, i + 1);
    }
}

/// The successor skips nothing: no combination of the same size lies strictly
/// between an active combination and its successor, and a combination that
/// has any greater one has a successor.
pub proof fn lemma_successor_is_least(t: Seq<int>, u: Seq<int>, n: int)
    requires
        is_combination(t, n),
        is_active(t, n),
        is_combination(u, n),
        lex_less(t, u),
    ensures
        successor(t, n).len() != 0,
        successor(t, n) == u || lex_less(successor(t, n), u),
{
    let k = t.len();
    let w = choose|w: int| 0 <= w < k && t.take(w) == u.take(w) && t[w] < u[w];
    let r = last_room(t, n, k);
    lemma_last_room(t, n, k);
    lemma_combination_bound(u, n, w);
    if r < w {
        lemma_packed_tail(t, n, r + 1);
        assert(false);
    }
    let s = successor(t, n);
    assert(s.take(r) =~= t.take(r));
    if w < r {
        assert(s.take(w) =~= t.take(r).take(w));
        assert(t.take(w) =~= t.take(r).take(w));
        assert(s[w] == t[w]);
        assert(lex_less(s, u));
    } else {
        assert(t.take(r) == u.take(r));
        assert forall|j: int| r <= j < k implies s[j] <= u[j] by {
            lemma_spread(u, r, j);
        }
        lemma_pointwise_le(s, u, r);
    }
}

proof fn lemma_reaches(t: Seq<int>, u: Seq<int>, n: int, g: nat)
    requires
        is_combination(t, n),
        is_active(t, n),
        is_combination(u, n),
        t == u || lex_less(t, u),
        later_count(t, n) == g,
    ensures
        exists|m: nat| m <= g && after(t, n, m) == u,
    decreases g,
{
    assert(after(t, n, 0) == t);
    if t != u {
        lemma_successor(t, n);
        lemma_successor_is_least(t, u, n);
        let s = successor(t, n);
        lemma_reaches(s, u, n, (g - 1) as nat);
        let m = choose|m: nat| m <= g - 1 && after(s, n, m) == u;
        assert(after(t, n, m + 1) == after(s, n, m));
    }
}

/// Every combination of size `k` of `n` items is produced: from the first
/// tuple it is reached within the `C(n, k)` steps of the enumeration.
pub proof fn lemma_every_combination_produced(n: nat, k: nat, u: Seq<int>)
    requires
        0 < k <= n,
        is_combination(u, n as int),
        u.len() == k,
    ensures
        exists|m: nat| m < binom(n, k) && after(first_tuple(k as int), n as int, m) == u,
{
    let t = first_tuple(k as int);
    assert forall|j: int| 0 <= j < k implies t[j] <= u[j] by {
        lemma_spread(u, 0, j);
        assert(0 <= u[0]);
    }
    assert(t.take(0) =~= u.take(0));
    lemma_pointwise_le(t, u, 0);
    lemma_later_count_run(0, k, n as int);
    lemma_reaches(t, u, n as int, later_count(t, n as int));
}

} // verus!
