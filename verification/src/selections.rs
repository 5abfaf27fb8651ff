//! The index sequences that stand for combinations, in the order in which they
//! are generated.
//!
//! A combination of `k` elements of a pool of `n` is a sequence of `k` indices
//! into the pool. Without replacement the indices rise strictly; with
//! replacement they never fall. Both kinds are handled at once: the flag
//! `replacement` tells them apart.

use vstd::prelude::*;
use crate::counting::{binomial, lemma_binomial_beyond};

verus! {

/// The least amount by which the indices rise over `steps` positions: nothing
/// where an index may repeat, one for each position where it may not.
pub open spec fn spread(replacement: bool, steps: int) -> int {
    if replacement {
        0
    } else {
        steps
    }
}

/// `s` is a sequence of `k` indices, each at least `lo` and below `n`, that is
/// ordered as the kind of combination demands.
pub open spec fn is_selection(s: Seq<int>, lo: int, n: int, k: nat, replacement: bool) -> bool {
    &&& s.len() == k
    &&& forall|j: int| 0 <= j < k ==> lo <= #[trigger] s[j] < n
    &&& forall|j: int| 0 <= j < k - 1 ==> #[trigger] s[j] + spread(replacement, 1) <= s[j + 1]
}

/// The largest index that position `j` of a selection of `k` out of `n` can hold.
pub open spec fn ceiling(n: int, k: nat, replacement: bool, j: int) -> int {
    n - 1 - spread(replacement, k - 1 - j)
}

/// The first selection of `k` indices that are at least `lo`.
pub open spec fn lowest(lo: int, k: nat, replacement: bool) -> Seq<int> {
    Seq::new(k, |j: int| lo + spread(replacement, j))
}

/// The last selection of `k` indices below `n`: every position holds its ceiling.
pub open spec fn highest(n: int, k: nat, replacement: bool) -> Seq<int> {
    Seq::new(k, |j: int| ceiling(n, k, replacement, j))
}

/// Position `p` is the rightmost of `s` that has not reached its ceiling.
pub open spec fn is_pivot(s: Seq<int>, n: int, replacement: bool, p: int) -> bool {
    &&& 0 <= p < s.len()
    &&& s[p] < ceiling(n, s.len(), replacement, p)
    &&& forall|j: int| p < j < s.len() ==> #[trigger] s[j] == ceiling(n, s.len(), replacement, j)
}

/// Some position of `s` has not reached its ceiling.
pub open spec fn has_pivot(s: Seq<int>, n: int, replacement: bool) -> bool {
    exists|p: int| is_pivot(s, n, replacement, p)
}

/// The rightmost position of `s` that has not reached its ceiling.
pub open spec fn pivot(s: Seq<int>, n: int, replacement: bool) -> int {
    choose|p: int| is_pivot(s, n, replacement, p)
}

/// `s` with the index at `p` raised by one and every later position reset to
/// the least value that the raised index allows.
pub open spec fn raised(s: Seq<int>, p: int, replacement: bool) -> Seq<int> {
    Seq::new(s.len(), |j: int| if j < p { s[j] } else { s[p] + 1 + spread(replacement, j - p) })
}

/// The selection that follows `s`, where `s` has a pivot.
pub open spec fn successor(s: Seq<int>, n: int, replacement: bool) -> Seq<int> {
    raised(s, pivot(s, n, replacement), replacement)
}

/// One move of the generator of selections of `k` out of `n`. From the empty
/// state it goes to the first selection, from a selection to its successor.
/// `None` says that there is no move: nothing is generated for `k == 0`, and
/// nothing follows the last selection.
pub open spec fn step(s: Seq<int>, n: int, k: nat, replacement: bool) -> Option<Seq<int>> {
    if k == 0 {
        None
    } else if s.len() == 0 {
        Some(lowest(0, k, replacement))
    } else if has_pivot(s, n, replacement) {
        Some(successor(s, n, replacement))
    } else {
        None
    }
}

/// `a` comes before `b` in lexicographic order.
pub open spec fn lex_less(a: Seq<int>, b: Seq<int>) -> bool {
    exists|p: int|
        0 <= p < a.len() && p < b.len() && #[trigger] a[p] < b[p] && a.take(p) == b.take(p)
}

/// Each sequence of `tails` with `head` put in front.
pub open spec fn prefixed(head: int, tails: Seq<Seq<int>>) -> Seq<Seq<int>> {
    Seq::new(tails.len(), |i: int| seq![head] + tails[i])
}

/// All selections of `k` indices that are at least `lo` and below `n`, in
/// lexicographic order: first those that begin with `lo`, then the others.
pub open spec fn selections(lo: int, n: int, k: nat, replacement: bool) -> Seq<Seq<int>>
    decreases k, n - lo,
{
    if k == 0 {
        seq![Seq::empty()]
    } else if lo >= n {
        Seq::empty()
    } else {
        prefixed(
            lo,
            selections(lo + spread(replacement, 1), n, (k - 1) as nat, replacement),
        ) + selections(lo + 1, n, k, replacement)
    }
}

/// What a generator of combinations of `k` out of `n` elements yields, as index
/// sequences in the order of generation. For `k == 0` it yields nothing, not
/// even the empty combination.
pub open spec fn index_sequences(n: nat, k: nat, replacement: bool) -> Seq<Seq<int>> {
    if k == 0 {
        Seq::empty()
    } else {
        selections(0, n as int, k, replacement)
    }
}

/// How many selections of `k` out of `n` there are.
pub open spec fn selection_count(n: nat, k: nat, replacement: bool) -> nat {
    if replacement {
        if k == 0 {
            1
        } else {
            binomial((n + k - 1) as nat, k)
        }
    } else {
        binomial(n, k)
    }
}

/// There is a selection of `k` indices from `lo` up to `n`.
pub open spec fn feasible(lo: int, n: int, k: nat, replacement: bool) -> bool {
    k == 0 || lo + spread(replacement, k - 1) < n
}

/// A pivot is unique.
pub proof fn lemma_pivot_unique(s: Seq<int>, n: int, replacement: bool, p: int)
    requires
        is_pivot(s, n, replacement, p),
    ensures
        has_pivot(s, n, replacement),
        pivot(s, n, replacement) == p,
        successor(s, n, replacement) == raised(s, p, replacement),
{
    assert(is_pivot(s, n, replacement, pivot(s, n, replacement)));
}

/// No position of a selection is above its ceiling.
pub proof fn lemma_selection_under_ceiling(
    s: Seq<int>,
    lo: int,
    n: int,
    k: nat,
    replacement: bool,
    j: int,
)
    requires
        is_selection(s, lo, n, k, replacement),
        0 <= j < k,
    ensures
        s[j] <= ceiling(n, k, replacement, j),
    decreases k - j,
{
    if j < k - 1 {
        lemma_selection_under_ceiling(s, lo, n, k, replacement, j + 1);
    }
}

/// The last selection is the only one without a pivot.
pub proof fn lemma_no_pivot_is_highest(s: Seq<int>, lo: int, n: int, k: nat, replacement: bool)
    requires
        is_selection(s, lo, n, k, replacement),
    ensures
        !has_pivot(s, n, replacement) <==> s == highest(n, k, replacement),
{
    if !has_pivot(s, n, replacement) {
        assert forall|j: int| 0 <= j < k implies s[j] == ceiling(n, k, replacement, j) by {
            lemma_all_at_ceiling(s, lo, n, k, replacement, j);
        }
        assert(s =~= highest(n, k, replacement));
    }
}

proof fn lemma_all_at_ceiling(s: Seq<int>, lo: int, n: int, k: nat, replacement: bool, j: int)
    requires
        is_selection(s, lo, n, k, replacement),
        !has_pivot(s, n, replacement),
        0 <= j < k,
    ensures
        forall|i: int| j <= i < k ==> #[trigger] s[i] == ceiling(n, k, replacement, i),
    decreases k - j,
{
    if j < k - 1 {
        lemma_all_at_ceiling(s, lo, n, k, replacement, j + 1);
    }
    lemma_selection_under_ceiling(s, lo, n, k, replacement, j);
    if s[j] < ceiling(n, k, replacement, j) {
        assert(is_pivot(s, n, replacement, j));
    }
}

/// Raising a selection at its pivot gives a selection again, and a later one.
pub proof fn lemma_raised_is_selection(
    s: Seq<int>,
    lo: int,
    n: int,
    k: nat,
    replacement: bool,
    p: int,
)
    requires
        is_selection(s, lo, n, k, replacement),
        is_pivot(s, n, replacement, p),
    ensures
        is_selection(raised(s, p, replacement), lo, n, k, replacement),
        lex_less(s, raised(s, p, replacement)),
{
    let t = raised(s, p, replacement);
    assert forall|j: int| 0 <= j < k implies lo <= #[trigger] t[j] < n by {}
    assert forall|j: int| 0 <= j < k - 1 implies #[trigger] t[j] + spread(replacement, 1) <= t[j
        + 1] by {}
    assert(s.take(p) =~= t.take(p));
}

/// The first selection is one.
pub proof fn lemma_lowest_is_selection(lo: int, n: int, k: nat, replacement: bool)
    requires
        k > 0,
        feasible(lo, n, k, replacement),
    ensures
        is_selection(lowest(lo, k, replacement), lo, n, k, replacement),
{
}

/// The enumeration is empty exactly where no selection exists; otherwise it
/// starts at the first selection and ends at the last.
pub proof fn lemma_selections_ends(lo: int, n: int, k: nat, replacement: bool)
    ensures
        selections(lo, n, k, replacement).len() > 0 <==> feasible(lo, n, k, replacement),
        feasible(lo, n, k, replacement) ==> selections(lo, n, k, replacement).first() == lowest(
            lo,
            k,
            replacement,
        ),
        feasible(lo, n, k, replacement) ==> selections(lo, n, k, replacement).last() == highest(
            n,
            k,
            replacement,
        ),
    decreases k, n - lo,
{
    if k > 0 && lo < n {
        lemma_selections_ends(lo + spread(replacement, 1), n, (k - 1) as nat, replacement);
        lemma_selections_ends(lo + 1, n, k, replacement);
    }
}

/// Every member of the enumeration is a selection.
pub proof fn lemma_selections_members(lo: int, n: int, k: nat, replacement: bool, i: int)
    requires
        0 <= i < selections(lo, n, k, replacement).len(),
    ensures
        is_selection(selections(lo, n, k, replacement)[i], lo, n, k, replacement),
    decreases k, n - lo,
{
    if k > 0 && lo < n {
        let inner = selections(lo + spread(replacement, 1), n, (k - 1) as nat, replacement);
        let front = prefixed(lo, inner);
        if i < front.len() {
            lemma_selections_members(
                lo + spread(replacement, 1),
                n,
                (k - 1) as nat,
                replacement,
                i,
            );
            let s = selections(lo, n, k, replacement)[i];
            assert forall|j: int| 0 <= j < k implies lo <= #[trigger] s[j] < n by {}
            assert forall|j: int| 0 <= j < k - 1 implies #[trigger] s[j] + spread(replacement, 1)
                <= s[j + 1] by {}
        } else {
            lemma_selections_members(lo + 1, n, k, replacement, i - front.len());
        }
    }
}

/// Every selection is a member of the enumeration.
pub proof fn lemma_selections_complete(s: Seq<int>, lo: int, n: int, k: nat, replacement: bool)
    requires
        is_selection(s, lo, n, k, replacement),
    ensures
        selections(lo, n, k, replacement).contains(s),
    decreases k, n - lo,
{
    let all = selections(lo, n, k, replacement);
    if k == 0 {
        assert(all[0] == s);
    } else {
        let inner = selections(lo + spread(replacement, 1), n, (k - 1) as nat, replacement);
        let front = prefixed(lo, inner);
        let back = selections(lo + 1, n, k, replacement);
        if s[0] == lo {
            let tail = s.drop_first();
            assert forall|j: int| 0 <= j < k - 1 implies lo + spread(replacement, 1)
                <= #[trigger] tail[j] < n by {
                lemma_selection_rises(s, lo, n, k, replacement, 0, j + 1);
            }
            assert forall|j: int| 0 <= j < k - 2 implies #[trigger] tail[j] + spread(replacement, 1)
                <= tail[j + 1] by {}
            lemma_selections_complete(
                tail,
                lo + spread(replacement, 1),
                n,
                (k - 1) as nat,
                replacement,
            );
            let i = choose|i: int| 0 <= i < inner.len() && inner[i] == tail;
            assert(all[i] == s);
        } else {
            assert forall|j: int| 0 <= j < k implies lo + 1 <= #[trigger] s[j] < n by {
                lemma_selection_rises(s, lo, n, k, replacement, 0, j);
            }
            lemma_selections_complete(s, lo + 1, n, k, replacement);
            let i = choose|i: int| 0 <= i < back.len() && back[i] == s;
            assert(all[front.len() + i] == s);
        }
    }
}

/// The indices of a selection do not fall, and rise by the spread at least.
pub proof fn lemma_selection_rises(
    s: Seq<int>,
    lo: int,
    n: int,
    k: nat,
    replacement: bool,
    i: int,
    j: int,
)
    requires
        is_selection(s, lo, n, k, replacement),
        0 <= i <= j < k,
    ensures
        s[i] + spread(replacement, j - i) <= s[j],
    decreases j - i,
{
    if i < j {
        lemma_selection_rises(s, lo, n, k, replacement, i, j - 1);
    }
}

/// In the enumeration each member but the last has a pivot, and its successor
/// is the member that follows it.
pub proof fn lemma_selections_successor(lo: int, n: int, k: nat, replacement: bool, i: int)
    requires
        0 <= i,
        i + 1 < selections(lo, n, k, replacement).len(),
    ensures
        has_pivot(selections(lo, n, k, replacement)[i], n, replacement),
        successor(selections(lo, n, k, replacement)[i], n, replacement) == selections(
            lo,
            n,
            k,
            replacement,
        )[i + 1],
    decreases k, n - lo,
{
    if k > 0 && lo < n {
        let inner = selections(lo + spread(replacement, 1), n, (k - 1) as nat, replacement);
        let front = prefixed(lo, inner);
        let s = selections(lo, n, k, replacement)[i];
        if i + 1 < front.len() {
            lemma_selections_successor(
                lo + spread(replacement, 1),
                n,
                (k - 1) as nat,
                replacement,
                i,
            );
            lemma_selections_members(
                lo + spread(replacement, 1),
                n,
                (k - 1) as nat,
                replacement,
                i,
            );
            let tail = inner[i];
            let p = pivot(tail, n, replacement);
            assert(is_pivot(s, n, replacement, p + 1)) by {
                assert forall|j: int| p + 1 < j < s.len() implies #[trigger] s[j] == ceiling(
                    n,
                    s.len(),
                    replacement,
                    j,
                ) by {
                    assert(s[j] == tail[j - 1]);
                }
            }
            lemma_pivot_unique(s, n, replacement, p + 1);
        } else if i + 1 == front.len() {
            lemma_selections_ends(lo + spread(replacement, 1), n, (k - 1) as nat, replacement);
            lemma_selections_ends(lo + 1, n, k, replacement);
            lemma_pivot_unique(s, n, replacement, 0);
        } else {
            lemma_selections_successor(lo + 1, n, k, replacement, i - front.len());
        }
    }
}

/// Lexicographic order is transitive.
pub proof fn lemma_lex_less_transitive(a: Seq<int>, b: Seq<int>, c: Seq<int>)
    requires
        lex_less(a, b),
        lex_less(b, c),
    ensures
        lex_less(a, c),
{
    let p = choose|p: int|
        0 <= p < a.len() && p < b.len() && #[trigger] a[p] < b[p] && a.take(p) == b.take(p);
    let q = choose|q: int|
        0 <= q < b.len() && q < c.len() && #[trigger] b[q] < c[q] && b.take(q) == c.take(q);
    let m = if p <= q { p } else { q };
    assert(a.take(m) =~= c.take(m)) by {
        assert forall|j: int| 0 <= j < m implies a[j] == c[j] by {
            assert(a.take(p)[j] == b.take(p)[j]);
        }
    }
    if p < q {
        assert(b.take(q)[p] == c.take(q)[p]);
    } else if q < p {
        assert(a.take(p)[q] == b.take(p)[q]);
    }
}

/// Nothing comes before itself in lexicographic order.
pub proof fn lemma_lex_less_irreflexive(a: Seq<int>)
    ensures
        !lex_less(a, a),
{
}

/// The enumeration rises strictly in lexicographic order.
pub proof fn lemma_selections_sorted(lo: int, n: int, k: nat, replacement: bool, i: int, j: int)
    requires
        0 <= i < j < selections(lo, n, k, replacement).len(),
    ensures
        lex_less(selections(lo, n, k, replacement)[i], selections(lo, n, k, replacement)[j]),
    decreases j - i,
{
    let all = selections(lo, n, k, replacement);
    lemma_selections_successor(lo, n, k, replacement, j - 1);
    lemma_selections_members(lo, n, k, replacement, j - 1);
    let s = all[j - 1];
    let p = pivot(s, n, replacement);
    lemma_raised_is_selection(s, lo, n, k, replacement, p);
    if i < j - 1 {
        lemma_selections_sorted(lo, n, k, replacement, i, j - 1);
        lemma_lex_less_transitive(all[i], s, all[j]);
    }
}

/// The enumeration has as many members as there are selections.
pub proof fn lemma_selections_len(lo: int, n: int, k: nat, replacement: bool)
    requires
        lo <= n,
    ensures
        selections(lo, n, k, replacement).len() == selection_count(
            (n - lo) as nat,
            k,
            replacement,
        ),
    decreases k, n - lo,
{
    if k > 0 && lo >= n {
        if replacement {
            lemma_binomial_beyond((k - 1) as nat, k);
        }
    } else if k > 0 {
        let inner = selections(lo + spread(replacement, 1), n, (k - 1) as nat, replacement);
        let back = selections(lo + 1, n, k, replacement);
        lemma_selections_len(lo + spread(replacement, 1), n, (k - 1) as nat, replacement);
        lemma_selections_len(lo + 1, n, k, replacement);
        assert(selections(lo, n, k, replacement).len() == prefixed(lo, inner).len() + back.len());
    }
}

/// The indices rise strictly.
pub open spec fn strictly_increasing(s: Seq<int>) -> bool {
    forall|a: int, b: int| 0 <= a < b < s.len() ==> s[a] < s[b]
}

/// The indices never fall.
pub open spec fn non_decreasing(s: Seq<int>) -> bool {
    forall|a: int, b: int| 0 <= a < b < s.len() ==> s[a] <= s[b]
}

/// Each index points into a pool of `n` elements.
pub open spec fn within(s: Seq<int>, n: nat) -> bool {
    forall|j: int| 0 <= j < s.len() ==> 0 <= #[trigger] s[j] < n
}

/// The selections of `k` out of `n` without replacement are the strictly
/// increasing sequences of `k` indices below `n`; those with replacement are
/// the sequences of `k` indices below `n` that never fall.
pub proof fn lemma_selection_order(s: Seq<int>, n: nat, k: nat, replacement: bool)
    ensures
        is_selection(s, 0, n as int, k, replacement) <==> s.len() == k && within(s, n)
            && if replacement {
            non_decreasing(s)
        } else {
            strictly_increasing(s)
        },
{
    if is_selection(s, 0, n as int, k, replacement) {
        assert forall|a: int, b: int| 0 <= a < b < s.len() implies s[a] + spread(
            replacement,
            b - a,
        ) <= s[b] by {
            lemma_selection_rises(s, 0, n as int, k, replacement, a, b);
        }
    }
    if s.len() == k && within(s, n) && if replacement {
        non_decreasing(s)
    } else {
        strictly_increasing(s)
    } {
        assert forall|j: int| 0 <= j < k - 1 implies #[trigger] s[j] + spread(replacement, 1)
            <= s[j + 1] by {}
    }
}

/// What a generator of `k > 0` out of `n` yields, with or without
/// replacement: as many index sequences as there are selections, each of them
/// a selection, in strictly rising lexicographic order, so that none comes
/// twice; and every selection is among them.
pub proof fn lemma_index_sequences(n: nat, k: nat, replacement: bool)
    requires
        k > 0,
    ensures
        index_sequences(n, k, replacement).len() == selection_count(n, k, replacement),
        forall|i: int|
            0 <= i < index_sequences(n, k, replacement).len() ==> is_selection(
                #[trigger] index_sequences(n, k, replacement)[i],
                0,
                n as int,
                k,
                replacement,
            ),
        forall|i: int, j: int|
            0 <= i < j < index_sequences(n, k, replacement).len() ==> lex_less(
                #[trigger] index_sequences(n, k, replacement)[i],
                #[trigger] index_sequences(n, k, replacement)[j],
            ),
        forall|i: int, j: int|
            0 <= i < j < index_sequences(n, k, replacement).len() ==> #[trigger] index_sequences(
                n,
                k,
                replacement,
            )[i] != #[trigger] index_sequences(n, k, replacement)[j],
        forall|s: Seq<int>| #[trigger]
            is_selection(s, 0, n as int, k, replacement) ==> index_sequences(
                n,
                k,
                replacement,
            ).contains(s),
{
    let all = index_sequences(n, k, replacement);
    lemma_selections_len(0, n as int, k, replacement);
    assert forall|i: int| 0 <= i < all.len() implies is_selection(
        #[trigger] all[i],
        0,
        n as int,
        k,
        replacement,
    ) by {
        lemma_selections_members(0, n as int, k, replacement, i);
    }
    assert forall|i: int, j: int| 0 <= i < j < all.len() implies lex_less(
        #[trigger] all[i],
        #[trigger] all[j],
    ) && all[i] != all[j] by {
        lemma_selections_sorted(0, n as int, k, replacement, i, j);
        lemma_lex_less_irreflexive(all[i]);
    }
    assert forall|s: Seq<int>| #[trigger]
        is_selection(s, 0, n as int, k, replacement) implies all.contains(s) by {
        lemma_selections_complete(s, 0, n as int, k, replacement);
    }
}

/// Without replacement a generator of `k > 0` out of `n` elements yields
/// `C(n, k)` index sequences. Each has `k` strictly increasing indices below
/// `n`. They come in strictly rising lexicographic order, so none comes twice;
/// and every such sequence is among them.
pub proof fn lemma_combinations_enumerated(n: nat, k: nat)
    requires
        k > 0,
    ensures
        index_sequences(n, k, false).len() == binomial(n, k),
        forall|i: int|
            0 <= i < index_sequences(n, k, false).len() ==> {
                let s = #[trigger] index_sequences(n, k, false)[i];
                s.len() == k && within(s, n) && strictly_increasing(s)
            },
        forall|i: int, j: int|
            0 <= i < j < index_sequences(n, k, false).len() ==> lex_less(
                #[trigger] index_sequences(n, k, false)[i],
                #[trigger] index_sequences(n, k, false)[j],
            ),
        forall|i: int, j: int|
            0 <= i < j < index_sequences(n, k, false).len() ==> #[trigger] index_sequences(
                n,
                k,
                false,
            )[i] != #[trigger] index_sequences(n, k, false)[j],
        forall|s: Seq<int>|
            s.len() == k && within(s, n) && #[trigger] strictly_increasing(s) ==> index_sequences(
                n,
                k,
                false,
            ).contains(s),
{
    let all = index_sequences(n, k, false);
    lemma_index_sequences(n, k, false);
    assert forall|i: int| 0 <= i < all.len() implies {
        let s = #[trigger] all[i];
        s.len() == k && within(s, n) && strictly_increasing(s)
    } by {
        lemma_selection_order(all[i], n, k, false);
    }
    assert forall|s: Seq<int>|
        s.len() == k && within(s, n) && #[trigger] strictly_increasing(s) implies all.contains(
        s,
    ) by {
        lemma_selection_order(s, n, k, false);
    }
}

/// With replacement a generator of `k > 0` out of `n` elements yields
/// `C(n + k - 1, k)` index sequences. Each has `k` indices below `n` that
/// never fall. They come in strictly rising lexicographic order, so none
/// comes twice; and every such sequence is among them.
pub proof fn lemma_combinations_with_replacement_enumerated(n: nat, k: nat)
    requires
        k > 0,
    ensures
        index_sequences(n, k, true).len() == binomial((n + k - 1) as nat, k),
        forall|i: int|
            0 <= i < index_sequences(n, k, true).len() ==> {
                let s = #[trigger] index_sequences(n, k, true)[i];
                s.len() == k && within(s, n) && non_decreasing(s)
            },
        forall|i: int, j: int|
            0 <= i < j < index_sequences(n, k, true).len() ==> lex_less(
                #[trigger] index_sequences(n, k, true)[i],
                #[trigger] index_sequences(n, k, true)[j],
            ),
        forall|i: int, j: int|
            0 <= i < j < index_sequences(n, k, true).len() ==> #[trigger] index_sequences(
                n,
                k,
                true,
            )[i] != #[trigger] index_sequences(n, k, true)[j],
        forall|s: Seq<int>|
            s.len() == k && within(s, n) && #[trigger] non_decreasing(s) ==> index_sequences(
                n,
                k,
                true,
            ).contains(s),
{
    let all = index_sequences(n, k, true);
    lemma_index_sequences(n, k, true);
    assert forall|i: int| 0 <= i < all.len() implies {
        let s = #[trigger] all[i];
        s.len() == k && within(s, n) && non_decreasing(s)
    } by {
        lemma_selection_order(all[i], n, k, true);
    }
    assert forall|s: Seq<int>|
        s.len() == k && within(s, n) && #[trigger] non_decreasing(s) implies all.contains(s) by {
        lemma_selection_order(s, n, k, true);
    }
}

/// For `k == 0` a generator yields nothing, with or without replacement.
pub proof fn lemma_nothing_for_count_zero(n: nat, replacement: bool)
    ensures
        index_sequences(n, 0, replacement) == Seq::<Seq<int>>::empty(),
{
}

} // verus!
