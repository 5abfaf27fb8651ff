//! Lazy generators of the combinations of a pool, with and without
//! replacement, and a sweep that runs one generator after another over a list
//! of combination sizes.
//!
//! A generator is a state machine on a vector of indices into the pool. Each
//! call of `next` moves the indices to the selection that follows and hands out
//! the elements they point at.

use vstd::prelude::*;
use crate::selections::{
    ceiling, highest, index_sequences, is_pivot, is_selection, lemma_lowest_is_selection,
    lemma_no_pivot_is_highest, lemma_pivot_unique, lemma_raised_is_selection,
    lemma_selection_under_ceiling, lemma_selections_ends, lemma_selections_members,
    lemma_selections_successor, lowest, raised, step,
};

verus! {

/// Why a generator cannot be made.
#[derive(Debug, Clone, Copy, PartialEq, Eq, Structural)]
pub enum InvalidArgument {
    /// More distinct elements are asked for than the pool holds.
    CountExceedsPool,
    /// Elements are asked of an empty pool.
    EmptyPool,
}

/// The indices of a state vector as mathematical integers.
pub open spec fn as_ints(state: Seq<usize>) -> Seq<int> {
    state.map_values(|index: usize| index as int)
}

/// `indices` point into `pool`, and `combination` holds a clone of the element
/// at each of them, in their order.
pub open spec fn selects<T: Clone>(pool: Seq<T>, indices: Seq<int>, combination: Seq<T>) -> bool {
    &&& combination.len() == indices.len()
    &&& forall|j: int| 0 <= j < indices.len() ==> 0 <= #[trigger] indices[j] < pool.len()
    &&& forall|j: int|
        0 <= j < indices.len() ==> cloned(pool[indices[j]], #[trigger] combination[j])
}

/// A generator of combinations of `count` out of `n` elements can be made.
pub open spec fn valid_size(n: nat, count: nat, replacement: bool) -> bool {
    if replacement {
        count == 0 || n > 0
    } else {
        count <= n
    }
}

/// The error that a size gets for which no generator can be made.
pub open spec fn size_error(replacement: bool) -> InvalidArgument {
    if replacement {
        InvalidArgument::EmptyPool
    } else {
        InvalidArgument::CountExceedsPool
    }
}

/// The state vector `state` belongs to a generator that has yielded the first
/// `produced` of its index sequences: it is empty before the first, and holds
/// the last one yielded afterwards.
spec fn tracks(state: Seq<usize>, produced: nat, n: nat, count: nat, replacement: bool) -> bool {
    let all = index_sequences(n, count, replacement);
    &&& produced <= all.len()
    &&& (produced == 0 <==> state.len() == 0)
    &&& produced > 0 ==> as_ints(state) == all[produced - 1]
}

/// A state vector that tracks a generator moves to the index sequence that the
/// generator yields next, and does not move once all are yielded.
proof fn lemma_tracked_step(
    state: Seq<usize>,
    produced: nat,
    n: nat,
    count: nat,
    replacement: bool,
)
    requires
        valid_size(n, count, replacement),
        tracks(state, produced, n, count, replacement),
    ensures
        state.len() == 0 || is_selection(as_ints(state), 0, n as int, count, replacement),
        produced < index_sequences(n, count, replacement).len() ==> step(
            as_ints(state),
            n as int,
            count,
            replacement,
        ) == Some(index_sequences(n, count, replacement)[produced as int]),
        produced == index_sequences(n, count, replacement).len() ==> step(
            as_ints(state),
            n as int,
            count,
            replacement,
        ) is None,
{
    let all = index_sequences(n, count, replacement);
    if count > 0 {
        lemma_selections_ends(0, n as int, count, replacement);
        if produced > 0 {
            lemma_selections_members(0, n as int, count, replacement, produced - 1);
            if produced < all.len() {
                lemma_selections_successor(0, n as int, count, replacement, produced - 1);
            } else {
                lemma_no_pivot_is_highest(as_ints(state), 0, n as int, count, replacement);
            }
        }
    }
}

/// Moves `state` to the next selection of `count` distinct indices below `n`,
/// in lexicographic order, and says whether there was one.
///
/// From the empty state the move goes to `0, 1, .., count - 1`. From a
/// selection it raises the rightmost index that has not reached its ceiling and
/// lets the indices to its right follow it in steps of one. The last selection
/// stays as it is, and so does the empty state for `count == 0`.
pub fn next_selection(state: &mut Vec<usize>, n: usize, count: usize) -> (moved: bool)
    requires
        count <= n,
        old(state)@.len() == 0 || is_selection(
            as_ints(old(state)@),
            0,
            n as int,
            count as nat,
            false,
        ),
    ensures
        match step(as_ints(old(state)@), n as int, count as nat, false) {
            Some(s) => moved && as_ints(final(state)@) == s,
            None => !moved && final(state)@ == old(state)@,
        },
        final(state)@.len() == 0 || is_selection(
            as_ints(final(state)@),
            0,
            n as int,
            count as nat,
            false,
        ),
{
    if count == 0 {
        return false;
    }
    if state.len() == 0 {
        let mut i: usize = 0;
        while i < count
            invariant
                i <= count,
                state@.len() == i,
                forall|j: int| 0 <= j < i ==> state@[j] == j,
            decreases count - i,
        {
            state.push(i);
            i += 1;
        }
        proof {
            lemma_lowest_is_selection(0, n as int, count as nat, false);
        }
        return true;
    }
    let ghost before = as_ints(state@);
    let mut i: usize = count - 1;
    loop
        invariant_except_break
            i < count <= n,
            as_ints(state@) == before,
            state@ == old(state)@,
            is_selection(before, 0, n as int, count as nat, false),
            forall|j: int| i < j < count ==> before[j] == ceiling(n as int, count as nat, false, j),
        ensures
            i < count <= n,
            as_ints(state@) == before,
            is_pivot(before, n as int, false, i as int),
        decreases i,
    {
        if state[i] != i + (n - count) {
            proof {
                lemma_selection_under_ceiling(before, 0, n as int, count as nat, false, i as int);
            }
            break ;
        } else if i == 0 {
            proof {
                lemma_no_pivot_is_highest(before, 0, n as int, count as nat, false);
            }
            return false;
        } else {
            i -= 1;
        }
    }
    let raised_index: usize = state[i] + 1;
    state.set(i, raised_index);
    let mut j: usize = i + 1;
    while j < count
        invariant
            i < j <= count <= n,
            state@.len() == count,
            before.len() == count,
            before[i as int] + 1 + (count - 1 - i) <= n - 1,
            forall|m: int| 0 <= m < i ==> state@[m] == before[m],
            forall|m: int| i <= m < j ==> state@[m] == before[i as int] + 1 + (m - i),
        decreases count - j,
    {
        let follower: usize = state[j - 1] + 1;
        state.set(j, follower);
        j += 1;
    }
    proof {
        lemma_pivot_unique(before, n as int, false, i as int);
        lemma_raised_is_selection(before, 0, n as int, count as nat, false, i as int);
    }
    true
}

/// Moves `state` to the next selection of `count` indices below `n` that may
/// repeat, in lexicographic order, and says whether there was one.
///
/// From the empty state the move goes to `0, 0, .., 0`. From a selection it
/// raises the rightmost index that has not reached `n - 1` and sets the
/// indices to its right to the raised value. The last selection stays as it
/// is, and so does the empty state for `count == 0`.
pub fn next_selection_with_replacement(
    state: &mut Vec<usize>,
    n: usize,
    count: usize,
) -> (moved: bool)
    requires
        count == 0 || n > 0,
        old(state)@.len() == 0 || is_selection(
            as_ints(old(state)@),
            0,
            n as int,
            count as nat,
            true,
        ),
    ensures
        match step(as_ints(old(state)@), n as int, count as nat, true) {
            Some(s) => moved && as_ints(final(state)@) == s,
            None => !moved && final(state)@ == old(state)@,
        },
        final(state)@.len() == 0 || is_selection(
            as_ints(final(state)@),
            0,
            n as int,
            count as nat,
            true,
        ),
{
    if count == 0 {
        return false;
    }
    if state.len() == 0 {
        let mut i: usize = 0;
        while i < count
            invariant
                i <= count,
                state@.len() == i,
                forall|j: int| 0 <= j < i ==> state@[j] == 0,
            decreases count - i,
        {
            state.push(0);
            i += 1;
        }
        proof {
            lemma_lowest_is_selection(0, n as int, count as nat, true);
        }
        return true;
    }
    let ghost before = as_ints(state@);
    let mut i: usize = count - 1;
    loop
        invariant_except_break
            i < count,
            n > 0,
            as_ints(state@) == before,
            state@ == old(state)@,
            is_selection(before, 0, n as int, count as nat, true),
            forall|j: int| i < j < count ==> before[j] == ceiling(n as int, count as nat, true, j),
        ensures
            i < count,
            n > 0,
            as_ints(state@) == before,
            is_pivot(before, n as int, true, i as int),
        decreases i,
    {
        if state[i] != n - 1 {
            proof {
                lemma_selection_under_ceiling(before, 0, n as int, count as nat, true, i as int);
            }
            break ;
        } else if i == 0 {
            proof {
                lemma_no_pivot_is_highest(before, 0, n as int, count as nat, true);
            }
            return false;
        } else {
            i -= 1;
        }
    }
    let raised_index: usize = state[i] + 1;
    let mut j: usize = i;
    while j < count
        invariant
            i <= j <= count,
            state@.len() == count,
            before.len() == count,
            raised_index == before[i as int] + 1,
            forall|m: int| 0 <= m < i ==> state@[m] == before[m],
            forall|m: int| i <= m < j ==> state@[m] == raised_index,
        decreases count - j,
    {
        state.set(j, raised_index);
        j += 1;
    }
    proof {
        lemma_pivot_unique(before, n as int, true, i as int);
        lemma_raised_is_selection(before, 0, n as int, count as nat, true, i as int);
    }
    true
}

/// The combination that `indices` pick from `pool`: a clone of each element
/// pointed at, in the order of the indices.
pub fn select<T: Clone>(pool: &Vec<T>, indices: &Vec<usize>) -> (combination: Vec<T>)
    requires
        forall|j: int| 0 <= j < indices@.len() ==> indices@[j] < pool@.len(),
    ensures
        selects(pool@, as_ints(indices@), combination@),
{
    let mut combination: Vec<T> = Vec::with_capacity(indices.len());
    let mut j: usize = 0;
    while j < indices.len()
        invariant
            j <= indices@.len(),
            combination@.len() == j,
            forall|m: int| 0 <= m < indices@.len() ==> indices@[m] < pool@.len(),
            forall|m: int|
                0 <= m < j ==> cloned(pool@[indices@[m] as int], #[trigger] combination@[m]),
        decreases indices@.len() - j,
    {
        combination.push(pool[indices[j]].clone());
        j += 1;
    }
    combination
}

/// A lazy generator of the combinations of `count` distinct elements of a
/// pool, in lexicographic order of their positions in the pool.
pub struct Combinations<T: Clone> {
    pool: Vec<T>,
    count: usize,
    state: Vec<usize>,
    produced: Ghost<nat>,
}

impl<T: Clone> Combinations<T> {
    /// The invariant of the generator: its indices stand at the combination
    /// yielded last.
    pub closed spec fn wf(&self) -> bool {
        &&& self.count <= self.pool@.len()
        &&& tracks(self.state@, self.produced@, self.pool@.len(), self.count as nat, false)
    }

    /// The pool that the combinations are drawn from.
    pub closed spec fn pool(&self) -> Seq<T> {
        self.pool@
    }

    /// The number of elements of each combination.
    pub closed spec fn count(&self) -> nat {
        self.count as nat
    }

    /// The index sequences of the combinations that are still to come, in the
    /// order in which they will come.
    pub closed spec fn remaining(&self) -> Seq<Seq<int>> {
        index_sequences(self.pool@.len(), self.count as nat, false).skip(self.produced@ as int)
    }

    /// A generator of the combinations of `count` distinct elements of `pool`.
    /// It cannot be made where `count` exceeds the size of the pool.
    pub fn new(pool: Vec<T>, count: usize) -> (made: Result<Combinations<T>, InvalidArgument>)
        ensures
            made is Err <==> count > pool@.len(),
            made matches Err(reason) ==> reason == InvalidArgument::CountExceedsPool,
            made matches Ok(generator) ==> {
                &&& generator.wf()
                &&& generator.pool() == pool@
                &&& generator.count() == count
                &&& generator.remaining() == index_sequences(pool@.len(), count as nat, false)
                &&& count == 0 ==> generator.remaining().len() == 0
            },
    {
        if count > pool.len() {
            return Err(InvalidArgument::CountExceedsPool);
        }
        let generator = Combinations {
            pool,
            count,
            state: Vec::new(),
            produced: Ghost(0),
        };
        Ok(generator)
    }

    /// The next combination, or `None` when all have been yielded. After
    /// `None` every further call gives `None`.
    pub fn next(&mut self) -> (combination: Option<Vec<T>>)
        requires
            old(self).wf(),
        ensures
            final(self).wf(),
            final(self).pool() == old(self).pool(),
            final(self).count() == old(self).count(),
            match combination {
                Some(c) => {
                    &&& old(self).remaining().len() > 0
                    &&& selects(old(self).pool(), old(self).remaining()[0], c@)
                    &&& final(self).remaining() == old(self).remaining().drop_first()
                },
                None => {
                    &&& old(self).remaining().len() == 0
                    &&& final(self).remaining().len() == 0
                },
            },
    {
        proof {
            lemma_tracked_step(
                self.state@,
                self.produced@,
                self.pool@.len(),
                self.count as nat,
                false,
            );
        }
        let moved = next_selection(&mut self.state, self.pool.len(), self.count);
        if moved {
            proof {
                self.produced = Ghost((self.produced@ + 1) as nat);
            }
            assert forall|j: int| 0 <= j < self.state@.len() implies self.state@[j]
                < self.pool@.len() by {
                assert(as_ints(self.state@)[j] < self.pool@.len());
            }
            Some(select(&self.pool, &self.state))
        } else {
            None
        }
    }

    /// All combinations that are still to come, in their order.
    pub fn collect(self) -> (combinations: Vec<Vec<T>>)
        requires
            self.wf(),
        ensures
            combinations@.len() == self.remaining().len(),
            forall|i: int|
                0 <= i < combinations@.len() ==> selects(
                    self.pool(),
                    self.remaining()[i],
                    #[trigger] combinations@[i]@,
                ),
    {
        let ghost all = self.remaining();
        let mut generator = self;
        let mut combinations: Vec<Vec<T>> = Vec::new();
        loop
            invariant
                generator.wf(),
                generator.pool() == self.pool(),
                combinations@.len() + generator.remaining().len() == all.len(),
                generator.remaining() == all.skip(combinations@.len() as int),
                forall|i: int|
                    0 <= i < combinations@.len() ==> selects(
                        self.pool(),
                        all[i],
                        #[trigger] combinations@[i]@,
                    ),
            ensures
                combinations@.len() == all.len(),
                forall|i: int|
                    0 <= i < combinations@.len() ==> selects(
                        self.pool(),
                        all[i],
                        #[trigger] combinations@[i]@,
                    ),
            decreases generator.remaining().len(),
        {
            match generator.next() {
                Some(combination) => {
                    combinations.push(combination);
                },
                None => {
                    break ;
                },
            }
        }
        combinations
    }
}

/// A lazy generator of the combinations of `count` elements of a pool in which
/// an element may be taken more than once, in lexicographic order of the
/// positions in the pool.
pub struct CombinationsWithReplacement<T: Clone> {
    pool: Vec<T>,
    count: usize,
    state: Vec<usize>,
    produced: Ghost<nat>,
}

impl<T: Clone> CombinationsWithReplacement<T> {
    /// The invariant of the generator: its indices stand at the combination
    /// yielded last.
    pub closed spec fn wf(&self) -> bool {
        &&& (self.count == 0 || self.pool@.len() > 0)
        &&& tracks(self.state@, self.produced@, self.pool@.len(), self.count as nat, true)
    }

    /// The pool that the combinations are drawn from.
    pub closed spec fn pool(&self) -> Seq<T> {
        self.pool@
    }

    /// The number of elements of each combination.
    pub closed spec fn count(&self) -> nat {
        self.count as nat
    }

    /// The index sequences of the combinations that are still to come, in the
    /// order in which they will come.
    pub closed spec fn remaining(&self) -> Seq<Seq<int>> {
        index_sequences(self.pool@.len(), self.count as nat, true).skip(self.produced@ as int)
    }

    /// A generator of the combinations of `count` elements of `pool` with
    /// replacement. It cannot be made where elements are asked of an empty pool.
    pub fn new(pool: Vec<T>, count: usize) -> (made: Result<
        CombinationsWithReplacement<T>,
        InvalidArgument,
    >)
        ensures
            made is Err <==> count > 0 && pool@.len() == 0,
            made matches Err(reason) ==> reason == InvalidArgument::EmptyPool,
            made matches Ok(generator) ==> {
                &&& generator.wf()
                &&& generator.pool() == pool@
                &&& generator.count() == count
                &&& generator.remaining() == index_sequences(pool@.len(), count as nat, true)
                &&& count == 0 ==> generator.remaining().len() == 0
            },
    {
        if count > 0 && pool.len() == 0 {
            return Err(InvalidArgument::EmptyPool);
        }
        let generator = CombinationsWithReplacement {
            pool,
            count,
            state: Vec::new(),
            produced: Ghost(0),
        };
        Ok(generator)
    }

    /// The next combination, or `None` when all have been yielded. After
    /// `None` every further call gives `None`.
    pub fn next(&mut self) -> (combination: Option<Vec<T>>)
        requires
            old(self).wf(),
        ensures
            final(self).wf(),
            final(self).pool() == old(self).pool(),
            final(self).count() == old(self).count(),
            match combination {
                Some(c) => {
                    &&& old(self).remaining().len() > 0
                    &&& selects(old(self).pool(), old(self).remaining()[0], c@)
                    &&& final(self).remaining() == old(self).remaining().drop_first()
                },
                None => {
                    &&& old(self).remaining().len() == 0
                    &&& final(self).remaining().len() == 0
                },
            },
    {
        proof {
            lemma_tracked_step(
                self.state@,
                self.produced@,
                self.pool@.len(),
                self.count as nat,
                true,
            );
        }
        let moved = next_selection_with_replacement(&mut self.state, self.pool.len(), self.count);
        if moved {
            proof {
                self.produced = Ghost((self.produced@ + 1) as nat);
            }
            assert forall|j: int| 0 <= j < self.state@.len() implies self.state@[j]
                < self.pool@.len() by {
                assert(as_ints(self.state@)[j] < self.pool@.len());
            }
            Some(select(&self.pool, &self.state))
        } else {
            None
        }
    }

    /// All combinations that are still to come, in their order.
    pub fn collect(self) -> (combinations: Vec<Vec<T>>)
        requires
            self.wf(),
        ensures
            combinations@.len() == self.remaining().len(),
            forall|i: int|
                0 <= i < combinations@.len() ==> selects(
                    self.pool(),
                    self.remaining()[i],
                    #[trigger] combinations@[i]@,
                ),
    {
        let ghost all = self.remaining();
        let mut generator = self;
        let mut combinations: Vec<Vec<T>> = Vec::new();
        loop
            invariant
                generator.wf(),
                generator.pool() == self.pool(),
                combinations@.len() + generator.remaining().len() == all.len(),
                generator.remaining() == all.skip(combinations@.len() as int),
                forall|i: int|
                    0 <= i < combinations@.len() ==> selects(
                        self.pool(),
                        all[i],
                        #[trigger] combinations@[i]@,
                    ),
            ensures
                combinations@.len() == all.len(),
                forall|i: int|
                    0 <= i < combinations@.len() ==> selects(
                        self.pool(),
                        all[i],
                        #[trigger] combinations@[i]@,
                    ),
            decreases generator.remaining().len(),
        {
            match generator.next() {
                Some(combination) => {
                    combinations.push(combination);
                },
                None => {
                    break ;
                },
            }
        }
        combinations
    }
}

/// What a sweep over `sizes` yields, as index sequences in the order of
/// generation: what the generator for the first size yields, then what the
/// one for the second size yields, and so on, up to the first size for which
/// no generator can be made.
pub open spec fn sweep_sequences(n: nat, sizes: Seq<usize>, replacement: bool) -> Seq<Seq<int>>
    decreases sizes.len(),
{
    if sizes.len() == 0 || !valid_size(n, sizes[0] as nat, replacement) {
        Seq::empty()
    } else {
        index_sequences(n, sizes[0] as nat, replacement) + sweep_sequences(
            n,
            sizes.drop_first(),
            replacement,
        )
    }
}

/// Each index sequence of a sweep is a selection of one of its sizes.
pub proof fn lemma_sweep_sequences_members(n: nat, sizes: Seq<usize>, replacement: bool, i: int)
    requires
        0 <= i < sweep_sequences(n, sizes, replacement).len(),
    ensures
        exists|j: int|
            0 <= j < sizes.len() && is_selection(
                sweep_sequences(n, sizes, replacement)[i],
                0,
                n as int,
                #[trigger] sizes[j] as nat,
                replacement,
            ),
    decreases sizes.len(),
{
    let first = index_sequences(n, sizes[0] as nat, replacement);
    let rest = sizes.drop_first();
    if i < first.len() {
        lemma_selections_members(0, n as int, sizes[0] as nat, replacement, i);
    } else {
        lemma_sweep_sequences_members(n, rest, replacement, i - first.len());
        let j = choose|j: int|
            0 <= j < rest.len() && is_selection(
                sweep_sequences(n, rest, replacement)[i - first.len()],
                0,
                n as int,
                #[trigger] rest[j] as nat,
                replacement,
            );
    }
}

/// A sweep over `sizes` comes to a size for which no generator can be made.
pub open spec fn sweep_fails(n: nat, sizes: Seq<usize>, replacement: bool) -> bool {
    exists|i: int| 0 <= i < sizes.len() && !valid_size(n, #[trigger] sizes[i] as nat, replacement)
}

/// A sweep fails at its first size or in the rest.
pub proof fn lemma_sweep_fails_unfold(n: nat, sizes: Seq<usize>, replacement: bool)
    requires
        sizes.len() > 0,
    ensures
        sweep_fails(n, sizes, replacement) <==> !valid_size(n, sizes[0] as nat, replacement)
            || sweep_fails(n, sizes.drop_first(), replacement),
{
    let rest = sizes.drop_first();
    if sweep_fails(n, sizes, replacement) {
        let i = choose|i: int|
            0 <= i < sizes.len() && !valid_size(n, #[trigger] sizes[i] as nat, replacement);
        if i > 0 {
            assert(rest[i - 1] == sizes[i]);
        }
    }
    if sweep_fails(n, rest, replacement) {
        let i = choose|i: int|
            0 <= i < rest.len() && !valid_size(n, #[trigger] rest[i] as nat, replacement);
    }
}

/// A lazy sweep over combination sizes: the combinations of the first size,
/// then those of the second size, and so on. The generator for a size is not
/// made before the one for the size before it is exhausted.
pub struct SizeSweep<T: Clone> {
    pool: Vec<T>,
    sizes: Vec<usize>,
    replacement: bool,
    cursor: usize,
    state: Vec<usize>,
    produced: Ghost<nat>,
}

impl<T: Clone> SizeSweep<T> {
    /// The invariant of the sweep: its indices stand at the combination
    /// yielded last of the size in progress.
    pub closed spec fn wf(&self) -> bool {
        &&& self.cursor <= self.sizes@.len()
        &&& if self.cursor < self.sizes@.len() && valid_size(
            self.pool@.len(),
            self.sizes@[self.cursor as int] as nat,
            self.replacement,
        ) {
            tracks(
                self.state@,
                self.produced@,
                self.pool@.len(),
                self.sizes@[self.cursor as int] as nat,
                self.replacement,
            )
        } else {
            self.state@.len() == 0 && self.produced@ == 0
        }
    }

    /// The pool that the combinations are drawn from.
    pub closed spec fn pool(&self) -> Seq<T> {
        self.pool@
    }

    /// Whether an element may be taken more than once.
    pub closed spec fn replacement(&self) -> bool {
        self.replacement
    }

    /// The index sequences of the combinations that are still to come, in the
    /// order in which they will come.
    pub closed spec fn upcoming(&self) -> Seq<Seq<int>> {
        if self.cursor >= self.sizes@.len() || !valid_size(
            self.pool@.len(),
            self.sizes@[self.cursor as int] as nat,
            self.replacement,
        ) {
            Seq::empty()
        } else {
            index_sequences(
                self.pool@.len(),
                self.sizes@[self.cursor as int] as nat,
                self.replacement,
            ).skip(self.produced@ as int) + sweep_sequences(
                self.pool@.len(),
                self.sizes@.skip(self.cursor + 1),
                self.replacement,
            )
        }
    }

    /// Whether the sweep, after the combinations that are still to come, ends
    /// at a size for which no generator can be made.
    pub closed spec fn fails(&self) -> bool {
        sweep_fails(self.pool@.len(), self.sizes@.skip(self.cursor as int), self.replacement)
    }

    /// The next combination; `None` when the sweep has gone through all its
    /// sizes; the error when it has come to a size for which no generator can
    /// be made. After `None` or an error every further call gives the same.
    pub fn next(&mut self) -> (outcome: Result<Option<Vec<T>>, InvalidArgument>)
        requires
            old(self).wf(),
        ensures
            final(self).wf(),
            final(self).pool() == old(self).pool(),
            final(self).replacement() == old(self).replacement(),
            match outcome {
                Ok(Some(c)) => {
                    &&& old(self).upcoming().len() > 0
                    &&& selects(old(self).pool(), old(self).upcoming()[0], c@)
                    &&& final(self).upcoming() == old(self).upcoming().drop_first()
                    &&& final(self).fails() == old(self).fails()
                },
                Ok(None) => {
                    &&& old(self).upcoming().len() == 0
                    &&& !old(self).fails()
                    &&& final(self).upcoming().len() == 0
                    &&& !final(self).fails()
                },
                Err(reason) => {
                    &&& old(self).upcoming().len() == 0
                    &&& old(self).fails()
                    &&& final(self).upcoming().len() == 0
                    &&& final(self).fails()
                    &&& reason == size_error(old(self).replacement())
                },
            },
    {
        loop
            invariant
                self.wf(),
                self.pool@ == old(self).pool@,
                self.sizes@ == old(self).sizes@,
                self.replacement == old(self).replacement,
                self.upcoming() == old(self).upcoming(),
                self.fails() == old(self).fails(),
            decreases self.sizes@.len() - self.cursor,
        {
            if self.cursor >= self.sizes.len() {
                return Ok(None);
            }
            let size: usize = self.sizes[self.cursor];
            let n: usize = self.pool.len();
            let ghost rest = self.sizes@.skip(self.cursor as int);
            proof {
                lemma_sweep_fails_unfold(n as nat, rest, self.replacement);
                assert(rest.drop_first() =~= self.sizes@.skip(self.cursor + 1));
            }
            let moved = if self.replacement {
                if size > 0 && n == 0 {
                    return Err(InvalidArgument::EmptyPool);
                }
                proof {
                    lemma_tracked_step(self.state@, self.produced@, n as nat, size as nat, true);
                }
                next_selection_with_replacement(&mut self.state, n, size)
            } else {
                if size > n {
                    return Err(InvalidArgument::CountExceedsPool);
                }
                proof {
                    lemma_tracked_step(self.state@, self.produced@, n as nat, size as nat, false);
                }
                next_selection(&mut self.state, n, size)
            };
            if moved {
                proof {
                    self.produced = Ghost((self.produced@ + 1) as nat);
                }
                assert forall|j: int| 0 <= j < self.state@.len() implies self.state@[j]
                    < self.pool@.len() by {
                    assert(as_ints(self.state@)[j] < self.pool@.len());
                }
                return Ok(Some(select(&self.pool, &self.state)));
            }
            self.cursor = self.cursor + 1;
            self.state.clear();
            proof {
                self.produced = Ghost(0);
                let later = self.sizes@.skip(self.cursor as int);
                if self.cursor < self.sizes@.len() {
                    assert(later.drop_first() =~= self.sizes@.skip(self.cursor + 1));
                }
            }
        }
    }

    /// All combinations that are still to come, in their order, or the error
    /// where the sweep comes to a size for which no generator can be made.
    pub fn collect(self) -> (outcome: Result<Vec<Vec<T>>, InvalidArgument>)
        requires
            self.wf(),
        ensures
            outcome is Err <==> self.fails(),
            outcome matches Err(reason) ==> reason == size_error(self.replacement()),
            outcome matches Ok(combinations) ==> {
                &&& combinations@.len() == self.upcoming().len()
                &&& forall|i: int|
                    0 <= i < combinations@.len() ==> selects(
                        self.pool(),
                        self.upcoming()[i],
                        #[trigger] combinations@[i]@,
                    )
            },
    {
        let ghost all = self.upcoming();
        let mut sweep = self;
        let mut combinations: Vec<Vec<T>> = Vec::new();
        loop
            invariant
                all == self.upcoming(),
                sweep.wf(),
                sweep.pool() == self.pool(),
                sweep.replacement() == self.replacement(),
                sweep.fails() == self.fails(),
                combinations@.len() + sweep.upcoming().len() == all.len(),
                sweep.upcoming() == all.skip(combinations@.len() as int),
                forall|i: int|
                    0 <= i < combinations@.len() ==> selects(
                        self.pool(),
                        all[i],
                        #[trigger] combinations@[i]@,
                    ),
            decreases sweep.upcoming().len(),
        {
            match sweep.next() {
                Ok(Some(combination)) => {
                    combinations.push(combination);
                },
                Ok(None) => {
                    return Ok(combinations);
                },
                Err(reason) => {
                    return Err(reason);
                },
            }
        }
    }
}

/// A sweep over `sizes`: the combinations of `pool` of the first size, then
/// those of the second size, and so on, each size with a generator of its
/// own, with or without replacement.
pub fn combination_range<T: Clone>(
    pool: Vec<T>,
    sizes: Vec<usize>,
    replacement: bool,
) -> (sweep: SizeSweep<T>)
    ensures
        sweep.wf(),
        sweep.pool() == pool@,
        sweep.replacement() == replacement,
        sweep.upcoming() == sweep_sequences(pool@.len(), sizes@, replacement),
        sweep.fails() == sweep_fails(pool@.len(), sizes@, replacement),
{
    let sweep = SizeSweep {
        pool,
        sizes,
        replacement,
        cursor: 0,
        state: Vec::new(),
        produced: Ghost(0),
    };
    proof {
        assert(sweep.sizes@.skip(0) =~= sweep.sizes@);
    }
    sweep
}

} // verus!
