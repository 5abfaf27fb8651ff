//! Search for the combinations of a pool that score best.
//!
//! The combinations of the sizes asked for are generated one after the other.
//! Those that the caller's filter admits are scored by the caller's
//! evaluation, and ranked by score: all of them, or the best few only, which
//! takes no more memory than the few.
//!
//! The pool holds references, and so do the combinations found: nothing of
//! the pool is copied.

use vstd::prelude::*;
use vstd::std_specs::cmp::PartialEqSpec;
use crate::combinatorics::{
    combination_range, lemma_sweep_sequences_members, selects, size_error, sweep_fails,
    sweep_sequences, InvalidArgument,
};
use crate::ranking::{
    inserted, is_ranking, lemma_ranked, lemma_relabelled_inserted, lemma_relabelled_ranked,
    lemma_relabelled_top, lemma_top_inserted, rank, ranked, relabelled, top, totally_ordered,
    ResultSet,
};

verus! {

/// Every element of `combination` is an element of `pool`.
pub open spec fn drawn_from<X>(combination: Seq<X>, pool: Seq<X>) -> bool {
    forall|j: int| 0 <= j < combination.len() ==> pool.contains(#[trigger] combination[j])
}

/// The elements of `pool` at `indices`, in their order.
pub open spec fn picked<X>(pool: Seq<X>, indices: Seq<int>) -> Seq<X> {
    Seq::new(indices.len(), |j: int| pool[indices[j]])
}

/// `f` may return `result` for a combination that holds `elements`.
pub open spec fn may_return<'a, T, R, F: Fn(&Vec<&'a T>) -> R>(
    f: F,
    elements: Seq<&'a T>,
    result: R,
) -> bool {
    exists|c: Vec<&'a T>| c@ == elements && #[trigger] call_ensures(f, (&c,), result)
}

/// What `f` returns for a combination depends on its elements alone.
pub open spec fn functional<'a, T, R, F: Fn(&Vec<&'a T>) -> R>(f: F) -> bool {
    forall|elements: Seq<&'a T>, first: R, second: R|
        #[trigger] may_return(f, elements, first) && #[trigger] may_return(f, elements, second)
            ==> first == second
}

/// What `f` returns for a combination that holds `elements`.
pub open spec fn value<'a, T, R, F: Fn(&Vec<&'a T>) -> R>(f: F, elements: Seq<&'a T>) -> R {
    choose|result: R| may_return(f, elements, result)
}

/// The filter `admissible` lets a combination that holds `elements` pass.
pub open spec fn admits<'a, T, A: Fn(&Vec<&'a T>) -> bool>(
    admissible: A,
    elements: Seq<&'a T>,
) -> bool {
    !may_return(admissible, elements, false)
}

/// `combination` holds elements of `pool`, as many as one of `sizes` says.
pub open spec fn in_scope<X>(combination: Seq<X>, pool: Seq<X>, sizes: Seq<usize>) -> bool {
    &&& drawn_from(combination, pool)
    &&& exists|j: int| 0 <= j < sizes.len() && #[trigger] sizes[j] == combination.len()
}

/// `f` can be called on every combination of elements of `pool` of one of the
/// `sizes`.
pub open spec fn accepts<'a, T, R, F: Fn(&Vec<&'a T>) -> R>(
    f: F,
    pool: Seq<&'a T>,
    sizes: Seq<usize>,
) -> bool {
    forall|c: Vec<&'a T>| in_scope(c@, pool, sizes) ==> #[trigger] call_requires(f, (&c,))
}

/// `evaluate` can be called on every combination of elements of `pool` of one
/// of the `sizes` that `admissible` lets pass.
pub open spec fn accepts_admitted<
    'a,
    T,
    S,
    E: Fn(&Vec<&'a T>) -> S,
    A: Fn(&Vec<&'a T>) -> bool,
>(evaluate: E, admissible: A, pool: Seq<&'a T>, sizes: Seq<usize>) -> bool {
    forall|c: Vec<&'a T>|
        in_scope(c@, pool, sizes) && admits(admissible, c@) ==> #[trigger] call_requires(
            evaluate,
            (&c,),
        )
}

/// `f` can be called on nothing and on `element` alone.
pub open spec fn accepts_alone<'a, T, R, F: Fn(&Vec<&'a T>) -> R>(f: F, element: &'a T) -> bool {
    forall|c: Vec<&'a T>|
        c@.len() == 0 || c@ == seq![element] ==> #[trigger] call_requires(f, (&c,))
}

/// The scored combinations that a search goes through: of the combinations
/// that `sequences` pick from `pool`, those that `admissible` lets pass, each
/// with its score under `evaluate`, in the order of `sequences`.
pub open spec fn candidates<'a, T, S, E: Fn(&Vec<&'a T>) -> S, A: Fn(&Vec<&'a T>) -> bool>(
    pool: Seq<&'a T>,
    sequences: Seq<Seq<int>>,
    evaluate: E,
    admissible: A,
) -> Seq<(S, Seq<&'a T>)>
    decreases sequences.len(),
{
    if sequences.len() == 0 {
        Seq::empty()
    } else {
        let earlier = candidates(pool, sequences.drop_last(), evaluate, admissible);
        let elements = picked(pool, sequences.last());
        if admits(admissible, elements) {
            earlier.push((value(evaluate, elements), elements))
        } else {
            earlier
        }
    }
}

/// The search has called the filter on each combination that `sequences` pick
/// from `pool`, and the evaluation on each that the filter let pass: `admits`
/// and `value` say what they returned.
pub open spec fn observed<'a, T, S, E: Fn(&Vec<&'a T>) -> S, A: Fn(&Vec<&'a T>) -> bool>(
    pool: Seq<&'a T>,
    sequences: Seq<Seq<int>>,
    evaluate: E,
    admissible: A,
) -> bool {
    forall|i: int|
        0 <= i < sequences.len() ==> {
            let elements = picked(pool, #[trigger] sequences[i]);
            &&& may_return(admissible, elements, admits(admissible, elements))
            &&& admits(admissible, elements) ==> may_return(
                evaluate,
                elements,
                value(evaluate, elements),
            )
        }
}

/// The entries with each combination taken by its elements.
pub open spec fn entry_views<'a, T, S>(entries: Seq<(S, Vec<&'a T>)>) -> Seq<(S, Seq<&'a T>)> {
    relabelled(entries, |combination: Vec<&'a T>| combination@)
}

/// What a function returns on a call is its value.
pub proof fn lemma_value<'a, T, R, F: Fn(&Vec<&'a T>) -> R>(f: F, c: Vec<&'a T>, result: R)
    requires
        functional(f),
        call_ensures(f, (&c,), result),
    ensures
        value(f, c@) == result,
{
    assert(may_return(f, c@, result));
}

/// A combination of references that selects from a pool holds what the
/// indices pick.
pub proof fn lemma_selects_picked<'a, T>(pool: Seq<&'a T>, indices: Seq<int>, c: Seq<&'a T>)
    requires
        selects(pool, indices, c),
    ensures
        c == picked(pool, indices),
        drawn_from(c, pool),
{
    assert forall|j: int| 0 <= j < indices.len() implies #[trigger] c[j] == pool[indices[j]] by {}
    assert forall|j: int| 0 <= j < c.len() implies pool.contains(#[trigger] c[j]) by {}
}

/// Whether the filter lets `combination` pass, and its score if it does.
fn assess<'a, T, S, E: Fn(&Vec<&'a T>) -> S, A: Fn(&Vec<&'a T>) -> bool>(
    combination: Vec<&'a T>,
    evaluate: &E,
    admissible: &A,
    Ghost(pool): Ghost<Seq<&'a T>>,
    Ghost(sizes): Ghost<Seq<usize>>,
) -> (entry: Option<(S, Vec<&'a T>)>)
    requires
        in_scope(combination@, pool, sizes),
        accepts(*admissible, pool, sizes),
        functional(*admissible),
        accepts_admitted(*evaluate, *admissible, pool, sizes),
        functional(*evaluate),
    ensures
        entry is Some <==> admits(*admissible, combination@),
        entry matches Some(scored) ==> scored.0 == value(*evaluate, combination@) && scored.1
            == combination,
        may_return(*admissible, combination@, admits(*admissible, combination@)),
        admits(*admissible, combination@) ==> may_return(
            *evaluate,
            combination@,
            value(*evaluate, combination@),
        ),
{
    let admitted = admissible(&combination);
    proof {
        assert(may_return(*admissible, combination@, admitted));
    }
    if admitted {
        let score = evaluate(&combination);
        proof {
            lemma_value(*evaluate, combination, score);
        }
        Some((score, combination))
    } else {
        None
    }
}

/// The ranking that a search gives: the candidates among the combinations of
/// `pool` of the `sizes` asked for, best first.
pub open spec fn full_ranking<
    'a,
    T,
    S: PartialOrd,
    E: Fn(&Vec<&'a T>) -> S,
    A: Fn(&Vec<&'a T>) -> bool,
>(
    pool: Seq<&'a T>,
    sizes: Seq<usize>,
    replacement: bool,
    evaluate: E,
    admissible: A,
) -> Seq<(S, Seq<&'a T>)> {
    ranked(
        candidates(
            pool,
            sweep_sequences(pool.len(), sizes, replacement),
            evaluate,
            admissible,
        ),
    )
}

/// How the candidates are told, one combination after the other: none among
/// no combinations; among some, those among all but the last and, if the
/// filter lets it pass, the last with its score.
pub proof fn lemma_candidates_unfold<
    'a,
    T,
    S,
    E: Fn(&Vec<&'a T>) -> S,
    A: Fn(&Vec<&'a T>) -> bool,
>(pool: Seq<&'a T>, sequences: Seq<Seq<int>>, evaluate: E, admissible: A)
    ensures
        sequences.len() == 0 ==> candidates(pool, sequences, evaluate, admissible) == Seq::<
            (S, Seq<&'a T>),
        >::empty(),
        sequences.len() > 0 ==> candidates(pool, sequences, evaluate, admissible) == if admits(
            admissible,
            picked(pool, sequences.last()),
        ) {
            candidates(pool, sequences.drop_last(), evaluate, admissible).push(
                (value(evaluate, picked(pool, sequences.last())), picked(pool, sequences.last())),
            )
        } else {
            candidates(pool, sequences.drop_last(), evaluate, admissible)
        },
{
}

/// The candidates among one more combination of `all` are those among the
/// combinations before it and, if the filter lets it pass, the new one.
proof fn lemma_candidates_step<'a, T, S, E: Fn(&Vec<&'a T>) -> S, A: Fn(&Vec<&'a T>) -> bool>(
    pool: Seq<&'a T>,
    all: Seq<Seq<int>>,
    done: int,
    evaluate: E,
    admissible: A,
)
    requires
        0 <= done < all.len(),
    ensures
        candidates(pool, all.take(done + 1), evaluate, admissible) == if admits(
            admissible,
            picked(pool, all[done]),
        ) {
            candidates(pool, all.take(done), evaluate, admissible).push(
                (value(evaluate, picked(pool, all[done])), picked(pool, all[done])),
            )
        } else {
            candidates(pool, all.take(done), evaluate, admissible)
        },
{
    lemma_candidates_unfold(pool, all.take(done + 1), evaluate, admissible);
    assert(all.take(done + 1).drop_last() =~= all.take(done));
}

/// All combinations of `pool` of the `sizes` asked for that `admissible` lets
/// pass, each with its score under `evaluate`, best first. Combinations of
/// equal score stand in the order of their generation.
///
/// The sizes are gone through in their order, each with a generator of its
/// own, with or without replacement. The search fails where it comes to a size
/// for which no generator can be made.
pub fn search<'a, T, S: PartialOrd, E: Fn(&Vec<&'a T>) -> S, A: Fn(&Vec<&'a T>) -> bool>(
    pool: Vec<&'a T>,
    sizes: Vec<usize>,
    replacement: bool,
    evaluate: &E,
    admissible: &A,
) -> (outcome: Result<Vec<(S, Vec<&'a T>)>, InvalidArgument>)
    requires
        totally_ordered::<S>(),
        accepts(*admissible, pool@, sizes@),
        functional(*admissible),
        accepts_admitted(*evaluate, *admissible, pool@, sizes@),
        functional(*evaluate),
    ensures
        outcome is Err <==> sweep_fails(pool@.len(), sizes@, replacement),
        outcome matches Err(reason) ==> reason == size_error(replacement),
        outcome matches Ok(found) ==> {
            &&& entry_views(found@) == full_ranking(
                pool@,
                sizes@,
                replacement,
                *evaluate,
                *admissible,
            )
            &&& is_ranking(found@)
            &&& entry_views(found@).to_multiset() == candidates(
                pool@,
                sweep_sequences(pool@.len(), sizes@, replacement),
                *evaluate,
                *admissible,
            ).to_multiset()
            &&& observed(
                pool@,
                sweep_sequences(pool@.len(), sizes@, replacement),
                *evaluate,
                *admissible,
            )
        },
{
    let ghost elements = pool@;
    let ghost lengths = sizes@;
    let ghost all = sweep_sequences(elements.len(), lengths, replacement);
    let mut sweep = combination_range(pool, sizes, replacement);
    let mut gathered: Vec<(S, Vec<&'a T>)> = Vec::new();
    let ghost mut done: int = 0;
    loop
        invariant
            totally_ordered::<S>(),
            accepts(*admissible, elements, lengths),
            functional(*admissible),
            accepts_admitted(*evaluate, *admissible, elements, lengths),
            functional(*evaluate),
            elements == pool@,
            lengths == sizes@,
            all == sweep_sequences(elements.len(), lengths, replacement),
            sweep.wf(),
            sweep.pool() == elements,
            sweep.replacement() == replacement,
            sweep.fails() == sweep_fails(elements.len(), lengths, replacement),
            0 <= done <= all.len(),
            sweep.upcoming() == all.skip(done),
            observed(elements, all.take(done), *evaluate, *admissible),
            entry_views(gathered@) == candidates(elements, all.take(done), *evaluate, *admissible),
        decreases all.len() - done,
    {
        match sweep.next() {
            Ok(Some(combination)) => {
                proof {
                    lemma_selects_picked(elements, all[done], combination@);
                    lemma_sweep_sequences_members(elements.len(), lengths, replacement, done);
                    lemma_candidates_step(elements, all, done, *evaluate, *admissible);
                }
                match assess(combination, evaluate, admissible, Ghost(elements), Ghost(lengths)) {
                    Some(entry) => {
                        gathered.push(entry);
                    },
                    None => {},
                }
                proof {
                    assert forall|i: int| 0 <= i < done implies all.take(done + 1)[i] == all.take(
                        done,
                    )[i] by {}
                    done = done + 1;
                }
            },
            Ok(None) => {
                proof {
                    assert(all.take(done) =~= all);
                    lemma_ranked(gathered@);
                    lemma_ranked(entry_views(gathered@));
                    lemma_relabelled_ranked(gathered@, |combination: Vec<&'a T>| combination@);
                }
                return Ok(rank(gathered));
            },
            Err(reason) => {
                return Err(reason);
            },
        }
    }
}

/// The best `capacity` of the combinations of `pool` of the `sizes` asked for
/// that `admissible` lets pass, each with its score under `evaluate`, best
/// first: what `search` gives, cut off after `capacity` entries. Never more
/// than `capacity` entries are held.
pub fn search_bounded<
    'a,
    T,
    S: PartialOrd,
    E: Fn(&Vec<&'a T>) -> S,
    A: Fn(&Vec<&'a T>) -> bool,
>(
    pool: Vec<&'a T>,
    sizes: Vec<usize>,
    replacement: bool,
    evaluate: &E,
    admissible: &A,
    capacity: usize,
) -> (outcome: Result<Vec<(S, Vec<&'a T>)>, InvalidArgument>)
    requires
        totally_ordered::<S>(),
        accepts(*admissible, pool@, sizes@),
        functional(*admissible),
        accepts_admitted(*evaluate, *admissible, pool@, sizes@),
        functional(*evaluate),
    ensures
        outcome is Err <==> sweep_fails(pool@.len(), sizes@, replacement),
        outcome matches Err(reason) ==> reason == size_error(replacement),
        outcome matches Ok(found) ==> {
            &&& entry_views(found@) == top(
                full_ranking(pool@, sizes@, replacement, *evaluate, *admissible),
                capacity as nat,
            )
            &&& is_ranking(found@)
            &&& found@.len() <= capacity
            &&& observed(
                pool@,
                sweep_sequences(pool@.len(), sizes@, replacement),
                *evaluate,
                *admissible,
            )
        },
{
    let ghost elements = pool@;
    let ghost lengths = sizes@;
    let ghost all = sweep_sequences(elements.len(), lengths, replacement);
    let ghost view = |combination: Vec<&'a T>| combination@;
    let mut sweep = combination_range(pool, sizes, replacement);
    let mut best: ResultSet<S, Vec<&'a T>> = ResultSet::new(capacity);
    let ghost mut done: int = 0;
    loop
        invariant
            totally_ordered::<S>(),
            accepts(*admissible, elements, lengths),
            functional(*admissible),
            accepts_admitted(*evaluate, *admissible, elements, lengths),
            functional(*evaluate),
            elements == pool@,
            lengths == sizes@,
            all == sweep_sequences(elements.len(), lengths, replacement),
            view == |combination: Vec<&'a T>| combination@,
            sweep.wf(),
            sweep.pool() == elements,
            sweep.replacement() == replacement,
            sweep.fails() == sweep_fails(elements.len(), lengths, replacement),
            0 <= done <= all.len(),
            sweep.upcoming() == all.skip(done),
            observed(elements, all.take(done), *evaluate, *admissible),
            best.wf(),
            best.capacity() == capacity,
            relabelled(best.entries(), view) == top(
                ranked(candidates(elements, all.take(done), *evaluate, *admissible)),
                capacity as nat,
            ),
        decreases all.len() - done,
    {
        match sweep.next() {
            Ok(Some(combination)) => {
                proof {
                    lemma_selects_picked(elements, all[done], combination@);
                    lemma_sweep_sequences_members(elements.len(), lengths, replacement, done);
                    lemma_candidates_step(elements, all, done, *evaluate, *admissible);
                }
                let ghost held = best.entries();
                let ghost earlier = candidates(elements, all.take(done), *evaluate, *admissible);
                match assess(combination, evaluate, admissible, Ghost(elements), Ghost(lengths)) {
                    Some(entry) => {
                        proof {
                            lemma_relabelled_top(inserted(held, entry), view, capacity as nat);
                            lemma_relabelled_inserted(held, entry, view);
                            lemma_ranked(earlier);
                            lemma_top_inserted(
                                ranked(earlier),
                                (entry.0, entry.1@),
                                capacity as nat,
                            );
                            assert(earlier.push((entry.0, entry.1@)).drop_last() =~= earlier);
                        }
                        best.offer(entry.0, entry.1);
                    },
                    None => {},
                }
                proof {
                    assert forall|i: int| 0 <= i < done implies all.take(done + 1)[i] == all.take(
                        done,
                    )[i] by {}
                    done = done + 1;
                }
            },
            Ok(None) => {
                proof {
                    assert(all.take(done) =~= all);
                }
                return Ok(best.into_entries());
            },
            Err(reason) => {
                return Err(reason);
            },
        }
    }
}

/// The element, taken alone, changes what `evaluate` gives for nothing taken.
pub open spec fn influences<'a, T, R: PartialEq, F: Fn(&Vec<&'a T>) -> R>(
    evaluate: F,
    element: &'a T,
) -> bool {
    !value(evaluate, Seq::<&'a T>::empty()).eq_spec(&value(evaluate, seq![element]))
}

/// The test by which a pool is pruned: `influences`, as a predicate on the
/// elements.
pub open spec fn influence<'a, T, R: PartialEq, F: Fn(&Vec<&'a T>) -> R>(
    evaluate: F,
) -> spec_fn(&'a T) -> bool {
    |element: &'a T| influences(evaluate, element)
}

/// Whether `element`, taken alone, changes what `evaluate` gives for nothing
/// taken.
///
/// An element that does not is left out of a pool before a search, on the
/// assumption that what an element adds to the evaluation does not depend on
/// the elements beside it. Nothing checks that assumption: it is for the
/// caller to know of the evaluation.
pub fn influences_unconditionally<'a, T, R: PartialEq, F: Fn(&Vec<&'a T>) -> R>(
    element: &'a T,
    evaluate: &F,
) -> (changes: bool)
    requires
        R::obeys_eq_spec(),
        accepts_alone(*evaluate, element),
        functional(*evaluate),
    ensures
        changes == influences(*evaluate, element),
        may_return(*evaluate, Seq::<&'a T>::empty(), value(*evaluate, Seq::<&'a T>::empty())),
        may_return(*evaluate, seq![element], value(*evaluate, seq![element])),
{
    let nothing: Vec<&'a T> = Vec::new();
    let mut alone: Vec<&'a T> = Vec::new();
    alone.push(element);
    let without = evaluate(&nothing);
    let with = evaluate(&alone);
    proof {
        lemma_value(*evaluate, nothing, without);
        lemma_value(*evaluate, alone, with);
    }
    without != with
}

/// The pruning has called `evaluate` on nothing and on each element of `pool`
/// alone: `value` says what it returned.
pub open spec fn tried<'a, T, R, F: Fn(&Vec<&'a T>) -> R>(evaluate: F, pool: Seq<&'a T>) -> bool {
    forall|i: int|
        0 <= i < pool.len() ==> {
            &&& may_return(
                evaluate,
                Seq::<&'a T>::empty(),
                value(evaluate, Seq::<&'a T>::empty()),
            )
            &&& may_return(evaluate, seq![#[trigger] pool[i]], value(evaluate, seq![pool[i]]))
        }
}

/// The elements of `pool` that, taken alone, change what `evaluate` gives for
/// nothing taken, in their order.
pub fn prune<'a, T, R: PartialEq, F: Fn(&Vec<&'a T>) -> R>(
    pool: Vec<&'a T>,
    evaluate: &F,
) -> (kept: Vec<&'a T>)
    requires
        R::obeys_eq_spec(),
        forall|i: int| 0 <= i < pool@.len() ==> accepts_alone(*evaluate, #[trigger] pool@[i]),
        functional(*evaluate),
    ensures
        kept@ == pool@.filter(influence(*evaluate)),
        tried(*evaluate, pool@),
{
    let mut kept: Vec<&'a T> = Vec::new();
    let mut i: usize = 0;
    proof {
        reveal(Seq::filter);
    }
    while i < pool.len()
        invariant
            R::obeys_eq_spec(),
            forall|i: int| 0 <= i < pool@.len() ==> accepts_alone(*evaluate, #[trigger] pool@[i]),
            functional(*evaluate),
            i <= pool@.len(),
            kept@ == pool@.take(i as int).filter(influence(*evaluate)),
            tried(*evaluate, pool@.take(i as int)),
        decreases pool@.len() - i,
    {
        let element: &'a T = pool[i];
        proof {
            reveal(Seq::filter);
            assert(pool@.take(i + 1).drop_last() =~= pool@.take(i as int));
        }
        if influences_unconditionally(element, evaluate) {
            kept.push(element);
        }
        assert forall|j: int| 0 <= j < i implies pool@.take(i + 1)[j] == pool@.take(
            i as int,
        )[j] by {}
        i += 1;
    }
    proof {
        assert(pool@.take(i as int) =~= pool@);
    }
    kept
}

/// The combinations that `sequences` pick from `pool`, each with its score
/// under `evaluate`, in the order of `sequences`.
pub open spec fn scored<'a, T, S, E: Fn(&Vec<&'a T>) -> S>(
    pool: Seq<&'a T>,
    sequences: Seq<Seq<int>>,
    evaluate: E,
) -> Seq<(S, Seq<&'a T>)> {
    Seq::new(
        sequences.len(),
        |i: int| (value(evaluate, picked(pool, sequences[i])), picked(pool, sequences[i])),
    )
}

/// Under a filter that lets everything pass, every combination is a candidate.
pub proof fn lemma_candidates_unfiltered<
    'a,
    T,
    S,
    E: Fn(&Vec<&'a T>) -> S,
    A: Fn(&Vec<&'a T>) -> bool,
>(pool: Seq<&'a T>, sequences: Seq<Seq<int>>, evaluate: E, admissible: A)
    requires
        forall|elements: Seq<&'a T>| admits(admissible, elements),
    ensures
        candidates(pool, sequences, evaluate, admissible) == scored(pool, sequences, evaluate),
    decreases sequences.len(),
{
    if sequences.len() > 0 {
        lemma_candidates_unfiltered(pool, sequences.drop_last(), evaluate, admissible);
    }
}

/// All combinations of the sizes asked for of those elements of `pool` that,
/// taken alone, change what `evaluate` gives for nothing taken; each
/// combination with its score under `evaluate`, best first.
///
/// The pool is pruned once, before any combination is generated. See
/// `influences_unconditionally` for what the caller has to know of the
/// evaluation.
pub fn search_pruned<'a, T, S: PartialOrd, E: Fn(&Vec<&'a T>) -> S>(
    pool: Vec<&'a T>,
    sizes: Vec<usize>,
    replacement: bool,
    evaluate: &E,
) -> (outcome: Result<Vec<(S, Vec<&'a T>)>, InvalidArgument>)
    requires
        totally_ordered::<S>(),
        S::obeys_eq_spec(),
        forall|i: int| 0 <= i < pool@.len() ==> accepts_alone(*evaluate, #[trigger] pool@[i]),
        accepts(*evaluate, pool@, sizes@),
        functional(*evaluate),
    ensures
        outcome is Err <==> sweep_fails(
            pool@.filter(influence(*evaluate)).len(),
            sizes@,
            replacement,
        ),
        outcome matches Err(reason) ==> reason == size_error(replacement),
        outcome matches Ok(found) ==> {
            &&& entry_views(found@) == ranked(
                scored(
                    pool@.filter(influence(*evaluate)),
                    sweep_sequences(
                        pool@.filter(influence(*evaluate)).len(),
                        sizes@,
                        replacement,
                    ),
                    *evaluate,
                ),
            )
            &&& is_ranking(found@)
            &&& tried(*evaluate, pool@)
            &&& forall|i: int|
                0 <= i < sweep_sequences(
                    pool@.filter(influence(*evaluate)).len(),
                    sizes@,
                    replacement,
                ).len() ==> may_return(
                    *evaluate,
                    picked(
                        pool@.filter(influence(*evaluate)),
                        #[trigger] sweep_sequences(
                            pool@.filter(influence(*evaluate)).len(),
                            sizes@,
                            replacement,
                        )[i],
                    ),
                    value(
                        *evaluate,
                        picked(
                            pool@.filter(influence(*evaluate)),
                            sweep_sequences(
                                pool@.filter(influence(*evaluate)).len(),
                                sizes@,
                                replacement,
                            )[i],
                        ),
                    ),
                )
        },
{
    let kept = prune(pool, evaluate);
    let admit_all = |combination: &Vec<&'a T>| -> (admitted: bool)
        ensures
            admitted,
        { true };
    proof {
        assert forall|c: Vec<&'a T>| in_scope(c@, kept@, sizes@) implies in_scope(
            c@,
            pool@,
            sizes@,
        ) by {
            assert forall|j: int| 0 <= j < c@.len() implies pool@.contains(#[trigger] c@[j]) by {
                pool@.lemma_filter_contains_rev(influence(*evaluate), c@[j]);
            }
        }
        lemma_candidates_unfiltered(
            kept@,
            sweep_sequences(kept@.len(), sizes@, replacement),
            *evaluate,
            admit_all,
        );
    }
    search(kept, sizes, replacement, evaluate, &admit_all)
}

/// Where at least `capacity` combinations are candidates, the bounded search
/// gives exactly the first `capacity` entries of what the full search gives
/// on the same arguments.
pub proof fn lemma_bounded_matches_full<
    'a,
    T,
    S: PartialOrd,
    E: Fn(&Vec<&'a T>) -> S,
    A: Fn(&Vec<&'a T>) -> bool,
>(
    full: Seq<(S, Vec<&'a T>)>,
    bounded: Seq<(S, Vec<&'a T>)>,
    pool: Seq<&'a T>,
    sizes: Seq<usize>,
    replacement: bool,
    evaluate: E,
    admissible: A,
    capacity: nat,
)
    requires
        entry_views(full) == full_ranking(pool, sizes, replacement, evaluate, admissible),
        entry_views(bounded) == top(
            full_ranking(pool, sizes, replacement, evaluate, admissible),
            capacity,
        ),
        capacity <= full.len(),
    ensures
        bounded.len() == capacity,
        entry_views(bounded) == entry_views(full).take(capacity as int),
        forall|i: int|
            0 <= i < capacity ==> (#[trigger] bounded[i]).0 == full[i].0 && bounded[i].1@
                == full[i].1@,
{
    assert(entry_views(bounded).len() == bounded.len());
    assert forall|i: int| 0 <= i < capacity implies (#[trigger] bounded[i]).0 == full[i].0
        && bounded[i].1@ == full[i].1@ by {
        assert(entry_views(bounded)[i] == entry_views(full)[i]);
    }
}

/// A search on the same arguments gives the same: the same scores for the
/// same combinations in the same order.
pub proof fn lemma_search_deterministic<
    'a,
    T,
    S: PartialOrd,
    E: Fn(&Vec<&'a T>) -> S,
    A: Fn(&Vec<&'a T>) -> bool,
>(
    once: Seq<(S, Vec<&'a T>)>,
    again: Seq<(S, Vec<&'a T>)>,
    pool: Seq<&'a T>,
    sizes: Seq<usize>,
    replacement: bool,
    evaluate: E,
    admissible: A,
)
    requires
        entry_views(once) == full_ranking(pool, sizes, replacement, evaluate, admissible),
        entry_views(again) == full_ranking(pool, sizes, replacement, evaluate, admissible),
    ensures
        once.len() == again.len(),
        forall|i: int|
            0 <= i < once.len() ==> (#[trigger] once[i]).0 == again[i].0 && once[i].1@
                == again[i].1@,
{
    assert(entry_views(once).len() == once.len());
    assert forall|i: int| 0 <= i < once.len() implies (#[trigger] once[i]).0 == again[i].0
        && once[i].1@ == again[i].1@ by {
        assert(entry_views(once)[i] == entry_views(again)[i]);
    }
}

} // verus!
