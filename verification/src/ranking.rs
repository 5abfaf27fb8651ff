//! Rankings: sequences of scored entries in descending order of score.
//!
//! An entry is a pair of a score and whatever the score was given to. Entries
//! of equal score keep the order in which they arrived.

use vstd::prelude::*;
use vstd::std_specs::cmp::PartialOrdSpec;
use vstd::seq_lib::{to_multiset_build, to_multiset_remove};
use core::cmp::Ordering;

verus! {

/// `a` is a strictly worse score than `b`.
pub open spec fn below<S: PartialOrd>(a: S, b: S) -> bool {
    a.partial_cmp_spec(&b) == Some(Ordering::Less)
}

/// The scores of type `S` are totally ordered: any two can be compared, `<`
/// computes the comparison, and different scores may rank equal.
#[verifier::opaque]
pub open spec fn totally_ordered<S: PartialOrd>() -> bool {
    &&& S::obeys_partial_cmp_spec()
    &&& forall|a: S, b: S| #[trigger] a.partial_cmp_spec(&b) is Some
    &&& forall|a: S, b: S| #[trigger] below(a, b) ==> !below(b, a)
    &&& forall|a: S, b: S, c: S| #[trigger] below(a, b) && #[trigger] below(b, c) ==> below(a, c)
    &&& forall|a: S, b: S, c: S|
        !#[trigger] below(a, b) && !#[trigger] below(b, c) ==> !below(a, c)
}

/// Of two scores in order the second is not below the first.
pub proof fn lemma_below_asymmetric<S: PartialOrd>(a: S, b: S)
    requires
        totally_ordered::<S>(),
        below(a, b),
    ensures
        !below(b, a),
{
    reveal(totally_ordered);
}

/// Being below is transitive.
pub proof fn lemma_below_transitive<S: PartialOrd>(a: S, b: S, c: S)
    requires
        totally_ordered::<S>(),
        below(a, b),
        below(b, c),
    ensures
        below(a, c),
{
    reveal(totally_ordered);
}

/// Being at least as good is transitive.
pub proof fn lemma_not_below_transitive<S: PartialOrd>(a: S, b: S, c: S)
    requires
        totally_ordered::<S>(),
        !below(a, b),
        !below(b, c),
    ensures
        !below(a, c),
{
    reveal(totally_ordered);
}

/// The integers are totally ordered, under each of their types.
pub proof fn lemma_integers_totally_ordered()
    ensures
        totally_ordered::<u8>(),
        totally_ordered::<u16>(),
        totally_ordered::<u32>(),
        totally_ordered::<u64>(),
        totally_ordered::<u128>(),
        totally_ordered::<usize>(),
        totally_ordered::<i8>(),
        totally_ordered::<i16>(),
        totally_ordered::<i32>(),
        totally_ordered::<i64>(),
        totally_ordered::<i128>(),
        totally_ordered::<isize>(),
{
    reveal(totally_ordered);
}

/// Whether `a` is a strictly worse score than `b`.
fn ranks_below<S: PartialOrd>(a: &S, b: &S) -> (worse: bool)
    requires
        totally_ordered::<S>(),
    ensures
        worse == below(*a, *b),
{
    proof {
        reveal(totally_ordered);
    }
    *a < *b
}

/// The entries are in descending order of score.
pub open spec fn is_ranking<S: PartialOrd, C>(entries: Seq<(S, C)>) -> bool {
    forall|i: int, j: int|
        0 <= i < j < entries.len() ==> !below(#[trigger] entries[i].0, #[trigger] entries[j].0)
}

/// The place of a new entry with `score` in `ranking`: behind every entry that
/// it does not beat. It is found from the end: the entries that the score
/// beats are passed over, up to the first that it does not beat.
pub open spec fn rank_of<S: PartialOrd, C>(ranking: Seq<(S, C)>, score: S) -> nat
    decreases ranking.len(),
{
    if ranking.len() == 0 {
        0
    } else if below(ranking.last().0, score) {
        rank_of(ranking.drop_last(), score)
    } else {
        ranking.len()
    }
}

/// `ranking` with `entry` put at its place.
pub open spec fn inserted<S: PartialOrd, C>(ranking: Seq<(S, C)>, entry: (S, C)) -> Seq<(S, C)> {
    ranking.insert(rank_of(ranking, entry.0) as int, entry)
}

/// The ranking of `entries`: the same entries in descending order of score,
/// those of equal score in the order in which they stand in `entries`. It is
/// built by putting one entry after the other at its place.
pub open spec fn ranked<S: PartialOrd, C>(entries: Seq<(S, C)>) -> Seq<(S, C)>
    decreases entries.len(),
{
    if entries.len() == 0 {
        Seq::empty()
    } else {
        inserted(ranked(entries.drop_last()), entries.last())
    }
}

/// The best `capacity` entries of `ranking`, or all where there are fewer.
pub open spec fn top<S, C>(ranking: Seq<(S, C)>, capacity: nat) -> Seq<(S, C)> {
    if ranking.len() <= capacity {
        ranking
    } else {
        ranking.take(capacity as int)
    }
}

/// The entries with `f` applied to what the scores were given to.
pub open spec fn relabelled<S, C, D>(entries: Seq<(S, C)>, f: spec_fn(C) -> D) -> Seq<(S, D)> {
    entries.map_values(|entry: (S, C)| (entry.0, f(entry.1)))
}

/// The place of a score in a ranking parts the entries that it does not beat
/// from those that it beats.
pub proof fn lemma_rank_of<S: PartialOrd, C>(ranking: Seq<(S, C)>, score: S)
    requires
        totally_ordered::<S>(),
        is_ranking(ranking),
    ensures
        rank_of(ranking, score) <= ranking.len(),
        forall|i: int|
            0 <= i < rank_of(ranking, score) ==> !below(#[trigger] ranking[i].0, score),
        forall|i: int|
            rank_of(ranking, score) <= i < ranking.len() ==> below(#[trigger] ranking[i].0, score),
    decreases ranking.len(),
{
    if ranking.len() > 0 {
        let front = ranking.drop_last();
        if below(ranking.last().0, score) {
            assert(is_ranking(front)) by {
                assert forall|i: int, j: int| 0 <= i < j < front.len() implies !below(
                    #[trigger] front[i].0,
                    #[trigger] front[j].0,
                ) by {}
            }
            lemma_rank_of(front, score);
            assert forall|i: int| 0 <= i < rank_of(ranking, score) implies !below(
                #[trigger] ranking[i].0,
                score,
            ) by {
                assert(ranking[i] == front[i]);
            }
            assert forall|i: int| rank_of(ranking, score) <= i < ranking.len() implies below(
                #[trigger] ranking[i].0,
                score,
            ) by {
                if i < front.len() {
                    assert(ranking[i] == front[i]);
                }
            }
        } else {
            assert forall|i: int| 0 <= i < ranking.len() implies !below(
                #[trigger] ranking[i].0,
                score,
            ) by {
                if i < ranking.len() - 1 {
                    lemma_not_below_transitive(ranking[i].0, ranking.last().0, score);
                }
            }
        }
    }
}

/// The place of a score is the only position that parts a ranking so.
pub proof fn lemma_rank_of_unique<S: PartialOrd, C>(ranking: Seq<(S, C)>, score: S, place: int)
    requires
        totally_ordered::<S>(),
        0 <= place <= ranking.len(),
        forall|i: int| 0 <= i < place ==> !below(#[trigger] ranking[i].0, score),
        forall|i: int| place <= i < ranking.len() ==> below(#[trigger] ranking[i].0, score),
    ensures
        rank_of(ranking, score) == place,
    decreases ranking.len(),
{
    if ranking.len() > 0 {
        let front = ranking.drop_last();
        if below(ranking.last().0, score) {
            assert forall|i: int| 0 <= i < place implies !below(#[trigger] front[i].0, score) by {}
            assert forall|i: int| place <= i < front.len() implies below(
                #[trigger] front[i].0,
                score,
            ) by {}
            lemma_rank_of_unique(front, score, place);
        }
    }
}

/// A ranking with an entry put at its place is a ranking.
pub proof fn lemma_inserted_is_ranking<S: PartialOrd, C>(ranking: Seq<(S, C)>, entry: (S, C))
    requires
        totally_ordered::<S>(),
        is_ranking(ranking),
    ensures
        is_ranking(inserted(ranking, entry)),
        inserted(ranking, entry).len() == ranking.len() + 1,
        inserted(ranking, entry).to_multiset() == ranking.to_multiset().insert(entry),
{
    lemma_rank_of(ranking, entry.0);
    let place = rank_of(ranking, entry.0) as int;
    let longer = inserted(ranking, entry);
    assert forall|i: int, j: int| 0 <= i < j < longer.len() implies !below(
        #[trigger] longer[i].0,
        #[trigger] longer[j].0,
    ) by {
        if i == place {
            lemma_below_asymmetric(ranking[j - 1].0, entry.0);
        }
    }
    assert(longer.remove(place) =~= ranking);
    to_multiset_remove(longer, place);
    assert(longer.to_multiset().count(entry) > 0) by {
        longer.to_multiset_ensures();
    }
}

/// The ranking of some entries holds the same entries, each as often, in
/// descending order of score.
pub proof fn lemma_ranked<S: PartialOrd, C>(entries: Seq<(S, C)>)
    requires
        totally_ordered::<S>(),
    ensures
        is_ranking(ranked(entries)),
        ranked(entries).len() == entries.len(),
        ranked(entries).to_multiset() == entries.to_multiset(),
    decreases entries.len(),
{
    if entries.len() == 0 {
        assert(entries =~= Seq::empty());
    } else {
        lemma_ranked(entries.drop_last());
        lemma_inserted_is_ranking(ranked(entries.drop_last()), entries.last());
        to_multiset_build(entries.drop_last(), entries.last());
        assert(entries.drop_last().push(entries.last()) =~= entries);
    }
}

/// The scores rank equal: neither is below the other.
pub open spec fn ties<S: PartialOrd>(a: S, b: S) -> bool {
    !below(a, b) && !below(b, a)
}

/// The test for a score that ranks equal to `score`, as a predicate on entries.
pub open spec fn tying<S: PartialOrd, C>(score: S) -> spec_fn((S, C)) -> bool {
    |entry: (S, C)| ties(entry.0, score)
}

/// A ranking is stable: the entries that rank equal to a score stand in it as
/// they stand in the entries ranked.
pub proof fn lemma_ranked_stable<S: PartialOrd, C>(entries: Seq<(S, C)>, score: S)
    requires
        totally_ordered::<S>(),
    ensures
        ranked(entries).filter(tying(score)) == entries.filter(tying(score)),
    decreases entries.len(),
{
    reveal(Seq::filter);
    if entries.len() > 0 {
        let rest = entries.drop_last();
        let entry = entries.last();
        let ranking = ranked(rest);
        lemma_ranked_stable(rest, score);
        lemma_ranked(rest);
        lemma_rank_of(ranking, entry.0);
        let place = rank_of(ranking, entry.0) as int;
        let before = ranking.take(place);
        let after = ranking.skip(place);
        assert(ranking =~= before + after);
        assert(inserted(ranking, entry) =~= before + seq![entry] + after);
        Seq::filter_distributes_over_add(before, after, tying(score));
        Seq::filter_distributes_over_add(before + seq![entry], after, tying(score));
        Seq::filter_distributes_over_add(before, seq![entry], tying(score));
        assert(seq![entry].drop_last() =~= Seq::<(S, C)>::empty());
        assert(Seq::<(S, C)>::empty().filter(tying(score)) =~= Seq::<(S, C)>::empty());
        if ties(entry.0, score) {
            assert forall|i: int| 0 <= i < after.len() implies !tying::<S, C>(score)(
                #[trigger] after[i],
            ) by {
                if !below(after[i].0, score) {
                    lemma_not_below_transitive(after[i].0, score, entry.0);
                }
            }
            after.lemma_all_neg_filter_empty(tying(score));
        }
    }
}

/// To keep the best entries only, all along, loses nothing: the best of a
/// ranking with a new entry are the best of what the new entry gives when it
/// is put among the best of the ranking.
pub proof fn lemma_top_inserted<S: PartialOrd, C>(
    ranking: Seq<(S, C)>,
    entry: (S, C),
    capacity: nat,
)
    requires
        totally_ordered::<S>(),
        is_ranking(ranking),
    ensures
        top(inserted(top(ranking, capacity), entry), capacity) == top(
            inserted(ranking, entry),
            capacity,
        ),
{
    if ranking.len() > capacity {
        let best = ranking.take(capacity as int);
        lemma_rank_of(ranking, entry.0);
        let place = rank_of(ranking, entry.0) as int;
        let limited = if place < capacity { place } else { capacity as int };
        assert forall|i: int| 0 <= i < limited implies !below(#[trigger] best[i].0, entry.0) by {}
        assert forall|i: int| limited <= i < best.len() implies below(
            #[trigger] best[i].0,
            entry.0,
        ) by {}
        lemma_rank_of_unique(best, entry.0, limited);
    }
}

/// What a set of `capacity` holds after the `entries` were offered to it one
/// after the other: each is put among those held, and what is beyond the
/// capacity leaves.
pub open spec fn kept<S: PartialOrd, C>(entries: Seq<(S, C)>, capacity: nat) -> Seq<(S, C)>
    decreases entries.len(),
{
    if entries.len() == 0 {
        Seq::empty()
    } else {
        top(inserted(kept(entries.drop_last(), capacity), entries.last()), capacity)
    }
}

/// A set of bounded capacity never holds more than its capacity, and ends up
/// with exactly the best of all that was offered to it: the head of their
/// ranking.
pub proof fn lemma_kept_is_top_of_ranked<S: PartialOrd, C>(entries: Seq<(S, C)>, capacity: nat)
    requires
        totally_ordered::<S>(),
    ensures
        kept(entries, capacity).len() <= capacity,
        kept(entries, capacity) == top(ranked(entries), capacity),
    decreases entries.len(),
{
    if entries.len() > 0 {
        lemma_kept_is_top_of_ranked(entries.drop_last(), capacity);
        lemma_ranked(entries.drop_last());
        lemma_top_inserted(ranked(entries.drop_last()), entries.last(), capacity);
    }
}

/// What the best of a ranking are does not depend on what the scores were
/// given to.
pub proof fn lemma_relabelled_top<S: PartialOrd, C, D>(
    ranking: Seq<(S, C)>,
    f: spec_fn(C) -> D,
    capacity: nat,
)
    ensures
        relabelled(top(ranking, capacity), f) == top(relabelled(ranking, f), capacity),
{
}

/// Where an entry goes does not depend on what the scores were given to.
pub proof fn lemma_relabelled_inserted<S: PartialOrd, C, D>(
    ranking: Seq<(S, C)>,
    entry: (S, C),
    f: spec_fn(C) -> D,
)
    ensures
        rank_of(relabelled(ranking, f), entry.0) == rank_of(ranking, entry.0),
        relabelled(inserted(ranking, entry), f) == inserted(
            relabelled(ranking, f),
            (entry.0, f(entry.1)),
        ),
    decreases ranking.len(),
{
    if ranking.len() > 0 {
        lemma_relabelled_inserted(ranking.drop_last(), entry, f);
        assert(relabelled(ranking, f).drop_last() =~= relabelled(ranking.drop_last(), f));
    }
    lemma_rank_of_bound(ranking, entry.0);
}

/// The place of a score lies within the ranking or at its end.
pub proof fn lemma_rank_of_bound<S: PartialOrd, C>(ranking: Seq<(S, C)>, score: S)
    ensures
        rank_of(ranking, score) <= ranking.len(),
    decreases ranking.len(),
{
    if ranking.len() > 0 {
        lemma_rank_of_bound(ranking.drop_last(), score);
    }
}

/// A ranking does not depend on what the scores were given to.
pub proof fn lemma_relabelled_ranked<S: PartialOrd, C, D>(entries: Seq<(S, C)>, f: spec_fn(C) -> D)
    ensures
        relabelled(ranked(entries), f) == ranked(relabelled(entries, f)),
    decreases entries.len(),
{
    if entries.len() > 0 {
        lemma_relabelled_ranked(entries.drop_last(), f);
        lemma_relabelled_inserted(ranked(entries.drop_last()), entries.last(), f);
        assert(relabelled(entries, f).drop_last() =~= relabelled(entries.drop_last(), f));
    }
}

/// Two rankings in one: the entries of both in descending order of score,
/// where scores are equal those of `left` before those of `right`. It is built
/// from the end, where the worst entries stand.
pub open spec fn merged<S: PartialOrd, C>(left: Seq<(S, C)>, right: Seq<(S, C)>) -> Seq<(S, C)>
    decreases left.len() + right.len(),
{
    if left.len() == 0 {
        right
    } else if right.len() == 0 {
        left
    } else if below(left.last().0, right.last().0) {
        merged(left.drop_last(), right).push(left.last())
    } else {
        merged(left, right.drop_last()).push(right.last())
    }
}

/// An entry goes behind the last entry of a ranking or is put among those
/// before it.
pub proof fn lemma_inserted_unfold<S: PartialOrd, C>(ranking: Seq<(S, C)>, entry: (S, C))
    requires
        ranking.len() > 0,
    ensures
        below(ranking.last().0, entry.0) ==> inserted(ranking, entry) == inserted(
            ranking.drop_last(),
            entry,
        ).push(ranking.last()),
        !below(ranking.last().0, entry.0) ==> inserted(ranking, entry) == ranking.push(entry),
{
    lemma_rank_of_bound(ranking.drop_last(), entry.0);
}

/// To put an entry into two rankings in one is to put it into the second.
pub proof fn lemma_inserted_merged<S: PartialOrd, C>(
    left: Seq<(S, C)>,
    right: Seq<(S, C)>,
    entry: (S, C),
)
    requires
        totally_ordered::<S>(),
    ensures
        inserted(merged(left, right), entry) == merged(left, inserted(right, entry)),
    decreases left.len() + right.len(),
{
    let both = merged(left, right);
    let grown = inserted(right, entry);
    if left.len() == 0 {
        // Nothing is merged in: both sides are the second ranking with the entry.
    } else if right.len() == 0 {
        assert(grown.drop_last() =~= right);
        lemma_inserted_unfold(left, entry);
        if below(left.last().0, entry.0) {
            lemma_inserted_merged(left.drop_last(), right, entry);
        }
    } else {
        lemma_inserted_unfold(right, entry);
        if below(left.last().0, right.last().0) {
            let rest = merged(left.drop_last(), right);
            assert(both.drop_last() =~= rest);
            lemma_inserted_unfold(both, entry);
            if below(left.last().0, entry.0) {
                lemma_inserted_merged(left.drop_last(), right, entry);
            } else {
                if below(right.last().0, entry.0) {
                    lemma_below_transitive(left.last().0, right.last().0, entry.0);
                }
                assert(grown.drop_last() =~= right);
            }
        } else {
            let rest = merged(left, right.drop_last());
            assert(both.drop_last() =~= rest);
            lemma_inserted_unfold(both, entry);
            if below(right.last().0, entry.0) {
                lemma_inserted_merged(left, right.drop_last(), entry);
                let shorter = inserted(right.drop_last(), entry);
                assert(grown.drop_last() =~= shorter);
            } else {
                lemma_not_below_transitive(left.last().0, right.last().0, entry.0);
                assert(grown.drop_last() =~= right);
            }
        }
    }
}

/// The ranking of entries in two parts is the rankings of the parts in one.
pub proof fn lemma_ranked_concat<S: PartialOrd, C>(first: Seq<(S, C)>, second: Seq<(S, C)>)
    requires
        totally_ordered::<S>(),
    ensures
        ranked(first + second) == merged(ranked(first), ranked(second)),
    decreases second.len(),
{
    if second.len() > 0 {
        let all = first + second;
        assert(all.drop_last() =~= first + second.drop_last());
        lemma_ranked_concat(first, second.drop_last());
        lemma_inserted_merged(ranked(first), ranked(second.drop_last()), second.last());
    }
}

/// Two rankings in one, as a vector.
fn merge<S: PartialOrd, C>(left: Vec<(S, C)>, right: Vec<(S, C)>) -> (both: Vec<(S, C)>)
    requires
        totally_ordered::<S>(),
    ensures
        both@ == merged(left@, right@),
{
    let mut front = left;
    let mut back = right;
    let mut worst_first: Vec<(S, C)> = Vec::new();
    let ghost mut taken: Seq<(S, C)> = Seq::empty();
    while front.len() > 0 && back.len() > 0
        invariant
            totally_ordered::<S>(),
            merged(left@, right@) == merged(front@, back@) + taken,
            worst_first@.len() == taken.len(),
            forall|i: int|
                0 <= i < taken.len() ==> #[trigger] worst_first@[i] == taken[taken.len() - 1 - i],
        decreases front@.len() + back@.len(),
    {
        let entry = if ranks_below(&front[front.len() - 1].0, &back[back.len() - 1].0) {
            front.pop()
        } else {
            back.pop()
        };
        proof {
            taken = seq![entry->0] + taken;
        }
        match entry {
            Some(entry) => {
                worst_first.push(entry);
            },
            None => {},
        }
        assert forall|i: int| 0 <= i < taken.len() implies #[trigger] worst_first@[i]
            == taken[taken.len() - 1 - i] by {}
    }
    front.append(&mut back);
    let ghost sorted_front = front@;
    while worst_first.len() > 0
        invariant
            worst_first@.len() <= taken.len(),
            front@ == sorted_front + taken.take(taken.len() - worst_first@.len()),
            forall|i: int|
                0 <= i < worst_first@.len() ==> #[trigger] worst_first@[i] == taken[taken.len() - 1
                    - i],
        decreases worst_first@.len(),
    {
        let entry = worst_first.pop();
        match entry {
            Some(entry) => {
                front.push(entry);
            },
            None => {},
        }
        assert forall|i: int| 0 <= i < worst_first@.len() implies #[trigger] worst_first@[i]
            == taken[taken.len() - 1 - i] by {}
    }
    front
}

/// The ranking of `entries`: the same entries in descending order of score,
/// those of equal score in the order in which they stand in `entries`.
pub fn rank<S: PartialOrd, C>(entries: Vec<(S, C)>) -> (ranking: Vec<(S, C)>)
    requires
        totally_ordered::<S>(),
    ensures
        ranking@ == ranked(entries@),
    decreases entries@.len(),
{
    let mut first = entries;
    if first.len() <= 1 {
        proof {
            if first@.len() == 1 {
                assert(ranked(first@.drop_last()) =~= Seq::empty());
            }
        }
        return first;
    }
    let half: usize = first.len() / 2;
    let second = first.split_off(half);
    proof {
        assert(entries@ =~= first@ + second@);
        lemma_ranked_concat(first@, second@);
    }
    let first_ranking = rank(first);
    let second_ranking = rank(second);
    merge(first_ranking, second_ranking)
}

/// A ranking that holds the best entries offered to it, up to a capacity.
pub struct ResultSet<S: PartialOrd, C> {
    entries: Vec<(S, C)>,
    capacity: usize,
}

impl<S: PartialOrd, C> ResultSet<S, C> {
    /// The entries held, best first.
    pub closed spec fn entries(&self) -> Seq<(S, C)> {
        self.entries@
    }

    /// The number of entries that the set holds at most.
    pub closed spec fn capacity(&self) -> nat {
        self.capacity as nat
    }

    /// The invariant of the set: no more entries than its capacity, in
    /// descending order of score.
    pub open spec fn wf(&self) -> bool {
        &&& self.entries().len() <= self.capacity()
        &&& is_ranking(self.entries())
    }

    /// An empty set that will hold up to `capacity` entries.
    pub fn new(capacity: usize) -> (set: ResultSet<S, C>)
        ensures
            set.wf(),
            set.capacity() == capacity,
            set.entries() == Seq::<(S, C)>::empty(),
    {
        ResultSet { entries: Vec::new(), capacity }
    }

    /// The number of entries held.
    pub fn len(&self) -> (length: usize)
        ensures
            length == self.entries().len(),
    {
        self.entries.len()
    }

    /// Offers an entry to the set. While the set is not full the entry is put
    /// at its place. Once it is full, an entry that beats the worst one held
    /// is put at its place and the worst one leaves; any other is dropped.
    pub fn offer(&mut self, score: S, item: C)
        requires
            totally_ordered::<S>(),
            old(self).wf(),
        ensures
            final(self).wf(),
            final(self).capacity() == old(self).capacity(),
            final(self).entries() == top(
                inserted(old(self).entries(), (score, item)),
                old(self).capacity(),
            ),
    {
        let length: usize = self.entries.len();
        let mut position: usize = length;
        while position > 0
            invariant
                totally_ordered::<S>(),
                position <= length == self.entries@.len(),
                self.entries@ == old(self).entries@,
                self.capacity == old(self).capacity,
                forall|i: int|
                    position <= i < length ==> below(#[trigger] self.entries@[i].0, score),
            ensures
                position == 0 || !below(self.entries@[position - 1].0, score),
            decreases position,
        {
            if !ranks_below(&self.entries[position - 1].0, &score) {
                break ;
            }
            position -= 1;
        }
        proof {
            let held = self.entries@;
            assert forall|i: int| 0 <= i < position implies !below(#[trigger] held[i].0, score) by {
                if i < position - 1 {
                    lemma_not_below_transitive(held[i].0, held[position - 1].0, score);
                }
            }
            lemma_rank_of_unique(held, score, position as int);
            lemma_inserted_is_ranking(held, (score, item));
        }
        let ghost longer = inserted(self.entries@, (score, item));
        if length >= self.capacity {
            if position < length {
                self.entries.pop();
                self.entries.insert(position, (score, item));
                assert(self.entries@ =~= longer.take(length as int));
            }
        } else {
            self.entries.insert(position, (score, item));
        }
        proof {
            assert forall|i: int, j: int| 0 <= i < j < self.entries@.len() implies !below(
                #[trigger] self.entries@[i].0,
                #[trigger] self.entries@[j].0,
            ) by {}
        }
    }

    /// The entries held, best first.
    pub fn into_entries(self) -> (entries: Vec<(S, C)>)
        ensures
            entries@ == self.entries(),
    {
        self.entries
    }
}

} // verus!
