//! Rules engine for two turn-based card games: a penalty-chain game
//! ("Bullying") and a trick-taking betting game ("Touping").
use vstd::multiset::Multiset;
use vstd::prelude::*;

pub mod data_structures;
pub mod framing;
mod random;

verus! {

broadcast use {vstd::seq_lib::group_to_multiset_ensures, vstd::multiset::group_multiset_axioms};

/// All the items held in the given vectors (the cards of all hands).
pub open spec fn hands_multiset<C>(hands: Seq<Vec<C>>) -> Multiset<C>
    decreases hands.len(),
{
    if hands.len() == 0 {
        Multiset::empty()
    } else {
        hands_multiset(hands.drop_last()).add(hands.last()@.to_multiset())
    }
}

pub proof fn lemma_hands_multiset_update<C>(hands: Seq<Vec<C>>, i: int, h: Vec<C>)
    requires
        0 <= i < hands.len(),
    ensures
        hands_multiset(hands.update(i, h)).add(hands[i]@.to_multiset()) == hands_multiset(
            hands,
        ).add(h@.to_multiset()),
    decreases hands.len(),
{
    let u = hands.update(i, h);
    assert(hands_multiset(u) == hands_multiset(u.drop_last()).add(u.last()@.to_multiset()));
    assert(hands_multiset(hands) == hands_multiset(hands.drop_last()).add(
        hands.last()@.to_multiset(),
    ));
    if i == hands.len() - 1 {
        assert(u.drop_last() == hands.drop_last());
        assert(u.last() == h);
        assert(hands.last() == hands[i]);
        let a = hands_multiset(hands.drop_last());
        assert(hands_multiset(u) == a.add(h@.to_multiset()));
        assert(hands_multiset(hands) == a.add(hands[i]@.to_multiset()));
        assert(hands_multiset(u).add(hands[i]@.to_multiset()) =~= hands_multiset(hands).add(
            h@.to_multiset(),
        ));
    } else {
        assert(u.drop_last() == hands.drop_last().update(i, h));
        assert(u.last() == hands.last());
        lemma_hands_multiset_update(hands.drop_last(), i, h);
        assert(hands.drop_last()[i] == hands[i]);
        let b = hands_multiset(hands.drop_last().update(i, h));
        let a = hands_multiset(hands.drop_last());
        let l = hands.last()@.to_multiset();
        assert(b.add(hands[i]@.to_multiset()) == a.add(h@.to_multiset()));
        assert(hands_multiset(u) == b.add(l));
        assert(hands_multiset(hands) == a.add(l));
        assert forall|x: C|
            #[trigger] hands_multiset(u).add(hands[i]@.to_multiset()).count(x) == hands_multiset(
                hands,
            ).add(h@.to_multiset()).count(x) by {
            assert(b.add(hands[i]@.to_multiset()).count(x) == a.add(h@.to_multiset()).count(x));
        }
        assert(hands_multiset(u).add(hands[i]@.to_multiset()) =~= hands_multiset(hands).add(
            h@.to_multiset(),
        ));
    }
}

/// Vectors that are all empty hold nothing.
pub proof fn lemma_hands_multiset_empty<C>(hands: Seq<Vec<C>>)
    requires
        forall|i: int| 0 <= i < hands.len() ==> #[trigger] hands[i]@.len() == 0,
    ensures
        hands_multiset(hands) == Multiset::<C>::empty(),
    decreases hands.len(),
{
    if hands.len() > 0 {
        lemma_hands_multiset_empty(hands.drop_last());
        assert(hands.last()@ == Seq::<C>::empty());
        assert(hands_multiset(hands) =~= Multiset::<C>::empty());
    }
}


/// True iff all the given vectors have one and the same length.
pub open spec fn same_lengths<T>(vs: Seq<Vec<T>>) -> bool {
    forall|i: int, j: int| 0 <= i < vs.len() && 0 <= j < vs.len() ==> vs[i].len() == vs[j].len()
}

/// Tells whether every vector of `vector` has the same length.
pub fn sub_vectors_are_same_length<T>(vector: &[Vec<T>]) -> (r: bool)
    ensures
        r == same_lengths(vector@),
{
    if vector.len() == 0 {
        return true;
    }
    let l = vector[0].len();
    let mut i: usize = 1;
    while i < vector.len()
        invariant
            1 <= i <= vector@.len(),
            l == vector@[0].len(),
            forall|k: int| 0 <= k < i ==> #[trigger] vector@[k].len() == l,
        decreases vector@.len() - i,
    {
        if vector[i].len() != l {
            return false;
        }
        i += 1;
    }
    true
}

} // verus!
