//! What holds of training, pruning and classification together.

use vstd::prelude::*;
use crate::model::{decision, model_of, pruned, total_of, words_with};
use crate::token::Digraph;

verus! {

/// Pruning twice removes nothing more than pruning once.
pub proof fn lemma_prune_idempotent(m: Map<Digraph, (nat, nat)>)
    ensures
        pruned(pruned(m)) == pruned(m),
{
    assert(pruned(pruned(m)) =~= pruned(m));
}

/// A bigram that exactly one training word holds, over both languages, is
/// gone from the pruned table.
pub proof fn lemma_single_sighting_pruned(crk: Seq<Seq<char>>, eng: Seq<Seq<char>>, x: Digraph)
    requires
        words_with(crk, x) + words_with(eng, x) == 1,
    ensures
        !model_of(crk, eng).contains_key(x),
{
}

/// A bigram that two or more training words hold stays in the pruned table,
/// with the number of words of each language that hold it, and their sum as
/// its total.
pub proof fn lemma_repeated_sighting_kept(crk: Seq<Seq<char>>, eng: Seq<Seq<char>>, x: Digraph)
    requires
        words_with(crk, x) + words_with(eng, x) >= 2,
    ensures
        model_of(crk, eng).contains_key(x),
        model_of(crk, eng)[x] == (words_with(crk, x), words_with(eng, x)),
        total_of(model_of(crk, eng)[x]) == words_with(crk, x) + words_with(eng, x),
{
}

/// The same training words and the same query give the same language.
pub proof fn lemma_classify_deterministic(
    crk1: Seq<Seq<char>>,
    eng1: Seq<Seq<char>>,
    w1: Seq<char>,
    crk2: Seq<Seq<char>>,
    eng2: Seq<Seq<char>>,
    w2: Seq<char>,
)
    requires
        crk1 == crk2,
        eng1 == eng2,
        w1 == w2,
    ensures
        decision(model_of(crk1, eng1), w1) == decision(model_of(crk2, eng2), w2),
{
}

} // verus!
