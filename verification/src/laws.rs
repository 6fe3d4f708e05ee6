use vstd::prelude::*;
use crate::rule::{Rule, StochasticSuccessor, total_weight, pick_index};
use crate::system::{
    first_match, sym_expansion, rewrites_to, generation_chain, det_generate, det_rewrite,
    lemma_first_match_is_first,
};

verus! {

/// A symbol no rule matches expands only to itself.
pub proof fn lemma_unmatched_symbol_identity(rules: Seq<Rule>, c: char, out: Seq<char>)
    requires
        first_match(rules, c) is None,
    ensures
        sym_expansion(rules, c, out) <==> out == seq![c],
{
}

/// Of two rules for the same predecessor, the later one is never selected.
pub proof fn lemma_later_duplicate_rule_dead(rules: Seq<Rule>, i: int, j: int)
    requires
        0 <= i < j < rules.len(),
        rules[i].spec_predecessor() == rules[j].spec_predecessor(),
    ensures
        first_match(rules, rules[j].spec_predecessor()) != Some(j),
{
    lemma_first_match_is_first(rules, rules[j].spec_predecessor());
}

/// One rewrite of the empty string is empty.
pub proof fn lemma_empty_string_rewrite(rules: Seq<Rule>, t: Seq<char>)
    requires
        rewrites_to(rules, Seq::<char>::empty(), t),
    ensures
        t == Seq::<char>::empty(),
{
    assert(t =~= Seq::<char>::empty());
}

proof fn lemma_chain_stays_empty(rules: Seq<Rule>, gens: Seq<Seq<char>>, k: int)
    requires
        0 <= k < gens.len(),
        gens[0].len() == 0,
        forall|j: int| 0 <= j < gens.len() - 1 ==> rewrites_to(rules, #[trigger] gens[j], gens[j + 1]),
    ensures
        gens[k].len() == 0,
    decreases k,
{
    if k > 0 {
        lemma_chain_stays_empty(rules, gens, k - 1);
    }
}

/// An empty seed stays empty through every generation, stochastic or not.
pub proof fn lemma_empty_seed_generations(
    rules: Seq<Rule>,
    out: Seq<char>,
    n: int,
    complete: bool,
)
    requires
        generation_chain(rules, Seq::<char>::empty(), out, n, complete),
    ensures
        out == Seq::<char>::empty(),
{
    let gens = choose|gens: Seq<Seq<char>>|
        1 <= gens.len() <= n + 1 && (complete ==> gens.len() == n + 1) && gens[0] == Seq::<
            char,
        >::empty() && (forall|j: int|
            0 <= j < gens.len() - 1 ==> rewrites_to(rules, #[trigger] gens[j], gens[j + 1])) && out
            == gens[gens.len() - 1];
    lemma_chain_stays_empty(rules, gens, gens.len() - 1);
    assert(out =~= Seq::<char>::empty());
}

/// With no rules, one rewrite is the identity.
pub proof fn lemma_no_rules_rewrite(rules: Seq<Rule>, s: Seq<char>, t: Seq<char>)
    requires
        rules.len() == 0,
        rewrites_to(rules, s, t),
    ensures
        t == s,
    decreases s.len(),
{
    if s.len() == 0 {
        assert(t =~= s);
    } else {
        let (piece, rest) = choose|piece: Seq<char>, rest: Seq<char>|
            sym_expansion(rules, s[0], piece) && rewrites_to(rules, s.skip(1), rest) && t == piece
                + rest;
        lemma_no_rules_rewrite(rules, s.skip(1), rest);
        assert(t =~= s);
    }
}

proof fn lemma_chain_stays_seed(rules: Seq<Rule>, gens: Seq<Seq<char>>, k: int)
    requires
        rules.len() == 0,
        0 <= k < gens.len(),
        forall|j: int| 0 <= j < gens.len() - 1 ==> rewrites_to(rules, #[trigger] gens[j], gens[j + 1]),
    ensures
        gens[k] == gens[0],
    decreases k,
{
    if k > 0 {
        lemma_chain_stays_seed(rules, gens, k - 1);
        lemma_no_rules_rewrite(rules, gens[k - 1], gens[k]);
    }
}

/// With no rules, every generation equals the seed, stochastic draws or not.
pub proof fn lemma_no_rules_generations(
    rules: Seq<Rule>,
    seed: Seq<char>,
    out: Seq<char>,
    n: int,
    complete: bool,
)
    requires
        rules.len() == 0,
        generation_chain(rules, seed, out, n, complete),
    ensures
        out == seed,
{
    let gens = choose|gens: Seq<Seq<char>>|
        1 <= gens.len() <= n + 1 && (complete ==> gens.len() == n + 1) && gens[0] == seed && (
        forall|j: int|
            0 <= j < gens.len() - 1 ==> rewrites_to(rules, #[trigger] gens[j], gens[j + 1])) && out
            == gens[gens.len() - 1];
    lemma_chain_stays_seed(rules, gens, gens.len() - 1);
}

/// With no rules, the deterministic generation is the seed as well.
pub proof fn lemma_no_rules_det_generate(rules: Seq<Rule>, seed: Seq<char>, n: nat)
    requires
        rules.len() == 0,
    ensures
        det_generate(seed, rules, n) == seed,
    decreases n,
{
    if n > 0 {
        lemma_no_rules_det_generate(rules, seed, (n - 1) as nat);
        lemma_det_rewrite_identity(rules, seed);
    }
}

proof fn lemma_det_rewrite_identity(rules: Seq<Rule>, s: Seq<char>)
    requires
        rules.len() == 0,
    ensures
        det_rewrite(rules, s) == s,
    decreases s.len(),
{
    if s.len() == 0 {
        assert(det_rewrite(rules, s) =~= s);
    } else {
        lemma_det_rewrite_identity(rules, s.skip(1));
        assert(det_rewrite(rules, s) =~= s);
    }
}

/// A stochastic rule with a single alternative of positive weight expands
/// exactly as the simple rule with that successor would: its expansion is
/// unique and it never fails.
pub proof fn lemma_singleton_stochastic_deterministic(r: Rule, out: Seq<char>)
    requires
        r matches Rule::Stochastic { successors, .. } && successors@.len() == 1
            && successors@[0].weight > 0,
    ensures
        !r.spec_fails(),
        r.can_expand_to(out) <==> (match r {
            Rule::Stochastic { successors, .. } => out == successors@[0].successor@,
            Rule::Simple { .. } => false,
        }),
{
    match r {
        Rule::Stochastic { successors, .. } => {
            let alts = successors@;
            assert(alts.skip(1) =~= Seq::<StochasticSuccessor>::empty());
            assert(total_weight(Seq::<StochasticSuccessor>::empty()) == 0);
            assert(total_weight(alts) == alts[0].weight + total_weight(alts.skip(1)));
            assert(total_weight(alts) == alts[0].weight);
            if out == alts[0].successor@ {
                assert(pick_index(alts, 0) == 0);
                assert(0 <= 0 < total_weight(alts) && out == alts[pick_index(alts, 0)].successor@);
            }
            assert forall|u: int| 0 <= u < total_weight(alts) implies alts[pick_index(alts, u)]
                == alts[0] by {
                assert(pick_index(alts, u) == 0);
            }
        },
        Rule::Simple { .. } => {},
    }
}

} // verus!
