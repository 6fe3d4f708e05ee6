use vstd::prelude::*;
use crate::errors::LsysError;
use crate::randomness;

verus! {

/// One weighted alternative of a stochastic rule. Alternatives are drawn with
/// probability proportional to `weight`; weights need not sum to any
/// particular total, they are normalized on use.
#[derive(Debug, PartialEq)]
pub struct StochasticSuccessor {
    pub weight: u64,
    pub successor: String,
}

/// How a single predecessor symbol is rewritten: into a fixed successor
/// string, or into one of several weighted alternatives.
#[derive(Debug, PartialEq)]
pub enum Rule {
    Simple { predecessor: char, successor: String },
    Stochastic { predecessor: char, successors: Vec<StochasticSuccessor> },
}

/// Sum of the weights of `alts`, as an unbounded integer.
pub open spec fn total_weight(alts: Seq<StochasticSuccessor>) -> int
    decreases alts.len(),
{
    if alts.len() == 0 {
        0
    } else {
        alts[0].weight + total_weight(alts.skip(1))
    }
}

/// The alternative a draw of `u` selects: the smallest index whose prefix
/// weight sum exceeds `u`.
pub open spec fn pick_index(alts: Seq<StochasticSuccessor>, u: int) -> int
    decreases alts.len(),
{
    if alts.len() == 0 {
        0
    } else if u < alts[0].weight {
        0
    } else {
        1 + pick_index(alts.skip(1), u - alts[0].weight)
    }
}

pub proof fn lemma_total_weight_nonneg(alts: Seq<StochasticSuccessor>)
    ensures
        total_weight(alts) >= 0,
    decreases alts.len(),
{
    if alts.len() > 0 {
        lemma_total_weight_nonneg(alts.skip(1));
    }
}

/// Appending one alternative adds its weight to the total.
pub proof fn lemma_total_weight_push(alts: Seq<StochasticSuccessor>, a: StochasticSuccessor)
    ensures
        total_weight(alts.push(a)) == total_weight(alts) + a.weight,
    decreases alts.len(),
{
    if alts.len() == 0 {
        assert(alts.push(a)[0] == a);
        assert(alts.push(a).skip(1) =~= Seq::<StochasticSuccessor>::empty());
        assert(total_weight(alts.push(a)) == a.weight + total_weight(Seq::<StochasticSuccessor>::empty()));
    } else {
        assert(alts.push(a)[0] == alts[0]);
        assert(alts.push(a).skip(1) =~= alts.skip(1).push(a));
        lemma_total_weight_push(alts.skip(1), a);
    }
}

/// A draw that lands in the weight span of index `k` selects exactly `k`.
pub proof fn lemma_pick_index_at(alts: Seq<StochasticSuccessor>, u: int, k: int)
    requires
        0 <= k < alts.len(),
        total_weight(alts.take(k)) <= u,
        u < total_weight(alts.take(k)) + alts[k].weight,
    ensures
        pick_index(alts, u) == k,
    decreases k,
{
    if k == 0 {
        assert(alts.take(0) =~= Seq::<StochasticSuccessor>::empty());
    } else {
        assert(alts.take(k).skip(1) =~= alts.skip(1).take(k - 1));
        lemma_total_weight_nonneg(alts.skip(1).take(k - 1));
        assert(total_weight(alts.take(k)) == alts[0].weight + total_weight(alts.skip(1).take(k - 1)));
        lemma_pick_index_at(alts.skip(1), u - alts[0].weight, k - 1);
    }
}

impl Rule {
    /// The symbol this rule rewrites.
    pub open spec fn spec_predecessor(&self) -> char {
        match self {
            Rule::Simple { predecessor, .. } => *predecessor,
            Rule::Stochastic { predecessor, .. } => *predecessor,
        }
    }

    /// A stochastic rule with no positive weight cannot be expanded.
    pub open spec fn spec_fails(&self) -> bool {
        match self {
            Rule::Simple { .. } => false,
            Rule::Stochastic { successors, .. } => total_weight(successors@) <= 0,
        }
    }

    /// `out` is a string this rule may rewrite its predecessor into: the fixed
    /// successor of a simple rule, or the alternative some draw selects.
    pub open spec fn can_expand_to(&self, out: Seq<char>) -> bool {
        match self {
            Rule::Simple { successor, .. } => out == successor@,
            Rule::Stochastic { successors, .. } => exists|u: int|
                0 <= u < total_weight(successors@) && out == successors@[pick_index(
                    successors@,
                    u,
                )].successor@,
        }
    }

    /// True iff the rule's predecessor equals `p`.
    pub fn is_match(&self, p: &char) -> (r: bool)
        ensures
            r == (self.spec_predecessor() == *p),
    {
        match self {
            Rule::Simple { predecessor, .. } => *predecessor == *p,
            Rule::Stochastic { predecessor, .. } => *predecessor == *p,
        }
    }

    /// Expands the rule: the fixed successor of a simple rule, or an
    /// alternative of a stochastic rule drawn with probability proportional
    /// to its weight. Fails exactly when a stochastic rule has no positive
    /// weight.
    pub fn get_successor(&self) -> (r: Result<String, LsysError>)
        ensures
            r is Err <==> self.spec_fails(),
            self.spec_fails() ==> r == Err::<String, LsysError>(
                LsysError::EmptyAlternatives { predecessor: self.spec_predecessor() },
            ),
            r matches Ok(s) ==> self.can_expand_to(s@),
    {
        match self {
            Rule::Simple { successor, .. } => Ok(successor.clone()),
            Rule::Stochastic { predecessor, successors } => {
                let t = sum_weights(successors);
                if t == 0 {
                    Err(LsysError::EmptyAlternatives { predecessor: *predecessor })
                } else {
                    let mut rng = randomness::fresh_rng();
                    let u = randomness::draw_below(&mut rng, t);
                    let k = select_alternative(successors, u);
                    let out = successors[k].successor.clone();
                    proof {
                        assert(out@ == successors@[pick_index(successors@, u as int)].successor@);
                        assert(0 <= u < total_weight(successors@) && out@ == successors@[
                            pick_index(successors@, u as int)
                        ].successor@);
                    }
                    Ok(out)
                }
            },
        }
    }
}

/// The total weight of `alts`, saturating at `u64::MAX`: the result is zero
/// exactly when the true total is, and never exceeds it.
fn sum_weights(alts: &Vec<StochasticSuccessor>) -> (t: u64)
    ensures
        t <= total_weight(alts@),
        (t == 0) <==> (total_weight(alts@) == 0),
{
    let mut t: u64 = 0;
    let mut i: usize = 0;
    while i < alts.len()
        invariant
            i <= alts@.len(),
            t <= total_weight(alts@.take(i as int)),
            (t == 0) <==> (total_weight(alts@.take(i as int)) == 0),
        decreases alts@.len() - i,
    {
        let w = alts[i].weight;
        proof {
            assert(alts@.take(i + 1) =~= alts@.take(i as int).push(alts@[i as int]));
            lemma_total_weight_push(alts@.take(i as int), alts@[i as int]);
        }
        if t > u64::MAX - w {
            t = u64::MAX;
        } else {
            t = t + w;
        }
        i = i + 1;
    }
    proof {
        assert(alts@.take(alts@.len() as int) =~= alts@);
    }
    t
}

/// Given a draw `u` below the total weight, returns the index of the selected
/// alternative: the smallest one whose prefix weight sum exceeds `u`.
pub fn select_alternative(successors: &Vec<StochasticSuccessor>, u: u64) -> (k: usize)
    requires
        u < total_weight(successors@),
    ensures
        k as int == pick_index(successors@, u as int),
        k < successors@.len(),
        successors@[k as int].weight > 0,
{
    let mut acc: u64 = 0;
    let mut i: usize = 0;
    while i < successors.len()
        invariant
            i <= successors@.len(),
            u < total_weight(successors@),
            acc <= u,
            acc as int == total_weight(successors@.take(i as int)),
        decreases successors@.len() - i,
    {
        let w = successors[i].weight;
        proof {
            assert(successors@.take(i + 1) =~= successors@.take(i as int).push(
                successors@[i as int],
            ));
            lemma_total_weight_push(successors@.take(i as int), successors@[i as int]);
        }
        if u - acc < w {
            proof {
                lemma_pick_index_at(successors@, u as int, i as int);
            }
            return i;
        }
        acc = acc + w;
        i = i + 1;
    }
    proof {
        assert(successors@.take(successors@.len() as int) =~= successors@);
        assert(false);
    }
    0
}

} // verus!
