use vstd::prelude::*;
use vstd::string::StringExecFns;
use crate::errors::LsysError;
use crate::rule::Rule;

verus! {

/// Index of the first rule whose predecessor is `c`, if any. Later rules for
/// the same predecessor are never consulted.
pub open spec fn first_match(rules: Seq<Rule>, c: char) -> Option<int>
    decreases rules.len(),
{
    if rules.len() == 0 {
        None
    } else if rules[0].spec_predecessor() == c {
        Some(0int)
    } else {
        match first_match(rules.skip(1), c) {
            None => None,
            Some(i) => Some(i + 1),
        }
    }
}

/// What a single symbol may rewrite to in one generation: the expansion of the
/// first matching rule, or the symbol itself when no rule matches.
pub open spec fn sym_expansion(rules: Seq<Rule>, c: char, out: Seq<char>) -> bool {
    match first_match(rules, c) {
        None => out == seq![c],
        Some(i) => rules[i].can_expand_to(out),
    }
}

/// Expanding `c` fails: its first matching rule is stochastic with no
/// positive weight.
pub open spec fn sym_fails(rules: Seq<Rule>, c: char) -> bool {
    match first_match(rules, c) {
        None => false,
        Some(i) => rules[i].spec_fails(),
    }
}

/// Parallel rewriting: `t` is the concatenation of one expansion of each
/// symbol of `s`, every symbol expanded against the same rule list.
pub open spec fn rewrites_to(rules: Seq<Rule>, s: Seq<char>, t: Seq<char>) -> bool
    decreases s.len(),
{
    if s.len() == 0 {
        t.len() == 0
    } else {
        exists|piece: Seq<char>, rest: Seq<char>|
            sym_expansion(rules, s[0], piece) && rewrites_to(rules, s.skip(1), rest) && t == piece
                + rest
    }
}

/// Every rule is simple, so rewriting consumes no randomness.
pub open spec fn det_rules(rules: Seq<Rule>) -> bool {
    forall|i: int| 0 <= i < rules.len() ==> (#[trigger] rules[i]) matches Rule::Simple { .. }
}

/// No rule is a stochastic rule without positive weight.
pub open spec fn wf_rules(rules: Seq<Rule>) -> bool {
    forall|i: int| 0 <= i < rules.len() ==> !(#[trigger] rules[i]).spec_fails()
}

/// There is a chain of generations from `seed` to `out` in which every step
/// is one parallel rewrite; `complete` says the chain carries out all `n`
/// steps (a failed run stops short).
pub open spec fn generation_chain(
    rules: Seq<Rule>,
    seed: Seq<char>,
    out: Seq<char>,
    n: int,
    complete: bool,
) -> bool {
    exists|gens: Seq<Seq<char>>|
        1 <= gens.len() <= n + 1 && (complete ==> gens.len() == n + 1) && gens[0] == seed && (
        forall|j: int|
            0 <= j < gens.len() - 1 ==> rewrites_to(rules, #[trigger] gens[j], gens[j + 1])) && out
            == gens[gens.len() - 1]
}

/// The unique expansion of `c` under simple rules.
pub open spec fn det_expand(rules: Seq<Rule>, c: char) -> Seq<char> {
    match first_match(rules, c) {
        None => seq![c],
        Some(i) => match rules[i] {
            Rule::Simple { successor, .. } => successor@,
            Rule::Stochastic { .. } => seq![c],
        },
    }
}

/// The unique parallel rewrite of `s` under simple rules.
pub open spec fn det_rewrite(rules: Seq<Rule>, s: Seq<char>) -> Seq<char>
    decreases s.len(),
{
    if s.len() == 0 {
        Seq::empty()
    } else {
        det_expand(rules, s[0]) + det_rewrite(rules, s.skip(1))
    }
}

/// `n` parallel rewrites of `seed` under simple rules.
pub open spec fn det_generate(seed: Seq<char>, rules: Seq<Rule>, n: nat) -> Seq<char>
    decreases n,
{
    if n == 0 {
        seed
    } else {
        det_rewrite(rules, det_generate(seed, rules, (n - 1) as nat))
    }
}

/// The first matching rule wins: `first_match` points at a rule for `c`, and
/// every earlier rule is for another predecessor, so a later rule for the
/// same predecessor is never observed.
pub proof fn lemma_first_match_is_first(rules: Seq<Rule>, c: char)
    ensures
        match first_match(rules, c) {
            None => forall|k: int|
                0 <= k < rules.len() ==> (#[trigger] rules[k]).spec_predecessor() != c,
            Some(i) => 0 <= i < rules.len() && rules[i].spec_predecessor() == c && forall|k: int|
                0 <= k < i ==> (#[trigger] rules[k]).spec_predecessor() != c,
        },
    decreases rules.len(),
{
    if rules.len() > 0 && rules[0].spec_predecessor() != c {
        lemma_first_match_is_first(rules.skip(1), c);
        assert forall|k: int| 1 <= k < rules.len() implies rules.skip(1)[k - 1]
            == (#[trigger] rules[k]) by {}
    }
}

/// Converse direction: a scan that saw no match up to `i` and a match at `i`
/// pins `first_match` to `i`.
pub proof fn lemma_first_match_found(rules: Seq<Rule>, c: char, i: int)
    requires
        0 <= i < rules.len(),
        rules[i].spec_predecessor() == c,
        forall|k: int| 0 <= k < i ==> (#[trigger] rules[k]).spec_predecessor() != c,
    ensures
        first_match(rules, c) == Some(i),
    decreases i,
{
    if i > 0 {
        assert forall|k: int| 0 <= k < i - 1 implies (#[trigger] rules.skip(1)[k]).spec_predecessor()
            != c by {
            assert(rules.skip(1)[k] == rules[k + 1]);
        }
        assert(rules.skip(1)[i - 1] == rules[i]);
        lemma_first_match_found(rules.skip(1), c, i - 1);
    }
}

/// A scan that saw no match at all pins `first_match` to `None`.
pub proof fn lemma_first_match_none(rules: Seq<Rule>, c: char)
    requires
        forall|k: int| 0 <= k < rules.len() ==> (#[trigger] rules[k]).spec_predecessor() != c,
    ensures
        first_match(rules, c) is None,
    decreases rules.len(),
{
    if rules.len() > 0 {
        assert forall|k: int| 0 <= k < rules.len() - 1 implies (#[trigger] rules.skip(
            1,
        )[k]).spec_predecessor() != c by {
            assert(rules.skip(1)[k] == rules[k + 1]);
        }
        lemma_first_match_none(rules.skip(1), c);
    }
}

/// Under simple rules, one symbol has exactly one expansion: `det_expand`.
pub proof fn lemma_det_sym_expansion(rules: Seq<Rule>, c: char, out: Seq<char>)
    requires
        det_rules(rules),
    ensures
        sym_expansion(rules, c, out) <==> out == det_expand(rules, c),
        !sym_fails(rules, c),
{
    lemma_first_match_is_first(rules, c);
}

/// Appending one symbol extends the deterministic rewrite by its expansion.
pub proof fn lemma_det_rewrite_snoc(rules: Seq<Rule>, s: Seq<char>, c: char)
    ensures
        det_rewrite(rules, s.push(c)) == det_rewrite(rules, s) + det_expand(rules, c),
    decreases s.len(),
{
    if s.len() == 0 {
        assert(s.push(c)[0] == c);
        assert(s.push(c).skip(1) =~= Seq::<char>::empty());
        assert(det_rewrite(rules, Seq::<char>::empty()) == Seq::<char>::empty());
        assert(det_rewrite(rules, s.push(c)) == det_expand(rules, c) + Seq::<char>::empty());
        assert(det_expand(rules, c) + Seq::<char>::empty() =~= det_expand(rules, c));
        assert(det_rewrite(rules, s) + det_expand(rules, c) =~= det_expand(rules, c));
    } else {
        assert(s.push(c)[0] == s[0]);
        assert(s.push(c).skip(1) =~= s.skip(1).push(c));
        lemma_det_rewrite_snoc(rules, s.skip(1), c);
        assert(det_expand(rules, s[0]) + (det_rewrite(rules, s.skip(1)) + det_expand(rules, c))
            =~= (det_expand(rules, s[0]) + det_rewrite(rules, s.skip(1))) + det_expand(rules, c));
    }
}

/// Appending one symbol together with one of its expansions preserves the
/// rewriting relation.
pub proof fn lemma_rewrites_to_snoc(
    rules: Seq<Rule>,
    s: Seq<char>,
    t: Seq<char>,
    c: char,
    piece: Seq<char>,
)
    requires
        rewrites_to(rules, s, t),
        sym_expansion(rules, c, piece),
    ensures
        rewrites_to(rules, s.push(c), t + piece),
    decreases s.len(),
{
    if s.len() == 0 {
        assert(s.push(c)[0] == c);
        assert(s.push(c).skip(1) =~= Seq::<char>::empty());
        assert(t + piece =~= piece + Seq::<char>::empty());
        assert(rewrites_to(rules, s.push(c).skip(1), Seq::<char>::empty()));
        assert(sym_expansion(rules, s.push(c)[0], piece) && rewrites_to(
            rules,
            s.push(c).skip(1),
            Seq::<char>::empty(),
        ) && t + piece == piece + Seq::<char>::empty());
    } else {
        let (piece0, rest0) = choose|piece0: Seq<char>, rest0: Seq<char>|
            sym_expansion(rules, s[0], piece0) && rewrites_to(rules, s.skip(1), rest0) && t
                == piece0 + rest0;
        lemma_rewrites_to_snoc(rules, s.skip(1), rest0, c, piece);
        assert(s.push(c)[0] == s[0]);
        assert(s.push(c).skip(1) =~= s.skip(1).push(c));
        assert(t + piece =~= piece0 + (rest0 + piece));
        assert(sym_expansion(rules, s.push(c)[0], piece0) && rewrites_to(
            rules,
            s.push(c).skip(1),
            rest0 + piece,
        ) && t + piece == piece0 + (rest0 + piece));
    }
}

/// Relies on `String::push`: appends exactly one character.
#[verifier::external_body]
fn push_char(s: &mut String, c: char)
    ensures
        final(s)@ == old(s)@.push(c),
{
    s.push(c)
}

/// An L-system: a named seed, an ordered rule list, the turtle angles, and
/// the string the last call of `generate_system` produced.
#[derive(Debug, PartialEq)]
pub struct LSystem {
    /// Name of the system, used when deriving output file names.
    pub name: String,
    /// The seed string rewriting starts from.
    pub seed: String,
    /// Ordered rule list; for one predecessor the first rule wins.
    pub rules: Vec<Rule>,
    /// Turn angle of the turtle, in degrees.
    pub turn_angle: i64,
    /// Initial heading of the turtle, in degrees.
    pub init_angle: i64,
    /// The fully rewritten string, replaced by each `generate_system` call.
    pub endstring: String,
}

impl LSystem {
    /// A fresh system with no rules and an empty end string.
    pub fn new(name: &str, seed: &str, turn_angle: i64) -> (s: LSystem)
        ensures
            s.name@ == name@,
            s.seed@ == seed@,
            s.rules@ == Seq::<Rule>::empty(),
            s.turn_angle == turn_angle,
            s.init_angle == 0,
            s.endstring@ == Seq::<char>::empty(),
    {
        LSystem {
            name: name.to_owned(),
            seed: seed.to_owned(),
            rules: Vec::new(),
            turn_angle: turn_angle,
            init_angle: 0,
            endstring: String::new(),
        }
    }

    /// Expands one symbol: the expansion of the first matching rule, or the
    /// symbol itself when no rule matches. Fails exactly when the first
    /// matching rule is stochastic with no positive weight.
    pub fn apply_rule(&self, input: &char) -> (r: Result<String, LsysError>)
        ensures
            r is Err <==> sym_fails(self.rules@, *input),
            r is Err ==> r == Err::<String, LsysError>(
                LsysError::EmptyAlternatives { predecessor: *input },
            ),
            r matches Ok(s) ==> sym_expansion(self.rules@, *input, s@),
    {
        let n = self.rules.len();
        let mut i: usize = 0;
        while i < n
            invariant
                n == self.rules@.len(),
                i <= n,
                forall|k: int| 0 <= k < i ==> (#[trigger] self.rules@[k]).spec_predecessor()
                    != *input,
            decreases n - i,
        {
            if self.rules[i].is_match(input) {
                proof {
                    lemma_first_match_found(self.rules@, *input, i as int);
                }
                return match self.rules[i].get_successor() {
                    Ok(s) => Ok(s),
                    Err(_) => Err(LsysError::EmptyAlternatives { predecessor: *input }),
                };
            }
            i = i + 1;
        }
        proof {
            lemma_first_match_none(self.rules@, *input);
        }
        let mut out = String::new();
        push_char(&mut out, *input);
        proof {
            assert(out@ =~= seq![*input]);
        }
        Ok(out)
    }

    /// One parallel rewrite of `string`: every symbol is expanded against the
    /// rule list as it stood before the call, and the expansions are
    /// concatenated in order. Fails exactly when some symbol's expansion
    /// fails, naming the first such symbol.
    pub fn process_string(&self, string: &str) -> (r: Result<String, LsysError>)
        ensures
            r matches Ok(t) ==> rewrites_to(self.rules@, string@, t@),
            r is Err <==> (exists|i: int|
                0 <= i < string@.len() && sym_fails(self.rules@, #[trigger] string@[i])),
            r matches Err(e) ==> (exists|i: int|
                0 <= i < string@.len() && sym_fails(self.rules@, #[trigger] string@[i]) && (
                forall|k: int| 0 <= k < i ==> !sym_fails(self.rules@, #[trigger] string@[k])) && e
                    == (LsysError::EmptyAlternatives { predecessor: string@[i] })),
            det_rules(self.rules@) ==> (r matches Ok(t) && t@ == det_rewrite(
                self.rules@,
                string@,
            )),
    {
        let mut out = String::new();
        let n = string.unicode_len();
        let mut i: usize = 0;
        while i < n
            invariant
                n == string@.len(),
                i <= n,
                rewrites_to(self.rules@, string@.take(i as int), out@),
                forall|k: int| 0 <= k < i ==> !sym_fails(self.rules@, #[trigger] string@[k]),
                det_rules(self.rules@) ==> out@ == det_rewrite(
                    self.rules@,
                    string@.take(i as int),
                ),
            decreases n - i,
        {
            let c = string.get_char(i);
            match self.apply_rule(&c) {
                Ok(piece) => {
                    proof {
                        lemma_rewrites_to_snoc(
                            self.rules@,
                            string@.take(i as int),
                            out@,
                            c,
                            piece@,
                        );
                        assert(string@.take(i + 1) =~= string@.take(i as int).push(
                            string@[i as int],
                        ));
                        if det_rules(self.rules@) {
                            lemma_det_rewrite_snoc(self.rules@, string@.take(i as int), c);
                            lemma_det_sym_expansion(self.rules@, c, piece@);
                        }
                    }
                    out.append(piece.as_str());
                },
                Err(e) => {
                    proof {
                        if det_rules(self.rules@) {
                            lemma_det_sym_expansion(self.rules@, c, Seq::<char>::empty());
                        }
                        assert(0 <= i < string@.len() && sym_fails(self.rules@, string@[i as int])
                            && (forall|k: int|
                            0 <= k < i ==> !sym_fails(self.rules@, #[trigger] string@[k])) && e
                            == LsysError::EmptyAlternatives { predecessor: string@[i as int] });
                    }
                    return Err(e);
                },
            }
            i = i + 1;
        }
        proof {
            assert(string@.take(n as int) =~= string@);
        }
        Ok(out)
    }

    /// Sets the end string to the seed, then rewrites it `num_iterations`
    /// times in place; every generation is one parallel rewrite of the one
    /// before. A negative count is rejected and the system is untouched.
    pub fn generate_system(&mut self, num_iterations: i32) -> (r: Result<(), LsysError>)
        ensures
            final(self).name == old(self).name,
            final(self).seed == old(self).seed,
            final(self).rules == old(self).rules,
            final(self).turn_angle == old(self).turn_angle,
            final(self).init_angle == old(self).init_angle,
            num_iterations < 0 ==> r == Err::<(), LsysError>(LsysError::BadArgument)
                && *final(self) == *old(self),
            r matches Err(e) ==> (num_iterations < 0 <==> e == LsysError::BadArgument),
            r matches Err(e) ==> (num_iterations >= 0 ==> (e matches
            LsysError::EmptyAlternatives { .. })),
            num_iterations >= 0 ==> generation_chain(
                old(self).rules@,
                old(self).seed@,
                final(self).endstring@,
                num_iterations as int,
                r is Ok,
            ),
            num_iterations >= 0 && wf_rules(old(self).rules@) ==> r is Ok,
            num_iterations == 0 ==> r is Ok && final(self).endstring@ == old(self).seed@,
            num_iterations >= 0 && det_rules(old(self).rules@) ==> r is Ok
                && final(self).endstring@ == det_generate(
                old(self).seed@,
                old(self).rules@,
                num_iterations as nat,
            ),
    {
        if num_iterations < 0 {
            return Err(LsysError::BadArgument);
        }
        self.endstring = self.seed.clone();
        let ghost mut gens: Seq<Seq<char>> = seq![self.seed@];
        let mut it: i32 = 0;
        while it < num_iterations
            invariant
                0 <= it <= num_iterations,
                self.name == old(self).name,
                self.seed == old(self).seed,
                self.rules == old(self).rules,
                self.turn_angle == old(self).turn_angle,
                self.init_angle == old(self).init_angle,
                gens.len() == it + 1,
                gens[0] == old(self).seed@,
                self.endstring@ == gens[it as int],
                forall|j: int|
                    0 <= j < it ==> rewrites_to(old(self).rules@, #[trigger] gens[j], gens[j + 1]),
                det_rules(old(self).rules@) ==> self.endstring@ == det_generate(
                    old(self).seed@,
                    old(self).rules@,
                    it as nat,
                ),
            decreases num_iterations - it,
        {
            match self.process_string(self.endstring.as_str()) {
                Ok(t) => {
                    proof {
                        if det_rules(old(self).rules@) {
                            assert(det_generate(
                                old(self).seed@,
                                old(self).rules@,
                                (it + 1) as nat,
                            ) == det_rewrite(
                                old(self).rules@,
                                det_generate(old(self).seed@, old(self).rules@, it as nat),
                            ));
                        }
                        gens = gens.push(t@);
                    }
                    self.endstring = t;
                },
                Err(e) => {
                    proof {
                        if wf_rules(old(self).rules@) {
                            let i = choose|i: int|
                                0 <= i < self.endstring@.len() && sym_fails(
                                    self.rules@,
                                    #[trigger] self.endstring@[i],
                                );
                            lemma_first_match_is_first(self.rules@, self.endstring@[i]);
                            assert(false);
                        }
                        if det_rules(old(self).rules@) {
                            let i = choose|i: int|
                                0 <= i < self.endstring@.len() && sym_fails(
                                    self.rules@,
                                    #[trigger] self.endstring@[i],
                                );
                            lemma_det_sym_expansion(
                                self.rules@,
                                self.endstring@[i],
                                Seq::<char>::empty(),
                            );
                            assert(false);
                        }
                        assert(gens[gens.len() - 1] == gens[it as int]);
                        assert(1 <= gens.len() <= num_iterations + 1 && gens[0] == old(self).seed@
                            && (forall|j: int|
                            0 <= j < gens.len() - 1 ==> rewrites_to(
                                old(self).rules@,
                                #[trigger] gens[j],
                                gens[j + 1],
                            )) && self.endstring@ == gens[gens.len() - 1]);
                        assert(generation_chain(
                            old(self).rules@,
                            old(self).seed@,
                            self.endstring@,
                            num_iterations as int,
                            false,
                        ));
                    }
                    return Err(e);
                },
            }
            it = it + 1;
        }
        proof {
            assert(gens[gens.len() - 1] == gens[it as int]);
            assert(gens.len() == num_iterations + 1 && gens[0] == old(self).seed@ && (forall|
                j: int,
            |
                0 <= j < gens.len() - 1 ==> rewrites_to(
                    old(self).rules@,
                    #[trigger] gens[j],
                    gens[j + 1],
                )) && self.endstring@ == gens[gens.len() - 1]);
            assert(generation_chain(
                old(self).rules@,
                old(self).seed@,
                self.endstring@,
                num_iterations as int,
                true,
            ));
        }
        Ok(())
    }
}

} // verus!
