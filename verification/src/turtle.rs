use vstd::prelude::*;
use vstd::arithmetic::div_mod::{
    lemma_fundamental_div_mod, lemma_mod_bound, lemma_mod_multiples_vanish, lemma_small_mod,
};
use crate::errors::LsysError;

verus! {

/// Largest magnitude a displacement-table entry may have.
pub const MAX_STEP: i64 = 0x4000_0000;

/// Largest number of symbols one interpretation accepts; together with
/// `MAX_STEP` it keeps every coordinate inside `i64`.
pub const MAX_SYMBOLS: usize = 0x4000_0000;

/// A drawing primitive, in the caller's fixed-point unit: a pen-up jump or a
/// drawn segment, both to an absolute point.
#[derive(Debug, Clone, Copy, PartialEq, Eq, Structural)]
pub enum Primitive {
    MoveTo { x: i64, y: i64 },
    LineTo { x: i64, y: i64 },
}

/// The abstract turtle: a position, a heading in `[0, 360)` degrees, and the
/// stack of states saved by `[` and not yet restored by `]`.
#[verifier::ext_equal]
pub ghost struct TurtleState {
    pub x: int,
    pub y: int,
    pub heading: int,
    pub stack: Seq<(int, int, int)>,
}

/// `a` reduced to `[0, 360)` degrees.
pub open spec fn norm360(a: int) -> int {
    a % 360
}

/// The state the turtle starts in: the origin, the given heading, no saved
/// states.
pub open spec fn init_state(init_heading: int) -> TurtleState {
    TurtleState { x: 0, y: 0, heading: norm360(init_heading), stack: Seq::empty() }
}

/// The displacement table is total over headings and small enough that no
/// path of accepted length can overflow a coordinate.
pub open spec fn table_ok(table: Seq<(i64, i64)>) -> bool {
    table.len() == 360 && forall|i: int|
        0 <= i < 360 ==> -MAX_STEP <= (#[trigger] table[i]).0 <= MAX_STEP && -MAX_STEP
            <= table[i].1 <= MAX_STEP
}

/// One command: `F` advances along the heading and draws, `+` and `-` (ASCII
/// hyphen or U+2212) rotate, `[` saves the state, `]` restores it with a
/// pen-up jump, anything else is a no-op. `None` is the one failure: `]` with
/// nothing saved.
pub open spec fn step_char(table: Seq<(i64, i64)>, turn: int, c: char, st: TurtleState) -> Option<
    (TurtleState, Seq<Primitive>),
> {
    if c == 'F' {
        let nx = st.x + table[st.heading].0;
        let ny = st.y + table[st.heading].1;
        Some(
            (
                TurtleState { x: nx, y: ny, heading: st.heading, stack: st.stack },
                seq![Primitive::LineTo { x: nx as i64, y: ny as i64 }],
            ),
        )
    } else if c == '+' {
        Some(
            (
                TurtleState {
                    x: st.x,
                    y: st.y,
                    heading: norm360(st.heading + turn),
                    stack: st.stack,
                },
                Seq::empty(),
            ),
        )
    } else if c == '-' || c == '\u{2212}' {
        Some(
            (
                TurtleState {
                    x: st.x,
                    y: st.y,
                    heading: norm360(st.heading - turn),
                    stack: st.stack,
                },
                Seq::empty(),
            ),
        )
    } else if c == '[' {
        Some(
            (
                TurtleState {
                    x: st.x,
                    y: st.y,
                    heading: st.heading,
                    stack: st.stack.push((st.x, st.y, st.heading)),
                },
                Seq::empty(),
            ),
        )
    } else if c == ']' {
        if st.stack.len() == 0 {
            None
        } else {
            let frame = st.stack.last();
            Some(
                (
                    TurtleState {
                        x: frame.0,
                        y: frame.1,
                        heading: frame.2,
                        stack: st.stack.drop_last(),
                    },
                    seq![Primitive::MoveTo { x: frame.0 as i64, y: frame.1 as i64 }],
                ),
            )
        }
    } else {
        Some((st, Seq::empty()))
    }
}

/// Runs the machine over `s` from `st`: the final state and the emitted
/// primitives, or the offset of the `]` that found no saved state.
pub open spec fn run_from(
    table: Seq<(i64, i64)>,
    turn: int,
    s: Seq<char>,
    st: TurtleState,
) -> Result<(TurtleState, Seq<Primitive>), int>
    decreases s.len(),
{
    if s.len() == 0 {
        Ok((st, Seq::empty()))
    } else {
        match step_char(table, turn, s[0], st) {
            None => Err(0),
            Some(sp) => match run_from(table, turn, s.skip(1), sp.0) {
                Ok(rp) => Ok((rp.0, sp.1 + rp.1)),
                Err(k) => Err(k + 1),
            },
        }
    }
}

/// The machine state after `s`, if no bracket fails.
pub open spec fn final_state(
    table: Seq<(i64, i64)>,
    turn: int,
    s: Seq<char>,
    st: TurtleState,
) -> Option<TurtleState> {
    match run_from(table, turn, s, st) {
        Ok(p) => Some(p.0),
        Err(_) => None,
    }
}

/// The exec state lifted into the abstract machine.
pub open spec fn lift_state(x: i64, y: i64, heading: i64, stack: Seq<(i64, i64, i64)>) -> TurtleState {
    TurtleState {
        x: x as int,
        y: y as int,
        heading: heading as int,
        stack: stack.map_values(|e: (i64, i64, i64)| (e.0 as int, e.1 as int, e.2 as int)),
    }
}

proof fn lemma_norm_small(h: int)
    requires
        0 <= h < 360,
    ensures
        norm360(h) == h,
{
    lemma_small_mod(h as nat, 360nat);
}

proof fn lemma_norm_wrap(h: int)
    requires
        360 <= h < 720,
    ensures
        norm360(h) == h - 360,
{
    lemma_mod_multiples_vanish(1, h - 360, 360);
    lemma_small_mod((h - 360) as nat, 360nat);
}

proof fn lemma_norm_add_360(h: int)
    ensures
        norm360(h + 360) == norm360(h),
{
    lemma_mod_multiples_vanish(1, h, 360);
}

/// Reduces a heading to `[0, 360)` degrees.
fn norm_degrees(a: i64) -> (r: i64)
    ensures
        0 <= r < 360,
        r as int == norm360(a as int),
{
    if a >= 0 {
        let r = ((a as u64) % 360) as i64;
        proof {
            lemma_mod_bound(a as int, 360);
        }
        r
    } else {
        let n: u64 = ((-(a + 1)) as u64) + 1;
        let m = (n % 360) as i64;
        proof {
            lemma_fundamental_div_mod(n as int, 360);
            lemma_mod_bound(n as int, 360);
        }
        let ghost q = (n as int) / 360;
        if m == 0 {
            proof {
                assert(a as int == 360 * (-q) + 0) by {
                    assert(n as int == 360 * q);
                };
                lemma_mod_multiples_vanish(-q, 0, 360);
                lemma_small_mod(0nat, 360nat);
            }
            0
        } else {
            proof {
                assert(a as int == 360 * (-q - 1) + (360 - m)) by {
                    assert(n as int == 360 * q + m);
                };
                lemma_mod_multiples_vanish(-q - 1, 360 - m, 360);
                lemma_small_mod((360 - m) as nat, 360nat);
            }
            360 - m
        }
    }
}

/// The bracket-nesting contribution of one symbol.
pub open spec fn depth_delta(c: char) -> int {
    if c == '[' {
        1
    } else if c == ']' {
        -1
    } else {
        0
    }
}

/// The net bracket-nesting depth of `s`.
pub open spec fn depth(s: Seq<char>) -> int
    decreases s.len(),
{
    if s.len() == 0 {
        0
    } else {
        depth_delta(s[0]) + depth(s.skip(1))
    }
}

/// Brackets in `s` are balanced: the net depth is zero and no prefix closes
/// more than it opened.
pub open spec fn balanced(s: Seq<char>) -> bool {
    depth(s) == 0 && forall|k: int| 0 <= k <= s.len() ==> depth(#[trigger] s.take(k)) >= 0
}

/// `s` with every character removed that lies at nesting depth other than
/// `-d`, brackets included: at `d == 0` this removes every bracketed group.
pub open spec fn strip_at(s: Seq<char>, d: int) -> Seq<char>
    decreases s.len(),
{
    if s.len() == 0 {
        Seq::empty()
    } else {
        let c = s[0];
        if c == '[' {
            strip_at(s.skip(1), d + 1)
        } else if c == ']' {
            strip_at(s.skip(1), d - 1)
        } else if d == 0 {
            seq![c] + strip_at(s.skip(1), 0)
        } else {
            strip_at(s.skip(1), d)
        }
    }
}

/// `s` with every bracketed group removed, brackets included.
pub open spec fn strip_brackets(s: Seq<char>) -> Seq<char> {
    strip_at(s, 0)
}

proof fn lemma_depth_concat(a: Seq<char>, b: Seq<char>)
    ensures
        depth(a + b) == depth(a) + depth(b),
    decreases a.len(),
{
    if a.len() == 0 {
        assert(a + b =~= b);
    } else {
        assert((a + b).skip(1) =~= a.skip(1) + b);
        lemma_depth_concat(a.skip(1), b);
    }
}

proof fn lemma_depth_cons(w: Seq<char>, k: int)
    requires
        0 <= k < w.len(),
    ensures
        depth(w.take(k + 1)) == depth_delta(w[0]) + depth(w.skip(1).take(k)),
    decreases w.len(),
{
    assert(w.take(k + 1) =~= seq![w[0]] + w.skip(1).take(k));
    lemma_depth_concat(seq![w[0]], w.skip(1).take(k));
    assert(seq![w[0]].skip(1) =~= Seq::<char>::empty());
    assert(depth(Seq::<char>::empty()) == 0);
    assert(depth(seq![w[0]]) == depth_delta(w[0]) + depth(seq![w[0]].skip(1)));
}

proof fn lemma_strip_concat(a: Seq<char>, b: Seq<char>, d: int)
    ensures
        strip_at(a + b, d) == strip_at(a, d) + strip_at(b, d + depth(a)),
    decreases a.len(),
{
    if a.len() == 0 {
        assert(a + b =~= b);
        assert(strip_at(a, d) + strip_at(b, d) =~= strip_at(b, d));
    } else {
        assert((a + b).skip(1) =~= a.skip(1) + b);
        lemma_strip_concat(a.skip(1), b, d + depth_delta(a[0]));
        let c = a[0];
        if c == '[' || c == ']' || d != 0 {
        } else {
            assert(seq![c] + (strip_at(a.skip(1), 0) + strip_at(b, depth(a))) =~= (seq![c]
                + strip_at(a.skip(1), 0)) + strip_at(b, depth(a)));
        }
    }
}

proof fn lemma_strip_deep(w: Seq<char>, d: int)
    requires
        forall|k: int| 0 <= k < w.len() ==> d + depth(#[trigger] w.take(k)) >= 1,
    ensures
        strip_at(w, d) == Seq::<char>::empty(),
    decreases w.len(),
{
    if w.len() > 0 {
        assert(w.take(0) =~= Seq::<char>::empty());
        assert(d >= 1);
        assert forall|k: int| 0 <= k < w.skip(1).len() implies (d + depth_delta(w[0])) + depth(
            #[trigger] w.skip(1).take(k),
        ) >= 1 by {
            lemma_depth_cons(w, k);
            assert(d + depth(w.take(k + 1)) >= 1);
        }
        lemma_strip_deep(w.skip(1), d + depth_delta(w[0]));
    }
}

proof fn lemma_run_concat(
    table: Seq<(i64, i64)>,
    turn: int,
    a: Seq<char>,
    b: Seq<char>,
    st: TurtleState,
)
    ensures
        (match run_from(table, turn, a, st) {
            Err(k) => run_from(table, turn, a + b, st) == Err::<
                (TurtleState, Seq<Primitive>),
                int,
            >(k),
            Ok(p) => (match run_from(table, turn, b, p.0) {
                Ok(q) => run_from(table, turn, a + b, st) == Ok::<
                    (TurtleState, Seq<Primitive>),
                    int,
                >((q.0, p.1 + q.1)),
                Err(k) => run_from(table, turn, a + b, st) == Err::<
                    (TurtleState, Seq<Primitive>),
                    int,
                >(a.len() + k),
            }),
        }),
    decreases a.len(),
{
    if a.len() == 0 {
        assert(a + b =~= b);
        match run_from(table, turn, b, st) {
            Ok(q) => {
                assert(Seq::<Primitive>::empty() + q.1 =~= q.1);
            },
            Err(_) => {},
        }
    } else {
        assert((a + b)[0] == a[0]);
        assert((a + b).skip(1) =~= a.skip(1) + b);
        match step_char(table, turn, a[0], st) {
            None => {},
            Some(sp) => {
                lemma_run_concat(table, turn, a.skip(1), b, sp.0);
                match run_from(table, turn, a.skip(1), sp.0) {
                    Err(_) => {},
                    Ok(p) => {
                        match run_from(table, turn, b, p.0) {
                            Ok(q) => {
                                assert(sp.1 + (p.1 + q.1) =~= (sp.1 + p.1) + q.1);
                            },
                            Err(_) => {},
                        }
                    },
                }
            },
        }
    }
}

/// Running a segment whose prefixes never dip below `b` saved states leaves
/// the bottom `b` of the stack untouched and never fails.
proof fn lemma_run_preserves_bottom(
    table: Seq<(i64, i64)>,
    turn: int,
    w: Seq<char>,
    st: TurtleState,
    b: int,
)
    requires
        0 <= b <= st.stack.len(),
        forall|k: int|
            0 <= k <= w.len() ==> st.stack.len() - b + depth(#[trigger] w.take(k)) >= 0,
    ensures
        (run_from(table, turn, w, st) matches Ok(p) && p.0.stack.len() == st.stack.len() + depth(
            w,
        ) && (forall|m: int| 0 <= m < b ==> p.0.stack[m] == st.stack[m])),
    decreases w.len(),
{
    if w.len() == 0 {
    } else {
        let c = w[0];
        lemma_depth_cons(w, 0);
        assert(w.skip(1).take(0) =~= Seq::<char>::empty());
        assert(depth(w.take(1)) == depth_delta(c));
        if c == ']' {
            assert(st.stack.len() - b + depth(w.take(1)) >= 0);
            assert(st.stack.len() >= b + 1);
        }
        let sp = step_char(table, turn, c, st);
        assert(sp is Some);
        let st1 = sp->Some_0.0;
        assert(st1.stack.len() == st.stack.len() + depth_delta(c));
        assert(forall|m: int| 0 <= m < b ==> st1.stack[m] == st.stack[m]);
        assert forall|k: int| 0 <= k <= w.skip(1).len() implies st1.stack.len() - b + depth(
            #[trigger] w.skip(1).take(k),
        ) >= 0 by {
            lemma_depth_cons(w, k);
            assert(st.stack.len() - b + depth(w.take(k + 1)) >= 0);
        }
        lemma_run_preserves_bottom(table, turn, w.skip(1), st1, b);
    }
}

proof fn lemma_find_close(s: Seq<char>, j: int) -> (jj: int)
    requires
        1 <= j <= s.len(),
        depth(s) == 0,
        forall|m: int| 1 <= m < j ==> depth(#[trigger] s.take(m)) != 0,
    ensures
        j <= jj <= s.len(),
        depth(s.take(jj)) == 0,
        forall|m: int| 1 <= m < jj ==> depth(#[trigger] s.take(m)) != 0,
    decreases s.len() - j,
{
    if depth(s.take(j)) == 0 {
        j
    } else {
        assert(s.take(s.len() as int) =~= s);
        assert(j < s.len());
        lemma_find_close(s, j + 1)
    }
}

/// Running one complete bracketed group restores the turtle state exactly.
proof fn lemma_group_run(table: Seq<(i64, i64)>, turn: int, s: Seq<char>, st: TurtleState, j: int)
    requires
        2 <= j <= s.len(),
        s[0] == '[',
        s[j - 1] == ']',
        depth(s.take(j)) == 0,
        forall|m: int| 1 <= m < j ==> depth(#[trigger] s.take(m)) >= 1,
    ensures
        (run_from(table, turn, s.take(j), st) matches Ok(p) && p.0 == st),
{
    let grp = s.take(j);
    let sp = step_char(table, turn, '[', st);
    let st1 = sp->Some_0.0;
    let frame = (st.x, st.y, st.heading);
    assert(st1.stack == st.stack.push(frame));
    let inner = s.subrange(1, j - 1);
    assert(grp.skip(1) =~= inner + seq![']']);
    // prefixes of `inner` keep the pushed frame in place
    assert forall|k: int| 0 <= k <= inner.len() implies st1.stack.len() - st.stack.len() - 1
        + depth(#[trigger] inner.take(k)) >= 0 by {
        assert(s.take(k + 1) =~= s.take(1) + inner.take(k));
        lemma_depth_concat(s.take(1), inner.take(k));
        assert(s.take(1) =~= seq![s[0]]);
        assert(depth(seq![s[0]]) == 1 + depth(seq![s[0]].skip(1)));
        assert(seq![s[0]].skip(1) =~= Seq::<char>::empty());
        assert(depth(s.take(k + 1)) == 1 + depth(inner.take(k)));
        if k + 1 < j {
            assert(depth(s.take(k + 1)) >= 1);
        } else {
            assert(k + 1 == j);
            assert(inner.take(k) =~= inner);
            assert(s.take(k + 1) =~= s.take(j - 1) + seq![s[j - 1]]);
            lemma_depth_concat(s.take(j - 1), seq![s[j - 1]]);
            assert(seq![s[j - 1]].skip(1) =~= Seq::<char>::empty());
            assert(depth(seq![s[j - 1]]) == -1);
            assert(depth(s.take(j - 1)) >= 1);
        }
    }
    lemma_run_preserves_bottom(table, turn, inner, st1, st1.stack.len() as int);
    let p = run_from(table, turn, inner, st1)->Ok_0;
    // the group's interior nets to depth zero, so the stack is exactly restored
    assert(s.take(j) =~= s.take(j - 1) + seq![s[j - 1]]);
    lemma_depth_concat(s.take(j - 1), seq![s[j - 1]]);
    assert(seq![s[j - 1]].skip(1) =~= Seq::<char>::empty());
    assert(depth(Seq::<char>::empty()) == 0);
    assert(depth(seq![s[j - 1]]) == depth_delta(s[j - 1]) + depth(seq![s[j - 1]].skip(1)));
    assert(depth(s.take(j - 1)) == 1);
    assert(s.take(j - 1) =~= s.take(1) + inner);
    lemma_depth_concat(s.take(1), inner);
    assert(s.take(1) =~= seq![s[0]]);
    assert(seq![s[0]].skip(1) =~= Seq::<char>::empty());
    assert(depth(inner) == 0);
    assert(p.0.stack.len() == st1.stack.len());
    assert(p.0.stack =~= st1.stack);
    // the closing bracket pops the frame and restores the state
    let sp2 = step_char(table, turn, ']', p.0);
    assert(p.0.stack.last() == frame);
    assert(sp2 is Some);
    let st2 = sp2->Some_0.0;
    assert(st2.stack =~= st.stack);
    assert(st2 =~= st);
    assert(seq![']'][0] == ']');
    assert(p.0.stack.len() > 0);
    assert(seq![']'].skip(1) =~= Seq::<char>::empty());
    assert(step_char(table, turn, seq![']'][0], p.0)->Some_0.0 == st2);
    assert(run_from(table, turn, seq![']'].skip(1), st2) == Ok::<
        (TurtleState, Seq<Primitive>),
        int,
    >((st2, Seq::<Primitive>::empty())));
    assert(run_from(table, turn, seq![']'], p.0) is Ok);
    assert(run_from(table, turn, seq![']'], p.0)->Ok_0.0 == st2);
    lemma_run_concat(table, turn, inner, seq![']'], st1);
    assert(run_from(table, turn, grp.skip(1), st1) matches Ok(q) && q.0 == st);
    assert(grp[0] == '[');
    assert(step_char(table, turn, grp[0], st) == sp);
}

proof fn lemma_final_state_cons(table: Seq<(i64, i64)>, turn: int, s: Seq<char>, st: TurtleState)
    requires
        s.len() >= 1,
        step_char(table, turn, s[0], st) is Some,
    ensures
        final_state(table, turn, s, st) == final_state(
            table,
            turn,
            s.skip(1),
            step_char(table, turn, s[0], st)->Some_0.0,
        ),
{
}

/// Bracket elision: on a balanced string the interpreter succeeds, and its
/// final state — position, heading and stack — is exactly the state produced
/// by the same string with every bracketed group removed.
pub proof fn theorem_bracket_elision(
    table: Seq<(i64, i64)>,
    turn: int,
    s: Seq<char>,
    st: TurtleState,
)
    requires
        balanced(s),
    ensures
        final_state(table, turn, s, st) is Some,
        final_state(table, turn, strip_brackets(s), st) == final_state(table, turn, s, st),
    decreases s.len(),
{
    if s.len() == 0 {
    } else {
        let c = s[0];
        assert(s.take(1) =~= seq![c]);
        assert(seq![c].skip(1) =~= Seq::<char>::empty());
        assert(depth(Seq::<char>::empty()) == 0);
        assert(depth(seq![c]) == depth_delta(c) + depth(seq![c].skip(1)));
        assert(depth(s.take(1)) == depth_delta(c));
        assert(depth_delta(c) >= 0);
        if c != '[' {
            assert(c != ']');
            let sp = step_char(table, turn, c, st);
            assert(sp matches Some(p) && p.0 == st || sp is Some);
            let st1 = sp->Some_0.0;
            // the tail is balanced as well
            assert(depth(s) == depth_delta(c) + depth(s.skip(1)));
            assert forall|k: int| 0 <= k <= s.skip(1).len() implies depth(
                #[trigger] s.skip(1).take(k),
            ) >= 0 by {
                lemma_depth_cons(s, k);
                assert(depth(s.take(k + 1)) >= 0);
            }
            theorem_bracket_elision(table, turn, s.skip(1), st1);
            lemma_final_state_cons(table, turn, s, st);
            // stripping keeps an ordinary head symbol
            assert(strip_brackets(s) == seq![c] + strip_at(s.skip(1), 0));
            assert(strip_brackets(s)[0] == c);
            assert(strip_brackets(s).skip(1) =~= strip_at(s.skip(1), 0));
            lemma_final_state_cons(table, turn, strip_brackets(s), st);
        } else {
            let j = lemma_find_close(s, 1);
            assert forall|m: int| 1 <= m < j implies depth(#[trigger] s.take(m)) >= 1 by {}
            assert(j >= 2) by {
                assert(depth(s.take(1)) == 1);
            }
            assert(s.take(j) =~= s.take(j - 1) + seq![s[j - 1]]);
            lemma_depth_concat(s.take(j - 1), seq![s[j - 1]]);
            assert(seq![s[j - 1]].skip(1) =~= Seq::<char>::empty());
            assert(depth(seq![s[j - 1]]) == depth_delta(s[j - 1]));
            assert(depth(s.take(j - 1)) >= 1);
            assert(depth_delta(s[j - 1]) <= -1);
            assert(s[j - 1] == ']');
            lemma_group_run(table, turn, s, st, j);
            // the rest of the string is balanced
            assert(s =~= s.take(j) + s.skip(j));
            lemma_depth_concat(s.take(j), s.skip(j));
            assert(depth(s.skip(j)) == 0);
            assert forall|k: int| 0 <= k <= s.skip(j).len() implies depth(
                #[trigger] s.skip(j).take(k),
            ) >= 0 by {
                assert(s.take(j + k) =~= s.take(j) + s.skip(j).take(k));
                lemma_depth_concat(s.take(j), s.skip(j).take(k));
                assert(depth(s.take(j + k)) >= 0);
            }
            theorem_bracket_elision(table, turn, s.skip(j), st);
            // the whole group strips away
            lemma_strip_concat(s.take(j), s.skip(j), 0);
            assert(strip_at(s.take(j), 0) == strip_at(s.take(j).skip(1), 1));
            assert(s.take(j).skip(1) =~= s.subrange(1, j));
            assert forall|k: int| 0 <= k < s.subrange(1, j).len() implies 1 + depth(
                #[trigger] s.subrange(1, j).take(k),
            ) >= 1 by {
                assert(s.take(k + 1) =~= s.take(1) + s.subrange(1, j).take(k));
                lemma_depth_concat(s.take(1), s.subrange(1, j).take(k));
                assert(depth(s.take(k + 1)) >= 0);
            }
            lemma_strip_deep(s.subrange(1, j), 1);
            assert(strip_brackets(s) == strip_at(s.take(j), 0) + strip_at(s.skip(j), 0));
            assert(Seq::<char>::empty() + strip_at(s.skip(j), 0) =~= strip_at(s.skip(j), 0));
            assert(strip_brackets(s) == strip_brackets(s.skip(j)));
            // gluing the runs back together
            lemma_run_concat(table, turn, s.take(j), s.skip(j), st);
            assert(final_state(table, turn, s, st) == final_state(table, turn, s.skip(j), st));
        }
    }
}

/// The interpreter loop's summary so far: running the rest of `s` from `cur`
/// completes the whole run of `s` from `st0`, with `emitted` already out.
pub open spec fn inv_run(
    table: Seq<(i64, i64)>,
    turn: int,
    s: Seq<char>,
    st0: TurtleState,
    i: int,
    cur: TurtleState,
    emitted: Seq<Primitive>,
) -> bool {
    match run_from(table, turn, s.skip(i), cur) {
        Ok(p) => run_from(table, turn, s, st0) == Ok::<(TurtleState, Seq<Primitive>), int>(
            (p.0, emitted + p.1),
        ),
        Err(k) => run_from(table, turn, s, st0) == Err::<(TurtleState, Seq<Primitive>), int>(
            k + i,
        ),
    }
}

proof fn lemma_inv_run_init(table: Seq<(i64, i64)>, turn: int, s: Seq<char>, st0: TurtleState)
    ensures
        inv_run(table, turn, s, st0, 0, st0, Seq::empty()),
{
    assert(s.skip(0) =~= s);
    match run_from(table, turn, s, st0) {
        Ok(p) => {
            assert(Seq::<Primitive>::empty() + p.1 =~= p.1);
        },
        Err(_) => {},
    }
}

proof fn lemma_inv_run_step(
    table: Seq<(i64, i64)>,
    turn: int,
    s: Seq<char>,
    st0: TurtleState,
    i: int,
    cur: TurtleState,
    emitted: Seq<Primitive>,
    post: TurtleState,
    ems: Seq<Primitive>,
)
    requires
        0 <= i < s.len(),
        inv_run(table, turn, s, st0, i, cur, emitted),
        step_char(table, turn, s[i], cur) matches Some(sp) && sp.0 == post && sp.1 == ems,
    ensures
        inv_run(table, turn, s, st0, i + 1, post, emitted + ems),
{
    assert(s.skip(i)[0] == s[i]);
    assert(s.skip(i).skip(1) =~= s.skip(i + 1));
    match run_from(table, turn, s.skip(i + 1), post) {
        Ok(p) => {
            assert(run_from(table, turn, s.skip(i), cur) == Ok::<
                (TurtleState, Seq<Primitive>),
                int,
            >((p.0, ems + p.1)));
            assert(emitted + (ems + p.1) =~= (emitted + ems) + p.1);
        },
        Err(k) => {
            assert(run_from(table, turn, s.skip(i), cur) == Err::<
                (TurtleState, Seq<Primitive>),
                int,
            >(k + 1));
        },
    }
}

proof fn lemma_inv_run_fail(
    table: Seq<(i64, i64)>,
    turn: int,
    s: Seq<char>,
    st0: TurtleState,
    i: int,
    cur: TurtleState,
    emitted: Seq<Primitive>,
)
    requires
        0 <= i < s.len(),
        inv_run(table, turn, s, st0, i, cur, emitted),
        step_char(table, turn, s[i], cur) is None,
    ensures
        run_from(table, turn, s, st0) == Err::<(TurtleState, Seq<Primitive>), int>(i),
{
    assert(s.skip(i)[0] == s[i]);
    assert(run_from(table, turn, s.skip(i), cur) == Err::<(TurtleState, Seq<Primitive>), int>(0));
}

proof fn lemma_inv_run_done(
    table: Seq<(i64, i64)>,
    turn: int,
    s: Seq<char>,
    st0: TurtleState,
    cur: TurtleState,
    emitted: Seq<Primitive>,
)
    requires
        inv_run(table, turn, s, st0, s.len() as int, cur, emitted),
    ensures
        run_from(table, turn, s, st0) == Ok::<(TurtleState, Seq<Primitive>), int>((cur, emitted)),
{
    assert(s.skip(s.len() as int) =~= Seq::<char>::empty());
    assert(run_from(table, turn, s.skip(s.len() as int), cur) == Ok::<
        (TurtleState, Seq<Primitive>),
        int,
    >((cur, Seq::<Primitive>::empty())));
    assert(emitted + Seq::<Primitive>::empty() =~= emitted);
}

/// Interprets `symbols` as turtle commands: starting at the origin with the
/// given heading, it emits an initial pen-up move and then one primitive for
/// every `F` and every `]`. `table` maps a heading in degrees to the
/// displacement one step takes, in the caller's fixed-point unit. Fails
/// exactly when some `]` finds no saved state, naming the first such offset.
#[verifier::rlimit(100)]
pub fn interpret(
    symbols: &str,
    table: &Vec<(i64, i64)>,
    turn_degrees: i64,
    init_heading: i64,
) -> (r: Result<Vec<Primitive>, LsysError>)
    requires
        table_ok(table@),
        symbols@.len() <= MAX_SYMBOLS,
    ensures
        (match run_from(
            table@,
            norm360(turn_degrees as int),
            symbols@,
            init_state(init_heading as int),
        ) {
            Ok(p) => r matches Ok(prims) && prims@ == seq![Primitive::MoveTo { x: 0, y: 0 }]
                + p.1,
            Err(k) => r == Err::<Vec<Primitive>, LsysError>(
                LsysError::UnbalancedBracket { offset: k as usize },
            ),
        }),
{
    let ghost t0 = norm360(turn_degrees as int);
    let ghost st0 = init_state(init_heading as int);
    let turn = norm_degrees(turn_degrees);
    let mut x: i64 = 0;
    let mut y: i64 = 0;
    let mut heading: i64 = norm_degrees(init_heading);
    let mut stack: Vec<(i64, i64, i64)> = Vec::new();
    let mut out: Vec<Primitive> = Vec::new();
    out.push(Primitive::MoveTo { x: 0, y: 0 });
    let n = symbols.unicode_len();
    let mut i: usize = 0;
    proof {
        assert(lift_state(x, y, heading, stack@).stack =~= st0.stack);
        assert(lift_state(x, y, heading, stack@) =~= st0);
        lemma_inv_run_init(table@, t0, symbols@, st0);
        assert(out@.skip(1) =~= Seq::<Primitive>::empty());
    }
    while i < n
        invariant
            n == symbols@.len(),
            n <= MAX_SYMBOLS,
            table_ok(table@),
            i <= n,
            t0 == norm360(turn_degrees as int),
            st0 == init_state(init_heading as int),
            0 <= turn < 360,
            turn as int == t0,
            0 <= heading < 360,
            -0x4000_0000 * (i as int) <= x as int <= 0x4000_0000 * (i as int),
            -0x4000_0000 * (i as int) <= y as int <= 0x4000_0000 * (i as int),
            stack@.len() <= i,
            forall|k: int|
                0 <= k < stack@.len() ==> -0x4000_0000 * (i as int) <= (
                #[trigger] stack@[k]).0 as int <= 0x4000_0000 * (i as int) && -0x4000_0000 * (
                i as int) <= stack@[k].1 as int <= 0x4000_0000 * (i as int) && 0 <= stack@[k].2
                    < 360,
            out@.len() >= 1,
            out@[0] == (Primitive::MoveTo { x: 0, y: 0 }),
            inv_run(table@, t0, symbols@, st0, i as int, lift_state(x, y, heading, stack@), out@.skip(1)),
        decreases n - i,
    {
        let ghost pre = lift_state(x, y, heading, stack@);
        let ghost rem = symbols@.skip(i as int);
        let ghost out_pre = out@;
        proof {
            assert(rem[0] == symbols@[i as int]);
            assert(rem.skip(1) =~= symbols@.skip(i + 1));
        }
        let c = symbols.get_char(i);
        if c == 'F' {
            let dx = table[heading as usize].0;
            let dy = table[heading as usize].1;
            proof {
                assert(i as int + 1 <= 0x4000_0000);
                assert(-0x4000_0000 <= dx as int <= 0x4000_0000);
                assert(-0x4000_0000 <= dy as int <= 0x4000_0000);
                assert(-0x4000_0000 * ((i as int) + 1) <= (x as int) + (dx as int)
                    <= 0x4000_0000 * ((i as int) + 1));
                assert(-0x4000_0000 * ((i as int) + 1) <= (y as int) + (dy as int)
                    <= 0x4000_0000 * ((i as int) + 1));
                assert(0x4000_0000 * ((i as int) + 1) <= 0x1000_0000_0000_0000int);
                assert(-0x4000_0000 * ((i as int) + 1) >= -0x1000_0000_0000_0000int);
            }
            x = x + dx;
            y = y + dy;
            out.push(Primitive::LineTo { x: x, y: y });
            proof {
                let post = lift_state(x, y, heading, stack@);
                let sp = step_char(table@, t0, c, pre);
                assert(sp matches Some(p) && p.0 =~= post && p.1 =~= seq![Primitive::LineTo { x: x, y: y }]);
            }
        } else if c == '+' {
            heading = heading + turn;
            if heading >= 360 {
                heading = heading - 360;
            }
            proof {
                if pre.heading + t0 < 360 {
                    lemma_norm_small(pre.heading + t0);
                } else {
                    lemma_norm_wrap(pre.heading + t0);
                }
                let post = lift_state(x, y, heading, stack@);
                assert(step_char(table@, t0, c, pre) matches Some(p) && p.0 =~= post && p.1
                    =~= Seq::<Primitive>::empty());
            }
        } else if c == '-' || c == '\u{2212}' {
            heading = heading + 360 - turn;
            if heading >= 360 {
                heading = heading - 360;
            }
            proof {
                lemma_norm_add_360(pre.heading - t0);
                if pre.heading - t0 + 360 < 360 {
                    lemma_norm_small(pre.heading - t0 + 360);
                } else {
                    lemma_norm_wrap(pre.heading - t0 + 360);
                }
                let post = lift_state(x, y, heading, stack@);
                assert(step_char(table@, t0, c, pre) matches Some(p) && p.0 =~= post && p.1
                    =~= Seq::<Primitive>::empty());
            }
        } else if c == '[' {
            stack.push((x, y, heading));
            proof {
                let post = lift_state(x, y, heading, stack@);
                assert(post.stack =~= pre.stack.push((x as int, y as int, heading as int)));
                assert(step_char(table@, t0, c, pre) matches Some(p) && p.0 =~= post && p.1
                    =~= Seq::<Primitive>::empty());
            }
        } else if c == ']' {
            match stack.pop() {
                Some(frame) => {
                    x = frame.0;
                    y = frame.1;
                    heading = frame.2;
                    out.push(Primitive::MoveTo { x: x, y: y });
                    proof {
                        let post = lift_state(x, y, heading, stack@);
                        assert(pre.stack.last() == (x as int, y as int, heading as int));
                        assert(post.stack =~= pre.stack.drop_last());
                        assert(step_char(table@, t0, c, pre) matches Some(p) && p.0 =~= post
                            && p.1 =~= seq![Primitive::MoveTo { x: x, y: y }]);
                    }
                },
                None => {
                    proof {
                        assert(pre.stack =~= Seq::<(int, int, int)>::empty());
                        assert(step_char(table@, t0, c, pre) is None);
                        lemma_inv_run_fail(table@, t0, symbols@, st0, i as int, pre, out_pre.skip(1));
                        assert(run_from(table@, t0, symbols@, st0) == Err::<
                            (TurtleState, Seq<Primitive>),
                            int,
                        >(i as int));
                        assert((i as int) as usize == i);
                    }
                    return Err(LsysError::UnbalancedBracket { offset: i });
                },
            }
        } else {
            proof {
                assert(step_char(table@, t0, c, pre) matches Some(p) && p.0 =~= pre && p.1
                    =~= Seq::<Primitive>::empty());
            }
        }
        proof {
            let post = lift_state(x, y, heading, stack@);
            let sp = step_char(table@, t0, rem[0], pre);
            assert(sp matches Some(p) && p.0 == post);
            let ems = sp->Some_0.1;
            lemma_inv_run_step(
                table@,
                t0,
                symbols@,
                st0,
                i as int,
                pre,
                out_pre.skip(1),
                post,
                ems,
            );
            assert(out@.skip(1) =~= out_pre.skip(1) + ems);
        }
        i = i + 1;
    }
    proof {
        let cur = lift_state(x, y, heading, stack@);
        lemma_inv_run_done(table@, t0, symbols@, st0, cur, out@.skip(1));
        assert(out@ =~= seq![Primitive::MoveTo { x: 0, y: 0 }] + out@.skip(1));
    }
    Ok(out)
}

} // verus!
