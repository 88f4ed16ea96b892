//! The precedence table and the climbing engine.

use crate::operators::Assoc;
use crate::operators::Operator;
use vstd::prelude::*;

verus! {

/// One row of the precedence table: a rule tag bound to the precedence and
/// associativity it was declared with.
#[derive(Clone, Copy, Debug)]
pub struct Row {
    /// The rule tag this row is about.
    pub rule: u64,
    /// The 1-based precedence of the group the rule was declared in.
    pub prec: u32,
    /// The associativity the rule was declared with.
    pub assoc: Assoc,
}

/// The table that a sequence of rows denotes: rows are read in order, and a
/// later row for the same rule overwrites an earlier one.
pub open spec fn table_from_rows(rows: Seq<Row>) -> Map<u64, (u32, Assoc)>
    decreases rows.len(),
{
    if rows.len() == 0 {
        Map::empty()
    } else {
        table_from_rows(rows.drop_last()).insert(
            rows.last().rule,
            (rows.last().prec, rows.last().assoc),
        )
    }
}

/// The rows of one operator chain, every one at precedence `prec`.
pub open spec fn chain_rows(chain: Seq<(u64, Assoc)>, prec: u32) -> Seq<Row> {
    chain.map_values(|p: (u64, Assoc)| Row { rule: p.0, prec, assoc: p.1 })
}

/// The rows of a sequence of chains, in declaration order, the first chain at
/// precedence `first_prec` and each following chain one level higher.
pub open spec fn rows_of(groups: Seq<Operator>, first_prec: u32) -> Seq<Row>
    decreases groups.len(),
{
    if groups.len() == 0 {
        Seq::empty()
    } else {
        chain_rows(groups[0]@, first_prec) + rows_of(
            groups.drop_first(),
            (first_prec + 1) as u32,
        )
    }
}

/// The precedence table denoted by an ordered sequence of operator chains:
/// chain number `i` (0-based) is entered at precedence `i + 1`, and a rule
/// declared twice keeps the later declaration.
pub open spec fn table_of(groups: Seq<Operator>) -> Map<u64, (u32, Assoc)> {
    table_from_rows(rows_of(groups, 1))
}

/// A precedence table, mapping each declared rule tag to its precedence and
/// associativity. Built once by [`PrecClimber::new`] and never mutated.
#[derive(Debug)]
pub struct PrecClimber {
    rows: Vec<Row>,
}

impl View for PrecClimber {
    type V = Map<u64, (u32, Assoc)>;

    closed spec fn view(&self) -> Map<u64, (u32, Assoc)> {
        table_from_rows(self.rows@)
    }
}

/// Appends the rows of one whole chain, all at precedence `prec`.
fn push_chain(rows: &mut Vec<Row>, op: &Operator, prec: u32)
    ensures
        final(rows)@ == old(rows)@ + chain_rows(op@, prec),
    decreases *op,
{
    rows.push(Row { rule: op.rule, prec, assoc: op.assoc });
    match &op.next {
        Some(tail) => {
            push_chain(rows, &**tail, prec);
            proof {
                assert(rows@ =~= old(rows)@ + chain_rows(op@, prec));
            }
        },
        None => {
            proof {
                assert(rows@ =~= old(rows)@ + chain_rows(op@, prec));
            }
        },
    }
}

impl PrecClimber {
    /// Derives the precedence table from the operator chains in `groups`:
    /// every operator of `groups[i]` gets precedence `i + 1`, and when a rule
    /// appears in more than one chain the last occurrence wins.
    pub fn new(groups: Vec<Operator>) -> (climber: PrecClimber)
        requires
            groups@.len() < u32::MAX,
        ensures
            climber@ == table_of(groups@),
    {
        let mut rows: Vec<Row> = Vec::new();
        let mut k: usize = 0;
        while k < groups.len()
            invariant
                groups@.len() < u32::MAX,
                k <= groups@.len(),
                rows@ == rows_of(groups@.take(k as int), 1),
            decreases groups@.len() - k,
        {
            let prec: u32 = (k as u32) + 1;
            push_chain(&mut rows, &groups[k], prec);
            proof {
                lemma_rows_of_push(groups@.take(k as int), groups@[k as int], 1);
                assert(groups@.take(k as int).push(groups@[k as int]) =~= groups@.take(
                    k as int + 1,
                ));
            }
            k = k + 1;
        }
        proof {
            assert(groups@.take(groups@.len() as int) =~= groups@);
        }
        PrecClimber { rows }
    }

    /// Looks a rule tag up in the table: its precedence and associativity
    /// when the rule was declared, `None` otherwise.
    pub fn lookup(&self, rule: u64) -> (entry: Option<(u32, Assoc)>)
        ensures
            entry is Some <==> self@.contains_key(rule),
            entry matches Some(pa) ==> pa == self@[rule],
    {
        let ghost full = self.rows@;
        let mut i: usize = self.rows.len();
        proof {
            assert(full.take(full.len() as int) =~= full);
        }
        while i > 0
            invariant
                i <= self.rows@.len(),
                full == self.rows@,
                table_from_rows(full).contains_key(rule) == table_from_rows(
                    full.take(i as int),
                ).contains_key(rule),
                table_from_rows(full).contains_key(rule) ==> table_from_rows(
                    full.take(i as int),
                )[rule] == table_from_rows(full)[rule],
            decreases i,
        {
            i = i - 1;
            let row = self.rows[i];
            proof {
                assert(full.take(i as int + 1).drop_last() =~= full.take(i as int));
                assert(full.take(i as int + 1).last() == full[i as int]);
            }
            if row.rule == rule {
                return Some((row.prec, row.assoc));
            }
        }
        proof {
            assert(full.take(0) =~= Seq::<Row>::empty());
        }
        None
    }
}

/// A token handed to the climber: a rule tag the table is consulted with,
/// and an opaque payload that only the primary callback reads.
pub struct Token<P> {
    /// The rule identity of this token.
    pub rule: u64,
    /// Whatever the tokenizer attached to the token; opaque to the climber.
    pub payload: P,
}

/// The two structural violations a climb rejects.
#[derive(Clone, Copy, Debug, PartialEq, Eq, Structural)]
pub enum ClimbError {
    /// The token sequence was empty; non-empty input is required.
    EmptyInput,
    /// An operator token was consumed but no right-hand operand followed it.
    MissingRhs,
}

/// How a climb associates the tokens it consumes: which primary tokens stand
/// at the leaves and which operator token combines which two subtrees. The
/// integers are indices into the token sequence.
pub enum Grouping {
    /// The primary token at this index, mapped by the primary callback.
    Primary(int),
    /// The operator token at the middle index, combining the two groupings.
    Infix(Box<Grouping>, int, Box<Grouping>),
}

/// What a climb comes to: a fatal structural violation, or a grouping of the
/// consumed tokens together with the index of the first token left over.
pub enum Climbed {
    /// The climb aborts with this violation.
    Fatal(ClimbError),
    /// The climb reduces this grouping and stops in front of this index.
    Done(Grouping, int),
}

/// One pass of the climbing loop: with `acc` grouping everything consumed so
/// far, repeatedly take an operator of precedence at least `min_prec` at
/// position `i` together with its right-hand side, until a token stops the
/// climb or the input ends.
pub open spec fn spec_climb_loop<P>(
    table: Map<u64, (u32, Assoc)>,
    toks: Seq<Token<P>>,
    acc: Grouping,
    i: int,
    min_prec: u32,
) -> Climbed
    decreases toks.len() - i, 0int,
{
    if !(0 <= i < toks.len()) {
        Climbed::Done(acc, i)
    } else if !table.contains_key(toks[i].rule) {
        Climbed::Done(acc, i)
    } else {
        let pa = table[toks[i].rule];
        if pa.0 < min_prec {
            Climbed::Done(acc, i)
        } else if i + 1 >= toks.len() {
            Climbed::Fatal(ClimbError::MissingRhs)
        } else {
            match spec_absorb(table, toks, Grouping::Primary(i + 1), i + 2, pa.0, pa.1) {
                Climbed::Fatal(e) => Climbed::Fatal(e),
                Climbed::Done(rhs, j) => if i < j <= toks.len() {
                    spec_climb_loop(
                        table,
                        toks,
                        Grouping::Infix(Box::new(acc), i, Box::new(rhs)),
                        j,
                        min_prec,
                    )
                } else {
                    // never reached: absorbing starts past i and never retreats
                    Climbed::Done(acc, i)
                },
            }
        }
    }
}

/// The lookahead of the climbing loop: while the token at `j` is an operator
/// that binds tighter than the operator just consumed (strictly higher
/// precedence, or equal precedence with that operator right-associative),
/// absorb its subexpression into the provisional right-hand side `rhs`.
pub open spec fn spec_absorb<P>(
    table: Map<u64, (u32, Assoc)>,
    toks: Seq<Token<P>>,
    rhs: Grouping,
    j: int,
    prec: u32,
    assoc: Assoc,
) -> Climbed
    decreases toks.len() - j, 1int,
{
    if !(0 <= j < toks.len()) {
        Climbed::Done(rhs, j)
    } else if !table.contains_key(toks[j].rule) {
        Climbed::Done(rhs, j)
    } else {
        let pa = table[toks[j].rule];
        if pa.0 > prec || (pa.0 == prec && assoc == Assoc::Right) {
            match spec_climb_loop(table, toks, rhs, j, pa.0) {
                Climbed::Fatal(e) => Climbed::Fatal(e),
                Climbed::Done(rhs2, j2) => if j < j2 <= toks.len() {
                    spec_absorb(table, toks, rhs2, j2, prec, assoc)
                } else {
                    // never reached: that climb consumes the operator at j
                    Climbed::Done(rhs2, j2)
                },
            }
        } else {
            Climbed::Done(rhs, j)
        }
    }
}

/// What a whole climb over `toks` comes to: empty input is fatal, and
/// otherwise the first token is the initial left-hand primary and the
/// climbing loop runs with no lower precedence bound.
pub open spec fn spec_climb<P>(table: Map<u64, (u32, Assoc)>, toks: Seq<Token<P>>) -> Climbed {
    if toks.len() == 0 {
        Climbed::Fatal(ClimbError::EmptyInput)
    } else {
        spec_climb_loop(table, toks, Grouping::Primary(0), 1, 0)
    }
}

/// Relates a grouping to a value: `v` is a result of mapping every leaf's
/// token with the primary callback and combining the subtrees' values across
/// each infix node's token with the infix callback.
pub open spec fn evaluates_to<P, T, F: Fn(&Token<P>) -> T, G: Fn(T, &Token<P>, T) -> T>(
    primary: F,
    infix: G,
    toks: Seq<Token<P>>,
    g: Grouping,
    v: T,
) -> bool
    decreases g,
{
    match g {
        Grouping::Primary(i) => 0 <= i < toks.len() && call_ensures(primary, (&toks[i],), v),
        Grouping::Infix(l, op, r) => 0 <= op < toks.len() && exists|a: T, b: T|
            evaluates_to(primary, infix, toks, *l, a) && evaluates_to(primary, infix, toks, *r, b)
                && #[trigger] call_ensures(infix, (a, &toks[op], b), v),
    }
}

/// A climbing loop never stops before the position it started at, never
/// stops past the end, and consumes the operator in front of it (with the
/// primary after that) whenever that operator's precedence reaches
/// `min_prec`.
proof fn lemma_spec_climb_loop_bounds<P>(
    table: Map<u64, (u32, Assoc)>,
    toks: Seq<Token<P>>,
    acc: Grouping,
    i: int,
    min_prec: u32,
)
    requires
        0 <= i <= toks.len(),
    ensures
        match spec_climb_loop(table, toks, acc, i, min_prec) {
            Climbed::Done(g, j) => i <= j <= toks.len() && ((i < toks.len()
                && table.contains_key(toks[i].rule) && table[toks[i].rule].0 >= min_prec) ==> j
                >= i + 2),
            Climbed::Fatal(_) => true,
        },
    decreases toks.len() - i, 0int,
{
    if i < toks.len() && table.contains_key(toks[i].rule) {
        let pa = table[toks[i].rule];
        if pa.0 >= min_prec && i + 1 < toks.len() {
            lemma_spec_absorb_bounds(table, toks, Grouping::Primary(i + 1), i + 2, pa.0, pa.1);
            match spec_absorb(table, toks, Grouping::Primary(i + 1), i + 2, pa.0, pa.1) {
                Climbed::Fatal(_) => {},
                Climbed::Done(rhs, j) => {
                    if i < j <= toks.len() {
                        lemma_spec_climb_loop_bounds(
                            table,
                            toks,
                            Grouping::Infix(Box::new(acc), i, Box::new(rhs)),
                            j,
                            min_prec,
                        );
                    }
                },
            }
        }
    }
}

/// The lookahead never retreats and never stops past the end.
proof fn lemma_spec_absorb_bounds<P>(
    table: Map<u64, (u32, Assoc)>,
    toks: Seq<Token<P>>,
    rhs: Grouping,
    j: int,
    prec: u32,
    assoc: Assoc,
)
    requires
        0 <= j <= toks.len(),
    ensures
        match spec_absorb(table, toks, rhs, j, prec, assoc) {
            Climbed::Done(g, j2) => j <= j2 <= toks.len(),
            Climbed::Fatal(_) => true,
        },
    decreases toks.len() - j, 1int,
{
    if j < toks.len() && table.contains_key(toks[j].rule) {
        let pa = table[toks[j].rule];
        if pa.0 > prec || (pa.0 == prec && assoc == Assoc::Right) {
            lemma_spec_climb_loop_bounds(table, toks, rhs, j, pa.0);
            match spec_climb_loop(table, toks, rhs, j, pa.0) {
                Climbed::Fatal(_) => {},
                Climbed::Done(rhs2, j2) => {
                    if j < j2 <= toks.len() {
                        lemma_spec_absorb_bounds(table, toks, rhs2, j2, prec, assoc);
                    }
                },
            }
        }
    }
}

impl PrecClimber {
    /// The climbing loop: `lhs` is the value of everything consumed so far
    /// (grouped as `acc`), and operators of precedence at least `min_prec`
    /// starting at `i` are folded into it.
    fn climb_rec<P, T, F: Fn(&Token<P>) -> T, G: Fn(T, &Token<P>, T) -> T>(
        &self,
        toks: &Vec<Token<P>>,
        lhs: T,
        acc: Ghost<Grouping>,
        i: usize,
        min_prec: u32,
        primary: &F,
        infix: &G,
    ) -> (out: Result<(T, usize), ClimbError>)
        requires
            i <= toks@.len(),
            evaluates_to(*primary, *infix, toks@, acc@, lhs),
            forall|t: &Token<P>| call_requires(*primary, (t,)),
            forall|a: T, t: &Token<P>, b: T| call_requires(*infix, (a, t, b)),
        ensures
            match spec_climb_loop(self@, toks@, acc@, i as int, min_prec) {
                Climbed::Fatal(e) => out == Err::<(T, usize), ClimbError>(e),
                Climbed::Done(g, j) => out matches Ok(p) && p.1 == j && evaluates_to(
                    *primary,
                    *infix,
                    toks@,
                    g,
                    p.0,
                ),
            },
        decreases toks@.len() - i, 0int,
    {
        if i >= toks.len() {
            return Ok((lhs, i));
        }
        match self.lookup(toks[i].rule) {
            None => Ok((lhs, i)),
            Some((prec, assoc)) => {
                if prec < min_prec {
                    Ok((lhs, i))
                } else if i + 1 >= toks.len() {
                    Err(ClimbError::MissingRhs)
                } else {
                    let rhs0 = primary(&toks[i + 1]);
                    let ghost rhs_acc = Grouping::Primary(i + 1);
                    match self.absorb_rec(toks, rhs0, Ghost(rhs_acc), i + 2, prec, assoc, primary, infix) {
                        Err(e) => Err(e),
                        Ok((rhs, j)) => {
                            proof {
                                lemma_spec_absorb_bounds(
                                    self@,
                                    toks@,
                                    rhs_acc,
                                    i + 2,
                                    prec,
                                    assoc,
                                );
                            }
                            let ghost g_rhs = spec_absorb(
                                self@,
                                toks@,
                                rhs_acc,
                                i + 2,
                                prec,
                                assoc,
                            )->Done_0;
                            let combined = infix(lhs, &toks[i], rhs);
                            let ghost new_acc = Grouping::Infix(
                                Box::new(acc@),
                                i as int,
                                Box::new(g_rhs),
                            );
                            proof {
                                assert(evaluates_to(*primary, *infix, toks@, new_acc, combined));
                            }
                            self.climb_rec(toks, combined, Ghost(new_acc), j, min_prec, primary, infix)
                        },
                    }
                }
            },
        }
    }

    /// The lookahead: absorbs every following subexpression that binds
    /// tighter than the operator of precedence `prec` and associativity
    /// `assoc` just consumed, extending the provisional right-hand side.
    fn absorb_rec<P, T, F: Fn(&Token<P>) -> T, G: Fn(T, &Token<P>, T) -> T>(
        &self,
        toks: &Vec<Token<P>>,
        rhs: T,
        acc: Ghost<Grouping>,
        j: usize,
        prec: u32,
        assoc: Assoc,
        primary: &F,
        infix: &G,
    ) -> (out: Result<(T, usize), ClimbError>)
        requires
            j <= toks@.len(),
            evaluates_to(*primary, *infix, toks@, acc@, rhs),
            forall|t: &Token<P>| call_requires(*primary, (t,)),
            forall|a: T, t: &Token<P>, b: T| call_requires(*infix, (a, t, b)),
        ensures
            match spec_absorb(self@, toks@, acc@, j as int, prec, assoc) {
                Climbed::Fatal(e) => out == Err::<(T, usize), ClimbError>(e),
                Climbed::Done(g, j2) => out matches Ok(p) && p.1 == j2 && evaluates_to(
                    *primary,
                    *infix,
                    toks@,
                    g,
                    p.0,
                ),
            },
        decreases toks@.len() - j, 1int,
    {
        if j >= toks.len() {
            return Ok((rhs, j));
        }
        match self.lookup(toks[j].rule) {
            None => Ok((rhs, j)),
            Some((prec2, _)) => {
                if prec2 > prec || (prec2 == prec && assoc == Assoc::Right) {
                    match self.climb_rec(toks, rhs, acc, j, prec2, primary, infix) {
                        Err(e) => Err(e),
                        Ok((rhs2, j2)) => {
                            proof {
                                lemma_spec_climb_loop_bounds(self@, toks@, acc@, j as int, prec2);
                            }
                            let ghost g2 = spec_climb_loop(
                                self@,
                                toks@,
                                acc@,
                                j as int,
                                prec2,
                            )->Done_0;
                            self.absorb_rec(toks, rhs2, Ghost(g2), j2, prec, assoc, primary, infix)
                        },
                    }
                } else {
                    Ok((rhs, j))
                }
            },
        }
    }

    /// Reduces the alternating `primary, operator, primary, ...` tokens in
    /// `toks` to one value by precedence climbing: every primary token is
    /// mapped with `primary`, and values are combined across each operator
    /// token with `infix`, grouped by the table's precedences and
    /// associativities. On success the value comes back together with the
    /// index of the first unconsumed token (the first token whose rule the
    /// table does not know, or the length when everything was consumed);
    /// those trailing tokens are the caller's to handle. An empty sequence
    /// and an operator with no right-hand operand after it are rejected.
    pub fn climb<P, T, F: Fn(&Token<P>) -> T, G: Fn(T, &Token<P>, T) -> T>(
        &self,
        toks: &Vec<Token<P>>,
        primary: &F,
        infix: &G,
    ) -> (out: Result<(T, usize), ClimbError>)
        requires
            forall|t: &Token<P>| call_requires(*primary, (t,)),
            forall|a: T, t: &Token<P>, b: T| call_requires(*infix, (a, t, b)),
        ensures
            match spec_climb(self@, toks@) {
                Climbed::Fatal(e) => out == Err::<(T, usize), ClimbError>(e),
                Climbed::Done(g, j) => out matches Ok(p) && p.1 == j && evaluates_to(
                    *primary,
                    *infix,
                    toks@,
                    g,
                    p.0,
                ) && (j == toks@.len() || !self@.contains_key(toks@[j].rule)),
            },
    {
        if toks.len() == 0 {
            return Err(ClimbError::EmptyInput);
        }
        let lhs = primary(&toks[0]);
        proof {
            lemma_spec_climb_loop_stops_outside_table(self@, toks@, Grouping::Primary(0), 1, 0);
        }
        self.climb_rec(toks, lhs, Ghost(Grouping::Primary(0)), 1, 0, primary, infix)
    }
}

/// A climb over a single token involves no operator at all: whatever the
/// table holds, it consumes that one token as the initial primary and stops.
/// With [`PrecClimber::climb`]'s contract this pins the outcome on one-token
/// input to `Ok`, carrying the primary callback's value for that token and
/// the consumed count 1; the infix callback contributes nothing to it.
pub proof fn lemma_climb_single_token<P>(table: Map<u64, (u32, Assoc)>, toks: Seq<Token<P>>)
    requires
        toks.len() == 1,
    ensures
        spec_climb(table, toks) == Climbed::Done(Grouping::Primary(0), 1),
{
}

/// A climb over a primary followed by a bare operator of the table, with no
/// right-hand operand after it, aborts with the missing-operand signal —
/// while an empty sequence aborts with the non-empty-input signal, as
/// [`spec_climb`] states directly.
pub proof fn lemma_trailing_operator_is_fatal<P>(table: Map<u64, (u32, Assoc)>, toks: Seq<Token<P>>)
    requires
        toks.len() == 2,
        table.contains_key(toks[1].rule),
    ensures
        spec_climb(table, toks) == Climbed::Fatal(ClimbError::MissingRhs),
{
}

/// Left-associativity: when two operators of one left-associative precedence
/// level follow each other, the climb groups leftmost-first, so the five
/// tokens reduce as `(a op b) op c` — never as `a op (b op c)`.
pub proof fn lemma_equal_precedence_left_groups_leftmost<P>(
    table: Map<u64, (u32, Assoc)>,
    toks: Seq<Token<P>>,
)
    requires
        toks.len() == 5,
        table.contains_key(toks[1].rule),
        table.contains_key(toks[3].rule),
        table[toks[1].rule].0 == table[toks[3].rule].0,
        table[toks[1].rule].1 == Assoc::Left,
    ensures
        spec_climb(table, toks) == Climbed::Done(
            Grouping::Infix(
                Box::new(
                    Grouping::Infix(
                        Box::new(Grouping::Primary(0)),
                        1,
                        Box::new(Grouping::Primary(2)),
                    ),
                ),
                3,
                Box::new(Grouping::Primary(4)),
            ),
            5,
        ),
{
    reveal_with_fuel(spec_climb_loop, 6);
    reveal_with_fuel(spec_absorb, 6);
}

/// Right-associativity: when two operators of one precedence level follow
/// each other and the first is right-associative, the climb groups
/// rightmost-first, so the five tokens reduce as `a op (b op c)`.
pub proof fn lemma_equal_precedence_right_groups_rightmost<P>(
    table: Map<u64, (u32, Assoc)>,
    toks: Seq<Token<P>>,
)
    requires
        toks.len() == 5,
        table.contains_key(toks[1].rule),
        table.contains_key(toks[3].rule),
        table[toks[1].rule].0 == table[toks[3].rule].0,
        table[toks[1].rule].1 == Assoc::Right,
    ensures
        spec_climb(table, toks) == Climbed::Done(
            Grouping::Infix(
                Box::new(Grouping::Primary(0)),
                1,
                Box::new(
                    Grouping::Infix(
                        Box::new(Grouping::Primary(2)),
                        3,
                        Box::new(Grouping::Primary(4)),
                    ),
                ),
            ),
            5,
        ),
{
    reveal_with_fuel(spec_climb_loop, 6);
    reveal_with_fuel(spec_absorb, 6);
}

/// Precedence ordering: when the second operator's precedence is strictly
/// higher than the first's, the tighter-binding subexpression is absorbed
/// into the right-hand side, so the five tokens reduce as `a lo (b hi c)` —
/// never as `(a lo b) hi c` — whatever the two associativities are.
pub proof fn lemma_higher_precedence_binds_tighter<P>(
    table: Map<u64, (u32, Assoc)>,
    toks: Seq<Token<P>>,
)
    requires
        toks.len() == 5,
        table.contains_key(toks[1].rule),
        table.contains_key(toks[3].rule),
        table[toks[3].rule].0 > table[toks[1].rule].0,
    ensures
        spec_climb(table, toks) == Climbed::Done(
            Grouping::Infix(
                Box::new(Grouping::Primary(0)),
                1,
                Box::new(
                    Grouping::Infix(
                        Box::new(Grouping::Primary(2)),
                        3,
                        Box::new(Grouping::Primary(4)),
                    ),
                ),
            ),
            5,
        ),
{
    reveal_with_fuel(spec_climb_loop, 6);
    reveal_with_fuel(spec_absorb, 6);
}

/// When a climbing loop stops normally, it stops either at the end of the
/// input or in front of a token that is no operator binding at least
/// `min_prec`: everything before the stop position is consumed.
pub proof fn lemma_spec_climb_loop_stops_outside_table<P>(
    table: Map<u64, (u32, Assoc)>,
    toks: Seq<Token<P>>,
    acc: Grouping,
    i: int,
    min_prec: u32,
)
    requires
        0 <= i <= toks.len(),
    ensures
        match spec_climb_loop(table, toks, acc, i, min_prec) {
            Climbed::Done(g, j) => j == toks.len() || !table.contains_key(toks[j].rule)
                || table[toks[j].rule].0 < min_prec,
            Climbed::Fatal(_) => true,
        },
    decreases toks.len() - i,
{
    if i < toks.len() && table.contains_key(toks[i].rule) {
        let pa = table[toks[i].rule];
        if pa.0 >= min_prec && i + 1 < toks.len() {
            lemma_spec_absorb_bounds(table, toks, Grouping::Primary(i + 1), i + 2, pa.0, pa.1);
            match spec_absorb(table, toks, Grouping::Primary(i + 1), i + 2, pa.0, pa.1) {
                Climbed::Fatal(_) => {},
                Climbed::Done(rhs, j) => {
                    if i < j <= toks.len() {
                        lemma_spec_climb_loop_stops_outside_table(
                            table,
                            toks,
                            Grouping::Infix(Box::new(acc), i, Box::new(rhs)),
                            j,
                            min_prec,
                        );
                    } else {
                        lemma_spec_climb_loop_bounds(table, toks, acc, i, min_prec);
                    }
                },
            }
        }
    }
}

/// Inverts [`evaluates_to`] at a leaf: the value is one the primary callback
/// can return for the token at that index.
pub proof fn lemma_evaluates_to_primary<P, T, F: Fn(&Token<P>) -> T, G: Fn(T, &Token<P>, T) -> T>(
    primary: F,
    infix: G,
    toks: Seq<Token<P>>,
    i: int,
    v: T,
)
    requires
        evaluates_to(primary, infix, toks, Grouping::Primary(i), v),
    ensures
        0 <= i < toks.len(),
        call_ensures(primary, (&toks[i],), v),
{
}

/// Inverts [`evaluates_to`] at an infix node: the value is one the infix
/// callback can return for the operator token at `op` and some pair of
/// values the two subtrees evaluate to.
pub proof fn lemma_evaluates_to_infix<P, T, F: Fn(&Token<P>) -> T, G: Fn(T, &Token<P>, T) -> T>(
    primary: F,
    infix: G,
    toks: Seq<Token<P>>,
    l: Grouping,
    op: int,
    r: Grouping,
    v: T,
)
    requires
        evaluates_to(primary, infix, toks, Grouping::Infix(Box::new(l), op, Box::new(r)), v),
    ensures
        0 <= op < toks.len(),
        exists|a: T, b: T|
            evaluates_to(primary, infix, toks, l, a) && evaluates_to(primary, infix, toks, r, b)
                && #[trigger] call_ensures(infix, (a, &toks[op], b), v),
{
}

/// Appending one more chain at the end adds its rows, at the precedence that
/// follows the existing groups, after all existing rows.
proof fn lemma_rows_of_push(groups: Seq<Operator>, op: Operator, first_prec: u32)
    requires
        first_prec + groups.len() <= u32::MAX,
    ensures
        rows_of(groups.push(op), first_prec) == rows_of(groups, first_prec) + chain_rows(
            op@,
            (first_prec + groups.len()) as u32,
        ),
    decreases groups.len(),
{
    if groups.len() == 0 {
        let pushed = groups.push(op);
        assert(pushed[0] == op);
        assert(pushed.drop_first() =~= Seq::<Operator>::empty());
        assert(rows_of(pushed, first_prec) == chain_rows(op@, first_prec) + rows_of(
            pushed.drop_first(),
            (first_prec + 1) as u32,
        ));
        assert(rows_of(Seq::<Operator>::empty(), (first_prec + 1) as u32) == Seq::<Row>::empty());
        assert(rows_of(groups, first_prec) == Seq::<Row>::empty());
        assert(rows_of(groups.push(op), first_prec) =~= rows_of(groups, first_prec) + chain_rows(
            op@,
            first_prec,
        ));
    } else {
        lemma_rows_of_push(groups.drop_first(), op, (first_prec + 1) as u32);
        assert(groups.push(op).drop_first() =~= groups.drop_first().push(op));
        assert(rows_of(groups.push(op), first_prec) =~= rows_of(groups, first_prec) + chain_rows(
            op@,
            (first_prec + groups.len()) as u32,
        ));
    }
}

} // verus!
