//! Declaration of infix operators: an associativity tag and chains of
//! operators that share one precedence level.

use vstd::prelude::*;

verus! {

/// The direction in which operators of equal precedence group: `Left` groups
/// leftmost-first (`a - b - c` reads as `(a - b) - c`), `Right` groups
/// rightmost-first (`a ^ b ^ c` reads as `a ^ (b ^ c)`).
#[derive(Clone, Copy, Debug, PartialEq, Eq, Structural)]
pub enum Assoc {
    /// Left associativity.
    Left,
    /// Right associativity.
    Right,
}

/// One infix operator, optionally chained to further operators that shall
/// share its precedence level. A rule is identified by a plain `u64` tag
/// handed in by the grammar that owns the tokens.
#[derive(Debug)]
pub struct Operator {
    /// The rule identity this operator stands for.
    pub rule: u64,
    /// How this operator associates at equal precedence.
    pub assoc: Assoc,
    /// The rest of the chain of operators sharing this one's precedence.
    pub next: Option<Box<Operator>>,
}

/// The chain hanging off `op`, head included, as a sequence of
/// (rule, associativity) pairs in chain order.
pub open spec fn chain_of(op: Operator) -> Seq<(u64, Assoc)>
    decreases op,
{
    seq![(op.rule, op.assoc)] + match op.next {
        Option::Some(tail) => chain_of(*tail),
        Option::None => Seq::empty(),
    }
}

impl View for Operator {
    type V = Seq<(u64, Assoc)>;

    open spec fn view(&self) -> Seq<(u64, Assoc)> {
        chain_of(*self)
    }
}

impl Operator {
    /// Creates a chain of one operator from a rule tag and an associativity.
    pub fn new(rule: u64, assoc: Assoc) -> (op: Operator)
        ensures
            op@ == seq![(rule, assoc)],
    {
        let op = Operator { rule, assoc, next: None };
        proof {
            assert(op@ =~= seq![(rule, assoc)]);
        }
        op
    }

    /// Appends `rhs` at the tail of this chain, so that every operator of
    /// both chains ends up in one precedence group.
    pub fn group_with(self, rhs: Operator) -> (op: Operator)
        ensures
            op@ == self@ + rhs@,
        decreases self,
    {
        let Operator { rule, assoc, next } = self;
        match next {
            None => {
                let op = Operator { rule, assoc, next: Some(Box::new(rhs)) };
                proof {
                    assert(op@ =~= seq![(rule, assoc)] + rhs@);
                    assert(chain_of(Operator { rule, assoc, next: None::<Box<Operator>> }) =~= seq![
                        (rule, assoc),
                    ]);
                }
                op
            },
            Some(tail) => {
                let grown = (*tail).group_with(rhs);
                let op = Operator { rule, assoc, next: Some(Box::new(grown)) };
                proof {
                    assert(op@ =~= seq![(rule, assoc)] + (tail@ + rhs@));
                    assert(seq![(rule, assoc)] + (tail@ + rhs@) =~= (seq![(rule, assoc)] + tail@)
                        + rhs@);
                }
                op
            },
        }
    }
}

} // verus!
