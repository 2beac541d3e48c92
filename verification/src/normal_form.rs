//! Negation Normal Form (NNF).
//!
//! Negation is pushed inward with De Morgan's laws and the temporal
//! dualities until it stands only directly in front of atoms:
//!
//! | Formula | NNF |
//! |----------|-----|
//! | `!!a` | `a` |
//! | `!(a & b)` | `!a \| !b` |
//! | `!(a \| b)` | `!a & !b` |
//! | `!G(a)` | `F(!a)` |
//! | `!F(a)` | `G(!a)` |
//! | `!X(a)` | `X(!a)` |
//! | `!(a U b)` | `!a R !b` |
//! | `!(a R b)` | `!a U !b` |
//! | `!(a -> b)` | `a & !b` |
//! | `a -> b` | `!a \| b` |
use crate::formula::FormulaModel;
use crate::formula::LtlFormula;
use crate::satisfaction::holds_somewhere;
use crate::satisfaction::holds_throughout;
use crate::satisfaction::lemma_sat_unfold;
use crate::satisfaction::sat;
use crate::trace::TraceModel;
use vstd::prelude::*;

verus! {

/// The negation normal form of `f`.
pub open spec fn nnf(f: FormulaModel) -> FormulaModel
    decreases f,
{
    match f {
        FormulaModel::Atomic(_) => f,
        FormulaModel::Not(inner) => negation(*inner),
        FormulaModel::Implies(a, b) => FormulaModel::Or(Box::new(negation(*a)), Box::new(nnf(*b))),
        FormulaModel::And(a, b) => FormulaModel::And(Box::new(nnf(*a)), Box::new(nnf(*b))),
        FormulaModel::Or(a, b) => FormulaModel::Or(Box::new(nnf(*a)), Box::new(nnf(*b))),
        FormulaModel::Next(a) => FormulaModel::Next(Box::new(nnf(*a))),
        FormulaModel::Finally(a) => FormulaModel::Finally(Box::new(nnf(*a))),
        FormulaModel::Globally(a) => FormulaModel::Globally(Box::new(nnf(*a))),
        FormulaModel::Until(a, b) => FormulaModel::Until(Box::new(nnf(*a)), Box::new(nnf(*b))),
        FormulaModel::Release(a, b) => FormulaModel::Release(Box::new(nnf(*a)), Box::new(nnf(*b))),
    }
}

/// The negation normal form of `!f`.
pub open spec fn negation(f: FormulaModel) -> FormulaModel
    decreases f,
{
    match f {
        FormulaModel::Not(inner) => nnf(*inner),
        FormulaModel::And(a, b) => FormulaModel::Or(Box::new(negation(*a)), Box::new(negation(*b))),
        FormulaModel::Or(a, b) => FormulaModel::And(Box::new(negation(*a)), Box::new(negation(*b))),
        FormulaModel::Globally(a) => FormulaModel::Finally(Box::new(negation(*a))),
        FormulaModel::Finally(a) => FormulaModel::Globally(Box::new(negation(*a))),
        FormulaModel::Next(a) => FormulaModel::Next(Box::new(negation(*a))),
        FormulaModel::Until(a, b) => FormulaModel::Release(Box::new(negation(*a)), Box::new(negation(*b))),
        FormulaModel::Release(a, b) => FormulaModel::Until(Box::new(negation(*a)), Box::new(negation(*b))),
        FormulaModel::Implies(a, b) => FormulaModel::And(Box::new(nnf(*a)), Box::new(negation(*b))),
        FormulaModel::Atomic(_) => FormulaModel::Not(Box::new(f)),
    }
}

/// `f` is in negation normal form: no implication, and negation only
/// directly in front of atoms.
pub open spec fn is_nnf(f: FormulaModel) -> bool
    decreases f,
{
    match f {
        FormulaModel::Atomic(_) => true,
        FormulaModel::Not(inner) => *inner is Atomic,
        FormulaModel::Implies(_, _) => false,
        FormulaModel::And(a, b) => is_nnf(*a) && is_nnf(*b),
        FormulaModel::Or(a, b) => is_nnf(*a) && is_nnf(*b),
        FormulaModel::Until(a, b) => is_nnf(*a) && is_nnf(*b),
        FormulaModel::Release(a, b) => is_nnf(*a) && is_nnf(*b),
        FormulaModel::Next(a) => is_nnf(*a),
        FormulaModel::Finally(a) => is_nnf(*a),
        FormulaModel::Globally(a) => is_nnf(*a),
    }
}

/// Number of nodes, not counting negations.
pub open spec fn weight(f: FormulaModel) -> nat
    decreases f,
{
    match f {
        FormulaModel::Atomic(_) => 1,
        FormulaModel::Not(inner) => weight(*inner),
        FormulaModel::Implies(a, b) => 1 + weight(*a) + weight(*b),
        FormulaModel::And(a, b) => 1 + weight(*a) + weight(*b),
        FormulaModel::Or(a, b) => 1 + weight(*a) + weight(*b),
        FormulaModel::Until(a, b) => 1 + weight(*a) + weight(*b),
        FormulaModel::Release(a, b) => 1 + weight(*a) + weight(*b),
        FormulaModel::Next(a) => 1 + weight(*a),
        FormulaModel::Finally(a) => 1 + weight(*a),
        FormulaModel::Globally(a) => 1 + weight(*a),
    }
}

/// Normalizing keeps the weight.
pub proof fn lemma_weight(f: FormulaModel)
    ensures
        weight(nnf(f)) == weight(f),
        weight(negation(f)) == weight(f),
    decreases f,
{
    match f {
        FormulaModel::Atomic(_) => {},
        FormulaModel::Not(inner) => lemma_weight(*inner),
        FormulaModel::Next(a) => lemma_weight(*a),
        FormulaModel::Finally(a) => lemma_weight(*a),
        FormulaModel::Globally(a) => lemma_weight(*a),
        FormulaModel::Implies(a, b) => {
            lemma_weight(*a);
            lemma_weight(*b);
        },
        FormulaModel::And(a, b) => {
            lemma_weight(*a);
            lemma_weight(*b);
        },
        FormulaModel::Or(a, b) => {
            lemma_weight(*a);
            lemma_weight(*b);
        },
        FormulaModel::Until(a, b) => {
            lemma_weight(*a);
            lemma_weight(*b);
        },
        FormulaModel::Release(a, b) => {
            lemma_weight(*a);
            lemma_weight(*b);
        },
    }
}

/// The normal forms are in negation normal form.
pub proof fn lemma_nnf_shape(f: FormulaModel)
    ensures
        is_nnf(nnf(f)),
        is_nnf(negation(f)),
    decreases f,
{
    match f {
        FormulaModel::Atomic(_) => {},
        FormulaModel::Not(inner) => lemma_nnf_shape(*inner),
        FormulaModel::Next(a) => lemma_nnf_shape(*a),
        FormulaModel::Finally(a) => lemma_nnf_shape(*a),
        FormulaModel::Globally(a) => lemma_nnf_shape(*a),
        FormulaModel::Implies(a, b) => {
            lemma_nnf_shape(*a);
            lemma_nnf_shape(*b);
        },
        FormulaModel::And(a, b) => {
            lemma_nnf_shape(*a);
            lemma_nnf_shape(*b);
        },
        FormulaModel::Or(a, b) => {
            lemma_nnf_shape(*a);
            lemma_nnf_shape(*b);
        },
        FormulaModel::Until(a, b) => {
            lemma_nnf_shape(*a);
            lemma_nnf_shape(*b);
        },
        FormulaModel::Release(a, b) => {
            lemma_nnf_shape(*a);
            lemma_nnf_shape(*b);
        },
    }
}

/// Negating twice normalizes, and negating a normal form is negating the
/// formula it came from.
pub proof fn lemma_negation_of_normal_forms(f: FormulaModel)
    ensures
        negation(negation(f)) == nnf(f),
        negation(nnf(f)) == negation(f),
    decreases f,
{
    match f {
        FormulaModel::Atomic(_) => {},
        FormulaModel::Not(inner) => lemma_negation_of_normal_forms(*inner),
        FormulaModel::Next(a) => lemma_negation_of_normal_forms(*a),
        FormulaModel::Finally(a) => lemma_negation_of_normal_forms(*a),
        FormulaModel::Globally(a) => lemma_negation_of_normal_forms(*a),
        FormulaModel::Implies(a, b) => {
            lemma_negation_of_normal_forms(*a);
            lemma_negation_of_normal_forms(*b);
        },
        FormulaModel::And(a, b) => {
            lemma_negation_of_normal_forms(*a);
            lemma_negation_of_normal_forms(*b);
        },
        FormulaModel::Or(a, b) => {
            lemma_negation_of_normal_forms(*a);
            lemma_negation_of_normal_forms(*b);
        },
        FormulaModel::Until(a, b) => {
            lemma_negation_of_normal_forms(*a);
            lemma_negation_of_normal_forms(*b);
        },
        FormulaModel::Release(a, b) => {
            lemma_negation_of_normal_forms(*a);
            lemma_negation_of_normal_forms(*b);
        },
    }
}

/// A formula already in negation normal form is its own normal form.
pub proof fn lemma_nnf_fixes_normal_forms(f: FormulaModel)
    requires
        is_nnf(f),
    ensures
        nnf(f) == f,
    decreases f,
{
    match f {
        FormulaModel::Atomic(_) => {},
        FormulaModel::Not(inner) => {
            let a = *inner;
            assert(a is Atomic);
            assert(negation(a) == FormulaModel::Not(Box::new(a)));
        },
        FormulaModel::Next(a) => lemma_nnf_fixes_normal_forms(*a),
        FormulaModel::Finally(a) => lemma_nnf_fixes_normal_forms(*a),
        FormulaModel::Globally(a) => lemma_nnf_fixes_normal_forms(*a),
        FormulaModel::Implies(a, b) => {},
        FormulaModel::And(a, b) => {
            lemma_nnf_fixes_normal_forms(*a);
            lemma_nnf_fixes_normal_forms(*b);
        },
        FormulaModel::Or(a, b) => {
            lemma_nnf_fixes_normal_forms(*a);
            lemma_nnf_fixes_normal_forms(*b);
        },
        FormulaModel::Until(a, b) => {
            lemma_nnf_fixes_normal_forms(*a);
            lemma_nnf_fixes_normal_forms(*b);
        },
        FormulaModel::Release(a, b) => {
            lemma_nnf_fixes_normal_forms(*a);
            lemma_nnf_fixes_normal_forms(*b);
        },
    }
}

/// Normalizing twice is normalizing once.
pub proof fn lemma_nnf_idempotent(f: FormulaModel)
    ensures
        nnf(nnf(f)) == nnf(f),
{
    lemma_nnf_shape(f);
    lemma_nnf_fixes_normal_forms(nnf(f));
}

/// Two formulas that agree at every position of a window agree on whether
/// they hold somewhere, or throughout, in it.
proof fn lemma_windows_agree(t: TraceModel, x: FormulaModel, y: FormulaModel, from: nat, to: nat, bound: nat)
    requires
        forall|j: nat| from <= j < to ==> #[trigger] sat(t, x, j, bound) == sat(t, y, j, bound),
    ensures
        holds_somewhere(t, x, from, to, bound) == holds_somewhere(t, y, from, to, bound),
        holds_throughout(t, x, from, to, bound) == holds_throughout(t, y, from, to, bound),
{
    if holds_somewhere(t, x, from, to, bound) {
        let j = choose|j: nat| from <= j < to && #[trigger] sat(t, x, j, bound);
    }
    if holds_somewhere(t, y, from, to, bound) {
        let j = choose|j: nat| from <= j < to && #[trigger] sat(t, y, j, bound);
        assert(sat(t, x, j, bound));
    }
    if holds_throughout(t, y, from, to, bound) {
        assert forall|j: nat| from <= j < to implies #[trigger] sat(t, x, j, bound) by {
            assert(sat(t, y, j, bound));
        }
    }
    if holds_throughout(t, x, from, to, bound) {
        assert forall|j: nat| from <= j < to implies #[trigger] sat(t, y, j, bound) by {
            assert(sat(t, x, j, bound));
        }
    }
}

/// If `x` holds exactly where `y` does not, then `x` holds somewhere in a
/// window exactly when `y` fails to hold throughout it, and the other way
/// round.
proof fn lemma_windows_opposite(t: TraceModel, x: FormulaModel, y: FormulaModel, from: nat, to: nat, bound: nat)
    requires
        forall|j: nat| from <= j < to ==> #[trigger] sat(t, x, j, bound) == !sat(t, y, j, bound),
    ensures
        holds_somewhere(t, x, from, to, bound) == !holds_throughout(t, y, from, to, bound),
        holds_throughout(t, x, from, to, bound) == !holds_somewhere(t, y, from, to, bound),
{
    if holds_somewhere(t, x, from, to, bound) {
        let j = choose|j: nat| from <= j < to && #[trigger] sat(t, x, j, bound);
    }
    if !holds_throughout(t, y, from, to, bound) {
        let j = choose|j: nat| !(from <= j < to ==> #[trigger] sat(t, y, j, bound));
        assert(sat(t, x, j, bound));
    }
    if holds_somewhere(t, y, from, to, bound) {
        let j = choose|j: nat| from <= j < to && #[trigger] sat(t, y, j, bound);
        assert(!sat(t, x, j, bound));
    }
    if !holds_somewhere(t, y, from, to, bound) {
        assert forall|j: nat| from <= j < to implies #[trigger] sat(t, x, j, bound) by {
            assert(!sat(t, y, j, bound));
        }
    }
}

/// Normalizing keeps the meaning: on every trace, at every position and for
/// every look-ahead, `nnf(f)` holds exactly when `f` holds, and
/// `negation(f)` holds exactly when `f` does not.
pub proof fn lemma_nnf_preserves_satisfaction(t: TraceModel, f: FormulaModel, p: nat, bound: nat)
    ensures
        sat(t, nnf(f), p, bound) == sat(t, f, p, bound),
        sat(t, negation(f), p, bound) == !sat(t, f, p, bound),
    decreases f,
{
    lemma_sat_unfold(t, f, p, bound);
    lemma_sat_unfold(t, nnf(f), p, bound);
    lemma_sat_unfold(t, negation(f), p, bound);
    match f {
        FormulaModel::Atomic(a) => {
            lemma_sat_unfold(t, negation(f), p, bound);
        },
        FormulaModel::Not(g) => {
            lemma_nnf_preserves_satisfaction(t, *g, p, bound);
        },
        FormulaModel::And(a, b) => {
            lemma_nnf_preserves_satisfaction(t, *a, p, bound);
            lemma_nnf_preserves_satisfaction(t, *b, p, bound);
        },
        FormulaModel::Or(a, b) => {
            lemma_nnf_preserves_satisfaction(t, *a, p, bound);
            lemma_nnf_preserves_satisfaction(t, *b, p, bound);
        },
        FormulaModel::Implies(a, b) => {
            lemma_nnf_preserves_satisfaction(t, *a, p, bound);
            lemma_nnf_preserves_satisfaction(t, *b, p, bound);
        },
        FormulaModel::Next(g) => {
            lemma_nnf_preserves_satisfaction(t, *g, p + 1, bound);
        },
        FormulaModel::Finally(g) => {
            assert forall|j: nat| p <= j < p + bound implies #[trigger] sat(t, nnf(*g), j, bound) == sat(
                t,
                *g,
                j,
                bound,
            ) by {
                lemma_nnf_preserves_satisfaction(t, *g, j, bound);
            }
            assert forall|j: nat| p <= j < p + bound implies #[trigger] sat(t, negation(*g), j, bound) == !sat(
                t,
                *g,
                j,
                bound,
            ) by {
                lemma_nnf_preserves_satisfaction(t, *g, j, bound);
            }
            lemma_windows_agree(t, nnf(*g), *g, p, p + bound, bound);
            lemma_windows_opposite(t, negation(*g), *g, p, p + bound, bound);
        },
        FormulaModel::Globally(g) => {
            assert forall|j: nat| p <= j < p + bound implies #[trigger] sat(t, nnf(*g), j, bound) == sat(
                t,
                *g,
                j,
                bound,
            ) by {
                lemma_nnf_preserves_satisfaction(t, *g, j, bound);
            }
            assert forall|j: nat| p <= j < p + bound implies #[trigger] sat(t, negation(*g), j, bound) == !sat(
                t,
                *g,
                j,
                bound,
            ) by {
                lemma_nnf_preserves_satisfaction(t, *g, j, bound);
            }
            lemma_windows_agree(t, nnf(*g), *g, p, p + bound, bound);
            lemma_windows_opposite(t, negation(*g), *g, p, p + bound, bound);
        },
        FormulaModel::Until(a, b) => {
            assert forall|j: nat| p <= j < p + bound implies #[trigger] sat(t, nnf(*a), j, bound) == sat(
                t,
                *a,
                j,
                bound,
            ) by {
                lemma_nnf_preserves_satisfaction(t, *a, j, bound);
            }
            assert forall|j: nat| p <= j < p + bound implies #[trigger] sat(t, negation(*a), j, bound) == !sat(
                t,
                *a,
                j,
                bound,
            ) by {
                lemma_nnf_preserves_satisfaction(t, *a, j, bound);
            }
            assert forall|j: nat| p <= j < p + bound implies #[trigger] sat(t, nnf(*b), j, bound) == sat(
                t,
                *b,
                j,
                bound,
            ) by {
                lemma_nnf_preserves_satisfaction(t, *b, j, bound);
            }
            assert forall|j: nat| p <= j < p + bound implies #[trigger] sat(t, negation(*b), j, bound) == !sat(
                t,
                *b,
                j,
                bound,
            ) by {
                lemma_nnf_preserves_satisfaction(t, *b, j, bound);
            }
            lemma_until_pointwise(t, *a, *b, nnf(*a), nnf(*b), negation(*a), negation(*b), p, bound);
        },
        FormulaModel::Release(a, b) => {
            assert forall|j: nat| p <= j < p + bound implies #[trigger] sat(t, nnf(*a), j, bound) == sat(
                t,
                *a,
                j,
                bound,
            ) by {
                lemma_nnf_preserves_satisfaction(t, *a, j, bound);
            }
            assert forall|j: nat| p <= j < p + bound implies #[trigger] sat(t, negation(*a), j, bound) == !sat(
                t,
                *a,
                j,
                bound,
            ) by {
                lemma_nnf_preserves_satisfaction(t, *a, j, bound);
            }
            assert forall|j: nat| p <= j < p + bound implies #[trigger] sat(t, nnf(*b), j, bound) == sat(
                t,
                *b,
                j,
                bound,
            ) by {
                lemma_nnf_preserves_satisfaction(t, *b, j, bound);
            }
            assert forall|j: nat| p <= j < p + bound implies #[trigger] sat(t, negation(*b), j, bound) == !sat(
                t,
                *b,
                j,
                bound,
            ) by {
                lemma_nnf_preserves_satisfaction(t, *b, j, bound);
            }
            lemma_release_pointwise(t, *a, *b, nnf(*a), nnf(*b), negation(*a), negation(*b), p, bound);
        },
    }
}

/// `Until` over formulas that agree pointwise agrees, and `Release` over
/// their pointwise opposites is its negation.
proof fn lemma_until_pointwise(
    t: TraceModel,
    a: FormulaModel,
    b: FormulaModel,
    a1: FormulaModel,
    b1: FormulaModel,
    na: FormulaModel,
    nb: FormulaModel,
    p: nat,
    bound: nat,
)
    requires
        forall|j: nat| p <= j < p + bound ==> #[trigger] sat(t, a1, j, bound) == sat(t, a, j, bound),
        forall|j: nat| p <= j < p + bound ==> #[trigger] sat(t, b1, j, bound) == sat(t, b, j, bound),
        forall|j: nat| p <= j < p + bound ==> #[trigger] sat(t, na, j, bound) == !sat(t, a, j, bound),
        forall|j: nat| p <= j < p + bound ==> #[trigger] sat(t, nb, j, bound) == !sat(t, b, j, bound),
    ensures
        sat(t, FormulaModel::Until(Box::new(a1), Box::new(b1)), p, bound) == sat(
            t,
            FormulaModel::Until(Box::new(a), Box::new(b)),
            p,
            bound,
        ),
        sat(t, FormulaModel::Release(Box::new(na), Box::new(nb)), p, bound) == !sat(
            t,
            FormulaModel::Until(Box::new(a), Box::new(b)),
            p,
            bound,
        ),
{
    lemma_sat_unfold(t, FormulaModel::Until(Box::new(a1), Box::new(b1)), p, bound);
    lemma_sat_unfold(t, FormulaModel::Until(Box::new(a), Box::new(b)), p, bound);
    lemma_sat_unfold(t, FormulaModel::Release(Box::new(na), Box::new(nb)), p, bound);
    assert forall|j: nat| p <= j < p + bound implies holds_throughout(t, a1, p, j, bound)
        == holds_throughout(t, a, p, j, bound) && #[trigger] holds_somewhere(t, na, p, j, bound)
        == !holds_throughout(t, a, p, j, bound) by {
        lemma_windows_agree(t, a1, a, p, j, bound);
        lemma_windows_opposite(t, na, a, p, j, bound);
    }
    let u = sat(t, FormulaModel::Until(Box::new(a), Box::new(b)), p, bound);
    if u {
        let j = choose|j: nat|
            p <= j < p + bound && #[trigger] sat(t, b, j, bound) && holds_throughout(t, a, p, j, bound);
        assert(sat(t, b1, j, bound));
        assert(holds_somewhere(t, na, p, j, bound) == !holds_throughout(t, a, p, j, bound));
        assert(!sat(t, nb, j, bound));
    }
    if sat(t, FormulaModel::Until(Box::new(a1), Box::new(b1)), p, bound) {
        let j = choose|j: nat|
            p <= j < p + bound && #[trigger] sat(t, b1, j, bound) && holds_throughout(t, a1, p, j, bound);
        assert(sat(t, b, j, bound));
        assert(holds_somewhere(t, na, p, j, bound) == !holds_throughout(t, a, p, j, bound));
    }
    if !u {
        assert forall|j: nat| p <= j < p + bound implies #[trigger] sat(t, nb, j, bound) || holds_somewhere(
            t,
            na,
            p,
            j,
            bound,
        ) by {
            assert(holds_somewhere(t, na, p, j, bound) == !holds_throughout(t, a, p, j, bound));
            if !sat(t, nb, j, bound) {
                assert(sat(t, b, j, bound));
            }
        }
    }
}

/// `Release` over formulas that agree pointwise agrees, and `Until` over
/// their pointwise opposites is its negation.
proof fn lemma_release_pointwise(
    t: TraceModel,
    a: FormulaModel,
    b: FormulaModel,
    a1: FormulaModel,
    b1: FormulaModel,
    na: FormulaModel,
    nb: FormulaModel,
    p: nat,
    bound: nat,
)
    requires
        forall|j: nat| p <= j < p + bound ==> #[trigger] sat(t, a1, j, bound) == sat(t, a, j, bound),
        forall|j: nat| p <= j < p + bound ==> #[trigger] sat(t, b1, j, bound) == sat(t, b, j, bound),
        forall|j: nat| p <= j < p + bound ==> #[trigger] sat(t, na, j, bound) == !sat(t, a, j, bound),
        forall|j: nat| p <= j < p + bound ==> #[trigger] sat(t, nb, j, bound) == !sat(t, b, j, bound),
    ensures
        sat(t, FormulaModel::Release(Box::new(a1), Box::new(b1)), p, bound) == sat(
            t,
            FormulaModel::Release(Box::new(a), Box::new(b)),
            p,
            bound,
        ),
        sat(t, FormulaModel::Until(Box::new(na), Box::new(nb)), p, bound) == !sat(
            t,
            FormulaModel::Release(Box::new(a), Box::new(b)),
            p,
            bound,
        ),
{
    lemma_sat_unfold(t, FormulaModel::Release(Box::new(a1), Box::new(b1)), p, bound);
    lemma_sat_unfold(t, FormulaModel::Release(Box::new(a), Box::new(b)), p, bound);
    lemma_sat_unfold(t, FormulaModel::Until(Box::new(na), Box::new(nb)), p, bound);
    assert forall|j: nat| p <= j < p + bound implies holds_somewhere(t, a1, p, j, bound)
        == holds_somewhere(t, a, p, j, bound) && #[trigger] holds_throughout(t, na, p, j, bound)
        == !holds_somewhere(t, a, p, j, bound) by {
        lemma_windows_agree(t, a1, a, p, j, bound);
        lemma_windows_opposite(t, na, a, p, j, bound);
    }
    let r = sat(t, FormulaModel::Release(Box::new(a), Box::new(b)), p, bound);
    if r {
        assert forall|j: nat| p <= j < p + bound implies #[trigger] sat(t, b1, j, bound) || holds_somewhere(
            t,
            a1,
            p,
            j,
            bound,
        ) by {
            assert(sat(t, b, j, bound) || holds_somewhere(t, a, p, j, bound));
            assert(holds_throughout(t, na, p, j, bound) == !holds_somewhere(t, a, p, j, bound));
        }
        if sat(t, FormulaModel::Until(Box::new(na), Box::new(nb)), p, bound) {
            let j = choose|j: nat|
                p <= j < p + bound && #[trigger] sat(t, nb, j, bound) && holds_throughout(t, na, p, j, bound);
            assert(sat(t, b, j, bound) || holds_somewhere(t, a, p, j, bound));
            assert(holds_throughout(t, na, p, j, bound) == !holds_somewhere(t, a, p, j, bound));
        }
    } else {
        let j = choose|j: nat|
            !(p <= j < p + bound ==> #[trigger] sat(t, b, j, bound) || holds_somewhere(t, a, p, j, bound));
        assert(holds_throughout(t, na, p, j, bound) == !holds_somewhere(t, a, p, j, bound));
        assert(sat(t, nb, j, bound));
        assert(!(sat(t, b1, j, bound) || holds_somewhere(t, a1, p, j, bound)));
    }
}

/// Until and release are dual: `a U b` holds exactly when `!a R !b` does
/// not, and `a R b` exactly when `!a U !b` does not.
pub proof fn lemma_until_release_duality(t: TraceModel, a: FormulaModel, b: FormulaModel, p: nat, bound: nat)
    ensures
        sat(t, FormulaModel::Until(Box::new(a), Box::new(b)), p, bound) == !sat(
            t,
            FormulaModel::Release(Box::new(FormulaModel::Not(Box::new(a))), Box::new(FormulaModel::Not(Box::new(b)))),
            p,
            bound,
        ),
        sat(t, FormulaModel::Release(Box::new(a), Box::new(b)), p, bound) == !sat(
            t,
            FormulaModel::Until(Box::new(FormulaModel::Not(Box::new(a))), Box::new(FormulaModel::Not(Box::new(b)))),
            p,
            bound,
        ),
{
    let na = FormulaModel::Not(Box::new(a));
    let nb = FormulaModel::Not(Box::new(b));
    assert forall|j: nat| p <= j < p + bound implies #[trigger] sat(t, na, j, bound) == !sat(t, a, j, bound) by {
        lemma_sat_unfold(t, na, j, bound);
    }
    assert forall|j: nat| p <= j < p + bound implies #[trigger] sat(t, nb, j, bound) == !sat(t, b, j, bound) by {
        lemma_sat_unfold(t, nb, j, bound);
    }
    lemma_until_pointwise(t, a, b, a, b, na, nb, p, bound);
    lemma_release_pointwise(t, a, b, a, b, na, nb, p, bound);
}

/// Next is self-dual: `!X(!f)` holds exactly when `X(f)` does.
pub proof fn lemma_next_self_dual(t: TraceModel, f: FormulaModel, p: nat, bound: nat)
    ensures
        sat(
            t,
            FormulaModel::Not(Box::new(FormulaModel::Next(Box::new(FormulaModel::Not(Box::new(f)))))),
            p,
            bound,
        ) == sat(t, FormulaModel::Next(Box::new(f)), p, bound),
{
    let nf = FormulaModel::Not(Box::new(f));
    let xnf = FormulaModel::Next(Box::new(nf));
    lemma_sat_unfold(t, FormulaModel::Not(Box::new(xnf)), p, bound);
    lemma_sat_unfold(t, xnf, p, bound);
    lemma_sat_unfold(t, nf, p + 1, bound);
    lemma_sat_unfold(t, FormulaModel::Next(Box::new(f)), p, bound);
}

/// Convert a formula to Negation Normal Form.
pub fn to_nnf(formula: LtlFormula) -> (r: LtlFormula)
    ensures
        r@ == nnf(formula@),
        is_nnf(r@),
    decreases weight(formula@), formula, 0nat,
{
    proof {
        lemma_nnf_shape(formula@);
    }
    match formula {
        LtlFormula::Atomic(s) => LtlFormula::Atomic(s),
        LtlFormula::Not(inner) => push_negation(*inner),
        LtlFormula::Implies(a, b) => {
            let a_nnf = to_nnf(*a);
            let b_nnf = to_nnf(*b);
            proof {
                lemma_weight(a@);
                lemma_negation_of_normal_forms(a@);
            }
            let not_a = negate_atom_or_propagate(a_nnf);
            LtlFormula::Or(Box::new(not_a), Box::new(b_nnf))
        },
        LtlFormula::And(a, b) => LtlFormula::And(Box::new(to_nnf(*a)), Box::new(to_nnf(*b))),
        LtlFormula::Or(a, b) => LtlFormula::Or(Box::new(to_nnf(*a)), Box::new(to_nnf(*b))),
        LtlFormula::Next(a) => LtlFormula::Next(Box::new(to_nnf(*a))),
        LtlFormula::Finally(a) => LtlFormula::Finally(Box::new(to_nnf(*a))),
        LtlFormula::Globally(a) => LtlFormula::Globally(Box::new(to_nnf(*a))),
        LtlFormula::Until(a, b) => LtlFormula::Until(Box::new(to_nnf(*a)), Box::new(to_nnf(*b))),
        LtlFormula::Release(a, b) => LtlFormula::Release(Box::new(to_nnf(*a)), Box::new(to_nnf(*b))),
    }
}

/// The negation normal form of `!formula` (De Morgan and the temporal
/// dualities).
fn push_negation(formula: LtlFormula) -> (r: LtlFormula)
    ensures
        r@ == negation(formula@),
    decreases weight(formula@), formula, 0nat,
{
    match formula {
        LtlFormula::Not(inner) => to_nnf(*inner),
        LtlFormula::And(a, b) => LtlFormula::Or(Box::new(push_negation(*a)), Box::new(push_negation(*b))),
        LtlFormula::Or(a, b) => LtlFormula::And(Box::new(push_negation(*a)), Box::new(push_negation(*b))),
        LtlFormula::Globally(a) => LtlFormula::Finally(Box::new(push_negation(*a))),
        LtlFormula::Finally(a) => LtlFormula::Globally(Box::new(push_negation(*a))),
        LtlFormula::Next(a) => LtlFormula::Next(Box::new(push_negation(*a))),
        LtlFormula::Until(a, b) => LtlFormula::Release(
            Box::new(push_negation(*a)),
            Box::new(push_negation(*b)),
        ),
        LtlFormula::Release(a, b) => LtlFormula::Until(
            Box::new(push_negation(*a)),
            Box::new(push_negation(*b)),
        ),
        LtlFormula::Implies(a, b) => LtlFormula::And(Box::new(to_nnf(*a)), Box::new(push_negation(*b))),
        LtlFormula::Atomic(s) => LtlFormula::Not(Box::new(LtlFormula::Atomic(s))),
    }
}

/// Negate a formula that is already in negation normal form: wrap an atom
/// in `Not`, push the negation into anything else.
fn negate_atom_or_propagate(f: LtlFormula) -> (r: LtlFormula)
    ensures
        r@ == negation(f@),
    decreases weight(f@), f, 1nat,
{
    match f {
        LtlFormula::Atomic(s) => LtlFormula::Not(Box::new(LtlFormula::Atomic(s))),
        other => push_negation(other),
    }
}

} // verus!
