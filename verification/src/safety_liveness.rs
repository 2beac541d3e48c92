//! Safety and liveness classification of LTL formulas.
//!
//! - **Safety** — "something bad never happens" (`G(φ)`, `φ R ψ`)
//! - **Liveness** — "something good eventually happens" (`F(φ)`, `φ U ψ`)
//!
//! A formula can be purely safety, purely liveness, both, or neither.
use crate::formula::FormulaModel;
use crate::formula::LtlFormula;
use vstd::prelude::*;

verus! {

/// Classification of an LTL formula.
#[derive(Debug, Clone, Copy, PartialEq, Eq, Hash, Structural)]
pub enum SafetyLiveness {
    /// Pure safety property (e.g., `G(p)`).
    Safety,
    /// Pure liveness property (e.g., `F(p)`).
    Liveness,
    /// Contains both safety and liveness aspects.
    Both,
    /// Neither safety nor liveness (e.g., a bare atomic proposition).
    Neither,
}

/// The formula has a safety part: a `G` or an `R` reached through the
/// propositional connectives `&`, `|`, `->`.
pub open spec fn safety_flag(f: FormulaModel) -> bool
    decreases f,
{
    match f {
        FormulaModel::Atomic(_) | FormulaModel::Not(_) | FormulaModel::Next(_) => false,
        FormulaModel::And(a, b) => safety_flag(*a) || safety_flag(*b),
        FormulaModel::Or(a, b) => safety_flag(*a) || safety_flag(*b),
        FormulaModel::Implies(a, b) => safety_flag(*a) || safety_flag(*b),
        FormulaModel::Globally(_) => true,
        FormulaModel::Finally(_) => false,
        FormulaModel::Release(_, _) => true,
        FormulaModel::Until(_, _) => false,
    }
}

/// The formula has a liveness part: an `F` or a `U` reached through the
/// propositional connectives `&`, `|`, `->`.
pub open spec fn liveness_flag(f: FormulaModel) -> bool
    decreases f,
{
    match f {
        FormulaModel::Atomic(_) | FormulaModel::Not(_) | FormulaModel::Next(_) => false,
        FormulaModel::And(a, b) => liveness_flag(*a) || liveness_flag(*b),
        FormulaModel::Or(a, b) => liveness_flag(*a) || liveness_flag(*b),
        FormulaModel::Implies(a, b) => liveness_flag(*a) || liveness_flag(*b),
        FormulaModel::Globally(_) => false,
        FormulaModel::Finally(_) => true,
        FormulaModel::Release(_, _) => false,
        FormulaModel::Until(_, _) => true,
    }
}

/// The class that the two flags give.
pub open spec fn classification(f: FormulaModel) -> SafetyLiveness {
    if safety_flag(f) && liveness_flag(f) {
        SafetyLiveness::Both
    } else if safety_flag(f) {
        SafetyLiveness::Safety
    } else if liveness_flag(f) {
        SafetyLiveness::Liveness
    } else {
        SafetyLiveness::Neither
    }
}

/// The class has a safety part.
pub open spec fn has_safety(c: SafetyLiveness) -> bool {
    c == SafetyLiveness::Safety || c == SafetyLiveness::Both
}

/// The class has a liveness part.
pub open spec fn has_liveness(c: SafetyLiveness) -> bool {
    c == SafetyLiveness::Liveness || c == SafetyLiveness::Both
}

/// The class of a combination of two parts of classes `x` and `y`: it has
/// each part that either of them has, and no other.
pub open spec fn merge(x: SafetyLiveness, y: SafetyLiveness) -> SafetyLiveness {
    let safety = has_safety(x) || has_safety(y);
    let liveness = has_liveness(x) || has_liveness(y);
    if safety && liveness {
        SafetyLiveness::Both
    } else if safety {
        SafetyLiveness::Safety
    } else if liveness {
        SafetyLiveness::Liveness
    } else {
        SafetyLiveness::Neither
    }
}

/// Combinations merge: the class of `a & b`, `a | b` and `a -> b` is the
/// merge of the classes of `a` and `b`. So a class never disappears when a
/// conjunct, disjunct or implication side is added: two safety properties
/// combine to a safety property, a safety and a liveness property to both.
pub proof fn lemma_combinations_merge(a: FormulaModel, b: FormulaModel)
    ensures
        classification(FormulaModel::And(Box::new(a), Box::new(b))) == merge(classification(a), classification(b)),
        classification(FormulaModel::Or(Box::new(a), Box::new(b))) == merge(classification(a), classification(b)),
        classification(FormulaModel::Implies(Box::new(a), Box::new(b))) == merge(
            classification(a),
            classification(b),
        ),
        has_safety(classification(a)) ==> has_safety(classification(FormulaModel::And(Box::new(a), Box::new(b)))),
        has_liveness(classification(a)) ==> has_liveness(
            classification(FormulaModel::And(Box::new(a), Box::new(b))),
        ),
        classification(a) == SafetyLiveness::Safety ==> classification(FormulaModel::And(Box::new(a), Box::new(a)))
            == SafetyLiveness::Safety,
{
}

/// The name of a class.
pub open spec fn class_name(c: SafetyLiveness) -> Seq<char> {
    match c {
        SafetyLiveness::Safety => "Safety"@,
        SafetyLiveness::Liveness => "Liveness"@,
        SafetyLiveness::Both => "Both"@,
        SafetyLiveness::Neither => "Neither"@,
    }
}

impl SafetyLiveness {
    /// The name of this class.
    pub fn to_string(&self) -> (s: String)
        ensures
            s@ == class_name(*self),
    {
        match self {
            SafetyLiveness::Safety => "Safety".to_owned(),
            SafetyLiveness::Liveness => "Liveness".to_owned(),
            SafetyLiveness::Both => "Both".to_owned(),
            SafetyLiveness::Neither => "Neither".to_owned(),
        }
    }
}

/// Classify an LTL formula as safety, liveness, both, or neither.
///
/// - `Globally(φ)`, `Release(a, b)` → Safety
/// - `Finally(φ)`, `Until(a, b)` → Liveness
/// - `And`, `Or`, `Implies` merge the classes of their operands
/// - `Atomic`, `Not`, `Next` → Neither
pub fn classify(formula: &LtlFormula) -> (c: SafetyLiveness)
    ensures
        c == classification(formula@),
        formula@ is Globally || formula@ is Release ==> c == SafetyLiveness::Safety,
        formula@ is Finally || formula@ is Until ==> c == SafetyLiveness::Liveness,
        formula@ is Atomic || formula@ is Not || formula@ is Next ==> c == SafetyLiveness::Neither,
        formula@ matches FormulaModel::And(a, b) ==> c == merge(classification(*a), classification(*b)),
        formula@ matches FormulaModel::Or(a, b) ==> c == merge(classification(*a), classification(*b)),
        formula@ matches FormulaModel::Implies(a, b) ==> c == merge(classification(*a), classification(*b)),
{
    proof {
        if let FormulaModel::And(a, b) = formula@ {
            lemma_combinations_merge(*a, *b);
        }
        if let FormulaModel::Or(a, b) = formula@ {
            lemma_combinations_merge(*a, *b);
        }
        if let FormulaModel::Implies(a, b) = formula@ {
            lemma_combinations_merge(*a, *b);
        }
    }
    let (safety, liveness) = classify_inner(formula);
    if safety && liveness {
        SafetyLiveness::Both
    } else if safety {
        SafetyLiveness::Safety
    } else if liveness {
        SafetyLiveness::Liveness
    } else {
        SafetyLiveness::Neither
    }
}

/// Returns the (safety, liveness) flags.
fn classify_inner(formula: &LtlFormula) -> (r: (bool, bool))
    ensures
        r == (safety_flag(formula@), liveness_flag(formula@)),
    decreases formula,
{
    match formula {
        LtlFormula::Atomic(_) | LtlFormula::Not(_) | LtlFormula::Next(_) => (false, false),
        LtlFormula::And(a, b) | LtlFormula::Or(a, b) => {
            let (sa, la) = classify_inner(&**a);
            let (sb, lb) = classify_inner(&**b);
            (sa || sb, la || lb)
        },
        LtlFormula::Implies(a, b) => {
            let (sa, la) = classify_inner(&**a);
            let (sb, lb) = classify_inner(&**b);
            (sa || sb, la || lb)
        },
        LtlFormula::Globally(_) => (true, false),
        LtlFormula::Finally(_) => (false, true),
        LtlFormula::Release(_, _) => (true, false),
        LtlFormula::Until(_, _) => (false, true),
    }
}

} // verus!
