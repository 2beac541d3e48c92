use ltl_spec::{LtlFormula, to_nnf};

#[test]
fn test_nnf_double_negation() {
    let f = LtlFormula::Not(Box::new(LtlFormula::Not(Box::new(LtlFormula::Atomic(
        "p".into(),
    )))));
    assert_eq!(to_nnf(f), LtlFormula::Atomic("p".into()));
}

#[test]
fn test_nnf_not_and() {
    let f = LtlFormula::Not(Box::new(LtlFormula::And(
        Box::new(LtlFormula::Atomic("p".into())),
        Box::new(LtlFormula::Atomic("q".into())),
    )));
    let result = to_nnf(f);
    assert!(matches!(result, LtlFormula::Or(_, _)));
}

#[test]
fn test_nnf_not_or() {
    let f = LtlFormula::Not(Box::new(LtlFormula::Or(
        Box::new(LtlFormula::Atomic("p".into())),
        Box::new(LtlFormula::Atomic("q".into())),
    )));
    let result = to_nnf(f);
    assert!(matches!(result, LtlFormula::And(_, _)));
}

#[test]
fn test_nnf_not_globally() {
    let f = LtlFormula::Not(Box::new(LtlFormula::Globally(Box::new(
        LtlFormula::Atomic("p".into()),
    ))));
    let result = to_nnf(f);
    assert!(matches!(result, LtlFormula::Finally(_)));
}

#[test]
fn test_nnf_not_finally() {
    let f = LtlFormula::Not(Box::new(LtlFormula::Finally(Box::new(LtlFormula::Atomic(
        "p".into(),
    )))));
    let result = to_nnf(f);
    assert!(matches!(result, LtlFormula::Globally(_)));
}

#[test]
fn test_nnf_not_until() {
    let f = LtlFormula::Not(Box::new(LtlFormula::Until(
        Box::new(LtlFormula::Atomic("p".into())),
        Box::new(LtlFormula::Atomic("q".into())),
    )));
    let result = to_nnf(f);
    assert!(matches!(result, LtlFormula::Release(_, _)));
}

#[test]
fn test_nnf_not_release() {
    let f = LtlFormula::Not(Box::new(LtlFormula::Release(
        Box::new(LtlFormula::Atomic("p".into())),
        Box::new(LtlFormula::Atomic("q".into())),
    )));
    let result = to_nnf(f);
    assert!(matches!(result, LtlFormula::Until(_, _)));
}

#[test]
fn test_nnf_implies() {
    let f = LtlFormula::Implies(
        Box::new(LtlFormula::Atomic("p".into())),
        Box::new(LtlFormula::Atomic("q".into())),
    );
    let result = to_nnf(f);
    assert!(matches!(result, LtlFormula::Or(_, _)));
}
