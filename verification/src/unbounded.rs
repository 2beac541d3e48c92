//! The checker's window is wide enough.
//!
//! [`satisfies`](crate::satisfaction::satisfies) lets each temporal
//! operator look ahead a window of twice the prefix length. On a lasso
//! every formula's truth repeats with the loop period from the loop start
//! on, so any window at least as long as the prefix already sees every case:
//! the bounded semantics then coincides with the usual, unbounded LTL
//! semantics.
use crate::formula::FormulaModel;
use crate::satisfaction::lemma_sat_periodic;
use crate::satisfaction::lemma_sat_unfold;
use crate::satisfaction::sat;
use crate::satisfaction::semantics;
use crate::trace::TraceModel;
use vstd::prelude::*;

verus! {

/// Unbounded LTL semantics of `f` on the infinite trace `t`, as a predicate
/// on absolute positions.
pub open spec fn ltl(t: TraceModel, f: FormulaModel) -> spec_fn(nat) -> bool
    decreases f,
{
    match f {
        FormulaModel::Atomic(a) => |p: nat| t.holds(p, a),
        FormulaModel::Not(g) => {
            let h = ltl(t, *g);
            |p: nat| !h(p)
        },
        FormulaModel::And(a, b) => {
            let ha = ltl(t, *a);
            let hb = ltl(t, *b);
            |p: nat| ha(p) && hb(p)
        },
        FormulaModel::Or(a, b) => {
            let ha = ltl(t, *a);
            let hb = ltl(t, *b);
            |p: nat| ha(p) || hb(p)
        },
        FormulaModel::Implies(a, b) => {
            let ha = ltl(t, *a);
            let hb = ltl(t, *b);
            |p: nat| !ha(p) || hb(p)
        },
        FormulaModel::Next(g) => {
            let h = ltl(t, *g);
            |p: nat| h(p + 1)
        },
        FormulaModel::Finally(g) => {
            let h = ltl(t, *g);
            |p: nat| exists|j: nat| p <= j && #[trigger] h(j)
        },
        FormulaModel::Globally(g) => {
            let h = ltl(t, *g);
            |p: nat| forall|j: nat| p <= j ==> #[trigger] h(j)
        },
        FormulaModel::Until(a, b) => {
            let ha = ltl(t, *a);
            let hb = ltl(t, *b);
            |p: nat| exists|j: nat| p <= j && #[trigger] hb(j) && forall|i: nat| p <= i < j ==> #[trigger] ha(i)
        },
        FormulaModel::Release(a, b) => {
            let ha = ltl(t, *a);
            let hb = ltl(t, *b);
            |p: nat| forall|j: nat| p <= j ==> #[trigger] hb(j) || exists|i: nat| p <= i < j && #[trigger] ha(i)
        },
    }
}

/// `f` holds at absolute position `p` of `t` (unbounded semantics).
pub open spec fn holds_ltl(t: TraceModel, f: FormulaModel, p: nat) -> bool {
    ltl(t, f)(p)
}

/// `h` repeats with period `per` from `start` on.
spec fn periodic(h: spec_fn(nat) -> bool, start: nat, per: nat) -> bool {
    forall|x: nat| #![trigger h(x)] x >= start ==> h(x + per) == h(x)
}

/// A witness of `U` past the window has one inside the window.
proof fn lemma_until_back(
    ha: spec_fn(nat) -> bool,
    hb: spec_fn(nat) -> bool,
    start: nat,
    per: nat,
    w: nat,
    p: nat,
    j: nat,
)
    requires
        periodic(hb, start, per),
        per >= 1,
        w >= start + per,
        p <= j,
        hb(j),
        forall|i: nat| p <= i < j ==> #[trigger] ha(i),
    ensures
        exists|k: nat| p <= k < p + w && #[trigger] hb(k) && forall|i: nat| p <= i < k ==> #[trigger] ha(i),
    decreases j,
{
    if j < p + w {
        assert(p <= j < p + w && hb(j) && forall|i: nat| p <= i < j ==> #[trigger] ha(i));
    } else {
        let k = (j - per) as nat;
        assert(hb(k + per) == hb(k));
        assert(k + per == j);
        lemma_until_back(ha, hb, start, per, w, p, k);
    }
}

/// `R` inside the window holds at every later position too.
proof fn lemma_release_on(
    ha: spec_fn(nat) -> bool,
    hb: spec_fn(nat) -> bool,
    start: nat,
    per: nat,
    w: nat,
    p: nat,
    j: nat,
)
    requires
        periodic(hb, start, per),
        per >= 1,
        w >= start + per,
        p <= j,
        forall|k: nat| p <= k < p + w ==> #[trigger] hb(k) || exists|i: nat| p <= i < k && #[trigger] ha(i),
    ensures
        hb(j) || exists|i: nat| p <= i < j && #[trigger] ha(i),
    decreases j,
{
    if j >= p + w {
        let k = (j - per) as nat;
        assert(hb(k + per) == hb(k));
        assert(k + per == j);
        lemma_release_on(ha, hb, start, per, w, p, k);
        if !hb(k) {
            let i = choose|i: nat| p <= i < k && #[trigger] ha(i);
            assert(p <= i < j && ha(i));
        }
    }
}

/// With a window at least as long as the prefix, the bounded semantics of
/// `f` is its unbounded LTL semantics, at every position.
proof fn lemma_window_everywhere(t: TraceModel, f: FormulaModel, w: nat)
    requires
        t.wf(),
        w >= t.len(),
    ensures
        forall|p: nat| #[trigger] sat(t, f, p, w) == holds_ltl(t, f, p),
    decreases f,
{
    let ls = t.loop_start;
    let per = t.period() as nat;
    match f {
        FormulaModel::Atomic(a) => {
            assert forall|p: nat| #[trigger] sat(t, f, p, w) == holds_ltl(t, f, p) by {
                lemma_sat_unfold(t, f, p, w);
            }
        },
        FormulaModel::Not(g) => {
            lemma_window_everywhere(t, *g, w);
            assert forall|p: nat| #[trigger] sat(t, f, p, w) == holds_ltl(t, f, p) by {
                lemma_sat_unfold(t, f, p, w);
                assert(sat(t, *g, p, w) == holds_ltl(t, *g, p));
            }
        },
        FormulaModel::And(a, b) => {
            lemma_window_everywhere(t, *a, w);
            lemma_window_everywhere(t, *b, w);
            assert forall|p: nat| #[trigger] sat(t, f, p, w) == holds_ltl(t, f, p) by {
                lemma_sat_unfold(t, f, p, w);
                assert(sat(t, *a, p, w) == holds_ltl(t, *a, p));
                assert(sat(t, *b, p, w) == holds_ltl(t, *b, p));
            }
        },
        FormulaModel::Or(a, b) => {
            lemma_window_everywhere(t, *a, w);
            lemma_window_everywhere(t, *b, w);
            assert forall|p: nat| #[trigger] sat(t, f, p, w) == holds_ltl(t, f, p) by {
                lemma_sat_unfold(t, f, p, w);
                assert(sat(t, *a, p, w) == holds_ltl(t, *a, p));
                assert(sat(t, *b, p, w) == holds_ltl(t, *b, p));
            }
        },
        FormulaModel::Implies(a, b) => {
            lemma_window_everywhere(t, *a, w);
            lemma_window_everywhere(t, *b, w);
            assert forall|p: nat| #[trigger] sat(t, f, p, w) == holds_ltl(t, f, p) by {
                lemma_sat_unfold(t, f, p, w);
                assert(sat(t, *a, p, w) == holds_ltl(t, *a, p));
                assert(sat(t, *b, p, w) == holds_ltl(t, *b, p));
            }
        },
        FormulaModel::Next(g) => {
            lemma_window_everywhere(t, *g, w);
            assert forall|p: nat| #[trigger] sat(t, f, p, w) == holds_ltl(t, f, p) by {
                lemma_sat_unfold(t, f, p, w);
                assert(sat(t, *g, p + 1, w) == holds_ltl(t, *g, p + 1));
            }
        },
        FormulaModel::Finally(g) => {
            lemma_window_everywhere(t, *g, w);
            let h = semantics(t, *g, w);
            let u = ltl(t, *g);
            lemma_periodic(t, *g, w);
            let yes = |i: nat| true;
            assert forall|p: nat| #[trigger] sat(t, f, p, w) == holds_ltl(t, f, p) by {
                lemma_sat_unfold(t, f, p, w);
                if holds_ltl(t, f, p) {
                    let j = choose|j: nat| p <= j && #[trigger] u(j);
                    assert(sat(t, *g, j, w) == holds_ltl(t, *g, j));
                    lemma_until_back(yes, h, ls, per, w, p, j);
                    let k = choose|k: nat|
                        p <= k < p + w && #[trigger] h(k) && forall|i: nat| p <= i < k ==> #[trigger] yes(i);
                    assert(sat(t, *g, k, w));
                }
                if sat(t, f, p, w) {
                    let k = choose|k: nat| p <= k < p + w && #[trigger] sat(t, *g, k, w);
                    assert(sat(t, *g, k, w) == holds_ltl(t, *g, k));
                    assert(u(k));
                }
            }
        },
        FormulaModel::Globally(g) => {
            lemma_window_everywhere(t, *g, w);
            let h = semantics(t, *g, w);
            let u = ltl(t, *g);
            lemma_periodic(t, *g, w);
            let no = |i: nat| false;
            assert forall|p: nat| #[trigger] sat(t, f, p, w) == holds_ltl(t, f, p) by {
                lemma_sat_unfold(t, f, p, w);
                if sat(t, f, p, w) {
                    assert forall|j: nat| p <= j implies #[trigger] u(j) by {
                        assert forall|k: nat| p <= k < p + w implies #[trigger] h(k) || exists|i: nat|
                            p <= i < k && #[trigger] no(i) by {
                            assert(sat(t, *g, k, w));
                        }
                        lemma_release_on(no, h, ls, per, w, p, j);
                        assert(sat(t, *g, j, w) == holds_ltl(t, *g, j));
                    }
                }
                if holds_ltl(t, f, p) {
                    assert forall|k: nat| p <= k < p + w implies #[trigger] sat(t, *g, k, w) by {
                        assert(sat(t, *g, k, w) == holds_ltl(t, *g, k));
                        assert(u(k));
                    }
                }
            }
        },
        FormulaModel::Until(a, b) => {
            lemma_window_everywhere(t, *a, w);
            lemma_window_everywhere(t, *b, w);
            let ha = semantics(t, *a, w);
            let hb = semantics(t, *b, w);
            let ua = ltl(t, *a);
            let ub = ltl(t, *b);
            lemma_periodic(t, *b, w);
            assert forall|p: nat| #[trigger] sat(t, f, p, w) == holds_ltl(t, f, p) by {
                lemma_sat_unfold(t, f, p, w);
                if holds_ltl(t, f, p) {
                    let j = choose|j: nat| p <= j && #[trigger] ub(j) && forall|i: nat| p <= i < j ==> #[trigger] ua(i);
                    assert(sat(t, *b, j, w) == holds_ltl(t, *b, j));
                    assert forall|i: nat| p <= i < j implies #[trigger] ha(i) by {
                        assert(sat(t, *a, i, w) == holds_ltl(t, *a, i));
                        assert(ua(i));
                    }
                    lemma_until_back(ha, hb, ls, per, w, p, j);
                    let k = choose|k: nat|
                        p <= k < p + w && #[trigger] hb(k) && forall|i: nat| p <= i < k ==> #[trigger] ha(i);
                    assert(sat(t, *b, k, w));
                    assert forall|i: nat| p <= i < k implies #[trigger] sat(t, *a, i, w) by {
                        assert(ha(i));
                    }
                }
                if sat(t, f, p, w) {
                    let k = choose|k: nat|
                        p <= k < p + w && #[trigger] sat(t, *b, k, w) && crate::satisfaction::holds_throughout(
                            t,
                            *a,
                            p,
                            k,
                            w,
                        );
                    assert(sat(t, *b, k, w) == holds_ltl(t, *b, k));
                    assert(ub(k));
                    assert forall|i: nat| p <= i < k implies #[trigger] ua(i) by {
                        assert(sat(t, *a, i, w));
                        assert(sat(t, *a, i, w) == holds_ltl(t, *a, i));
                    }
                }
            }
        },
        FormulaModel::Release(a, b) => {
            lemma_window_everywhere(t, *a, w);
            lemma_window_everywhere(t, *b, w);
            let ha = semantics(t, *a, w);
            let hb = semantics(t, *b, w);
            let ua = ltl(t, *a);
            let ub = ltl(t, *b);
            lemma_periodic(t, *b, w);
            assert forall|p: nat| #[trigger] sat(t, f, p, w) == holds_ltl(t, f, p) by {
                lemma_sat_unfold(t, f, p, w);
                if sat(t, f, p, w) {
                    assert forall|j: nat| p <= j implies #[trigger] ub(j) || exists|i: nat| p <= i < j && #[trigger] ua(i) by {
                        assert forall|k: nat| p <= k < p + w implies #[trigger] hb(k) || exists|i: nat|
                            p <= i < k && #[trigger] ha(i) by {
                            assert(sat(t, *b, k, w) || crate::satisfaction::holds_somewhere(t, *a, p, k, w));
                            if !sat(t, *b, k, w) {
                                let i = choose|i: nat| p <= i < k && #[trigger] sat(t, *a, i, w);
                                assert(ha(i));
                            }
                        }
                        lemma_release_on(ha, hb, ls, per, w, p, j);
                        assert(sat(t, *b, j, w) == holds_ltl(t, *b, j));
                        if !hb(j) {
                            let i = choose|i: nat| p <= i < j && #[trigger] ha(i);
                            assert(sat(t, *a, i, w) == holds_ltl(t, *a, i));
                            assert(ua(i));
                        }
                    }
                }
                if holds_ltl(t, f, p) {
                    assert forall|k: nat| p <= k < p + w implies #[trigger] sat(t, *b, k, w)
                        || crate::satisfaction::holds_somewhere(t, *a, p, k, w) by {
                        assert(sat(t, *b, k, w) == holds_ltl(t, *b, k));
                        assert(ub(k) || exists|i: nat| p <= i < k && #[trigger] ua(i));
                        if !ub(k) {
                            let i = choose|i: nat| p <= i < k && #[trigger] ua(i);
                            assert(sat(t, *a, i, w) == holds_ltl(t, *a, i));
                            assert(sat(t, *a, i, w));
                        }
                    }
                }
            }
        },
    }
}

/// The bounded semantics of `g` repeats with the loop period.
proof fn lemma_periodic(t: TraceModel, g: FormulaModel, w: nat)
    requires
        t.wf(),
    ensures
        periodic(semantics(t, g, w), t.loop_start, t.period() as nat),
{
    let h = semantics(t, g, w);
    assert forall|x: nat| #![trigger h(x)] x >= t.loop_start implies h(x + t.period() as nat) == h(x) by {
        lemma_sat_periodic(t, g, x, w);
    }
}

/// With a window at least as long as the prefix (the checker's window is
/// twice as long), the bounded semantics that the checker computes is the
/// usual, unbounded LTL semantics on the lasso.
pub proof fn lemma_window_suffices(t: TraceModel, f: FormulaModel, p: nat, w: nat)
    requires
        t.wf(),
        w >= t.len(),
    ensures
        sat(t, f, p, w) == holds_ltl(t, f, p),
{
    lemma_window_everywhere(t, f, w);
}

} // verus!
