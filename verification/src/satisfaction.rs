//! Checking whether a trace satisfies a formula.
//!
//! Temporal operators are evaluated over a bounded window: `F`, `G`, `U` and
//! `R` at position `p` look at positions `p, p+1, ..., p+bound-1`, where
//! [`satisfies`] takes `bound = 2 * prefix length`. The checker memoizes:
//! for every subformula it computes, once, a table of its truth value at
//! each prefix index, and reads positions past the prefix through the loop.
//! The tables are built bottom-up with one call per subformula, so the
//! depth of those calls is the depth of the formula, as it is for cloning,
//! hashing or dropping a formula.
use crate::formula::FormulaModel;
use crate::formula::LtlFormula;
use crate::trace::lemma_resolve_in_prefix;
use crate::trace::lemma_resolve_periodic;
use crate::trace::lemma_resolve_step;
use crate::trace::Trace;
use crate::trace::TraceModel;
use crate::unbounded::holds_ltl;
use crate::unbounded::lemma_window_suffices;
use vstd::prelude::*;

verus! {

/// Bounded LTL semantics of `f` on the infinite trace `t`, as a predicate
/// on absolute positions; each temporal operator looks `bound` positions
/// ahead.
pub open spec fn semantics(t: TraceModel, f: FormulaModel, bound: nat) -> spec_fn(nat) -> bool
    decreases f,
{
    match f {
        FormulaModel::Atomic(a) => |p: nat| t.holds(p, a),
        FormulaModel::Not(g) => {
            let h = semantics(t, *g, bound);
            |p: nat| !h(p)
        },
        FormulaModel::And(a, b) => {
            let ha = semantics(t, *a, bound);
            let hb = semantics(t, *b, bound);
            |p: nat| ha(p) && hb(p)
        },
        FormulaModel::Or(a, b) => {
            let ha = semantics(t, *a, bound);
            let hb = semantics(t, *b, bound);
            |p: nat| ha(p) || hb(p)
        },
        FormulaModel::Implies(a, b) => {
            let ha = semantics(t, *a, bound);
            let hb = semantics(t, *b, bound);
            |p: nat| !ha(p) || hb(p)
        },
        FormulaModel::Next(g) => {
            let h = semantics(t, *g, bound);
            |p: nat| h(p + 1)
        },
        FormulaModel::Finally(g) => {
            let h = semantics(t, *g, bound);
            |p: nat| exists|j: nat| p <= j < p + bound && #[trigger] h(j)
        },
        FormulaModel::Globally(g) => {
            let h = semantics(t, *g, bound);
            |p: nat| forall|j: nat| p <= j < p + bound ==> #[trigger] h(j)
        },
        FormulaModel::Until(a, b) => {
            let ha = semantics(t, *a, bound);
            let hb = semantics(t, *b, bound);
            |p: nat|
                exists|j: nat|
                    p <= j < p + bound && #[trigger] hb(j) && forall|i: nat| p <= i < j ==> #[trigger] ha(i)
        },
        FormulaModel::Release(a, b) => {
            let ha = semantics(t, *a, bound);
            let hb = semantics(t, *b, bound);
            |p: nat|
                forall|j: nat|
                    p <= j < p + bound ==> #[trigger] hb(j) || exists|i: nat| p <= i < j && #[trigger] ha(i)
        },
    }
}

/// `f` holds at absolute position `p` of `t` (bounded semantics).
pub open spec fn sat(t: TraceModel, f: FormulaModel, p: nat, bound: nat) -> bool {
    semantics(t, f, bound)(p)
}

/// `a` holds at every position of `[from, to)`.
pub open spec fn holds_throughout(t: TraceModel, a: FormulaModel, from: nat, to: nat, bound: nat) -> bool {
    forall|i: nat| from <= i < to ==> #[trigger] sat(t, a, i, bound)
}

/// `a` holds at some position of `[from, to)`.
pub open spec fn holds_somewhere(t: TraceModel, a: FormulaModel, from: nat, to: nat, bound: nat) -> bool {
    exists|i: nat| from <= i < to && #[trigger] sat(t, a, i, bound)
}

/// The meaning of each operator, one step down the formula.
pub proof fn lemma_sat_unfold(t: TraceModel, f: FormulaModel, p: nat, bound: nat)
    ensures
        f matches FormulaModel::Atomic(a) ==> sat(t, f, p, bound) == t.holds(p, a),
        f matches FormulaModel::Not(g) ==> sat(t, f, p, bound) == !sat(t, *g, p, bound),
        f matches FormulaModel::And(a, b) ==> sat(t, f, p, bound) == (sat(t, *a, p, bound) && sat(t, *b, p, bound)),
        f matches FormulaModel::Or(a, b) ==> sat(t, f, p, bound) == (sat(t, *a, p, bound) || sat(t, *b, p, bound)),
        f matches FormulaModel::Implies(a, b) ==> sat(t, f, p, bound) == (!sat(t, *a, p, bound) || sat(t, *b, p, bound)),
        f matches FormulaModel::Next(g) ==> sat(t, f, p, bound) == sat(t, *g, p + 1, bound),
        f matches FormulaModel::Finally(g) ==> sat(t, f, p, bound) == holds_somewhere(t, *g, p, p + bound, bound),
        f matches FormulaModel::Globally(g) ==> sat(t, f, p, bound) == holds_throughout(t, *g, p, p + bound, bound),
        f matches FormulaModel::Until(a, b) ==> sat(t, f, p, bound) == (exists|j: nat|
            p <= j < p + bound && #[trigger] sat(t, *b, j, bound) && holds_throughout(t, *a, p, j, bound)),
        f matches FormulaModel::Release(a, b) ==> sat(t, f, p, bound) == (forall|j: nat|
            p <= j < p + bound ==> #[trigger] sat(t, *b, j, bound) || holds_somewhere(t, *a, p, j, bound)),
{
    match f {
        FormulaModel::Finally(g) => lemma_sat_finally(t, *g, p, bound),
        FormulaModel::Globally(g) => lemma_sat_globally(t, *g, p, bound),
        FormulaModel::Until(a, b) => lemma_sat_until(t, *a, *b, p, bound),
        FormulaModel::Release(a, b) => lemma_sat_release(t, *a, *b, p, bound),
        _ => {},
    }
}

proof fn lemma_sat_finally(t: TraceModel, g: FormulaModel, p: nat, bound: nat)
    ensures
        sat(t, FormulaModel::Finally(Box::new(g)), p, bound) == holds_somewhere(t, g, p, p + bound, bound),
{
    let f = FormulaModel::Finally(Box::new(g));
    let h = semantics(t, g, bound);
    assert(sat(t, f, p, bound) == (exists|j: nat| p <= j < p + bound && #[trigger] h(j)));
    if sat(t, f, p, bound) {
        let j = choose|j: nat| p <= j < p + bound && #[trigger] h(j);
        assert(sat(t, g, j, bound));
    }
    if holds_somewhere(t, g, p, p + bound, bound) {
        let j = choose|j: nat| p <= j < p + bound && #[trigger] sat(t, g, j, bound);
        assert(h(j));
    }
}

proof fn lemma_sat_globally(t: TraceModel, g: FormulaModel, p: nat, bound: nat)
    ensures
        sat(t, FormulaModel::Globally(Box::new(g)), p, bound) == holds_throughout(t, g, p, p + bound, bound),
{
    let f = FormulaModel::Globally(Box::new(g));
    let h = semantics(t, g, bound);
    assert(sat(t, f, p, bound) == (forall|j: nat| p <= j < p + bound ==> #[trigger] h(j)));
    if sat(t, f, p, bound) {
        assert forall|j: nat| p <= j < p + bound implies #[trigger] sat(t, g, j, bound) by {
            assert(h(j));
        }
    }
    if holds_throughout(t, g, p, p + bound, bound) {
        assert forall|j: nat| p <= j < p + bound implies #[trigger] h(j) by {
            assert(sat(t, g, j, bound));
        }
    }
}

proof fn lemma_sat_until(t: TraceModel, a: FormulaModel, b: FormulaModel, p: nat, bound: nat)
    ensures
        sat(t, FormulaModel::Until(Box::new(a), Box::new(b)), p, bound) == (exists|j: nat|
            p <= j < p + bound && #[trigger] sat(t, b, j, bound) && holds_throughout(t, a, p, j, bound)),
{
    let f = FormulaModel::Until(Box::new(a), Box::new(b));
    let ha = semantics(t, a, bound);
    let hb = semantics(t, b, bound);
    assert(sat(t, f, p, bound) == (exists|j: nat|
        p <= j < p + bound && #[trigger] hb(j) && forall|i: nat| p <= i < j ==> #[trigger] ha(i)));
    if sat(t, f, p, bound) {
        let j = choose|j: nat|
            p <= j < p + bound && #[trigger] hb(j) && forall|i: nat| p <= i < j ==> #[trigger] ha(i);
        assert(sat(t, b, j, bound));
        assert forall|i: nat| p <= i < j implies #[trigger] sat(t, a, i, bound) by {
            assert(ha(i));
        }
    }
    if exists|j: nat|
        p <= j < p + bound && #[trigger] sat(t, b, j, bound) && holds_throughout(t, a, p, j, bound) {
        let j = choose|j: nat|
            p <= j < p + bound && #[trigger] sat(t, b, j, bound) && holds_throughout(t, a, p, j, bound);
        assert(hb(j));
        assert forall|i: nat| p <= i < j implies #[trigger] ha(i) by {
            assert(sat(t, a, i, bound));
        }
    }
}

proof fn lemma_sat_release(t: TraceModel, a: FormulaModel, b: FormulaModel, p: nat, bound: nat)
    ensures
        sat(t, FormulaModel::Release(Box::new(a), Box::new(b)), p, bound) == (forall|j: nat|
            p <= j < p + bound ==> #[trigger] sat(t, b, j, bound) || holds_somewhere(t, a, p, j, bound)),
{
    let f = FormulaModel::Release(Box::new(a), Box::new(b));
    let ha = semantics(t, a, bound);
    let hb = semantics(t, b, bound);
    assert(sat(t, f, p, bound) == (forall|j: nat|
        p <= j < p + bound ==> #[trigger] hb(j) || exists|i: nat| p <= i < j && #[trigger] ha(i)));
    if sat(t, f, p, bound) {
        assert forall|j: nat| p <= j < p + bound implies #[trigger] sat(t, b, j, bound) || holds_somewhere(
            t,
            a,
            p,
            j,
            bound,
        ) by {
            assert(hb(j) || exists|i: nat| p <= i < j && #[trigger] ha(i));
            if !hb(j) {
                let i = choose|i: nat| p <= i < j && #[trigger] ha(i);
                assert(sat(t, a, i, bound));
            }
        }
    }
    if forall|j: nat|
        p <= j < p + bound ==> #[trigger] sat(t, b, j, bound) || holds_somewhere(t, a, p, j, bound) {
        assert forall|j: nat| p <= j < p + bound implies #[trigger] hb(j) || exists|i: nat|
            p <= i < j && #[trigger] ha(i) by {
            assert(sat(t, b, j, bound) || holds_somewhere(t, a, p, j, bound));
            if !sat(t, b, j, bound) {
                let i = choose|i: nat| p <= i < j && #[trigger] sat(t, a, i, bound);
                assert(ha(i));
            }
        }
    }
}

/// Shifting a window of positions by the loop's period changes nothing,
/// when `a` is periodic on that window.
proof fn lemma_window_shift(t: TraceModel, a: FormulaModel, from: nat, to: nat, bound: nat)
    requires
        t.wf(),
        from >= t.loop_start,
        forall|j: nat| from <= j < to ==> sat(t, a, (j + t.period()) as nat, bound) == #[trigger] sat(t, a, j, bound),
    ensures
        holds_somewhere(t, a, (from + t.period()) as nat, (to + t.period()) as nat, bound)
            == holds_somewhere(t, a, from, to, bound),
        holds_throughout(t, a, (from + t.period()) as nat, (to + t.period()) as nat, bound)
            == holds_throughout(t, a, from, to, bound),
{
    let per = t.period();
    let from1 = (from + per) as nat;
    let to1 = (to + per) as nat;
    if holds_somewhere(t, a, from, to, bound) {
        let i = choose|i: nat| from <= i < to && #[trigger] sat(t, a, i, bound);
        assert(sat(t, a, (i + per) as nat, bound));
    }
    if holds_somewhere(t, a, from1, to1, bound) {
        let i = choose|i: nat| from1 <= i < to1 && #[trigger] sat(t, a, i, bound);
        let i0 = (i - per) as nat;
        assert(i0 + per == i);
        assert(sat(t, a, i0, bound));
    }
    if holds_throughout(t, a, from, to, bound) {
        assert forall|i: nat| from1 <= i < to1 implies #[trigger] sat(t, a, i, bound) by {
            let i0 = (i - per) as nat;
            assert(i0 + per == i);
            assert(sat(t, a, i0, bound));
        }
    }
    if holds_throughout(t, a, from1, to1, bound) {
        assert forall|i: nat| from <= i < to implies #[trigger] sat(t, a, i, bound) by {
            assert(sat(t, a, (i + per) as nat, bound));
        }
    }
}

/// Satisfaction is periodic in the loop: for a position `x` at or after the
/// loop start, `x` and `x + period` satisfy the same formulas.
pub proof fn lemma_sat_periodic(t: TraceModel, f: FormulaModel, x: nat, bound: nat)
    requires
        t.wf(),
        x >= t.loop_start,
    ensures
        sat(t, f, (x + t.period()) as nat, bound) == sat(t, f, x, bound),
    decreases f,
{
    let per = t.period();
    let y = (x + per) as nat;
    lemma_sat_unfold(t, f, x, bound);
    lemma_sat_unfold(t, f, y, bound);
    match f {
        FormulaModel::Atomic(a) => {
            lemma_resolve_periodic(t, x);
        },
        FormulaModel::Not(g) => {
            lemma_sat_periodic(t, *g, x, bound);
        },
        FormulaModel::And(a, b) => {
            lemma_sat_periodic(t, *a, x, bound);
            lemma_sat_periodic(t, *b, x, bound);
        },
        FormulaModel::Or(a, b) => {
            lemma_sat_periodic(t, *a, x, bound);
            lemma_sat_periodic(t, *b, x, bound);
        },
        FormulaModel::Implies(a, b) => {
            lemma_sat_periodic(t, *a, x, bound);
            lemma_sat_periodic(t, *b, x, bound);
        },
        FormulaModel::Next(g) => {
            lemma_sat_periodic(t, *g, x + 1, bound);
            assert(x + 1 + per == y + 1);
        },
        FormulaModel::Finally(g) => {
            assert forall|j: nat| x <= j < x + bound implies sat(t, *g, (j + per) as nat, bound)
                == #[trigger] sat(t, *g, j, bound) by {
                lemma_sat_periodic(t, *g, j, bound);
            }
            lemma_window_shift(t, *g, x, x + bound, bound);
        },
        FormulaModel::Globally(g) => {
            assert forall|j: nat| x <= j < x + bound implies sat(t, *g, (j + per) as nat, bound)
                == #[trigger] sat(t, *g, j, bound) by {
                lemma_sat_periodic(t, *g, j, bound);
            }
            lemma_window_shift(t, *g, x, x + bound, bound);
        },
        FormulaModel::Until(a, b) => {
            assert forall|j: nat| x <= j < x + bound implies sat(t, *a, (j + per) as nat, bound)
                == #[trigger] sat(t, *a, j, bound) by {
                lemma_sat_periodic(t, *a, j, bound);
            }
            assert forall|j: nat| x <= j < x + bound implies sat(t, *b, (j + per) as nat, bound)
                == #[trigger] sat(t, *b, j, bound) by {
                lemma_sat_periodic(t, *b, j, bound);
            }
            if sat(t, f, x, bound) {
                let j = choose|j: nat|
                    x <= j < x + bound && #[trigger] sat(t, *b, j, bound) && holds_throughout(t, *a, x, j, bound);
                lemma_window_shift(t, *a, x, j, bound);
                assert(sat(t, *b, (j + per) as nat, bound));
            }
            if sat(t, f, y, bound) {
                let j = choose|j: nat|
                    y <= j < y + bound && #[trigger] sat(t, *b, j, bound) && holds_throughout(t, *a, y, j, bound);
                let j0 = (j - per) as nat;
                assert(j0 + per == j);
                lemma_window_shift(t, *a, x, j0, bound);
                assert(sat(t, *b, j0, bound));
            }
        },
        FormulaModel::Release(a, b) => {
            assert forall|j: nat| x <= j < x + bound implies sat(t, *a, (j + per) as nat, bound)
                == #[trigger] sat(t, *a, j, bound) by {
                lemma_sat_periodic(t, *a, j, bound);
            }
            assert forall|j: nat| x <= j < x + bound implies sat(t, *b, (j + per) as nat, bound)
                == #[trigger] sat(t, *b, j, bound) by {
                lemma_sat_periodic(t, *b, j, bound);
            }
            if sat(t, f, x, bound) {
                assert forall|j: nat| y <= j < y + bound implies #[trigger] sat(t, *b, j, bound) || holds_somewhere(
                    t,
                    *a,
                    y,
                    j,
                    bound,
                ) by {
                    let j0 = (j - per) as nat;
                    assert(j0 + per == j);
                    assert(sat(t, *b, j0, bound) || holds_somewhere(t, *a, x, j0, bound));
                    lemma_window_shift(t, *a, x, j0, bound);
                }
            }
            if sat(t, f, y, bound) {
                assert forall|j: nat| x <= j < x + bound implies #[trigger] sat(t, *b, j, bound) || holds_somewhere(
                    t,
                    *a,
                    x,
                    j,
                    bound,
                ) by {
                    let j1 = (j + per) as nat;
                    assert(sat(t, *b, j1, bound) || holds_somewhere(t, *a, y, j1, bound));
                    lemma_window_shift(t, *a, x, j, bound);
                }
            }
        },
    }
}

/// Negation is pointwise: `!f` holds at a position exactly where `f` does
/// not, on every trace and for every window.
pub proof fn lemma_negation_pointwise(t: TraceModel, f: FormulaModel, p: nat, bound: nat)
    ensures
        sat(t, FormulaModel::Not(Box::new(f)), p, bound) == !sat(t, f, p, bound),
{
    lemma_sat_unfold(t, FormulaModel::Not(Box::new(f)), p, bound);
}

/// What [`satisfies`] computes repeats with the loop period: from a
/// position inside the loop, moving on by one period does not change
/// whether a formula holds within the checker's window of twice the prefix.
pub proof fn lemma_satisfies_periodic(t: TraceModel, f: FormulaModel, s: nat)
    requires
        t.wf(),
        s >= t.loop_start,
    ensures
        sat(t, f, (s + t.period()) as nat, 2 * t.len()) == sat(t, f, s, 2 * t.len()),
{
    lemma_sat_periodic(t, f, s, 2 * t.len());
}

/// A position and the prefix index it stands for satisfy the same formulas.
pub proof fn lemma_sat_resolve(t: TraceModel, f: FormulaModel, i: nat, bound: nat)
    requires
        t.wf(),
    ensures
        sat(t, f, i, bound) == sat(t, f, t.resolve(i), bound),
    decreases i,
{
    if i >= t.len() {
        let j = (i - t.period()) as nat;
        lemma_sat_periodic(t, f, j, bound);
        lemma_resolve_periodic(t, j);
        lemma_sat_resolve(t, f, j, bound);
        assert(j + t.period() == i);
    }
}

/// `tab` holds the truth value of `f` at every prefix index of `t`.
pub open spec fn is_table(t: TraceModel, f: FormulaModel, tab: Seq<bool>, bound: nat) -> bool {
    &&& tab.len() == t.len()
    &&& forall|q: int| 0 <= q < t.len() ==> #[trigger] tab[q] == sat(t, f, q as nat, bound)
}

/// The prefix index after prefix index `q`.
fn next_position(trace: &Trace, q: usize) -> (r: usize)
    requires
        trace@.wf(),
        q < trace.prefix.len(),
    ensures
        r == trace@.next_index(q as nat),
        r < trace.prefix.len(),
{
    if q + 1 < trace.prefix.len() {
        q + 1
    } else {
        trace.loop_start
    }
}

/// Reads the table of `g` at absolute position `q + k`, where `cur` is the
/// prefix index of that position.
proof fn lemma_table_read(t: TraceModel, g: FormulaModel, tab: Seq<bool>, bound: nat, pos: nat, cur: nat)
    requires
        t.wf(),
        is_table(t, g, tab, bound),
        cur == t.resolve(pos),
    ensures
        cur < t.len(),
        tab[cur as int] == sat(t, g, pos, bound),
{
    lemma_resolve_in_prefix(t, pos);
    lemma_sat_resolve(t, g, pos, bound);
}

/// `F g` at prefix index `q`: does `g` hold somewhere in the window?
fn eval_finally_at(trace: &Trace, inner: &Vec<bool>, q: usize, max_steps: usize, Ghost(g): Ghost<
    FormulaModel,
>) -> (r: bool)
    requires
        trace@.wf(),
        q < trace.prefix.len(),
        is_table(trace@, g, inner@, max_steps as nat),
    ensures
        r == sat(trace@, FormulaModel::Finally(Box::new(g)), q as nat, max_steps as nat),
{
    let ghost t = trace@;
    let ghost bound = max_steps as nat;
    let mut found = false;
    let mut cur = q;
    let mut k: usize = 0;
    while k < max_steps
        invariant
            t == trace@,
            t.wf(),
            bound == max_steps,
            is_table(t, g, inner@, bound),
            q < t.len(),
            k <= max_steps,
            cur == t.resolve((q + k) as nat),
            found == holds_somewhere(t, g, q as nat, (q + k) as nat, bound),
        decreases max_steps - k,
    {
        let ghost pos = (q + k) as nat;
        proof {
            lemma_table_read(t, g, inner@, bound, pos, cur as nat);
            lemma_resolve_step(t, pos);
        }
        let ghost old_found = found;
        if inner[cur] {
            found = true;
        }
        assert(found == holds_somewhere(t, g, q as nat, pos + 1, bound)) by {
            if old_found {
                let j = choose|j: nat| q <= j < pos && #[trigger] sat(t, g, j, bound);
                assert(sat(t, g, j, bound));
            }
            if inner@[cur as int] {
                assert(sat(t, g, pos, bound));
            }
            if holds_somewhere(t, g, q as nat, pos + 1, bound) {
                let j = choose|j: nat| q <= j < pos + 1 && #[trigger] sat(t, g, j, bound);
                if j < pos {
                    assert(old_found);
                }
            }
        }
        cur = next_position(trace, cur);
        k = k + 1;
    }
    proof {
        lemma_sat_finally(t, g, q as nat, bound);
    }
    found
}

/// `G g` at prefix index `q`: does `g` hold everywhere in the window?
fn eval_globally_at(trace: &Trace, inner: &Vec<bool>, q: usize, max_steps: usize, Ghost(g): Ghost<
    FormulaModel,
>) -> (r: bool)
    requires
        trace@.wf(),
        q < trace.prefix.len(),
        is_table(trace@, g, inner@, max_steps as nat),
    ensures
        r == sat(trace@, FormulaModel::Globally(Box::new(g)), q as nat, max_steps as nat),
{
    let ghost t = trace@;
    let ghost bound = max_steps as nat;
    let mut holds_all = true;
    let mut cur = q;
    let mut k: usize = 0;
    while k < max_steps
        invariant
            t == trace@,
            t.wf(),
            bound == max_steps,
            is_table(t, g, inner@, bound),
            q < t.len(),
            k <= max_steps,
            cur == t.resolve((q + k) as nat),
            holds_all == holds_throughout(t, g, q as nat, (q + k) as nat, bound),
        decreases max_steps - k,
    {
        let ghost pos = (q + k) as nat;
        proof {
            lemma_table_read(t, g, inner@, bound, pos, cur as nat);
            lemma_resolve_step(t, pos);
        }
        let ghost old_all = holds_all;
        if !inner[cur] {
            holds_all = false;
        }
        assert(holds_all == holds_throughout(t, g, q as nat, pos + 1, bound)) by {
            if !inner@[cur as int] {
                assert(!sat(t, g, pos, bound));
            }
            if old_all && inner@[cur as int] {
                assert forall|j: nat| q <= j < pos + 1 implies #[trigger] sat(t, g, j, bound) by {
                    if j < pos {
                        assert(sat(t, g, j, bound));
                    }
                }
            }
            if holds_throughout(t, g, q as nat, pos + 1, bound) {
                assert forall|j: nat| q <= j < pos implies #[trigger] sat(t, g, j, bound) by {
                    assert(sat(t, g, j, bound));
                }
            }
        }
        cur = next_position(trace, cur);
        k = k + 1;
    }
    proof {
        lemma_sat_globally(t, g, q as nat, bound);
    }
    holds_all
}

/// `left U right` at prefix index `q`: is there a point in the window where
/// `right` holds and `left` held at every earlier point of the window?
fn eval_until_at(
    trace: &Trace,
    left: &Vec<bool>,
    right: &Vec<bool>,
    q: usize,
    max_steps: usize,
    Ghost(a): Ghost<FormulaModel>,
    Ghost(b): Ghost<FormulaModel>,
) -> (r: bool)
    requires
        trace@.wf(),
        q < trace.prefix.len(),
        is_table(trace@, a, left@, max_steps as nat),
        is_table(trace@, b, right@, max_steps as nat),
    ensures
        r == sat(trace@, FormulaModel::Until(Box::new(a), Box::new(b)), q as nat, max_steps as nat),
{
    let ghost t = trace@;
    let ghost bound = max_steps as nat;
    let mut found = false;
    let mut all_left = true;
    let mut cur = q;
    let mut k: usize = 0;
    while k < max_steps
        invariant
            t == trace@,
            t.wf(),
            bound == max_steps,
            is_table(t, a, left@, bound),
            is_table(t, b, right@, bound),
            q < t.len(),
            k <= max_steps,
            cur == t.resolve((q + k) as nat),
            all_left == holds_throughout(t, a, q as nat, (q + k) as nat, bound),
            found == (exists|j: nat|
                q <= j < q + k && #[trigger] sat(t, b, j, bound) && holds_throughout(t, a, q as nat, j, bound)),
        decreases max_steps - k,
    {
        let ghost pos = (q + k) as nat;
        proof {
            lemma_table_read(t, a, left@, bound, pos, cur as nat);
            lemma_table_read(t, b, right@, bound, pos, cur as nat);
            lemma_resolve_step(t, pos);
        }
        let ghost old_found = found;
        if all_left && right[cur] {
            found = true;
        }
        assert(found == (exists|j: nat|
            q <= j < pos + 1 && #[trigger] sat(t, b, j, bound) && holds_throughout(t, a, q as nat, j, bound))) by {
            if all_left && right@[cur as int] {
                assert(sat(t, b, pos, bound));
            }
            if old_found {
                let j = choose|j: nat|
                    q <= j < pos && #[trigger] sat(t, b, j, bound) && holds_throughout(t, a, q as nat, j, bound);
                assert(sat(t, b, j, bound));
            }
            if exists|j: nat|
                q <= j < pos + 1 && #[trigger] sat(t, b, j, bound) && holds_throughout(t, a, q as nat, j, bound) {
                let j = choose|j: nat|
                    q <= j < pos + 1 && #[trigger] sat(t, b, j, bound) && holds_throughout(t, a, q as nat, j, bound);
                if j < pos {
                    assert(old_found);
                } else {
                    assert(all_left);
                }
            }
        }
        let ghost old_all = all_left;
        if !left[cur] {
            all_left = false;
        }
        assert(all_left == holds_throughout(t, a, q as nat, pos + 1, bound)) by {
            if !left@[cur as int] {
                assert(!sat(t, a, pos, bound));
            }
            if old_all && left@[cur as int] {
                assert forall|j: nat| q <= j < pos + 1 implies #[trigger] sat(t, a, j, bound) by {
                    if j < pos {
                        assert(sat(t, a, j, bound));
                    }
                }
            }
            if holds_throughout(t, a, q as nat, pos + 1, bound) {
                assert forall|j: nat| q <= j < pos implies #[trigger] sat(t, a, j, bound) by {
                    assert(sat(t, a, j, bound));
                }
            }
        }
        cur = next_position(trace, cur);
        k = k + 1;
    }
    proof {
        lemma_sat_until(t, a, b, q as nat, bound);
    }
    found
}

/// `left R right` at prefix index `q`: does `right` hold at every point of
/// the window up to and including the first point where `left` holds?
fn eval_release_at(
    trace: &Trace,
    left: &Vec<bool>,
    right: &Vec<bool>,
    q: usize,
    max_steps: usize,
    Ghost(a): Ghost<FormulaModel>,
    Ghost(b): Ghost<FormulaModel>,
) -> (r: bool)
    requires
        trace@.wf(),
        q < trace.prefix.len(),
        is_table(trace@, a, left@, max_steps as nat),
        is_table(trace@, b, right@, max_steps as nat),
    ensures
        r == sat(trace@, FormulaModel::Release(Box::new(a), Box::new(b)), q as nat, max_steps as nat),
{
    let ghost t = trace@;
    let ghost bound = max_steps as nat;
    let mut ok = true;
    let mut released = false;
    let mut cur = q;
    let mut k: usize = 0;
    while k < max_steps
        invariant
            t == trace@,
            t.wf(),
            bound == max_steps,
            is_table(t, a, left@, bound),
            is_table(t, b, right@, bound),
            q < t.len(),
            k <= max_steps,
            cur == t.resolve((q + k) as nat),
            released == holds_somewhere(t, a, q as nat, (q + k) as nat, bound),
            ok == (forall|j: nat|
                q <= j < q + k ==> #[trigger] sat(t, b, j, bound) || holds_somewhere(t, a, q as nat, j, bound)),
        decreases max_steps - k,
    {
        let ghost pos = (q + k) as nat;
        proof {
            lemma_table_read(t, a, left@, bound, pos, cur as nat);
            lemma_table_read(t, b, right@, bound, pos, cur as nat);
            lemma_resolve_step(t, pos);
        }
        let ghost old_ok = ok;
        if !(right[cur] || released) {
            ok = false;
        }
        assert(ok == (forall|j: nat|
            q <= j < pos + 1 ==> #[trigger] sat(t, b, j, bound) || holds_somewhere(t, a, q as nat, j, bound))) by {
            if !(right@[cur as int] || released) {
                assert(!sat(t, b, pos, bound));
            }
            if old_ok && (right@[cur as int] || released) {
                assert forall|j: nat| q <= j < pos + 1 implies #[trigger] sat(t, b, j, bound) || holds_somewhere(
                    t,
                    a,
                    q as nat,
                    j,
                    bound,
                ) by {
                    if j < pos {
                        assert(sat(t, b, j, bound) || holds_somewhere(t, a, q as nat, j, bound));
                    }
                }
            }
            if !old_ok {
                let j = choose|j: nat|
                    !(q <= j < pos ==> #[trigger] sat(t, b, j, bound) || holds_somewhere(t, a, q as nat, j, bound));
                assert(!(sat(t, b, j, bound) || holds_somewhere(t, a, q as nat, j, bound)));
            }
        }
        let ghost old_released = released;
        if left[cur] {
            released = true;
        }
        assert(released == holds_somewhere(t, a, q as nat, pos + 1, bound)) by {
            if left@[cur as int] {
                assert(sat(t, a, pos, bound));
            }
            if old_released {
                let i = choose|i: nat| q <= i < pos && #[trigger] sat(t, a, i, bound);
                assert(sat(t, a, i, bound));
            }
            if holds_somewhere(t, a, q as nat, pos + 1, bound) {
                let i = choose|i: nat| q <= i < pos + 1 && #[trigger] sat(t, a, i, bound);
                if i < pos {
                    assert(old_released);
                }
            }
        }
        cur = next_position(trace, cur);
        k = k + 1;
    }
    proof {
        lemma_sat_release(t, a, b, q as nat, bound);
    }
    ok
}

/// The truth table of `formula` over the prefix indices of `trace`.
fn eval_formula(trace: &Trace, formula: &LtlFormula, max_steps: usize) -> (tab: Vec<bool>)
    requires
        trace@.wf(),
    ensures
        is_table(trace@, formula@, tab@, max_steps as nat),
    decreases formula,
{
    let ghost t = trace@;
    let ghost bound = max_steps as nat;
    let n = trace.prefix.len();
    let (left, right) = match formula {
        LtlFormula::Atomic(_) => (Vec::new(), Vec::new()),
        LtlFormula::Not(g) => (eval_formula(trace, &**g, max_steps), Vec::new()),
        LtlFormula::Next(g) => (eval_formula(trace, &**g, max_steps), Vec::new()),
        LtlFormula::Finally(g) => (eval_formula(trace, &**g, max_steps), Vec::new()),
        LtlFormula::Globally(g) => (eval_formula(trace, &**g, max_steps), Vec::new()),
        LtlFormula::And(a, b) => (eval_formula(trace, &**a, max_steps), eval_formula(trace, &**b, max_steps)),
        LtlFormula::Or(a, b) => (eval_formula(trace, &**a, max_steps), eval_formula(trace, &**b, max_steps)),
        LtlFormula::Implies(a, b) => (eval_formula(trace, &**a, max_steps), eval_formula(trace, &**b, max_steps)),
        LtlFormula::Until(a, b) => (eval_formula(trace, &**a, max_steps), eval_formula(trace, &**b, max_steps)),
        LtlFormula::Release(a, b) => (eval_formula(trace, &**a, max_steps), eval_formula(trace, &**b, max_steps)),
    };
    let mut tab: Vec<bool> = Vec::new();
    let mut q: usize = 0;
    while q < n
        invariant
            t == trace@,
            bound == max_steps as nat,
            t.wf(),
            n == t.len(),
            q <= n,
            operand_tables(t, formula@, left@, right@, bound),
            tab@.len() == q,
            forall|p: int| 0 <= p < q ==> #[trigger] tab@[p] == sat(t, formula@, p as nat, bound),
        decreases n - q,
    {
        let v = value_at(trace, formula, &left, &right, q, max_steps);
        tab.push(v);
        q = q + 1;
    }
    tab
}

/// `left` and `right` are the tables of the first and second operand of
/// `f`, as far as it has them.
spec fn operand_tables(t: TraceModel, f: FormulaModel, left: Seq<bool>, right: Seq<bool>, bound: nat) -> bool {
    match f {
        FormulaModel::Atomic(_) => true,
        FormulaModel::Not(g) => is_table(t, *g, left, bound),
        FormulaModel::Next(g) => is_table(t, *g, left, bound),
        FormulaModel::Finally(g) => is_table(t, *g, left, bound),
        FormulaModel::Globally(g) => is_table(t, *g, left, bound),
        FormulaModel::And(a, b) => is_table(t, *a, left, bound) && is_table(t, *b, right, bound),
        FormulaModel::Or(a, b) => is_table(t, *a, left, bound) && is_table(t, *b, right, bound),
        FormulaModel::Implies(a, b) => is_table(t, *a, left, bound) && is_table(t, *b, right, bound),
        FormulaModel::Until(a, b) => is_table(t, *a, left, bound) && is_table(t, *b, right, bound),
        FormulaModel::Release(a, b) => is_table(t, *a, left, bound) && is_table(t, *b, right, bound),
    }
}

/// Whether `formula` holds at prefix index `q`, given its operands' tables.
fn value_at(
    trace: &Trace,
    formula: &LtlFormula,
    left: &Vec<bool>,
    right: &Vec<bool>,
    q: usize,
    max_steps: usize,
) -> (v: bool)
    requires
        trace@.wf(),
        q < trace.prefix.len(),
        operand_tables(trace@, formula@, left@, right@, max_steps as nat),
    ensures
        v == sat(trace@, formula@, q as nat, max_steps as nat),
{
    let ghost t = trace@;
    let ghost bound = max_steps as nat;
    match formula {
        LtlFormula::Atomic(prop) => trace.holds(q, prop.as_str()),
        LtlFormula::Not(_) => !left[q],
        LtlFormula::And(_, _) => left[q] && right[q],
        LtlFormula::Or(_, _) => left[q] || right[q],
        LtlFormula::Implies(_, _) => !left[q] || right[q],
        LtlFormula::Next(g) => {
            let nq = next_position(trace, q);
            proof {
                lemma_resolve_step(t, q as nat);
                lemma_table_read(t, (**g)@, left@, bound, (q + 1) as nat, nq as nat);
            }
            left[nq]
        },
        LtlFormula::Finally(g) => eval_finally_at(trace, left, q, max_steps, Ghost((**g)@)),
        LtlFormula::Globally(g) => eval_globally_at(trace, left, q, max_steps, Ghost((**g)@)),
        LtlFormula::Until(a, b) => eval_until_at(trace, left, right, q, max_steps, Ghost((**a)@), Ghost((**b)@)),
        LtlFormula::Release(a, b) => eval_release_at(trace, left, right, q, max_steps, Ghost((**a)@), Ghost((**b)@)),
    }
}

/// Whether `formula` holds at position `start`, each temporal operator
/// looking `max_steps` positions ahead.
fn eval_iterative(trace: &Trace, formula: &LtlFormula, start: usize, max_steps: usize) -> (r: bool)
    requires
        trace@.wf(),
    ensures
        r == sat(trace@, formula@, start as nat, max_steps as nat),
{
    let tab = eval_formula(trace, formula, max_steps);
    let idx = trace.resolve_index(start);
    proof {
        lemma_table_read(trace@, formula@, tab@, max_steps as nat, start as nat, idx as nat);
    }
    tab[idx]
}

/// Check whether `trace` satisfies `formula` at position `start`, each
/// temporal operator looking ahead twice the prefix length. On a lasso that
/// window sees every case, so the answer is the formula's LTL meaning.
pub fn satisfies(trace: &Trace, formula: &LtlFormula, start: usize) -> (r: bool)
    requires
        trace@.wf(),
    ensures
        r == sat(trace@, formula@, start as nat, 2 * trace@.len()),
        r == holds_ltl(trace@, formula@, start as nat),
{
    let n = trace.len();
    // A prefix too long for twice its length to fit a machine word is looked
    // ahead by its own length, which decides the same (`lemma_window_suffices`).
    let max_steps = if n <= usize::MAX / 2 {
        n * 2
    } else {
        n
    };
    proof {
        lemma_window_suffices(trace@, formula@, start as nat, 2 * trace@.len());
        lemma_window_suffices(trace@, formula@, start as nat, max_steps as nat);
    }
    eval_iterative(trace, formula, start, max_steps)
}

} // verus!
