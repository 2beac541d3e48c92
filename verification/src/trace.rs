//! Execution traces: a finite prefix of states with a loop-back point,
//! standing for an ultimately periodic infinite execution.
use vstd::arithmetic::div_mod::lemma_mod_multiples_vanish;
use vstd::arithmetic::div_mod::lemma_mod_self_0;
use vstd::arithmetic::div_mod::lemma_small_mod;
use vstd::prelude::*;

verus! {

/// A finite representation of an infinite execution trace.
///
/// Each state is the list of atomic propositions true at that position.
/// Positions at or beyond `prefix.len()` wrap around into the looping part
/// `[loop_start, prefix.len())`:
///
/// ```text
/// prefix[0], ..., prefix[loop_start-1], prefix[loop_start], ..., prefix[n-1]
///                                            ^                        |
///                                            +------------------------+
/// ```
#[derive(Debug, Clone, PartialEq)]
pub struct Trace {
    /// Sequence of states. Each state is the set of true propositions.
    pub prefix: Vec<Vec<String>>,
    /// Index where the infinite loop begins.
    pub loop_start: usize,
}

/// The mathematical value of a [`Trace`].
pub struct TraceModel {
    /// The states of the prefix, each given by its propositions.
    pub states: Seq<Seq<Seq<char>>>,
    /// Index where the loop begins.
    pub loop_start: nat,
}

impl TraceModel {
    pub open spec fn len(self) -> nat {
        self.states.len()
    }

    /// A trace that stands for an infinite execution: a non-empty prefix and
    /// a loop that starts inside it.
    pub open spec fn wf(self) -> bool {
        0 < self.states.len() && self.loop_start < self.states.len()
    }

    /// Length of the looping part.
    pub open spec fn period(self) -> int {
        self.states.len() - self.loop_start
    }

    /// The prefix index that absolute position `i` stands for.
    pub open spec fn resolve(self, i: nat) -> nat {
        if i < self.len() {
            i
        } else if self.loop_start >= self.len() {
            self.loop_start
        } else {
            (self.loop_start + (i - self.loop_start) % (self.period())) as nat
        }
    }

    /// The prefix index that follows prefix index `q` in the infinite trace.
    pub open spec fn next_index(self, q: nat) -> nat {
        if q + 1 < self.len() {
            q + 1
        } else {
            self.loop_start
        }
    }

    /// Proposition `prop` is true at absolute position `i`.
    pub open spec fn holds(self, i: nat, prop: Seq<char>) -> bool {
        self.states[self.resolve(i) as int].contains(prop)
    }

    /// Every proposition that occurs in some state of the prefix.
    pub open spec fn propositions(self) -> Set<Seq<char>> {
        Set::new(
            |p: Seq<char>|
                exists|k: int, j: int|
                    0 <= k < self.states.len() && 0 <= j < self.states[k].len() && #[trigger] self.states[k][j]
                        == p,
        )
    }
}

/// The characters of each string of a state.
pub open spec fn state_model(state: Seq<String>) -> Seq<Seq<char>> {
    state.map_values(|s: String| s@)
}

impl View for Trace {
    type V = TraceModel;

    open spec fn view(&self) -> TraceModel {
        TraceModel {
            states: self.prefix@.map_values(|st: Vec<String>| state_model(st@)),
            loop_start: self.loop_start as nat,
        }
    }
}

/// Resolution always lands inside the prefix of a well-formed trace.
pub proof fn lemma_resolve_in_prefix(t: TraceModel, i: nat)
    requires
        t.wf(),
    ensures
        t.resolve(i) < t.len(),
        i >= t.loop_start ==> t.resolve(i) >= t.loop_start,
{
}

/// Positions in the loop repeat with the loop's period: for `i >= loop_start`,
/// position `i + period` stands for the same prefix index as `i`.
pub proof fn lemma_resolve_periodic(t: TraceModel, i: nat)
    requires
        t.wf(),
        i >= t.loop_start,
    ensures
        t.resolve((i + t.period()) as nat) == t.resolve(i),
{
    let p = t.period();
    let ls = t.loop_start as int;
    lemma_mod_multiples_vanish(1, i - ls, p);
    if i < t.len() {
        lemma_small_mod((i - ls) as nat, p as nat);
    }
}

/// Stepping one position forward in the infinite trace moves from prefix
/// index `q` to `next_index(q)`.
pub proof fn lemma_resolve_step(t: TraceModel, i: nat)
    requires
        t.wf(),
    ensures
        t.resolve(i + 1) == t.next_index(t.resolve(i)),
    decreases i,
{
    let p = t.period();
    let ls = t.loop_start as int;
    if i + 1 < t.len() {
    } else if i + 1 == t.len() {
        lemma_mod_self_0(p);
    } else {
        let j = (i - p) as nat;
        lemma_resolve_step(t, j);
        lemma_resolve_periodic(t, j);
        lemma_resolve_periodic(t, j + 1);
        assert(j + p == i);
    }
}

impl Trace {
    /// Create a new trace.
    ///
    /// The prefix must not be empty and the loop must start inside it.
    pub fn new(prefix: Vec<Vec<String>>, loop_start: usize) -> (t: Self)
        requires
            prefix.len() > 0,
            loop_start < prefix.len(),
        ensures
            t.prefix@ == prefix@,
            t.loop_start == loop_start,
            t@.wf(),
    {
        Trace { prefix, loop_start }
    }

    /// Create a trace that loops back to its first state.
    pub fn simple(states: Vec<Vec<String>>) -> (t: Self)
        requires
            states.len() > 0,
        ensures
            t.prefix@ == states@,
            t.loop_start == 0,
            t@.wf(),
    {
        Trace { prefix: states, loop_start: 0 }
    }

    /// Create a trace where each state holds exactly one proposition.
    pub fn from_props(props: &[&str]) -> (t: Self)
        ensures
            t.loop_start == 0,
            t.prefix@.len() == props@.len(),
            forall|i: int|
                0 <= i < props@.len() ==> #[trigger] t@.states[i] == seq![props@[i]@],
    {
        let mut prefix: Vec<Vec<String>> = Vec::new();
        let mut i: usize = 0;
        while i < props.len()
            invariant
                i <= props@.len(),
                prefix@.len() == i,
                forall|k: int|
                    0 <= k < i ==> #[trigger] state_model(prefix@[k]@) == seq![props@[k]@],
            decreases props@.len() - i,
        {
            let name: String = props[i].to_owned();
            let state: Vec<String> = vec![name];
            proof {
                assert(state_model(state@) =~= seq![props@[i as int]@]);
            }
            prefix.push(state);
            i = i + 1;
        }
        let t = Trace { prefix, loop_start: 0 };
        assert forall|k: int| 0 <= k < props@.len() implies #[trigger] t@.states[k] == seq![props@[k]@] by {
            assert(t@.states[k] == state_model(t.prefix@[k]@));
        }
        t
    }

    /// The propositions true at position `i` (positions past the prefix
    /// wrap into the loop).
    pub fn props_at(&self, i: usize) -> (r: &[String])
        requires
            i < self.prefix.len() || self.loop_start < self.prefix.len(),
        ensures
            r@ == self.prefix@[self@.resolve(i as nat) as int]@,
    {
        let actual = self.resolve_index(i);
        self.prefix[actual].as_slice()
    }

    /// Whether proposition `prop` is true at position `i`.
    pub fn holds(&self, i: usize, prop: &str) -> (r: bool)
        requires
            i < self.prefix.len() || self.loop_start < self.prefix.len(),
        ensures
            r == self@.holds(i as nat, prop@),
    {
        let props = self.props_at(i);
        let target: String = prop.to_owned();
        let ghost k = self@.resolve(i as nat) as int;
        let ghost st = self@.states[k];
        assert(st == state_model(props@));
        let mut j: usize = 0;
        while j < props.len()
            invariant
                j <= props@.len(),
                st == state_model(props@),
                st == self@.states[self@.resolve(i as nat) as int],
                target@ == prop@,
                forall|m: int| 0 <= m < j ==> #[trigger] st[m] != prop@,
            decreases props@.len() - j,
        {
            if props[j] == target {
                assert(st[j as int] == prop@);
                assert(st.len() == props@.len());
                assert(st.contains(prop@));
                return true;
            }
            j = j + 1;
        }
        assert(!st.contains(prop@));
        false
    }

    /// The prefix index that absolute position `i` stands for.
    pub fn resolve_index(&self, i: usize) -> (r: usize)
        requires
            i < self.prefix.len() || self.loop_start <= self.prefix.len(),
        ensures
            r == self@.resolve(i as nat),
            (i < self.prefix.len() || self.loop_start < self.prefix.len()) ==> r < self.prefix.len(),
    {
        if i < self.prefix.len() {
            i
        } else {
            let loop_len = self.prefix.len() - self.loop_start;
            if loop_len == 0 {
                self.loop_start
            } else {
                self.loop_start + (i - self.loop_start) % loop_len
            }
        }
    }

    /// Length of the prefix.
    pub fn len(&self) -> (r: usize)
        ensures
            r == self.prefix.len(),
    {
        self.prefix.len()
    }

    /// Whether the prefix is empty (never so for a trace built by `new` or
    /// `simple`).
    pub fn is_empty(&self) -> (r: bool)
        ensures
            r == (self.prefix.len() == 0),
    {
        self.prefix.len() == 0
    }

    /// Length of the looping part.
    pub fn loop_period(&self) -> (r: usize)
        requires
            self.loop_start <= self.prefix.len(),
        ensures
            r == self@.period(),
    {
        self.prefix.len() - self.loop_start
    }

    /// Every proposition that occurs in the trace, each once, in order of
    /// first occurrence.
    pub fn all_propositions(&self) -> (r: Vec<String>)
        ensures
            state_model(r@) == first_occurrences(in_order(self@.states)),
            state_model(r@).no_duplicates(),
            state_model(r@).to_set() == self@.propositions(),
    {
        let mut out: Vec<String> = Vec::new();
        let ghost m = self@;
        let mut k: usize = 0;
        while k < self.prefix.len()
            invariant
                k <= self.prefix@.len(),
                m == self@,
                state_model(out@) == first_occurrences(in_order(m.states.subrange(0, k as int))),
                state_model(out@).no_duplicates(),
                forall|x: Seq<char>| #[trigger] state_model(out@).contains(x) <==> occurs_before(m, k as int, x),
            decreases self.prefix@.len() - k,
        {
            let state = &self.prefix[k];
            let ghost st = m.states[k as int];
            assert(st == state_model(state@));
            let mut j: usize = 0;
            while j < state.len()
                invariant
                    j <= state@.len(),
                    k < self.prefix@.len(),
                    m == self@,
                    st == m.states[k as int],
                    st == state_model(state@),
                    state_model(out@) == first_occurrences(in_order(m.states.subrange(0, k as int)) + st.subrange(
                        0,
                        j as int,
                    )),
                    state_model(out@).no_duplicates(),
                    forall|x: Seq<char>|
                        #[trigger] state_model(out@).contains(x) <==> (occurs_before(m, k as int, x)
                            || occurs_in(st, j as int, x)),
                decreases state@.len() - j,
            {
                let name = &state[j];
                let mut seen = false;
                let mut s: usize = 0;
                while s < out.len()
                    invariant
                        s <= out@.len(),
                        seen == (exists|c: int| 0 <= c < s && #[trigger] out@[c]@ == name@),
                    decreases out@.len() - s,
                {
                    if out[s] == *name {
                        seen = true;
                    }
                    s = s + 1;
                }
                let ghost before = state_model(out@);
                let ghost done = in_order(m.states.subrange(0, k as int)) + st.subrange(0, j as int);
                assert(done.push(name@) =~= in_order(m.states.subrange(0, k as int)) + st.subrange(0, j + 1));
                assert(done.push(name@).drop_last() =~= done);
                assert(seen == before.contains(name@)) by {
                    if seen {
                        let c = choose|c: int| 0 <= c < out@.len() && #[trigger] out@[c]@ == name@;
                        assert(before[c] == name@);
                    }
                    if before.contains(name@) {
                        let c = choose|c: int| 0 <= c < before.len() && before[c] == name@;
                        assert(out@[c]@ == name@);
                    }
                }
                assert(st[j as int] == name@);
                if !seen {
                    out.push(name.clone());
                    assert(state_model(out@) =~= before.push(name@));
                }
                let ghost after = state_model(out@);
                assert forall|x: Seq<char>| #[trigger] after.contains(x) <==> (before.contains(x) || x == name@) by {
                    if after.contains(x) {
                        let c = choose|c: int| 0 <= c < after.len() && after[c] == x;
                        if c < before.len() {
                            assert(before[c] == x);
                        }
                    }
                    if before.contains(x) {
                        let c = choose|c: int| 0 <= c < before.len() && before[c] == x;
                        assert(after[c] == x);
                    }
                    if x == name@ && !seen {
                        assert(after[before.len() as int] == x);
                    }
                }
                assert forall|x: Seq<char>|
                    #[trigger] occurs_in(st, j + 1, x) <==> (occurs_in(st, j as int, x) || x == name@) by {
                    if occurs_in(st, j + 1, x) {
                        let b = choose|b: int| 0 <= b < j + 1 && #[trigger] st[b] == x;
                        if b < j {
                            assert(st[b] == x);
                        }
                    }
                    if x == name@ {
                        assert(st[j as int] == x);
                    }
                }
                j = j + 1;
            }
            assert(st.subrange(0, j as int) =~= st);
            assert(m.states.subrange(0, k + 1).drop_last() =~= m.states.subrange(0, k as int));
            assert forall|x: Seq<char>|
                #[trigger] occurs_before(m, k + 1, x) <==> (occurs_before(m, k as int, x) || occurs_in(
                    st,
                    j as int,
                    x,
                )) by {
                if occurs_in(st, j as int, x) {
                    let b = choose|b: int| 0 <= b < j && #[trigger] st[b] == x;
                    assert(m.states[k as int][b] == x);
                }
                if occurs_before(m, k + 1, x) {
                    let (a, b) = choose|a: int, b: int|
                        0 <= a < k + 1 && 0 <= b < m.states[a].len() && #[trigger] m.states[a][b] == x;
                    if a == k {
                        assert(st[b] == x);
                    }
                }
            }
            k = k + 1;
        }
        assert(m.states.subrange(0, k as int) =~= m.states);
        assert(state_model(out@).to_set() =~= m.propositions()) by {
            assert forall|x: Seq<char>|
                state_model(out@).to_set().contains(x) <==> m.propositions().contains(x) by {
                if m.propositions().contains(x) {
                    let (a, b) = choose|a: int, b: int|
                        0 <= a < m.states.len() && 0 <= b < m.states[a].len() && #[trigger] m.states[a][b] == x;
                    assert(occurs_before(m, k as int, x));
                }
            }
        }
        out
    }
}

/// The propositions of `states`, state after state, each state's in order.
pub open spec fn in_order(states: Seq<Seq<Seq<char>>>) -> Seq<Seq<char>>
    decreases states.len(),
{
    if states.len() == 0 {
        Seq::empty()
    } else {
        in_order(states.drop_last()) + states.last()
    }
}

/// `s` with every element left out that occurred earlier.
pub open spec fn first_occurrences(s: Seq<Seq<char>>) -> Seq<Seq<char>>
    decreases s.len(),
{
    if s.len() == 0 {
        Seq::empty()
    } else {
        let front = first_occurrences(s.drop_last());
        if front.contains(s.last()) {
            front
        } else {
            front.push(s.last())
        }
    }
}

/// Proposition `x` occurs in one of the first `k` states.
spec fn occurs_before(m: TraceModel, k: int, x: Seq<char>) -> bool {
    exists|a: int, b: int| 0 <= a < k && 0 <= b < m.states[a].len() && #[trigger] m.states[a][b] == x
}

/// Proposition `x` is among the first `j` propositions of `st`.
spec fn occurs_in(st: Seq<Seq<char>>, j: int, x: Seq<char>) -> bool {
    exists|b: int| 0 <= b < j && #[trigger] st[b] == x
}

} // verus!
